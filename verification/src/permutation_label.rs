//! A first, self-contained form of permutation labels that sums the
//! factorials itself instead of reading them from a table.
use vstd::prelude::*;
use crate::permutation::theory::{fact, sum_fact, is_permutation, lemma_small_facts, lemma_fact_monotone};
use crate::permutation::permutation_label::{label_of, get_lehmer_code_from_permutation, lemma_label_size_bounds};

verus! {

/// The label of a permutation of size at most 12 (see `label_of`).
pub fn get_label_for_permutation(permutation: Vec<u8>) -> (r: u32)
    requires
        is_permutation(permutation@, permutation@.len() as int),
        permutation@.len() <= 12,
    ensures
        r as int == label_of(permutation@),
{
    if permutation.len() == 0 {
        return 0;
    }
    let n = permutation.len() - 1;
    let starting_value = sum_factorial(n as u32);
    let code = get_lehmer_code_from_permutation(&permutation);
    proof {
        lemma_label_size_bounds(permutation@);
        lemma_small_facts();
        lemma_sum_fact_le(permutation@.len() as nat);
    }
    return starting_value + code;
}

proof fn lemma_sum_fact_le(n: nat)
    requires
        n <= 12,
    ensures
        sum_fact(n) <= sum_fact(12),
    decreases 12 - n,
{
    if n < 12 {
        lemma_sum_fact_le(n + 1);
    }
}

/// `n!`, computed recursively.
pub fn factorial(n: u32) -> (r: u32)
    requires
        n <= 12,
    ensures
        r as nat == fact(n as nat),
    decreases n,
{
    if n == 0 {
        return 1;
    };
    let f = factorial(n - 1);
    proof {
        lemma_small_facts();
        lemma_fact_monotone((n - 1) as nat, 11);
        assert(n * f <= 12 * 39916800) by (nonlinear_arith)
            requires
                n <= 12,
                f <= 39916800,
        ;
    }
    n * f
}

/// `0! + 1! + ... + n!`, summing the factorials one by one.
pub fn sum_factorial(n: u32) -> (r: u32)
    requires
        n <= 12,
    ensures
        r as nat == sum_fact(n as nat),
{
    let mut sum: u32 = 0;
    let mut i: u32 = 0;
    while i <= n
        invariant
            n <= 12,
            i <= n + 1,
            i == 0 ==> sum == 0,
            i > 0 ==> sum as nat == sum_fact((i - 1) as nat),
        decreases n + 1 - i,
    {
        let f = factorial(i);
        proof {
            lemma_small_facts();
            lemma_sum_fact_le(i as nat);
        }
        sum += f;
        i += 1;
    }
    sum
}

} // verus!
