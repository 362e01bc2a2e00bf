//! Tables of factorials and of their running sums for sizes up to 12.
use vstd::prelude::*;
use crate::permutation::theory::{fact, sum_fact, lemma_small_facts};

verus! {

/// `SUM_FACTORIALS[n] == 0! + 1! + ... + n!`: the number of labels taken by
/// all permutations of size at most `n`.
pub const SUM_FACTORIALS: [u32; 13] =
    [1, 2, 4, 10, 34, 154, 874, 5914, 46234, 409114, 4037914, 43954714, 522956314];

/// `FACTORIALS[n] == n!`
pub const FACTORIALS: [u32; 13] =
    [1, 1, 2, 6, 24, 120, 720, 5040, 40320, 362880, 3628800, 39916800, 479001600];

/// The table `SUM_FACTORIALS` holds the running sums of factorials.
pub proof fn lemma_sum_factorials_table(n: int)
    requires
        0 <= n < 13,
    ensures
        SUM_FACTORIALS@[n] as nat == sum_fact(n as nat),
{
    lemma_small_facts();
}

/// The table `FACTORIALS` holds the factorials.
pub proof fn lemma_factorials_table(n: int)
    requires
        0 <= n < 13,
    ensures
        FACTORIALS@[n] as nat == fact(n as nat),
{
    lemma_small_facts();
}

pub fn get_sum_factorials(n: usize) -> (r: u32)
    requires
        n < 13,
    ensures
        r as nat == sum_fact(n as nat),
{
    proof {
        lemma_sum_factorials_table(n as int);
    }
    SUM_FACTORIALS[n]
}

pub fn get_factorial(n: usize) -> (r: u32)
    requires
        n < 13,
    ensures
        r as nat == fact(n as nat),
{
    proof {
        lemma_factorials_table(n as int);
    }
    FACTORIALS[n]
}

} // verus!
