//! Labels of permutations: every permutation of every size gets a distinct
//! number, made of the count of all shorter permutations and its Lehmer code.
use vstd::prelude::*;
use lehmer::Lehmer;
use crate::permutation::theory::{fact, sum_fact, is_permutation, lehmer_value, lehmer_upto, lehmer_digit, count_in, lemma_small_facts, lemma_fact_monotone, lemma_fact_pos, lemma_lehmer_range, lemma_lehmer_injective, lemma_digit_bounds, lemma_lehmer_gap, lemma_sum_fact_monotone};
use crate::permutation::permutation_helper::{reduce_permutation, reduce_spec};
use crate::permutation::constants::{SUM_FACTORIALS, FACTORIALS, lemma_sum_factorials_table, lemma_factorials_table};

verus! {

/// The label of a permutation of `0..n`: `0` for the empty one, and otherwise
/// the number of permutations of sizes below `n` plus its Lehmer code.
pub open spec fn label_of(s: Seq<u8>) -> int {
    if s.len() == 0 {
        0
    } else {
        sum_fact((s.len() - 1) as nat) + lehmer_value(s)
    }
}

/// Calls `lehmer::Lehmer::from_permutation` and then `Lehmer::to_decimal`.
/// Trusted: for a permutation of `0..n` with `n <= 12` the crate computes
/// each digit as the value less the number of smaller values before it and
/// sums the digits weighted by the factorials of the positions that follow,
/// which is `lehmer_value`; the result is below `12!` and fits in `u32`.
#[verifier::external_body]
pub fn get_lehmer_code_from_permutation(permutation: &Vec<u8>) -> (r: u32)
    requires
        is_permutation(permutation@, permutation@.len() as int),
        permutation@.len() <= 12,
    ensures
        r as int == lehmer_value(permutation@),
{
    Lehmer::from_permutation(&*permutation).to_decimal() as u32
}

/// Calls `lehmer::Lehmer::from_decimal` and then `Lehmer::to_permutation`.
/// Trusted: the crate reads `lehmer_code` in the factorial number system,
/// keeping the digits below `n` places (so the code is taken modulo `n!`),
/// and picks each value among those still unused by its digit; the result is
/// the permutation of `0..n` whose Lehmer code is `lehmer_code % n!`.
#[verifier::external_body]
pub fn get_permutation_from_lehmer_code(n: usize, lehmer_code: usize) -> (r: Vec<u8>)
    requires
        n <= 12,
    ensures
        is_permutation(r@, n as int),
        lehmer_value(r@) == lehmer_code as int % fact(n as nat) as int,
{
    Lehmer::from_decimal(lehmer_code, n).to_permutation()
}

/// `0! + 1! + ... + n!`, read from the table.
pub fn sum_factorial(n: u32) -> (r: u32)
    requires
        n < 13,
    ensures
        r as nat == sum_fact(n as nat),
{
    proof {
        lemma_sum_factorials_table(n as int);
    }
    SUM_FACTORIALS[n as usize]
}

/// `n!`, computed recursively.
pub fn factorial(n: u32) -> (r: u32)
    requires
        n <= 12,
    ensures
        r as nat == fact(n as nat),
    decreases n,
{
    if n == 0 {
        return 1;
    }
    let f = factorial(n - 1);
    proof {
        lemma_small_facts();
        lemma_fact_monotone((n - 1) as nat, 11);
        assert(n * f <= 12 * 39916800) by (nonlinear_arith)
            requires
                n <= 12,
                f <= 39916800,
        ;
    }
    n * f
}

pub proof fn lemma_label_size_bounds(s: Seq<u8>)
    requires
        is_permutation(s, s.len() as int),
    ensures
        s.len() == 0 ==> label_of(s) == 0,
        s.len() > 0 ==> sum_fact((s.len() - 1) as nat) <= label_of(s) < sum_fact(s.len() as nat),
{
    lemma_lehmer_range(s, s.len() as int);
}

/// Distinct permutations (of any sizes) have distinct labels.
pub proof fn lemma_label_injective(s: Seq<u8>, t: Seq<u8>)
    requires
        is_permutation(s, s.len() as int),
        is_permutation(t, t.len() as int),
        label_of(s) == label_of(t),
    ensures
        s == t,
{
    lemma_label_size_bounds(s);
    lemma_label_size_bounds(t);
    if s.len() < t.len() {
        lemma_sum_fact_monotone(s.len() as nat, (t.len() - 1) as nat);
        lemma_fact_pos(0);
        assert(sum_fact(0) == 1);
        lemma_sum_fact_monotone(0, (t.len() - 1) as nat);
    } else if t.len() < s.len() {
        lemma_sum_fact_monotone(t.len() as nat, (s.len() - 1) as nat);
        assert(sum_fact(0) == 1);
        lemma_sum_fact_monotone(0, (s.len() - 1) as nat);
    } else {
        if s.len() > 0 {
            lemma_lehmer_injective(s, t, s.len() as int);
        } else {
            assert(s =~= t);
        }
    }
}

/// The label of a permutation of size at most 12.
pub fn get_label_for_permutation(permutation: &Vec<u8>) -> (r: u32)
    requires
        is_permutation(permutation@, permutation@.len() as int),
        permutation@.len() <= 12,
    ensures
        r as int == label_of(permutation@),
{
    if permutation.len() == 0 {
        return 0;
    }
    let n = permutation.len() - 1;
    let starting_value = sum_factorial(n as u32);
    let code = get_lehmer_code_from_permutation(permutation);
    proof {
        lemma_label_size_bounds(permutation@);
        lemma_small_facts();
        lemma_sum_fact_monotone(permutation@.len() as nat, 12);
    }
    starting_value + code
}

/// The permutation carrying a given label: the label fixes the size, and the
/// remainder over the permutations of smaller sizes is the Lehmer code.
pub fn get_permutation_from_label(label: u32) -> (r: Vec<u8>)
    requires
        (label as int) < sum_fact(12),
    ensures
        is_permutation(r@, r@.len() as int),
        r@.len() <= 12,
        label_of(r@) == label as int,
{
    if label == 0 {
        return vec![];
    }
    let mut n: usize = 0;
    let mut size: usize = 0;
    while size < SUM_FACTORIALS.len()
        invariant_except_break
            n == 0,
        invariant
            0 < label,
            (label as int) < sum_fact(12),
            0 <= size <= 13,
            forall|m: nat| m < size ==> #[trigger] sum_fact(m) <= label as int,
        ensures
            1 <= n <= 12,
            (label as int) < sum_fact(n as nat),
            sum_fact((n - 1) as nat) <= label as int,
        decreases 13 - size,
    {
        proof {
            lemma_sum_factorials_table(size as int);
        }
        if label < SUM_FACTORIALS[size] {
            n = size;
            proof {
                assert(sum_fact(0) == 1);
                assert(n != 0);
                assert(sum_fact((n - 1) as nat) <= label as int);
            }
            break;
        }
        proof {
            if size == 12 {
                assert(false);
            }
        }
        size = size + 1;
    }
    proof {
        lemma_sum_factorials_table(n as int);
        lemma_sum_factorials_table(n - 1);
        assert(sum_fact(n as nat) == sum_fact((n - 1) as nat) + fact(n as nat));
    }
    let starting_code = SUM_FACTORIALS[n - 1];
    let lehmer_code = (label - starting_code) as usize;
    let r = get_permutation_from_lehmer_code(n, lehmer_code);
    proof {
        assert((lehmer_code as int) < fact(n as nat));
        vstd::arithmetic::div_mod::lemma_small_mod(lehmer_code as nat, fact(n as nat));
    }
    r
}

/// The permutation of `0..n` whose Lehmer code is `c` modulo `n!`.
pub open spec fn perm_of_code(n: int, c: int) -> Seq<u8> {
    choose|s: Seq<u8>| is_permutation(s, n) && lehmer_value(s) == c % (fact(n as nat) as int)
}

/// A permutation is pure when reducing it does not shorten it.
pub open spec fn is_pure(s: Seq<u8>) -> bool {
    reduce_spec(s).len() == s.len()
}

/// The codes below `k` of the pure permutations of size `n`, in increasing order.
pub open spec fn pure_codes(n: int, k: int) -> Seq<u32>
    decreases k,
{
    if k <= 0 {
        Seq::empty()
    } else if is_pure(perm_of_code(n, k - 1)) {
        pure_codes(n, k - 1).push((k - 1) as u32)
    } else {
        pure_codes(n, k - 1)
    }
}

/// Every code below `n!` names a permutation of `0..n` carrying that code.
pub open spec fn codes_decode(n: int) -> bool {
    forall|c: int|
        0 <= c < fact(n as nat) ==> is_permutation(#[trigger] perm_of_code(n, c), n) && lehmer_value(perm_of_code(n, c)) == c
}

/// Every code of a size up to 12 names a permutation of that size whose
/// Lehmer code it is: the first item is the code divided by `(n - 1)!`,
/// the rest the permutation of the remainder, one size smaller.
pub proof fn lemma_codes_decode(n: int)
    requires
        0 <= n <= 12,
    ensures
        codes_decode(n),
    decreases n,
{
    if n == 0 {
        assert forall|c: int| 0 <= c < fact(n as nat) implies is_permutation(#[trigger] perm_of_code(n, c), n) && lehmer_value(
            perm_of_code(n, c),
        ) == c by {
            let e = Seq::<u8>::empty();
            assert(lehmer_value(e) == 0);
            assert(c % (fact(0) as int) == 0);
            assert(is_permutation(e, n) && lehmer_value(e) == c % (fact(n as nat) as int));
        }
    } else {
        let m = n - 1;
        lemma_codes_decode(m);
        lemma_fact_pos(m as nat);
        let f = fact(m as nat) as int;
        assert(fact(n as nat) == n * f);
        assert forall|c: int| 0 <= c < fact(n as nat) implies is_permutation(#[trigger] perm_of_code(n, c), n) && lehmer_value(
            perm_of_code(n, c),
        ) == c by {
            let v = c / f;
            let r = c % f;
            vstd::arithmetic::div_mod::lemma_fundamental_div_mod(c, f);
            assert(0 <= r < f);
            assert(0 <= v < n) by (nonlinear_arith)
                requires
                    c == f * v + r,
                    0 <= r < f,
                    0 <= c < n * f,
                    f > 0,
            ;
            let t = perm_of_code(m, r);
            assert(is_permutation(t, m) && lehmer_value(t) == r);
            crate::permutation::theory::lemma_prepend_is_permutation(v, t, m);
            crate::permutation::theory::lemma_prepend_lehmer(v, t, m);
            let p = crate::permutation::theory::prepend_value(v, t);
            assert(lehmer_value(p) == c) by (nonlinear_arith)
                requires
                    lehmer_value(p) == v * f + r,
                    c == f * v + r,
            ;
            vstd::arithmetic::div_mod::lemma_small_mod(c as nat, fact(n as nat));
            assert(is_permutation(p, n) && lehmer_value(p) == c % (fact(n as nat) as int));
        }
    }
}

/// Any permutation with the right code is the one `perm_of_code` names.
pub proof fn lemma_perm_of_code(s: Seq<u8>, n: int, c: int)
    requires
        is_permutation(s, n),
        lehmer_value(s) == c % (fact(n as nat) as int),
    ensures
        s == perm_of_code(n, c),
{
    let t = perm_of_code(n, c);
    assert(is_permutation(t, n) && lehmer_value(t) == c % (fact(n as nat) as int));
    lemma_lehmer_injective(s, t, n);
}

/// The Lehmer codes of the pure permutations of a size up to 12, in
/// increasing order (for size `0`, the single code `0`).
pub fn get_all_pure_lehmer_codes_of_size(size: u8) -> (r: Vec<u32>)
    requires
        size <= 12,
    ensures
        size == 0 ==> r@ == seq![0u32],
        size > 0 ==> r@ == pure_codes(size as int, fact(size as nat) as int),
{
    if size == 0 {
        return vec![0];
    }
    let mut list: Vec<u32> = vec![];
    let total = FACTORIALS[size as usize];
    proof {
        lemma_factorials_table(size as int);
    }
    for lehmer_code in 0..total
        invariant
            1 <= size <= 12,
            list@ == pure_codes(size as int, lehmer_code as int),
    {
        let permutation: Vec<u8> = get_permutation_from_lehmer_code(size as usize, lehmer_code as usize);
        let reduced_permutation = reduce_permutation(&permutation);
        proof {
            lemma_perm_of_code(permutation@, size as int, lehmer_code as int);
        }
        if permutation.len() == reduced_permutation.len() {
            list.push(lehmer_code as u32);
        }
    }
    return list;
}

/// The hand-written Lehmer code: for each position, its value less the
/// smaller values before it (which is the number of smaller values after
/// it), weighted by the factorial of the positions after.
pub fn get_personal_lehmer_from_permutation(permutation: &Vec<u8>) -> (r: u32)
    requires
        is_permutation(permutation@, permutation@.len() as int),
        permutation@.len() <= 12,
    ensures
        r as int == lehmer_value(permutation@),
        r as int == crate::permutation::theory::lehmer_after_upto(permutation@, permutation@.len() as int),
{
    let mut lehmer_code: u32 = 0;
    let n = permutation.len();
    let ghost p = permutation@;
    proof {
        crate::permutation::theory::lemma_lehmer_counts_after(p, n as int, n as int);
        lemma_lehmer_range(p, n as int);
        lemma_small_facts();
        lemma_fact_monotone(n as nat, 12);
    }
    for pos in 0..n
        invariant
            n == p.len(),
            p == permutation@,
            n <= 12,
            is_permutation(p, n as int),
            lehmer_value(p) < fact(12),
            lehmer_code as int == lehmer_upto(p, pos as int),
    {
        let mut ct_of_smaller_to_left: u8 = 0;
        for pos_2 in 0..pos
            invariant
                n == p.len(),
                p == permutation@,
                pos < n,
                n <= 12,
                ct_of_smaller_to_left as int == count_in(p, pos_2 as int, 0, p[pos as int] as int),
                ct_of_smaller_to_left <= pos_2,
        {
            if permutation[pos_2] < permutation[pos] {
                ct_of_smaller_to_left += 1;
            }
        }
        proof {
            lemma_digit_bounds(p, n as int, pos as int);
            lemma_lehmer_gap(p, n as int, pos as int + 1, n as int);
            lemma_lehmer_gap(p, n as int, 0, pos as int);
            assert(lehmer_upto(p, 0) == 0);
            lemma_factorials_table(n - pos - 1);
            lemma_fact_pos((n - pos - 1) as nat);
            let d = lehmer_digit(p, pos as int);
            let f = fact((n - pos - 1) as nat);
            assert(d * f >= 0) by (nonlinear_arith)
                requires
                    d >= 0,
                    f >= 0,
            ;
            assert(lehmer_upto(p, pos + 1) == lehmer_upto(p, pos as int) + d * f);
            assert(d == permutation[pos as int] - ct_of_smaller_to_left);
            lemma_small_facts();
            assert(FACTORIALS@[n - pos - 1] as int == f);
            assert(lehmer_upto(p, pos + 1) <= lehmer_value(p));
            assert(d * f < 479001600);
        }
        let weight = FACTORIALS[n - pos - 1];
        let digit = (permutation[pos] - ct_of_smaller_to_left) as u32;
        proof {
            assert(weight * digit == lehmer_digit(p, pos as int) * fact((n - pos - 1) as nat)) by (nonlinear_arith)
                requires
                    weight as int == fact((n - pos - 1) as nat),
                    digit as int == lehmer_digit(p, pos as int),
            ;
        }
        lehmer_code += weight * digit;
    }
    lehmer_code
}

} // verus!
