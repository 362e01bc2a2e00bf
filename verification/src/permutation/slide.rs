//! How the Lehmer code of a permutation changes when one item slides left
//! past a block of items.
use vstd::prelude::*;
use crate::permutation::theory::{
    fact, is_permutation, count_in, lehmer_digit, lehmer_upto, lehmer_value,
    lemma_lehmer_prefix,
};
use crate::permutation::precompute::moved_item;

verus! {

/// Sum over positions `i` in `[a, t)` of `d_i * (n-2-i)! - d_i * (n-1-i)!`:
/// what the Lehmer code changes by when those items each move one position
/// right with unchanged digits.
pub open spec fn run_part(p: Seq<u8>, a: int, t: int) -> int
    decreases t - a,
{
    if t <= a {
        0
    } else {
        run_part(p, a, t - 1) + lehmer_digit(p, t - 1) * fact((p.len() - 1 - t) as nat)
            - lehmer_digit(p, t - 1) * fact((p.len() - t) as nat)
    }
}

/// Sum over positions `i` in `[a, t)` holding a value above `x` of `(n-2-i)!`.
pub open spec fn big_part(p: Seq<u8>, x: int, a: int, t: int) -> int
    decreases t - a,
{
    if t <= a {
        0
    } else {
        big_part(p, x, a, t - 1) + if (p[t - 1] as int) > x {
            fact((p.len() - 1 - t) as nat) as int
        } else {
            0
        }
    }
}

/// Where the items of `moved_item(p, o, a)` come from.
pub proof fn lemma_moved_index(p: Seq<u8>, o: int, a: int)
    requires
        0 <= a <= o < p.len(),
    ensures
        moved_item(p, o, a).len() == p.len(),
        forall|j: int| 0 <= j < a ==> #[trigger] moved_item(p, o, a)[j] == p[j],
        moved_item(p, o, a)[a] == p[o],
        forall|j: int| a < j <= o ==> #[trigger] moved_item(p, o, a)[j] == p[j - 1],
        forall|j: int| o < j < p.len() ==> #[trigger] moved_item(p, o, a)[j] == p[j],
{
}

/// Counting over a prefix of the moved sequence.
proof fn lemma_moved_counts(p: Seq<u8>, o: int, a: int, j: int, lo: int, hi: int)
    requires
        0 <= a <= o < p.len(),
        0 <= j <= p.len(),
    ensures
        j <= a ==> count_in(moved_item(p, o, a), j, lo, hi) == count_in(p, j, lo, hi),
        a < j <= o + 1 ==> count_in(moved_item(p, o, a), j, lo, hi) == count_in(p, j - 1, lo, hi) + if lo
            <= p[o] < hi {
            1int
        } else {
            0int
        },
        o < j ==> count_in(moved_item(p, o, a), j, lo, hi) == count_in(p, j, lo, hi),
    decreases j,
{
    lemma_moved_index(p, o, a);
    let q = moved_item(p, o, a);
    if j > 0 {
        lemma_moved_counts(p, o, a, j - 1, lo, hi);
    }
    if j == o + 1 {
        assert(count_in(p, o + 1, lo, hi) == count_in(p, o, lo, hi) + if lo <= p[o] < hi { 1nat } else { 0nat });
    }
}

/// The moved sequence is still a permutation... its digits, position by position.
proof fn lemma_moved_digits(p: Seq<u8>, o: int, a: int, j: int)
    requires
        0 <= a <= o < p.len(),
        0 <= j < p.len(),
    ensures
        j < a ==> lehmer_digit(moved_item(p, o, a), j) == lehmer_digit(p, j),
        j == a ==> lehmer_digit(moved_item(p, o, a), j) == p[o] - count_in(p, a, 0, p[o] as int),
        a < j <= o ==> lehmer_digit(moved_item(p, o, a), j) == lehmer_digit(p, j - 1) - if p[o] < p[j - 1] {
            1int
        } else {
            0int
        },
        o < j ==> lehmer_digit(moved_item(p, o, a), j) == lehmer_digit(p, j),
{
    lemma_moved_index(p, o, a);
    let q = moved_item(p, o, a);
    lemma_moved_counts(p, o, a, j, 0, q[j] as int);
}

/// The Lehmer code of the permutation after sliding the item at `o` left to
/// position `a`, in terms of the digits of the permutation before.
pub proof fn lemma_moved_lehmer(p: Seq<u8>, n: int, o: int, a: int)
    requires
        is_permutation(p, n),
        0 <= a < o < n,
    ensures
        lehmer_value(moved_item(p, o, a)) - lehmer_value(p) == run_part(p, a, o) + (p[o] - count_in(p, a, 0, p[o] as int))
            * fact((n - 1 - a) as nat) - (p[o] - count_in(p, o, 0, p[o] as int)) * fact((n - 1 - o) as nat) - big_part(
            p,
            p[o] as int,
            a,
            o,
        ),
{
    let q = moved_item(p, o, a);
    lemma_moved_index(p, o, a);
    lemma_lehmer_prefix(p, q, a);
    lemma_moved_sums(p, n, o, a, o + 1);
    lemma_moved_tail(p, n, o, a, n);
    lemma_moved_digits(p, o, a, o);
    assert(lehmer_upto(p, o + 1) == lehmer_upto(p, o) + lehmer_digit(p, o) * fact((n - 1 - o) as nat));
}

/// Partial sums of the moved sequence inside the slid range.
proof fn lemma_moved_sums(p: Seq<u8>, n: int, o: int, a: int, k: int)
    requires
        is_permutation(p, n),
        0 <= a < o < n,
        a < k <= o + 1,
        lehmer_upto(moved_item(p, o, a), a) == lehmer_upto(p, a),
    ensures
        lehmer_upto(moved_item(p, o, a), k) == lehmer_upto(p, k - 1) + (p[o] - count_in(p, a, 0, p[o] as int)) * fact(
            (n - 1 - a) as nat,
        ) + run_part(p, a, k - 1) - big_part(p, p[o] as int, a, k - 1),
    decreases k,
{
    let q = moved_item(p, o, a);
    lemma_moved_index(p, o, a);
    if k == a + 1 {
        lemma_moved_digits(p, o, a, a);
    } else {
        lemma_moved_sums(p, n, o, a, k - 1);
        lemma_moved_digits(p, o, a, k - 1);
        let d = lehmer_digit(p, k - 2);
        let f1 = fact((n - k) as nat) as int;
        let f0 = fact((n - k + 1) as nat) as int;
        assert(lehmer_upto(q, k) == lehmer_upto(q, k - 1) + lehmer_digit(q, k - 1) * f1);
        assert(lehmer_upto(p, k - 1) == lehmer_upto(p, k - 2) + d * f0);
        if p[o] < p[k - 2] {
            assert((d - 1) * f1 == d * f1 - f1) by (nonlinear_arith);
        } else {
            assert((d - 0) * f1 == d * f1);
        }
    }
}

/// Past the slid range, both permutations gain the same weighted digits.
proof fn lemma_moved_tail(p: Seq<u8>, n: int, o: int, a: int, k: int)
    requires
        is_permutation(p, n),
        0 <= a < o < n,
        o + 1 <= k <= n,
    ensures
        lehmer_upto(moved_item(p, o, a), k) - lehmer_upto(p, k) == lehmer_upto(moved_item(p, o, a), o + 1) - lehmer_upto(
            p,
            o + 1,
        ),
    decreases k,
{
    if k > o + 1 {
        lemma_moved_tail(p, n, o, a, k - 1);
        lemma_moved_digits(p, o, a, k - 1);
        lemma_moved_index(p, o, a);
    }
}

} // verus!
