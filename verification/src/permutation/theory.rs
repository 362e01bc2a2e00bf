//! Mathematical vocabulary shared by the whole library: factorials, what a
//! permutation is, counting values by range, and the Lehmer code.
use vstd::prelude::*;

verus! {

/// `n!`
pub open spec fn fact(n: nat) -> nat
    decreases n,
{
    if n == 0 {
        1
    } else {
        n * fact((n - 1) as nat)
    }
}

/// `0! + 1! + ... + n!`
pub open spec fn sum_fact(n: nat) -> nat
    decreases n,
{
    if n == 0 {
        1
    } else {
        sum_fact((n - 1) as nat) + fact(n)
    }
}

pub proof fn lemma_fact_pos(n: nat)
    ensures
        fact(n) >= 1,
    decreases n,
{
    if n > 0 {
        lemma_fact_pos((n - 1) as nat);
        assert(n * fact((n - 1) as nat) >= 1) by (nonlinear_arith)
            requires
                n >= 1,
                fact((n - 1) as nat) >= 1,
        ;
    }
}

pub proof fn lemma_fact_monotone(a: nat, b: nat)
    requires
        a <= b,
    ensures
        fact(a) <= fact(b),
    decreases b - a,
{
    if a < b {
        lemma_fact_monotone(a, (b - 1) as nat);
        lemma_fact_pos((b - 1) as nat);
        assert(b * fact((b - 1) as nat) >= fact((b - 1) as nat)) by (nonlinear_arith)
            requires
                b >= 1,
        ;
    }
}

pub proof fn lemma_sum_fact_monotone(a: nat, b: nat)
    requires
        a <= b,
    ensures
        sum_fact(a) <= sum_fact(b),
    decreases b - a,
{
    if a < b {
        lemma_sum_fact_monotone(a, (b - 1) as nat);
    }
}

/// The factorials and their running sums up to `12`, which fit in 32 bits.
pub proof fn lemma_small_facts()
    ensures
        fact(0) == 1,
        fact(1) == 1,
        fact(2) == 2,
        fact(3) == 6,
        fact(4) == 24,
        fact(5) == 120,
        fact(6) == 720,
        fact(7) == 5040,
        fact(8) == 40320,
        fact(9) == 362880,
        fact(10) == 3628800,
        fact(11) == 39916800,
        fact(12) == 479001600,
        fact(13) == 6227020800,
        sum_fact(0) == 1,
        sum_fact(1) == 2,
        sum_fact(2) == 4,
        sum_fact(3) == 10,
        sum_fact(4) == 34,
        sum_fact(5) == 154,
        sum_fact(6) == 874,
        sum_fact(7) == 5914,
        sum_fact(8) == 46234,
        sum_fact(9) == 409114,
        sum_fact(10) == 4037914,
        sum_fact(11) == 43954714,
        sum_fact(12) == 522956314,
{
    reveal_with_fuel(fact, 14);
    reveal_with_fuel(sum_fact, 14);
}


/// `s` is a permutation of `0..n`: it has length `n`, its values lie below `n`
/// and no value occurs twice.
pub open spec fn is_permutation(s: Seq<u8>, n: int) -> bool {
    &&& s.len() == n
    &&& forall|i: int| 0 <= i < n ==> (#[trigger] s[i] as int) < n
    &&& forall|i: int, j: int| 0 <= i < j < n ==> #[trigger] s[i] != #[trigger] s[j]
}

/// No value occurs twice among the first `k` entries of `s`.
pub open spec fn distinct_upto(s: Seq<u8>, k: int) -> bool {
    forall|i: int, j: int| 0 <= i < j < k ==> #[trigger] s[i] != #[trigger] s[j]
}

/// Number of positions `i < k` of `s` whose value lies in `[lo, hi)`.
pub open spec fn count_in(s: Seq<u8>, k: int, lo: int, hi: int) -> nat
    decreases k,
{
    if k <= 0 {
        0
    } else {
        count_in(s, k - 1, lo, hi) + if lo <= s[k - 1] < hi {
            1nat
        } else {
            0nat
        }
    }
}

/// The values in `[lo, hi)` that occur among the first `k` entries of `s`.
pub open spec fn values_in(s: Seq<u8>, k: int, lo: int, hi: int) -> Set<int> {
    Set::new(|v: int| lo <= v < hi && exists|i: int| 0 <= i < k && s[i] as int == v)
}

pub proof fn lemma_count_le_len(s: Seq<u8>, k: int, lo: int, hi: int)
    requires
        0 <= k,
    ensures
        count_in(s, k, lo, hi) <= k,
    decreases k,
{
    if k > 0 {
        lemma_count_le_len(s, k - 1, lo, hi);
    }
}

/// Counting over adjacent value ranges adds up.
pub proof fn lemma_count_split(s: Seq<u8>, k: int, lo: int, mid: int, hi: int)
    requires
        lo <= mid <= hi,
    ensures
        count_in(s, k, lo, mid) + count_in(s, k, mid, hi) == count_in(s, k, lo, hi),
    decreases k,
{
    if k > 0 {
        lemma_count_split(s, k - 1, lo, mid, hi);
    }
}

/// Counting over the first `k` entries only looks at those entries.
pub proof fn lemma_count_prefix(s: Seq<u8>, t: Seq<u8>, k: int, lo: int, hi: int)
    requires
        k <= s.len(),
        k <= t.len(),
        forall|i: int| 0 <= i < k ==> s[i] == t[i],
    ensures
        count_in(s, k, lo, hi) == count_in(t, k, lo, hi),
    decreases k,
{
    if k > 0 {
        lemma_count_prefix(s, t, k - 1, lo, hi);
    }
}

/// When every one of the first `k` values lies in `[lo, hi)`, all `k` are counted.
pub proof fn lemma_count_all(s: Seq<u8>, k: int, lo: int, hi: int)
    requires
        0 <= k <= s.len(),
        forall|i: int| 0 <= i < k ==> lo <= #[trigger] s[i] < hi,
    ensures
        count_in(s, k, lo, hi) == k,
    decreases k,
{
    if k > 0 {
        lemma_count_all(s, k - 1, lo, hi);
    }
}

/// A count above zero has a witness.
pub proof fn lemma_count_witness(s: Seq<u8>, k: int, lo: int, hi: int) -> (i: int)
    requires
        count_in(s, k, lo, hi) > 0,
    ensures
        0 <= i < k,
        lo <= s[i] < hi,
    decreases k,
{
    if lo <= s[k - 1] < hi {
        k - 1
    } else {
        lemma_count_witness(s, k - 1, lo, hi)
    }
}

/// A count is zero when no entry has its value in the range.
pub proof fn lemma_count_none(s: Seq<u8>, k: int, lo: int, hi: int)
    requires
        forall|i: int| 0 <= i < k ==> !(lo <= #[trigger] s[i] < hi),
    ensures
        count_in(s, k, lo, hi) == 0,
    decreases k,
{
    if k > 0 {
        lemma_count_none(s, k - 1, lo, hi);
    }
}

proof fn lemma_values_in_card(s: Seq<u8>, k: int, lo: int, hi: int)
    requires
        0 <= k <= s.len(),
        lo <= hi,
        distinct_upto(s, k),
    ensures
        values_in(s, k, lo, hi).finite(),
        values_in(s, k, lo, hi).len() == count_in(s, k, lo, hi),
    decreases k,
{
    vstd::set_lib::lemma_int_range(lo, hi);
    assert(values_in(s, k, lo, hi).subset_of(vstd::set_lib::set_int_range(lo, hi)));
    vstd::set_lib::lemma_len_subset(values_in(s, k, lo, hi), vstd::set_lib::set_int_range(lo, hi));
    if k == 0 {
        assert(values_in(s, k, lo, hi) =~= Set::empty());
    } else {
        lemma_values_in_card(s, k - 1, lo, hi);
        let v = s[k - 1] as int;
        if lo <= v < hi {
            assert(!values_in(s, k - 1, lo, hi).contains(v));
            assert(values_in(s, k, lo, hi) =~= values_in(s, k - 1, lo, hi).insert(v));
        } else {
            assert(values_in(s, k, lo, hi) =~= values_in(s, k - 1, lo, hi));
        }
    }
}

/// Pigeonhole: distinct values drawn from `[lo, hi)` number at most `hi - lo`.
pub proof fn lemma_pigeonhole(s: Seq<u8>, k: int, lo: int, hi: int)
    requires
        0 <= k <= s.len(),
        distinct_upto(s, k),
    ensures
        count_in(s, k, lo, hi) <= if hi >= lo { hi - lo } else { 0 },
{
    if lo <= hi {
        lemma_values_in_card(s, k, lo, hi);
        vstd::set_lib::lemma_int_range(lo, hi);
        assert(values_in(s, k, lo, hi).subset_of(vstd::set_lib::set_int_range(lo, hi)));
        vstd::set_lib::lemma_len_subset(values_in(s, k, lo, hi), vstd::set_lib::set_int_range(lo, hi));
    } else {
        lemma_count_none(s, k, lo, hi);
    }
}

/// A permutation of `0..n` takes every value below `n`.
pub proof fn lemma_permutation_onto(s: Seq<u8>, n: int, v: int) -> (i: int)
    requires
        is_permutation(s, n),
        0 <= v < n,
    ensures
        0 <= i < n,
        s[i] as int == v,
{
    lemma_count_all(s, n, 0, n);
    lemma_count_split(s, n, 0, v, n);
    lemma_count_split(s, n, v, v + 1, n);
    lemma_pigeonhole(s, n, 0, v);
    lemma_pigeonhole(s, n, v + 1, n);
    lemma_count_witness(s, n, v, v + 1)
}

/// Entries at positions from `a` up to (not including) `k` holding a value
/// below `x`.
pub open spec fn count_between(s: Seq<u8>, a: int, k: int, x: int) -> nat
    decreases k - a,
{
    if k <= a {
        0
    } else {
        count_between(s, a, k - 1, x) + if (s[k - 1] as int) < x {
            1nat
        } else {
            0nat
        }
    }
}

/// Entries after position `i` holding a smaller value.
pub open spec fn smaller_after(s: Seq<u8>, i: int) -> nat {
    count_between(s, i + 1, s.len() as int, s[i] as int)
}

/// The Lehmer code read from the smaller values after each position,
/// weighted by the factorial of the number of positions after it, over
/// the first `k` positions.
pub open spec fn lehmer_after_upto(s: Seq<u8>, k: int) -> int
    decreases k,
{
    if k <= 0 {
        0
    } else {
        lehmer_after_upto(s, k - 1) + smaller_after(s, k - 1) * fact((s.len() - k) as nat)
    }
}

proof fn lemma_count_between_split(s: Seq<u8>, a: int, k: int, x: int)
    requires
        0 <= a <= k,
    ensures
        count_in(s, k, 0, x) == count_in(s, a, 0, x) + count_between(s, a, k, x),
    decreases k - a,
{
    if k > a {
        lemma_count_between_split(s, a, k - 1, x);
    }
}

/// In a permutation of `0..n`, the smaller values after a position are its
/// value less the smaller values before it: the Lehmer digit.
pub proof fn lemma_smaller_after_is_digit(s: Seq<u8>, n: int, i: int)
    requires
        is_permutation(s, n),
        0 <= i < n,
    ensures
        smaller_after(s, i) == lehmer_digit(s, i),
{
    let v = s[i] as int;
    lemma_count_all(s, n, 0, n);
    lemma_count_split(s, n, 0, v, n);
    lemma_count_split(s, n, v, v + 1, n);
    lemma_pigeonhole(s, n, 0, v);
    assert(distinct_upto(s, n));
    lemma_pigeonhole(s, n, v + 1, n);
    lemma_pigeonhole(s, n, v, v + 1);
    assert(count_in(s, n, 0, v) == v);
    lemma_count_between_split(s, i + 1, n, v);
    assert(count_in(s, i + 1, 0, v) == count_in(s, i, 0, v));
}

/// The Lehmer code of a permutation of `0..n` is also the sum, over the
/// positions, of the smaller values after each, weighted by the factorial
/// of the number of positions after it.
pub proof fn lemma_lehmer_counts_after(s: Seq<u8>, n: int, k: int)
    requires
        is_permutation(s, n),
        0 <= k <= n,
    ensures
        lehmer_after_upto(s, k) == lehmer_upto(s, k),
    decreases k,
{
    if k > 0 {
        lemma_lehmer_counts_after(s, n, k - 1);
        lemma_smaller_after_is_digit(s, n, k - 1);
    }
}

/// Entries before position `i` holding a smaller value.
pub open spec fn smaller_before(s: Seq<u8>, i: int) -> nat {
    count_in(s, i, 0, s[i] as int)
}

/// The Lehmer digit of position `i`: its value less the smaller values before it.
pub open spec fn lehmer_digit(s: Seq<u8>, i: int) -> int {
    s[i] - smaller_before(s, i)
}

/// Sum of the first `k` Lehmer digits, each weighted by the factorial of the
/// number of positions after it.
pub open spec fn lehmer_upto(s: Seq<u8>, k: int) -> int
    decreases k,
{
    if k <= 0 {
        0
    } else {
        lehmer_upto(s, k - 1) + lehmer_digit(s, k - 1) * fact((s.len() - k) as nat)
    }
}

/// The Lehmer code of `s` read as a number in the factorial number system.
pub open spec fn lehmer_value(s: Seq<u8>) -> int {
    lehmer_upto(s, s.len() as int)
}

/// Each Lehmer digit of a permutation of `0..n` at position `i` lies in `[0, n - 1 - i]`.
pub proof fn lemma_digit_bounds(s: Seq<u8>, n: int, i: int)
    requires
        is_permutation(s, n),
        0 <= i < n,
    ensures
        0 <= lehmer_digit(s, i) <= n - 1 - i,
{
    let v = s[i] as int;
    assert(distinct_upto(s, i));
    lemma_pigeonhole(s, i, 0, v);
    lemma_count_all(s, i, 0, n);
    lemma_count_split(s, i, 0, v, n);
    lemma_count_split(s, i, v, v + 1, n);
    lemma_count_none(s, i, v, v + 1);
    lemma_pigeonhole(s, i, v + 1, n);
}

/// The digits from position `i` up to `k` add at most `(n-i)! - (n-k)!`.
pub proof fn lemma_lehmer_gap(s: Seq<u8>, n: int, i: int, k: int)
    requires
        is_permutation(s, n),
        0 <= i <= k <= n,
    ensures
        lehmer_upto(s, i) <= lehmer_upto(s, k),
        lehmer_upto(s, k) - lehmer_upto(s, i) + fact((n - k) as nat) <= fact((n - i) as nat),
    decreases k - i,
{
    if k > i {
        lemma_lehmer_gap(s, n, i, k - 1);
        lemma_digit_bounds(s, n, k - 1);
        let d = lehmer_digit(s, k - 1);
        let f = fact((n - k) as nat);
        assert(fact((n - k + 1) as nat) == (n - k + 1) * f);
        assert(0 <= d * f && d * f + f <= (n - k + 1) * f) by (nonlinear_arith)
            requires
                0 <= d <= n - k,
                f >= 0,
        ;
        assert(lehmer_upto(s, k) == lehmer_upto(s, k - 1) + d * f);
    }
}

/// The Lehmer code of a permutation of `0..n` lies in `[0, n!)`.
pub proof fn lemma_lehmer_range(s: Seq<u8>, n: int)
    requires
        is_permutation(s, n),
    ensures
        0 <= lehmer_value(s) < fact(n as nat),
{
    lemma_lehmer_gap(s, n, 0, n);
    assert(lehmer_upto(s, 0) == 0);
}

/// The weighted digit sum over a prefix only depends on that prefix.
pub proof fn lemma_lehmer_prefix(s: Seq<u8>, t: Seq<u8>, k: int)
    requires
        s.len() == t.len(),
        0 <= k <= s.len(),
        forall|i: int| 0 <= i < k ==> s[i] == t[i],
    ensures
        lehmer_upto(s, k) == lehmer_upto(t, k),
    decreases k,
{
    if k > 0 {
        lemma_lehmer_prefix(s, t, k - 1);
        lemma_count_prefix(s, t, k - 1, 0, s[k - 1] as int);
    }
}

/// Two permutations of `0..n` with the same Lehmer code are equal.
pub proof fn lemma_lehmer_injective(s: Seq<u8>, t: Seq<u8>, n: int)
    requires
        is_permutation(s, n),
        is_permutation(t, n),
        lehmer_value(s) == lehmer_value(t),
    ensures
        s == t,
{
    lemma_lehmer_agree_upto(s, t, n, n);
    assert(s =~= t);
}

proof fn lemma_lehmer_agree_upto(s: Seq<u8>, t: Seq<u8>, n: int, k: int)
    requires
        is_permutation(s, n),
        is_permutation(t, n),
        lehmer_value(s) == lehmer_value(t),
        0 <= k <= n,
    ensures
        forall|i: int| 0 <= i < k ==> s[i] == t[i],
    decreases k,
{
    if k > 0 {
        let i = k - 1;
        lemma_lehmer_agree_upto(s, t, n, i);
        lemma_lehmer_prefix(s, t, i);
        lemma_lehmer_gap(s, n, i + 1, n);
        lemma_lehmer_gap(t, n, i + 1, n);
        lemma_digit_bounds(s, n, i);
        lemma_digit_bounds(t, n, i);
        let w = fact((n - k) as nat);
        let ds = lehmer_digit(s, i);
        let dt = lehmer_digit(t, i);
        let bs = lehmer_value(s) - lehmer_upto(s, k);
        let bt = lehmer_value(t) - lehmer_upto(t, k);
        assert(lehmer_upto(s, k) == lehmer_upto(s, i) + ds * w);
        assert(lehmer_upto(t, k) == lehmer_upto(t, i) + dt * w);
        assert(ds == dt) by {
            assert(ds * w + bs == dt * w + bt);
            assert(0 <= bs < w && 0 <= bt < w) by {
                assert(fact(0) == 1);
            }
            if ds < dt {
                assert(ds * w + w <= dt * w) by (nonlinear_arith)
                    requires
                        ds < dt,
                        w >= 0,
                ;
            } else if dt < ds {
                assert(dt * w + w <= ds * w) by (nonlinear_arith)
                    requires
                        dt < ds,
                        w >= 0,
                ;
            }
        }
        lemma_digit_determines_value(s, t, n, i);
    }
}

/// At a position where two permutations agree before and have equal digits,
/// they hold the same value.
proof fn lemma_digit_determines_value(s: Seq<u8>, t: Seq<u8>, n: int, i: int)
    requires
        is_permutation(s, n),
        is_permutation(t, n),
        0 <= i < n,
        forall|j: int| 0 <= j < i ==> s[j] == t[j],
        lehmer_digit(s, i) == lehmer_digit(t, i),
    ensures
        s[i] == t[i],
{
    let a = s[i] as int;
    let b = t[i] as int;
    lemma_count_prefix(s, t, i, 0, b);
    assert(distinct_upto(s, i));
    if a < b {
        lemma_count_split(s, i, 0, a, b);
        lemma_count_split(s, i, a, a + 1, b);
        lemma_count_none(s, i, a, a + 1);
        lemma_pigeonhole(s, i, a + 1, b);
    } else if b < a {
        lemma_count_split(s, i, 0, b, a);
        lemma_count_split(s, i, b, b + 1, a);
        assert(forall|j: int| 0 <= j < i ==> s[j] != t[i]) by {
            assert forall|j: int| 0 <= j < i implies s[j] != t[i] by {
                assert(t[j] != t[i]);
            }
        }
        lemma_count_none(s, i, b, b + 1);
        lemma_pigeonhole(s, i, b + 1, a);
    }
}

/// The sorted permutation has Lehmer code 0.
pub proof fn lemma_identity_code(n: int)
    requires
        0 <= n <= 255,
    ensures
        is_permutation(Seq::new(n as nat, |i: int| i as u8), n),
        lehmer_value(Seq::new(n as nat, |i: int| i as u8)) == 0,
{
    let p = Seq::new(n as nat, |i: int| i as u8);
    assert forall|k: int| 0 <= k <= n implies #[trigger] lehmer_upto(p, k) == 0 by {
        lemma_identity_upto(n, k);
    }
}

proof fn lemma_identity_smaller(n: int, k: int, v: int)
    requires
        0 <= k <= v <= n <= 255,
    ensures
        count_in(Seq::new(n as nat, |i: int| i as u8), k, 0, v) == k,
    decreases k,
{
    if k > 0 {
        lemma_identity_smaller(n, k - 1, v);
    }
}

proof fn lemma_identity_upto(n: int, k: int)
    requires
        0 <= k <= n <= 255,
    ensures
        lehmer_upto(Seq::new(n as nat, |i: int| i as u8), k) == 0,
    decreases k,
{
    if k > 0 {
        lemma_identity_upto(n, k - 1);
        lemma_identity_smaller(n, k - 1, k - 1);
        let p = Seq::new(n as nat, |i: int| i as u8);
        assert(lehmer_digit(p, k - 1) == 0);
    }
}

/// A value of `0..m` seen after `v` is placed first: the values from `v`
/// on move up by one.
pub open spec fn lift_from(v: int, y: int) -> int {
    if y < v {
        y
    } else {
        y + 1
    }
}

/// The permutation of `0..m + 1` that starts with `v` and continues with
/// the items of `t` in the same relative order.
pub open spec fn prepend_value(v: int, t: Seq<u8>) -> Seq<u8> {
    seq![v as u8] + Seq::new(t.len(), |i: int| lift_from(v, t[i] as int) as u8)
}

/// Starting a permutation of `0..m` with a new value `v` gives a
/// permutation of `0..m + 1`.
pub proof fn lemma_prepend_is_permutation(v: int, t: Seq<u8>, m: int)
    requires
        is_permutation(t, m),
        0 <= v <= m,
        m < 255,
    ensures
        is_permutation(prepend_value(v, t), m + 1),
        forall|q: int| 0 <= q < m ==> #[trigger] prepend_value(v, t)[q + 1] as int == lift_from(v, t[q] as int),
{
    let s = prepend_value(v, t);
    assert forall|q: int| 0 <= q < m implies #[trigger] s[q + 1] as int == lift_from(v, t[q] as int) by {
        assert(s[q + 1] == Seq::new(t.len(), |i: int| lift_from(v, t[i] as int) as u8)[q]);
    }
    assert forall|i: int| 0 <= i < m + 1 implies (#[trigger] s[i] as int) < m + 1 by {
        if i > 0 {
            assert(s[(i - 1) + 1] as int == lift_from(v, t[i - 1] as int));
        }
    }
    assert forall|i: int, j: int| 0 <= i < j < m + 1 implies #[trigger] s[i] != #[trigger] s[j] by {
        assert(s[(j - 1) + 1] as int == lift_from(v, t[j - 1] as int));
        if i > 0 {
            assert(s[(i - 1) + 1] as int == lift_from(v, t[i - 1] as int));
            assert(t[i - 1] != t[j - 1]);
        }
    }
}

/// Counting the smaller values after a position reads the same on `t` and
/// on `t` with a value put first.
proof fn lemma_prepend_counts(v: int, t: Seq<u8>, m: int, a: int, k: int, x: int)
    requires
        is_permutation(t, m),
        0 <= v <= m,
        m < 255,
        0 <= a <= k <= m,
    ensures
        count_between(prepend_value(v, t), a + 1, k + 1, lift_from(v, x)) == count_between(t, a, k, x),
    decreases k - a,
{
    lemma_prepend_is_permutation(v, t, m);
    if k > a {
        lemma_prepend_counts(v, t, m, a, k - 1, x);
        assert(prepend_value(v, t)[(k - 1) + 1] as int == lift_from(v, t[k - 1] as int));
    }
}

/// The Lehmer code of `t` with `v` put first is `v` times `m!` more than
/// that of `t`.
pub proof fn lemma_prepend_lehmer(v: int, t: Seq<u8>, m: int)
    requires
        is_permutation(t, m),
        0 <= v <= m,
        m < 255,
    ensures
        lehmer_value(prepend_value(v, t)) == v * fact(m as nat) + lehmer_value(t),
{
    let s = prepend_value(v, t);
    lemma_prepend_is_permutation(v, t, m);
    lemma_prepend_after_upto(v, t, m, m);
    lemma_lehmer_counts_after(s, m + 1, m + 1);
    lemma_lehmer_counts_after(t, m, m);
}

proof fn lemma_prepend_after_upto(v: int, t: Seq<u8>, m: int, k: int)
    requires
        is_permutation(t, m),
        0 <= v <= m,
        m < 255,
        0 <= k <= m,
    ensures
        lehmer_after_upto(prepend_value(v, t), k + 1) == v * fact(m as nat) + lehmer_after_upto(t, k),
    decreases k,
{
    let s = prepend_value(v, t);
    lemma_prepend_is_permutation(v, t, m);
    if k == 0 {
        lemma_smaller_after_is_digit(s, m + 1, 0);
        assert(count_in(s, 0, 0, s[0] as int) == 0);
        assert(lehmer_after_upto(s, 0) == 0);
        assert(lehmer_after_upto(s, 1) == lehmer_after_upto(s, 0) + smaller_after(s, 0) * fact((s.len() - 1) as nat));
    } else {
        lemma_prepend_after_upto(v, t, m, k - 1);
        assert(s[(k - 1) + 1] as int == lift_from(v, t[k - 1] as int));
        lemma_prepend_counts(v, t, m, k, m, t[k - 1] as int);
        assert(smaller_after(s, k) == smaller_after(t, k - 1));
    }
}

} // verus!
