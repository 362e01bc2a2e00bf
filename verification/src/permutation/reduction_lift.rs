//! Sorting the reduced form of a permutation sorts the permutation in as
//! many block transpositions: each item of the reduced form stands for a run
//! of consecutive values, and each move of the reduced form is a move of
//! those runs.
use vstd::prelude::*;
use crate::permutation::permutations_generator::identity;
use crate::permutation::block_walk::{swap_blocks, one_block_move, sortable_within, lemma_sortable_step};
use crate::permutation::theory::{is_permutation, distinct_upto, lemma_permutation_onto, lemma_pigeonhole};
use crate::permutation::permutation_helper::{
    is_block_start, block_heads, absorbed_in, collapse, collapsed_value, normalize_spec, reduce_spec,
    lemma_absorbed_le_count, lemma_absorbed_split, lemma_head_witness, lemma_heads_len, lemma_collapse_order,
    lemma_collapse_is_permutation, lemma_absorbed_empty, lemma_normalize_is_permutation, lemma_heads_distinct,
    lemma_heads_skip, lemma_absorbed_none,
};

verus! {

/// Each value `v` of `r` replaced by the block `b[v]`, in order.
pub open spec fn expand(r: Seq<u8>, b: Seq<Seq<u8>>) -> Seq<u8>
    decreases r.len(),
{
    if r.len() == 0 {
        Seq::empty()
    } else {
        expand(r.drop_last(), b) + b[r.last() as int]
    }
}

/// Every value of `r` names a block of `b`, and that block is not empty.
pub open spec fn blocks_ok(r: Seq<u8>, b: Seq<Seq<u8>>) -> bool {
    forall|i: int| 0 <= i < r.len() ==> (#[trigger] r[i] as int) < b.len() && b[r[i] as int].len() >= 1
}

pub proof fn lemma_expand_concat(x: Seq<u8>, y: Seq<u8>, b: Seq<Seq<u8>>)
    ensures
        expand(x + y, b) == expand(x, b) + expand(y, b),
    decreases y.len(),
{
    if y.len() == 0 {
        assert(x + y =~= x);
        assert(expand(x, b) + expand(y, b) =~= expand(x, b));
    } else {
        lemma_expand_concat(x, y.drop_last(), b);
        assert((x + y).drop_last() =~= x + y.drop_last());
        assert((x + y).last() == y.last());
        assert(expand(x + y, b) =~= expand(x, b) + expand(y, b));
    }
}

pub proof fn lemma_expand_len(r: Seq<u8>, b: Seq<Seq<u8>>)
    requires
        blocks_ok(r, b),
    ensures
        expand(r, b).len() >= r.len(),
    decreases r.len(),
{
    if r.len() > 0 {
        let s = r.drop_last();
        assert forall|i: int| 0 <= i < s.len() implies (#[trigger] s[i] as int) < b.len() && b[s[i] as int].len() >= 1 by {
            assert(s[i] == r[i]);
        }
        lemma_expand_len(s, b);
        assert(r[r.len() - 1] == r.last());
    }
}

proof fn lemma_blocks_ok_subrange(r: Seq<u8>, b: Seq<Seq<u8>>, x: int, y: int)
    requires
        blocks_ok(r, b),
        0 <= x <= y <= r.len(),
    ensures
        blocks_ok(r.subrange(x, y), b),
{
    let s = r.subrange(x, y);
    assert forall|i: int| 0 <= i < s.len() implies (#[trigger] s[i] as int) < b.len() && b[s[i] as int].len() >= 1 by {
        assert(s[i] == r[x + i]);
    }
}

/// Every item of a block transposition of `r` is an item of `r`.
pub proof fn lemma_swap_values(r: Seq<u8>, a: int, j: int, k: int)
    requires
        0 <= a <= j < k < r.len(),
    ensures
        swap_blocks(r, a, j, k).len() == r.len(),
        forall|i: int| 0 <= i < r.len() ==> r.contains(#[trigger] swap_blocks(r, a, j, k)[i]),
{
    let q = swap_blocks(r, a, j, k);
    let w = k - j;
    assert forall|i: int| 0 <= i < r.len() implies r.contains(#[trigger] swap_blocks(r, a, j, k)[i]) by {
        let i2 = if i < a {
            i
        } else if i < a + w {
            j + 1 + (i - a)
        } else if i <= k {
            a + (i - a - w)
        } else {
            i
        };
        assert(0 <= i2 < r.len());
        assert(q[i] == r[i2]);
    }
}

/// A block transposition of `r` expands to a block transposition of the
/// expansion: the blocks of the moved items move with them.
#[verifier::spinoff_prover]
#[verifier::rlimit(40)]
pub proof fn lemma_expand_swap(r: Seq<u8>, b: Seq<Seq<u8>>, a: int, j: int, k: int)
    requires
        blocks_ok(r, b),
        0 <= a <= j < k < r.len(),
    ensures
        ({
            let aa = expand(r.subrange(0, a), b).len() as int;
            let jj = expand(r.subrange(0, j + 1), b).len() - 1;
            let kk = expand(r.subrange(0, k + 1), b).len() - 1;
            &&& 0 <= aa <= jj < kk < expand(r, b).len()
            &&& expand(swap_blocks(r, a, j, k), b) == swap_blocks(expand(r, b), aa, jj, kk)
        }),
{
    let n = r.len() as int;
    let r0 = r.subrange(0, a);
    let r1 = r.subrange(a, j + 1);
    let r2 = r.subrange(j + 1, k + 1);
    let r3 = r.subrange(k + 1, n);
    lemma_blocks_ok_subrange(r, b, 0, a);
    lemma_blocks_ok_subrange(r, b, a, j + 1);
    lemma_blocks_ok_subrange(r, b, j + 1, k + 1);
    lemma_blocks_ok_subrange(r, b, k + 1, n);
    lemma_expand_len(r1, b);
    lemma_expand_len(r2, b);
    let e0 = expand(r0, b);
    let e1 = expand(r1, b);
    let e2 = expand(r2, b);
    let e3 = expand(r3, b);
    assert(r =~= r0 + r1 + r2 + r3);
    assert(r.subrange(0, j + 1) =~= r0 + r1);
    assert(r.subrange(0, k + 1) =~= r0 + r1 + r2);
    lemma_expand_concat(r0, r1, b);
    lemma_expand_concat(r0 + r1, r2, b);
    lemma_expand_concat(r0 + r1 + r2, r3, b);
    let q = swap_blocks(r, a, j, k);
    assert(q =~= r0 + r2 + r1 + r3);
    lemma_expand_concat(r0, r2, b);
    lemma_expand_concat(r0 + r2, r1, b);
    lemma_expand_concat(r0 + r2 + r1, r3, b);
    let e = expand(r, b);
    assert(e == e0 + e1 + e2 + e3);
    assert(expand(q, b) == e0 + e2 + e1 + e3);
    let aa = e0.len() as int;
    let jj = e0.len() + e1.len() - 1;
    let kk = e0.len() + e1.len() + e2.len() - 1;
    assert(swap_blocks(e, aa, jj, kk) =~= e0 + e2 + e1 + e3);
}

/// Expanding keeps what a sequence of block transpositions sorts, when the
/// blocks of the sorted order expand to the sorted order.
pub proof fn lemma_expand_sortable(r: Seq<u8>, b: Seq<Seq<u8>>, t: nat)
    requires
        blocks_ok(r, b),
        expand(identity(r.len() as int), b) == identity(expand(r, b).len() as int),
        sortable_within(r, t),
    ensures
        sortable_within(expand(r, b), t),
    decreases t,
{
    if r != identity(r.len() as int) {
        let q = choose|q: Seq<u8>| #[trigger] one_block_move(r, q) && sortable_within(q, (t - 1) as nat);
        let (a, j, k) = choose|a: int, j: int, k: int| 0 <= a <= j < k < r.len() && q == #[trigger] swap_blocks(r, a, j, k);
        lemma_swap_values(r, a, j, k);
        assert forall|i: int| 0 <= i < q.len() implies (#[trigger] q[i] as int) < b.len() && b[q[i] as int].len() >= 1 by {
            assert(r.contains(swap_blocks(r, a, j, k)[i]));
            let i2 = choose|i2: int| 0 <= i2 < r.len() && r[i2] == swap_blocks(r, a, j, k)[i];
            assert(r[i2] == q[i]);
        }
        lemma_expand_swap(r, b, a, j, k);
        let e = expand(r, b);
        assert(expand(q, b).len() == e.len());
        lemma_expand_sortable(q, b, (t - 1) as nat);
        let aa = expand(r.subrange(0, a), b).len() as int;
        let jj = expand(r.subrange(0, j + 1), b).len() - 1;
        let kk = expand(r.subrange(0, k + 1), b).len() - 1;
        assert(one_block_move(e, expand(q, b))) by {
            assert(expand(q, b) == swap_blocks(e, aa, jj, kk));
        }
        lemma_sortable_step(e, expand(q, b), (t - 1) as nat);
    }
}

/// `s` with a new least item in front: 0 first, every other value one up.
pub open spec fn shift_up(s: Seq<u8>) -> Seq<u8> {
    seq![0u8] + s.map_values(|v: u8| (v + 1) as u8)
}

/// Putting a least item in front keeps what block transpositions sort.
pub proof fn lemma_shift_up_sortable(s: Seq<u8>, t: nat)
    requires
        s.len() < 255,
        forall|i: int| 0 <= i < s.len() ==> #[trigger] s[i] < 255,
        sortable_within(s, t),
    ensures
        sortable_within(shift_up(s), t),
    decreases t,
{
    let m = s.len() as int;
    if s == identity(m) {
        assert(shift_up(s) =~= identity(m + 1));
    } else {
        let q = choose|q: Seq<u8>| #[trigger] one_block_move(s, q) && sortable_within(q, (t - 1) as nat);
        let (a, j, k) = choose|a: int, j: int, k: int| 0 <= a <= j < k < s.len() && q == #[trigger] swap_blocks(s, a, j, k);
        lemma_swap_values(s, a, j, k);
        assert forall|i: int| 0 <= i < q.len() implies #[trigger] q[i] < 255 by {
            assert(s.contains(swap_blocks(s, a, j, k)[i]));
            let i2 = choose|i2: int| 0 <= i2 < s.len() && s[i2] == swap_blocks(s, a, j, k)[i];
            assert(s[i2] == q[i]);
        }
        lemma_shift_up_sortable(q, (t - 1) as nat);
        assert(shift_up(q) =~= swap_blocks(shift_up(s), a + 1, j + 1, k + 1));
        lemma_sortable_step(shift_up(s), shift_up(q), (t - 1) as nat);
    }
}

/// Putting a greatest item at the end keeps what block transpositions sort.
pub proof fn lemma_push_max_sortable(s: Seq<u8>, t: nat)
    requires
        s.len() < 255,
        sortable_within(s, t),
    ensures
        sortable_within(s.push(s.len() as u8), t),
    decreases t,
{
    let m = s.len() as int;
    let x = s.len() as u8;
    if s == identity(m) {
        assert(s.push(x) =~= identity(m + 1));
    } else {
        let q = choose|q: Seq<u8>| #[trigger] one_block_move(s, q) && sortable_within(q, (t - 1) as nat);
        let (a, j, k) = choose|a: int, j: int, k: int| 0 <= a <= j < k < s.len() && q == #[trigger] swap_blocks(s, a, j, k);
        lemma_push_max_sortable(q, (t - 1) as nat);
        assert(q.len() == s.len());
        assert(q.push(x) =~= swap_blocks(s.push(x), a, j, k));
        lemma_sortable_step(s.push(x), q.push(x), (t - 1) as nat);
    }
}

/// Dropping a leading 0 or a trailing greatest item keeps what block
/// transpositions sort, read backwards: sorting the normalized form sorts
/// the permutation.
#[verifier::spinoff_prover]
#[verifier::rlimit(40)]
pub proof fn lemma_normalize_lift(c: Seq<u8>, t: nat)
    requires
        is_permutation(c, c.len() as int),
        1 <= c.len() <= 255,
        sortable_within(normalize_spec(c), t),
    ensures
        sortable_within(c, t),
{
    let m = c.len() as int;
    let df = c[0] == 0;
    let dl = m > 1 && c[m - 1] as int == m - 1;
    let front = if df {
        c.drop_first().map_values(|v: u8| (v - 1) as u8)
    } else {
        c
    };
    if df {
        assert forall|i: int| 1 <= i < m implies #[trigger] c[i] >= 1 by {
            assert(c[0] != c[i]);
        }
    }
    assert forall|i: int| 0 <= i < front.len() implies #[trigger] front[i] < 255 by {
        if df {
            assert(front[i] as int == c[i + 1] - 1);
        }
    }
    if dl {
        let res = front.drop_last();
        assert(front.last() as int == front.len() - 1) by {
            if df {
                assert(front[front.len() - 1] as int == c[m - 1] - 1);
            }
        }
        assert(front =~= res.push(res.len() as u8));
        assert(normalize_spec(c) == res);
        lemma_push_max_sortable(res, t);
    } else {
        assert(normalize_spec(c) == front);
    }
    if df {
        assert(c =~= shift_up(front));
        lemma_shift_up_sortable(front, t);
    }
}

/// The first position after `i` that starts a block, or the length.
pub open spec fn next_start(p: Seq<u8>, i: int) -> int
    decreases p.len() - i,
{
    if i + 1 >= p.len() {
        p.len() as int
    } else if is_block_start(p, i + 1) {
        i + 1
    } else {
        next_start(p, i + 1)
    }
}

proof fn lemma_next_start(p: Seq<u8>, i: int)
    requires
        0 <= i < p.len(),
    ensures
        i < next_start(p, i) <= p.len(),
        forall|j: int| i < j < next_start(p, i) ==> !is_block_start(p, j),
        next_start(p, i) < p.len() ==> is_block_start(p, next_start(p, i)),
    decreases p.len() - i,
{
    if i + 1 < p.len() && !is_block_start(p, i + 1) {
        lemma_next_start(p, i + 1);
    }
}

/// Inside a run the values go up by one at each position.
proof fn lemma_run_values(p: Seq<u8>, s: int, i: int)
    requires
        0 <= s <= i < next_start(p, s),
        s < p.len(),
    ensures
        p[i] as int == p[s] + (i - s),
    decreases i - s,
{
    lemma_next_start(p, s);
    if i > s {
        lemma_run_values(p, s, i - 1);
        assert(!is_block_start(p, i));
    }
}

/// The position of the value `v`.
pub open spec fn pos_of(p: Seq<u8>, v: int) -> int {
    choose|i: int| 0 <= i < p.len() && p[i] as int == v
}

proof fn lemma_pos_of(p: Seq<u8>, v: int)
    requires
        is_permutation(p, p.len() as int),
        0 <= v < p.len(),
    ensures
        0 <= pos_of(p, v) < p.len(),
        p[pos_of(p, v)] as int == v,
        forall|i: int| 0 <= i < p.len() && #[trigger] p[i] as int == v ==> i == pos_of(p, v),
{
    let w = lemma_permutation_onto(p, p.len() as int, v);
    let q = pos_of(p, v);
    assert forall|i: int| 0 <= i < p.len() && #[trigger] p[i] as int == v implies i == q by {
        if i < q {
            assert(p[i] != p[q]);
        } else if i > q {
            assert(p[q] != p[i]);
        }
    }
}

/// `h` is the value at the start of a block.
pub open spec fn is_head(p: Seq<u8>, h: int) -> bool {
    0 <= h < p.len() && is_block_start(p, pos_of(p, h))
}

/// The length of the run that starts with the value `h`.
pub open spec fn run_len(p: Seq<u8>, h: int) -> int {
    next_start(p, pos_of(p, h)) - pos_of(p, h)
}

/// The run of consecutive values that starts with `h`.
pub open spec fn run_block(p: Seq<u8>, h: int) -> Seq<u8> {
    Seq::new(run_len(p, h) as nat, |i: int| (h + i) as u8)
}

/// A run is the stretch of the permutation from its start to the next start.
proof fn lemma_run_block(p: Seq<u8>, h: int)
    requires
        is_permutation(p, p.len() as int),
        p.len() <= 255,
        is_head(p, h),
    ensures
        run_len(p, h) >= 1,
        h + run_len(p, h) <= p.len(),
        run_block(p, h) == p.subrange(pos_of(p, h), next_start(p, pos_of(p, h))),
{
    lemma_pos_of(p, h);
    let s = pos_of(p, h);
    let e = next_start(p, s);
    lemma_next_start(p, s);
    assert forall|i: int| s <= i < e implies #[trigger] p[i] as int == h + (i - s) by {
        lemma_run_values(p, s, i);
    }
    assert(p[e - 1] as int == h + (e - 1 - s));
    assert(run_block(p, h) =~= p.subrange(s, e));
}

/// After a run, the next value starts a run of its own.
proof fn lemma_next_head(p: Seq<u8>, h: int)
    requires
        is_permutation(p, p.len() as int),
        p.len() <= 255,
        is_head(p, h),
        h + run_len(p, h) < p.len(),
    ensures
        is_head(p, h + run_len(p, h)),
{
    lemma_pos_of(p, h);
    let s = pos_of(p, h);
    let e = next_start(p, s);
    let v = h + run_len(p, h);
    lemma_next_start(p, s);
    lemma_pos_of(p, v);
    let q = pos_of(p, v);
    if !is_block_start(p, q) {
        assert(q > 0);
        assert(p[q - 1] as int == v - 1);
        lemma_run_values(p, s, e - 1);
        assert(p[e - 1] as int == v - 1);
        lemma_pos_of(p, v - 1);
        assert(q - 1 == e - 1);
        assert(false);
    }
}

/// The positions `i < k` strictly inside the run `[s, e)`.
pub open spec fn inside_count(k: int, s: int, e: int) -> int {
    if k <= s + 1 {
        0
    } else if k >= e {
        e - s - 1
    } else {
        k - s - 1
    }
}

proof fn lemma_absorbed_run(p: Seq<u8>, h: int, k: int)
    requires
        is_permutation(p, p.len() as int),
        p.len() <= 255,
        is_head(p, h),
        0 <= k <= p.len(),
    ensures
        absorbed_in(p, k, h, h + run_len(p, h)) == inside_count(k, pos_of(p, h), next_start(p, pos_of(p, h))),
    decreases k,
{
    lemma_pos_of(p, h);
    let s = pos_of(p, h);
    let e = next_start(p, s);
    lemma_next_start(p, s);
    if k > 0 {
        lemma_absorbed_run(p, h, k - 1);
        let i = k - 1;
        let inside = !is_block_start(p, i) && h <= p[i] < h + run_len(p, h);
        if s < i < e {
            lemma_run_values(p, s, i);
            assert(inside);
        } else {
            if inside {
                let v = p[i] as int;
                lemma_pos_of(p, v);
                lemma_run_values(p, s, s + (v - h));
                assert(p[s + (v - h)] as int == v);
                assert(i == s + (v - h));
                assert(false);
            }
        }
    }
}

/// The next run's head collapses to one more.
proof fn lemma_next_collapsed(p: Seq<u8>, h: int)
    requires
        is_permutation(p, p.len() as int),
        p.len() <= 255,
        is_head(p, h),
        h + run_len(p, h) <= p.len(),
    ensures
        collapsed_value(p, h + run_len(p, h)) == collapsed_value(p, h) + 1,
{
    let n = p.len() as int;
    let l = run_len(p, h);
    lemma_pos_of(p, h);
    lemma_next_start(p, pos_of(p, h));
    lemma_absorbed_split(p, n, 0, h, h + l);
    lemma_absorbed_run(p, h, n);
}

/// The collapsed value of a head is at least 0.
proof fn lemma_collapsed_nonneg(p: Seq<u8>, w: int)
    requires
        is_permutation(p, p.len() as int),
        0 <= w <= p.len(),
    ensures
        0 <= collapsed_value(p, w) <= w,
{
    let n = p.len() as int;
    assert(distinct_upto(p, n));
    lemma_absorbed_le_count(p, n, 0, w);
    lemma_pigeonhole(p, n, 0, w);
}

/// The value at every block start is among the heads listed up to any
/// later position.
proof fn lemma_start_in_heads(p: Seq<u8>, k: int, s: int)
    requires
        0 <= s < k <= p.len(),
        is_block_start(p, s),
    ensures
        block_heads(p, k).contains(p[s]),
    decreases k,
{
    if k - 1 == s {
        let h = block_heads(p, k - 1);
        assert(block_heads(p, k) == h.push(p[s]));
        assert(block_heads(p, k)[h.len() as int] == p[s]);
    } else {
        lemma_start_in_heads(p, k - 1, s);
        let h = block_heads(p, k - 1);
        let w = choose|w: int| 0 <= w < h.len() && h[w] == p[s];
        if is_block_start(p, k - 1) {
            assert(block_heads(p, k) == h.push(p[k - 1]));
            assert(block_heads(p, k)[w] == p[s]);
        }
    }
}

/// Two heads with the same collapsed value are the same.
proof fn lemma_head_collapse_injective(p: Seq<u8>, h1: int, h2: int)
    requires
        is_permutation(p, p.len() as int),
        p.len() <= 255,
        is_head(p, h1),
        is_head(p, h2),
        collapsed_value(p, h1) == collapsed_value(p, h2),
    ensures
        h1 == h2,
{
    lemma_pos_of(p, h1);
    lemma_pos_of(p, h2);
    if h1 < h2 {
        lemma_collapse_order(p, pos_of(p, h1), pos_of(p, h2));
    } else if h2 < h1 {
        lemma_collapse_order(p, pos_of(p, h2), pos_of(p, h1));
    }
}

/// The collapsed form lists the collapsed values of the heads.
proof fn lemma_collapse_entries(p: Seq<u8>)
    requires
        is_permutation(p, p.len() as int),
        1 <= p.len() <= 255,
    ensures
        collapse(p).len() == block_heads(p, p.len() as int).len(),
        is_permutation(collapse(p), collapse(p).len() as int),
        forall|t: int|
            #![trigger collapse(p)[t]]
            0 <= t < collapse(p).len() ==> is_head(p, block_heads(p, p.len() as int)[t] as int),
        forall|t: int|
            #![trigger collapse(p)[t]]
            0 <= t < collapse(p).len() ==> collapse(p)[t] as int == collapsed_value(
                p,
                block_heads(p, p.len() as int)[t] as int,
            ),
{
    let n = p.len() as int;
    let heads = block_heads(p, n);
    lemma_collapse_is_permutation(p);
    assert forall|t: int|
        #![trigger block_heads(p, n)[t]]
        0 <= t < collapse(p).len() implies is_head(p, heads[t] as int) && collapse(p)[t] as int == collapsed_value(
        p,
        heads[t] as int,
    ) by {
        let s = lemma_head_witness(p, n, t);
        lemma_pos_of(p, heads[t] as int);
        lemma_collapsed_nonneg(p, heads[t] as int);
        assert(collapse(p)[t] == (heads[t] - absorbed_in(p, n, 0, heads[t] as int)) as u8);
    }
}

/// The collapsed values of the heads of the first `k` positions.
pub open spec fn collapse_prefix(p: Seq<u8>, k: int) -> Seq<u8> {
    block_heads(p, k).map_values(|w: u8| (w - absorbed_in(p, p.len() as int, 0, w as int)) as u8)
}

/// The heads in increasing order, from 0: each the value after the run of
/// the one before.
pub open spec fn chain_head(p: Seq<u8>, v: nat) -> int
    decreases v,
{
    if v == 0 {
        0
    } else {
        chain_head(p, (v - 1) as nat) + run_len(p, chain_head(p, (v - 1) as nat))
    }
}

#[verifier::spinoff_prover]
#[verifier::rlimit(40)]
proof fn lemma_chain(p: Seq<u8>, v: nat)
    requires
        is_permutation(p, p.len() as int),
        1 <= p.len() <= 255,
        v < collapse(p).len(),
    ensures
        is_head(p, chain_head(p, v)),
        collapsed_value(p, chain_head(p, v)) == v,
    decreases v,
{
    let n = p.len() as int;
    if v == 0 {
        lemma_pos_of(p, 0);
        let q = pos_of(p, 0);
        if !is_block_start(p, q) {
            assert(p[q] as int == p[q - 1] as int + 1);
        }
        lemma_absorbed_empty(p, n);
    } else {
        lemma_chain(p, (v - 1) as nat);
        let h = chain_head(p, (v - 1) as nat);
        let l = run_len(p, h);
        lemma_run_block(p, h);
        if h + l == n {
            let c = collapse(p);
            lemma_collapse_entries(p);
            let t = lemma_permutation_onto(c, c.len() as int, v as int);
            let heads = block_heads(p, n);
            let h2 = heads[t] as int;
            assert(is_head(p, h2) && collapsed_value(p, h2) == v);
            lemma_pos_of(p, h);
            lemma_pos_of(p, h2);
            if h2 < h {
                lemma_collapse_order(p, pos_of(p, h2), pos_of(p, h));
            }
            assert(h < h2 < h + l);
            let s = pos_of(p, h);
            lemma_next_start(p, s);
            lemma_run_values(p, s, s + (h2 - h));
            assert(pos_of(p, h2) == s + (h2 - h));
            assert(false);
        }
        lemma_next_head(p, h);
        lemma_next_collapsed(p, h);
    }
}

/// The chain of heads ends at the length after all the heads.
proof fn lemma_chain_end(p: Seq<u8>)
    requires
        is_permutation(p, p.len() as int),
        1 <= p.len() <= 255,
    ensures
        chain_head(p, collapse(p).len()) == p.len(),
{
    let n = p.len() as int;
    let m = collapse(p).len();
    lemma_collapse_entries(p);
    lemma_heads_len(p, n);
    let h = chain_head(p, (m - 1) as nat);
    lemma_chain(p, (m - 1) as nat);
    lemma_run_block(p, h);
    let l = run_len(p, h);
    if h + l < n {
        lemma_next_head(p, h);
        lemma_next_collapsed(p, h);
        lemma_pos_of(p, h + l);
        lemma_start_in_heads(p, n, pos_of(p, h + l));
        let heads = block_heads(p, n);
        let t = choose|t: int| 0 <= t < heads.len() && heads[t] == p[pos_of(p, h + l)];
        assert(collapse(p)[t] as int == collapsed_value(p, h + l));
        assert(false);
    }
}

/// The runs, indexed by the collapsed values of their heads.
pub open spec fn runs_by_value(p: Seq<u8>) -> Seq<Seq<u8>> {
    Seq::new(collapse(p).len(), |v: int| run_block(p, chain_head(p, v as nat)))
}

/// The runs in increasing order make up the sorted order.
#[verifier::spinoff_prover]
#[verifier::rlimit(40)]
proof fn lemma_runs_tile(p: Seq<u8>, v: nat)
    requires
        is_permutation(p, p.len() as int),
        1 <= p.len() <= 255,
        v <= collapse(p).len(),
    ensures
        expand(identity(v as int), runs_by_value(p)) == identity(chain_head(p, v)),
    decreases v,
{
    if v == 0 {
        assert(identity(0) =~= Seq::<u8>::empty());
    } else {
        lemma_runs_tile(p, (v - 1) as nat);
        let h = chain_head(p, (v - 1) as nat);
        lemma_chain(p, (v - 1) as nat);
        lemma_run_block(p, h);
        lemma_collapse_entries(p);
        if v < collapse(p).len() {
            lemma_chain(p, v);
        }
        lemma_chain_end(p);
        assert(identity(v as int).drop_last() =~= identity(v - 1));
        assert(identity(v as int).last() as int == v - 1);
        assert(expand(identity(v as int), runs_by_value(p)) =~= identity(h + run_len(p, h)));
    }
}

/// The runs in the order of their positions make up the permutation.
#[verifier::spinoff_prover]
#[verifier::rlimit(40)]
proof fn lemma_runs_expand(p: Seq<u8>, k: int)
    requires
        is_permutation(p, p.len() as int),
        1 <= p.len() <= 255,
        1 <= k <= p.len(),
    ensures
        expand(collapse_prefix(p, k), runs_by_value(p)) == p.subrange(0, next_start(p, k - 1)),
    decreases k,
{
    let n = p.len() as int;
    let b = runs_by_value(p);
    lemma_collapse_entries(p);
    let s = k - 1;
    lemma_next_start(p, s);
    if is_block_start(p, s) {
        let h = p[s] as int;
        lemma_pos_of(p, h);
        assert(pos_of(p, h) == s);
        lemma_collapsed_nonneg(p, h);
        lemma_start_in_heads(p, n, s);
        let heads = block_heads(p, n);
        let t = choose|t: int| 0 <= t < heads.len() && heads[t] == p[s];
        let v = collapsed_value(p, h);
        assert(collapse(p)[t] as int == v);
        assert(v < collapse(p).len());
        lemma_chain(p, v as nat);
        lemma_head_collapse_injective(p, h, chain_head(p, v as nat));
        lemma_run_block(p, h);
        let fv = (p[s] - absorbed_in(p, n, 0, h)) as u8;
        assert(fv as int == v);
        assert(b[v] == p.subrange(s, next_start(p, s)));
        let cur = collapse_prefix(p, k);
        if k == 1 {
            assert(block_heads(p, 0) =~= Seq::<u8>::empty());
            assert(cur =~= seq![fv]);
            assert(cur.drop_last() =~= Seq::<u8>::empty());
            assert(cur.last() == fv);
            assert(expand(Seq::<u8>::empty(), b) =~= Seq::<u8>::empty());
            assert(expand(cur.drop_last(), b) =~= Seq::<u8>::empty());
            assert(expand(cur, b) =~= b[v]);
            assert(p.subrange(0, next_start(p, 0)) =~= p.subrange(s, next_start(p, s)));
        } else {
            lemma_runs_expand(p, k - 1);
            assert(next_start(p, k - 2) == s);
            let prev = collapse_prefix(p, k - 1);
            assert(block_heads(p, k) == block_heads(p, k - 1).push(p[s]));
            assert(cur =~= prev.push(fv));
            assert(cur.drop_last() =~= prev);
            assert(cur.last() == fv);
            assert(expand(cur, b) == expand(prev, b) + b[v]);
            assert(p.subrange(0, next_start(p, s)) =~= p.subrange(0, s) + p.subrange(s, next_start(p, s)));
        }
    } else {
        assert(k >= 2);
        lemma_runs_expand(p, k - 1);
        assert(block_heads(p, k) == block_heads(p, k - 1));
        assert(collapse_prefix(p, k) == collapse_prefix(p, k - 1));
        assert(next_start(p, k - 2) == next_start(p, s));
    }
}

/// Sorting the collapsed form sorts the permutation in as many block
/// transpositions.
pub proof fn lemma_collapse_lift(p: Seq<u8>, t: nat)
    requires
        is_permutation(p, p.len() as int),
        1 <= p.len() <= 255,
        sortable_within(collapse(p), t),
    ensures
        sortable_within(p, t),
{
    let n = p.len() as int;
    let c = collapse(p);
    let b = runs_by_value(p);
    lemma_collapse_entries(p);
    lemma_runs_expand(p, n);
    lemma_next_start(p, n - 1);
    assert(p.subrange(0, n) =~= p);
    assert(c =~= collapse_prefix(p, n));
    assert(expand(c, b) == p);
    lemma_runs_tile(p, c.len());
    lemma_chain_end(p);
    assert forall|i: int| 0 <= i < c.len() implies (#[trigger] c[i] as int) < b.len() && b[c[i] as int].len() >= 1 by {
        lemma_chain(p, c[i] as nat);
        lemma_run_block(p, chain_head(p, c[i] as nat));
    }
    lemma_expand_sortable(c, b, t);
}

/// Sorting the reduced form of a permutation sorts the permutation in as
/// many block transpositions.
pub proof fn lemma_reduce_lift(p: Seq<u8>, t: nat)
    requires
        is_permutation(p, p.len() as int),
        1 <= p.len() <= 255,
        sortable_within(reduce_spec(p), t),
    ensures
        sortable_within(p, t),
{
    let c = collapse(p);
    lemma_collapse_entries(p);
    lemma_heads_len(p, p.len() as int);
    lemma_normalize_lift(c, t);
    lemma_collapse_lift(p, t);
}

/// The items of `s` in increasing order, strictly.
pub open spec fn increasing(s: Seq<u8>) -> bool {
    forall|a: int, b: int| 0 <= a < b < s.len() ==> #[trigger] s[a] < #[trigger] s[b]
}

/// `s` can be put in increasing order by at most `t` block transpositions.
pub open spec fn sortable_increasing(s: Seq<u8>, t: nat) -> bool
    decreases t,
{
    if increasing(s) {
        true
    } else if t == 0 {
        false
    } else {
        exists|q: Seq<u8>| #[trigger] one_block_move(s, q) && sortable_increasing(q, (t - 1) as nat)
    }
}

proof fn lemma_increasing_monotone(s: Seq<u8>, t: nat, u: nat)
    requires
        sortable_increasing(s, t),
        t <= u,
    ensures
        sortable_increasing(s, u),
    decreases t,
{
    if !increasing(s) {
        let q = choose|q: Seq<u8>| #[trigger] one_block_move(s, q) && sortable_increasing(q, (t - 1) as nat);
        lemma_increasing_monotone(q, (t - 1) as nat, (u - 1) as nat);
        assert(sortable_increasing(s, u));
    }
}

/// Sorting to the identity puts in increasing order.
proof fn lemma_sortable_to_increasing(s: Seq<u8>, t: nat)
    requires
        s.len() <= 255,
        sortable_within(s, t),
    ensures
        sortable_increasing(s, t),
    decreases t,
{
    if s == identity(s.len() as int) {
        assert(increasing(s));
    } else {
        let q = choose|q: Seq<u8>| #[trigger] one_block_move(s, q) && sortable_within(q, (t - 1) as nat);
        let (a, j, k) = choose|a: int, j: int, k: int| 0 <= a <= j < k < s.len() && q == #[trigger] swap_blocks(s, a, j, k);
        assert(q.len() == s.len());
        lemma_sortable_to_increasing(q, (t - 1) as nat);
        assert(sortable_increasing(s, t));
    }
}

/// The items of `s` whose values are in `v`, in order.
pub open spec fn keep(s: Seq<u8>, v: Set<u8>) -> Seq<u8>
    decreases s.len(),
{
    if s.len() == 0 {
        Seq::empty()
    } else if v.contains(s.last()) {
        keep(s.drop_last(), v).push(s.last())
    } else {
        keep(s.drop_last(), v)
    }
}

proof fn lemma_keep_concat(x: Seq<u8>, y: Seq<u8>, v: Set<u8>)
    ensures
        keep(x + y, v) == keep(x, v) + keep(y, v),
    decreases y.len(),
{
    if y.len() == 0 {
        assert(x + y =~= x);
        assert(keep(x, v) + keep(y, v) =~= keep(x, v));
    } else {
        lemma_keep_concat(x, y.drop_last(), v);
        assert((x + y).drop_last() =~= x + y.drop_last());
        assert((x + y).last() == y.last());
        if v.contains(y.last()) {
            assert(keep(x + y, v) =~= keep(x, v) + keep(y, v));
        } else {
            assert(keep(x + y, v) =~= keep(x, v) + keep(y, v));
        }
    }
}

/// What is kept comes from `s`, in order: each kept item is an item of `s`
/// at or after the position of the one before.
proof fn lemma_keep_increasing(s: Seq<u8>, v: Set<u8>)
    requires
        increasing(s),
    ensures
        increasing(keep(s, v)),
        forall|i: int| 0 <= i < keep(s, v).len() ==> s.contains(#[trigger] keep(s, v)[i]),
    decreases s.len(),
{
    if s.len() > 0 {
        let d = s.drop_last();
        assert(increasing(d));
        lemma_keep_increasing(d, v);
        let kd = keep(d, v);
        assert forall|i: int| 0 <= i < kd.len() implies #[trigger] kd[i] < s.last() by {
            assert(d.contains(kd[i]));
            let w = choose|w: int| 0 <= w < d.len() && d[w] == kd[i];
            assert(s[w] < s[s.len() - 1]);
        }
        if v.contains(s.last()) {
            let k = kd.push(s.last());
            assert forall|a: int, b: int| 0 <= a < b < k.len() implies #[trigger] k[a] < #[trigger] k[b] by {
                if b < kd.len() {
                    assert(k[a] == kd[a] && k[b] == kd[b]);
                } else {
                    assert(k[a] == kd[a]);
                }
            }
            assert forall|i: int| 0 <= i < k.len() implies s.contains(#[trigger] k[i]) by {
                if i < kd.len() {
                    assert(k[i] == kd[i]);
                    assert(d.contains(kd[i]));
                    let w = choose|w: int| 0 <= w < d.len() && d[w] == kd[i];
                    assert(s[w] == kd[i]);
                } else {
                    assert(s[s.len() - 1] == k[i]);
                }
            }
        } else {
            assert forall|i: int| 0 <= i < kd.len() implies s.contains(#[trigger] kd[i]) by {
                assert(d.contains(kd[i]));
                let w = choose|w: int| 0 <= w < d.len() && d[w] == kd[i];
                assert(s[w] == kd[i]);
            }
        }
    }
}

/// Keeping some items of a block transposition keeps them in the same
/// order, or in the order of a block transposition of the kept items.
proof fn lemma_keep_swap(s: Seq<u8>, v: Set<u8>, a: int, j: int, k: int)
    requires
        0 <= a <= j < k < s.len(),
    ensures
        keep(swap_blocks(s, a, j, k), v) == keep(s, v) || one_block_move(keep(s, v), keep(swap_blocks(s, a, j, k), v)),
{
    let n = s.len() as int;
    let s0 = s.subrange(0, a);
    let s1 = s.subrange(a, j + 1);
    let s2 = s.subrange(j + 1, k + 1);
    let s3 = s.subrange(k + 1, n);
    let k0 = keep(s0, v);
    let k1 = keep(s1, v);
    let k2 = keep(s2, v);
    let k3 = keep(s3, v);
    assert(s =~= s0 + s1 + s2 + s3);
    lemma_keep_concat(s0, s1, v);
    lemma_keep_concat(s0 + s1, s2, v);
    lemma_keep_concat(s0 + s1 + s2, s3, v);
    let q = swap_blocks(s, a, j, k);
    assert(q =~= s0 + s2 + s1 + s3);
    lemma_keep_concat(s0, s2, v);
    lemma_keep_concat(s0 + s2, s1, v);
    lemma_keep_concat(s0 + s2 + s1, s3, v);
    let ks = keep(s, v);
    assert(ks == k0 + k1 + k2 + k3);
    assert(keep(q, v) == k0 + k2 + k1 + k3);
    if k1.len() == 0 || k2.len() == 0 {
        if k1.len() == 0 {
            assert(k1 =~= Seq::<u8>::empty());
        } else {
            assert(k2 =~= Seq::<u8>::empty());
        }
        assert(k0 + k2 + k1 + k3 =~= k0 + k1 + k2 + k3);
    } else {
        let aa = k0.len() as int;
        let jj = k0.len() + k1.len() - 1;
        let kk = k0.len() + k1.len() + k2.len() - 1;
        assert(swap_blocks(ks, aa, jj, kk) =~= k0 + k2 + k1 + k3);
        assert(one_block_move(ks, keep(q, v)));
    }
}

/// Keeping some items keeps what block transpositions put in order.
pub proof fn lemma_keep_sortable(s: Seq<u8>, v: Set<u8>, t: nat)
    requires
        sortable_increasing(s, t),
    ensures
        sortable_increasing(keep(s, v), t),
    decreases t,
{
    if increasing(s) {
        lemma_keep_increasing(s, v);
    } else {
        let q = choose|q: Seq<u8>| #[trigger] one_block_move(s, q) && sortable_increasing(q, (t - 1) as nat);
        let (a, j, k) = choose|a: int, j: int, k: int| 0 <= a <= j < k < s.len() && q == #[trigger] swap_blocks(s, a, j, k);
        lemma_keep_sortable(q, v, (t - 1) as nat);
        lemma_keep_swap(s, v, a, j, k);
        if keep(q, v) == keep(s, v) {
            lemma_increasing_monotone(keep(s, v), (t - 1) as nat, t);
        } else {
            assert(sortable_increasing(keep(s, v), t));
        }
    }
}

/// `f` keeps the order of the values in `v`.
pub open spec fn order_keeping(f: spec_fn(u8) -> u8, v: Set<u8>) -> bool {
    forall|x: u8, y: u8| v.contains(x) && v.contains(y) && x < y ==> #[trigger] f(x) < #[trigger] f(y)
}

/// Renaming values in an order-keeping way keeps what block
/// transpositions put in order.
pub proof fn lemma_rename_sortable(s: Seq<u8>, f: spec_fn(u8) -> u8, v: Set<u8>, t: nat)
    requires
        order_keeping(f, v),
        forall|i: int| 0 <= i < s.len() ==> v.contains(#[trigger] s[i]),
        sortable_increasing(s, t),
    ensures
        sortable_increasing(s.map_values(f), t),
    decreases t,
{
    let fs = s.map_values(f);
    if increasing(s) {
        assert forall|a: int, b: int| 0 <= a < b < fs.len() implies #[trigger] fs[a] < #[trigger] fs[b] by {
            assert(s[a] < s[b]);
            assert(v.contains(s[a]) && v.contains(s[b]));
        }
    } else {
        let q = choose|q: Seq<u8>| #[trigger] one_block_move(s, q) && sortable_increasing(q, (t - 1) as nat);
        let (a, j, k) = choose|a: int, j: int, k: int| 0 <= a <= j < k < s.len() && q == #[trigger] swap_blocks(s, a, j, k);
        lemma_swap_values(s, a, j, k);
        assert forall|i: int| 0 <= i < q.len() implies v.contains(#[trigger] q[i]) by {
            assert(s.contains(swap_blocks(s, a, j, k)[i]));
            let i2 = choose|i2: int| 0 <= i2 < s.len() && s[i2] == swap_blocks(s, a, j, k)[i];
            assert(s[i2] == q[i]);
        }
        lemma_rename_sortable(q, f, v, (t - 1) as nat);
        assert(q.map_values(f) =~= swap_blocks(fs, a, j, k));
        assert(one_block_move(fs, q.map_values(f)));
    }
}

/// A block transposition of a permutation is a permutation.
proof fn lemma_swap_permutation(r: Seq<u8>, a: int, j: int, k: int)
    requires
        is_permutation(r, r.len() as int),
        0 <= a <= j < k < r.len(),
    ensures
        is_permutation(swap_blocks(r, a, j, k), r.len() as int),
{
    let q = swap_blocks(r, a, j, k);
    let m = r.len() as int;
    let w = k - j;
    let src = |i: int|
        if i < a {
            i
        } else if i < a + w {
            j + 1 + (i - a)
        } else if i <= k {
            a + (i - a - w)
        } else {
            i
        };
    assert forall|i: int| 0 <= i < m implies q[i] == r[src(i)] && 0 <= src(i) < m by {}
    assert forall|i: int| 0 <= i < m implies (#[trigger] q[i] as int) < m by {
        assert(q[i] == r[src(i)]);
    }
    assert forall|i: int, i2: int| 0 <= i < i2 < m implies #[trigger] q[i] != #[trigger] q[i2] by {
        assert(q[i] == r[src(i)]);
        assert(q[i2] == r[src(i2)]);
        assert(src(i) != src(i2));
        if src(i) < src(i2) {
            assert(r[src(i)] != r[src(i2)]);
        } else {
            assert(r[src(i2)] != r[src(i)]);
        }
    }
}

/// A permutation in increasing order is the identity.
proof fn lemma_increasing_identity(r: Seq<u8>)
    requires
        is_permutation(r, r.len() as int),
        increasing(r),
    ensures
        r == identity(r.len() as int),
{
    let m = r.len() as int;
    assert forall|i: int| 0 <= i < m implies #[trigger] r[i] as int >= i by {
        lemma_increasing_low(r, i);
    }
    assert forall|i: int| 0 <= i < m implies #[trigger] r[i] as int <= i by {
        lemma_increasing_top(r, i);
    }
    assert(r =~= identity(m));
}

proof fn lemma_increasing_low(r: Seq<u8>, i: int)
    requires
        increasing(r),
        0 <= i < r.len(),
    ensures
        r[i] as int >= i,
    decreases i,
{
    if i > 0 {
        lemma_increasing_low(r, i - 1);
        assert(r[i - 1] < r[i]);
    }
}

proof fn lemma_increasing_top(r: Seq<u8>, i: int)
    requires
        is_permutation(r, r.len() as int),
        increasing(r),
        0 <= i < r.len(),
    ensures
        r[i] as int <= i,
    decreases r.len() - i,
{
    if i < r.len() - 1 {
        lemma_increasing_top(r, i + 1);
        assert(r[i] < r[i + 1]);
    }
}

/// Block transpositions that put a permutation in increasing order sort it.
pub proof fn lemma_increasing_to_sortable(r: Seq<u8>, t: nat)
    requires
        is_permutation(r, r.len() as int),
        sortable_increasing(r, t),
    ensures
        sortable_within(r, t),
    decreases t,
{
    if increasing(r) {
        lemma_increasing_identity(r);
    } else {
        let q = choose|q: Seq<u8>| #[trigger] one_block_move(r, q) && sortable_increasing(q, (t - 1) as nat);
        let (a, j, k) = choose|a: int, j: int, k: int| 0 <= a <= j < k < r.len() && q == #[trigger] swap_blocks(r, a, j, k);
        lemma_swap_permutation(r, a, j, k);
        assert(q.len() == r.len());
        lemma_increasing_to_sortable(q, (t - 1) as nat);
        lemma_sortable_step(r, q, (t - 1) as nat);
    }
}

/// What is kept has its values in the set.
proof fn lemma_keep_in(s: Seq<u8>, v: Set<u8>)
    ensures
        forall|i: int| 0 <= i < keep(s, v).len() ==> v.contains(#[trigger] keep(s, v)[i]),
    decreases s.len(),
{
    if s.len() > 0 {
        lemma_keep_in(s.drop_last(), v);
        let kd = keep(s.drop_last(), v);
        if v.contains(s.last()) {
            assert forall|i: int| 0 <= i < keep(s, v).len() implies v.contains(#[trigger] keep(s, v)[i]) by {
                if i < kd.len() {
                    assert(keep(s, v)[i] == kd[i]);
                }
            }
        }
    }
}

/// Keeping every item keeps the sequence.
proof fn lemma_keep_all(s: Seq<u8>, v: Set<u8>)
    requires
        forall|i: int| 0 <= i < s.len() ==> v.contains(#[trigger] s[i]),
    ensures
        keep(s, v) == s,
    decreases s.len(),
{
    if s.len() > 0 {
        let d = s.drop_last();
        assert forall|i: int| 0 <= i < d.len() implies v.contains(#[trigger] d[i]) by {
            assert(d[i] == s[i]);
        }
        lemma_keep_all(d, v);
        assert(v.contains(s[s.len() - 1]));
        assert(keep(s, v) =~= s);
    }
}

/// The heads of a permutation.
pub open spec fn head_set(p: Seq<u8>) -> Set<u8> {
    Set::new(|w: u8| is_head(p, w as int))
}

proof fn lemma_heads_kept(p: Seq<u8>, k: int)
    requires
        is_permutation(p, p.len() as int),
        1 <= p.len() <= 255,
        0 <= k <= p.len(),
    ensures
        block_heads(p, k) == keep(p.subrange(0, k), head_set(p)),
    decreases k,
{
    if k == 0 {
        assert(p.subrange(0, 0) =~= Seq::<u8>::empty());
    } else {
        lemma_heads_kept(p, k - 1);
        let sub = p.subrange(0, k);
        assert(sub.drop_last() =~= p.subrange(0, k - 1));
        assert(sub.last() == p[k - 1]);
        lemma_pos_of(p, p[k - 1] as int);
        assert(pos_of(p, p[k - 1] as int) == k - 1);
        assert(head_set(p).contains(p[k - 1]) == is_block_start(p, k - 1));
    }
}

/// Block transpositions that sort a permutation sort its reduced form in
/// as many: the reduced form keeps one item per run and renames values
/// keeping their order.
pub proof fn lemma_reduce_lower(p: Seq<u8>, t: nat)
    requires
        is_permutation(p, p.len() as int),
        1 <= p.len() <= 255,
        sortable_within(p, t),
    ensures
        sortable_within(reduce_spec(p), t),
{
    let n = p.len() as int;
    let hs = head_set(p);
    lemma_sortable_to_increasing(p, t);
    lemma_keep_sortable(p, hs, t);
    let kept = keep(p, hs);
    lemma_keep_in(p, hs);
    let cvf = |w: u8| (w - absorbed_in(p, n, 0, w as int)) as u8;
    assert(order_keeping(cvf, hs)) by {
        assert forall|x: u8, y: u8| hs.contains(x) && hs.contains(y) && x < y implies #[trigger] cvf(x) < #[trigger] cvf(y) by {
            lemma_pos_of(p, x as int);
            lemma_pos_of(p, y as int);
            lemma_collapse_order(p, pos_of(p, x as int), pos_of(p, y as int));
            lemma_collapsed_nonneg(p, x as int);
            lemma_collapsed_nonneg(p, y as int);
        }
    }
    lemma_rename_sortable(kept, cvf, hs, t);
    lemma_heads_kept(p, n);
    assert(p.subrange(0, n) =~= p);
    let c = collapse(p);
    assert(c =~= kept.map_values(cvf));
    lemma_collapse_entries(p);
    lemma_heads_len(p, n);
    let m = c.len() as int;
    // normalize
    let df = c[0] == 0;
    let dl = m > 1 && c[m - 1] as int == m - 1;
    let front = if df {
        c.drop_first().map_values(|v: u8| (v - 1) as u8)
    } else {
        c
    };
    if df {
        let nz = Set::new(|w: u8| w != 0);
        assert forall|i: int| 1 <= i < m implies #[trigger] c[i] != 0 by {
            assert(c[0] != c[i]);
        }
        let rest = c.drop_first();
        assert(c =~= seq![c[0]] + rest);
        lemma_keep_concat(seq![c[0]], rest, nz);
        assert(seq![c[0]].drop_last() =~= Seq::<u8>::empty());
        assert(seq![c[0]].last() == c[0]);
        assert(!nz.contains(c[0]));
        assert(keep(Seq::<u8>::empty(), nz) =~= Seq::<u8>::empty());
        assert(keep(seq![c[0]], nz) =~= Seq::<u8>::empty());
        assert forall|i: int| 0 <= i < rest.len() implies nz.contains(#[trigger] rest[i]) by {
            assert(rest[i] == c[i + 1]);
        }
        lemma_keep_all(rest, nz);
        lemma_keep_sortable(c, nz, t);
        assert(keep(c, nz) =~= rest);
        let dec = |v: u8| (v - 1) as u8;
        assert(order_keeping(dec, nz));
        lemma_rename_sortable(rest, dec, nz, t);
        assert(front =~= rest.map_values(dec));
    }
    assert(sortable_increasing(front, t));
    if dl {
        let last = front.last();
        let nm = Set::new(|w: u8| w != last);
        let res = front.drop_last();
        if df {
            assert forall|i: int| 1 <= i < m implies #[trigger] c[i] != 0 by {
                assert(c[0] != c[i]);
            }
        }
        assert forall|i: int| 0 <= i < res.len() implies nm.contains(#[trigger] res[i]) by {
            if df {
                assert(res[i] as int == c[i + 1] - 1);
                assert(last as int == c[m - 1] - 1);
                assert(c[i + 1] != c[m - 1]);
            } else {
                assert(c[i] != c[m - 1]);
            }
        }
        assert(front =~= res + seq![last]);
        lemma_keep_concat(res, seq![last], nm);
        assert(seq![last].drop_last() =~= Seq::<u8>::empty());
        assert(seq![last].last() == last);
        assert(!nm.contains(last));
        assert(keep(Seq::<u8>::empty(), nm) =~= Seq::<u8>::empty());
        assert(keep(seq![last], nm) =~= Seq::<u8>::empty());
        lemma_keep_all(res, nm);
        lemma_keep_sortable(front, nm, t);
        assert(keep(front, nm) =~= res);
        assert(normalize_spec(c) == res);
    } else {
        assert(normalize_spec(c) == front);
    }
    assert(sortable_increasing(reduce_spec(p), t));
    lemma_normalize_is_permutation(c);
    lemma_increasing_to_sortable(reduce_spec(p), t);
}

/// A permutation of one item or more and its reduced form are sorted by
/// the same numbers of block transpositions.
pub proof fn lemma_reduce_keeps_distance(p: Seq<u8>, t: nat)
    requires
        is_permutation(p, p.len() as int),
        1 <= p.len() <= 255,
    ensures
        sortable_within(p, t) == sortable_within(reduce_spec(p), t),
{
    if sortable_within(p, t) {
        lemma_reduce_lower(p, t);
    }
    if sortable_within(reduce_spec(p), t) {
        lemma_reduce_lift(p, t);
    }
}

/// No item of `s` is followed by the next value.
pub open spec fn no_adjacency(s: Seq<u8>) -> bool {
    forall|t: int| 0 <= t < s.len() - 1 ==> #[trigger] s[t + 1] as int != s[t] + 1
}

/// The heads of the first `k` positions begin the heads of the first `k2`.
proof fn lemma_heads_prefix(p: Seq<u8>, k: int, k2: int)
    requires
        0 <= k <= k2 <= p.len(),
    ensures
        block_heads(p, k).len() <= block_heads(p, k2).len(),
        forall|t: int| 0 <= t < block_heads(p, k).len() ==> #[trigger] block_heads(p, k2)[t] == block_heads(p, k)[t],
    decreases k2 - k,
{
    if k2 > k {
        lemma_heads_prefix(p, k, k2 - 1);
        let h = block_heads(p, k2 - 1);
        if is_block_start(p, k2 - 1) {
            assert(block_heads(p, k2) == h.push(p[k2 - 1]));
        } else {
            assert(block_heads(p, k2) == h);
        }
        assert forall|t: int| 0 <= t < block_heads(p, k).len() implies #[trigger] block_heads(p, k2)[t] == block_heads(p, k)[t] by {
            assert(block_heads(p, k2)[t] == h[t]);
        }
    }
}

/// A block start `s` is the head at place `block_heads(p, s).len()`.
proof fn lemma_head_place(p: Seq<u8>, s: int)
    requires
        0 <= s < p.len(),
        is_block_start(p, s),
    ensures
        block_heads(p, s + 1) == block_heads(p, s).push(p[s]),
        block_heads(p, s).len() < block_heads(p, p.len() as int).len(),
        block_heads(p, p.len() as int)[block_heads(p, s).len() as int] == p[s],
{
    assert(block_heads(p, s + 1) == block_heads(p, s).push(p[s]));
    lemma_heads_prefix(p, s + 1, p.len() as int);
    assert(block_heads(p, s + 1)[block_heads(p, s).len() as int] == p[s]);
}

/// The collapsed value of a block head is below that of `p.len()`.
proof fn lemma_collapsed_below_top(p: Seq<u8>, s: int)
    requires
        is_permutation(p, p.len() as int),
        0 <= s < p.len(),
        is_block_start(p, s),
    ensures
        collapsed_value(p, p[s] as int) < collapsed_value(p, p.len() as int),
{
    let n = p.len() as int;
    let a = p[s] as int;
    assert(distinct_upto(p, n));
    lemma_absorbed_split(p, n, 0, a, n);
    lemma_absorbed_split(p, n, a, a + 1, n);
    assert forall|i: int| 0 <= i < n && !is_block_start(p, i) implies !(a <= #[trigger] p[i] < a + 1) by {
        if p[i] as int == a {
            if i < s {
                assert(p[i] != p[s]);
            } else if i > s {
                assert(p[s] != p[i]);
            }
        }
    }
    lemma_absorbed_none(p, n, a, a + 1);
    lemma_absorbed_le_count(p, n, a + 1, n);
    lemma_pigeonhole(p, n, a + 1, n);
}

/// Collapsing leaves no item followed by the next value.
pub proof fn lemma_collapse_no_adjacency(p: Seq<u8>)
    requires
        is_permutation(p, p.len() as int),
        1 <= p.len() <= 255,
    ensures
        no_adjacency(collapse(p)),
{
    let n = p.len() as int;
    let heads = block_heads(p, n);
    let c = collapse(p);
    lemma_collapse_entries(p);
    lemma_heads_distinct(p, n);
    assert forall|t: int| 0 <= t < c.len() - 1 implies #[trigger] c[t + 1] as int != c[t] + 1 by {
        let h1 = heads[t] as int;
        let h2 = heads[t + 1] as int;
        assert(c[t] as int == collapsed_value(p, h1));
        assert(c[t + 1] as int == collapsed_value(p, h2));
        assert(is_head(p, h1));
        assert(is_head(p, h2));
        lemma_pos_of(p, h1);
        let s = pos_of(p, h1);
        lemma_head_place(p, s);
        let t1 = block_heads(p, s).len() as int;
        if t1 != t {
            if t1 < t {
                assert(heads[t1] != heads[t]);
            } else {
                assert(heads[t] != heads[t1]);
            }
        }
        assert(t1 == t);
        lemma_next_start(p, s);
        let e = next_start(p, s);
        lemma_heads_skip(p, s + 1, e);
        if e == n {
            assert(block_heads(p, n).len() == t + 1);
        }
        assert(e < n);
        lemma_head_place(p, e);
        assert(block_heads(p, e).len() == t + 1);
        assert(h2 == p[e] as int);
        if c[t + 1] as int == c[t] + 1 {
            lemma_run_block(p, h1);
            let v = h1 + run_len(p, h1);
            lemma_next_collapsed(p, h1);
            if v < n {
                lemma_next_head(p, h1);
                lemma_head_collapse_injective(p, v, h2);
                lemma_run_values(p, s, e - 1);
                assert(p[e - 1] as int == v - 1);
                assert(!is_block_start(p, e));
            } else {
                lemma_collapsed_below_top(p, e);
            }
        }
    }
}

proof fn lemma_heads_all(s: Seq<u8>, k: int)
    requires
        no_adjacency(s),
        0 <= k <= s.len(),
    ensures
        block_heads(s, k) == s.take(k),
    decreases k,
{
    if k > 0 {
        lemma_heads_all(s, k - 1);
        if k - 1 > 0 {
            assert(s[(k - 2) + 1] as int != s[k - 2] + 1);
        }
        assert(is_block_start(s, k - 1));
        assert(s.take(k) =~= s.take(k - 1).push(s[k - 1]));
    }
}

/// A sequence with no item followed by the next value collapses to itself.
proof fn lemma_collapse_fixed(s: Seq<u8>)
    requires
        no_adjacency(s),
    ensures
        collapse(s) == s,
{
    let n = s.len() as int;
    lemma_heads_all(s, n);
    assert(s.take(n) =~= s);
    assert forall|i: int| 0 <= i < n implies is_block_start(s, i) by {
        if i > 0 {
            assert(s[(i - 1) + 1] as int != s[i - 1] + 1);
        }
    }
    assert forall|t: int| 0 <= t < n implies #[trigger] collapse(s)[t] == s[t] by {
        lemma_absorbed_none(s, n, 0, s[t] as int);
    }
    assert(collapse(s) =~= s);
}

/// Normalizing a permutation with no item followed by the next value
/// leaves one that again has none, starts with no `0` and, when longer than
/// one, ends with no maximum.
proof fn lemma_normalize_settled(r: Seq<u8>)
    requires
        is_permutation(r, r.len() as int),
        r.len() >= 1,
        no_adjacency(r),
    ensures
        no_adjacency(normalize_spec(r)),
        normalize_spec(r).len() > 0 ==> normalize_spec(r)[0] != 0,
        normalize_spec(r).len() > 1 ==> normalize_spec(r)[normalize_spec(r).len() - 1] as int != normalize_spec(r).len() - 1,
{
    let m = r.len() as int;
    let df = r[0] == 0;
    let dl = m > 1 && r[m - 1] as int == m - 1;
    let out = normalize_spec(r);
    if df {
        let front = r.drop_first().map_values(|v: u8| (v - 1) as u8);
        assert forall|i: int| 0 <= i < m - 1 implies #[trigger] front[i] as int == r[i + 1] - 1 by {
            assert(r[0] != r[i + 1]);
        }
        if dl {
            assert(out == front.drop_last());
            assert forall|t: int| 0 <= t < out.len() - 1 implies #[trigger] out[t + 1] as int != out[t] + 1 by {
                assert(out[t + 1] == front[t + 1] && out[t] == front[t]);
                assert(r[(t + 1) + 1] as int != r[t + 1] + 1);
            }
            if out.len() > 0 {
                assert(out[0] == front[0]);
                assert(r[0int + 1] as int != r[0] + 1);
            }
            if out.len() > 1 {
                assert(out[out.len() - 1] == front[m - 3]);
                assert(r[(m - 2) + 1] as int != r[m - 2] + 1);
            }
        } else {
            assert(out == front);
            assert forall|t: int| 0 <= t < out.len() - 1 implies #[trigger] out[t + 1] as int != out[t] + 1 by {
                assert(r[(t + 1) + 1] as int != r[t + 1] + 1);
            }
            if out.len() > 0 {
                assert(r[0int + 1] as int != r[0] + 1);
            }
        }
    } else {
        if dl {
            assert(out == r.drop_last());
            assert forall|t: int| 0 <= t < out.len() - 1 implies #[trigger] out[t + 1] as int != out[t] + 1 by {
                assert(r[t + 1] as int != r[t] + 1);
            }
            if out.len() > 1 {
                assert(r[(m - 2) + 1] as int != r[m - 2] + 1);
            }
        } else {
            assert(out == r);
            if m == 1 {
                assert(r[0] as int == 0);
            }
        }
    }
}

/// Reducing is idempotent: the reduced form of a permutation reduces to
/// itself.
pub proof fn lemma_reduce_idempotent(p: Seq<u8>)
    requires
        is_permutation(p, p.len() as int),
        1 <= p.len() <= 255,
    ensures
        reduce_spec(reduce_spec(p)) == reduce_spec(p),
{
    let c = collapse(p);
    lemma_collapse_is_permutation(p);
    lemma_collapse_entries(p);
    lemma_heads_len(p, p.len() as int);
    lemma_collapse_no_adjacency(p);
    lemma_normalize_settled(c);
    let s = normalize_spec(c);
    lemma_collapse_fixed(s);
    let m = s.len() as int;
    if m > 0 {
        assert(s[0] != 0);
    }
    assert(normalize_spec(s) =~= s);
}

} // verus!
