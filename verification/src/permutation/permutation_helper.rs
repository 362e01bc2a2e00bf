//! Reduction of a permutation: runs of consecutive increasing values
//! (adjacencies) collapse to one symbol, and a fixed first or last symbol is
//! dropped. A permutation that this leaves unchanged in length is pure.
use vstd::prelude::*;
use crate::permutation::theory::{is_permutation, distinct_upto, count_in, lemma_pigeonhole, lemma_count_split, lemma_count_le_len, lemma_count_all};

verus! {

/// Position `i` starts a block: it is the first position, or its value is not
/// one more than the value before it.
pub open spec fn is_block_start(p: Seq<u8>, i: int) -> bool {
    i == 0 || p[i] as int != p[i - 1] as int + 1
}

/// The values at the block starts among the first `k` positions, in order.
pub open spec fn block_heads(p: Seq<u8>, k: int) -> Seq<u8>
    decreases k,
{
    if k <= 0 {
        Seq::empty()
    } else if is_block_start(p, k - 1) {
        block_heads(p, k - 1).push(p[k - 1])
    } else {
        block_heads(p, k - 1)
    }
}

/// Number of positions `i < k` inside a block (not starting one) whose value
/// lies in `[lo, hi)`: the values absorbed by collapsing the blocks.
pub open spec fn absorbed_in(p: Seq<u8>, k: int, lo: int, hi: int) -> nat
    decreases k,
{
    if k <= 0 {
        0
    } else {
        absorbed_in(p, k - 1, lo, hi) + if !is_block_start(p, k - 1) && lo <= p[k - 1] < hi {
            1nat
        } else {
            0nat
        }
    }
}

/// Each block replaced by its first value, lowered by the number of absorbed
/// values below it.
pub open spec fn collapse(p: Seq<u8>) -> Seq<u8> {
    block_heads(p, p.len() as int).map_values(
        |w: u8| (w - absorbed_in(p, p.len() as int, 0, w as int)) as u8,
    )
}

/// Drops a leading `0` (lowering the rest by one) and a trailing maximum.
pub open spec fn normalize_spec(r: Seq<u8>) -> Seq<u8> {
    let drop_first = r.len() > 0 && r[0] == 0;
    let drop_last = r.len() > 1 && r[r.len() - 1] as int == r.len() - 1;
    let front = if drop_first {
        r.drop_first().map_values(|v: u8| (v - 1) as u8)
    } else {
        r
    };
    if drop_last {
        front.drop_last()
    } else {
        front
    }
}

/// The reduced form of a permutation.
pub open spec fn reduce_spec(p: Seq<u8>) -> Seq<u8> {
    normalize_spec(collapse(p))
}

/// Sum of the first `k` entries.
pub open spec fn prefix_total(s: Seq<u8>, k: int) -> int
    decreases k,
{
    if k <= 0 {
        0
    } else {
        prefix_total(s, k - 1) + s[k - 1]
    }
}

proof fn lemma_prefix_total_monotone(s: Seq<u8>, i: int, k: int)
    requires
        0 <= i <= k,
    ensures
        0 <= prefix_total(s, i) <= prefix_total(s, k),
    decreases k,
{
    if k > i {
        lemma_prefix_total_monotone(s, i, k - 1);
    } else if k > 0 {
        lemma_prefix_total_monotone(s, 0, k - 1);
    }
}

proof fn lemma_prefix_total_update(s: Seq<u8>, v: int, c: u8, k: int)
    requires
        0 <= v < s.len(),
        s[v] == 0,
        0 <= k <= s.len(),
    ensures
        prefix_total(s.update(v, c), k) == prefix_total(s, k) + if v < k {
            c as int
        } else {
            0
        },
    decreases k,
{
    if k > 0 {
        lemma_prefix_total_update(s, v, c, k - 1);
    }
}

/// Replaces each entry by the sum of the entries up to it.
fn prefix_sum(offset: &mut Vec<u8>)
    requires
        prefix_total(old(offset)@, old(offset)@.len() as int) <= 255,
    ensures
        final(offset)@.len() == old(offset)@.len(),
        forall|i: int|
            0 <= i < old(offset)@.len() ==> final(offset)@[i] as int == prefix_total(old(offset)@, i + 1),
{
    let ghost s = offset@;
    if offset.len() > 0 {
        assert(prefix_total(s, 0) == 0);
        assert(offset@[0] as int == prefix_total(s, 1));
    }
    let len = offset.len();
    let mut i: usize = 1;
    while i < len
        invariant
            1 <= i,
            len == s.len(),
            offset@.len() == s.len(),
            prefix_total(s, s.len() as int) <= 255,
            forall|j: int| 0 <= j < i && j < s.len() ==> offset@[j] as int == prefix_total(s, j + 1),
            forall|j: int| i <= j < s.len() ==> offset@[j] == s[j],
        decreases len - i,
    {
        proof {
            lemma_prefix_total_monotone(s, i + 1, s.len() as int);
            assert(prefix_total(s, i + 1) == prefix_total(s, i as int) + s[i as int]);
        }
        offset[i] = offset[i - 1] + offset[i];
        i = i + 1;
    }
}

pub proof fn lemma_absorbed_le_count(p: Seq<u8>, k: int, lo: int, hi: int)
    requires
        0 <= k <= p.len(),
    ensures
        absorbed_in(p, k, lo, hi) <= count_in(p, k, lo, hi),
    decreases k,
{
    if k > 0 {
        lemma_absorbed_le_count(p, k - 1, lo, hi);
    }
}

pub proof fn lemma_absorbed_split(p: Seq<u8>, k: int, lo: int, mid: int, hi: int)
    requires
        lo <= mid <= hi,
    ensures
        absorbed_in(p, k, lo, mid) + absorbed_in(p, k, mid, hi) == absorbed_in(p, k, lo, hi),
    decreases k,
{
    if k > 0 {
        lemma_absorbed_split(p, k - 1, lo, mid, hi);
    }
}

pub proof fn lemma_absorbed_none(p: Seq<u8>, k: int, lo: int, hi: int)
    requires
        forall|i: int| 0 <= i < k && !is_block_start(p, i) ==> !(lo <= #[trigger] p[i] < hi),
    ensures
        absorbed_in(p, k, lo, hi) == 0,
    decreases k,
{
    if k > 0 {
        lemma_absorbed_none(p, k - 1, lo, hi);
    }
}

/// Every block head is the value of some block start.
pub proof fn lemma_head_witness(p: Seq<u8>, k: int, j: int) -> (s: int)
    requires
        0 <= k <= p.len(),
        0 <= j < block_heads(p, k).len(),
    ensures
        0 <= s < k,
        is_block_start(p, s),
        p[s] == block_heads(p, k)[j],
    decreases k,
{
    if is_block_start(p, k - 1) && j == block_heads(p, k - 1).len() {
        k - 1
    } else {
        lemma_head_witness(p, k - 1, j)
    }
}

pub proof fn lemma_heads_len(p: Seq<u8>, k: int)
    requires
        0 <= k <= p.len(),
    ensures
        block_heads(p, k).len() <= k,
        k > 0 ==> block_heads(p, k).len() >= 1,
    decreases k,
{
    if k > 0 {
        lemma_heads_len(p, k - 1);
    }
}

/// Heads are listed in the order of their positions, so distinct indices of
/// the head list come from distinct start positions.
pub proof fn lemma_heads_distinct(p: Seq<u8>, k: int)
    requires
        is_permutation(p, p.len() as int),
        0 <= k <= p.len(),
    ensures
        forall|a: int, b: int|
            0 <= a < b < block_heads(p, k).len() ==> block_heads(p, k)[a] != block_heads(p, k)[b],
    decreases k,
{
    if k > 0 {
        lemma_heads_distinct(p, k - 1);
        if is_block_start(p, k - 1) {
            let h = block_heads(p, k - 1);
            assert forall|a: int| 0 <= a < h.len() implies h[a] != p[k - 1] by {
                let s = lemma_head_witness(p, k - 1, a);
                assert(p[s] != p[k - 1]);
            }
            let h2 = block_heads(p, k);
            assert(h2 == h.push(p[k - 1]));
            assert forall|a: int, b: int| 0 <= a < b < h2.len() implies h2[a] != h2[b] by {
                if b < h.len() {
                    assert(h2[a] == h[a] && h2[b] == h[b]);
                } else {
                    assert(h2[b] == p[k - 1] && h2[a] == h[a]);
                }
            }
        } else {
            assert(block_heads(p, k) == block_heads(p, k - 1));
        }
    }
}

/// The collapsed value of a head `w` in terms of absorbed values.
pub open spec fn collapsed_value(p: Seq<u8>, w: int) -> int {
    w - absorbed_in(p, p.len() as int, 0, w)
}

/// Collapsing keeps the order of block heads, strictly.
pub proof fn lemma_collapse_order(p: Seq<u8>, s: int, t: int)
    requires
        is_permutation(p, p.len() as int),
        0 <= s < p.len(),
        0 <= t < p.len(),
        is_block_start(p, s),
        p[s] < p[t],
    ensures
        0 <= collapsed_value(p, p[s] as int) < collapsed_value(p, p[t] as int),
{
    let n = p.len() as int;
    let a = p[s] as int;
    let b = p[t] as int;
    assert(distinct_upto(p, n));
    lemma_absorbed_split(p, n, 0, a, b);
    lemma_absorbed_split(p, n, a, a + 1, b);
    assert forall|i: int| 0 <= i < n && !is_block_start(p, i) implies !(a <= #[trigger] p[i] < a + 1) by {
        if p[i] as int == a {
            assert(i != s);
            if i < s {
                assert(p[i] != p[s]);
            } else {
                assert(p[s] != p[i]);
            }
        }
    }
    lemma_absorbed_none(p, n, a, a + 1);
    lemma_absorbed_le_count(p, n, a + 1, b);
    lemma_pigeonhole(p, n, a + 1, b);
    lemma_absorbed_le_count(p, n, 0, a);
    lemma_pigeonhole(p, n, 0, a);
}

/// Values absorbed in the first `k` positions are all distinct from the
/// value `w`.
pub open spec fn unabsorbed(p: Seq<u8>, k: int, w: int) -> bool {
    forall|i: int| 0 <= i < k && !is_block_start(p, i) ==> #[trigger] p[i] as int != w
}

/// Number of values in `(h, h + c]` that lie below `w`.
pub open spec fn run_below(h: int, c: int, w: int) -> int {
    if w <= h {
        0
    } else if w - h - 1 < c {
        w - h - 1
    } else {
        c
    }
}

/// The running offsets, as sums, count the absorbed values of the first `d`
/// positions below every value not absorbed there, and nothing is recorded
/// at a value that does not occur among those positions.
pub open spec fn offsets_track(p: Seq<u8>, offset: Seq<u8>, d: int) -> bool {
    let n = p.len() as int;
    &&& offset.len() == n
    &&& 0 <= d <= n
    &&& forall|w: int|
        0 <= w < n && unabsorbed(p, d, w) ==> prefix_total(offset, w + 1) == #[trigger] absorbed_in(p, d, 0, w)
    &&& prefix_total(offset, n) == absorbed_in(p, d, 0, n)
    &&& forall|u: int|
        0 <= u < n && #[trigger] offset[u] != 0 ==> exists|i: int| 0 <= i < d && #[trigger] p[i] as int == u
}

/// Closing the block `[b, e)`: recording its absorbed count at the value that
/// follows its head keeps the offsets in step, now up to `e`.
#[verifier::rlimit(80)]
#[verifier::spinoff_prover]
proof fn lemma_block_complete(p: Seq<u8>, offset: Seq<u8>, b: int, e: int, ct: u8)
    requires
        is_permutation(p, p.len() as int),
        0 <= b < e <= p.len(),
        ct as int == e - 1 - b,
        is_block_start(p, b),
        e < p.len() ==> is_block_start(p, e),
        forall|i: int| b < i < e ==> !is_block_start(p, i) && #[trigger] p[i] as int == p[b] + (i - b),
        forall|w: int| #[trigger] absorbed_in(p, e, 0, w) == absorbed_in(p, b, 0, w) + run_below(p[b] as int, ct as int, w),
        offsets_track(p, offset, b),
    ensures
        ct > 0 ==> p[b + 1] as int == p[b] + 1,
        offsets_track(p, if ct > 0 { offset.update(p[b + 1] as int, ct) } else { offset }, e),
{
    let n = p.len() as int;
    let v = p[b] as int + 1;
    if ct > 0 {
        assert(p[b + 1] as int == v);
        if offset[v] != 0 {
            let i = choose|i: int| 0 <= i < b && #[trigger] p[i] as int == v;
            assert(p[i] != p[b + 1]);
        }
        let o2 = offset.update(v, ct);
        assert forall|k: int| 0 <= k <= n implies #[trigger] prefix_total(o2, k) == prefix_total(offset, k) + if v < k {
            ct as int
        } else {
            0
        } by {
            lemma_prefix_total_update(offset, v, ct, k);
        }
        assert forall|u: int| 0 <= u < n && #[trigger] o2[u] != 0 implies exists|i: int|
            0 <= i < e && #[trigger] p[i] as int == u by {
            if u == v {
                assert(p[b + 1] as int == u);
            } else {
                assert(offset[u] != 0);
            }
        }
    }
    let o2 = if ct > 0 { offset.update(v, ct) } else { offset };
    assert forall|w: int| 0 <= w < n && unabsorbed(p, e, w) implies prefix_total(o2, w + 1)
        == #[trigger] absorbed_in(p, e, 0, w) by {
        assert(unabsorbed(p, b, w));
        assert(prefix_total(offset, w + 1) == absorbed_in(p, b, 0, w));
        if ct > 0 && w > p[b] && w <= p[b] + ct {
            let i = b + (w - p[b]);
            assert(b < i < e);
            assert(p[i] as int == w);
            assert(!is_block_start(p, i));
        }
    }
    assert(absorbed_in(p, e, 0, n) == absorbed_in(p, b, 0, n) + run_below(p[b] as int, ct as int, n));
    assert(forall|i: int| 0 <= i < n ==> (#[trigger] p[i] as int) < n);
    if ct > 0 {
        assert(p[b] as int + ct < n) by {
            assert(p[e - 1] as int == p[b] + ct);
        }
    }
    assert forall|u: int| 0 <= u < n && #[trigger] o2[u] != 0 implies exists|i: int|
        0 <= i < e && #[trigger] p[i] as int == u by {
        if ct > 0 && u == v {
            assert(p[b + 1] as int == u);
        } else {
            assert(offset[u] != 0);
            let i = choose|i: int| 0 <= i < b && #[trigger] p[i] as int == u;
            assert(0 <= i < e && p[i] as int == u);
        }
    }
}

/// Reduces a permutation (see `reduce_spec`).
pub fn reduce_permutation(permutation: &Vec<u8>) -> (r: Vec<u8>)
    requires
        is_permutation(permutation@, permutation@.len() as int),
        1 <= permutation@.len() <= 255,
    ensures
        r@ == reduce_spec(permutation@),
        is_permutation(r@, r@.len() as int),
        r@.len() <= permutation@.len(),
        reduce_spec(r@) == r@,
{
    proof {
        lemma_reduce_is_permutation(permutation@);
    }
    let ghost p = permutation@;
    let size = permutation.len();
    let n = size as u8;
    let mut reduced_permutation: Vec<u8> = vec![];
    let mut offset: Vec<u8> = vec![0; size];
    proof {
        assert forall|u: int| 0 <= u < size implies offset@[u] == 0 by {
            assert(vstd::pervasive::cloned(0u8, offset@[u]));
        }
        assert(prefix_total(offset@, size as int) == 0) by {
            lemma_prefix_zero(offset@, size as int);
        }
    }

    reduced_permutation.push(permutation[0]);

    let mut position: u8 = 1;
    let mut adjacency_ct_in_block: u8 = 0;
    let mut reduced_index: u8 = 1;
    let mut adjacency_ct_in_permutation: u8 = 0;
    let ghost mut b: int = 0;
    let ghost mut d: int = 0;
    proof {
        assert forall|u: int| 0 <= u < size && #[trigger] offset@[u] != 0 implies exists|i: int|
            0 <= i < 0 && #[trigger] p[i] as int == u by {}
        assert forall|w: int| 0 <= w < size implies #[trigger] prefix_total(offset@, w + 1) == 0 by {
            lemma_prefix_zero(offset@, w + 1);
        }
        assert(offsets_track(p, offset@, 0));
    }
    proof {
        assert(block_heads(p, 1) == block_heads(p, 0).push(p[0]));
        assert(reduced_permutation@ =~= block_heads(p, 1));
    }

    while position < n
        invariant
            p == permutation@,
            is_permutation(p, n as int),
            n as int == size,
            1 <= size <= 255,
            1 <= position <= n,
            b == position - 1 - adjacency_ct_in_block,
            0 <= b,
            (d == b && adjacency_ct_in_block == 0) || (position == n && d == n),
            is_block_start(p, b),
            forall|i: int| b < i < position ==> !is_block_start(p, i) && #[trigger] p[i] as int == p[b] + (i - b),
            reduced_permutation@ == block_heads(p, b + 1),
            adjacency_ct_in_permutation <= position,
            offsets_track(p, offset@, d),
        decreases n - position,
    {
        let ghost offset0 = offset@;
        while position < n && permutation[position as usize] == permutation[(position - 1) as usize] + 1
            invariant
                p == permutation@,
                is_permutation(p, n as int),
                n as int == size,
                1 <= size <= 255,
                1 <= position <= n,
                b == position - 1 - adjacency_ct_in_block,
                0 <= b < n,
                is_block_start(p, b),
                forall|i: int| b < i < position ==> !is_block_start(p, i) && #[trigger] p[i] as int == p[b] + (i - b),
                adjacency_ct_in_permutation <= position,
                forall|w: int|
                    #[trigger] absorbed_in(p, position as int, 0, w) == absorbed_in(p, b, 0, w)
                        + run_below(p[b] as int, adjacency_ct_in_block as int, w),
            decreases n - position,
        {
            proof {
                assert(!is_block_start(p, position as int));
                assert(p[position as int] as int == p[b] + (position - b));
                assert forall|w: int|
                    #[trigger] absorbed_in(p, position + 1, 0, w) == absorbed_in(p, b, 0, w)
                        + run_below(p[b] as int, adjacency_ct_in_block + 1, w) by {
                    assert(absorbed_in(p, position + 1, 0, w) == absorbed_in(p, position as int, 0, w)
                        + if p[position as int] < w { 1int } else { 0int });
                }
            }
            adjacency_ct_in_block = adjacency_ct_in_block + 1;
            adjacency_ct_in_permutation = adjacency_ct_in_permutation + 1;
            position = position + 1;
        }
        let ghost e = position as int;
        proof {
            assert(d == b);
            lemma_block_complete(p, offset0, b, e, adjacency_ct_in_block);
            if adjacency_ct_in_block > 0 {
                assert(p[b + 1] as int == p[b] + 1);
            }
        }
        if adjacency_ct_in_block > 0 {
            offset[permutation[(position - adjacency_ct_in_block) as usize] as usize] = adjacency_ct_in_block;
        }
        if position < n {
            reduced_permutation.push(permutation[position as usize]);
            position = position + 1;
            adjacency_ct_in_block = 0;
            proof {
                lemma_heads_skip(p, b + 1, e);
                assert(block_heads(p, e + 1) == block_heads(p, e).push(p[e]));
                b = e;
                d = e;
            }
        } else {
            proof {
                lemma_heads_skip(p, b + 1, e);
                d = e;
            }
        }
    }
    proof {
        if d == b {
            assert(b == n - 1);
            assert(absorbed_in(p, n as int, 0, n as int) == absorbed_in(p, b, 0, n as int));
            assert forall|w: int| #[trigger] absorbed_in(p, n as int, 0, w) == absorbed_in(p, b, 0, w) by {}
            d = n as int;
        }
        assert(offsets_track(p, offset@, n as int));
    }
    proof {
        // the whole permutation has been scanned
        assert(reduced_permutation@ == block_heads(p, n as int)) by {
            lemma_heads_skip(p, b + 1, n as int);
        }
        lemma_absorbed_le_count(p, n as int, 0, n as int);
        lemma_count_le_len(p, n as int, 0, n as int);
    }
    let ghost offset_before = offset@;
    prefix_sum(&mut offset);
    let ghost heads = reduced_permutation@;
    proof {
        lemma_heads_len(p, n as int);
    }
    let reduced_len = reduced_permutation.len();
    for position in 0..reduced_len
        invariant
            reduced_len == heads.len(),
            p == permutation@,
            is_permutation(p, n as int),
            n as int == size,
            heads == block_heads(p, n as int),
            reduced_permutation@.len() == heads.len(),
            offset@.len() == size,
            forall|w: int|
                0 <= w < n && unabsorbed(p, n as int, w) ==> prefix_total(offset_before, w + 1) == #[trigger] absorbed_in(p, n as int, 0, w),
            forall|i: int| 0 <= i < size ==> offset@[i] as int == prefix_total(offset_before, i + 1),
            forall|j: int| 0 <= j < position ==> reduced_permutation@[j] as int == collapsed_value(p, heads[j] as int),
            forall|j: int| position <= j < heads.len() ==> reduced_permutation@[j] == heads[j],
    {
        let current_value = reduced_permutation[position as usize];
        proof {
            lemma_head_collapsible(p, position as int);
        }
        reduced_permutation[position as usize] = current_value - offset[current_value as usize];
    }
    let m = n - adjacency_ct_in_permutation as u8;
    proof {
        assert(reduced_permutation@ =~= collapse(p));
        lemma_collapse_facts(p);
        crate::permutation::reduction_lift::lemma_reduce_idempotent(p);
    }
    return normalize(reduced_permutation);
}

/// A head value is not absorbed, lies below `n`, and at least as many values
/// lie below it as are absorbed below it.
proof fn lemma_head_collapsible(p: Seq<u8>, j: int)
    requires
        is_permutation(p, p.len() as int),
        0 <= j < block_heads(p, p.len() as int).len(),
    ensures
        unabsorbed(p, p.len() as int, block_heads(p, p.len() as int)[j] as int),
        absorbed_in(p, p.len() as int, 0, block_heads(p, p.len() as int)[j] as int)
            <= block_heads(p, p.len() as int)[j],
        block_heads(p, p.len() as int)[j] < p.len(),
{
    let n = p.len() as int;
    let w = block_heads(p, n)[j];
    let s = lemma_head_witness(p, n, j);
    assert forall|i: int| 0 <= i < n && !is_block_start(p, i) implies #[trigger] p[i] as int != w by {
        if i < s {
            assert(p[i] != p[s]);
        } else if s < i {
            assert(p[s] != p[i]);
        }
    }
    lemma_absorbed_le_count(p, n, 0, w as int);
    assert(distinct_upto(p, n));
    lemma_pigeonhole(p, n, 0, w as int);
}

proof fn lemma_prefix_zero(s: Seq<u8>, k: int)
    requires
        0 <= k <= s.len(),
        forall|u: int| 0 <= u < k ==> s[u] == 0,
    ensures
        prefix_total(s, k) == 0,
    decreases k,
{
    if k > 0 {
        lemma_prefix_zero(s, k - 1);
    }
}

/// Positions inside blocks add no heads.
pub proof fn lemma_heads_skip(p: Seq<u8>, a: int, e: int)
    requires
        0 <= a <= e <= p.len(),
        forall|i: int| a <= i < e ==> !is_block_start(p, i),
    ensures
        block_heads(p, e) == block_heads(p, a),
    decreases e - a,
{
    if e > a {
        lemma_heads_skip(p, a, e - 1);
    }
}

/// The collapsed form is non-empty, of values that are all positive when its
/// first one is zero.
proof fn lemma_collapse_facts(p: Seq<u8>)
    requires
        is_permutation(p, p.len() as int),
        1 <= p.len() <= 255,
    ensures
        collapse(p).len() >= 1,
        collapse(p).len() <= p.len(),
        collapse(p)[0] == 0 ==> forall|j: int| 1 <= j < collapse(p).len() ==> collapse(p)[j] >= 1,
{
    let n = p.len() as int;
    let heads = block_heads(p, n);
    lemma_heads_len(p, n);
    lemma_heads_distinct(p, n);
    assert forall|j: int| 0 <= j < heads.len() implies collapse(p)[j] as int == collapsed_value(p, heads[j] as int)
        && collapsed_value(p, heads[j] as int) >= 0 by {
        let s = lemma_head_witness(p, n, j);
        lemma_absorbed_le_count(p, n, 0, heads[j] as int);
        assert(distinct_upto(p, n));
        lemma_pigeonhole(p, n, 0, heads[j] as int);
    }
    if collapse(p)[0] == 0 {
        assert forall|j: int| 1 <= j < collapse(p).len() implies collapse(p)[j] >= 1 by {
            let s0 = lemma_head_witness(p, n, 0);
            let sj = lemma_head_witness(p, n, j);
            assert(heads[0] != heads[j]);
            if heads[j] < heads[0] {
                lemma_collapse_order(p, sj, s0);
            } else {
                lemma_collapse_order(p, s0, sj);
            }
        }
    }
}

/// Drops a leading `0` and a trailing maximum (see `normalize_spec`).
fn normalize(permutation: Vec<u8>) -> (r: Vec<u8>)
    requires
        1 <= permutation@.len() <= 255,
        permutation@[0] == 0 ==> forall|j: int| 1 <= j < permutation@.len() ==> permutation@[j] >= 1,
    ensures
        r@ == normalize_spec(permutation@),
{
    let remove_first_element: bool = permutation[0] == 0;
    let remove_last_element: bool = permutation.len() > 1 && permutation[permutation.len() - 1]
        == permutation.len() as u8 - 1;

    let mut normalized_permutation: Vec<u8> = vec![];
    if remove_first_element {
        for position in 1..permutation.len()
            invariant
                permutation@[0] == 0 ==> forall|j: int| 1 <= j < permutation@.len() ==> permutation@[j] >= 1,
                remove_first_element == (permutation@[0] == 0),
                remove_first_element,
                normalized_permutation@ =~= permutation@.subrange(1, position as int).map_values(|v: u8| (v - 1) as u8),
        {
            normalized_permutation.push(permutation[position as usize] - 1);
        }
    } else {
        for position in 0..permutation.len()
            invariant
                normalized_permutation@ =~= permutation@.subrange(0, position as int),
        {
            normalized_permutation.push(permutation[position]);
        }
    }
    proof {
        assert(permutation@.subrange(0, permutation@.len() as int) =~= permutation@);
        assert(permutation@.subrange(1, permutation@.len() as int) =~= permutation@.drop_first());
        assert((permutation@.len() as u8 - 1) as int == permutation@.len() - 1);
    }
    if remove_last_element {
        normalized_permutation.remove(normalized_permutation.len() - 1);
        proof {
            assert(normalized_permutation@ =~= normalize_spec(permutation@));
        }
    }
    return normalized_permutation;
}


/// Number of positions `i < k` that start a block and hold a value in `[lo, hi)`.
pub open spec fn starts_in(p: Seq<u8>, k: int, lo: int, hi: int) -> nat
    decreases k,
{
    if k <= 0 {
        0
    } else {
        starts_in(p, k - 1, lo, hi) + if is_block_start(p, k - 1) && lo <= p[k - 1] < hi {
            1nat
        } else {
            0nat
        }
    }
}

proof fn lemma_starts_absorbed(p: Seq<u8>, k: int, lo: int, hi: int)
    ensures
        starts_in(p, k, lo, hi) + absorbed_in(p, k, lo, hi) == count_in(p, k, lo, hi),
    decreases k,
{
    if k > 0 {
        lemma_starts_absorbed(p, k - 1, lo, hi);
    }
}

proof fn lemma_starts_split(p: Seq<u8>, k: int, lo: int, mid: int, hi: int)
    requires
        lo <= mid <= hi,
    ensures
        starts_in(p, k, lo, mid) + starts_in(p, k, mid, hi) == starts_in(p, k, lo, hi),
    decreases k,
{
    if k > 0 {
        lemma_starts_split(p, k - 1, lo, mid, hi);
    }
}

proof fn lemma_starts_heads(p: Seq<u8>, k: int)
    requires
        0 <= k <= p.len(),
    ensures
        starts_in(p, k, 0, 256) == block_heads(p, k).len(),
    decreases k,
{
    if k > 0 {
        lemma_starts_heads(p, k - 1);
    }
}

proof fn lemma_starts_at_least_one(p: Seq<u8>, k: int, lo: int, hi: int, s: int)
    requires
        0 <= s < k,
        is_block_start(p, s),
        lo <= p[s] < hi,
    ensures
        starts_in(p, k, lo, hi) >= 1,
    decreases k,
{
    if s < k - 1 {
        lemma_starts_at_least_one(p, k - 1, lo, hi, s);
    }
}

/// The collapsed form of a permutation is a permutation of its length.
pub proof fn lemma_collapse_is_permutation(p: Seq<u8>)
    requires
        is_permutation(p, p.len() as int),
        1 <= p.len() <= 255,
    ensures
        is_permutation(collapse(p), collapse(p).len() as int),
{
    let n = p.len() as int;
    let heads = block_heads(p, n);
    let m = heads.len() as int;
    let r = collapse(p);
    lemma_heads_len(p, n);
    lemma_heads_distinct(p, n);
    lemma_starts_heads(p, n);
    lemma_count_all(p, n, 0, n);
    assert(distinct_upto(p, n));
    assert forall|j: int| 0 <= j < m implies (#[trigger] r[j] as int) < m && r[j] as int == collapsed_value(p, heads[j] as int) by {
        let w = heads[j] as int;
        let s = lemma_head_witness(p, n, j);
        lemma_head_collapsible(p, j);
        lemma_count_split(p, n, 0, w, n);
        lemma_pigeonhole(p, n, 0, w);
        lemma_pigeonhole(p, n, w, n);
        lemma_starts_absorbed(p, n, 0, w);
        lemma_starts_split(p, n, 0, w, 256);
        lemma_starts_split(p, n, w, w + 1, 256);
        lemma_starts_at_least_one(p, n, w, w + 1, s);
    }
    assert forall|a: int, b: int| 0 <= a < b < m implies #[trigger] r[a] != #[trigger] r[b] by {
        let sa = lemma_head_witness(p, n, a);
        let sb = lemma_head_witness(p, n, b);
        assert(heads[a] != heads[b]);
        if heads[a] < heads[b] {
            lemma_collapse_order(p, sa, sb);
        } else {
            lemma_collapse_order(p, sb, sa);
        }
    }
}

/// Normalizing a permutation of its length gives a permutation of its length.
pub proof fn lemma_normalize_is_permutation(r: Seq<u8>)
    requires
        is_permutation(r, r.len() as int),
        1 <= r.len() <= 255,
    ensures
        is_permutation(normalize_spec(r), normalize_spec(r).len() as int),
        normalize_spec(r).len() <= r.len(),
{
    let m = r.len() as int;
    let drop_first = r[0] == 0;
    let drop_last = m > 1 && r[m - 1] as int == m - 1;
    let front = if drop_first { r.drop_first().map_values(|v: u8| (v - 1) as u8) } else { r };
    if drop_first {
        assert forall|j: int| 1 <= j < m implies r[j] >= 1 by {
            assert(r[0] != r[j]);
        }
        assert(front.len() == m - 1);
        assert forall|i: int| 0 <= i < m - 1 implies (#[trigger] front[i] as int) < m - 1 && front[i] as int == r[i + 1] - 1 by {
            assert(r[i + 1] >= 1);
        }
        assert(is_permutation(front, m - 1)) by {
            assert forall|i: int, j: int| 0 <= i < j < m - 1 implies #[trigger] front[i] != #[trigger] front[j] by {
                assert(r[i + 1] != r[j + 1]);
            }
        }
    }
    let fl = front.len() as int;
    if drop_last {
        assert(front[fl - 1] as int == fl - 1) by {
            if drop_first {
                assert(front[fl - 1] as int == r[m - 1] - 1);
            }
        }
        assert forall|i: int| 0 <= i < fl - 1 implies (#[trigger] front[i] as int) < fl - 1 by {
            assert(front[i] != front[fl - 1]);
        }
        assert forall|i: int, j: int| 0 <= i < j < fl - 1 implies #[trigger] front.drop_last()[i] != #[trigger] front.drop_last()[j] by {
            assert(front[i] != front[j]);
        }
    }
}

/// The reduced form of a permutation is a permutation of its length, no longer
/// than the permutation.
pub proof fn lemma_reduce_is_permutation(p: Seq<u8>)
    requires
        is_permutation(p, p.len() as int),
        1 <= p.len() <= 255,
    ensures
        is_permutation(reduce_spec(p), reduce_spec(p).len() as int),
        reduce_spec(p).len() <= p.len(),
{
    lemma_collapse_is_permutation(p);
    lemma_collapse_facts(p);
    lemma_normalize_is_permutation(collapse(p));
}

/// The sorted permutation of one item or more reduces to nothing: it is a
/// single run, whose head 0 is dropped.
pub proof fn lemma_reduce_identity(n: int)
    requires
        1 <= n <= 255,
    ensures
        reduce_spec(crate::permutation::permutations_generator::identity(n)) =~= Seq::<u8>::empty(),
{
    let p = crate::permutation::permutations_generator::identity(n);
    assert forall|k: int| 1 <= k <= n implies #[trigger] block_heads(p, k) =~= seq![0u8] by {
        lemma_identity_heads(n, k);
    }
    lemma_absorbed_empty(p, n);
    let c = collapse(p);
    assert(c =~= seq![0u8]);
}

proof fn lemma_identity_heads(n: int, k: int)
    requires
        1 <= k <= n <= 255,
    ensures
        block_heads(crate::permutation::permutations_generator::identity(n), k) =~= seq![0u8],
    decreases k,
{
    let p = crate::permutation::permutations_generator::identity(n);
    if k > 1 {
        lemma_identity_heads(n, k - 1);
        assert(p[k - 1] as int == k - 1);
        assert(p[k - 2] as int == k - 2);
        assert(!is_block_start(p, k - 1));
    } else {
        assert(p[0] == 0);
        assert(is_block_start(p, 0));
        assert(block_heads(p, 0) =~= Seq::<u8>::empty());
    }
}

pub proof fn lemma_absorbed_empty(p: Seq<u8>, k: int)
    requires
        0 <= k,
    ensures
        absorbed_in(p, k, 0, 0) == 0,
    decreases k,
{
    if k > 0 {
        lemma_absorbed_empty(p, k - 1);
    }
}

} // verus!
