//! The walk of one block sliding right through a permutation, one position
//! at a time, until it lands on a cell already slid from; and the count of
//! the cells not slid from yet.
use vstd::prelude::*;
use crate::permutation::theory::{fact, is_permutation, lehmer_value, lemma_lehmer_range, lemma_small_facts, lemma_fact_monotone};
use crate::permutation::permutation_label::{codes_decode, perm_of_code, lemma_perm_of_code};
use crate::permutation::precompute::{moved_item, lemma_moved_item_permutation};
use crate::permutation::distance_calculator::{ProcessingStatus, slide_code, lemma_slide_code_range, one_slide_from};

verus! {

/// Where block `[i, j]` of `code` lands once its last item reaches `m`:
/// the code reached and the block's new first and last positions.
pub open spec fn slide_cell(n: int, code: int, i: int, j: int, m: int) -> (u32, usize, usize) {
    (slide_code(n, code, j - i + 1, j, m) as u32, (i + (m - j)) as usize, m as usize)
}

/// The cell `(code, first, last)` has not been slid from.
pub open spec fn cell_open(vis: Seq<Vec<Vec<ProcessingStatus>>>, t: (u32, usize, usize)) -> bool {
    vis[t.0 as int]@[t.1 as int]@[t.2 as int] == ProcessingStatus::UNPROCESSED
}

/// Every cell the block lands on up to position `m` has not been slid from.
pub open spec fn walk_open(vis: Seq<Vec<Vec<ProcessingStatus>>>, n: int, code: int, i: int, j: int, m: int) -> bool
    decreases m - j,
{
    if m <= j {
        true
    } else {
        walk_open(vis, n, code, i, j, m - 1) && cell_open(vis, slide_cell(n, code, i, j, m))
    }
}

/// The cells the block lands on before position `k`, up to the first one
/// already slid from.
pub open spec fn walk_cells(vis: Seq<Vec<Vec<ProcessingStatus>>>, n: int, code: int, i: int, j: int, k: int) -> Seq<
    (u32, usize, usize),
>
    decreases k - j,
{
    if k <= j + 1 {
        Seq::empty()
    } else if walk_open(vis, n, code, i, j, k - 1) {
        walk_cells(vis, n, code, i, j, k - 1).push(slide_cell(n, code, i, j, k - 1))
    } else {
        walk_cells(vis, n, code, i, j, k - 1)
    }
}

/// The codes among those cells that are farther than `code`.
pub open spec fn walk_farther(
    vis: Seq<Vec<Vec<ProcessingStatus>>>,
    d: Seq<u8>,
    n: int,
    code: int,
    i: int,
    j: int,
    k: int,
) -> Seq<u32>
    decreases k - j,
{
    if k <= j + 1 {
        Seq::empty()
    } else {
        let before = walk_farther(vis, d, n, code, i, j, k - 1);
        let c = slide_code(n, code, j - i + 1, j, k - 1);
        if walk_open(vis, n, code, i, j, k - 1) && d[code] < d[c] {
            before.push(c as u32)
        } else {
            before
        }
    }
}

/// `walk_cells` of the first `t` blocks, one after the other.
pub open spec fn blocks_cells(
    vis: Seq<Vec<Vec<ProcessingStatus>>>,
    n: int,
    code: int,
    blocks: Seq<(usize, usize)>,
    t: int,
) -> Seq<(u32, usize, usize)>
    decreases t,
{
    if t <= 0 {
        Seq::empty()
    } else {
        blocks_cells(vis, n, code, blocks, t - 1) + walk_cells(vis, n, code, blocks[t - 1].0 as int, blocks[t - 1].1 as int, n)
    }
}

/// `walk_farther` of the first `t` blocks, one after the other.
pub open spec fn blocks_farther(
    vis: Seq<Vec<Vec<ProcessingStatus>>>,
    d: Seq<u8>,
    n: int,
    code: int,
    blocks: Seq<(usize, usize)>,
    t: int,
) -> Seq<u32>
    decreases t,
{
    if t <= 0 {
        Seq::empty()
    } else {
        blocks_farther(vis, d, n, code, blocks, t - 1) + walk_farther(
            vis,
            d,
            n,
            code,
            blocks[t - 1].0 as int,
            blocks[t - 1].1 as int,
            n,
        )
    }
}

/// The first cell block `[i, j]` of `code` lands on: the block moved right
/// by one position.
pub open spec fn first_cell(n: int, code: int, i: int, j: int) -> (u32, usize, usize) {
    slide_cell(n, code, i, j, j + 1)
}

/// When the first cell of a block is open, the walk lands on it.
pub proof fn lemma_walk_lands_first(vis: Seq<Vec<Vec<ProcessingStatus>>>, n: int, code: int, i: int, j: int, k: int)
    requires
        j + 1 < k,
        cell_open(vis, first_cell(n, code, i, j)),
    ensures
        walk_cells(vis, n, code, i, j, k).contains(first_cell(n, code, i, j)),
    decreases k - j,
{
    let x = first_cell(n, code, i, j);
    if k == j + 2 {
        assert(walk_open(vis, n, code, i, j, j));
        assert(walk_open(vis, n, code, i, j, j + 1));
        assert(walk_cells(vis, n, code, i, j, j + 1) =~= Seq::empty());
        let w = walk_cells(vis, n, code, i, j, k);
        assert(w[0] == x);
    } else {
        lemma_walk_lands_first(vis, n, code, i, j, k - 1);
        let prev = walk_cells(vis, n, code, i, j, k - 1);
        let w = walk_cells(vis, n, code, i, j, k);
        let idx = choose|idx: int| 0 <= idx < prev.len() && prev[idx] == x;
        if walk_open(vis, n, code, i, j, k - 1) {
            assert(w == prev.push(slide_cell(n, code, i, j, k - 1)));
            assert(w[idx] == x);
        } else {
            assert(w == prev);
        }
    }
}

/// Every cell the walk of one of the first `t` blocks lands on is among
/// the cells of those blocks.
pub proof fn lemma_blocks_cells_hold(
    vis: Seq<Vec<Vec<ProcessingStatus>>>,
    n: int,
    code: int,
    blocks: Seq<(usize, usize)>,
    t: int,
    s: int,
    x: (u32, usize, usize),
)
    requires
        0 <= s < t <= blocks.len(),
        walk_cells(vis, n, code, blocks[s].0 as int, blocks[s].1 as int, n).contains(x),
    ensures
        blocks_cells(vis, n, code, blocks, t).contains(x),
    decreases t,
{
    let a = blocks_cells(vis, n, code, blocks, t - 1);
    let w = walk_cells(vis, n, code, blocks[t - 1].0 as int, blocks[t - 1].1 as int, n);
    assert(blocks_cells(vis, n, code, blocks, t) == a + w);
    if s == t - 1 {
        let idx = choose|idx: int| 0 <= idx < w.len() && w[idx] == x;
        assert((a + w)[a.len() + idx] == x);
    } else {
        lemma_blocks_cells_hold(vis, n, code, blocks, t - 1, s, x);
        let idx = choose|idx: int| 0 <= idx < a.len() && a[idx] == x;
        assert((a + w)[idx] == x);
    }
}

/// When the first cell of a block is not open, no cell of its walk is.
pub proof fn lemma_walk_shut(vis: Seq<Vec<Vec<ProcessingStatus>>>, n: int, code: int, i: int, j: int, m: int)
    requires
        !cell_open(vis, first_cell(n, code, i, j)),
        m >= j + 1,
    ensures
        !walk_open(vis, n, code, i, j, m),
    decreases m - j,
{
    if m > j + 1 {
        lemma_walk_shut(vis, n, code, i, j, m - 1);
    }
}

/// When the first cell of a block is not open, its walk finds no code.
pub proof fn lemma_walk_farther_empty(
    vis: Seq<Vec<Vec<ProcessingStatus>>>,
    d: Seq<u8>,
    n: int,
    code: int,
    i: int,
    j: int,
    k: int,
)
    requires
        !cell_open(vis, first_cell(n, code, i, j)),
    ensures
        walk_farther(vis, d, n, code, i, j, k).len() == 0,
    decreases k - j,
{
    if k > j + 1 {
        lemma_walk_farther_empty(vis, d, n, code, i, j, k - 1);
        lemma_walk_shut(vis, n, code, i, j, k - 1);
    }
}

/// When the first cell of every block is not open, the walks find no code.
pub proof fn lemma_blocks_farther_empty(
    vis: Seq<Vec<Vec<ProcessingStatus>>>,
    d: Seq<u8>,
    n: int,
    code: int,
    blocks: Seq<(usize, usize)>,
    t: int,
)
    requires
        0 <= t <= blocks.len(),
        forall|s: int| 0 <= s < blocks.len() ==> !cell_open(vis, first_cell(n, code, #[trigger] blocks[s].0 as int, blocks[s].1 as int)),
    ensures
        blocks_farther(vis, d, n, code, blocks, t).len() == 0,
    decreases t,
{
    if t > 0 {
        lemma_blocks_farther_empty(vis, d, n, code, blocks, t - 1);
        assert(!cell_open(vis, first_cell(n, code, blocks[t - 1].0 as int, blocks[t - 1].1 as int)));
        lemma_walk_farther_empty(vis, d, n, code, blocks[t - 1].0 as int, blocks[t - 1].1 as int, n);
    }
}

/// Once the walk meets a cell slid from, it records nothing more.
pub proof fn lemma_walk_closed(
    vis: Seq<Vec<Vec<ProcessingStatus>>>,
    d: Seq<u8>,
    n: int,
    code: int,
    i: int,
    j: int,
    k: int,
    m: int,
)
    requires
        j < k <= m,
        !walk_open(vis, n, code, i, j, k),
    ensures
        !walk_open(vis, n, code, i, j, m),
        walk_cells(vis, n, code, i, j, m + 1) == walk_cells(vis, n, code, i, j, k),
        walk_farther(vis, d, n, code, i, j, m + 1) == walk_farther(vis, d, n, code, i, j, k),
    decreases m - k,
{
    if m > k {
        lemma_walk_closed(vis, d, n, code, i, j, k, m - 1);
    }
}

/// The cells of a walk are in range and had not been slid from; its
/// farther codes are in range and farther than `code`; and there are no
/// more farther codes than cells.
pub proof fn lemma_walk_facts(
    vis: Seq<Vec<Vec<ProcessingStatus>>>,
    d: Seq<u8>,
    n: int,
    code: int,
    i: int,
    j: int,
    k: int,
)
    requires
        1 <= n <= 12,
        codes_decode(n),
        0 <= code < fact(n as nat),
        0 <= i <= j,
        k <= n,
        d.len() == fact(n as nat),
    ensures
        forall|t: int|
            0 <= t < walk_cells(vis, n, code, i, j, k).len() ==> {
                let x = #[trigger] walk_cells(vis, n, code, i, j, k)[t];
                &&& (x.0 as int) < fact(n as nat)
                &&& (x.1 as int) < n
                &&& (x.2 as int) < n
                &&& cell_open(vis, x)
            },
        forall|t: int|
            0 <= t < walk_farther(vis, d, n, code, i, j, k).len() ==> {
                let c = #[trigger] walk_farther(vis, d, n, code, i, j, k)[t];
                &&& (c as int) < fact(n as nat)
                &&& d[code] < d[c as int]
                &&& one_slide_from(n, code, c as int)
            },
        walk_farther(vis, d, n, code, i, j, k).len() <= walk_cells(vis, n, code, i, j, k).len(),
    decreases k - j,
{
    if k > j + 1 {
        lemma_walk_facts(vis, d, n, code, i, j, k - 1);
        lemma_slide_code_range(n, code, j - i + 1, j, k - 1);
        lemma_small_facts();
        lemma_fact_monotone(n as nat, 12);
        let cells = walk_cells(vis, n, code, i, j, k - 1);
        let far = walk_farther(vis, d, n, code, i, j, k - 1);
        if walk_open(vis, n, code, i, j, k - 1) {
            let x = slide_cell(n, code, i, j, k - 1);
            let cur = cells.push(x);
            assert forall|t: int| 0 <= t < cur.len() implies {
                let y = #[trigger] cur[t];
                &&& (y.0 as int) < fact(n as nat)
                &&& (y.1 as int) < n
                &&& (y.2 as int) < n
                &&& cell_open(vis, y)
            } by {
                if t < cells.len() {
                    assert(cur[t] == cells[t]);
                }
            }
            let c = slide_code(n, code, j - i + 1, j, k - 1);
            if d[code] < d[c] {
                let curf = far.push(c as u32);
                assert(one_slide_from(n, code, c));
                assert forall|t: int| 0 <= t < curf.len() implies {
                    let y = #[trigger] curf[t];
                    &&& (y as int) < fact(n as nat)
                    &&& d[code] < d[y as int]
                    &&& one_slide_from(n, code, y as int)
                } by {
                    if t < far.len() {
                        assert(curf[t] == far[t]);
                    }
                }
            }
        }
    }
}

/// The facts of `lemma_walk_facts` over the first `t` blocks of a size.
pub proof fn lemma_blocks_facts(
    vis: Seq<Vec<Vec<ProcessingStatus>>>,
    d: Seq<u8>,
    n: int,
    code: int,
    blocks: Seq<(usize, usize)>,
    t: int,
)
    requires
        1 <= n <= 12,
        codes_decode(n),
        0 <= code < fact(n as nat),
        d.len() == fact(n as nat),
        0 <= t <= blocks.len(),
        forall|s: int| 0 <= s < blocks.len() ==> (#[trigger] blocks[s]).0 <= blocks[s].1,
    ensures
        forall|s: int|
            0 <= s < blocks_cells(vis, n, code, blocks, t).len() ==> {
                let x = #[trigger] blocks_cells(vis, n, code, blocks, t)[s];
                &&& (x.0 as int) < fact(n as nat)
                &&& (x.1 as int) < n
                &&& (x.2 as int) < n
                &&& cell_open(vis, x)
            },
        forall|s: int|
            0 <= s < blocks_farther(vis, d, n, code, blocks, t).len() ==> {
                let c = #[trigger] blocks_farther(vis, d, n, code, blocks, t)[s];
                &&& (c as int) < fact(n as nat)
                &&& d[code] < d[c as int]
                &&& one_slide_from(n, code, c as int)
            },
        blocks_farther(vis, d, n, code, blocks, t).len() <= blocks_cells(vis, n, code, blocks, t).len(),
    decreases t,
{
    if t > 0 {
        lemma_blocks_facts(vis, d, n, code, blocks, t - 1);
        let b = blocks[t - 1];
        lemma_walk_facts(vis, d, n, code, b.0 as int, b.1 as int, n);
        let a = blocks_cells(vis, n, code, blocks, t - 1);
        let w = walk_cells(vis, n, code, b.0 as int, b.1 as int, n);
        assert forall|s: int| 0 <= s < (a + w).len() implies {
            let x = #[trigger] (a + w)[s];
            &&& (x.0 as int) < fact(n as nat)
            &&& (x.1 as int) < n
            &&& (x.2 as int) < n
            &&& cell_open(vis, x)
        } by {
            if s < a.len() {
                assert((a + w)[s] == a[s]);
            } else {
                assert((a + w)[s] == w[s - a.len()]);
            }
        }
        let af = blocks_farther(vis, d, n, code, blocks, t - 1);
        let wf = walk_farther(vis, d, n, code, b.0 as int, b.1 as int, n);
        assert forall|s: int| 0 <= s < (af + wf).len() implies {
            let c = #[trigger] (af + wf)[s];
            &&& (c as int) < fact(n as nat)
            &&& d[code] < d[c as int]
            &&& one_slide_from(n, code, c as int)
        } by {
            if s < af.len() {
                assert((af + wf)[s] == af[s]);
            } else {
                assert((af + wf)[s] == wf[s - af.len()]);
            }
        }
    }
}

/// The sum of a sequence of integers.
pub open spec fn seq_sum(s: Seq<int>) -> int
    decreases s.len(),
{
    if s.len() == 0 {
        0
    } else {
        seq_sum(s.drop_last()) + s.last()
    }
}

/// Changing one element changes the sum by the difference.
pub proof fn lemma_seq_sum_update(s: Seq<int>, i: int, v: int)
    requires
        0 <= i < s.len(),
    ensures
        seq_sum(s.update(i, v)) == seq_sum(s) - s[i] + v,
    decreases s.len(),
{
    let u = s.update(i, v);
    if i == s.len() - 1 {
        assert(u.drop_last() =~= s.drop_last());
    } else {
        lemma_seq_sum_update(s.drop_last(), i, v);
        assert(u.drop_last() =~= s.drop_last().update(i, v));
    }
}

/// A sum of non-negative integers is non-negative.
pub proof fn lemma_seq_sum_nonneg(s: Seq<int>)
    requires
        forall|i: int| 0 <= i < s.len() ==> s[i] >= 0,
    ensures
        seq_sum(s) >= 0,
    decreases s.len(),
{
    if s.len() > 0 {
        lemma_seq_sum_nonneg(s.drop_last());
    }
}

/// The number of cells of a row not slid from.
pub open spec fn open_in_row(row: Seq<ProcessingStatus>) -> int {
    seq_sum(row.map_values(|p: ProcessingStatus| if p == ProcessingStatus::UNPROCESSED { 1int } else { 0int }))
}

/// The number of cells of a code's table not slid from.
pub open spec fn open_in_plane(plane: Seq<Vec<ProcessingStatus>>) -> int {
    seq_sum(plane.map_values(|r: Vec<ProcessingStatus>| open_in_row(r@)))
}

/// The number of cells not slid from, over all codes.
pub open spec fn open_cells(vis: Seq<Vec<Vec<ProcessingStatus>>>) -> int {
    seq_sum(vis.map_values(|p: Vec<Vec<ProcessingStatus>>| open_in_plane(p@)))
}

/// The counts of cells not slid from are non-negative.
pub proof fn lemma_open_cells_nonneg(vis: Seq<Vec<Vec<ProcessingStatus>>>)
    ensures
        open_cells(vis) >= 0,
{
    assert forall|c: int| 0 <= c < vis.len() implies #[trigger] open_in_plane(vis[c]@) >= 0 by {
        let plane = vis[c]@;
        assert forall|a: int| 0 <= a < plane.len() implies #[trigger] open_in_row(plane[a]@) >= 0 by {
            lemma_seq_sum_nonneg(plane[a]@.map_values(|p: ProcessingStatus| if p == ProcessingStatus::UNPROCESSED { 1int } else { 0int }));
        }
        lemma_seq_sum_nonneg(plane.map_values(|r: Vec<ProcessingStatus>| open_in_row(r@)));
    }
    lemma_seq_sum_nonneg(vis.map_values(|p: Vec<Vec<ProcessingStatus>>| open_in_plane(p@)));
}

/// Marking one cell slid from lowers the count by one when it was open,
/// and leaves it as it was otherwise.
pub proof fn lemma_mark_cell(
    vis: Seq<Vec<Vec<ProcessingStatus>>>,
    new_vis: Seq<Vec<Vec<ProcessingStatus>>>,
    c: int,
    a: int,
    b: int,
)
    requires
        0 <= c < vis.len(),
        0 <= a < vis[c]@.len(),
        0 <= b < vis[c]@[a]@.len(),
        new_vis.len() == vis.len(),
        forall|x: int| 0 <= x < vis.len() && x != c ==> #[trigger] new_vis[x] == vis[x],
        new_vis[c]@.len() == vis[c]@.len(),
        forall|y: int| 0 <= y < vis[c]@.len() && y != a ==> #[trigger] new_vis[c]@[y] == vis[c]@[y],
        new_vis[c]@[a]@ == vis[c]@[a]@.update(b, ProcessingStatus::PROCESSED),
    ensures
        open_cells(new_vis) == open_cells(vis) - (if vis[c]@[a]@[b] == ProcessingStatus::UNPROCESSED { 1int } else { 0int }),
{
    let f = |p: ProcessingStatus| if p == ProcessingStatus::UNPROCESSED { 1int } else { 0int };
    let g = |r: Vec<ProcessingStatus>| open_in_row(r@);
    let h = |p: Vec<Vec<ProcessingStatus>>| open_in_plane(p@);
    let row = vis[c]@[a]@;
    let delta = if row[b] == ProcessingStatus::UNPROCESSED { 1int } else { 0int };
    assert(new_vis[c]@[a]@.map_values(f) =~= row.map_values(f).update(b, 0int));
    lemma_seq_sum_update(row.map_values(f), b, 0int);
    assert(open_in_row(new_vis[c]@[a]@) == open_in_row(row) - delta);
    let plane = vis[c]@;
    assert(new_vis[c]@.map_values(g) =~= plane.map_values(g).update(a, open_in_row(row) - delta));
    lemma_seq_sum_update(plane.map_values(g), a, open_in_row(row) - delta);
    assert(open_in_plane(new_vis[c]@) == open_in_plane(plane) - delta);
    assert(new_vis.map_values(h) =~= vis.map_values(h).update(c, open_in_plane(plane) - delta));
    lemma_seq_sum_update(vis.map_values(h), c, open_in_plane(plane) - delta);
}

/// The block transposition of `p` that swaps the neighbouring blocks
/// `[a, j]` and `[j + 1, k]`.
pub open spec fn swap_blocks(p: Seq<u8>, a: int, j: int, k: int) -> Seq<u8> {
    p.subrange(0, a) + p.subrange(j + 1, k + 1) + p.subrange(a, j + 1) + p.subrange(k + 1, p.len() as int)
}

/// `q` is one block transposition away from `p`.
pub open spec fn one_block_move(p: Seq<u8>, q: Seq<u8>) -> bool {
    exists|a: int, j: int, k: int| 0 <= a <= j < k < p.len() && q == #[trigger] swap_blocks(p, a, j, k)
}

/// Sliding the block of `bs` items ending at `j` right, one position at a
/// time, until it ends at `k`, is the block transposition swapping it with
/// the items after it up to `k`.
#[verifier::spinoff_prover]
#[verifier::rlimit(40)]
pub proof fn lemma_slide_swaps_blocks(n: int, code: int, bs: int, j: int, k: int)
    requires
        1 <= n <= 12,
        codes_decode(n),
        0 <= code < fact(n as nat),
        1 <= bs <= j + 1,
        j < k < n,
    ensures
        perm_of_code(n, slide_code(n, code, bs, j, k)) == swap_blocks(perm_of_code(n, code), j - bs + 1, j, k),
    decreases k - j,
{
    let p = perm_of_code(n, code);
    let a = j - bs + 1;
    let prev_code = slide_code(n, code, bs, j, k - 1);
    let q = if k - 1 == j {
        p
    } else {
        lemma_slide_swaps_blocks(n, code, bs, j, k - 1);
        swap_blocks(p, a, j, k - 1)
    };
    lemma_slide_code_range(n, code, bs, j, k - 1);
    assert(perm_of_code(n, prev_code) == q);
    if k - 1 == j {
        assert(swap_blocks(p, a, j, j) =~= p);
    }
    assert(is_permutation(q, n));
    let moved = moved_item(q, k, k - bs);
    assert(moved =~= swap_blocks(p, a, j, k));
    lemma_moved_item_permutation(q, n, k, k - bs);
    lemma_lehmer_range(moved, n);
    vstd::arithmetic::div_mod::lemma_small_mod(lehmer_value(moved) as nat, fact(n as nat));
    lemma_perm_of_code(moved, n, slide_code(n, code, bs, j, k));
}

/// Swapping the blocks back undoes a block transposition.
pub proof fn lemma_swap_blocks_inverse(p: Seq<u8>, a: int, j: int, k: int)
    requires
        0 <= a <= j < k < p.len(),
    ensures
        swap_blocks(swap_blocks(p, a, j, k), a, a + (k - j) - 1, k) == p,
{
    let q = swap_blocks(p, a, j, k);
    assert(swap_blocks(q, a, a + (k - j) - 1, k) =~= p);
}

/// A code one slide away is one block transposition away, and then the
/// first is one block transposition away from the second too.
pub proof fn lemma_slide_is_block_move(n: int, code: int, c: int)
    requires
        1 <= n <= 12,
        codes_decode(n),
        0 <= code < fact(n as nat),
        one_slide_from(n, code, c),
    ensures
        one_block_move(perm_of_code(n, code), perm_of_code(n, c)),
        one_block_move(perm_of_code(n, c), perm_of_code(n, code)),
{
    let (bs, j, k) = choose|bs: int, j: int, k: int| 1 <= bs <= j + 1 && j < k < n && c == #[trigger] slide_code(n, code, bs, j, k);
    lemma_slide_swaps_blocks(n, code, bs, j, k);
    let p = perm_of_code(n, code);
    let a = j - bs + 1;
    let q = swap_blocks(p, a, j, k);
    assert(p.len() == n);
    assert(perm_of_code(n, c) == q);
    lemma_swap_blocks_inverse(p, a, j, k);
    assert(q.len() == n);
    assert(swap_blocks(q, a, a + (k - j) - 1, k) == p);
}

/// `p` can be sorted by at most `t` block transpositions.
pub open spec fn sortable_within(p: Seq<u8>, t: nat) -> bool
    decreases t,
{
    if p == crate::permutation::permutations_generator::identity(p.len() as int) {
        true
    } else if t == 0 {
        false
    } else {
        exists|q: Seq<u8>| #[trigger] one_block_move(p, q) && sortable_within(q, (t - 1) as nat)
    }
}

/// One block transposition more sorts what it reaches.
pub proof fn lemma_sortable_step(p: Seq<u8>, q: Seq<u8>, t: nat)
    requires
        one_block_move(p, q),
        sortable_within(q, t),
    ensures
        sortable_within(p, t + 1),
{
    assert(sortable_within(p, t + 1));
}

/// More moves allowed sort no fewer permutations.
pub proof fn lemma_sortable_monotone(p: Seq<u8>, t: nat, u: nat)
    requires
        sortable_within(p, t),
        t <= u,
    ensures
        sortable_within(p, u),
    decreases t,
{
    if p != crate::permutation::permutations_generator::identity(p.len() as int) {
        let q = choose|q: Seq<u8>| #[trigger] one_block_move(p, q) && sortable_within(q, (t - 1) as nat);
        lemma_sortable_monotone(q, (t - 1) as nat, (u - 1) as nat);
        lemma_sortable_step(p, q, (u - 1) as nat);
    }
}

/// Every known distance of the table of size `n` (below 99) is achieved:
/// the permutation of its code is sorted by that many block
/// transpositions.
pub open spec fn table_sound(n: int, d: Seq<u8>) -> bool {
    forall|c: int| 0 <= c < d.len() && d[c] < 99 ==> sortable_within(perm_of_code(n, c), #[trigger] d[c] as nat)
}

} // verus!
