//! Distances of the permutations of one size, computed from the distances of
//! the smaller sizes: a reducible permutation inherits the distance of its
//! reduced form, and the pure ones are reached by sliding blocks.
use vstd::prelude::*;
use crate::permutation::theory::{fact, lehmer_value, lemma_lehmer_range, lemma_small_facts, lemma_fact_monotone};
use crate::permutation::constants::{FACTORIALS, lemma_factorials_table};
use crate::permutation::permutation_label::{
    get_permutation_from_lehmer_code, get_lehmer_code_from_permutation, perm_of_code, lemma_perm_of_code, codes_decode,
};
use crate::permutation::permutation_helper::{reduce_permutation, reduce_spec};
use crate::permutation::adjacency_calculator::AdjacencyCalculator;
use std::collections::HashMap;
use crate::permutation::precompute::{moved_item, lemma_moved_item_permutation};
use crate::permutation::block_walk::{
    slide_cell, cell_open, walk_open, walk_cells, walk_farther, blocks_cells, blocks_farther, lemma_walk_closed,
    lemma_blocks_facts, open_cells, lemma_open_cells_nonneg, lemma_mark_cell, one_block_move, first_cell,
    lemma_walk_lands_first, lemma_blocks_cells_hold, lemma_blocks_farther_empty,
    lemma_slide_is_block_move, sortable_within, lemma_sortable_step, table_sound,
};
use crate::permutation::reduction_lift::lemma_reduce_lower;

pub mod distance_calculator_mem_efficient;

verus! {

/// Whether a block position of a permutation has been slid from already.
#[derive(PartialEq, Eq, Structural, Debug, Clone, Copy)]
pub enum ProcessingStatus {
    UNPROCESSED,
    PROCESSING,
    PROCESSED,
}

/// The marker for a step not known yet.
pub const INVALID_PAIR: (u8, u32) = (99, 99);

/// Distances of the permutations of one size (by Lehmer code), together with
/// the step each one was reached from, the reduced form of each, the codes
/// of the pure ones, and which block positions have been slid from.
pub struct PermutationsData {
    pub size: usize,
    /// visited[code][i][j]: the block [i, j] of `code` has been slid from.
    pub visited: Vec<Vec<Vec<ProcessingStatus>>>,
    pub distance: Vec<u8>,
    /// next_step: size, code
    pub next_step: Vec<(u8, u32)>,
    pub adjacency_calculator: AdjacencyCalculator,
    pub reduced_code: Vec<(usize, u32)>,
    pub pure_permutations: Vec<u32>,
}

/// The blocks `(i, j)`, `i <= j < m`, of rows `0..i`, in order.
pub open spec fn blocks_upto(i: int, m: int) -> Seq<(usize, usize)>
    decreases i,
{
    if i <= 0 {
        Seq::empty()
    } else {
        blocks_upto(i - 1, m) + Seq::new((m - (i - 1)) as nat, |t: int| ((i - 1) as usize, (i - 1 + t) as usize))
    }
}

/// The blocks `(i, j)` with `i <= j < size - 1`, row by row.
pub open spec fn blocks_for_size(size: int) -> Seq<(usize, usize)> {
    blocks_upto(size - 1, size - 1)
}

pub proof fn lemma_blocks_bounds(i: int, m: int)
    requires
        0 <= i <= m <= 255,
    ensures
        forall|t: int| 0 <= t < blocks_upto(i, m).len() ==> {
            let b = #[trigger] blocks_upto(i, m)[t];
            b.0 <= b.1 < m && (b.0 as int) < i
        },
    decreases i,
{
    if i > 0 {
        lemma_blocks_bounds(i - 1, m);
        let prev = blocks_upto(i - 1, m);
        let row = Seq::new((m - (i - 1)) as nat, |t: int| ((i - 1) as usize, (i - 1 + t) as usize));
        assert(blocks_upto(i, m) == prev + row);
        assert forall|t: int| 0 <= t < blocks_upto(i, m).len() implies {
            let b = #[trigger] blocks_upto(i, m)[t];
            b.0 <= b.1 < m && (b.0 as int) < i
        } by {
            if t < prev.len() {
                assert(blocks_upto(i, m)[t] == prev[t]);
            } else {
                assert(blocks_upto(i, m)[t] == row[t - prev.len()]);
            }
        }
    }
}

/// Every block `(a, b)` with `a < i` and `a <= b < m` is listed.
pub proof fn lemma_blocks_upto_holds(i: int, m: int, a: int, b: int)
    requires
        0 <= a < i <= m <= 255,
        a <= b < m,
    ensures
        exists|t: int| 0 <= t < blocks_upto(i, m).len() && #[trigger] blocks_upto(i, m)[t] == (a as usize, b as usize),
    decreases i,
{
    let prev = blocks_upto(i - 1, m);
    let row = Seq::new((m - (i - 1)) as nat, |t: int| ((i - 1) as usize, (i - 1 + t) as usize));
    assert(blocks_upto(i, m) == prev + row);
    if a == i - 1 {
        let t = prev.len() + (b - a);
        assert(blocks_upto(i, m)[t] == row[b - a]);
    } else {
        lemma_blocks_upto_holds(i - 1, m, a, b);
        let t = choose|t: int| 0 <= t < prev.len() && #[trigger] prev[t] == (a as usize, b as usize);
        assert(blocks_upto(i, m)[t] == prev[t]);
    }
}

/// All blocks `(i, j)`, `i <= j < size - 1`, row by row.
pub fn get_all_blocks_for_size(size: usize) -> (r: Vec<(usize, usize)>)
    requires
        size >= 1,
    ensures
        r@ == blocks_for_size(size as int),
{
    let mut pairs: Vec<(usize, usize)> = vec![];
    for i in 0..size - 1
        invariant
            size >= 1,
            pairs@ == blocks_upto(i as int, size - 1),
    {
        let ghost before = pairs@;
        for j in i..size - 1
            invariant
                size >= 1,
                i < size - 1,
                pairs@ =~= before + Seq::new((j - i) as nat, |t: int| (i as usize, (i + t) as usize)),
        {
            pairs.push((i, j));
        }
    };
    pairs
}

/// The pair recorded for the permutation of code `c`: its own size and code
/// when it is pure, else the size and code of its reduced form.
pub open spec fn reduced_pair(n: int, c: int) -> (usize, u32) {
    let p = perm_of_code(n, c);
    let r = reduce_spec(p);
    if r.len() == p.len() {
        (n as usize, c as u32)
    } else {
        (r.len() as usize, lehmer_value(r) as u32)
    }
}

/// The codes below `k` whose recorded pair keeps the size `n`.
pub open spec fn pure_codes_of(n: int, rc: Seq<(usize, u32)>, k: int) -> Seq<u32>
    decreases k,
{
    if k <= 0 {
        Seq::empty()
    } else if rc[k - 1].0 as int == n {
        pure_codes_of(n, rc, k - 1).push((k - 1) as u32)
    } else {
        pure_codes_of(n, rc, k - 1)
    }
}

/// All distances are at most 99 (99 standing for "not known yet").
pub open spec fn distances_bounded(d: Seq<u8>) -> bool {
    forall|c: int| 0 <= c < d.len() ==> #[trigger] d[c] <= 99
}

/// `v` is a `count x n x n` array.
pub open spec fn visited_shape(v: Seq<Vec<Vec<ProcessingStatus>>>, count: int, n: int) -> bool {
    &&& v.len() == count
    &&& forall|c: int| 0 <= c < count ==> (#[trigger] v[c])@.len() == n
    &&& forall|c: int, a: int| 0 <= c < count && 0 <= a < n ==> (#[trigger] v[c]@[a])@.len() == n
}

/// The recorded pairs of every code of size `n`.
pub open spec fn reduced_codes_ok(n: int, rc: Seq<(usize, u32)>) -> bool {
    &&& rc.len() == fact(n as nat)
    &&& forall|c: int| 0 <= c < rc.len() ==> #[trigger] rc[c] == reduced_pair(n, c)
}

/// The data of every size below `n` has one distance, at most 99, per code.
pub open spec fn previous_sizes_ok(prev: Seq<PermutationsData>, n: int) -> bool {
    &&& prev.len() >= n
    &&& forall|m: int|
        0 <= m < n ==> (#[trigger] prev[m]).distance@.len() == fact(m as nat) && distances_bounded(prev[m].distance@)
}

impl PermutationsData {
    /// The tables of a size `n` from 1 to 12 have their shapes, the recorded
    /// pairs and pure codes are those of the permutations, and distances are
    /// at most 99.
    pub open spec fn well_formed(&self) -> bool {
        let n = self.size as int;
        &&& 1 <= n <= 12
        &&& codes_decode(n)
        &&& self.adjacency_calculator.well_formed()
        &&& self.adjacency_calculator.dimension() == n
        &&& self.distance@.len() == fact(n as nat)
        &&& self.next_step@.len() == fact(n as nat)
        &&& visited_shape(self.visited@, fact(n as nat) as int, n)
        &&& reduced_codes_ok(n, self.reduced_code@)
        &&& self.pure_permutations@ == pure_codes_of(n, self.reduced_code@, fact(n as nat) as int)
        &&& distances_bounded(self.distance@)
    }
}


/// The recorded pair of a code: a size at most `n`, and a code of that size;
/// the size is `n` exactly for the pure permutations, which keep their code.
pub proof fn lemma_reduced_pair_bounds(n: int, c: int)
    requires
        1 <= n <= 12,
        codes_decode(n),
        0 <= c < fact(n as nat),
    ensures
        reduced_pair(n, c).0 <= n,
        (reduced_pair(n, c).1 as int) < fact(reduced_pair(n, c).0 as nat),
        reduced_pair(n, c).0 == n ==> reduced_pair(n, c).1 == c,
{
    let p = perm_of_code(n, c);
    crate::permutation::permutation_helper::lemma_reduce_is_permutation(p);
    let r = reduce_spec(p);
    lemma_lehmer_range(r, r.len() as int);
    lemma_lehmer_range(p, n);
    lemma_small_facts();
    lemma_fact_monotone(r.len() as nat, 12);
    lemma_fact_monotone(n as nat, 12);
}

/// The sorted permutation has code 0, and its recorded pair is the empty
/// permutation of size 0.
pub proof fn lemma_sorted_reduces(n: int)
    requires
        1 <= n <= 12,
    ensures
        perm_of_code(n, 0) == crate::permutation::permutations_generator::identity(n),
        reduced_pair(n, 0) == (0usize, 0u32),
{
    let id = crate::permutation::permutations_generator::identity(n);
    crate::permutation::theory::lemma_identity_code(n);
    crate::permutation::theory::lemma_fact_pos(n as nat);
    assert(id =~= Seq::new(n as nat, |i: int| i as u8));
    lemma_perm_of_code(id, n, 0);
    crate::permutation::permutation_helper::lemma_reduce_identity(n);
    assert(lehmer_value(Seq::<u8>::empty()) == 0);
}

/// A `count x n x n` array of `UNPROCESSED`.
pub open spec fn all_unprocessed(v: Seq<Vec<Vec<ProcessingStatus>>>, count: int, n: int) -> bool {
    &&& visited_shape(v, count, n)
    &&& forall|c: int, a: int, b: int|
        0 <= c < count && 0 <= a < n && 0 <= b < n ==> #[trigger] v[c]@[a]@[b] == ProcessingStatus::UNPROCESSED
}

/// An `n x n` array of `UNPROCESSED`.
pub fn build_visited_vec_for_code(size: usize) -> (r: Vec<Vec<ProcessingStatus>>)
    ensures
        r@.len() == size,
        forall|a: int| 0 <= a < size ==> (#[trigger] r@[a])@.len() == size,
        forall|a: int, b: int| 0 <= a < size && 0 <= b < size ==> #[trigger] r@[a]@[b] == ProcessingStatus::UNPROCESSED,
{
    let mut current_code: Vec<Vec<ProcessingStatus>> = vec![];
    for i in 0..size
        invariant
            current_code@.len() == i,
            forall|a: int| 0 <= a < i ==> (#[trigger] current_code@[a])@.len() == size,
            forall|a: int, b: int| 0 <= a < i && 0 <= b < size ==> #[trigger] current_code@[a]@[b] == ProcessingStatus::UNPROCESSED,
    {
        let mut current_start_pos: Vec<ProcessingStatus> = vec![];
        for j in 0..size
            invariant
                current_start_pos@.len() == j,
                forall|b: int| 0 <= b < j ==> #[trigger] current_start_pos@[b] == ProcessingStatus::UNPROCESSED,
        {
            current_start_pos.push(ProcessingStatus::UNPROCESSED);
        }
        current_code.push(current_start_pos);
    }
    current_code
}

/// The pair recorded for one code (see `reduced_pair`).
pub fn get_reduced_code(size: usize, code: u32) -> (r: (usize, u32))
    requires
        1 <= size <= 12,
        (code as int) < fact(size as nat),
    ensures
        r == reduced_pair(size as int, code as int),
{
    let permutation = get_permutation_from_lehmer_code(size, code as usize);
    proof {
        lemma_perm_of_code(permutation@, size as int, code as int);
        vstd::arithmetic::div_mod::lemma_small_mod(code as nat, fact(size as nat));
        lemma_perm_of_code(permutation@, size as int, code as int);
    }
    let reduced_permutation = reduce_permutation(&permutation);
    if reduced_permutation.len() == permutation.len() {
        let value_to_push = (size, code);
        return value_to_push;
    } else {
        let reduced_code = get_lehmer_code_from_permutation(&reduced_permutation);
        let value_to_push = (reduced_permutation.len(), reduced_code);
        return value_to_push;
    }
}

impl PermutationsData {
    /// A `size! x size x size` array of `UNPROCESSED`.
    pub fn init_visited(size: usize) -> (r: Vec<Vec<Vec<ProcessingStatus>>>)
        requires
            size <= 12,
        ensures
            all_unprocessed(r@, fact(size as nat) as int, size as int),
    {
        proof {
            lemma_factorials_table(size as int);
        }
        let total = FACTORIALS[size as usize];
        let mut visited: Vec<Vec<Vec<ProcessingStatus>>> = vec![];
        for pos in 0..total
            invariant
                total as int == fact(size as nat),
                all_unprocessed(visited@, pos as int, size as int),
        {
            visited.push(build_visited_vec_for_code(size));
        }
        visited
    }

    /// One step per code, all unknown but that of the identity.
    pub fn init_next_step(size: usize) -> (r: Vec<(u8, u32)>)
        requires
            size <= 12,
        ensures
            r@.len() == fact(size as nat),
            r@[0] == (0u8, 0u32),
            forall|c: int| 1 <= c < r@.len() ==> #[trigger] r@[c] == INVALID_PAIR,
    {
        proof {
            lemma_factorials_table(size as int);
            crate::permutation::theory::lemma_fact_pos(size as nat);
        }
        let mut next_step: Vec<(u8, u32)> = vec![];
        let lehmer_code_range = FACTORIALS[size as usize];
        for code in 0..lehmer_code_range
            invariant
                lehmer_code_range as int == fact(size as nat),
                next_step@.len() == code,
                forall|c: int| 0 <= c < code ==> #[trigger] next_step@[c] == INVALID_PAIR,
        {
            next_step.push(INVALID_PAIR);
        }
        next_step[0] = (0, 0);
        next_step
    }

    /// One distance per code: 0 for the identity, 99 (unknown) for the others.
    pub fn init_distance(size: usize) -> (r: Vec<u8>)
        requires
            size <= 12,
        ensures
            r@.len() == fact(size as nat),
            r@[0] == 0,
            forall|c: int| 1 <= c < r@.len() ==> #[trigger] r@[c] == 99,
    {
        proof {
            lemma_factorials_table(size as int);
            crate::permutation::theory::lemma_fact_pos(size as nat);
        }
        let mut distance: Vec<u8> = vec![];
        let lehmer_code_range = FACTORIALS[size as usize];
        for i in 0..lehmer_code_range
            invariant
                lehmer_code_range as int == fact(size as nat),
                distance@.len() == i,
                forall|c: int| 0 <= c < i ==> #[trigger] distance@[c] == 99,
        {
            distance.push(99);
        }
        distance[0] = 0;
        distance
    }

    /// The recorded pair of every code (see `reduced_pair`).
    pub fn init_reduced_code(size: usize) -> (r: Vec<(usize, u32)>)
        requires
            1 <= size <= 12,
        ensures
            reduced_codes_ok(size as int, r@),
    {
        proof {
            lemma_factorials_table(size as int);
        }
        let total = FACTORIALS[size as usize];
        let mut r: Vec<(usize, u32)> = vec![];
        for code in 0..total
            invariant
                1 <= size <= 12,
                total as int == fact(size as nat),
                r@.len() == code,
                forall|c: int| 0 <= c < code ==> #[trigger] r@[c] == reduced_pair(size as int, c),
        {
            r.push(get_reduced_code(size, code));
        }
        r
    }

    /// Appends the codes whose recorded pair keeps the size.
    pub fn init_pure_permutations(&mut self)
        requires
            old(self).reduced_code@.len() <= u32::MAX,
        ensures
            final(self).pure_permutations@ == old(self).pure_permutations@ + pure_codes_of(
                old(self).size as int,
                old(self).reduced_code@,
                old(self).reduced_code@.len() as int,
            ),
            final(self).size == old(self).size,
            final(self).visited == old(self).visited,
            final(self).distance == old(self).distance,
            final(self).next_step == old(self).next_step,
            final(self).adjacency_calculator == old(self).adjacency_calculator,
            final(self).reduced_code == old(self).reduced_code,
    {
        let ghost start = self.pure_permutations@;
        let len = self.reduced_code.len();
        for code in 0..len
            invariant
                len == self.reduced_code@.len(),
                self.reduced_code == old(self).reduced_code,
                self.reduced_code@.len() <= u32::MAX,
                self.size == old(self).size,
                self.visited == old(self).visited,
                self.distance == old(self).distance,
                self.next_step == old(self).next_step,
                self.adjacency_calculator == old(self).adjacency_calculator,
                self.pure_permutations@ == start + pure_codes_of(self.size as int, self.reduced_code@, code as int),
        {
            if self.reduced_code[code as usize].0 == self.size {
                self.pure_permutations.push(code as u32);
            }
        }
    }

    /// The data of a size from 1 to 12 before any distance is computed: the
    /// identity at distance 0 and every other code unknown, nothing visited,
    /// the recorded pairs and the pure codes.
    pub fn init(size: usize) -> (r: PermutationsData)
        requires
            1 <= size <= 12,
        ensures
            r.well_formed(),
            r.size == size,
            r.distance@[0] == 0,
            forall|c: int| 1 <= c < r.distance@.len() ==> #[trigger] r.distance@[c] == 99,
            r.next_step@[0] == (0u8, 0u32),
            forall|c: int| 1 <= c < r.next_step@.len() ==> #[trigger] r.next_step@[c] == INVALID_PAIR,
            all_unprocessed(r.visited@, fact(size as nat) as int, size as int),
            table_sound(size as int, r.distance@),
    {
        let next_step = PermutationsData::init_next_step(size);
        let visited = PermutationsData::init_visited(size);
        let distance = PermutationsData::init_distance(size);
        let adjacency_calculator = AdjacencyCalculator::init(size);
        let reduced_code = PermutationsData::init_reduced_code(size);
        let mut permutations_data = PermutationsData {
            size,
            next_step,
            visited,
            distance,
            adjacency_calculator,
            pure_permutations: vec![],
            reduced_code,
        };
        proof {
            lemma_small_facts();
            lemma_fact_monotone(size as nat, 12);
        }
        permutations_data.init_pure_permutations();
        proof {
            assert(permutations_data.pure_permutations@ =~= pure_codes_of(size as int, permutations_data.reduced_code@, fact(size as nat) as int));
            permutations_data.adjacency_calculator.lemma_well_formed_facts();
            assert(distances_bounded(permutations_data.distance@));
            lemma_sorted_reduces(size as int);
            crate::permutation::theory::lemma_fact_pos(size as nat);
            assert(sortable_within(perm_of_code(size as int, 0), 0));
        }
        return permutations_data;
    }

    /// Does nothing yet.
    pub fn calculate(&self) {
    }

    /// Records a distance and the step it came from for one code.
    pub fn update_distance_and_next_step_for_code(&mut self, code: u32, new_dist: u8, new_size: u8, new_code: u32)
        requires
            (code as int) < old(self).distance@.len(),
            (code as int) < old(self).next_step@.len(),
        ensures
            final(self).distance@ == old(self).distance@.update(code as int, new_dist),
            final(self).next_step@ == old(self).next_step@.update(code as int, (new_size, new_code)),
            final(self).size == old(self).size,
            final(self).visited == old(self).visited,
            final(self).adjacency_calculator == old(self).adjacency_calculator,
            final(self).reduced_code == old(self).reduced_code,
            final(self).pure_permutations == old(self).pure_permutations,
    {
        self.distance[code as usize] = new_dist;
        self.next_step[code as usize] = (new_size, new_code);
    }
}


/// Distances after the reducible codes inherit the distance of their
/// recorded pair from the data of the smaller sizes.
pub open spec fn inherited_distance(d: Seq<u8>, rc: Seq<(usize, u32)>, prev: Seq<PermutationsData>, n: int) -> Seq<u8> {
    Seq::new(d.len(), |c: int| if rc[c].0 as int == n { d[c] } else { prev[rc[c].0 as int].distance@[rc[c].1 as int] })
}

/// Steps after the reducible codes point to their recorded pair.
pub open spec fn inherited_step(s: Seq<(u8, u32)>, rc: Seq<(usize, u32)>, n: int) -> Seq<(u8, u32)> {
    Seq::new(s.len(), |c: int| if rc[c].0 as int == n { s[c] } else { (rc[c].0 as u8, rc[c].1) })
}

/// The code reached from `code` after sliding the block of `bs` items ending
/// at `j` right, one position at a time, until it ends at `k`.
pub open spec fn slide_code(n: int, code: int, bs: int, j: int, k: int) -> int
    decreases k - j,
{
    if k <= j {
        code
    } else {
        lehmer_value(moved_item(perm_of_code(n, slide_code(n, code, bs, j, k - 1)), k, k - bs))
    }
}

/// The codes reached by sliding block `[i, j]` right to end before `k`
/// whose recorded pair is of a smaller size, in order.
pub open spec fn block_adjacent(rc: Seq<(usize, u32)>, n: int, code: int, i: int, j: int, k: int) -> Seq<u32>
    decreases k - j,
{
    if k <= j + 1 {
        Seq::empty()
    } else {
        let c = slide_code(n, code, j - i + 1, j, k - 1);
        let before = block_adjacent(rc, n, code, i, j, k - 1);
        if (rc[c].0 as int) < n {
            before.push(c as u32)
        } else {
            before
        }
    }
}

/// `block_adjacent` over the blocks `[i, j']`, `i <= j' < j`.
pub open spec fn row_adjacent(rc: Seq<(usize, u32)>, n: int, code: int, i: int, j: int) -> Seq<u32>
    decreases j - i,
{
    if j <= i {
        Seq::empty()
    } else {
        row_adjacent(rc, n, code, i, j - 1) + block_adjacent(rc, n, code, i, j - 1, n)
    }
}

/// `block_adjacent` over all blocks of rows below `i`.
pub open spec fn all_adjacent(rc: Seq<(usize, u32)>, n: int, code: int, i: int) -> Seq<u32>
    decreases i,
{
    if i <= 0 {
        Seq::empty()
    } else {
        all_adjacent(rc, n, code, i - 1) + row_adjacent(rc, n, code, i - 1, n - 1)
    }
}

/// The first strictly best (distance, size, code) over the first `k`
/// adjacent codes, each one step further than its recorded pair, starting
/// from `(99, 99, 99)`.
pub open spec fn best_step(prev: Seq<PermutationsData>, rc: Seq<(usize, u32)>, adj: Seq<u32>, k: int) -> (u8, usize, u32)
    decreases k,
{
    if k <= 0 {
        (99u8, 99usize, 99u32)
    } else {
        let b = best_step(prev, rc, adj, k - 1);
        let pair = rc[adj[k - 1] as int];
        let nd = prev[pair.0 as int].distance@[pair.1 as int] + 1;
        if nd < b.0 {
            (nd as u8, pair.0, pair.1)
        } else {
            b
        }
    }
}

/// Slides keep codes below `n!`.
pub proof fn lemma_slide_code_range(n: int, code: int, bs: int, j: int, k: int)
    requires
        1 <= n <= 12,
        codes_decode(n),
        0 <= code < fact(n as nat),
        1 <= bs <= j + 1,
        k < n,
    ensures
        0 <= slide_code(n, code, bs, j, k) < fact(n as nat),
    decreases k - j,
{
    if k > j {
        lemma_slide_code_range(n, code, bs, j, k - 1);
        let c = slide_code(n, code, bs, j, k - 1);
        lemma_moved_item_permutation(perm_of_code(n, c), n, k, k - bs);
        lemma_lehmer_range(moved_item(perm_of_code(n, c), k, k - bs), n);
    }
}

/// The pure codes listed below `k` are increasing, below `k`, and are
/// exactly those whose recorded pair keeps the size.
pub proof fn lemma_pure_codes_of(n: int, rc: Seq<(usize, u32)>, k: int)
    requires
        0 <= k <= rc.len(),
        k <= u32::MAX + 1,
    ensures
        forall|t: int| 0 <= t < pure_codes_of(n, rc, k).len() ==> (#[trigger] pure_codes_of(n, rc, k)[t] as int) < k
            && rc[pure_codes_of(n, rc, k)[t] as int].0 as int == n,
        forall|a: int, b: int|
            0 <= a < b < pure_codes_of(n, rc, k).len() ==> #[trigger] pure_codes_of(n, rc, k)[a] < #[trigger] pure_codes_of(n, rc, k)[b],
        forall|c: int| 0 <= c < k && rc[c].0 as int == n ==> #[trigger] pure_codes_of(n, rc, k).contains(c as u32),
        pure_codes_of(n, rc, k).len() <= k,
    decreases k,
{
    if k > 0 {
        lemma_pure_codes_of(n, rc, k - 1);
        let prev = pure_codes_of(n, rc, k - 1);
        if rc[k - 1].0 as int == n {
            let cur = prev.push((k - 1) as u32);
            assert forall|c: int| 0 <= c < k && rc[c].0 as int == n implies #[trigger] cur.contains(c as u32) by {
                if c < k - 1 {
                    assert(prev.contains(c as u32));
                    let t = choose|t: int| 0 <= t < prev.len() && prev[t] == c as u32;
                    assert(cur[t] == c as u32);
                } else {
                    assert(cur[prev.len() as int] == c as u32);
                }
            }
        }
    }
}

impl PermutationsData {
    /// Every code whose recorded pair is of a smaller size takes the distance
    /// of that pair and points to it.
    fn update_distance_and_next_step_for_reducible_permutations(&mut self, permutations_data: &Vec<PermutationsData>)
        requires
            old(self).well_formed(),
            previous_sizes_ok(permutations_data@, old(self).size as int),
        ensures
            final(self).distance@ == inherited_distance(
                old(self).distance@,
                old(self).reduced_code@,
                permutations_data@,
                old(self).size as int,
            ),
            final(self).next_step@ == inherited_step(old(self).next_step@, old(self).reduced_code@, old(self).size as int),
            final(self).size == old(self).size,
            final(self).visited == old(self).visited,
            final(self).adjacency_calculator == old(self).adjacency_calculator,
            final(self).reduced_code == old(self).reduced_code,
            final(self).pure_permutations == old(self).pure_permutations,
            final(self).well_formed(),
    {
        let len = self.reduced_code.len();
        let ghost n = self.size as int;
        for code in 0..len
            invariant
                len == self.reduced_code@.len(),
                n == self.size,
                self.size == old(self).size,
                self.visited == old(self).visited,
                self.adjacency_calculator == old(self).adjacency_calculator,
                self.reduced_code == old(self).reduced_code,
                self.pure_permutations == old(self).pure_permutations,
                self.distance@.len() == old(self).distance@.len(),
                self.next_step@.len() == old(self).next_step@.len(),
                old(self).well_formed(),
                previous_sizes_ok(permutations_data@, n),
                forall|c: int| 0 <= c < code ==> #[trigger] self.distance@[c] == inherited_distance(
                    old(self).distance@,
                    old(self).reduced_code@,
                    permutations_data@,
                    n,
                )[c],
                forall|c: int| code <= c < len ==> #[trigger] self.distance@[c] == old(self).distance@[c],
                forall|c: int| 0 <= c < code ==> #[trigger] self.next_step@[c] == inherited_step(
                    old(self).next_step@,
                    old(self).reduced_code@,
                    n,
                )[c],
                forall|c: int| code <= c < len ==> #[trigger] self.next_step@[c] == old(self).next_step@[c],
        {
            let size_code_pair = self.reduced_code[code as usize];
            if size_code_pair.0 != self.size {
                proof {
                    lemma_reduced_pair_bounds(n, code as int);
                }
                let new_size = size_code_pair.0;
                let new_code = size_code_pair.1;
                let new_dist = permutations_data[new_size as usize].distance[new_code as usize];
                self.distance[code as usize] = new_dist;
                self.next_step[code as usize] = (new_size as u8, new_code);
            }
        }
        proof {
            assert(self.distance@ =~= inherited_distance(old(self).distance@, old(self).reduced_code@, permutations_data@, n));
            assert(self.next_step@ =~= inherited_step(old(self).next_step@, old(self).reduced_code@, n));
            assert forall|c: int| 0 <= c < self.distance@.len() implies #[trigger] self.distance@[c] <= 99 by {
                if self.reduced_code@[c].0 as int != n {
                    lemma_reduced_pair_bounds(n, c);
                }
            }
        }
    }

    /// The codes reached from `code` by sliding any block right whose
    /// recorded pair is of a smaller size (see `all_adjacent`).
    fn get_adjacent_reduced_permutation_to(&self, code: u32) -> (r: Vec<u32>)
        requires
            self.well_formed(),
            (code as int) < fact(self.size as nat),
        ensures
            r@ == all_adjacent(self.reduced_code@, self.size as int, code as int, self.size - 1),
    {
        let ghost n = self.size as int;
        let ghost rc = self.reduced_code@;
        let mut adjacent_reduced_codes: Vec<u32> = vec![];
        for i in 0..self.size - 1
            invariant
                self.well_formed(),
                n == self.size,
                rc == self.reduced_code@,
                (code as int) < fact(n as nat),
                adjacent_reduced_codes@ == all_adjacent(rc, n, code as int, i as int),
        {
            let ghost before_row = adjacent_reduced_codes@;
            for j in i..self.size - 1
                invariant
                    self.well_formed(),
                    n == self.size,
                    rc == self.reduced_code@,
                    (code as int) < fact(n as nat),
                    i < n - 1,
                    adjacent_reduced_codes@ == before_row + row_adjacent(rc, n, code as int, i as int, j as int),
            {
                let ghost before_block = adjacent_reduced_codes@;
                let mut cur_code = code;
                let block_size = (j - i + 1) as i8;
                for k in j + 1..self.size
                    invariant
                        self.well_formed(),
                        n == self.size,
                        rc == self.reduced_code@,
                        (code as int) < fact(n as nat),
                        i <= j < n - 1,
                        block_size as int == j - i + 1,
                        cur_code as int == slide_code(n, code as int, j - i + 1, j as int, k - 1),
                        adjacent_reduced_codes@ == before_block + block_adjacent(rc, n, code as int, i as int, j as int, k as int),
                {
                    let new_pos = k as i8 - block_size - 1;
                    let new_pos_for_optimized = k as i8 - block_size as i8 - 1;
                    proof {
                        lemma_slide_code_range(n, code as int, j - i + 1, j as int, k - 1);
                        self.adjacency_calculator.lemma_well_formed_facts();
                    }
                    let delta_for_move = self.adjacency_calculator.get_delta_for_moving_item(
                        cur_code,
                        k,
                        new_pos_for_optimized,
                    );
                    proof {
                        lemma_slide_code_range(n, code as int, j - i + 1, j as int, k as int);
                        assert(cur_code + delta_for_move == slide_code(n, code as int, j - i + 1, j as int, k as int));
                        lemma_small_facts();
                        lemma_fact_monotone(n as nat, 12);
                    }
                    cur_code = (cur_code as i32 + delta_for_move) as u32;
                    if self.reduced_code[cur_code as usize].0 < self.size {
                        adjacent_reduced_codes.push(cur_code);
                    }
                }
                proof {
                    assert(adjacent_reduced_codes@ =~= before_row + row_adjacent(rc, n, code as int, i as int, j + 1));
                }
            }
            proof {
                assert(adjacent_reduced_codes@ =~= all_adjacent(rc, n, code as int, i + 1));
            }
        }
        return adjacent_reduced_codes;
    }
}


/// What the reducible codes of a slide sequence satisfy: codes of size `n`
/// whose recorded pair is of a smaller size.
pub open spec fn adjacent_ok(rc: Seq<(usize, u32)>, n: int, adj: Seq<u32>) -> bool {
    forall|t: int| 0 <= t < adj.len() ==> (#[trigger] adj[t] as int) < fact(n as nat) && (rc[adj[t] as int].0 as int) < n
}

proof fn lemma_block_adjacent_ok(rc: Seq<(usize, u32)>, n: int, code: int, i: int, j: int, k: int)
    requires
        1 <= n <= 12,
        codes_decode(n),
        reduced_codes_ok(n, rc),
        0 <= code < fact(n as nat),
        0 <= i <= j,
        k <= n,
    ensures
        adjacent_ok(rc, n, block_adjacent(rc, n, code, i, j, k)),
        all_slides_from(n, code, block_adjacent(rc, n, code, i, j, k)),
    decreases k - j,
{
    if k > j + 1 {
        lemma_block_adjacent_ok(rc, n, code, i, j, k - 1);
        lemma_slide_code_range(n, code, j - i + 1, j, k - 1);
        let c = slide_code(n, code, j - i + 1, j, k - 1);
        let before = block_adjacent(rc, n, code, i, j, k - 1);
        lemma_small_facts();
        lemma_fact_monotone(n as nat, 12);
        if (rc[c].0 as int) < n {
            let cur = before.push(c as u32);
            assert forall|t: int| 0 <= t < cur.len() implies (#[trigger] cur[t] as int) < fact(n as nat) && (rc[cur[t] as int].0 as int) < n by {
                if t < before.len() {
                    assert(cur[t] == before[t]);
                }
            }
            assert(one_slide_from(n, code, c));
            assert forall|t: int| 0 <= t < cur.len() implies one_slide_from(n, code, #[trigger] cur[t] as int) by {
                if t < before.len() {
                    assert(cur[t] == before[t]);
                }
            }
        }
    }
}

proof fn lemma_row_adjacent_ok(rc: Seq<(usize, u32)>, n: int, code: int, i: int, j: int)
    requires
        1 <= n <= 12,
        codes_decode(n),
        reduced_codes_ok(n, rc),
        0 <= code < fact(n as nat),
        0 <= i,
    ensures
        adjacent_ok(rc, n, row_adjacent(rc, n, code, i, j)),
        all_slides_from(n, code, row_adjacent(rc, n, code, i, j)),
    decreases j - i,
{
    if j > i {
        lemma_row_adjacent_ok(rc, n, code, i, j - 1);
        lemma_block_adjacent_ok(rc, n, code, i, j - 1, n);
        let a = row_adjacent(rc, n, code, i, j - 1);
        let b = block_adjacent(rc, n, code, i, j - 1, n);
        assert forall|t: int| 0 <= t < (a + b).len() implies (#[trigger] (a + b)[t] as int) < fact(n as nat) && (rc[(a
            + b)[t] as int].0 as int) < n by {
            if t < a.len() {
                assert((a + b)[t] == a[t]);
            } else {
                assert((a + b)[t] == b[t - a.len()]);
            }
        }
        assert forall|t: int| 0 <= t < (a + b).len() implies one_slide_from(n, code, #[trigger] (a + b)[t] as int) by {
            if t < a.len() {
                assert((a + b)[t] == a[t]);
            } else {
                assert((a + b)[t] == b[t - a.len()]);
            }
        }
    }
}

proof fn lemma_all_adjacent_ok(rc: Seq<(usize, u32)>, n: int, code: int, i: int)
    requires
        1 <= n <= 12,
        codes_decode(n),
        reduced_codes_ok(n, rc),
        0 <= code < fact(n as nat),
    ensures
        adjacent_ok(rc, n, all_adjacent(rc, n, code, i)),
        all_slides_from(n, code, all_adjacent(rc, n, code, i)),
    decreases i,
{
    if i > 0 {
        lemma_all_adjacent_ok(rc, n, code, i - 1);
        lemma_row_adjacent_ok(rc, n, code, i - 1, n - 1);
        let a = all_adjacent(rc, n, code, i - 1);
        let b = row_adjacent(rc, n, code, i - 1, n - 1);
        assert forall|t: int| 0 <= t < (a + b).len() implies (#[trigger] (a + b)[t] as int) < fact(n as nat) && (rc[(a
            + b)[t] as int].0 as int) < n by {
            if t < a.len() {
                assert((a + b)[t] == a[t]);
            } else {
                assert((a + b)[t] == b[t - a.len()]);
            }
        }
        assert forall|t: int| 0 <= t < (a + b).len() implies one_slide_from(n, code, #[trigger] (a + b)[t] as int) by {
            if t < a.len() {
                assert((a + b)[t] == a[t]);
            } else {
                assert((a + b)[t] == b[t - a.len()]);
            }
        }
    }
}

/// Every code listed is one slide from `code`.
pub open spec fn all_slides_from(n: int, code: int, adj: Seq<u32>) -> bool {
    forall|t: int| 0 <= t < adj.len() ==> one_slide_from(n, code, #[trigger] adj[t] as int)
}

/// The best step found is that of one of the codes listed.
proof fn lemma_best_step_witness(prev: Seq<PermutationsData>, rc: Seq<(usize, u32)>, adj: Seq<u32>, k: int)
    requires
        0 <= k <= adj.len(),
        best_step(prev, rc, adj, k).0 < 99,
    ensures
        exists|t: int|
            0 <= t < k && best_step(prev, rc, adj, k).0 as int == prev[rc[#[trigger] adj[t] as int].0 as int].distance@[rc[adj[t] as int].1 as int]
                + 1,
    decreases k,
{
    if k > 0 {
        let b = best_step(prev, rc, adj, k - 1);
        let pair = rc[adj[k - 1] as int];
        let nd = prev[pair.0 as int].distance@[pair.1 as int] + 1;
        if nd < b.0 {
            assert(best_step(prev, rc, adj, k).0 as int == nd);
            assert(adj[k - 1] == adj[k - 1]);
        } else {
            lemma_best_step_witness(prev, rc, adj, k - 1);
            let t = choose|t: int|
                0 <= t < k - 1 && b.0 as int == prev[rc[#[trigger] adj[t] as int].0 as int].distance@[rc[adj[t] as int].1 as int]
                    + 1;
            assert(adj[t] == adj[t]);
        }
    }
}

/// The tables of every size below `n` are sound.
pub open spec fn previous_sound(prev: Seq<PermutationsData>, n: int) -> bool {
    forall|m: int| 0 <= m < n ==> table_sound(m, #[trigger] prev[m].distance@)
}

/// No fewer block transpositions than the distance of code `c` in the table
/// of size `n` sort its permutation.
pub open spec fn exact_at(n: int, d: Seq<u8>, c: int) -> bool {
    forall|t: nat| t < d[c] ==> !#[trigger] sortable_within(perm_of_code(n, c), t)
}

/// Every distance of the tables of the sizes below `n` is the least number
/// of block transpositions that sorts the permutation of its code.
pub open spec fn previous_exact(prev: Seq<PermutationsData>, n: int) -> bool {
    &&& previous_sound(prev, n)
    &&& forall|m: int, c: int| 0 <= m < n && 0 <= c < prev[m].distance@.len() ==> #[trigger] exact_at(m, prev[m].distance@, c)
}

/// Tables that agree below `m` are exact below `m` together.
proof fn lemma_previous_exact_prefix(a: Seq<PermutationsData>, b: Seq<PermutationsData>, m: int)
    requires
        0 <= m <= a.len(),
        m <= b.len(),
        forall|i: int| 0 <= i < m ==> a[i] == b[i],
    ensures
        previous_exact(a, m) == previous_exact(b, m),
{
    if previous_exact(a, m) {
        assert forall|i: int| 0 <= i < m implies table_sound(i, #[trigger] b[i].distance@) by {
            assert(a[i] == b[i]);
            assert(table_sound(i, a[i].distance@));
        }
        assert forall|i: int, c: int| 0 <= i < m && 0 <= c < b[i].distance@.len() implies #[trigger] exact_at(i, b[i].distance@, c) by {
            assert(a[i] == b[i]);
            assert(exact_at(i, a[i].distance@, c));
        }
    }
    if previous_exact(b, m) {
        assert forall|i: int| 0 <= i < m implies table_sound(i, #[trigger] a[i].distance@) by {
            assert(a[i] == b[i]);
            assert(table_sound(i, b[i].distance@));
        }
        assert forall|i: int, c: int| 0 <= i < m && 0 <= c < a[i].distance@.len() implies #[trigger] exact_at(i, a[i].distance@, c) by {
            assert(a[i] == b[i]);
            assert(exact_at(i, b[i].distance@, c));
        }
    }
}

/// A reducible code inherits an exact distance from an exact table of its
/// reduced form.
pub proof fn lemma_reduced_exact(n: int, c: int, d: Seq<u8>)
    requires
        1 <= n <= 12,
        codes_decode(n),
        0 <= c < fact(n as nat),
        d.len() == fact(reduce_spec(perm_of_code(n, c)).len()),
        exact_at(reduce_spec(perm_of_code(n, c)).len() as int, d, lehmer_value(reduce_spec(perm_of_code(n, c)))),
    ensures
        forall|t: nat|
            t < d[lehmer_value(reduce_spec(perm_of_code(n, c)))] ==> !#[trigger] sortable_within(perm_of_code(n, c), t),
{
    let p = perm_of_code(n, c);
    let r = reduce_spec(p);
    let rs = r.len() as int;
    crate::permutation::permutation_helper::lemma_reduce_is_permutation(p);
    lemma_lehmer_range(r, rs);
    vstd::arithmetic::div_mod::lemma_small_mod(lehmer_value(r) as nat, fact(rs as nat));
    lemma_perm_of_code(r, rs, lehmer_value(r));
    assert forall|t: nat| t < d[lehmer_value(r)] implies !#[trigger] sortable_within(p, t) by {
        if sortable_within(p, t) {
            lemma_reduce_lower(p, t);
            assert(!sortable_within(perm_of_code(rs, lehmer_value(r)), t));
        }
    }
}

/// A code of size `n` takes a distance its reduced form is sorted in; then
/// it is sorted in as many.
pub proof fn lemma_reduced_sound(n: int, c: int, d: Seq<u8>)
    requires
        1 <= n <= 12,
        codes_decode(n),
        0 <= c < fact(n as nat),
        table_sound(reduce_spec(perm_of_code(n, c)).len() as int, d),
        d.len() == fact(reduce_spec(perm_of_code(n, c)).len()),
        d[lehmer_value(reduce_spec(perm_of_code(n, c)))] < 99,
    ensures
        sortable_within(perm_of_code(n, c), d[lehmer_value(reduce_spec(perm_of_code(n, c)))] as nat),
{
    let p = perm_of_code(n, c);
    let r = reduce_spec(p);
    let rs = r.len() as int;
    crate::permutation::permutation_helper::lemma_reduce_is_permutation(p);
    lemma_lehmer_range(r, rs);
    vstd::arithmetic::div_mod::lemma_small_mod(lehmer_value(r) as nat, fact(rs as nat));
    lemma_perm_of_code(r, rs, lehmer_value(r));
    let v = lehmer_value(r);
    assert(sortable_within(perm_of_code(rs, v), d[v] as nat));
    crate::permutation::reduction_lift::lemma_reduce_lift(p, d[v] as nat);
}

/// The recorded pair of a reducible code names its reduced form's size and
/// code, within range.
proof fn lemma_reducible_pair(n: int, c: int)
    requires
        1 <= n <= 12,
        codes_decode(n),
        0 <= c < fact(n as nat),
        reduced_pair(n, c).0 as int != n,
    ensures
        reduced_pair(n, c).0 as int == reduce_spec(perm_of_code(n, c)).len(),
        reduced_pair(n, c).1 as int == lehmer_value(reduce_spec(perm_of_code(n, c))),
        (reduced_pair(n, c).0 as int) < n,
{
    let p = perm_of_code(n, c);
    let r = reduce_spec(p);
    crate::permutation::permutation_helper::lemma_reduce_is_permutation(p);
    lemma_lehmer_range(r, r.len() as int);
    lemma_small_facts();
    lemma_fact_monotone(r.len() as nat, 12);
    lemma_reduced_pair_bounds(n, c);
}

/// A pure code takes one more than the distance of a neighbour one block
/// transposition away, and so is sorted in as many, when the smaller tables
/// are sound.
proof fn lemma_pure_sound(prev: Seq<PermutationsData>, rc: Seq<(usize, u32)>, n: int, c: int)
    requires
        1 <= n <= 12,
        codes_decode(n),
        reduced_codes_ok(n, rc),
        previous_sizes_ok(prev, n),
        previous_sound(prev, n),
        0 <= c < fact(n as nat),
        pure_best(prev, rc, n, c).0 < 99,
    ensures
        sortable_within(perm_of_code(n, c), pure_best(prev, rc, n, c).0 as nat),
{
    let adj = all_adjacent(rc, n, c, n - 1);
    lemma_all_adjacent_ok(rc, n, c, n - 1);
    lemma_best_step_witness(prev, rc, adj, adj.len() as int);
    let t = choose|t: int|
        0 <= t < adj.len() && pure_best(prev, rc, n, c).0 as int == prev[rc[#[trigger] adj[t] as int].0 as int].distance@[rc[adj[t] as int].1 as int]
            + 1;
    let a = adj[t] as int;
    assert(a < fact(n as nat) && (rc[a].0 as int) < n);
    assert(rc[a] == reduced_pair(n, a));
    lemma_reducible_pair(n, a);
    let rs = rc[a].0 as int;
    assert(table_sound(rs, prev[rs].distance@));
    lemma_reduced_sound(n, a, prev[rs].distance@);
    assert(one_slide_from(n, c, a));
    lemma_slide_is_block_move(n, c, a);
    lemma_sortable_step(perm_of_code(n, c), perm_of_code(n, a), prev[rs].distance@[rc[a].1 as int] as nat);
}

/// The best step from a pure code over its reducible neighbours.
pub open spec fn pure_best(prev: Seq<PermutationsData>, rc: Seq<(usize, u32)>, n: int, code: int) -> (u8, usize, u32) {
    let adj = all_adjacent(rc, n, code, n - 1);
    best_step(prev, rc, adj, adj.len() as int)
}

proof fn lemma_best_step_bounds(prev: Seq<PermutationsData>, rc: Seq<(usize, u32)>, n: int, adj: Seq<u32>, k: int)
    requires
        1 <= n <= 12,
        codes_decode(n),
        reduced_codes_ok(n, rc),
        previous_sizes_ok(prev, n),
        adjacent_ok(rc, n, adj),
        0 <= k <= adj.len(),
    ensures
        best_step(prev, rc, adj, k).0 <= 99,
    decreases k,
{
    if k > 0 {
        lemma_best_step_bounds(prev, rc, n, adj, k - 1);
    }
}

impl PermutationsData {
    /// Every pure code takes one more than the least distance among the
    /// recorded pairs of the codes reached by sliding one of its blocks whose
    /// pair is of a smaller size (99 when there is none), and points to the
    /// first such pair.
    fn update_distance_and_next_step_for_pure_permutations(&mut self, permutations_data: &Vec<PermutationsData>)
        requires
            old(self).well_formed(),
            previous_sizes_ok(permutations_data@, old(self).size as int),
        ensures
            final(self).distance@ == Seq::new(
                old(self).distance@.len(),
                |c: int|
                    if old(self).reduced_code@[c].0 as int == old(self).size as int {
                        pure_best(permutations_data@, old(self).reduced_code@, old(self).size as int, c).0
                    } else {
                        old(self).distance@[c]
                    },
            ),
            final(self).next_step@ == Seq::new(
                old(self).next_step@.len(),
                |c: int|
                    if old(self).reduced_code@[c].0 as int == old(self).size as int {
                        (
                            pure_best(permutations_data@, old(self).reduced_code@, old(self).size as int, c).1 as u8,
                            pure_best(permutations_data@, old(self).reduced_code@, old(self).size as int, c).2,
                        )
                    } else {
                        old(self).next_step@[c]
                    },
            ),
            final(self).size == old(self).size,
            final(self).visited == old(self).visited,
            final(self).adjacency_calculator == old(self).adjacency_calculator,
            final(self).reduced_code == old(self).reduced_code,
            final(self).pure_permutations == old(self).pure_permutations,
            final(self).well_formed(),
    {
        let ghost n = self.size as int;
        let ghost rc = self.reduced_code@;
        let ghost total = fact(n as nat) as int;
        let ghost prev = permutations_data@;
        proof {
            lemma_small_facts();
            lemma_fact_monotone(n as nat, 12);
            lemma_pure_codes_of(n, rc, total);
        }
        let plen = self.pure_permutations.len();
        proof {
            assert forall|c: int| 0 <= c < total && rc[c].0 as int == n implies plen > 0 && self.pure_permutations@[0] as int <= c by {
                assert(pure_codes_of(n, rc, total).contains(c as u32));
                let t = choose|t: int| 0 <= t < plen && self.pure_permutations@[t] == c as u32;
                if t > 0 {
                    assert(self.pure_permutations@[0] < self.pure_permutations@[t]);
                }
            }
        }
        for pos in 0..plen
            invariant
                plen == self.pure_permutations@.len(),
                n == self.size,
                rc == self.reduced_code@,
                total == fact(n as nat),
                total <= 479001600,
                prev == permutations_data@,
                self.size == old(self).size,
                self.visited == old(self).visited,
                self.adjacency_calculator == old(self).adjacency_calculator,
                self.reduced_code == old(self).reduced_code,
                self.pure_permutations == old(self).pure_permutations,
                old(self).well_formed(),
                self.well_formed(),
                previous_sizes_ok(prev, n),
                self.distance@.len() == total,
                self.next_step@.len() == total,
                forall|c: int| 0 <= c < total ==> #[trigger] self.distance@[c] == if rc[c].0 as int == n && (pos == plen
                    || c < self.pure_permutations@[pos as int]) {
                    pure_best(prev, rc, n, c).0
                } else {
                    old(self).distance@[c]
                },
                forall|c: int| 0 <= c < total ==> #[trigger] self.next_step@[c] == if rc[c].0 as int == n && (pos == plen
                    || c < self.pure_permutations@[pos as int]) {
                    (pure_best(prev, rc, n, c).1 as u8, pure_best(prev, rc, n, c).2)
                } else {
                    old(self).next_step@[c]
                },
        {
            let code = self.pure_permutations[pos];
            proof {
                lemma_pure_codes_of(n, rc, total);
                assert(self.pure_permutations@[pos as int] == pure_codes_of(n, rc, total)[pos as int]);
            }
            let adjacent_reduced_permutations = self.get_adjacent_reduced_permutation_to(code as u32);
            let ghost adj = adjacent_reduced_permutations@;
            proof {
                lemma_all_adjacent_ok(rc, n, code as int, n - 1);
            }
            let mut min_dist: u8 = 99;
            let mut min_size: usize = 99;
            let mut min_label: u32 = 99;
            let alen = adjacent_reduced_permutations.len();
            for t in 0..alen
                invariant
                    alen == adj.len(),
                    adj == adjacent_reduced_permutations@,
                    adjacent_ok(rc, n, adj),
                    rc == self.reduced_code@,
                    n == self.size,
                    old(self).well_formed(),
                    self.reduced_code == old(self).reduced_code,
                    self.size == old(self).size,
                    previous_sizes_ok(prev, n),
                    prev == permutations_data@,
                    (min_dist, min_size, min_label) == best_step(prev, rc, adj, t as int),
            {
                let adj_code = adjacent_reduced_permutations[t];
                proof {
                    lemma_reduced_pair_bounds(n, adj_code as int);
                    lemma_best_step_bounds(prev, rc, n, adj, t as int);
                }
                let pair = self.reduced_code[adj_code as usize];
                let new_size = pair.0;
                let new_label = pair.1;
                let new_dist = permutations_data[new_size as usize].distance[new_label as usize] + 1;
                if new_dist < min_dist {
                    min_dist = new_dist;
                    min_size = new_size;
                    min_label = new_label;
                }
            }
            proof {
                lemma_best_step_bounds(prev, rc, n, adj, alen as int);
                assert((min_dist, min_size, min_label) == pure_best(prev, rc, n, code as int));
                let np = if pos + 1 == plen { 0 } else { self.pure_permutations@[pos + 1] as int };
                assert forall|c: int| 0 <= c < total && rc[c].0 as int == n implies ((pos + 1 == plen || c < np) <==> (c
                    < code || c == code)) by {
                    assert(pure_codes_of(n, rc, total).contains(c as u32));
                    let t = choose|t: int| 0 <= t < plen && self.pure_permutations@[t] == c as u32;
                    if t < pos {
                        assert(self.pure_permutations@[t] < self.pure_permutations@[pos as int]);
                    } else if t > pos {
                        assert(self.pure_permutations@[pos as int] < self.pure_permutations@[t]);
                        if pos + 1 < plen && t > pos + 1 {
                            assert(self.pure_permutations@[pos + 1] < self.pure_permutations@[t]);
                        }
                    }
                    if pos + 1 < plen {
                        assert(self.pure_permutations@[pos as int] < self.pure_permutations@[pos + 1]);
                    }
                }
            }
            self.update_distance_and_next_step_for_code(code as u32, min_dist, min_size as u8, min_label);
        }
        proof {
            assert(self.distance@ =~= Seq::new(
                old(self).distance@.len(),
                |c: int|
                    if rc[c].0 as int == n {
                        pure_best(prev, rc, n, c).0
                    } else {
                        old(self).distance@[c]
                    },
            ));
            assert(self.next_step@ =~= Seq::new(
                old(self).next_step@.len(),
                |c: int|
                    if rc[c].0 as int == n {
                        (pure_best(prev, rc, n, c).1 as u8, pure_best(prev, rc, n, c).2)
                    } else {
                        old(self).next_step@[c]
                    },
            ));
            assert forall|c: int| 0 <= c < total implies #[trigger] self.distance@[c] <= 99 by {
                if rc[c].0 as int == n {
                    lemma_all_adjacent_ok(rc, n, c, n - 1);
                    let adj = all_adjacent(rc, n, c, n - 1);
                    lemma_best_step_bounds(prev, rc, n, adj, adj.len() as int);
                }
            }
        }
    }

    /// Reducible codes inherit the distances of their reduced forms, then
    /// pure codes take one more than the best reducible neighbour.
    pub fn update_init_on_basis_of_previous(&mut self, permutations_data: &Vec<PermutationsData>)
        requires
            old(self).well_formed(),
            previous_sizes_ok(permutations_data@, old(self).size as int),
        ensures
            previous_sound(permutations_data@, old(self).size as int) ==> table_sound(
                old(self).size as int,
                final(self).distance@,
            ),
            previous_exact(permutations_data@, old(self).size as int) ==> forall|c: int|
                0 <= c < final(self).distance@.len() && old(self).reduced_code@[c].0 != old(self).size
                    ==> #[trigger] exact_at(old(self).size as int, final(self).distance@, c),
            final(self).distance@ == Seq::new(
                old(self).distance@.len(),
                |c: int|
                    if old(self).reduced_code@[c].0 as int == old(self).size as int {
                        pure_best(permutations_data@, old(self).reduced_code@, old(self).size as int, c).0
                    } else {
                        permutations_data@[old(self).reduced_code@[c].0 as int].distance@[old(self).reduced_code@[c].1 as int]
                    },
            ),
            final(self).next_step@ == Seq::new(
                old(self).next_step@.len(),
                |c: int|
                    if old(self).reduced_code@[c].0 as int == old(self).size as int {
                        (
                            pure_best(permutations_data@, old(self).reduced_code@, old(self).size as int, c).1 as u8,
                            pure_best(permutations_data@, old(self).reduced_code@, old(self).size as int, c).2,
                        )
                    } else {
                        (old(self).reduced_code@[c].0 as u8, old(self).reduced_code@[c].1)
                    },
            ),
            final(self).size == old(self).size,
            final(self).visited == old(self).visited,
            final(self).adjacency_calculator == old(self).adjacency_calculator,
            final(self).reduced_code == old(self).reduced_code,
            final(self).pure_permutations == old(self).pure_permutations,
            final(self).well_formed(),
    {
        self.update_distance_and_next_step_for_reducible_permutations(permutations_data);
        self.update_distance_and_next_step_for_pure_permutations(permutations_data);
        proof {
            let n = old(self).size as int;
            let rc = old(self).reduced_code@;
            let prev = permutations_data@;
            if previous_exact(prev, n) {
                assert forall|c: int|
                    0 <= c < self.distance@.len() && rc[c].0 != n implies #[trigger] exact_at(n, self.distance@, c) by {
                    assert(rc[c] == reduced_pair(n, c));
                    lemma_reducible_pair(n, c);
                    lemma_reduced_pair_bounds(n, c);
                    let rs = rc[c].0 as int;
                    assert(prev[rs].distance@.len() == fact(rs as nat));
                    assert((rc[c].1 as int) < prev[rs].distance@.len());
                    assert(exact_at(rs, prev[rs].distance@, rc[c].1 as int));
                    lemma_reduced_exact(n, c, prev[rs].distance@);
                }
            }
            if previous_sound(prev, n) {
                assert forall|c: int| 0 <= c < self.distance@.len() && self.distance@[c] < 99 implies sortable_within(
                    perm_of_code(n, c),
                    #[trigger] self.distance@[c] as nat,
                ) by {
                    assert(rc[c] == reduced_pair(n, c));
                    if rc[c].0 as int == n {
                        lemma_pure_sound(prev, rc, n, c);
                    } else {
                        lemma_reducible_pair(n, c);
                        let rs = rc[c].0 as int;
                        assert(table_sound(rs, prev[rs].distance@));
                        lemma_reduced_sound(n, c, prev[rs].distance@);
                    }
                }
            }
            assert(self.distance@ =~= Seq::new(
                old(self).distance@.len(),
                |c: int|
                    if old(self).reduced_code@[c].0 as int == old(self).size as int {
                        pure_best(permutations_data@, old(self).reduced_code@, old(self).size as int, c).0
                    } else {
                        permutations_data@[old(self).reduced_code@[c].0 as int].distance@[old(self).reduced_code@[c].1 as int]
                    },
            ));
            assert(self.next_step@ =~= Seq::new(
                old(self).next_step@.len(),
                |c: int|
                    if old(self).reduced_code@[c].0 as int == old(self).size as int {
                        (
                            pure_best(permutations_data@, old(self).reduced_code@, old(self).size as int, c).1 as u8,
                            pure_best(permutations_data@, old(self).reduced_code@, old(self).size as int, c).2,
                        )
                    } else {
                        (old(self).reduced_code@[c].0 as u8, old(self).reduced_code@[c].1)
                    },
            ));
        }
    }
}


/// The walk of block `[i, j]` of `code` to the right: the cells it lands
/// on before the first one slid from, and the codes among them that are
/// farther than `code`.
fn process_block_move_for_code(permutation_data: &PermutationsData, code: u32, i: usize, j: usize) -> (r: (
    Vec<u32>,
    Vec<(u32, usize, usize)>,
))
    requires
        permutation_data.well_formed(),
        (code as int) < fact(permutation_data.size as nat),
        i <= j < permutation_data.size - 1,
    ensures
        r.0@ == walk_farther(
            permutation_data.visited@,
            permutation_data.distance@,
            permutation_data.size as int,
            code as int,
            i as int,
            j as int,
            permutation_data.size as int,
        ),
        r.1@ == walk_cells(
            permutation_data.visited@,
            permutation_data.size as int,
            code as int,
            i as int,
            j as int,
            permutation_data.size as int,
        ),
{
    let ghost n = permutation_data.size as int;
    let ghost vis = permutation_data.visited@;
    let ghost d = permutation_data.distance@;
    let block_size = (j - i) + 1;
    let mut cur_code = code;
    let mut adjacent_codes: Vec<u32> = vec![];
    let mut visited_tuples: Vec<(u32, usize, usize)> = vec![];
    let mut k = j + 1;
    while k < permutation_data.size
        invariant_except_break
            permutation_data.well_formed(),
            n == permutation_data.size,
            vis == permutation_data.visited@,
            d == permutation_data.distance@,
            (code as int) < fact(n as nat),
            i <= j < n - 1,
            block_size == j - i + 1,
            j + 1 <= k <= n,
            cur_code as int == slide_code(n, code as int, j - i + 1, j as int, k - 1),
            walk_open(vis, n, code as int, i as int, j as int, k - 1),
            adjacent_codes@ == walk_farther(vis, d, n, code as int, i as int, j as int, k as int),
            visited_tuples@ == walk_cells(vis, n, code as int, i as int, j as int, k as int),
        ensures
            adjacent_codes@ == walk_farther(vis, d, n, code as int, i as int, j as int, n),
            visited_tuples@ == walk_cells(vis, n, code as int, i as int, j as int, n),
        decreases n - k,
    {
        let new_pos_for_optimized = k as i8 - block_size as i8 - 1;
        proof {
            lemma_slide_code_range(n, code as int, j - i + 1, j as int, k - 1);
            permutation_data.adjacency_calculator.lemma_well_formed_facts();
        }
        let delta_for_move = permutation_data.adjacency_calculator.get_delta_for_moving_item(
            cur_code,
            k,
            new_pos_for_optimized,
        );
        proof {
            lemma_slide_code_range(n, code as int, j - i + 1, j as int, k as int);
            assert(cur_code + delta_for_move == slide_code(n, code as int, j - i + 1, j as int, k as int));
            lemma_small_facts();
            lemma_fact_monotone(n as nat, 12);
        }
        cur_code = (cur_code as i32 + delta_for_move) as u32;
        let block_shift = k - j;
        let new_i = i + block_shift;
        let new_j = j + block_shift;
        proof {
            assert((cur_code, new_i, new_j) == slide_cell(n, code as int, i as int, j as int, k as int));
        }
        if permutation_data.visited[cur_code as usize][new_i][new_j] != ProcessingStatus::UNPROCESSED {
            proof {
                assert(!walk_open(vis, n, code as int, i as int, j as int, k as int));
                if k + 1 < n {
                    lemma_walk_closed(vis, d, n, code as int, i as int, j as int, k as int, n - 1);
                }
            }
            break;
        }
        visited_tuples.push((cur_code, new_i, new_j));
        if permutation_data.distance[code as usize] < permutation_data.distance[cur_code as usize] {
            adjacent_codes.push(cur_code);
        }
        k = k + 1;
    }
    return (adjacent_codes, visited_tuples);
}

/// The cells landed on by sliding each block of `code` right, block after
/// block (see `walk_cells`).
pub open spec fn reached_cells(data: PermutationsData, code: int) -> Seq<(u32, usize, usize)> {
    let blocks = blocks_for_size(data.size as int);
    blocks_cells(data.visited@, data.size as int, code, blocks, blocks.len() as int)
}

/// The codes among those cells farther than `code`, block after block (see
/// `walk_farther`).
pub open spec fn reached_farther(data: PermutationsData, code: int) -> Seq<u32> {
    let blocks = blocks_for_size(data.size as int);
    blocks_farther(data.visited@, data.distance@, data.size as int, code, blocks, blocks.len() as int)
}

/// When the first cell of a block is open and its code farther than
/// `code`, the walk counts that code among the farther ones.
proof fn lemma_walk_farther_first(vis: Seq<Vec<Vec<ProcessingStatus>>>, d: Seq<u8>, n: int, code: int, i: int, j: int, k: int)
    requires
        j + 1 < k,
        cell_open(vis, first_cell(n, code, i, j)),
        d[code] < d[slide_code(n, code, j - i + 1, j, j + 1)],
    ensures
        walk_farther(vis, d, n, code, i, j, k).contains(slide_code(n, code, j - i + 1, j, j + 1) as u32),
    decreases k - j,
{
    let y = slide_code(n, code, j - i + 1, j, j + 1) as u32;
    assert(walk_open(vis, n, code, i, j, j));
    assert(walk_open(vis, n, code, i, j, j + 1));
    if k == j + 2 {
        assert(walk_farther(vis, d, n, code, i, j, j + 1) =~= Seq::<u32>::empty());
        assert(walk_farther(vis, d, n, code, i, j, k)[0] == y);
    } else {
        lemma_walk_farther_first(vis, d, n, code, i, j, k - 1);
        let prev = walk_farther(vis, d, n, code, i, j, k - 1);
        let idx = choose|idx: int| 0 <= idx < prev.len() && prev[idx] == y;
        let c = slide_code(n, code, j - i + 1, j, k - 1);
        if walk_open(vis, n, code, i, j, k - 1) && d[code] < d[c] {
            assert(walk_farther(vis, d, n, code, i, j, k)[idx] == y);
        }
    }
}

/// A code one block's walk counts is among those the blocks count.
proof fn lemma_blocks_farther_hold(
    vis: Seq<Vec<Vec<ProcessingStatus>>>,
    d: Seq<u8>,
    n: int,
    code: int,
    blocks: Seq<(usize, usize)>,
    t: int,
    s: int,
    y: u32,
)
    requires
        0 <= s < t <= blocks.len(),
        walk_farther(vis, d, n, code, blocks[s].0 as int, blocks[s].1 as int, n).contains(y),
    ensures
        blocks_farther(vis, d, n, code, blocks, t).contains(y),
    decreases t,
{
    let a = blocks_farther(vis, d, n, code, blocks, t - 1);
    let w = walk_farther(vis, d, n, code, blocks[t - 1].0 as int, blocks[t - 1].1 as int, n);
    if s == t - 1 {
        let v = choose|v: int| 0 <= v < w.len() && w[v] == y;
        assert((a + w)[a.len() + v] == y);
    } else {
        lemma_blocks_farther_hold(vis, d, n, code, blocks, t - 1, s, y);
        let v = choose|v: int| 0 <= v < a.len() && a[v] == y;
        assert((a + w)[v] == y);
    }
}

/// After the walks from `code`, the code one slide away by a block whose
/// first cell was open is at most one farther than `code`.
proof fn lemma_first_cell_lowered(a: PermutationsData, b: PermutationsData, code: int, r: Seq<u32>, i: int, j: int)
    requires
        a.well_formed(),
        0 <= code < fact(a.size as nat),
        0 <= i <= j < a.size - 1,
        r == reached_farther(a, code),
        b.distance@ == Seq::new(
            a.distance@.len(),
            |c: int|
                if r.contains(c as u32) {
                    (a.distance@[code] + 1) as u8
                } else {
                    a.distance@[c]
                },
        ),
        cell_open(a.visited@, first_cell(a.size as int, code, i, j)),
    ensures
        b.distance@[near_code(a.size as int, code, i, j)] <= a.distance@[code] + 1,
{
    let n = a.size as int;
    let x = near_code(n, code, i, j);
    lemma_slide_code_range(n, code, j - i + 1, j, j + 1);
    lemma_small_facts();
    lemma_fact_monotone(n as nat, 12);
    if a.distance@[code] < a.distance@[x] {
        lemma_walk_farther_first(a.visited@, a.distance@, n, code, i, j, n);
        let blocks = blocks_for_size(n);
        lemma_blocks_upto_holds(n - 1, n - 1, i, j);
        let b2 = choose|b2: int| 0 <= b2 < blocks.len() && #[trigger] blocks[b2] == (i as usize, j as usize);
        lemma_blocks_farther_hold(a.visited@, a.distance@, n, code, blocks, blocks.len() as int, b2, x as u32);
        assert(r.contains(x as u32));
        assert((x as u32) as int == x);
    }
}

/// The codes one slide from `code` by a block whose first cell was open in
/// `start` are at most one farther than `code` was there.
#[verifier::opaque]
pub open spec fn first_cells_lowered(start: PermutationsData, now: PermutationsData, code: int) -> bool {
    let n = start.size as int;
    forall|i: int, j: int|
        0 <= i <= j < n - 1 && cell_open(start.visited@, first_cell(n, code, i, j)) ==> #[trigger] now.distance@[near_code(
            n,
            code,
            i,
            j,
        )] <= start.distance@[code] + 1
}

/// After the walks from `code` (see `process_permutation_paralleled`), the
/// codes one slide away through open first cells are at most one farther.
proof fn lemma_first_cells_after_walk(a: PermutationsData, b: PermutationsData, code: int, r: Seq<u32>)
    requires
        a.well_formed(),
        0 <= code < fact(a.size as nat),
        r == reached_farther(a, code),
        b.distance@ == Seq::new(
            a.distance@.len(),
            |c: int|
                if r.contains(c as u32) {
                    (a.distance@[code] + 1) as u8
                } else {
                    a.distance@[c]
                },
        ),
    ensures
        first_cells_lowered(a, b, code),
{
    reveal(first_cells_lowered);
    let n = a.size as int;
    assert forall|i: int, j: int|
        0 <= i <= j < n - 1 && cell_open(a.visited@, first_cell(n, code, i, j)) implies #[trigger] b.distance@[near_code(
        n,
        code,
        i,
        j,
    )] <= a.distance@[code] + 1 by {
        lemma_first_cell_lowered(a, b, code, r, i, j);
    }
}

/// Codes lowered from a walk stay so while no distance grows.
proof fn lemma_first_cells_kept(start: PermutationsData, a: PermutationsData, b: PermutationsData, code: int)
    requires
        start.well_formed(),
        0 <= code < fact(start.size as nat),
        first_cells_lowered(start, a, code),
        b.distance@.len() == a.distance@.len(),
        a.distance@.len() == fact(start.size as nat),
        forall|c: int| 0 <= c < a.distance@.len() ==> #[trigger] b.distance@[c] <= a.distance@[c],
    ensures
        first_cells_lowered(start, b, code),
{
    reveal(first_cells_lowered);
    let n = start.size as int;
    assert forall|i: int, j: int|
        0 <= i <= j < n - 1 && cell_open(start.visited@, first_cell(n, code, i, j)) implies #[trigger] b.distance@[near_code(
        n,
        code,
        i,
        j,
    )] <= start.distance@[code] + 1 by {
        lemma_slide_code_range(n, code, j - i + 1, j, j + 1);
        assert(a.distance@[near_code(n, code, i, j)] <= start.distance@[code] + 1);
    }
}

/// Every block of `code` has been slid from at least one position: the
/// first cell each block `[i, j]`, `j < size - 1`, lands on is not open.
pub open spec fn slid_once(data: PermutationsData, code: int) -> bool {
    let n = data.size as int;
    forall|i: int, j: int| 0 <= i <= j < n - 1 ==> !cell_open(data.visited@, #[trigger] first_cell(n, code, i, j))
}

/// Marking the cells reached from `code` (see `reached_cells`) leaves every
/// block of `code` slid from at least one position.
proof fn lemma_slid_once_after(a: PermutationsData, b: PermutationsData, code: int)
    requires
        a.well_formed(),
        0 <= code < fact(a.size as nat),
        b.size == a.size,
        forall|c: int, x: int, y: int|
            0 <= c < fact(a.size as nat) && 0 <= x < a.size && 0 <= y < a.size ==> #[trigger] b.visited@[c]@[x]@[y]
                == if reached_cells(a, code).contains((c as u32, x as usize, y as usize)) {
                ProcessingStatus::PROCESSED
            } else {
                a.visited@[c]@[x]@[y]
            },
    ensures
        slid_once(b, code),
{
    let n = a.size as int;
    let bl = blocks_for_size(n);
    assert forall|i: int, j: int| 0 <= i <= j < n - 1 implies !cell_open(b.visited@, #[trigger] first_cell(n, code, i, j)) by {
        lemma_slide_code_range(n, code, j - i + 1, j, j + 1);
        lemma_small_facts();
        lemma_fact_monotone(n as nat, 12);
        let x = first_cell(n, code, i, j);
        assert(x.0 as int == slide_code(n, code, j - i + 1, j, j + 1));
        assert(x.1 as int == i + 1 && x.2 as int == j + 1);
        if cell_open(a.visited@, x) {
            lemma_walk_lands_first(a.visited@, n, code, i, j, n);
            lemma_blocks_upto_holds(n - 1, n - 1, i, j);
            let t = choose|t: int| 0 <= t < bl.len() && #[trigger] bl[t] == (i as usize, j as usize);
            lemma_blocks_cells_hold(a.visited@, n, code, bl, bl.len() as int, t, x);
            assert(reached_cells(a, code).contains(x));
            assert(((x.0 as int) as u32, (x.1 as int) as usize, (x.2 as int) as usize) == x);
            assert(b.visited@[x.0 as int]@[x.1 as int]@[x.2 as int] == ProcessingStatus::PROCESSED);
        } else {
            assert(((x.0 as int) as u32, (x.1 as int) as usize, (x.2 as int) as usize) == x);
            assert(b.visited@[x.0 as int]@[x.1 as int]@[x.2 as int] == a.visited@[x.0 as int]@[x.1 as int]@[x.2 as int]
                || b.visited@[x.0 as int]@[x.1 as int]@[x.2 as int] == ProcessingStatus::PROCESSED);
        }
    }
}

/// A code whose blocks have all been slid from reaches no code.
proof fn lemma_slid_no_reach(data: PermutationsData, code: int)
    requires
        data.well_formed(),
        0 <= code < fact(data.size as nat),
        slid_once(data, code),
    ensures
        reached_farther(data, code).len() == 0,
{
    let n = data.size as int;
    let bl = blocks_for_size(n);
    lemma_blocks_bounds(n - 1, n - 1);
    assert forall|s: int| 0 <= s < bl.len() implies !cell_open(
        data.visited@,
        first_cell(n, code, #[trigger] bl[s].0 as int, bl[s].1 as int),
    ) by {
        let b = bl[s];
        assert(b.0 <= b.1 < n - 1);
        assert(!cell_open(data.visited@, first_cell(n, code, b.0 as int, b.1 as int)));
    }
    lemma_blocks_farther_empty(data.visited@, data.distance@, n, code, bl, bl.len() as int);
}

impl PermutationsData {
    /// Slides every block of `code` right until it lands on a cell already
    /// slid from, all against the tables as they are on entry; then each
    /// code reached that was farther than `code` takes one more than the
    /// distance of `code`, and every cell landed on is marked slid from.
    /// Returns the codes whose distance was set, block after block.
    pub fn process_permutation_paralleled(&mut self, code: u32) -> (r: Vec<u32>)
        requires
            old(self).well_formed(),
            (code as int) < fact(old(self).size as nat),
        ensures
            final(self).well_formed(),
            r@ == reached_farther(*old(self), code as int),
            final(self).distance@ == Seq::new(
                old(self).distance@.len(),
                |c: int|
                    if r@.contains(c as u32) {
                        (old(self).distance@[code as int] + 1) as u8
                    } else {
                        old(self).distance@[c]
                    },
            ),
            forall|c: int, a: int, b: int|
                0 <= c < fact(old(self).size as nat) && 0 <= a < old(self).size && 0 <= b < old(self).size
                    ==> #[trigger] final(self).visited@[c]@[a]@[b] == if reached_cells(*old(self), code as int).contains(
                    (c as u32, a as usize, b as usize),
                ) {
                    ProcessingStatus::PROCESSED
                } else {
                    old(self).visited@[c]@[a]@[b]
                },
            forall|c: int| 0 <= c < old(self).distance@.len() ==> #[trigger] final(self).distance@[c] <= old(self).distance@[c],
            open_cells(final(self).visited@) <= open_cells(old(self).visited@),
            r@.len() > 0 ==> open_cells(final(self).visited@) < open_cells(old(self).visited@),
            forall|t: int| 0 <= t < r@.len() ==> (#[trigger] r@[t] as int) < fact(old(self).size as nat),
            forall|t: int|
                0 <= t < r@.len() ==> one_block_move(
                    perm_of_code(old(self).size as int, #[trigger] r@[t] as int),
                    perm_of_code(old(self).size as int, code as int),
                ),
            lowered_from(*old(self), *final(self)),
            final(self).size == old(self).size,
            final(self).next_step == old(self).next_step,
            final(self).adjacency_calculator == old(self).adjacency_calculator,
            final(self).reduced_code == old(self).reduced_code,
            final(self).pure_permutations == old(self).pure_permutations,
            slid_once(*final(self), code as int),
    {
        let ghost n = self.size as int;
        let ghost vis0 = self.visited@;
        let ghost d0 = self.distance@;
        let ghost total = fact(n as nat) as int;
        let dist = self.distance[code as usize];
        let blocks = get_all_blocks_for_size(self.size);
        let ghost bl = blocks@;
        proof {
            lemma_blocks_bounds(n - 1, n - 1);
            lemma_blocks_facts(vis0, d0, n, code as int, bl, bl.len() as int);
        }
        let mut updatable_items: Vec<(Vec<u32>, Vec<(u32, usize, usize)>)> = vec![];
        let nb = blocks.len();
        for b in 0..nb
            invariant
                nb == bl.len(),
                bl == blocks@,
                bl == blocks_for_size(n),
                forall|t: int| 0 <= t < bl.len() ==> {
                    let x = #[trigger] bl[t];
                    x.0 <= x.1 < n - 1
                },
                self.well_formed(),
                n == self.size,
                vis0 == self.visited@,
                d0 == self.distance@,
                (code as int) < fact(n as nat),
                updatable_items@.len() == b,
                forall|t: int| 0 <= t < b ==> (#[trigger] updatable_items@[t]).0@ == walk_farther(vis0, d0, n, code as int, bl[t].0 as int, bl[t].1 as int, n),
                forall|t: int| 0 <= t < b ==> (#[trigger] updatable_items@[t]).1@ == walk_cells(vis0, n, code as int, bl[t].0 as int, bl[t].1 as int, n),
        {
            let range = blocks[b];
            updatable_items.push(process_block_move_for_code(self, code, range.0, range.1));
        }
        let mut next_batch_items: Vec<u32> = vec![];
        let ghost mut strict = false;
        for idx in 0..nb
            invariant
                nb == bl.len(),
                bl == blocks_for_size(n),
                forall|t: int| 0 <= t < bl.len() ==> {
                    let x = #[trigger] bl[t];
                    x.0 <= x.1 < n - 1
                },
                updatable_items@.len() == nb,
                forall|t: int| 0 <= t < nb ==> (#[trigger] updatable_items@[t]).0@ == walk_farther(vis0, d0, n, code as int, bl[t].0 as int, bl[t].1 as int, n),
                forall|t: int| 0 <= t < nb ==> (#[trigger] updatable_items@[t]).1@ == walk_cells(vis0, n, code as int, bl[t].0 as int, bl[t].1 as int, n),
                forall|t: int| 0 <= t < blocks_cells(vis0, n, code as int, bl, nb as int).len() ==> {
                    let x = #[trigger] blocks_cells(vis0, n, code as int, bl, nb as int)[t];
                    &&& (x.0 as int) < total
                    &&& (x.1 as int) < n
                    &&& (x.2 as int) < n
                    &&& cell_open(vis0, x)
                },
                forall|t: int| 0 <= t < blocks_farther(vis0, d0, n, code as int, bl, nb as int).len() ==> {
                    let c = #[trigger] blocks_farther(vis0, d0, n, code as int, bl, nb as int)[t];
                    &&& (c as int) < total
                    &&& d0[code as int] < d0[c as int]
                },
                old(self).well_formed(),
                (code as int) < total,
                n == self.size,
                n == old(self).size,
                total == fact(n as nat),
                vis0 == old(self).visited@,
                d0 == old(self).distance@,
                dist == d0[code as int],
                self.size == old(self).size,
                self.next_step == old(self).next_step,
                self.adjacency_calculator == old(self).adjacency_calculator,
                self.reduced_code == old(self).reduced_code,
                self.pure_permutations == old(self).pure_permutations,
                next_batch_items@ == blocks_farther(vis0, d0, n, code as int, bl, idx as int),
                self.distance@ == Seq::new(
                    d0.len(),
                    |c: int|
                        if next_batch_items@.contains(c as u32) {
                            (d0[code as int] + 1) as u8
                        } else {
                            d0[c]
                        },
                ),
                visited_shape(self.visited@, total, n),
                forall|c: int, a: int, b: int|
                    0 <= c < total && 0 <= a < n && 0 <= b < n ==> #[trigger] self.visited@[c]@[a]@[b] == if blocks_cells(
                        vis0,
                        n,
                        code as int,
                        bl,
                        idx as int,
                    ).contains((c as u32, a as usize, b as usize)) {
                        ProcessingStatus::PROCESSED
                    } else {
                        vis0[c]@[a]@[b]
                    },
                open_cells(self.visited@) <= open_cells(vis0),
                strict ==> open_cells(self.visited@) < open_cells(vis0),
                blocks_cells(vis0, n, code as int, bl, idx as int).len() > 0 ==> strict,
        {
            proof {
                lemma_blocks_facts(vis0, d0, n, code as int, bl, idx as int);
            }
            let adjacent_codes = &updatable_items[idx].0;
            let ghost before_far = next_batch_items@;
            let ghost vis_mid = self.visited;
            let alen = adjacent_codes.len();
            for p in 0..alen
                invariant
                    old(self).well_formed(),
                    n == old(self).size,
                    (code as int) < total,
                    self.size == old(self).size,
                    self.next_step == old(self).next_step,
                    self.adjacency_calculator == old(self).adjacency_calculator,
                    self.reduced_code == old(self).reduced_code,
                    self.pure_permutations == old(self).pure_permutations,
                    self.visited == vis_mid,
                    alen == adjacent_codes@.len(),
                    adjacent_codes@ == walk_farther(vis0, d0, n, code as int, bl[idx as int].0 as int, bl[idx as int].1 as int, n),
                    idx < nb,
                    nb == bl.len(),
                    bl == blocks_for_size(n),
                    forall|t: int| 0 <= t < blocks_farther(vis0, d0, n, code as int, bl, nb as int).len() ==> {
                        let c = #[trigger] blocks_farther(vis0, d0, n, code as int, bl, nb as int)[t];
                        &&& (c as int) < total
                        &&& d0[code as int] < d0[c as int]
                    },
                    forall|t: int| 0 <= t < bl.len() ==> {
                        let x = #[trigger] bl[t];
                        x.0 <= x.1 < n - 1
                    },
                    before_far == blocks_farther(vis0, d0, n, code as int, bl, idx as int),
                    next_batch_items@ == before_far + adjacent_codes@.take(p as int),
                    total == fact(n as nat),
                    d0.len() == total,
                    dist == d0[code as int],
                    self.distance@ == Seq::new(
                        d0.len(),
                        |c: int|
                            if next_batch_items@.contains(c as u32) {
                                (d0[code as int] + 1) as u8
                            } else {
                                d0[c]
                            },
                    ),
            {
                let c = adjacent_codes[p];
                proof {
                    lemma_blocks_facts(vis0, d0, n, code as int, bl, idx + 1);
                    let whole = blocks_farther(vis0, d0, n, code as int, bl, idx + 1);
                    assert(whole == before_far + adjacent_codes@);
                    assert(whole[before_far.len() + p] == c);
                    lemma_blocks_prefix_farther(vis0, d0, n, code as int, bl, idx + 1, nb as int);
                    assert(blocks_farther(vis0, d0, n, code as int, bl, nb as int)[before_far.len() + p] == c);
                }
                self.distance[c as usize] = dist + 1;
                next_batch_items.push(c);
                proof {
                    assert(adjacent_codes@.take(p + 1) =~= adjacent_codes@.take(p as int).push(c));
                    assert(next_batch_items@ =~= before_far + adjacent_codes@.take(p + 1));
                    lemma_small_facts();
                    lemma_fact_monotone(n as nat, 12);
                    assert forall|x: u32| #[trigger] next_batch_items@.contains(x) <==> (x == c || (before_far
                        + adjacent_codes@.take(p as int)).contains(x)) by {
                        vstd::seq_lib::lemma_seq_contains_after_push(before_far + adjacent_codes@.take(p as int), c, x);
                    }
                    assert(self.distance@ =~= Seq::new(
                        d0.len(),
                        |c: int|
                            if next_batch_items@.contains(c as u32) {
                                (d0[code as int] + 1) as u8
                            } else {
                                d0[c]
                            },
                    ));
                }
            }
            proof {
                assert(adjacent_codes@.take(alen as int) =~= adjacent_codes@);
            }
            let visited_tuples = &updatable_items[idx].1;
            let ghost before_cells = blocks_cells(vis0, n, code as int, bl, idx as int);
            let tlen = visited_tuples.len();
            let ghost dist_mid = self.distance;
            for q in 0..tlen
                invariant
                    old(self).well_formed(),
                    n == old(self).size,
                    (code as int) < total,
                    self.size == old(self).size,
                    self.next_step == old(self).next_step,
                    self.adjacency_calculator == old(self).adjacency_calculator,
                    self.reduced_code == old(self).reduced_code,
                    self.pure_permutations == old(self).pure_permutations,
                    self.distance == dist_mid,
                    tlen == visited_tuples@.len(),
                    visited_tuples@ == walk_cells(vis0, n, code as int, bl[idx as int].0 as int, bl[idx as int].1 as int, n),
                    idx < nb,
                    nb == bl.len(),
                    bl == blocks_for_size(n),
                    forall|t: int| 0 <= t < blocks_cells(vis0, n, code as int, bl, nb as int).len() ==> {
                        let x = #[trigger] blocks_cells(vis0, n, code as int, bl, nb as int)[t];
                        &&& (x.0 as int) < total
                        &&& (x.1 as int) < n
                        &&& (x.2 as int) < n
                        &&& cell_open(vis0, x)
                    },
                    before_cells == blocks_cells(vis0, n, code as int, bl, idx as int),
                    n == self.size,
                    total == fact(n as nat),
                    visited_shape(vis0, total, n),
                    visited_shape(self.visited@, total, n),
                    forall|c: int, a: int, b: int|
                        0 <= c < total && 0 <= a < n && 0 <= b < n ==> #[trigger] self.visited@[c]@[a]@[b] == if (before_cells
                            + visited_tuples@.take(q as int)).contains((c as u32, a as usize, b as usize)) {
                            ProcessingStatus::PROCESSED
                        } else {
                            vis0[c]@[a]@[b]
                        },
                    open_cells(self.visited@) <= open_cells(vis0),
                    strict ==> open_cells(self.visited@) < open_cells(vis0),
                    (before_cells + visited_tuples@.take(q as int)).len() > 0 ==> strict,
            {
                let tuple = visited_tuples[q];
                proof {
                    lemma_blocks_prefix_cells(vis0, n, code as int, bl, idx + 1, nb as int);
                    let whole = blocks_cells(vis0, n, code as int, bl, idx + 1);
                    assert(whole == before_cells + visited_tuples@);
                    assert(whole[before_cells.len() + q] == tuple);
                    assert(blocks_cells(vis0, n, code as int, bl, nb as int)[before_cells.len() + q] == tuple);
                }
                let ghost pre = self.visited@;
                self.visited[tuple.0 as usize][tuple.1][tuple.2] = ProcessingStatus::PROCESSED;
                proof {
                    lemma_mark_cell(pre, self.visited@, tuple.0 as int, tuple.1 as int, tuple.2 as int);
                    if pre[tuple.0 as int]@[tuple.1 as int]@[tuple.2 as int] == ProcessingStatus::UNPROCESSED {
                        strict = true;
                    } else {
                        assert(pre[tuple.0 as int]@[tuple.1 as int]@[tuple.2 as int] != vis0[tuple.0 as int]@[tuple.1 as int]@[tuple.2 as int]);
                    }
                    let seen = before_cells + visited_tuples@.take(q as int);
                    assert(visited_tuples@.take(q + 1) =~= visited_tuples@.take(q as int).push(tuple));
                    assert(before_cells + visited_tuples@.take(q + 1) =~= seen.push(tuple));
                    assert forall|c: int, a: int, b: int|
                        0 <= c < total && 0 <= a < n && 0 <= b < n implies #[trigger] self.visited@[c]@[a]@[b] == if (
                        before_cells + visited_tuples@.take(q + 1)).contains((c as u32, a as usize, b as usize)) {
                        ProcessingStatus::PROCESSED
                    } else {
                        vis0[c]@[a]@[b]
                    } by {
                        vstd::seq_lib::lemma_seq_contains_after_push(seen, tuple, (c as u32, a as usize, b as usize));
                        lemma_small_facts();
                        lemma_fact_monotone(n as nat, 12);
                        if c == tuple.0 as int && a == tuple.1 as int && b == tuple.2 as int {
                        } else {
                            assert(self.visited@[c]@[a]@[b] == pre[c]@[a]@[b]);
                        }
                    }
                }
            }
            proof {
                assert(visited_tuples@.take(tlen as int) =~= visited_tuples@);
            }
        }
        proof {
            lemma_open_cells_nonneg(self.visited@);
            lemma_blocks_facts(vis0, d0, n, code as int, bl, nb as int);
            assert forall|c: int, a: int, b: int|
                0 <= c < total && 0 <= a < n && 0 <= b < n && vis0[c]@[a]@[b] == ProcessingStatus::PROCESSED
                    implies #[trigger] self.visited@[c]@[a]@[b] == ProcessingStatus::PROCESSED by {
                assert(self.visited@[c]@[a]@[b] == if blocks_cells(vis0, n, code as int, bl, nb as int).contains(
                    (c as u32, a as usize, b as usize)) {
                    ProcessingStatus::PROCESSED
                } else {
                    vis0[c]@[a]@[b]
                });
            }
            assert forall|c: int, a: int, b: int|
                0 <= c < total && 0 <= a < n && 0 <= b < n && vis0[c]@[a]@[b] != ProcessingStatus::UNPROCESSED
                    implies #[trigger] self.visited@[c]@[a]@[b] != ProcessingStatus::UNPROCESSED by {
                assert(self.visited@[c]@[a]@[b] == if blocks_cells(vis0, n, code as int, bl, nb as int).contains(
                    (c as u32, a as usize, b as usize)) {
                    ProcessingStatus::PROCESSED
                } else {
                    vis0[c]@[a]@[b]
                });
            }
            lemma_slid_once_after(*old(self), *self, code as int);
            assert forall|t: int| 0 <= t < next_batch_items@.len() implies one_block_move(
                perm_of_code(n, #[trigger] next_batch_items@[t] as int),
                perm_of_code(n, code as int),
            ) by {
                lemma_slide_is_block_move(n, code as int, next_batch_items@[t] as int);
            }
            assert forall|c: int| 0 <= c < d0.len() implies #[trigger] self.distance@[c] <= d0[c] by {
                if next_batch_items@.contains(c as u32) {
                    let t = choose|t: int| 0 <= t < next_batch_items@.len() && next_batch_items@[t] == c as u32;
                    lemma_small_facts();
                    lemma_fact_monotone(n as nat, 12);
                }
            }
            if table_sound(n, d0) {
                assert forall|c: int| 0 <= c < self.distance@.len() && self.distance@[c] < 99 implies sortable_within(
                    perm_of_code(n, c),
                    #[trigger] self.distance@[c] as nat,
                ) by {
                    if next_batch_items@.contains(c as u32) {
                        let t = choose|t: int| 0 <= t < next_batch_items@.len() && next_batch_items@[t] == c as u32;
                        lemma_small_facts();
                        lemma_fact_monotone(n as nat, 12);
                        assert(next_batch_items@[t] as int == c);
                        assert(d0[code as int] < d0[c]);
                        assert(sortable_within(perm_of_code(n, code as int), d0[code as int] as nat));
                        lemma_sortable_step(perm_of_code(n, c), perm_of_code(n, code as int), d0[code as int] as nat);
                    }
                }
            }
        }
        next_batch_items
    }
}

/// The farther codes of a prefix of the blocks are a prefix of those of all.
proof fn lemma_blocks_prefix_farther(
    vis: Seq<Vec<Vec<ProcessingStatus>>>,
    d: Seq<u8>,
    n: int,
    code: int,
    blocks: Seq<(usize, usize)>,
    t: int,
    u: int,
)
    requires
        0 <= t <= u,
    ensures
        blocks_farther(vis, d, n, code, blocks, u).len() >= blocks_farther(vis, d, n, code, blocks, t).len(),
        forall|s: int| 0 <= s < blocks_farther(vis, d, n, code, blocks, t).len() ==> #[trigger] blocks_farther(vis, d, n, code, blocks, u)[s]
            == blocks_farther(vis, d, n, code, blocks, t)[s],
    decreases u - t,
{
    if u > t {
        lemma_blocks_prefix_farther(vis, d, n, code, blocks, t, u - 1);
    }
}

/// The cells of a prefix of the blocks are a prefix of those of all.
proof fn lemma_blocks_prefix_cells(
    vis: Seq<Vec<Vec<ProcessingStatus>>>,
    n: int,
    code: int,
    blocks: Seq<(usize, usize)>,
    t: int,
    u: int,
)
    requires
        0 <= t <= u,
    ensures
        blocks_cells(vis, n, code, blocks, u).len() >= blocks_cells(vis, n, code, blocks, t).len(),
        forall|s: int| 0 <= s < blocks_cells(vis, n, code, blocks, t).len() ==> #[trigger] blocks_cells(vis, n, code, blocks, u)[s]
            == blocks_cells(vis, n, code, blocks, t)[s],
    decreases u - t,
{
    if u > t {
        lemma_blocks_prefix_cells(vis, n, code, blocks, t, u - 1);
    }
}

/// `c` is reached from `code` by sliding one block of `bs` items, ending at
/// `j`, right until it ends at `k`.
pub open spec fn one_slide_from(n: int, code: int, c: int) -> bool {
    exists|bs: int, j: int, k: int| 1 <= bs <= j + 1 && j < k < n && c == #[trigger] slide_code(n, code, bs, j, k)
}

/// What slides from `code` leave of the data `a` in `b`: the same
/// size, tables and pure codes, still well formed; the distance of `code`
/// kept; every other distance either kept with its step, or lowered to one
/// more than that of `code` with `code` as its step, for a code one slide
/// away; cells slid from stay so, and no more cells are open.
pub open spec fn slid_from(a: PermutationsData, b: PermutationsData, code: int) -> bool {
    let n = a.size as int;
    &&& b.well_formed()
    &&& b.size == a.size
    &&& b.adjacency_calculator == a.adjacency_calculator
    &&& b.reduced_code == a.reduced_code
    &&& b.pure_permutations == a.pure_permutations
    &&& b.distance@.len() == a.distance@.len()
    &&& b.next_step@.len() == a.next_step@.len()
    &&& b.distance@[code] == a.distance@[code]
    &&& forall|c: int|
        0 <= c < a.distance@.len() ==> {
            ||| (#[trigger] b.distance@[c] == a.distance@[c] && b.next_step@[c] == a.next_step@[c])
            ||| (b.distance@[c] == a.distance@[code] + 1 && b.distance@[c] <= a.distance@[c] && b.next_step@[c] == (
            n as u8, code as u32) && one_slide_from(n, code, c))
        }
    &&& forall|c: int, x: int, y: int|
        0 <= c < fact(n as nat) && 0 <= x < n && 0 <= y < n && a.visited@[c]@[x]@[y] == ProcessingStatus::PROCESSED
            ==> #[trigger] b.visited@[c]@[x]@[y] == ProcessingStatus::PROCESSED
    &&& open_cells(b.visited@) <= open_cells(a.visited@)
    &&& (table_sound(n, a.distance@) ==> table_sound(n, b.distance@))
}

proof fn lemma_slid_from_refl(a: PermutationsData, code: int)
    requires
        a.well_formed(),
        0 <= code < a.distance@.len(),
    ensures
        slid_from(a, a, code),
{
}

/// A slide of a block over at least one item changes the permutation.
proof fn lemma_slide_moves(n: int, code: int, bs: int, j: int, k: int)
    requires
        1 <= n <= 12,
        codes_decode(n),
        0 <= code < fact(n as nat),
        1 <= bs <= j + 1,
        j < k < n,
    ensures
        slide_code(n, code, bs, j, k) != code,
{
    crate::permutation::block_walk::lemma_slide_swaps_blocks(n, code, bs, j, k);
    let p = perm_of_code(n, code);
    let a = j - bs + 1;
    let q = crate::permutation::block_walk::swap_blocks(p, a, j, k);
    assert(q[a] == p[j + 1]);
    assert(p[a] != p[j + 1]);
}

/// The cell `process_permutation` checks first for block `[i, j]` of
/// `code`: the code one slide away, with the block's own ends.
pub open spec fn near_cell(n: int, code: int, i: int, j: int) -> (u32, usize, usize) {
    (slide_code(n, code, j - i + 1, j, j + 1) as u32, i as usize, j as usize)
}

/// The code one slide away from `code` for block `[i, j]`.
pub open spec fn near_code(n: int, code: int, i: int, j: int) -> int {
    slide_code(n, code, j - i + 1, j, j + 1)
}

/// Block `[i, j]` of `code` has been walked in `now`: its own cell is
/// marked; when that cell was open in `start` the first cell its walk
/// checks is marked too, and when that cell was open as well the code one
/// slide away is at most one farther than `code` was.
pub open spec fn block_walked(start: PermutationsData, now: PermutationsData, code: int, i: int, j: int) -> bool {
    &&& now.visited@[code]@[i]@[j] != ProcessingStatus::UNPROCESSED
    &&& (start.visited@[code]@[i]@[j] == ProcessingStatus::UNPROCESSED ==> !cell_open(
        now.visited@,
        near_cell(start.size as int, code, i, j),
    ))
    &&& (start.visited@[code]@[i]@[j] == ProcessingStatus::UNPROCESSED && cell_open(
        start.visited@,
        near_cell(start.size as int, code, i, j),
    ) ==> now.distance@[near_code(start.size as int, code, i, j)] <= start.distance@[code] + 1)
}

/// The first cells the walks of the blocks of `code` from `[i, j]` on (or
/// after it, when `strict`), row by row, check are as in `start`.
pub open spec fn near_untouched(start: PermutationsData, now: PermutationsData, code: int, i: int, j: int, strict: bool) -> bool {
    forall|a: int, b: int|
        0 <= a <= b < start.size - 1 && (a > i || (a == i && (b > j || (!strict && b == j)))) ==> {
            let t = #[trigger] near_cell(start.size as int, code, a, b);
            now.visited@[t.0 as int]@[t.1 as int]@[t.2 as int] == start.visited@[t.0 as int]@[t.1 as int]@[t.2 as int]
        }
}

/// The cell the walk of block `[i, j]` of `code` marks once the block
/// ends at `k`.
pub open spec fn step_cell(n: int, code: int, i: int, j: int, k: int) -> (u32, usize, usize) {
    (slide_code(n, code, j - i + 1, j, k) as u32, (k - (j - i + 1)) as usize, (k - 1) as usize)
}

/// The cells the walk of block `[i, j]` of `code` marks until the block
/// ends at `m` are all open in `vis`.
pub open spec fn steps_open(vis: Seq<Vec<Vec<ProcessingStatus>>>, n: int, code: int, i: int, j: int, m: int) -> bool
    decreases m - j,
{
    if m <= j {
        true
    } else {
        steps_open(vis, n, code, i, j, m - 1) && cell_open(vis, step_cell(n, code, i, j, m))
    }
}

/// The cells the walks of the blocks of `code` from `[i, j]` on (or after
/// it, when `strict`), row by row, mark are as in `start`.
pub open spec fn steps_untouched(start: PermutationsData, now: PermutationsData, code: int, i: int, j: int, strict: bool) -> bool {
    forall|a: int, b: int, m: int|
        0 <= a <= b < start.size - 1 && b < m < start.size && (a > i || (a == i && (b > j || (!strict && b == j)))) ==> {
            let t = #[trigger] step_cell(start.size as int, code, a, b, m);
            now.visited@[t.0 as int]@[t.1 as int]@[t.2 as int] == start.visited@[t.0 as int]@[t.1 as int]@[t.2 as int]
        }
}

/// Block `[i, j]` of `code` has been walked up to `k`: when its own cell
/// was open in `start`, every code its walk reaches before the block ends
/// at `k`, through cells all open in `start`, is at most one farther than
/// `code` was.
pub open spec fn walked_to(start: PermutationsData, now: PermutationsData, code: int, i: int, j: int, k: int) -> bool {
    let n = start.size as int;
    start.visited@[code]@[i]@[j] == ProcessingStatus::UNPROCESSED ==> forall|m: int|
        j < m < k && #[trigger] steps_open(start.visited@, n, code, i, j, m) ==> now.distance@[slide_code(
            n,
            code,
            j - i + 1,
            j,
            m,
        )] <= start.distance@[code] + 1
}

/// Every block of `code` before `[i, j]`, row by row, has been walked to
/// the end (see `walked_to`).
pub open spec fn walked_far_upto(start: PermutationsData, now: PermutationsData, code: int, i: int, j: int) -> bool {
    forall|a: int, b: int|
        0 <= a <= b < start.size - 1 && (a < i || (a == i && b < j)) ==> #[trigger] walked_to(
            start,
            now,
            code,
            a,
            b,
            start.size as int,
        )
}

/// A walk stays walked while no distance grows.
proof fn lemma_walked_to_kept(start: PermutationsData, a: PermutationsData, b: PermutationsData, code: int, i: int, j: int, k: int)
    requires
        start.well_formed(),
        0 <= code < fact(start.size as nat),
        0 <= i <= j,
        k <= start.size,
        walked_to(start, a, code, i, j, k),
        b.distance@.len() == a.distance@.len(),
        a.distance@.len() == fact(start.size as nat),
        forall|c: int| 0 <= c < a.distance@.len() ==> #[trigger] b.distance@[c] <= a.distance@[c],
    ensures
        walked_to(start, b, code, i, j, k),
{
    let n = start.size as int;
    if start.visited@[code]@[i]@[j] == ProcessingStatus::UNPROCESSED {
        assert forall|m: int| j < m < k && #[trigger] steps_open(start.visited@, n, code, i, j, m) implies b.distance@[slide_code(
            n,
            code,
            j - i + 1,
            j,
            m,
        )] <= start.distance@[code] + 1 by {
            lemma_slide_code_range(n, code, j - i + 1, j, m);
            assert(b.distance@[slide_code(n, code, j - i + 1, j, m)] <= a.distance@[slide_code(n, code, j - i + 1, j, m)]);
        }
    }
}

/// Walked blocks stay walked while no distance grows.
proof fn lemma_walked_far_kept(start: PermutationsData, a: PermutationsData, b: PermutationsData, code: int, i: int, j: int)
    requires
        start.well_formed(),
        0 <= code < fact(start.size as nat),
        walked_far_upto(start, a, code, i, j),
        b.distance@.len() == a.distance@.len(),
        a.distance@.len() == fact(start.size as nat),
        forall|c: int| 0 <= c < a.distance@.len() ==> #[trigger] b.distance@[c] <= a.distance@[c],
    ensures
        walked_far_upto(start, b, code, i, j),
{
    assert forall|x: int, y: int|
        0 <= x <= y < start.size - 1 && (x < i || (x == i && y < j)) implies #[trigger] walked_to(
        start,
        b,
        code,
        x,
        y,
        start.size as int,
    ) by {
        lemma_walked_to_kept(start, a, b, code, x, y, start.size as int);
    }
}

/// Marking a cell none of the walks still to come marks keeps them as in
/// `start`.
proof fn lemma_steps_untouched_mark(
    start: PermutationsData,
    a: PermutationsData,
    b: PermutationsData,
    code: int,
    i: int,
    j: int,
    strict: bool,
    c: int,
    x: int,
    y: int,
)
    requires
        start.well_formed(),
        0 <= code < fact(start.size as nat),
        steps_untouched(start, a, code, i, j, strict),
        marked_one(a.visited@, b.visited@, fact(start.size as nat) as int, start.size as int, c, x, y),
        forall|a2: int, b2: int, m2: int|
            0 <= a2 <= b2 < start.size - 1 && b2 < m2 < start.size && (a2 > i || (a2 == i && (b2 > j || (!strict && b2
                == j)))) ==> {
                let t = #[trigger] step_cell(start.size as int, code, a2, b2, m2);
                !(t.0 as int == c && t.1 as int == x && t.2 as int == y)
            },
    ensures
        steps_untouched(start, b, code, i, j, strict),
{
    let n = start.size as int;
    assert forall|a2: int, b2: int, m2: int|
        0 <= a2 <= b2 < n - 1 && b2 < m2 < n && (a2 > i || (a2 == i && (b2 > j || (!strict && b2 == j)))) implies {
            let t = #[trigger] step_cell(n, code, a2, b2, m2);
            b.visited@[t.0 as int]@[t.1 as int]@[t.2 as int] == start.visited@[t.0 as int]@[t.1 as int]@[t.2 as int]
        } by {
        lemma_slide_code_range(n, code, b2 - a2 + 1, b2, m2);
        lemma_small_facts();
        lemma_fact_monotone(n as nat, 12);
        let t = step_cell(n, code, a2, b2, m2);
        assert(b.visited@[t.0 as int]@[t.1 as int]@[t.2 as int] == a.visited@[t.0 as int]@[t.1 as int]@[t.2 as int]);
    }
}

/// A cell of a walk open through the block ending at `m` is open.
proof fn lemma_steps_open_prefix(vis: Seq<Vec<Vec<ProcessingStatus>>>, n: int, code: int, i: int, j: int, k: int, m: int)
    requires
        j < k <= m,
        steps_open(vis, n, code, i, j, m),
    ensures
        cell_open(vis, step_cell(n, code, i, j, k)),
    decreases m - k,
{
    if m > k {
        lemma_steps_open_prefix(vis, n, code, i, j, k, m - 1);
    }
}

/// No cell a walk marks is a cell of `code` itself.
proof fn lemma_steps_not_own(start: PermutationsData, code: int)
    requires
        start.well_formed(),
        0 <= code < fact(start.size as nat),
    ensures
        forall|a2: int, b2: int, m2: int|
            0 <= a2 <= b2 < start.size - 1 && b2 < m2 < start.size ==> (#[trigger] step_cell(start.size as int, code, a2, b2, m2)).0 as int
                != code,
{
    let n = start.size as int;
    assert forall|a2: int, b2: int, m2: int|
        0 <= a2 <= b2 < n - 1 && b2 < m2 < n implies (#[trigger] step_cell(n, code, a2, b2, m2)).0 as int != code by {
        lemma_slide_moves(n, code, b2 - a2 + 1, b2, m2);
        lemma_slide_code_range(n, code, b2 - a2 + 1, b2, m2);
        lemma_small_facts();
        lemma_fact_monotone(n as nat, 12);
    }
}

/// The cell the walk of block `[i, j]` marks at `k` is marked by no walk of
/// a later block.
proof fn lemma_step_distinct(start: PermutationsData, code: int, i: int, j: int, k: int)
    requires
        start.well_formed(),
        0 <= code < fact(start.size as nat),
        0 <= i <= j < k < start.size,
    ensures
        forall|a2: int, b2: int, m2: int|
            0 <= a2 <= b2 < start.size - 1 && b2 < m2 < start.size && (a2 > i || (a2 == i && b2 > j)) ==> {
                let t = #[trigger] step_cell(start.size as int, code, a2, b2, m2);
                !(t.0 as int == slide_code(start.size as int, code, j - i + 1, j, k) && t.1 as int == k - (j - i + 1) && t.2 as int
                    == k - 1)
            },
{
    let n = start.size as int;
    lemma_small_facts();
    lemma_fact_monotone(n as nat, 12);
    assert forall|a2: int, b2: int, m2: int|
        0 <= a2 <= b2 < n - 1 && b2 < m2 < n && (a2 > i || (a2 == i && b2 > j)) implies {
            let t = #[trigger] step_cell(n, code, a2, b2, m2);
            !(t.0 as int == slide_code(n, code, j - i + 1, j, k) && t.1 as int == k - (j - i + 1) && t.2 as int == k - 1)
        } by {
        let t = step_cell(n, code, a2, b2, m2);
        lemma_slide_code_range(n, code, b2 - a2 + 1, b2, m2);
        lemma_slide_code_range(n, code, j - i + 1, j, k);
        if t.1 as int == k - (j - i + 1) && t.2 as int == k - 1 {
            assert(m2 == k);
            assert(b2 - a2 == j - i);
            assert(b2 != j);
            lemma_slides_differ(n, code, j - i + 1, j, b2 - a2 + 1, b2, k);
        }
    }
}

/// `b` is `a` with the cell `(c, x, y)` marked.
pub open spec fn marked_one(
    a: Seq<Vec<Vec<ProcessingStatus>>>,
    b: Seq<Vec<Vec<ProcessingStatus>>>,
    total: int,
    n: int,
    c: int,
    x: int,
    y: int,
) -> bool {
    forall|c2: int, x2: int, y2: int|
        0 <= c2 < total && 0 <= x2 < n && 0 <= y2 < n ==> #[trigger] b[c2]@[x2]@[y2] == if c2 == c && x2 == x && y2 == y {
            ProcessingStatus::PROCESSED
        } else {
            a[c2]@[x2]@[y2]
        }
}

/// Marking a cell that is none of the first cells still to check keeps
/// them as in `start`.
proof fn lemma_near_untouched_mark(
    start: PermutationsData,
    a: PermutationsData,
    b: PermutationsData,
    code: int,
    i: int,
    j: int,
    strict: bool,
    c: int,
    x: int,
    y: int,
)
    requires
        start.well_formed(),
        0 <= code < fact(start.size as nat),
        near_untouched(start, a, code, i, j, strict),
        marked_one(a.visited@, b.visited@, fact(start.size as nat) as int, start.size as int, c, x, y),
        forall|a2: int, b2: int|
            0 <= a2 <= b2 < start.size - 1 && (a2 > i || (a2 == i && (b2 > j || (!strict && b2 == j)))) ==> {
                let t = #[trigger] near_cell(start.size as int, code, a2, b2);
                !(t.0 as int == c && t.1 as int == x && t.2 as int == y)
            },
    ensures
        near_untouched(start, b, code, i, j, strict),
{
    let n = start.size as int;
    assert forall|a2: int, b2: int|
        0 <= a2 <= b2 < n - 1 && (a2 > i || (a2 == i && (b2 > j || (!strict && b2 == j)))) implies {
            let t = #[trigger] near_cell(n, code, a2, b2);
            b.visited@[t.0 as int]@[t.1 as int]@[t.2 as int] == start.visited@[t.0 as int]@[t.1 as int]@[t.2 as int]
        } by {
        lemma_slide_code_range(n, code, b2 - a2 + 1, b2, b2 + 1);
        let t = near_cell(n, code, a2, b2);
        assert(b.visited@[t.0 as int]@[t.1 as int]@[t.2 as int] == a.visited@[t.0 as int]@[t.1 as int]@[t.2 as int]);
    }
}

/// The permutation after sliding a block to end at `k` holds the block's
/// last item at `k`.
proof fn lemma_slide_last_value(n: int, code: int, bs: int, j: int, k: int)
    requires
        1 <= n <= 12,
        codes_decode(n),
        0 <= code < fact(n as nat),
        1 <= bs <= j + 1,
        j < k < n,
    ensures
        perm_of_code(n, slide_code(n, code, bs, j, k))[k] == perm_of_code(n, code)[j],
{
    crate::permutation::block_walk::lemma_slide_swaps_blocks(n, code, bs, j, k);
    let p = perm_of_code(n, code);
    let a = j - bs + 1;
    let q = crate::permutation::block_walk::swap_blocks(p, a, j, k);
    assert(q[k] == p[j]);
}

/// Slides of blocks ending at different places to the same end give
/// different codes.
proof fn lemma_slides_differ(n: int, code: int, bs1: int, j1: int, bs2: int, j2: int, k: int)
    requires
        1 <= n <= 12,
        codes_decode(n),
        0 <= code < fact(n as nat),
        1 <= bs1 <= j1 + 1,
        1 <= bs2 <= j2 + 1,
        j1 < k < n,
        j2 < k,
        j1 != j2,
    ensures
        slide_code(n, code, bs1, j1, k) != slide_code(n, code, bs2, j2, k),
{
    lemma_slide_last_value(n, code, bs1, j1, k);
    lemma_slide_last_value(n, code, bs2, j2, k);
    let p = perm_of_code(n, code);
    assert(p[j1] != p[j2]);
}

/// Every block of `code` before `[i, j]`, row by row, has been walked.
pub open spec fn walked_upto(start: PermutationsData, now: PermutationsData, code: int, i: int, j: int) -> bool {
    forall|a: int, b: int|
        0 <= a <= b < start.size - 1 && (a < i || (a == i && b < j)) ==> #[trigger] block_walked(start, now, code, a, b)
}

/// Every cell of `b` is that of `a` or marked.
pub open spec fn only_marked(a: Seq<Vec<Vec<ProcessingStatus>>>, b: Seq<Vec<Vec<ProcessingStatus>>>, total: int, n: int) -> bool {
    forall|c: int, x: int, y: int|
        0 <= c < total && 0 <= x < n && 0 <= y < n ==> #[trigger] b[c]@[x]@[y] == a[c]@[x]@[y] || b[c]@[x]@[y]
            == ProcessingStatus::PROCESSED
}

/// Walked blocks stay walked when cells are only marked.
proof fn lemma_walked_kept(start: PermutationsData, a: PermutationsData, b: PermutationsData, code: int, i: int, j: int)
    requires
        start.well_formed(),
        0 <= code < fact(start.size as nat),
        walked_upto(start, a, code, i, j),
        only_marked(a.visited@, b.visited@, fact(start.size as nat) as int, start.size as int),
        b.distance@.len() == a.distance@.len(),
        a.distance@.len() == fact(start.size as nat),
        forall|c: int| 0 <= c < a.distance@.len() ==> #[trigger] b.distance@[c] <= a.distance@[c],
    ensures
        walked_upto(start, b, code, i, j),
{
    let n = start.size as int;
    assert forall|x: int, y: int| 0 <= x <= y < n - 1 && (x < i || (x == i && y < j)) implies #[trigger] block_walked(
        start,
        b,
        code,
        x,
        y,
    ) by {
        assert(block_walked(start, a, code, x, y));
        assert(b.visited@[code]@[x]@[y] == a.visited@[code]@[x]@[y] || b.visited@[code]@[x]@[y] == ProcessingStatus::PROCESSED);
        if start.visited@[code]@[x]@[y] == ProcessingStatus::UNPROCESSED {
            lemma_slide_code_range(n, code, y - x + 1, y, y + 1);
            let t = near_cell(n, code, x, y);
            assert(b.visited@[t.0 as int]@[t.1 as int]@[t.2 as int] == a.visited@[t.0 as int]@[t.1 as int]@[t.2 as int]
                || b.visited@[t.0 as int]@[t.1 as int]@[t.2 as int] == ProcessingStatus::PROCESSED);
            let nc = near_code(n, code, x, y);
            assert(b.distance@[nc] <= a.distance@[nc]);
        }
    }
}

/// Marking cells keeps what slides from `code` left.
proof fn lemma_slid_from_marked(start: PermutationsData, a: PermutationsData, b: PermutationsData, code: int)
    requires
        slid_from(start, a, code),
        b.well_formed(),
        b.size == a.size,
        b.adjacency_calculator == a.adjacency_calculator,
        b.reduced_code == a.reduced_code,
        b.pure_permutations == a.pure_permutations,
        b.distance == a.distance,
        b.next_step == a.next_step,
        only_marked(a.visited@, b.visited@, fact(a.size as nat) as int, a.size as int),
        open_cells(b.visited@) <= open_cells(a.visited@),
    ensures
        slid_from(start, b, code),
{
    let n = start.size as int;
    assert forall|c: int| 0 <= c < start.distance@.len() implies {
        ||| (#[trigger] b.distance@[c] == start.distance@[c] && b.next_step@[c] == start.next_step@[c])
        ||| (b.distance@[c] == start.distance@[code] + 1 && b.distance@[c] <= start.distance@[c] && b.next_step@[c] == (
        n as u8, code as u32) && one_slide_from(n, code, c))
    } by {
        assert(b.distance@[c] == a.distance@[c]);
    }
    assert forall|c: int, x: int, y: int|
        0 <= c < fact(n as nat) && 0 <= x < n && 0 <= y < n && start.visited@[c]@[x]@[y] == ProcessingStatus::PROCESSED
            implies #[trigger] b.visited@[c]@[x]@[y] == ProcessingStatus::PROCESSED by {
        assert(a.visited@[c]@[x]@[y] == ProcessingStatus::PROCESSED);
    }
}

impl PermutationsData {
    /// Marks the cell `(c, x, y)` slid from.
    fn mark_processed(&mut self, c: usize, x: usize, y: usize)
        requires
            old(self).well_formed(),
            (c as int) < fact(old(self).size as nat),
            x < old(self).size,
            y < old(self).size,
        ensures
            final(self).well_formed(),
            final(self).size == old(self).size,
            final(self).distance == old(self).distance,
            final(self).next_step == old(self).next_step,
            final(self).adjacency_calculator == old(self).adjacency_calculator,
            final(self).reduced_code == old(self).reduced_code,
            final(self).pure_permutations == old(self).pure_permutations,
            forall|c2: int, x2: int, y2: int|
                0 <= c2 < fact(old(self).size as nat) && 0 <= x2 < old(self).size && 0 <= y2 < old(self).size
                    ==> #[trigger] final(self).visited@[c2]@[x2]@[y2] == if c2 == c && x2 == x && y2 == y {
                    ProcessingStatus::PROCESSED
                } else {
                    old(self).visited@[c2]@[x2]@[y2]
                },
            open_cells(final(self).visited@) <= open_cells(old(self).visited@),
    {
        let ghost pre = self.visited@;
        self.visited[c][x][y] = ProcessingStatus::PROCESSED;
        proof {
            lemma_mark_cell(pre, self.visited@, c as int, x as int, y as int);
            assert forall|c2: int, x2: int, y2: int|
                0 <= c2 < fact(old(self).size as nat) && 0 <= x2 < old(self).size && 0 <= y2 < old(self).size
                    implies #[trigger] self.visited@[c2]@[x2]@[y2] == if c2 == c && x2 == x && y2 == y {
                    ProcessingStatus::PROCESSED
                } else {
                    old(self).visited@[c2]@[x2]@[y2]
                } by {
                if c2 == c && x2 == x {
                } else if c2 == c {
                    assert(self.visited@[c2]@[x2] == pre[c2]@[x2]);
                } else {
                    assert(self.visited@[c2] == pre[c2]);
                }
            }
        }
    }

    /// Slides every block of `code` not slid from yet right, one position at
    /// a time, marking it and each cell it lands on slid from and stopping at
    /// the first one already slid from; each code landed on that is farther
    /// than `code` takes one more than its distance, with `code` as its step.
    /// Every block's own cell ends marked; for each block whose cell was
    /// open the first cell its walk checks ends marked, and when that cell
    /// was open too the code one slide away ends at most one farther than
    /// `code`; more generally every code the walk of such a block reaches
    /// through cells all open on entry ends at most one farther than `code`
    /// (see `walked_to`); cell `(code, 0, 0)` ends marked.
    #[verifier::spinoff_prover]
    #[verifier::rlimit(60)]
    pub fn process_permutation(&mut self, code: u32)
        requires
            old(self).well_formed(),
            (code as int) < fact(old(self).size as nat),
        ensures
            slid_from(*old(self), *final(self), code as int),
            final(self).visited@[code as int]@[0]@[0] == ProcessingStatus::PROCESSED,
            forall|i: int, j: int|
                0 <= i <= j < old(self).size - 1 ==> #[trigger] block_walked(*old(self), *final(self), code as int, i, j),
            forall|i: int, j: int|
                0 <= i <= j < old(self).size - 1 ==> #[trigger] walked_to(
                    *old(self),
                    *final(self),
                    code as int,
                    i,
                    j,
                    old(self).size as int,
                ),
    {
        let ghost n = self.size as int;
        let ghost start = *self;
        let ghost total = fact(n as nat) as int;
        proof {
            lemma_slid_from_refl(start, code as int);
        }
        let size = self.size;
        for i in 0..size - 1
            invariant
                size == n,
                n == start.size,
                total == fact(n as nat),
                start == *old(self),
                start.well_formed(),
                (code as int) < fact(n as nat),
                slid_from(start, *self, code as int),
                walked_upto(start, *self, code as int, i as int, i as int),
                near_untouched(start, *self, code as int, i as int, i as int, false),
                steps_untouched(start, *self, code as int, i as int, i as int, false),
                walked_far_upto(start, *self, code as int, i as int, i as int),
                forall|a: int, b: int|
                    0 <= a <= b < n - 1 && a >= i ==> #[trigger] self.visited@[code as int]@[a]@[b] == start.visited@[code
                        as int]@[a]@[b],
        {
            for j in i..size - 1
                invariant
                    size == n,
                    n == start.size,
                    total == fact(n as nat),
                    start == *old(self),
                    start.well_formed(),
                    (code as int) < fact(n as nat),
                    i < n - 1,
                    i <= j,
                    slid_from(start, *self, code as int),
                    walked_upto(start, *self, code as int, i as int, j as int),
                    near_untouched(start, *self, code as int, i as int, j as int, false),
                    steps_untouched(start, *self, code as int, i as int, j as int, false),
                    walked_far_upto(start, *self, code as int, i as int, j as int),
                    forall|a: int, b: int|
                        0 <= a <= b < n - 1 && (a > i || (a == i && b >= j)) ==> #[trigger] self.visited@[code as int]@[a]@[b]
                            == start.visited@[code as int]@[a]@[b],
            {
                if self.visited[code as usize][i][j] == ProcessingStatus::UNPROCESSED {
                    let block_size = (j - i) + 1;
                    let mut cur_code = code;
                    let ghost before = *self;
                    self.mark_processed(code as usize, i, j);
                    proof {
                        lemma_slid_from_marked(start, before, *self, code as int);
                        lemma_walked_kept(start, before, *self, code as int, i as int, j as int);
                        assert forall|a2: int, b2: int|
                            0 <= a2 <= b2 < n - 1 && (a2 > i || (a2 == i && (b2 > j || (!false && b2 == j)))) implies {
                                let t = #[trigger] near_cell(n, code as int, a2, b2);
                                !(t.0 as int == code as int && t.1 as int == i as int && t.2 as int == j as int)
                            } by {
                            lemma_slide_moves(n, code as int, b2 - a2 + 1, b2, b2 + 1);
                            lemma_slide_code_range(n, code as int, b2 - a2 + 1, b2, b2 + 1);
                            lemma_small_facts();
                            lemma_fact_monotone(n as nat, 12);
                        }
                        lemma_near_untouched_mark(start, before, *self, code as int, i as int, j as int, false, code as int, i as int, j as int);
                        lemma_steps_not_own(start, code as int);
                        lemma_steps_untouched_mark(start, before, *self, code as int, i as int, j as int, false, code as int, i as int, j as int);
                        lemma_walked_far_kept(start, before, *self, code as int, i as int, j as int);
                        assert forall|m: int| j + 1 <= m < n implies {
                            let t = #[trigger] step_cell(n, code as int, i as int, j as int, m);
                            self.visited@[t.0 as int]@[t.1 as int]@[t.2 as int] == start.visited@[t.0 as int]@[t.1 as int]@[t.2 as int]
                        } by {
                            let t = step_cell(n, code as int, i as int, j as int, m);
                            assert(start.visited@[t.0 as int]@[t.1 as int]@[t.2 as int] == before.visited@[t.0 as int]@[t.1 as int]@[t.2 as int]);
                        }
                    }
                    let mut k = j + 1;
                    while k < self.size
                        invariant
                            n == start.size,
                            total == fact(n as nat),
                            start == *old(self),
                            start.well_formed(),
                            (code as int) < fact(n as nat),
                            i <= j < n - 1,
                            block_size == j - i + 1,
                            j + 1 <= k <= n,
                            cur_code as int == slide_code(n, code as int, j - i + 1, j as int, k - 1),
                            slid_from(start, *self, code as int),
                            walked_upto(start, *self, code as int, i as int, j as int),
                            self.visited@[code as int]@[i as int]@[j as int] != ProcessingStatus::UNPROCESSED,
                            start.visited@[code as int]@[i as int]@[j as int] == ProcessingStatus::UNPROCESSED,
                            forall|a: int, b: int|
                                0 <= a <= b < n - 1 && (a > i || (a == i && b > j)) ==> #[trigger] self.visited@[code
                                    as int]@[a]@[b] == start.visited@[code as int]@[a]@[b],
                            k > j + 1 ==> !cell_open(self.visited@, near_cell(n, code as int, i as int, j as int)),
                            near_untouched(start, *self, code as int, i as int, j as int, k > j + 1),
                            k > j + 1 && cell_open(start.visited@, near_cell(n, code as int, i as int, j as int))
                                ==> self.distance@[near_code(n, code as int, i as int, j as int)] <= start.distance@[code as int] + 1,
                            steps_untouched(start, *self, code as int, i as int, j as int, true),
                            forall|m: int| k <= m < n ==> {
                                let t = #[trigger] step_cell(n, code as int, i as int, j as int, m);
                                self.visited@[t.0 as int]@[t.1 as int]@[t.2 as int] == start.visited@[t.0 as int]@[t.1 as int]@[t.2 as int]
                            },
                            walked_far_upto(start, *self, code as int, i as int, j as int),
                            walked_to(start, *self, code as int, i as int, j as int, k as int),
                        ensures
                            slid_from(start, *self, code as int),
                            walked_upto(start, *self, code as int, i as int, j as int),
                            self.visited@[code as int]@[i as int]@[j as int] != ProcessingStatus::UNPROCESSED,
                            forall|a: int, b: int|
                                0 <= a <= b < n - 1 && (a > i || (a == i && b > j)) ==> #[trigger] self.visited@[code
                                    as int]@[a]@[b] == start.visited@[code as int]@[a]@[b],
                            !cell_open(self.visited@, near_cell(n, code as int, i as int, j as int)),
                            near_untouched(start, *self, code as int, i as int, j as int, true),
                            cell_open(start.visited@, near_cell(n, code as int, i as int, j as int))
                                ==> self.distance@[near_code(n, code as int, i as int, j as int)] <= start.distance@[code as int] + 1,
                            steps_untouched(start, *self, code as int, i as int, j as int, true),
                            walked_far_upto(start, *self, code as int, i as int, j as int),
                            walked_to(start, *self, code as int, i as int, j as int, n),
                        decreases n - k,
                    {
                        let new_pos_for_optimized = k as i8 - block_size as i8 - 1;
                        proof {
                            lemma_slide_code_range(n, code as int, j - i + 1, j as int, k - 1);
                            self.adjacency_calculator.lemma_well_formed_facts();
                        }
                        let delta_for_move = self.adjacency_calculator.get_delta_for_moving_item(
                            cur_code,
                            k,
                            new_pos_for_optimized,
                        );
                        proof {
                            lemma_slide_code_range(n, code as int, j - i + 1, j as int, k as int);
                            assert(cur_code + delta_for_move == slide_code(n, code as int, j - i + 1, j as int, k as int));
                            lemma_small_facts();
                            lemma_fact_monotone(n as nat, 12);
                        }
                        let next_code = (cur_code as i32 + delta_for_move) as u32;
                        if self.visited[next_code as usize][k - block_size][k - 1] != ProcessingStatus::UNPROCESSED {
                            proof {
                                if k == j + 1 {
                                    assert(near_cell(n, code as int, i as int, j as int) == (next_code, (k - block_size) as usize, (k - 1) as usize));
                                    lemma_slide_code_range(n, code as int, j - i + 1, j as int, j + 1);
                                    let t = near_cell(n, code as int, i as int, j as int);
                                    assert(self.visited@[t.0 as int]@[t.1 as int]@[t.2 as int] == start.visited@[t.0 as int]@[t.1 as int]@[t.2 as int]);
                                    assert forall|a: int, b: int|
                                        0 <= a <= b < n - 1 && (a > i || (a == i && (b > j || (!true && b == j)))) implies {
                                            let t2 = #[trigger] near_cell(n, code as int, a, b);
                                            self.visited@[t2.0 as int]@[t2.1 as int]@[t2.2 as int] == start.visited@[t2.0 as int]@[t2.1 as int]@[t2.2 as int]
                                        } by {
                                        let t2 = near_cell(n, code as int, a, b);
                                        assert(self.visited@[t2.0 as int]@[t2.1 as int]@[t2.2 as int] == start.visited@[t2.0 as int]@[t2.1 as int]@[t2.2 as int]);
                                    }
                                }
                                let st = step_cell(n, code as int, i as int, j as int, k as int);
                                assert(st == (next_code, (k - block_size) as usize, (k - 1) as usize));
                                assert(!cell_open(start.visited@, st));
                                assert forall|m: int| j < m < n && #[trigger] steps_open(start.visited@, n, code as int, i as int, j as int, m)
                                    implies self.distance@[slide_code(n, code as int, j - i + 1, j as int, m)] <= start.distance@[code as int] + 1 by {
                                    if m >= k {
                                        lemma_steps_open_prefix(start.visited@, n, code as int, i as int, j as int, k as int, m);
                                    }
                                }
                            }
                            break;
                        }
                        cur_code = next_code;
                        let ghost before_mark = *self;
                        self.mark_processed(cur_code as usize, k - block_size, k - 1);
                        proof {
                            lemma_slid_from_marked(start, before_mark, *self, code as int);
                            lemma_walked_kept(start, before_mark, *self, code as int, i as int, j as int);
                            lemma_slide_moves(n, code as int, j - i + 1, j as int, k as int);
                            if k == j + 1 {
                                lemma_slide_code_range(n, code as int, j - i + 1, j as int, j + 1);
                                let t = near_cell(n, code as int, i as int, j as int);
                                assert(before_mark.visited@[t.0 as int]@[t.1 as int]@[t.2 as int] == start.visited@[t.0 as int]@[t.1 as int]@[t.2 as int]);
                            }
                            assert forall|a2: int, b2: int|
                                0 <= a2 <= b2 < n - 1 && (a2 > i || (a2 == i && (b2 > j || (!true && b2 == j)))) implies {
                                    let t = #[trigger] near_cell(n, code as int, a2, b2);
                                    !(t.0 as int == cur_code as int && t.1 as int == (k - block_size) as int && t.2 as int == (k - 1) as int)
                                } by {
                                lemma_slide_code_range(n, code as int, b2 - a2 + 1, b2, b2 + 1);
                                let t = near_cell(n, code as int, a2, b2);
                                if t.1 as int == (k - block_size) as int && t.2 as int == (k - 1) as int {
                                    assert(b2 == k - 1 && a2 == k - block_size);
                                    assert(b2 != j);
                                    lemma_slides_differ(n, code as int, j - i + 1, j as int, b2 - a2 + 1, b2, k as int);
                                }
                            }
                            if k == j + 1 {
                                assert forall|a2: int, b2: int|
                                    0 <= a2 <= b2 < n - 1 && (a2 > i || (a2 == i && (b2 > j || (!true && b2 == j)))) implies {
                                        let t2 = #[trigger] near_cell(n, code as int, a2, b2);
                                        before_mark.visited@[t2.0 as int]@[t2.1 as int]@[t2.2 as int] == start.visited@[t2.0 as int]@[t2.1 as int]@[t2.2 as int]
                                    } by {
                                    let t2 = near_cell(n, code as int, a2, b2);
                                    assert(before_mark.visited@[t2.0 as int]@[t2.1 as int]@[t2.2 as int] == start.visited@[t2.0 as int]@[t2.1 as int]@[t2.2 as int]);
                                }
                            }
                            lemma_near_untouched_mark(start, before_mark, *self, code as int, i as int, j as int, true, cur_code as int, (k - block_size) as int, (k - 1) as int);
                            lemma_step_distinct(start, code as int, i as int, j as int, k as int);
                            lemma_steps_untouched_mark(start, before_mark, *self, code as int, i as int, j as int, true, cur_code as int, (k - block_size) as int, (k - 1) as int);
                            lemma_walked_far_kept(start, before_mark, *self, code as int, i as int, j as int);
                            lemma_walked_to_kept(start, before_mark, *self, code as int, i as int, j as int, k as int);
                            assert forall|m: int| k + 1 <= m < n implies {
                                let t = #[trigger] step_cell(n, code as int, i as int, j as int, m);
                                self.visited@[t.0 as int]@[t.1 as int]@[t.2 as int] == start.visited@[t.0 as int]@[t.1 as int]@[t.2 as int]
                            } by {
                                let t = step_cell(n, code as int, i as int, j as int, m);
                                lemma_slide_code_range(n, code as int, j - i + 1, j as int, m);
                                assert(start.visited@[t.0 as int]@[t.1 as int]@[t.2 as int] == before_mark.visited@[t.0 as int]@[t.1 as int]@[t.2 as int]);
                            }
                            if k == j + 1 {
                                assert(near_cell(n, code as int, i as int, j as int) == (cur_code, (k - block_size) as usize, (k - 1) as usize));
                            } else {
                                let t = near_cell(n, code as int, i as int, j as int);
                                lemma_slide_code_range(n, code as int, j - i + 1, j as int, j + 1);
                                assert(self.visited@[t.0 as int]@[t.1 as int]@[t.2 as int] == before_mark.visited@[t.0 as int]@[t.1 as int]@[t.2 as int]
                                    || self.visited@[t.0 as int]@[t.1 as int]@[t.2 as int] == ProcessingStatus::PROCESSED);
                            }
                            assert(self.visited@[code as int]@[i as int]@[j as int] == before_mark.visited@[code as int]@[i as int]@[j as int]
                                || self.visited@[code as int]@[i as int]@[j as int] == ProcessingStatus::PROCESSED);
                        }
                        let ghost before_if = *self;
                        if self.distance[code as usize] < self.distance[cur_code as usize] {
                            let ghost before_set = *self;
                            let new_dist = self.distance[code as usize] + 1;
                            self.distance.set(cur_code as usize, new_dist);
                            self.next_step.set(cur_code as usize, (self.size as u8, code));
                            proof {
                                assert(self.visited@ == before_set.visited@);
                                lemma_walked_kept(start, before_set, *self, code as int, i as int, j as int);
                                assert(one_slide_from(n, code as int, cur_code as int)) by {
                                    assert(cur_code as int == slide_code(n, code as int, j - i + 1, j as int, k as int));
                                }
                                assert forall|c: int| 0 <= c < start.distance@.len() implies {
                                    ||| (#[trigger] self.distance@[c] == start.distance@[c] && self.next_step@[c] == start.next_step@[c])
                                    ||| (self.distance@[c] == start.distance@[code as int] + 1 && self.distance@[c] <= start.distance@[c]
                                        && self.next_step@[c] == (n as u8, code as u32) && one_slide_from(n, code as int, c))
                                } by {
                                    if c != cur_code as int {
                                        assert(self.distance@[c] == before_set.distance@[c]);
                                        assert(self.next_step@[c] == before_set.next_step@[c]);
                                    } else {
                                        assert(before_set.distance@[c] <= start.distance@[c]);
                                    }
                                }
                                if table_sound(n, start.distance@) {
                                    assert forall|c: int| 0 <= c < self.distance@.len() && self.distance@[c] < 99 implies sortable_within(
                                        perm_of_code(n, c),
                                        #[trigger] self.distance@[c] as nat,
                                    ) by {
                                        if c != cur_code as int {
                                            assert(self.distance@[c] == before_set.distance@[c]);
                                        } else {
                                            lemma_slide_is_block_move(n, code as int, c);
                                            assert(start.distance@[code as int] < 99);
                                            assert(sortable_within(perm_of_code(n, code as int), start.distance@[code as int] as nat));
                                            lemma_sortable_step(perm_of_code(n, c), perm_of_code(n, code as int), start.distance@[code as int] as nat);
                                        }
                                    }
                                }
                            }
                        }
                        proof {
                            assert(self.distance@[code as int] == start.distance@[code as int]);
                            assert(self.distance@[cur_code as int] <= start.distance@[code as int] + 1);
                            let nc = near_code(n, code as int, i as int, j as int);
                            lemma_slide_code_range(n, code as int, j - i + 1, j as int, j + 1);
                            if k == j + 1 {
                                assert(cur_code as int == nc);
                            } else if cell_open(start.visited@, near_cell(n, code as int, i as int, j as int)) {
                                assert(before_if.distance@[nc] <= start.distance@[code as int] + 1);
                                if nc != cur_code as int {
                                    assert(self.distance@[nc] == before_if.distance@[nc]);
                                }
                            }
                            assert(near_untouched(start, *self, code as int, i as int, j as int, true)) by {
                                assert(self.visited == before_if.visited);
                            }
                            assert(steps_untouched(start, *self, code as int, i as int, j as int, true)) by {
                                assert(self.visited == before_if.visited);
                            }
                            assert(self.visited == before_if.visited);
                            lemma_walked_far_kept(start, before_if, *self, code as int, i as int, j as int);
                            lemma_walked_to_kept(start, before_if, *self, code as int, i as int, j as int, k as int);
                            assert forall|m: int| j < m < k + 1 && #[trigger] steps_open(start.visited@, n, code as int, i as int, j as int, m)
                                implies self.distance@[slide_code(n, code as int, j - i + 1, j as int, m)] <= start.distance@[code as int] + 1 by {
                                if m == k {
                                    assert(slide_code(n, code as int, j - i + 1, j as int, m) == cur_code as int);
                                }
                            }
                        }
                        k = k + 1;
                    }
                }
                proof {
                    assert forall|a: int, b: int|
                        0 <= a <= b < n - 1 && (a < i || (a == i && b < j + 1)) implies #[trigger] block_walked(
                        start,
                        *self,
                        code as int,
                        a,
                        b,
                    ) by {
                        if a == i && b == j {
                            if start.visited@[code as int]@[a]@[b] != ProcessingStatus::UNPROCESSED {
                                assert(self.visited@[code as int]@[a]@[b] == start.visited@[code as int]@[a]@[b]);
                            }
                        }
                    }
                }
            }
            proof {
                assert forall|a: int, b: int|
                    0 <= a <= b < n - 1 && (a < i + 1 || (a == i + 1 && b < i + 1)) implies #[trigger] block_walked(
                    start,
                    *self,
                    code as int,
                    a,
                    b,
                ) by {
                    assert(a < i || (a == i && b < n - 1));
                }
            }
        }
        let ghost before_last = *self;
        self.mark_processed(code as usize, 0, 0);
        proof {
            lemma_slid_from_marked(start, before_last, *self, code as int);
            lemma_walked_kept(start, before_last, *self, code as int, n - 1, n - 1);
            assert forall|i: int, j: int| 0 <= i <= j < n - 1 implies #[trigger] block_walked(start, *self, code as int, i, j) by {
                assert(i < n - 1);
            }
            lemma_walked_far_kept(start, before_last, *self, code as int, n - 1, n - 1);
            assert forall|i: int, j: int| 0 <= i <= j < n - 1 implies #[trigger] walked_to(start, *self, code as int, i, j, n) by {
                assert(i < n - 1);
            }
        }
    }
}

/// What lowering distances leaves of the data `a` in `b`: the same size,
/// tables and pure codes, still well formed; no distance larger; cells slid
/// from stay so, and no more cells are open.
pub open spec fn lowered_from(a: PermutationsData, b: PermutationsData) -> bool {
    let n = a.size as int;
    &&& b.well_formed()
    &&& b.size == a.size
    &&& b.adjacency_calculator == a.adjacency_calculator
    &&& b.reduced_code == a.reduced_code
    &&& b.pure_permutations == a.pure_permutations
    &&& b.distance@.len() == a.distance@.len()
    &&& forall|c: int| 0 <= c < a.distance@.len() ==> #[trigger] b.distance@[c] <= a.distance@[c]
    &&& forall|c: int, x: int, y: int|
        0 <= c < fact(n as nat) && 0 <= x < n && 0 <= y < n && a.visited@[c]@[x]@[y] == ProcessingStatus::PROCESSED
            ==> #[trigger] b.visited@[c]@[x]@[y] == ProcessingStatus::PROCESSED
    &&& forall|c: int, x: int, y: int|
        0 <= c < fact(n as nat) && 0 <= x < n && 0 <= y < n && a.visited@[c]@[x]@[y] != ProcessingStatus::UNPROCESSED
            ==> #[trigger] b.visited@[c]@[x]@[y] != ProcessingStatus::UNPROCESSED
    &&& open_cells(b.visited@) <= open_cells(a.visited@)
    &&& (table_sound(n, a.distance@) ==> table_sound(n, b.distance@))
}

/// Blocks slid from stay slid from when the data is lowered.
proof fn lemma_slid_once_kept(a: PermutationsData, b: PermutationsData, code: int)
    requires
        a.well_formed(),
        lowered_from(a, b),
        0 <= code < fact(a.size as nat),
        slid_once(a, code),
    ensures
        slid_once(b, code),
{
    let n = a.size as int;
    assert forall|i: int, j: int| 0 <= i <= j < n - 1 implies !cell_open(b.visited@, #[trigger] first_cell(n, code, i, j)) by {
        lemma_slide_code_range(n, code, j - i + 1, j, j + 1);
        let x = first_cell(n, code, i, j);
        assert(!cell_open(a.visited@, first_cell(n, code, i, j)));
        assert(b.visited@[x.0 as int]@[x.1 as int]@[x.2 as int] != ProcessingStatus::UNPROCESSED);
    }
}

/// The code `c` is a pure code of size `n` (by its recorded pair).
pub open spec fn pure_in(n: int, rc: Seq<(usize, u32)>, d: Seq<u8>, c: int) -> bool {
    0 <= c < d.len() && rc[c].0 as int == n
}

/// The code `c` is a pure code at the least distance `d` gives a pure code.
pub open spec fn nearest_in(n: int, rc: Seq<(usize, u32)>, d: Seq<u8>, c: int) -> bool {
    &&& pure_in(n, rc, d, c)
    &&& forall|c2: int| #[trigger] pure_in(n, rc, d, c2) ==> d[c] <= d[c2]
}

/// Some pure code is at least two farther than another.
pub open spec fn spread_in(n: int, rc: Seq<(usize, u32)>, d: Seq<u8>) -> bool {
    exists|c1: int, c2: int| pure_in(n, rc, d, c1) && pure_in(n, rc, d, c2) && #[trigger] d[c2] >= #[trigger] d[c1] + 2
}

/// Some pure code is at distance `x` or more.
pub open spec fn pure_reaches(n: int, rc: Seq<(usize, u32)>, d: Seq<u8>, x: int) -> bool {
    exists|c2: int| pure_in(n, rc, d, c2) && #[trigger] d[c2] >= x
}

/// What the batch search over the pure codes, from the distances `d0`,
/// leaves in `fin`: every code that was a nearest pure code or whose
/// distance was lowered, and that is still at least two nearer than some
/// pure code was, has every block slid from.
pub open spec fn search_reached(n: int, rc: Seq<(usize, u32)>, d0: Seq<u8>, fin: PermutationsData) -> bool {
    forall|c: int|
        0 <= c < d0.len() && (nearest_in(n, rc, d0, c) || fin.distance@[c] < d0[c]) && pure_reaches(
            n,
            rc,
            d0,
            fin.distance@[c] + 2,
        ) ==> #[trigger] slid_once(fin, c)
}

/// The code `c` is a pure code of the data.
pub open spec fn is_pure_code(data: PermutationsData, c: int) -> bool {
    pure_in(data.size as int, data.reduced_code@, data.distance@, c)
}

/// The code `c` is a pure code at the least distance of a pure code.
pub open spec fn nearest_pure(data: PermutationsData, c: int) -> bool {
    nearest_in(data.size as int, data.reduced_code@, data.distance@, c)
}

/// Some pure code is at least two farther than another.
pub open spec fn pure_spread(data: PermutationsData) -> bool {
    spread_in(data.size as int, data.reduced_code@, data.distance@)
}

/// Some code is at least two farther than code `c` in `d`.
pub open spec fn reaches_two_more(d: Seq<u8>, c: int) -> bool {
    exists|c2: int| 0 <= c2 < d.len() && #[trigger] d[c2] >= d[c] + 2
}

/// What the batches from the identity leave in `fin`, from `start`: every
/// code that is the identity or was lowered, whose step is of a size at
/// most this one, and that some code is at least two farther than, has
/// been slid from.
pub open spec fn all_batches_reached(start: PermutationsData, fin: PermutationsData) -> bool {
    forall|c: int|
        0 <= c < start.distance@.len() && (c == 0 || fin.distance@[c] < start.distance@[c]) && start.next_step@[c].0 as int
            <= start.size as int && reaches_two_more(fin.distance@, c) ==> #[trigger] slid_once(fin, c)
}

/// Some code is at least two farther than the identity (code 0).
pub open spec fn spread_from_identity(data: PermutationsData) -> bool {
    exists|c: int| 0 <= c < data.distance@.len() && #[trigger] data.distance@[c] >= data.distance@[0] + 2
}

/// Lowering twice is lowering.
pub proof fn lemma_lowered_trans(a: PermutationsData, b: PermutationsData, c: PermutationsData)
    requires
        lowered_from(a, b),
        lowered_from(b, c),
    ensures
        lowered_from(a, c),
{
    assert forall|x: int| 0 <= x < a.distance@.len() implies #[trigger] c.distance@[x] <= a.distance@[x] by {
        assert(b.distance@[x] <= a.distance@[x]);
    }
    let n = a.size as int;
    assert forall|x: int, y: int, z: int|
        0 <= x < fact(n as nat) && 0 <= y < n && 0 <= z < n && a.visited@[x]@[y]@[z] == ProcessingStatus::PROCESSED
            implies #[trigger] c.visited@[x]@[y]@[z] == ProcessingStatus::PROCESSED by {
        assert(b.visited@[x]@[y]@[z] == ProcessingStatus::PROCESSED);
    }
    assert forall|x: int, y: int, z: int|
        0 <= x < fact(n as nat) && 0 <= y < n && 0 <= z < n && a.visited@[x]@[y]@[z] != ProcessingStatus::UNPROCESSED
            implies #[trigger] c.visited@[x]@[y]@[z] != ProcessingStatus::UNPROCESSED by {
        assert(b.visited@[x]@[y]@[z] != ProcessingStatus::UNPROCESSED);
    }
}

/// A well formed data is lowered from itself.
pub proof fn lemma_lowered_refl(a: PermutationsData)
    requires
        a.well_formed(),
    ensures
        lowered_from(a, a),
{
}

/// The least distance of a listed code is reached by one of them, when
/// any is listed and all are at most 99.
proof fn lemma_least_reached(d: Seq<u8>, u: Seq<usize>, nbd0: u8)
    requires
        u.len() > 0,
        forall|x: int| 0 <= x < u.len() ==> (#[trigger] u[x] as int) < d.len(),
        distances_bounded(d),
        forall|x: int| 0 <= x < u.len() ==> nbd0 <= d[#[trigger] u[x] as int],
        nbd0 == 99 || exists|x: int| 0 <= x < u.len() && d[#[trigger] u[x] as int] == nbd0,
    ensures
        exists|x: int| 0 <= x < u.len() && d[#[trigger] u[x] as int] == nbd0,
{
    if nbd0 == 99 {
        assert(d[u[0] as int] <= 99);
        assert(d[u[0] as int] == nbd0);
    }
}

/// What the first batch of pure codes holds: with `u` the pure codes, `nbd0`
/// and `mx0` the least and greatest of their distances (99 and 0 when there
/// is none), and `nb` holding those at the least distance.
proof fn lemma_pure_batch_facts(start: PermutationsData, u: Seq<usize>, nb: Seq<usize>, nbd0: u8, mx0: u8)
    requires
        distances_bounded(start.distance@),
        start.distance@.len() <= 479001600,
        forall|t: int| 0 <= t < u.len() ==> is_pure_code(start, #[trigger] u[t] as int),
        forall|c: int| is_pure_code(start, c) ==> #[trigger] u.contains(c as usize),
        nbd0 <= 99,
        mx0 <= 99,
        forall|x: int| 0 <= x < u.len() ==> nbd0 <= start.distance@[#[trigger] u[x] as int],
        forall|x: int| 0 <= x < u.len() ==> start.distance@[#[trigger] u[x] as int] <= mx0,
        nbd0 == 99 || exists|x: int| 0 <= x < u.len() && start.distance@[#[trigger] u[x] as int] == nbd0,
        mx0 == 0 || exists|x: int| 0 <= x < u.len() && start.distance@[#[trigger] u[x] as int] == mx0,
        nb.len() <= u.len(),
        forall|x: int| 0 <= x < u.len() && start.distance@[#[trigger] u[x] as int] == nbd0 ==> nb.contains(u[x]),
    ensures
        pure_spread(start) ==> nbd0 + 2 <= mx0 && nb.len() > 0,
        pure_spread(start) ==> forall|c: int| #[trigger] nearest_pure(start, c) ==> nb.contains(c as usize),
        !pure_spread(start) ==> nb.len() == 0 || nbd0 + 2 > mx0,
        forall|c: int| #[trigger] is_pure_code(start, c) ==> start.distance@[c] <= mx0,
        forall|c: int| #[trigger] is_pure_code(start, c) ==> nbd0 <= start.distance@[c],
{
    let d = start.distance@;
    assert forall|c: int| #[trigger] is_pure_code(start, c) implies start.distance@[c] <= mx0 by {
        assert(u.contains(c as usize));
        let x = choose|x: int| 0 <= x < u.len() && u[x] == c as usize;
        assert(start.distance@[u[x] as int] <= mx0);
    }
    assert forall|c: int| #[trigger] is_pure_code(start, c) implies nbd0 <= start.distance@[c] by {
        assert(u.contains(c as usize));
        let x = choose|x: int| 0 <= x < u.len() && u[x] == c as usize;
        assert(nbd0 <= start.distance@[u[x] as int]);
    }
    assert forall|x: int| 0 <= x < u.len() implies (#[trigger] u[x] as int) < d.len() by {
        assert(is_pure_code(start, u[x] as int));
    }
    if u.len() > 0 {
        lemma_least_reached(d, u, nbd0);
    }
    if pure_spread(start) {
        let (c1, c2) = choose|c1: int, c2: int|
            is_pure_code(start, c1) && is_pure_code(start, c2) && #[trigger] d[c2] >= #[trigger] d[c1] + 2;
        assert(u.contains(c1 as usize));
        assert(u.contains(c2 as usize));
        let x1 = choose|x: int| 0 <= x < u.len() && u[x] == c1 as usize;
        let x2 = choose|x: int| 0 <= x < u.len() && u[x] == c2 as usize;
        assert(nbd0 <= d[u[x1] as int]);
        assert(d[u[x2] as int] <= mx0);
        let a = choose|a: int| 0 <= a < u.len() && d[#[trigger] u[a] as int] == nbd0;
        assert(nb.contains(u[a]));
        assert forall|c: int| #[trigger] nearest_pure(start, c) implies nb.contains(c as usize) by {
            assert(u.contains(c as usize));
            let x = choose|x: int| 0 <= x < u.len() && u[x] == c as usize;
            assert(nbd0 <= d[u[x] as int]);
            assert(is_pure_code(start, u[a] as int));
            assert(d[c] <= d[u[a] as int]);
            assert(d[u[x] as int] == nbd0);
        }
    } else if nb.len() > 0 && mx0 != 0 {
        let a = choose|a: int| 0 <= a < u.len() && d[#[trigger] u[a] as int] == nbd0;
        let b = choose|b: int| 0 <= b < u.len() && d[#[trigger] u[b] as int] == mx0;
        assert(is_pure_code(start, u[a] as int));
        assert(is_pure_code(start, u[b] as int));
        if d[u[b] as int] >= d[u[a] as int] + 2 {
            assert(pure_spread(start));
        }
    }
}

impl PermutationsData {
    /// The pure codes, nearest first in batches: starting from those at the
    /// least distance, each round slides from every code gathered so far
    /// (see `process_permutation_paralleled`) and gathers the codes whose
    /// distance was set, until the next distance is within two of the
    /// largest distance of a pure code. So when every pure code is within
    /// one of every other nothing changes; otherwise every code that was a
    /// nearest pure code or was lowered, and is still two nearer than the
    /// farthest pure code was, has each of its blocks slid from: the rounds
    /// go on until none is left to slide from (see `search_reached`); and
    /// the first nearest pure code slid from has the codes one slide away
    /// through first cells open on entry at most one farther than it (see
    /// `first_cells_lowered`).
    #[verifier::spinoff_prover]
    #[verifier::rlimit(30)]
    fn process_pure_permutations(&mut self)
        requires
            old(self).well_formed(),
        ensures
            lowered_from(*old(self), *final(self)),
            final(self).next_step == old(self).next_step,
            !pure_spread(*old(self)) ==> *final(self) == *old(self),
            pure_spread(*old(self)) ==> search_reached(
                old(self).size as int,
                old(self).reduced_code@,
                old(self).distance@,
                *final(self),
            ),
            pure_spread(*old(self)) ==> exists|c: int| #[trigger] nearest_pure(*old(self), c) && first_cells_lowered(
                *old(self),
                *final(self),
                c,
            ),
    {
        let ghost start = *self;
        let ghost n = self.size as int;
        proof {
            lemma_factorials_table(n);
            lemma_lowered_refl(start);
            lemma_small_facts();
            lemma_fact_monotone(n as nat, 12);
        }
        let total = FACTORIALS[self.size] as usize;
        let mut unprocessed_codes: Vec<usize> = vec![];
        for code in 0..total
            invariant
                total == fact(n as nat),
                self.well_formed(),
                n == self.size,
                *self == start,
                forall|t: int| 0 <= t < unprocessed_codes@.len() ==> (#[trigger] unprocessed_codes@[t]) < total,
                forall|t: int| 0 <= t < unprocessed_codes@.len() ==> is_pure_code(start, #[trigger] unprocessed_codes@[t] as int),
                forall|c: int| 0 <= c < code && is_pure_code(start, c) ==> #[trigger] unprocessed_codes@.contains(c as usize),
        {
            let ghost before = unprocessed_codes@;
            if self.reduced_code[code].0 == self.size {
                unprocessed_codes.push(code);
            }
            proof {
                assert forall|c: int| 0 <= c < code + 1 && is_pure_code(start, c) implies #[trigger] unprocessed_codes@.contains(
                    c as usize,
                ) by {
                    if c < code {
                        assert(before.contains(c as usize));
                        let t = choose|t: int| 0 <= t < before.len() && before[t] == c as usize;
                        assert(unprocessed_codes@[t] == c as usize);
                    } else {
                        assert(unprocessed_codes@[before.len() as int] == c as usize);
                    }
                }
            }
        }
        let ghost u = unprocessed_codes@;
        let mut next_batch_dist: u8 = 99;
        let mut max_unprocessed_dist: u8 = 0;
        let ulen = unprocessed_codes.len();
        for t in 0..ulen
            invariant
                ulen == unprocessed_codes@.len(),
                u == unprocessed_codes@,
                total == fact(n as nat),
                self.well_formed(),
                n == self.size,
                *self == start,
                forall|t: int| 0 <= t < unprocessed_codes@.len() ==> (#[trigger] unprocessed_codes@[t]) < total,
                next_batch_dist <= 99,
                max_unprocessed_dist <= 99,
                forall|x: int| 0 <= x < t ==> next_batch_dist <= start.distance@[#[trigger] u[x] as int],
                forall|x: int| 0 <= x < t ==> start.distance@[#[trigger] u[x] as int] <= max_unprocessed_dist,
                next_batch_dist == 99 || exists|x: int| 0 <= x < t && start.distance@[#[trigger] u[x] as int] == next_batch_dist,
                max_unprocessed_dist == 0 || exists|x: int| 0 <= x < t && start.distance@[#[trigger] u[x] as int]
                    == max_unprocessed_dist,
        {
            let d = self.distance[unprocessed_codes[t]];
            if d < next_batch_dist {
                next_batch_dist = d;
            }
            if d > max_unprocessed_dist {
                max_unprocessed_dist = d;
            }
        }
        let mut next_batch: Vec<usize> = vec![];
        for t in 0..ulen
            invariant
                ulen == unprocessed_codes@.len(),
                u == unprocessed_codes@,
                total == fact(n as nat),
                self.well_formed(),
                n == self.size,
                *self == start,
                forall|t: int| 0 <= t < unprocessed_codes@.len() ==> (#[trigger] unprocessed_codes@[t]) < total,
                forall|t: int| 0 <= t < next_batch@.len() ==> (#[trigger] next_batch@[t]) < total,
                forall|t: int| 0 <= t < next_batch@.len() ==> start.distance@[#[trigger] next_batch@[t] as int] == next_batch_dist,
                forall|t: int| 0 <= t < unprocessed_codes@.len() ==> is_pure_code(start, #[trigger] unprocessed_codes@[t] as int),
                forall|t: int| 0 <= t < next_batch@.len() ==> is_pure_code(start, #[trigger] next_batch@[t] as int),
                next_batch@.len() <= t,
                forall|x: int| 0 <= x < t && start.distance@[#[trigger] u[x] as int] == next_batch_dist ==> next_batch@.contains(u[x]),
        {
            let ghost before = next_batch@;
            if self.distance[unprocessed_codes[t]] == next_batch_dist {
                next_batch.push(unprocessed_codes[t]);
            }
            proof {
                assert forall|x: int| 0 <= x < t + 1 && start.distance@[#[trigger] u[x] as int] == next_batch_dist implies next_batch@.contains(
                    u[x],
                ) by {
                    if x < t {
                        let y = choose|y: int| 0 <= y < before.len() && before[y] == u[x];
                        assert(next_batch@[y] == u[x]);
                    } else {
                        assert(next_batch@[before.len() as int] == u[x]);
                    }
                }
            }
        }
        let ghost nb0 = next_batch@;
        let ghost nbd0 = next_batch_dist;
        let ghost mx0 = max_unprocessed_dist;
        proof {
            lemma_pure_batch_facts(start, u, nb0, nbd0, mx0);
            if nb0.len() > 0 {
                let c0 = nb0[0] as int;
                assert(is_pure_code(start, c0));
                assert forall|c2: int| #[trigger] pure_in(n, start.reduced_code@, start.distance@, c2) implies start.distance@[c0]
                    <= start.distance@[c2] by {
                    assert(is_pure_code(start, c2));
                }
                assert(nearest_pure(start, c0));
            }
        }
        let ghost mut k: int = 0;
        let ghost mut lev: Seq<int> = Seq::new(nb0.len(), |p: int| 0int);
        proof {
            assert forall|p: int| 0 <= p < next_batch@.len() implies #[trigger] self.distance@[next_batch@[p] as int] >= nbd0
                + lev[p] by {
                assert(start.distance@[next_batch@[p] as int] == nbd0);
                assert(lev[p] == 0);
            }
        }
        while !next_batch.is_empty()
            invariant
                total == fact(n as nat),
                total <= 479001600,
                n == start.size,
                start == *old(self),
                start.well_formed(),
                lowered_from(start, *self),
                self.next_step == start.next_step,
                ulen == unprocessed_codes@.len(),
                u == unprocessed_codes@,
                forall|t: int| 0 <= t < unprocessed_codes@.len() ==> (#[trigger] unprocessed_codes@[t]) < total,
                forall|t: int| 0 <= t < unprocessed_codes@.len() ==> is_pure_code(start, #[trigger] unprocessed_codes@[t] as int),
                forall|t: int| 0 <= t < next_batch@.len() ==> (#[trigger] next_batch@[t]) < total,
                next_batch_dist <= 99,
                max_unprocessed_dist == mx0,
                mx0 <= 99,
                forall|c: int| #[trigger] is_pure_code(start, c) ==> start.distance@[c] <= mx0,
                pure_spread(start) ==> nbd0 + 2 <= mx0 && nb0.len() > 0,
                pure_spread(start) ==> forall|c: int| #[trigger] nearest_pure(start, c) ==> nb0.contains(c as usize),
                !pure_spread(start) ==> nb0.len() == 0 || nbd0 + 2 > mx0,
                k >= 0,
                next_batch_dist == nbd0 + k,
                k == 0 ==> *self == start && next_batch@ == nb0,
                k > 0 ==> pure_spread(start),
                lev.len() == next_batch@.len(),
                nb0.len() <= next_batch@.len(),
                forall|p: int| 0 <= p < nb0.len() ==> next_batch@[p] == #[trigger] nb0[p],
                forall|p: int| 0 <= p < next_batch@.len() ==> 0 <= #[trigger] lev[p] <= k,
                forall|p: int| 0 <= p < next_batch@.len() && #[trigger] lev[p] < k ==> slid_once(*self, next_batch@[p] as int),
                forall|p: int| 0 <= p < next_batch@.len() ==> #[trigger] self.distance@[next_batch@[p] as int] >= nbd0 + lev[p],
                forall|c: int|
                    #![trigger self.distance@[c]]
                    0 <= c < total && self.distance@[c] < start.distance@[c] ==> next_batch@.contains(c as usize),
                nb0.len() > 0 ==> nearest_pure(start, nb0[0] as int) && (nb0[0] as int) < total,
                k > 0 ==> first_cells_lowered(start, *self, nb0[0] as int),
            ensures
                lowered_from(start, *self),
                self.next_step == start.next_step,
                !pure_spread(start) ==> *self == start,
                pure_spread(start) ==> search_reached(n, start.reduced_code@, start.distance@, *self),
                pure_spread(start) ==> nearest_pure(start, nb0[0] as int) && first_cells_lowered(start, *self, nb0[0] as int),
            decreases 99 - next_batch_dist,
        {
            let cur_batch = next_batch.clone();
            proof {
                assert(cur_batch@ =~= next_batch@);
            }
            if next_batch_dist + 2 > max_unprocessed_dist {
                proof {
                    if pure_spread(start) {
                        assert(k > 0);
                        assert forall|c: int|
                            0 <= c < start.distance@.len() && (nearest_in(n, start.reduced_code@, start.distance@, c)
                                || self.distance@[c] < start.distance@[c]) && pure_reaches(
                                n,
                                start.reduced_code@,
                                start.distance@,
                                self.distance@[c] + 2,
                            ) implies #[trigger] slid_once(*self, c) by {
                            let c2 = choose|c2: int| pure_in(n, start.reduced_code@, start.distance@, c2)
                                && #[trigger] start.distance@[c2] >= self.distance@[c] + 2;
                            assert(is_pure_code(start, c2));
                            let p = if nearest_in(n, start.reduced_code@, start.distance@, c) {
                                assert(nearest_pure(start, c));
                                assert(nb0.contains(c as usize));
                                let q = choose|q: int| 0 <= q < nb0.len() && nb0[q] == c as usize;
                                assert(next_batch@[q] == nb0[q]);
                                q
                            } else {
                                assert(self.distance@[c] < start.distance@[c]);
                                assert(next_batch@.contains(c as usize));
                                choose|q: int| 0 <= q < next_batch@.len() && next_batch@[q] == c as usize
                            };
                            assert(next_batch@[p] as int == c);
                            assert(self.distance@[next_batch@[p] as int] >= nbd0 + lev[p]);
                            if lev[p] >= k {
                                assert(false);
                            }
                        }
                    }
                }
                break;
            }
            let ghost s_batch = next_batch@;
            let ghost s_lev = lev;
            proof {
                assert forall|p: int| 0 <= p < s_batch.len() implies next_batch@[p] == #[trigger] s_batch[p] && lev[p] == s_lev[p] by {}
            }
            let blen = cur_batch.len();
            for t in 0..blen
                invariant
                    blen == cur_batch@.len(),
                    cur_batch@ == s_batch,
                    total == fact(n as nat),
                    total <= 479001600,
                    n == start.size,
                    start == *old(self),
                    start.well_formed(),
                    lowered_from(start, *self),
                    self.next_step == start.next_step,
                    next_batch_dist == nbd0 + k,
                    k >= 0,
                    k > 0 || pure_spread(start),
                    forall|t: int| 0 <= t < cur_batch@.len() ==> (#[trigger] cur_batch@[t]) < total,
                    forall|t: int| 0 <= t < next_batch@.len() ==> (#[trigger] next_batch@[t]) < total,
                    s_lev.len() == s_batch.len(),
                    lev.len() == next_batch@.len(),
                    s_batch.len() <= next_batch@.len(),
                    forall|p: int| 0 <= p < s_batch.len() ==> next_batch@[p] == #[trigger] s_batch[p] && lev[p] == s_lev[p],
                    forall|p: int| 0 <= p < s_batch.len() ==> 0 <= #[trigger] s_lev[p] <= k,
                    forall|p: int| s_batch.len() <= p < next_batch@.len() ==> #[trigger] lev[p] == k + 1,
                    forall|p: int| 0 <= p < s_batch.len() && #[trigger] s_lev[p] < k ==> slid_once(*self, s_batch[p] as int),
                    forall|p: int| 0 <= p < t ==> slid_once(*self, #[trigger] s_batch[p] as int),
                    forall|p: int| 0 <= p < next_batch@.len() ==> #[trigger] self.distance@[next_batch@[p] as int] >= nbd0 + lev[p],
                    forall|c: int|
                        #![trigger self.distance@[c]]
                        0 <= c < total && self.distance@[c] < start.distance@[c] ==> next_batch@.contains(c as usize),
                    k == 0 ==> s_batch.len() > 0 && s_batch[0] == nb0[0],
                    k == 0 && t == 0 ==> *self == start,
                    nb0.len() > 0,
                    (nb0[0] as int) < total,
                    k > 0 || t > 0 ==> first_cells_lowered(start, *self, nb0[0] as int),
            {
                let code = cur_batch[t];
                let ghost before = *self;
                let ghost nb_before = next_batch@;
                let reached = self.process_permutation_paralleled(code as u32);
                proof {
                    if k == 0 && t == 0 {
                        assert(code as int == nb0[0] as int);
                        lemma_first_cells_after_walk(before, *self, code as int, reached@);
                    } else {
                        lemma_first_cells_kept(start, before, *self, nb0[0] as int);
                    }
                    lemma_lowered_trans(start, before, *self);
                    assert forall|p: int| 0 <= p < t + 1 implies slid_once(*self, #[trigger] s_batch[p] as int) by {
                        if p < t {
                            lemma_slid_once_kept(before, *self, s_batch[p] as int);
                        }
                    }
                    assert forall|p: int| 0 <= p < s_batch.len() && #[trigger] s_lev[p] < k implies slid_once(
                        *self,
                        s_batch[p] as int,
                    ) by {
                        lemma_slid_once_kept(before, *self, s_batch[p] as int);
                    }
                    if s_lev[t as int] < k {
                        lemma_slid_no_reach(before, code as int);
                        assert(reached@.len() == 0);
                        assert(self.distance@ =~= before.distance@);
                    } else {
                        assert(lev[t as int] == s_lev[t as int]);
                        assert(before.distance@[next_batch@[t as int] as int] >= nbd0 + lev[t as int]);
                        assert(before.distance@[code as int] >= nbd0 + k);
                    }
                    assert forall|p: int| 0 <= p < next_batch@.len() implies #[trigger] self.distance@[next_batch@[p] as int]
                        >= nbd0 + lev[p] by {
                        let c = next_batch@[p] as int;
                        assert(before.distance@[c] >= nbd0 + lev[p]);
                        if reached@.contains(c as u32) {
                            if p < s_batch.len() {
                                assert(next_batch@[p] == s_batch[p]);
                                assert(lev[p] == s_lev[p]);
                            }
                            assert(lev[p] <= k + 1);
                        }
                    }
                }
                let rlen = reached.len();
                let ghost mid = next_batch@;
                let ghost mid_lev = lev;
                proof {
                    assert forall|p: int| s_batch.len() <= p < mid.len() implies #[trigger] mid_lev[p] == k + 1 by {
                        assert(lev[p] == k + 1);
                    }
                    assert forall|p: int| 0 <= p < s_batch.len() implies #[trigger] mid_lev[p] == s_lev[p] && mid[p] == s_batch[p] by {
                        assert(next_batch@[p] == s_batch[p] && lev[p] == s_lev[p]);
                    }
                }
                for x in 0..rlen
                    invariant
                        rlen == reached@.len(),
                        total == fact(n as nat),
                        n == start.size,
                        forall|t: int| 0 <= t < reached@.len() ==> (#[trigger] reached@[t] as int) < total,
                        forall|t: int| 0 <= t < next_batch@.len() ==> (#[trigger] next_batch@[t]) < total,
                        next_batch@.len() == mid.len() + x,
                        forall|p: int| 0 <= p < mid.len() ==> next_batch@[p] == #[trigger] mid[p],
                        forall|y: int| 0 <= y < x ==> next_batch@[mid.len() + y] == #[trigger] reached@[y] as usize,
                        mid_lev.len() == mid.len(),
                        s_batch.len() <= mid.len(),
                        forall|p: int| s_batch.len() <= p < mid.len() ==> #[trigger] mid_lev[p] == k + 1,
                        forall|p: int| 0 <= p < s_batch.len() ==> #[trigger] mid_lev[p] == s_lev[p] && mid[p] == s_batch[p],
                {
                    next_batch.push(reached[x] as usize);
                }
                proof {
                    lev = mid_lev + Seq::new(rlen as nat, |y: int| k + 1);
                    assert forall|p: int| 0 <= p < mid.len() implies #[trigger] lev[p] == mid_lev[p] by {}
                    assert forall|y: int| 0 <= y < rlen implies #[trigger] lev[mid.len() + y] == k + 1 by {}
                }
                proof {
                    assert forall|p: int| 0 <= p < s_batch.len() implies next_batch@[p] == #[trigger] s_batch[p] && lev[p]
                        == s_lev[p] by {
                        assert(next_batch@[p] == mid[p]);
                    }
                    assert forall|p: int| s_batch.len() <= p < next_batch@.len() implies #[trigger] lev[p] == k + 1 by {
                        if p < mid.len() {
                            assert(next_batch@[p] == mid[p]);
                            assert(lev[p] == mid_lev[p]);
                            assert(mid_lev[p] == k + 1);
                        } else {
                            assert(lev[p] == lev[mid.len() + (p - mid.len())]);
                        }
                    }
                    assert forall|p: int| 0 <= p < next_batch@.len() implies #[trigger] self.distance@[next_batch@[p] as int]
                        >= nbd0 + lev[p] by {
                        if p < mid.len() {
                            assert(next_batch@[p] == mid[p] && lev[p] == mid_lev[p]);
                        } else {
                            let y = p - mid.len();
                            assert(next_batch@[mid.len() + y] == reached@[y] as usize);
                            assert(reached@.contains(reached@[y]));
                            assert(lev[p] == k + 1);
                        }
                    }
                    assert forall|c: int|
                        #![trigger self.distance@[c]]
                        0 <= c < total && self.distance@[c] < start.distance@[c] implies next_batch@.contains(c as usize) by {
                        if reached@.contains(c as u32) {
                            let y = choose|y: int| 0 <= y < reached@.len() && reached@[y] == c as u32;
                            assert(next_batch@[mid.len() + y] == reached@[y] as usize);
                        } else {
                            assert(self.distance@[c] == before.distance@[c]);
                            assert(nb_before.contains(c as usize));
                            let q = choose|q: int| 0 <= q < nb_before.len() && nb_before[q] == c as usize;
                            assert(next_batch@[q] == mid[q]);
                        }
                    }
                }
            }
            proof {
                assert forall|p: int| 0 <= p < next_batch@.len() && #[trigger] lev[p] < k + 1 implies slid_once(
                    *self,
                    next_batch@[p] as int,
                ) by {
                    assert(p < s_batch.len());
                    assert(next_batch@[p] == s_batch[p]);
                    assert(slid_once(*self, s_batch[p] as int));
                }
                assert forall|p: int| 0 <= p < nb0.len() implies next_batch@[p] == #[trigger] nb0[p] by {
                    assert(next_batch@[p] == s_batch[p]);
                }
                assert forall|p: int| 0 <= p < next_batch@.len() implies 0 <= #[trigger] lev[p] <= k + 1 by {
                    if p < s_batch.len() {
                        assert(next_batch@[p] == s_batch[p]);
                        assert(lev[p] == s_lev[p]);
                    }
                }
                k = k + 1;
            }
            next_batch_dist = next_batch_dist + 1;
            for t in 0..ulen
                invariant
                    ulen == unprocessed_codes@.len(),
                    u == unprocessed_codes@,
                    total == fact(n as nat),
                    lowered_from(start, *self),
                    n == start.size,
                    forall|t: int| 0 <= t < unprocessed_codes@.len() ==> (#[trigger] unprocessed_codes@[t]) < total,
                    forall|t: int| 0 <= t < unprocessed_codes@.len() ==> is_pure_code(start, #[trigger] unprocessed_codes@[t] as int),
                    forall|c: int| #[trigger] is_pure_code(start, c) ==> start.distance@[c] <= mx0,
                    max_unprocessed_dist == mx0,
            {
                let d = self.distance[unprocessed_codes[t]];
                proof {
                    assert(is_pure_code(start, u[t as int] as int));
                    assert(self.distance@[u[t as int] as int] <= start.distance@[u[t as int] as int]);
                }
                if d > max_unprocessed_dist {
                    max_unprocessed_dist = d;
                }
            }
        }
        proof {
            if pure_spread(start) {
                assert(nearest_pure(start, nb0[0] as int) && first_cells_lowered(start, *self, nb0[0] as int));
            }
        }
    }

    /// Distances of the pure codes by batches (see
    /// `process_pure_permutations`).
    pub fn process_all_permutations_time_optimized(&mut self)
        requires
            old(self).well_formed(),
        ensures
            lowered_from(*old(self), *final(self)),
            final(self).next_step == old(self).next_step,
            !pure_spread(*old(self)) ==> *final(self) == *old(self),
            pure_spread(*old(self)) ==> search_reached(
                old(self).size as int,
                old(self).reduced_code@,
                old(self).distance@,
                *final(self),
            ),
            pure_spread(*old(self)) ==> exists|c: int| #[trigger] nearest_pure(*old(self), c) && first_cells_lowered(
                *old(self),
                *final(self),
                c,
            ),
    {
        self.process_pure_permutations();
    }
}

/// Every code listed is at distance `x` in `d`.
pub open spec fn same_distance(d: Seq<u8>, codes: Seq<u32>, x: int) -> bool {
    forall|s: int| 0 <= s < codes.len() ==> d[#[trigger] codes[s] as int] == x
}

/// The code `c` was added to the batch `b0`, giving `b`.
pub open spec fn appended(b0: Seq<u32>, b: Seq<u32>, c: int) -> bool {
    exists|t: int| b0.len() <= t < b.len() && #[trigger] b[t] as int == c
}

/// From `d0` to `d` only distances set to `x + 1` changed, and every code
/// added to the batch (from `b0` to `b`) is at `x + 1`.
pub open spec fn level_after(d0: Seq<u8>, d: Seq<u8>, b0: Seq<u32>, b: Seq<u32>, x: int) -> bool {
    &&& forall|c: int| 0 <= c < d0.len() ==> #[trigger] d[c] == d0[c] || d[c] == x + 1
    &&& forall|t: int| b0.len() <= t < b.len() ==> d[#[trigger] b[t] as int] == x + 1
}

/// The code `c` is one block move from one of the first `k` codes listed,
/// and now at most one farther than that code was at first.
pub open spec fn reached_from_some(n: int, d0: Seq<u8>, d: Seq<u8>, codes: Seq<u32>, k: int, c: u32) -> bool {
    exists|s: int|
        0 <= s < k && one_block_move(perm_of_code(n, c as int), perm_of_code(n, #[trigger] codes[s] as int)) && d[c as int]
            <= d0[codes[s] as int] + 1
}

impl PermutationsData {
    /// Extends `batch` by the codes whose distance sliding from each code of
    /// `codes` sets (see `process_permutation_paralleled`), in turn: every
    /// block of each code of `codes` ends slid from, and each code added is
    /// one block move from one of them and at most one farther than it was;
    /// the codes one slide from the first code through first cells open on
    /// entry end at most one farther than it was (see `first_cells_lowered`).
    #[verifier::rlimit(30)]
    fn process_codes_into(&mut self, codes: &Vec<u32>, batch: &mut Vec<u32>)
        requires
            old(self).well_formed(),
            forall|t: int| 0 <= t < codes@.len() ==> (#[trigger] codes@[t] as int) < fact(old(self).size as nat),
            forall|t: int| 0 <= t < old(batch)@.len() ==> (#[trigger] old(batch)@[t] as int) < fact(old(self).size as nat),
        ensures
            lowered_from(*old(self), *final(self)),
            final(self).next_step == old(self).next_step,
            forall|t: int| 0 <= t < final(batch)@.len() ==> (#[trigger] final(batch)@[t] as int) < fact(old(self).size as nat),
            final(batch)@.len() >= old(batch)@.len(),
            final(batch)@.len() > old(batch)@.len() ==> open_cells(final(self).visited@) < open_cells(old(self).visited@),
            final(batch)@.take(old(batch)@.len() as int) == old(batch)@,
            forall|t: int| 0 <= t < codes@.len() ==> slid_once(*final(self), #[trigger] codes@[t] as int),
            forall|t: int|
                old(batch)@.len() <= t < final(batch)@.len() ==> reached_from_some(
                    old(self).size as int,
                    old(self).distance@,
                    final(self).distance@,
                    codes@,
                    codes@.len() as int,
                    #[trigger] final(batch)@[t],
                ),
            codes@.len() == 0 ==> *final(self) == *old(self) && final(batch)@ == old(batch)@,
            forall|c: int|
                0 <= c < old(self).distance@.len() && #[trigger] final(self).distance@[c] < old(self).distance@[c] ==> appended(
                    old(batch)@,
                    final(batch)@,
                    c,
                ),
            forall|x: int|
                #[trigger] same_distance(old(self).distance@, codes@, x) ==> level_after(
                    old(self).distance@,
                    final(self).distance@,
                    old(batch)@,
                    final(batch)@,
                    x,
                ),
            codes@.len() >= 1 ==> first_cells_lowered(*old(self), *final(self), codes@[0] as int),
    {
        let ghost start = *self;
        let ghost n = self.size as int;
        let ghost blen0 = batch@.len();
        let ghost batch0 = batch@;
        proof {
            lemma_lowered_refl(start);
        }
        let clen = codes.len();
        for t in 0..clen
            invariant
                clen == codes@.len(),
                n == start.size,
                start == *old(self),
                start.well_formed(),
                forall|t: int| 0 <= t < codes@.len() ==> (#[trigger] codes@[t] as int) < fact(n as nat),
                lowered_from(start, *self),
                self.next_step == start.next_step,
                forall|t: int| 0 <= t < batch@.len() ==> (#[trigger] batch@[t] as int) < fact(n as nat),
                batch@.len() >= blen0,
                blen0 == old(batch)@.len(),
                batch0 == old(batch)@,
                batch@.take(blen0 as int) == batch0,
                batch@.len() > blen0 ==> open_cells(self.visited@) < open_cells(start.visited@),
                forall|s: int| 0 <= s < t ==> slid_once(*self, #[trigger] codes@[s] as int),
                forall|x: int|
                    blen0 <= x < batch@.len() ==> reached_from_some(
                        n,
                        start.distance@,
                        self.distance@,
                        codes@,
                        t as int,
                        #[trigger] batch@[x],
                    ),
                clen == 0 ==> *self == start && batch@ == batch0,
                t == 0 ==> *self == start,
                t >= 1 ==> first_cells_lowered(start, *self, codes@[0] as int),
                forall|c: int|
                    0 <= c < start.distance@.len() && #[trigger] self.distance@[c] < start.distance@[c] ==> appended(batch0, batch@, c),
                forall|x: int|
                    #[trigger] same_distance(start.distance@, codes@, x) ==> level_after(
                        start.distance@,
                        self.distance@,
                        batch0,
                        batch@,
                        x,
                    ),
        {
            let code = codes[t];
            let ghost before = *self;
            let ghost batch_before = batch@;
            let reached = self.process_permutation_paralleled(code);
            proof {
                assert(first_cells_lowered(start, *self, codes@[0] as int)) by {
                    if t == 0 {
                        lemma_first_cells_after_walk(before, *self, code as int, reached@);
                    } else {
                        lemma_first_cells_kept(start, before, *self, codes@[0] as int);
                    }
                }
                assert forall|x: int| #[trigger] same_distance(start.distance@, codes@, x) implies level_after(
                    start.distance@,
                    self.distance@,
                    batch0,
                    batch_before,
                    x,
                ) && before.distance@[code as int] == x by {
                    assert(level_after(start.distance@, before.distance@, batch0, batch_before, x));
                    assert(start.distance@[codes@[t as int] as int] == x);
                    assert(before.distance@[code as int] <= start.distance@[code as int]);
                    assert forall|c: int| 0 <= c < start.distance@.len() implies #[trigger] self.distance@[c] == start.distance@[c]
                        || self.distance@[c] == x + 1 by {
                        assert(before.distance@[c] == start.distance@[c] || before.distance@[c] == x + 1);
                    }
                    assert forall|tt: int| batch0.len() <= tt < batch_before.len() implies self.distance@[#[trigger] batch_before[tt] as int]
                        == x + 1 by {
                        let c = batch_before[tt] as int;
                        assert(before.distance@[c] == x + 1);
                    }
                }
            }
            proof {
                lemma_lowered_trans(start, before, *self);
                assert forall|s: int| 0 <= s < t + 1 implies slid_once(*self, #[trigger] codes@[s] as int) by {
                    if s < t {
                        lemma_slid_once_kept(before, *self, codes@[s] as int);
                    }
                }
                assert forall|x: int| blen0 <= x < batch@.len() implies reached_from_some(
                    n,
                    start.distance@,
                    self.distance@,
                    codes@,
                    t + 1,
                    #[trigger] batch@[x],
                ) by {
                    let c = batch@[x];
                    assert(reached_from_some(n, start.distance@, before.distance@, codes@, t as int, c));
                    let s = choose|s: int|
                        0 <= s < t && one_block_move(perm_of_code(n, c as int), perm_of_code(n, #[trigger] codes@[s] as int))
                            && before.distance@[c as int] <= start.distance@[codes@[s] as int] + 1;
                    assert(self.distance@[c as int] <= before.distance@[c as int]);
                    assert(codes@[s] == codes@[s]);
                }
            }
            let rlen = reached.len();
            let ghost mid_len = batch@.len();
            let ghost mid = batch@;
            for x in 0..rlen
                invariant
                    rlen == reached@.len(),
                    n == start.size,
                    forall|t: int| 0 <= t < reached@.len() ==> (#[trigger] reached@[t] as int) < fact(n as nat),
                    forall|t: int| 0 <= t < batch@.len() ==> (#[trigger] batch@[t] as int) < fact(n as nat),
                    batch@.len() == mid_len + x,
                    mid_len == mid.len(),
                    batch@.take(mid_len as int) == mid,
                    forall|y: int| 0 <= y < x ==> batch@[mid_len + y] == #[trigger] reached@[y],
            {
                batch.push(reached[x]);
                proof {
                    assert(batch@.take(mid_len as int) =~= mid);
                }
            }
            proof {
                assert(batch@.take(blen0 as int) =~= batch0) by {
                    assert(mid.take(blen0 as int) == batch0);
                    assert forall|y: int| 0 <= y < blen0 implies batch@[y] == batch0[y] by {
                        assert(batch@[y] == batch@.take(mid_len as int)[y]);
                        assert(mid[y] == mid.take(blen0 as int)[y]);
                    }
                }
                assert forall|x: int| blen0 <= x < batch@.len() implies reached_from_some(
                    n,
                    start.distance@,
                    self.distance@,
                    codes@,
                    t + 1,
                    #[trigger] batch@[x],
                ) by {
                    if x < mid_len {
                        assert(batch@[x] == batch@.take(mid_len as int)[x]);
                        assert(mid[x] == batch@[x]);
                        assert(reached_from_some(n, start.distance@, self.distance@, codes@, t + 1, mid[x]));
                    } else {
                        let y = x - mid_len;
                        let c = reached@[y];
                        assert(batch@[mid_len + y] == reached@[y]);
                        assert(reached@.contains(c));
                        assert(self.distance@[c as int] == (before.distance@[code as int] + 1) as u8);
                        assert(before.distance@[code as int] <= start.distance@[code as int]);
                        assert(codes@[t as int] == code);
                        assert(one_block_move(perm_of_code(n, c as int), perm_of_code(n, codes@[t as int] as int)));
                    }
                }
                assert forall|c: int|
                    0 <= c < start.distance@.len() && #[trigger] self.distance@[c] < start.distance@[c] implies appended(
                        batch0,
                        batch@,
                        c,
                    ) by {
                    lemma_small_facts();
                    lemma_fact_monotone(n as nat, 12);
                    if reached@.contains(c as u32) {
                        let y = choose|y: int| 0 <= y < reached@.len() && reached@[y] == c as u32;
                        assert(batch@[mid_len + y] == reached@[y]);
                    } else {
                        assert(self.distance@[c] == before.distance@[c]);
                        assert(appended(batch0, batch_before, c));
                        let tt = choose|tt: int| batch0.len() <= tt < batch_before.len() && #[trigger] batch_before[tt] as int == c;
                        assert(batch@[tt] == batch@.take(mid_len as int)[tt]);
                        assert(batch@[tt] == mid[tt]);
                    }
                }
                assert forall|x: int| #[trigger] same_distance(start.distance@, codes@, x) implies level_after(
                    start.distance@,
                    self.distance@,
                    batch0,
                    batch@,
                    x,
                ) by {
                    assert(level_after(start.distance@, self.distance@, batch0, batch_before, x));
                    assert forall|tt: int| batch0.len() <= tt < batch@.len() implies self.distance@[#[trigger] batch@[tt] as int] == x + 1 by {
                        if tt < mid_len {
                            assert(batch@[tt] == batch@.take(mid_len as int)[tt]);
                            assert(batch@[tt] == mid[tt]);
                        } else {
                            let y = tt - mid_len;
                            assert(batch@[mid_len + y] == reached@[y]);
                            assert(reached@.contains(reached@[y]));
                        }
                    }
                }
            }
        }
    }

    /// The largest distance.
    fn get_max_distance(&self) -> (r: u8)
        requires
            self.well_formed(),
        ensures
            r <= 99,
            forall|c: int| 0 <= c < self.distance@.len() ==> #[trigger] self.distance@[c] <= r,
            exists|c: int| 0 <= c < self.distance@.len() && #[trigger] self.distance@[c] == r,
    {
        let mut max_dist: u8 = 0;
        let len = self.distance.len();
        proof {
            crate::permutation::theory::lemma_fact_pos(self.size as nat);
        }
        for t in 0..len
            invariant
                len == self.distance@.len(),
                len > 0,
                self.well_formed(),
                max_dist <= 99,
                forall|c: int| 0 <= c < t ==> #[trigger] self.distance@[c] <= max_dist,
                (t == 0 && max_dist == 0) || exists|c: int| 0 <= c < t && #[trigger] self.distance@[c] == max_dist,
        {
            let dist = self.distance[t];
            if dist > max_dist {
                max_dist = dist;
            }
        }
        max_dist
    }

    /// All codes, nearest first in batches: starting from the identity, each
    /// round splits the batch by the size of each code's step, slides from
    /// the codes whose step is of a smaller size and then from those whose
    /// step is of the same size (see `process_permutation_paralleled`), and
    /// gathers the codes whose distance was set as the next batch; it stops
    /// when a batch is empty, or when the distance of its first code is
    /// within two of the largest distance. So nothing changes unless some
    /// code is at least two farther than the identity and the identity's
    /// step is of a size at most this one; then every block of the
    /// identity has been slid from. The batches are the codes at one
    /// distance after another, so at the end every code that is the
    /// identity or was lowered, whose step is of a size at most this one and
    /// that some code is at least two farther than, has been slid from (see
    /// `all_batches_reached`); and when the identity is slid from, the codes
    /// one slide from it through first cells open on entry end at most one
    /// farther than it (see `first_cells_lowered`).
    #[verifier::spinoff_prover]
    #[verifier::rlimit(80)]
    pub fn process_all_permutations(&mut self)
        requires
            old(self).well_formed(),
        ensures
            lowered_from(*old(self), *final(self)),
            final(self).next_step == old(self).next_step,
            !(spread_from_identity(*old(self)) && old(self).next_step@[0].0 as int <= old(self).size as int) ==> *final(self)
                == *old(self),
            spread_from_identity(*old(self)) && old(self).next_step@[0].0 as int <= old(self).size as int ==> slid_once(
                *final(self),
                0,
            ),
            spread_from_identity(*old(self)) && old(self).next_step@[0].0 as int <= old(self).size as int
                ==> first_cells_lowered(*old(self), *final(self), 0),
            all_batches_reached(*old(self), *final(self)),
    {
        let ghost start = *self;
        let ghost n = self.size as int;
        proof {
            lemma_lowered_refl(start);
            crate::permutation::theory::lemma_fact_pos(n as nat);
            lemma_open_cells_nonneg(self.visited@);
        }
        let ghost step_ok = start.next_step@[0].0 as int <= n;
        proof {
            lemma_small_facts();
            lemma_fact_monotone(n as nat, 12);
        }
        let ghost mut done = false;
        let ghost mut lvl: int = start.distance@[0] as int;
        let mut next_batch: Vec<u32> = vec![0];
        proof {
            assert(next_batch@ == seq![0u32]);
            assert forall|c: int|
                #![trigger self.distance@[c]]
                0 <= c < start.distance@.len() && (c == 0 || self.distance@[c] < start.distance@[c])
                    && start.next_step@[c].0 as int <= n implies slid_once(*self, c) || next_batch@.contains(c as u32) by {
                assert(c == 0);
                assert(next_batch@[0] == 0u32);
            }
        }
        while next_batch.len() > 0
            invariant_except_break
                !done ==> (next_batch@ == seq![0u32] || (next_batch@.len() == 0 && !step_ok)),
                forall|p: int| 0 <= p < next_batch@.len() ==> self.distance@[#[trigger] next_batch@[p] as int] == lvl,
                forall|c: int|
                    #![trigger self.distance@[c]]
                    0 <= c < start.distance@.len() && (c == 0 || self.distance@[c] < start.distance@[c])
                        && start.next_step@[c].0 as int <= n ==> slid_once(*self, c) || next_batch@.contains(c as u32),
            invariant
                n == start.size,
                start == *old(self),
                start.well_formed(),
                step_ok == (start.next_step@[0].0 as int <= n),
                lowered_from(start, *self),
                self.next_step == start.next_step,
                forall|t: int| 0 <= t < next_batch@.len() ==> (#[trigger] next_batch@[t] as int) < fact(n as nat),
                !done ==> *self == start,
                done ==> spread_from_identity(start) && step_ok && slid_once(*self, 0),
                done ==> first_cells_lowered(start, *self, 0),
                lvl <= 99,
                fact(n as nat) <= 479001600,
            ensures
                lowered_from(start, *self),
                self.next_step == start.next_step,
                !done ==> *self == start && !(spread_from_identity(start) && step_ok),
                done ==> spread_from_identity(start) && step_ok && slid_once(*self, 0),
                done ==> first_cells_lowered(start, *self, 0),
                all_batches_reached(start, *self),
            decreases open_cells(self.visited@) + if next_batch@.len() > 0 { 1int } else { 0int },
        {
            let ghost open_before = open_cells(self.visited@);
            let mut current_batch_non_reducible: Vec<u32> = vec![];
            let mut current_batch_reducible: Vec<u32> = vec![];
            let cur_dist = self.distance[next_batch[0] as usize];
            let ghost b_r = next_batch@;
            let ghost round_start = *self;
            proof {
                assert(round_start.next_step == start.next_step);
            }
            let blen = next_batch.len();
            for t in 0..blen
                invariant
                    blen == next_batch@.len(),
                    n == start.size,
                    lowered_from(start, *self),
                    forall|t: int| 0 <= t < next_batch@.len() ==> (#[trigger] next_batch@[t] as int) < fact(n as nat),
                    forall|t: int| 0 <= t < current_batch_non_reducible@.len() ==> (#[trigger] current_batch_non_reducible@[t] as int) < fact(n as nat),
                    forall|t: int| 0 <= t < current_batch_reducible@.len() ==> (#[trigger] current_batch_reducible@[t] as int) < fact(n as nat),
                    n == self.size,
                    t >= 1 && self.next_step@[next_batch@[0] as int].0 == n as u8 ==> current_batch_non_reducible@.len() >= 1
                        && current_batch_non_reducible@[0] == next_batch@[0],
                    t >= 1 && self.next_step@[next_batch@[0] as int].0 < n as u8 ==> current_batch_reducible@.len() >= 1
                        && current_batch_reducible@[0] == next_batch@[0],
                    t == 0 ==> current_batch_non_reducible@.len() == 0 && current_batch_reducible@.len() == 0,
                    t == 1 ==> current_batch_non_reducible@.len() == (if self.next_step@[next_batch@[0] as int].0 == n as u8 {
                        1int
                    } else {
                        0int
                    }),
                    t == 1 ==> current_batch_reducible@.len() == (if self.next_step@[next_batch@[0] as int].0 < n as u8 {
                        1int
                    } else {
                        0int
                    }),
                    forall|p: int| 0 <= p < next_batch@.len() ==> self.distance@[#[trigger] next_batch@[p] as int] == lvl,
                    same_distance(self.distance@, current_batch_reducible@, lvl),
                    same_distance(self.distance@, current_batch_non_reducible@, lvl),
                    forall|p: int|
                        0 <= p < t && self.next_step@[#[trigger] next_batch@[p] as int].0 == n as u8
                            ==> current_batch_non_reducible@.contains(next_batch@[p]),
                    forall|p: int|
                        0 <= p < t && self.next_step@[#[trigger] next_batch@[p] as int].0 < n as u8
                            ==> current_batch_reducible@.contains(next_batch@[p]),
            {
                let item = next_batch[t];
                let ghost red_before = current_batch_reducible@;
                let ghost non_before = current_batch_non_reducible@;
                if self.next_step[item as usize].0 == self.size as u8 {
                    current_batch_non_reducible.push(item);
                } else if self.next_step[item as usize].0 < self.size as u8 {
                    current_batch_reducible.push(item);
                }
                proof {
                    assert forall|p: int|
                        0 <= p < t + 1 && self.next_step@[#[trigger] next_batch@[p] as int].0 == n as u8
                            implies current_batch_non_reducible@.contains(next_batch@[p]) by {
                        if p < t {
                            let q = choose|q: int| 0 <= q < non_before.len() && non_before[q] == next_batch@[p];
                            assert(current_batch_non_reducible@[q] == non_before[q]);
                        } else {
                            assert(current_batch_non_reducible@[non_before.len() as int] == item);
                        }
                    }
                    assert forall|p: int|
                        0 <= p < t + 1 && self.next_step@[#[trigger] next_batch@[p] as int].0 < n as u8
                            implies current_batch_reducible@.contains(next_batch@[p]) by {
                        if p < t {
                            let q = choose|q: int| 0 <= q < red_before.len() && red_before[q] == next_batch@[p];
                            assert(current_batch_reducible@[q] == red_before[q]);
                        } else {
                            assert(current_batch_reducible@[red_before.len() as int] == item);
                        }
                    }
                    assert(self.distance@[next_batch@[t as int] as int] == lvl);
                }
            }
            let max_dist = self.get_max_distance();
            proof {
                if !done {
                    assert(next_batch@ == seq![0u32]);
                    assert(next_batch@[0] == 0u32);
                    if start.next_step@[0].0 == n as u8 {
                        assert(current_batch_non_reducible@ == seq![0u32]);
                        assert(current_batch_reducible@.len() == 0);
                    } else if start.next_step@[0].0 < n as u8 {
                        assert(current_batch_reducible@ == seq![0u32]);
                        assert(current_batch_non_reducible@.len() == 0);
                    } else {
                        assert(current_batch_reducible@.len() == 0);
                        assert(current_batch_non_reducible@.len() == 0);
                    }
                    assert(cur_dist == start.distance@[0]);
                    let c = choose|c: int| 0 <= c < self.distance@.len() && #[trigger] self.distance@[c] == max_dist;
                    if spread_from_identity(start) {
                        let c2 = choose|c2: int| 0 <= c2 < start.distance@.len() && #[trigger] start.distance@[c2] >= start.distance@[0] + 2;
                        assert(start.distance@[c2] <= max_dist);
                    }
                    if cur_dist + 2 <= max_dist {
                        assert(start.distance@[c] >= start.distance@[0] + 2);
                        assert(spread_from_identity(start));
                    }
                }
            }
            next_batch = vec![];
            proof {
                assert(next_batch@ =~= Seq::<u32>::empty());
                assert(cur_dist == lvl) by {
                    assert(self.distance@[b_r[0] as int] == lvl);
                }
            }
            if cur_dist as i8 > max_dist as i8 - 2 {
                proof {
                    assert(cur_dist + 2 > max_dist);
                    assert forall|c: int|
                        0 <= c < start.distance@.len() && (c == 0 || self.distance@[c] < start.distance@[c])
                            && start.next_step@[c].0 as int <= n && reaches_two_more(self.distance@, c)
                            implies #[trigger] slid_once(*self, c) by {
                        assert(self.distance@[c] == self.distance@[c]);
                        if !slid_once(*self, c) {
                            assert(b_r.contains(c as u32));
                            let p = choose|p: int| 0 <= p < b_r.len() && b_r[p] == c as u32;
                            assert(b_r[p] as int == c);
                            assert(self.distance@[b_r[p] as int] == lvl);
                            let c2 = choose|c2: int| 0 <= c2 < self.distance@.len() && #[trigger] self.distance@[c2] >= self.distance@[c] + 2;
                            assert(self.distance@[c2] <= max_dist);
                        }
                    }
                }
                break;
            }
            let ghost before_red = *self;
            let ghost red_list = current_batch_reducible@;
            let ghost non_list = current_batch_non_reducible@;
            self.process_codes_into(&current_batch_reducible, &mut next_batch);
            proof {
                assert(same_distance(before_red.distance@, red_list, lvl));
                assert(level_after(before_red.distance@, self.distance@, Seq::<u32>::empty(), next_batch@, lvl));
                lemma_lowered_trans(start, before_red, *self);
                if done {
                    lemma_slid_once_kept(before_red, *self, 0);
                    lemma_first_cells_kept(start, before_red, *self, 0);
                } else if start.next_step@[0].0 < n as u8 {
                    assert(current_batch_reducible@[0] == 0u32);
                    assert(slid_once(*self, 0));
                    assert(first_cells_lowered(before_red, *self, 0));
                    done = true;
                }
            }
            let max_dist = self.get_max_distance();
            proof {
                if !done {
                    assert(*self == start);
                    if spread_from_identity(start) {
                        let c2 = choose|c2: int| 0 <= c2 < start.distance@.len() && #[trigger] start.distance@[c2] >= start.distance@[0] + 2;
                        assert(start.distance@[c2] <= max_dist);
                    }
                }
            }
            let ghost after_red = *self;
            let ghost batch_mid = next_batch@;
            if cur_dist as i8 > max_dist as i8 - 2 {
                proof {
                    assert(cur_dist + 2 > max_dist);
                    assert forall|c: int|
                        0 <= c < start.distance@.len() && (c == 0 || self.distance@[c] < start.distance@[c])
                            && start.next_step@[c].0 as int <= n && reaches_two_more(self.distance@, c)
                            implies #[trigger] slid_once(*self, c) by {
                        let c2 = choose|c2: int| 0 <= c2 < self.distance@.len() && #[trigger] self.distance@[c2] >= self.distance@[c] + 2;
                        assert(self.distance@[c2] <= max_dist);
                        assert(self.distance@[c] == before_red.distance@[c] || self.distance@[c] == lvl + 1);
                        if self.distance@[c] == before_red.distance@[c] {
                            assert(before_red.distance@[c] == round_start.distance@[c]);
                            if !slid_once(round_start, c) {
                                assert(round_start.distance@[c] == round_start.distance@[c]);
                                assert(b_r.contains(c as u32));
                                let p = choose|p: int| 0 <= p < b_r.len() && b_r[p] == c as u32;
                                assert(b_r[p] as int == c);
                                assert(round_start.distance@[b_r[p] as int] == lvl);
                                if start.next_step@[c].0 < n as u8 {
                                    assert(round_start.next_step@[b_r[p] as int].0 < n as u8);
                                    assert(red_list.contains(b_r[p]));
                                    let q = choose|q: int| 0 <= q < red_list.len() && red_list[q] == b_r[p];
                                    assert(slid_once(*self, red_list[q] as int));
                                }
                            } else {
                                lemma_slid_once_kept(round_start, *self, c);
                            }
                        }
                    }
                }
                break;
            }
            let ghost before_non = *self;
            let ghost len_mid = next_batch@.len();
            self.process_codes_into(&current_batch_non_reducible, &mut next_batch);
            proof {
                assert forall|q: int| 0 <= q < non_list.len() implies before_non.distance@[#[trigger] non_list[q] as int] == lvl by {
                    let c = non_list[q] as int;
                    assert(before_red.distance@[non_list[q] as int] == lvl);
                    assert(before_non.distance@[c] == before_red.distance@[c] || before_non.distance@[c] == lvl + 1);
                    assert(before_non.distance@[c] <= before_red.distance@[c]);
                }
                assert(same_distance(before_non.distance@, non_list, lvl));
                assert(level_after(before_non.distance@, self.distance@, batch_mid, next_batch@, lvl));
                lemma_lowered_trans(start, before_non, *self);
                lemma_open_cells_nonneg(self.visited@);
                if done {
                    lemma_slid_once_kept(before_non, *self, 0);
                    lemma_first_cells_kept(start, before_non, *self, 0);
                } else if start.next_step@[0].0 == n as u8 {
                    assert(current_batch_non_reducible@[0] == 0u32);
                    assert(slid_once(*self, 0));
                    assert(first_cells_lowered(before_non, *self, 0));
                    done = true;
                } else {
                    assert(next_batch@.len() == 0);
                }
                assert forall|p: int| 0 <= p < next_batch@.len() implies self.distance@[#[trigger] next_batch@[p] as int] == lvl + 1 by {
                    if p < batch_mid.len() {
                        assert(next_batch@[p] == next_batch@.take(batch_mid.len() as int)[p]);
                        assert(after_red.distance@[batch_mid[p] as int] == lvl + 1);
                        let c = batch_mid[p] as int;
                        assert(self.distance@[c] == before_non.distance@[c] || self.distance@[c] == lvl + 1);
                    }
                }
                assert forall|c: int|
                    #![trigger self.distance@[c]]
                    0 <= c < start.distance@.len() && (c == 0 || self.distance@[c] < start.distance@[c])
                        && start.next_step@[c].0 as int <= n implies slid_once(*self, c) || next_batch@.contains(c as u32) by {
                    if self.distance@[c] < before_non.distance@[c] {
                        let tt = choose|tt: int| batch_mid.len() <= tt < next_batch@.len() && #[trigger] next_batch@[tt] as int == c;
                        assert(next_batch@[tt] == c as u32);
                    } else if before_non.distance@[c] < before_red.distance@[c] {
                        let tt = choose|tt: int| 0 <= tt < batch_mid.len() && #[trigger] batch_mid[tt] as int == c;
                        assert(next_batch@[tt] == next_batch@.take(batch_mid.len() as int)[tt]);
                        assert(next_batch@[tt] == c as u32);
                    } else {
                        assert(self.distance@[c] == round_start.distance@[c]);
                        assert(round_start.distance@[c] == round_start.distance@[c]);
                        if slid_once(round_start, c) {
                            lemma_slid_once_kept(round_start, *self, c);
                        } else {
                            assert(b_r.contains(c as u32));
                            let p = choose|p: int| 0 <= p < b_r.len() && b_r[p] == c as u32;
                            assert(b_r[p] as int == c);
                            if start.next_step@[c].0 < n as u8 {
                                assert(round_start.next_step@[b_r[p] as int].0 < n as u8);
                                assert(red_list.contains(b_r[p]));
                                let q = choose|q: int| 0 <= q < red_list.len() && red_list[q] == b_r[p];
                                assert(red_list[q] as int == c);
                                assert(slid_once(after_red, red_list[q] as int));
                                lemma_slid_once_kept(after_red, *self, c);
                            } else {
                                assert(round_start.next_step@[b_r[p] as int].0 == n as u8);
                                assert(non_list.contains(b_r[p]));
                                let q = choose|q: int| 0 <= q < non_list.len() && non_list[q] == b_r[p];
                                assert(slid_once(*self, non_list[q] as int));
                            }
                        }
                    }
                }
                lvl = lvl + 1;
            }
        }
        proof {
            assert forall|c: int|
                0 <= c < start.distance@.len() && (c == 0 || self.distance@[c] < start.distance@[c])
                    && start.next_step@[c].0 as int <= n && reaches_two_more(self.distance@, c)
                    implies #[trigger] slid_once(*self, c) by {
                assert(self.distance@[c] == self.distance@[c]);
            }
        }
    }
}

/// The distance a code of size `n` starts from before the slides: a pure
/// code's best reducible neighbour plus one (see `pure_best`), else the
/// distance of its reduced form.
pub open spec fn initial_distance(prev: Seq<PermutationsData>, rc: Seq<(usize, u32)>, n: int, c: int) -> u8 {
    if rc[c].0 as int == n {
        pure_best(prev, rc, n, c).0
    } else {
        prev[rc[c].0 as int].distance@[rc[c].1 as int]
    }
}

/// The distances every code of size `n` starts from (see
/// `initial_distance`).
pub open spec fn initial_distances(prev: Seq<PermutationsData>, rc: Seq<(usize, u32)>, n: int) -> Seq<u8> {
    Seq::new(rc.len(), |c: int| initial_distance(prev, rc, n, c))
}

/// What the batch search leaves in `fin` from the distances `d0`: nothing
/// changes when every pure code is within one of every other, and
/// otherwise the codes it reaches have been slid from (see `search_reached`).
pub open spec fn search_outcome(n: int, rc: Seq<(usize, u32)>, d0: Seq<u8>, fin: PermutationsData) -> bool {
    &&& !spread_in(n, rc, d0) ==> fin.distance@ == d0
    &&& spread_in(n, rc, d0) ==> search_reached(n, rc, d0, fin)
}

/// The table of the size 0 is sound: the empty permutation is sorted.
pub proof fn lemma_size_zero_sound(d: Seq<u8>)
    requires
        d == seq![0u8],
    ensures
        table_sound(0, d),
{
    let e = Seq::<u8>::empty();
    assert(crate::permutation::theory::is_permutation(e, 0) && lehmer_value(e) == 0int % (fact(0int as nat) as int));
    let p = perm_of_code(0, 0);
    assert(p.len() == 0);
    assert(p =~= crate::permutation::permutations_generator::identity(0));
}

/// The data of the size 0: one code, the empty permutation, at distance 0.
pub open spec fn is_size_zero_data(d: PermutationsData) -> bool {
    &&& d.size == 0
    &&& d.visited@.len() == 0
    &&& d.distance@ == seq![0u8]
    &&& d.next_step@ == seq![(0u8, 0u32)]
    &&& d.reduced_code@ == seq![(0usize, 0u32)]
    &&& d.pure_permutations@ == seq![0u32]
}

/// The data of every size below `max_size` (at least the size 0), each
/// from the ones before it: the size 0 holds the empty permutation at
/// distance 0; each later size starts from the distances of the smaller
/// sizes (see `update_init_on_basis_of_previous`) and lowers them by
/// sliding blocks (see `process_all_permutations_time_optimized`).
pub fn generate_data_for_size_up_to(max_size: usize) -> (r: Vec<PermutationsData>)
    requires
        max_size <= 13,
    ensures
        r@.len() == if max_size == 0 { 1 } else { max_size as int },
        is_size_zero_data(r@[0]),
        forall|m: int| 1 <= m < r@.len() ==> (#[trigger] r@[m]).well_formed() && r@[m].size == m,
        forall|m: int| 1 <= m < r@.len() ==> (#[trigger] r@[m]).distance@[0] == 0,
        previous_sound(r@, r@.len() as int),
        forall|m: int, c: int|
            1 <= m < r@.len() && previous_exact(r@, m) && 0 <= c < r@[m].distance@.len() && r@[m].reduced_code@[c].0 != m
                ==> #[trigger] exact_at(m, r@[m].distance@, c),
        forall|m: int, c: int|
            1 <= m < r@.len() && 0 <= c < r@[m].distance@.len() ==> #[trigger] r@[m].distance@[c] <= initial_distance(
                r@.take(m),
                r@[m].reduced_code@,
                m,
                c,
            ),
        forall|m: int|
            1 <= m < r@.len() ==> search_outcome(
                m,
                (#[trigger] r@[m]).reduced_code@,
                initial_distances(r@.take(m), r@[m].reduced_code@, m),
                r@[m],
            ),
{
    let mut permutations_data = vec![
        PermutationsData {
            size: 0,
            visited: vec![],
            distance: vec![0],
            next_step: vec![(0, 0)],
            adjacency_calculator: AdjacencyCalculator::init(0),
            reduced_code: vec![(0, 0)],
            pure_permutations: vec![0],
        },
    ];
    proof {
        lemma_small_facts();
        assert(permutations_data@[0].distance@ =~= seq![0u8]);
        assert(permutations_data@[0].next_step@ =~= seq![(0u8, 0u32)]);
        assert(permutations_data@[0].reduced_code@ =~= seq![(0usize, 0u32)]);
        assert(permutations_data@[0].pure_permutations@ =~= seq![0u32]);
        lemma_size_zero_sound(permutations_data@[0].distance@);
    }
    let mut size: usize = 1;
    while size < max_size
        invariant
            max_size <= 13,
            1 <= size,
            size <= max_size || size == 1,
            permutations_data@.len() == size,
            is_size_zero_data(permutations_data@[0]),
            forall|m: int| 1 <= m < size ==> (#[trigger] permutations_data@[m]).well_formed() && permutations_data@[m].size == m,
            forall|m: int| 1 <= m < size ==> (#[trigger] permutations_data@[m]).distance@[0] == 0,
            previous_sound(permutations_data@, size as int),
            forall|m: int, c: int|
                1 <= m < size && previous_exact(permutations_data@, m) && 0 <= c < permutations_data@[m].distance@.len()
                    && permutations_data@[m].reduced_code@[c].0 != m ==> #[trigger] exact_at(m, permutations_data@[m].distance@, c),
            forall|m: int, c: int|
                1 <= m < size && 0 <= c < permutations_data@[m].distance@.len() ==> #[trigger] permutations_data@[m].distance@[c]
                    <= initial_distance(permutations_data@.take(m), permutations_data@[m].reduced_code@, m, c),
            forall|m: int|
                1 <= m < size ==> search_outcome(
                    m,
                    (#[trigger] permutations_data@[m]).reduced_code@,
                    initial_distances(permutations_data@.take(m), permutations_data@[m].reduced_code@, m),
                    permutations_data@[m],
                ),
        decreases max_size - size,
    {
        let mut cur_size_permutations_data = PermutationsData::init(size);
        proof {
            lemma_small_facts();
            assert forall|m: int| 0 <= m < size implies (#[trigger] permutations_data@[m]).distance@.len() == fact(m as nat)
                && distances_bounded(permutations_data@[m].distance@) by {
                if m == 0 {
                    assert(distances_bounded(permutations_data@[0].distance@));
                }
            }
            assert(previous_sizes_ok(permutations_data@, size as int));
        }
        let ghost before_update = cur_size_permutations_data;
        cur_size_permutations_data.update_init_on_basis_of_previous(&permutations_data);
        let ghost after_update = cur_size_permutations_data;
        cur_size_permutations_data.process_all_permutations_time_optimized();
        let ghost prev = permutations_data@;
        permutations_data.push(cur_size_permutations_data);
        proof {
            assert(prev =~= permutations_data@.take(size as int));
            assert forall|m: int| 1 <= m < size + 1 implies #[trigger] permutations_data@.take(m) == prev.take(m) by {
                assert(permutations_data@.take(m) =~= prev.take(m));
            }
            assert forall|c: int| 0 <= c < after_update.distance@.len() implies #[trigger] after_update.distance@[c]
                == initial_distance(prev, before_update.reduced_code@, size as int, c) by {
            }
            assert(after_update.distance@ =~= initial_distances(prev, after_update.reduced_code@, size as int));
            assert forall|m: int| 1 <= m < size + 1 implies search_outcome(
                m,
                (#[trigger] permutations_data@[m]).reduced_code@,
                initial_distances(permutations_data@.take(m), permutations_data@[m].reduced_code@, m),
                permutations_data@[m],
            ) by {
                if m < size {
                    assert(permutations_data@[m] == prev[m]);
                    assert(permutations_data@.take(m) == prev.take(m));
                } else {
                    assert(permutations_data@[m] == cur_size_permutations_data);
                    assert(permutations_data@.take(m) == prev);
                    assert(cur_size_permutations_data.reduced_code == after_update.reduced_code);
                }
            }
            assert forall|m: int, c: int|
                1 <= m < size + 1 && 0 <= c < permutations_data@[m].distance@.len() implies #[trigger] permutations_data@[m].distance@[c]
                    <= initial_distance(permutations_data@.take(m), permutations_data@[m].reduced_code@, m, c) by {
                if m == size {
                    assert(permutations_data@[m] == cur_size_permutations_data);
                    assert(cur_size_permutations_data.distance@[c] <= after_update.distance@[c]);
                } else {
                    assert(permutations_data@[m] == prev[m]);
                }
            }
            lemma_sorted_reduces(size as int);
            crate::permutation::theory::lemma_fact_pos(size as nat);
            assert(before_update.reduced_code@[0] == reduced_pair(size as int, 0));
            assert(after_update.distance@[0] == prev[0].distance@[0]);
            assert(cur_size_permutations_data.distance@[0] <= after_update.distance@[0]);
            assert forall|m: int| 1 <= m < size + 1 implies (#[trigger] permutations_data@[m]).distance@[0] == 0 by {
                if m < size {
                    assert(permutations_data@[m] == prev[m]);
                }
            }
            assert(table_sound(size as int, after_update.distance@));
            assert forall|m: int, c: int|
                1 <= m < size + 1 && previous_exact(permutations_data@, m) && 0 <= c < permutations_data@[m].distance@.len()
                    && permutations_data@[m].reduced_code@[c].0 != m implies #[trigger] exact_at(m, permutations_data@[m].distance@, c) by {
                lemma_previous_exact_prefix(permutations_data@, prev, m);
                if m < size {
                    assert(permutations_data@[m] == prev[m]);
                } else {
                    let fin = cur_size_permutations_data;
                    assert(permutations_data@[m] == fin);
                    assert(exact_at(m, after_update.distance@, c));
                    assert(fin.distance@[c] <= after_update.distance@[c]);
                    assert(table_sound(m, fin.distance@));
                    if fin.distance@[c] < after_update.distance@[c] {
                        assert(sortable_within(perm_of_code(m, c), fin.distance@[c] as nat));
                        assert(!sortable_within(perm_of_code(m, c), fin.distance@[c] as nat));
                    }
                }
            }
            assert forall|m: int| 0 <= m < size + 1 implies table_sound(m, #[trigger] permutations_data@[m].distance@) by {
                if m < size {
                    assert(permutations_data@[m] == prev[m]);
                }
            }
        }
        size = size + 1;
    }
    return permutations_data;
}

/// The distance `v` a code takes with step `x`: 99 or its own distance
/// when the step is itself, else one more than that of `x`.
pub open spec fn toward_step(d: Seq<u8>, v: u8, code: int, x: int) -> bool {
    ||| (x == code && (v == 99 || v == d[code]))
    ||| (x != code && v == d[x] + 1)
}

/// The distances as they stand when code `c` is reached in a pass over the
/// codes in order: `after` below `c`, `before` from `c` on.
pub open spec fn seen_at(before: Seq<u8>, after: Seq<u8>, c: int) -> Seq<u8> {
    Seq::new(before.len(), |x: int| if x < c { after[x] } else { before[x] })
}

/// The code `x` is `code` itself or strictly nearer than it.
pub open spec fn toward(d: Seq<u8>, x: int, code: int) -> bool {
    x == code || d[x] < d[code]
}

/// Every code recorded in the table of lowest codes is a code of the size.
pub open spec fn memo_ok(m: Map<u64, usize>, total: int) -> bool {
    forall|k: u64| #[trigger] m.contains_key(k) ==> (m[k] as int) < total
}

/// Entry `t` of the walk of block `[i, j]` of `code`: the cell the block
/// lands on after `t` positions, and a code reached from `code` by sliding
/// the block at least that far.
pub open spec fn entry_ok(n: int, code: int, i: int, j: int, t: int, e: ((usize, usize, usize), usize)) -> bool {
    &&& j + t < n
    &&& e.0.0 as int == slide_code(n, code, j - i + 1, j, j + t)
    &&& e.0.1 as int == i + t
    &&& e.0.2 as int == j + t
    &&& onward(n, code, j - i + 1, j, j + t, e.1 as int)
}

/// The key of the cell `(c, i, j)` in the table of lowest codes.
pub open spec fn memo_key_of(c: int, i: int, j: int) -> int {
    c * 65536 + i * 256 + j
}

/// `v` is reached from `code` by sliding its block of `bs` items ending at
/// `j` right until it ends at some `k` from `from` on.
pub open spec fn onward(n: int, code: int, bs: int, j: int, from: int, v: int) -> bool {
    exists|k: int| from <= k < n && v == #[trigger] slide_code(n, code, bs, j, k)
}

/// Every code recorded for a cell `(c, i, j)` is `c` or reached from `c`
/// by sliding its block `[i, j]` further right.
pub open spec fn memo_slides(m: Map<u64, usize>, n: int) -> bool {
    forall|c: int, i: int, j: int|
        0 <= c < fact(n as nat) && 0 <= i <= j < n && #[trigger] m.contains_key(memo_key_of(c, i, j) as u64) ==> onward(
            n,
            c,
            j - i + 1,
            j,
            j,
            m[memo_key_of(c, i, j) as u64] as int,
        )
}

/// Different cells have different keys.
proof fn lemma_memo_key_injective(c1: int, i1: int, j1: int, c2: int, i2: int, j2: int)
    requires
        0 <= c1 < 479001600,
        0 <= c2 < 479001600,
        0 <= i1 < 256,
        0 <= j1 < 256,
        0 <= i2 < 256,
        0 <= j2 < 256,
        memo_key_of(c1, i1, j1) == memo_key_of(c2, i2, j2),
    ensures
        c1 == c2 && i1 == i2 && j1 == j2,
{
    let a1 = i1 * 256 + j1;
    let a2 = i2 * 256 + j2;
    assert(0 <= a1 < 65536) by (nonlinear_arith)
        requires
            0 <= i1 < 256,
            0 <= j1 < 256,
            a1 == i1 * 256 + j1,
    ;
    assert(0 <= a2 < 65536) by (nonlinear_arith)
        requires
            0 <= i2 < 256,
            0 <= j2 < 256,
            a2 == i2 * 256 + j2,
    ;
    assert(c1 == c2) by (nonlinear_arith)
        requires
            c1 * 65536 + a1 == c2 * 65536 + a2,
            0 <= a1 < 65536,
            0 <= a2 < 65536,
    ;
    assert(i1 == i2) by (nonlinear_arith)
        requires
            i1 * 256 + j1 == i2 * 256 + j2,
            0 <= j1 < 256,
            0 <= j2 < 256,
    ;
}

/// A cell `(c, i, j)` of the table of lowest codes with the code recorded
/// for it: `c` itself or a code reached from `c` by sliding block `[i, j]`
/// further right.
pub open spec fn memo_entry_ok(n: int, e: ((usize, usize, usize), usize)) -> bool {
    &&& e.0.1 <= e.0.2 < n
    &&& onward(n, e.0.0 as int, e.0.2 - e.0.1 + 1, e.0.2 as int, e.0.2 as int, e.1 as int)
}

/// `v` is at most one more than the distance in `d` of some code reached
/// from `code` by sliding its block `[i, j]` right.
pub open spec fn block_bound(n: int, d: Seq<u8>, code: int, v: u8, i: int, j: int) -> bool {
    exists|y: int| #![trigger d[y]] block_hit(n, code, i, j, y) && v <= d[y] + 1
}

/// Some entry of `vals` holds a code reached by sliding block `[i, j]` of
/// `code` right.
pub open spec fn block_covered(n: int, code: int, vals: Seq<((usize, usize, usize), usize)>, i: int, j: int) -> bool {
    exists|t: int| 0 <= t < vals.len() && #[trigger] block_hit(n, code, i, j, vals[t].1 as int)
}

/// `y` is reached from `code` by sliding its block `[i, j]` right by at
/// least one position.
pub open spec fn block_hit(n: int, code: int, i: int, j: int, y: int) -> bool {
    onward(n, code, j - i + 1, j, j + 1, y)
}

/// The code a step names: the code itself or one slide away.
pub open spec fn step_ok(n: int, code: int, x: int) -> bool {
    x == code || one_slide_from(n, code, x)
}

/// The keys of the table of lowest codes stay below `2^48`.
proof fn lemma_memo_key_range(c: int, i: int, j: int)
    requires
        0 <= c < 479001600,
        0 <= i < 256,
        0 <= j < 256,
    ensures
        0 <= memo_key_of(c, i, j) < 281474976710656,
{
    assert(0 <= c * 65536 + i * 256 + j < 281474976710656) by (nonlinear_arith)
        requires
            0 <= c < 479001600,
            0 <= i < 256,
            0 <= j < 256,
    ;
}

/// An entry of a walk is a valid cell of the table with its code.
proof fn lemma_entry_memo_ok(n: int, code: int, i: int, j: int, t: int, e: ((usize, usize, usize), usize))
    requires
        0 <= i <= j,
        0 <= t,
        entry_ok(n, code, i, j, t, e),
    ensures
        memo_entry_ok(n, e),
        step_ok(n, code, e.1 as int),
{
    let kk = choose|kk: int| j + t <= kk < n && e.1 as int == #[trigger] slide_code(n, code, j - i + 1, j, kk);
    lemma_slide_compose(n, code, j - i + 1, j, j + t, kk);
    assert(e.1 as int == slide_code(n, e.0.0 as int, e.0.2 - e.0.1 + 1, e.0.2 as int, kk));
    if kk > j {
        assert(1 <= j - i + 1 <= j + 1 && j < kk < n && e.1 as int == slide_code(n, code, j - i + 1, j, kk));
    }
}

/// Recording a valid cell keeps every recorded code a slide of its cell.
proof fn lemma_memo_insert(m: Map<u64, usize>, n: int, e: ((usize, usize, usize), usize))
    requires
        1 <= n <= 12,
        fact(n as nat) <= 479001600,
        (e.0.0 as int) < fact(n as nat),
        memo_slides(m, n),
        memo_entry_ok(n, e),
    ensures
        memo_slides(m.insert(memo_key_of(e.0.0 as int, e.0.1 as int, e.0.2 as int) as u64, e.1), n),
{
    let key = memo_key_of(e.0.0 as int, e.0.1 as int, e.0.2 as int);
    let m2 = m.insert(key as u64, e.1);
    lemma_memo_key_range(e.0.0 as int, e.0.1 as int, e.0.2 as int);
    assert forall|c: int, i: int, j: int|
        0 <= c < fact(n as nat) && 0 <= i <= j < n && #[trigger] m2.contains_key(memo_key_of(c, i, j) as u64) implies onward(
        n,
        c,
        j - i + 1,
        j,
        j,
        m2[memo_key_of(c, i, j) as u64] as int,
    ) by {
        let k2 = memo_key_of(c, i, j);
        lemma_memo_key_range(c, i, j);
        if k2 == key {
            lemma_memo_key_injective(c, i, j, e.0.0 as int, e.0.1 as int, e.0.2 as int);
        } else {
            assert(k2 as u64 != key as u64);
            assert(m.contains_key(k2 as u64));
        }
    }
}

/// Sliding a block to `k` and then on to `k2` is sliding it to `k2`.
proof fn lemma_slide_compose(n: int, c: int, bs: int, j: int, k: int, k2: int)
    requires
        j <= k <= k2,
    ensures
        slide_code(n, slide_code(n, c, bs, j, k), bs, k, k2) == slide_code(n, c, bs, j, k2),
    decreases k2 - k,
{
    if k2 > k {
        lemma_slide_compose(n, c, bs, j, k, k2 - 1);
    }
}

/// The key of the cell `(code, first, last)` in the table of lowest codes.
fn memo_key(code: usize, i: usize, j: usize) -> (r: u64)
    requires
        code < 479001600,
        i < 256,
        j < 256,
    ensures
        r == code * 65536 + i * 256 + j,
{
    (code as u64) * 65536 + (i as u64) * 256 + (j as u64)
}

/// The cells block `[i, j]` of `code` lands on sliding right, each with a
/// code to move towards: `code` itself first, then each code reached,
/// stopping after the first cell found in the table (taking its recorded
/// code); then, from the last back to the first, each takes the code of
/// the next one when that one is nearer.
#[verifier::spinoff_prover]
#[verifier::rlimit(40)]
fn get_all_updates_for_block_movement_for_code(
    size: usize,
    code: usize,
    i: usize,
    j: usize,
    distance_memo: &HashMap<u64, usize>,
    permutation_data: &PermutationsData,
) -> (r: Vec<((usize, usize, usize), usize)>)
    requires
        permutation_data.well_formed(),
        size == permutation_data.size,
        (code as int) < fact(size as nat),
        i <= j < size - 1,
        memo_ok(distance_memo@, fact(size as nat) as int),
        memo_slides(distance_memo@, size as int),
    ensures
        r@.len() >= 2,
        forall|t: int| 0 <= t < r@.len() ==> #[trigger] entry_ok(size as int, code as int, i as int, j as int, t, r@[t]),
        r@[0].0 == (code, i, j),
        forall|t: int|
            0 <= t < r@.len() ==> {
                let e = #[trigger] r@[t];
                &&& (e.0.0 as int) < fact(size as nat)
                &&& e.0.1 < size
                &&& e.0.2 < size
                &&& (e.1 as int) < fact(size as nat)
            },
        forall|t: int|
            0 <= t < r@.len() - 1 ==> permutation_data.distance@[(#[trigger] r@[t]).1 as int]
                <= permutation_data.distance@[r@[t + 1].1 as int],
        toward(permutation_data.distance@, r@[0].1 as int, code as int),
{
    broadcast use vstd::std_specs::hash::group_hash_axioms;

    let ghost n = size as int;
    let ghost total = fact(n as nat) as int;
    proof {
        lemma_small_facts();
        lemma_fact_monotone(n as nat, 12);
    }
    let block_size = (j - i) + 1;
    let mut cur_code = code;
    let mut updated_values: Vec<((usize, usize, usize), usize)> = vec![];
    updated_values.push(((code, i, j), code));
    let mut k = j + 1;
    proof {
        assert(entry_ok(n, code as int, i as int, j as int, 0, updated_values@[0])) by {
            assert(code as int == slide_code(n, code as int, j - i + 1, j as int, j as int + 0));
        }
    }
    while k < size
        invariant_except_break
            cur_code as int == slide_code(n, code as int, j - i + 1, j as int, k - 1),
            updated_values@.len() == k - j,
        invariant
            memo_slides(distance_memo@, n),
            forall|t: int| 0 <= t < updated_values@.len() ==> #[trigger] entry_ok(n, code as int, i as int, j as int, t, updated_values@[t]),
            permutation_data.well_formed(),
            n == size,
            size == permutation_data.size,
            total == fact(n as nat),
            total <= 479001600,
            (code as int) < total,
            i <= j < n - 1,
            block_size == j - i + 1,
            j + 1 <= k <= n,
            memo_ok(distance_memo@, total),
            updated_values@.len() >= 1,
            updated_values@[0].0 == (code, i, j),
            updated_values@[0].1 == code,
            forall|t: int|
                0 <= t < updated_values@.len() ==> {
                    let e = #[trigger] updated_values@[t];
                    &&& (e.0.0 as int) < total
                    &&& e.0.1 < size
                    &&& e.0.2 < size
                    &&& (e.1 as int) < total
                },
        ensures
            updated_values@.len() >= 2,
        decreases n - k,
    {
        let new_pos_for_optimized = k as i8 - block_size as i8 - 1;
        proof {
            lemma_slide_code_range(n, code as int, j - i + 1, j as int, k - 1);
            permutation_data.adjacency_calculator.lemma_well_formed_facts();
        }
        let delta_for_move = permutation_data.adjacency_calculator.get_delta_for_moving_item(
            cur_code as u32,
            k,
            new_pos_for_optimized,
        );
        proof {
            lemma_slide_code_range(n, code as int, j - i + 1, j as int, k as int);
            assert(cur_code + delta_for_move == slide_code(n, code as int, j - i + 1, j as int, k as int));
        }
        cur_code = (cur_code as i32 + delta_for_move) as usize;
        let block_shift = k - j;
        let new_i = i + block_shift;
        let new_j = j + block_shift;
        let key = (cur_code, new_i, new_j);
        let memo_k = memo_key(cur_code, new_i, new_j);
        let ghost t0 = updated_values@.len() as int;
        proof {
            assert(t0 == k - j);
            assert(cur_code as int == slide_code(n, code as int, j - i + 1, j as int, j + t0));
        }
        if distance_memo.contains_key(&memo_k) {
            let value = *distance_memo.get(&memo_k).unwrap();
            proof {
                assert(memo_k == memo_key_of(cur_code as int, new_i as int, new_j as int) as u64);
                assert(distance_memo@.contains_key(memo_key_of(cur_code as int, new_i as int, new_j as int) as u64));
                let kk = choose|kk: int| new_j <= kk < n && value as int == #[trigger] slide_code(n, cur_code as int, new_j - new_i + 1, new_j as int, kk);
                lemma_slide_compose(n, code as int, j - i + 1, j as int, k as int, kk);
                assert(value as int == slide_code(n, code as int, j - i + 1, j as int, kk));
            }
            updated_values.push((key, value));
            proof {
                assert(entry_ok(n, code as int, i as int, j as int, t0, updated_values@[t0]));
                assert forall|t: int| 0 <= t < updated_values@.len() implies #[trigger] entry_ok(n, code as int, i as int, j as int, t, updated_values@[t]) by {
                    if t < t0 {
                        assert(updated_values@[t] == updated_values@.drop_last()[t]);
                    }
                }
            }
            break;
        } else {
            updated_values.push((key, cur_code));
            proof {
                assert(entry_ok(n, code as int, i as int, j as int, t0, updated_values@[t0]));
                assert forall|t: int| 0 <= t < updated_values@.len() implies #[trigger] entry_ok(n, code as int, i as int, j as int, t, updated_values@[t]) by {
                    if t < t0 {
                        assert(updated_values@[t] == updated_values@.drop_last()[t]);
                    }
                }
            }
        }
        k = k + 1;
    }
    let n_len = updated_values.len();
    for pos in 1..n_len
        invariant
            n_len == updated_values@.len(),
            n_len >= 2,
            forall|t: int| 0 <= t < updated_values@.len() ==> #[trigger] entry_ok(n, code as int, i as int, j as int, t, updated_values@[t]),
            permutation_data.well_formed(),
            total == fact(n as nat),
            n == size,
            size == permutation_data.size,
            updated_values@[0].0 == (code, i, j),
            (code as int) < total,
            toward(permutation_data.distance@, updated_values@[0].1 as int, code as int),
            forall|t: int|
                0 <= t < updated_values@.len() ==> {
                    let e = #[trigger] updated_values@[t];
                    &&& (e.0.0 as int) < total
                    &&& e.0.1 < size
                    &&& e.0.2 < size
                    &&& (e.1 as int) < total
                },
            forall|t: int|
                n_len - pos <= t < n_len - 1 ==> permutation_data.distance@[(#[trigger] updated_values@[t]).1 as int]
                    <= permutation_data.distance@[updated_values@[t + 1].1 as int],
    {
        let a = n_len - 1 - pos;
        let b = n_len - pos;
        let ghost before = updated_values@;
        if permutation_data.distance[updated_values[a].1] > permutation_data.distance[updated_values[b].1] {
            let mut entry = updated_values[a];
            entry.1 = updated_values[b].1;
            updated_values.set(a, entry);
            proof {
                assert forall|t: int| 0 <= t < updated_values@.len() implies {
                    let e = #[trigger] updated_values@[t];
                    &&& (e.0.0 as int) < total
                    &&& e.0.1 < size
                    &&& e.0.2 < size
                    &&& (e.1 as int) < total
                } by {
                    if t != a {
                        assert(updated_values@[t] == before[t]);
                    }
                }
                assert forall|t: int| 0 <= t < updated_values@.len() implies #[trigger] entry_ok(n, code as int, i as int, j as int, t, updated_values@[t]) by {
                    if t != a {
                        assert(updated_values@[t] == before[t]);
                    } else {
                        assert(entry_ok(n, code as int, i as int, j as int, b as int, before[b as int]));
                        assert(entry_ok(n, code as int, i as int, j as int, a as int, before[a as int]));
                        let kk = choose|kk: int| j + b <= kk < n && before[b as int].1 as int == #[trigger] slide_code(n, code as int, j - i + 1, j as int, kk);
                        assert(j + a <= kk < n && updated_values@[t].1 as int == slide_code(n, code as int, j - i + 1, j as int, kk));
                    }
                }
                assert forall|t: int|
                    n_len - (pos + 1) <= t < n_len - 1 implies permutation_data.distance@[(#[trigger] updated_values@[t]).1 as int]
                        <= permutation_data.distance@[updated_values@[t + 1].1 as int] by {
                    if t != a {
                        assert(updated_values@[t] == before[t]);
                        assert(updated_values@[t + 1] == before[t + 1]);
                    }
                }
                if a != 0 {
                    assert(updated_values@[0] == before[0]);
                }
            }
        }
    }
    updated_values
}

/// Moves `code` towards the nearest code among those its blocks land on
/// (see `get_all_updates_for_block_movement_for_code`): its distance
/// becomes that code's plus one (its own distance when the nearest is
/// itself, 99 when none is below 99) and its step that code, which is
/// `code` or one slide away; for every block the new distance is at most
/// one more than that of some code the block reaches by sliding, and known
/// distances stay achievable. Each cell not yet in the table is recorded
/// with its code.
fn update_pure_code_adjacent_to_reducible(
    size: usize,
    code: usize,
    distance_memo: &mut HashMap<u64, usize>,
    permutation_data: &mut PermutationsData,
)
    requires
        old(permutation_data).well_formed(),
        size == old(permutation_data).size,
        (code as int) < fact(size as nat),
        memo_ok(old(distance_memo)@, fact(size as nat) as int),
        memo_slides(old(distance_memo)@, size as int),
    ensures
        final(permutation_data).well_formed(),
        final(permutation_data).size == old(permutation_data).size,
        final(permutation_data).visited == old(permutation_data).visited,
        final(permutation_data).adjacency_calculator == old(permutation_data).adjacency_calculator,
        final(permutation_data).reduced_code == old(permutation_data).reduced_code,
        final(permutation_data).pure_permutations == old(permutation_data).pure_permutations,
        final(permutation_data).distance@ == old(permutation_data).distance@.update(
            code as int,
            final(permutation_data).distance@[code as int],
        ),
        final(permutation_data).next_step@ == old(permutation_data).next_step@.update(
            code as int,
            (size as u8, final(permutation_data).next_step@[code as int].1),
        ),
        (final(permutation_data).next_step@[code as int].1 as int) < fact(size as nat),
        size >= 2 ==> final(permutation_data).distance@[code as int] <= old(permutation_data).distance@[code as int],
        toward_step(
            old(permutation_data).distance@,
            final(permutation_data).distance@[code as int],
            code as int,
            final(permutation_data).next_step@[code as int].1 as int,
        ),
        step_ok(size as int, code as int, final(permutation_data).next_step@[code as int].1 as int),
        forall|i: int, j: int|
            0 <= i <= j < size - 1 ==> #[trigger] block_bound(
                size as int,
                old(permutation_data).distance@,
                code as int,
                final(permutation_data).distance@[code as int],
                i,
                j,
            ),
        table_sound(size as int, old(permutation_data).distance@) ==> table_sound(
            size as int,
            final(permutation_data).distance@,
        ),
        memo_ok(final(distance_memo)@, fact(size as nat) as int),
        memo_slides(final(distance_memo)@, size as int),
        forall|k: u64| #[trigger] old(distance_memo)@.contains_key(k) ==> final(distance_memo)@.contains_key(k)
            && final(distance_memo)@[k] == old(distance_memo)@[k],
{
    broadcast use vstd::std_specs::hash::group_hash_axioms;

    let ghost n = size as int;
    let ghost total = fact(n as nat) as int;
    proof {
        lemma_small_facts();
        lemma_fact_monotone(n as nat, 12);
    }
    let mut updatable_values: Vec<((usize, usize, usize), usize)> = vec![];
    let ghost d = permutation_data.distance@;
    if size >= 1 {
        let blocks = get_all_blocks_for_size(size);
        proof {
            lemma_blocks_bounds(n - 1, n - 1);
            if n >= 2 {
                lemma_blocks_upto_holds(n - 1, n - 1, 0, 0);
            }
        }
        let nb = blocks.len();
        for b in 0..nb
            invariant
                nb == blocks@.len(),
                blocks@ == blocks_for_size(n),
                forall|t: int| 0 <= t < blocks@.len() ==> {
                    let x = #[trigger] blocks@[t];
                    x.0 <= x.1 < n - 1
                },
                permutation_data.well_formed(),
                n == size,
                size == permutation_data.size,
                total == fact(n as nat),
                (code as int) < total,
                memo_ok(distance_memo@, total),
                memo_slides(distance_memo@, n),
                d == permutation_data.distance@,
                nb >= 1 ==> (b >= 1 ==> exists|t: int| 0 <= t < updatable_values@.len() && toward(d, (#[trigger] updatable_values@[t]).1 as int, code as int)),
                forall|t: int|
                    0 <= t < updatable_values@.len() ==> memo_entry_ok(n, #[trigger] updatable_values@[t]) && step_ok(
                        n,
                        code as int,
                        updatable_values@[t].1 as int,
                    ),
                forall|b2: int|
                    0 <= b2 < b ==> #[trigger] block_covered(
                        n,
                        code as int,
                        updatable_values@,
                        blocks@[b2].0 as int,
                        blocks@[b2].1 as int,
                    ),
                forall|t: int|
                    0 <= t < updatable_values@.len() ==> {
                        let e = #[trigger] updatable_values@[t];
                        &&& (e.0.0 as int) < total
                        &&& e.0.1 < size
                        &&& e.0.2 < size
                        &&& (e.1 as int) < total
                    },
        {
            let pair = blocks[b];
            let part = get_all_updates_for_block_movement_for_code(size, code, pair.0, pair.1, distance_memo, permutation_data);
            let plen = part.len();
            let ghost before_vals = updatable_values@;
            for t in 0..plen
                invariant
                    plen == part@.len(),
                    updatable_values@.len() == before_vals.len() + t,
                    forall|p: int| 0 <= p < before_vals.len() ==> updatable_values@[p] == #[trigger] before_vals[p],
                    forall|p: int| 0 <= p < t ==> updatable_values@[before_vals.len() + p] == #[trigger] part@[p],
                    forall|p: int|
                        0 <= p < part@.len() ==> #[trigger] entry_ok(n, code as int, pair.0 as int, pair.1 as int, p, part@[p]),
                    pair.0 <= pair.1,
                    forall|p: int|
                        0 <= p < updatable_values@.len() ==> memo_entry_ok(n, #[trigger] updatable_values@[p]) && step_ok(
                            n,
                            code as int,
                            updatable_values@[p].1 as int,
                        ),
                    forall|t: int|
                        0 <= t < part@.len() ==> {
                            let e = #[trigger] part@[t];
                            &&& (e.0.0 as int) < total
                            &&& e.0.1 < size
                            &&& e.0.2 < size
                            &&& (e.1 as int) < total
                        },
                    forall|t: int|
                        0 <= t < updatable_values@.len() ==> {
                            let e = #[trigger] updatable_values@[t];
                            &&& (e.0.0 as int) < total
                            &&& e.0.1 < size
                            &&& e.0.2 < size
                            &&& (e.1 as int) < total
                        },
            {
                proof {
                    lemma_entry_memo_ok(n, code as int, pair.0 as int, pair.1 as int, t as int, part@[t as int]);
                }
                updatable_values.push(part[t]);
            }
            proof {
                assert(part@.len() >= 2);
                let w = before_vals.len() as int;
                assert(updatable_values@[w + 0] == part@[0]);
                assert(toward(d, updatable_values@[w].1 as int, code as int));
                assert(updatable_values@[w + 1] == part@[1]);
                assert(entry_ok(n, code as int, pair.0 as int, pair.1 as int, 1, part@[1]));
                assert(block_hit(n, code as int, pair.0 as int, pair.1 as int, updatable_values@[w + 1].1 as int));
                assert forall|b2: int|
                    0 <= b2 < b + 1 implies #[trigger] block_covered(
                    n,
                    code as int,
                    updatable_values@,
                    blocks@[b2].0 as int,
                    blocks@[b2].1 as int,
                ) by {
                    if b2 < b {
                        assert(block_covered(n, code as int, before_vals, blocks@[b2].0 as int, blocks@[b2].1 as int));
                        let t = choose|t: int|
                            0 <= t < before_vals.len() && #[trigger] block_hit(
                                n,
                                code as int,
                                blocks@[b2].0 as int,
                                blocks@[b2].1 as int,
                                before_vals[t].1 as int,
                            );
                        assert(updatable_values@[t] == before_vals[t]);
                        assert(block_hit(n, code as int, blocks@[b2].0 as int, blocks@[b2].1 as int, updatable_values@[t].1 as int));
                    } else {
                        assert(block_hit(n, code as int, blocks@[b2].0 as int, blocks@[b2].1 as int, updatable_values@[w + 1].1 as int));
                    }
                }
            }
        }
        proof {
            assert forall|i: int, j: int| 0 <= i <= j < n - 1 implies #[trigger] block_covered(n, code as int, updatable_values@, i, j) by {
                lemma_blocks_upto_holds(n - 1, n - 1, i, j);
                let b2 = choose|b2: int| 0 <= b2 < blocks@.len() && #[trigger] blocks@[b2] == (i as usize, j as usize);
                assert(blocks@[b2].0 as int == i && blocks@[b2].1 as int == j);
                assert(block_covered(n, code as int, updatable_values@, blocks@[b2].0 as int, blocks@[b2].1 as int));
            }
        }
    }
    let mut min_adjacent_code = code;
    let mut min_adjacent_dist: u8 = 99;
    let ulen = updatable_values.len();
    let ghost memo0 = distance_memo@;
    for t in 0..ulen
        invariant
            ulen == updatable_values@.len(),
            permutation_data.well_formed(),
            n == size,
            size == permutation_data.size,
            total == fact(n as nat),
            total <= 479001600,
            (code as int) < total,
            (min_adjacent_code as int) < total,
            min_adjacent_dist <= 99,
            memo_ok(distance_memo@, total),
            forall|k: u64| #[trigger] memo0.contains_key(k) ==> distance_memo@.contains_key(k) && distance_memo@[k] == memo0[k],
            forall|t: int|
                0 <= t < updatable_values@.len() ==> {
                    let e = #[trigger] updatable_values@[t];
                    &&& (e.0.0 as int) < total
                    &&& e.0.1 < size
                    &&& e.0.2 < size
                    &&& (e.1 as int) < total
                },
            d == permutation_data.distance@,
            (exists|t2: int| 0 <= t2 < t && toward(d, (#[trigger] updatable_values@[t2]).1 as int, code as int)) ==> min_adjacent_dist
                <= d[code as int],
            toward_step(d, min_adjacent_dist, code as int, min_adjacent_code as int),
            memo_slides(distance_memo@, n),
            1 <= n <= 12,
            forall|t: int|
                0 <= t < updatable_values@.len() ==> memo_entry_ok(n, #[trigger] updatable_values@[t]) && step_ok(
                    n,
                    code as int,
                    updatable_values@[t].1 as int,
                ),
            step_ok(n, code as int, min_adjacent_code as int),
            forall|t2: int|
                0 <= t2 < t ==> (#[trigger] updatable_values@[t2]).1 != code ==> min_adjacent_dist <= d[updatable_values@[t2].1 as int]
                    + 1,
            forall|i: int, j: int| 0 <= i <= j < n - 1 ==> #[trigger] block_covered(n, code as int, updatable_values@, i, j),
    {
        let pair = updatable_values[t];
        let ghost min_before = min_adjacent_dist;
        let key = memo_key(pair.0.0, pair.0.1, pair.0.2);
        if !distance_memo.contains_key(&key) {
            proof {
                lemma_memo_insert(distance_memo@, n, pair);
                lemma_memo_key_range(pair.0.0 as int, pair.0.1 as int, pair.0.2 as int);
                assert(key == memo_key_of(pair.0.0 as int, pair.0.1 as int, pair.0.2 as int) as u64);
            }
            distance_memo.insert(key, pair.1);
        }
        if permutation_data.distance[pair.1] < min_adjacent_dist {
            min_adjacent_code = pair.1;
            if min_adjacent_code != code {
                min_adjacent_dist = permutation_data.distance[min_adjacent_code] + 1;
            } else {
                min_adjacent_dist = permutation_data.distance[min_adjacent_code];
            }
        }
        proof {
            if exists|t2: int| 0 <= t2 < t + 1 && toward(d, (#[trigger] updatable_values@[t2]).1 as int, code as int) {
                let t2 = choose|t2: int| 0 <= t2 < t + 1 && toward(d, (#[trigger] updatable_values@[t2]).1 as int, code as int);
                if t2 < t {
                    assert(min_before <= d[code as int]);
                } else {
                    assert(toward(d, pair.1 as int, code as int));
                }
            }
        }
    }
    proof {
        if n >= 2 {
            let t2 = choose|t2: int| 0 <= t2 < updatable_values@.len() && toward(d, (#[trigger] updatable_values@[t2]).1 as int, code as int);
            assert(toward(d, updatable_values@[t2].1 as int, code as int));
        }
        assert forall|i: int, j: int| 0 <= i <= j < n - 1 implies #[trigger] block_bound(n, d, code as int, min_adjacent_dist, i, j) by {
            assert(block_covered(n, code as int, updatable_values@, i, j));
            let t2 = choose|t2: int|
                0 <= t2 < updatable_values@.len() && #[trigger] block_hit(n, code as int, i, j, updatable_values@[t2].1 as int);
            let y = updatable_values@[t2].1 as int;
            let kk = choose|kk: int| j + 1 <= kk < n && y == #[trigger] slide_code(n, code as int, j - i + 1, j, kk);
            lemma_slide_moves(n, code as int, j - i + 1, j, kk);
            assert(updatable_values@[t2].1 != code);
            assert(min_adjacent_dist <= d[y] + 1);
        }
    }
    permutation_data.distance.set(code, min_adjacent_dist);
    permutation_data.next_step.set(code, (size as u8, min_adjacent_code as u32));
    proof {
        let fd = permutation_data.distance@;
        if table_sound(n, d) {
            assert forall|c: int| 0 <= c < fd.len() && fd[c] < 99 implies sortable_within(perm_of_code(n, c), #[trigger] fd[c] as nat) by {
                if c == code {
                    let x = min_adjacent_code as int;
                    if x != c {
                        lemma_slide_is_block_move(n, c, x);
                        assert(sortable_within(perm_of_code(n, x), d[x] as nat));
                        lemma_sortable_step(perm_of_code(n, c), perm_of_code(n, x), d[x] as nat);
                    }
                } else {
                    assert(fd[c] == d[c]);
                }
            }
        }
    }
}

impl PermutationsData {
    /// Every code, in order, moves towards the nearest code its blocks land
    /// on (see `update_pure_code_adjacent_to_reducible`), sharing one table
    /// of the lowest code recorded for each cell: each code's distance
    /// becomes 99, its own, or one more than that of the code its step
    /// names (as that distance stood when the code was reached), that code
    /// being the code itself or one slide away; for every block of a code,
    /// its new distance is at most one more than that of some code the block
    /// reaches by sliding right (see `block_bound`); known distances stay
    /// achievable (see `table_sound`); from the size 2 on no distance grows.
    fn set_initial_distance_for_pure_permutations(&mut self)
        requires
            old(self).well_formed(),
        ensures
            final(self).well_formed(),
            final(self).size == old(self).size,
            final(self).visited == old(self).visited,
            final(self).adjacency_calculator == old(self).adjacency_calculator,
            final(self).reduced_code == old(self).reduced_code,
            final(self).pure_permutations == old(self).pure_permutations,
            forall|c: int|
                0 <= c < final(self).next_step@.len() ==> (#[trigger] final(self).next_step@[c]).0 == old(self).size as u8
                    && (final(self).next_step@[c].1 as int) < fact(old(self).size as nat),
            old(self).size >= 2 ==> forall|c: int|
                0 <= c < old(self).distance@.len() ==> #[trigger] final(self).distance@[c] <= old(self).distance@[c],
            forall|c: int|
                0 <= c < old(self).distance@.len() ==> toward_step(
                    seen_at(old(self).distance@, final(self).distance@, c),
                    #[trigger] final(self).distance@[c],
                    c,
                    final(self).next_step@[c].1 as int,
                ),
            forall|c: int|
                0 <= c < final(self).next_step@.len() ==> step_ok(
                    old(self).size as int,
                    c,
                    (#[trigger] final(self).next_step@[c]).1 as int,
                ),
            forall|c: int, i: int, j: int|
                0 <= c < old(self).distance@.len() && 0 <= i <= j < old(self).size - 1 ==> #[trigger] block_bound(
                    old(self).size as int,
                    seen_at(old(self).distance@, final(self).distance@, c),
                    c,
                    final(self).distance@[c],
                    i,
                    j,
                ),
            table_sound(old(self).size as int, old(self).distance@) ==> table_sound(
                old(self).size as int,
                final(self).distance@,
            ),
    {
        broadcast use vstd::std_specs::hash::group_hash_axioms;

        let ghost n = self.size as int;
        let mut lowest_distance_map: HashMap<u64, usize> = HashMap::new();
        proof {
            lemma_factorials_table(n);
            assert(lowest_distance_map@ == Map::<u64, usize>::empty());
        }
        let total = FACTORIALS[self.size];
        for code in 0..total
            invariant
                total == fact(n as nat),
                self.well_formed(),
                n == self.size,
                self.size == old(self).size,
                self.visited == old(self).visited,
                self.adjacency_calculator == old(self).adjacency_calculator,
                self.reduced_code == old(self).reduced_code,
                self.pure_permutations == old(self).pure_permutations,
                memo_ok(lowest_distance_map@, total as int),
                forall|c: int|
                    0 <= c < code ==> (#[trigger] self.next_step@[c]).0 == n as u8 && (self.next_step@[c].1 as int) < total,
                old(self).distance@.len() == total,
                forall|c: int| code <= c < total ==> #[trigger] self.distance@[c] == old(self).distance@[c],
                n >= 2 ==> forall|c: int| 0 <= c < code ==> #[trigger] self.distance@[c] <= old(self).distance@[c],
                forall|c: int|
                    0 <= c < code ==> toward_step(
                        seen_at(old(self).distance@, self.distance@, c),
                        #[trigger] self.distance@[c],
                        c,
                        self.next_step@[c].1 as int,
                    ),
                memo_slides(lowest_distance_map@, n),
                forall|c: int| 0 <= c < code ==> step_ok(n, c, (#[trigger] self.next_step@[c]).1 as int),
                forall|c: int, i: int, j: int|
                    0 <= c < code && 0 <= i <= j < n - 1 ==> #[trigger] block_bound(
                        n,
                        seen_at(old(self).distance@, self.distance@, c),
                        c,
                        self.distance@[c],
                        i,
                        j,
                    ),
                table_sound(n, old(self).distance@) ==> table_sound(n, self.distance@),
        {
            let size = self.size;
            let ghost before = self.next_step@;
            let ghost before_d = self.distance@;
            update_pure_code_adjacent_to_reducible(size, code as usize, &mut lowest_distance_map, self);
            proof {
                assert forall|c: int| 0 <= c < code + 1 implies step_ok(n, c, (#[trigger] self.next_step@[c]).1 as int) by {
                    if c < code {
                        assert(self.next_step@[c] == before[c]);
                    }
                }
                assert forall|c: int, i: int, j: int|
                    0 <= c < code + 1 && 0 <= i <= j < n - 1 implies #[trigger] block_bound(
                    n,
                    seen_at(old(self).distance@, self.distance@, c),
                    c,
                    self.distance@[c],
                    i,
                    j,
                ) by {
                    if c < code {
                        assert(seen_at(old(self).distance@, self.distance@, c) =~= seen_at(old(self).distance@, before_d, c));
                        assert(self.distance@[c] == before_d[c]);
                    } else {
                        assert(seen_at(old(self).distance@, self.distance@, c) =~= before_d);
                    }
                }
                assert forall|c: int| 0 <= c < code + 1 implies (#[trigger] self.next_step@[c]).0 == n as u8 && (
                self.next_step@[c].1 as int) < total by {
                    if c < code {
                        assert(self.next_step@[c] == before[c]);
                    }
                }
                assert forall|c: int| code + 1 <= c < total implies #[trigger] self.distance@[c] == old(self).distance@[c] by {
                    assert(self.distance@[c] == before_d[c]);
                }
                assert forall|c: int|
                    0 <= c < code + 1 implies toward_step(
                        Seq::new(
                            old(self).distance@.len(),
                            |x: int|
                                if x < c {
                                    self.distance@[x]
                                } else {
                                    old(self).distance@[x]
                                },
                        ),
                        #[trigger] self.distance@[c],
                        c,
                        self.next_step@[c].1 as int,
                    ) by {
                    assert(old(self).distance@.len() == total);
                    assert(before_d.len() == total);
                    assert(self.distance@.len() == total);
                    let now = Seq::new(
                        old(self).distance@.len(),
                        |x: int|
                            if x < c {
                                self.distance@[x]
                            } else {
                                old(self).distance@[x]
                            },
                    );
                    if c < code {
                        let prev = Seq::new(
                            old(self).distance@.len(),
                            |x: int|
                                if x < c {
                                    before_d[x]
                                } else {
                                    old(self).distance@[x]
                                },
                        );
                        assert(toward_step(prev, before_d[c], c, before[c].1 as int));
                        assert(self.distance@[c] == before_d[c]);
                        assert(self.next_step@[c] == before[c]);
                        let x = before[c].1 as int;
                        if x != c {
                            assert(x < total);
                            if x < c {
                                assert(self.distance@[x] == before_d[x]);
                            }
                            assert(now[x] == prev[x]);
                        }
                    } else {
                        let x = self.next_step@[c].1 as int;
                        if x != c {
                            assert(x < total);
                            if x < c {
                                assert(self.distance@[x] == before_d[x]);
                            } else {
                                assert(before_d[x] == old(self).distance@[x]);
                            }
                            assert(now[x] == before_d[x]);
                        } else {
                            assert(before_d[c] == old(self).distance@[c]);
                        }
                    }
                }
                if n >= 2 {
                    assert forall|c: int| 0 <= c < code + 1 implies #[trigger] self.distance@[c] <= old(self).distance@[c] by {
                        if c < code {
                            assert(self.distance@[c] == before_d[c]);
                        } else {
                            assert(before_d[c] == old(self).distance@[c]);
                        }
                    }
                }
            }
        }
    }
}

/// `(code, distance)` pairs in order of distance.
pub open spec fn sorted_by_distance(s: Seq<(u32, u8)>) -> bool {
    forall|a: int, b: int| 0 <= a < b < s.len() ==> (#[trigger] s[a]).1 <= (#[trigger] s[b]).1
}

/// The pairs sorted by distance, equal distances keeping their order: each
/// pair is inserted after the ones already placed at its distance or less.
fn sort_by_distance(items: Vec<(u32, u8)>) -> (r: Vec<(u32, u8)>)
    ensures
        r@.to_multiset() == items@.to_multiset(),
        sorted_by_distance(r@),
{
    broadcast use vstd::seq_lib::group_to_multiset_ensures;

    let mut sorted: Vec<(u32, u8)> = vec![];
    let len = items.len();
    for t in 0..len
        invariant
            len == items@.len(),
            sorted@.to_multiset() == items@.take(t as int).to_multiset(),
            sorted_by_distance(sorted@),
    {
        let x = items[t];
        let mut p: usize = 0;
        while p < sorted.len() && sorted[p].1 <= x.1
            invariant
                0 <= p <= sorted@.len(),
                sorted_by_distance(sorted@),
                forall|a: int| 0 <= a < p ==> (#[trigger] sorted@[a]).1 <= x.1,
            decreases sorted@.len() - p,
        {
            p = p + 1;
        }
        let ghost before = sorted@;
        sorted.insert(p, x);
        proof {
            vstd::seq_lib::to_multiset_insert(before, p as int, x);
            assert(items@.take(t + 1) =~= items@.take(t as int).push(x));
            vstd::seq_lib::to_multiset_build(items@.take(t as int), x);
            assert forall|a: int, b: int| 0 <= a < b < sorted@.len() implies (#[trigger] sorted@[a]).1 <= (
            #[trigger] sorted@[b]).1 by {
                if a < p {
                    if b < p {
                        assert(sorted@[a] == before[a] && sorted@[b] == before[b]);
                    } else if b == p {
                        assert(sorted@[a] == before[a]);
                    } else {
                        assert(sorted@[a] == before[a] && sorted@[b] == before[b - 1]);
                    }
                } else if a == p {
                    if p < before.len() {
                        assert(sorted@[b] == before[b - 1]);
                        assert(before[p as int].1 > x.1);
                        if b - 1 > p {
                            assert(before[p as int].1 <= before[b - 1].1);
                        }
                    }
                } else {
                    assert(sorted@[a] == before[a - 1] && sorted@[b] == before[b - 1]);
                }
            }
        }
    }
    proof {
        assert(items@.take(len as int) =~= items@);
    }
    sorted
}

impl PermutationsData {
    /// Lists the reducible codes with their distances and sorts them by
    /// distance, then leaves everything as it was.
    fn update_distance_and_next_step_for_pure_permutations_optimized(&mut self, permutations_data: &Vec<PermutationsData>)
        requires
            old(self).well_formed(),
        ensures
            *final(self) == *old(self),
    {
        let ghost n = self.size as int;
        proof {
            lemma_factorials_table(n);
        }
        let total = FACTORIALS[self.size];
        let mut reduced_codes: Vec<(u32, u8)> = vec![];
        for code in 0..total
            invariant
                total == fact(n as nat),
                self.well_formed(),
                n == self.size,
        {
            if self.reduced_code[code as usize].0 < self.size {
                reduced_codes.push((code, self.distance[code as usize]));
            }
        }
        let reduced_codes = sort_by_distance(reduced_codes);
        return;
    }
}

/// The sum of the distances of the first `k` codes listed.
pub open spec fn distance_sum(d: Seq<u8>, codes: Seq<u32>, k: int) -> int
    decreases k,
{
    if k <= 0 {
        0
    } else {
        distance_sum(d, codes, k - 1) + d[codes[k - 1] as int]
    }
}

/// How many of the first `k` codes listed are at distance `x`.
pub open spec fn distance_count(d: Seq<u8>, codes: Seq<u32>, x: int, k: int) -> int
    decreases k,
{
    if k <= 0 {
        0
    } else {
        distance_count(d, codes, x, k - 1) + if d[codes[k - 1] as int] as int == x { 1int } else { 0int }
    }
}

proof fn lemma_distance_sum_bounds(d: Seq<u8>, codes: Seq<u32>, k: int)
    requires
        0 <= k <= codes.len(),
        forall|t: int| 0 <= t < codes.len() ==> (#[trigger] codes[t] as int) < d.len(),
        distances_bounded(d),
    ensures
        0 <= distance_sum(d, codes, k) <= 99 * k,
    decreases k,
{
    if k > 0 {
        lemma_distance_sum_bounds(d, codes, k - 1);
    }
}

proof fn lemma_distance_count_bounds(d: Seq<u8>, codes: Seq<u32>, x: int, k: int)
    requires
        0 <= k,
    ensures
        0 <= distance_count(d, codes, x, k) <= k,
    decreases k,
{
    if k > 0 {
        lemma_distance_count_bounds(d, codes, x, k - 1);
    }
}

impl PermutationsData {
    /// The number of pure codes, the sum of their distances, and how many
    /// of them are at each distance from 0 to 99.
    pub fn distance_summary(&self) -> (r: (usize, u64, Vec<u32>))
        requires
            forall|t: int|
                0 <= t < self.pure_permutations@.len() ==> (#[trigger] self.pure_permutations@[t] as int) < self.distance@.len(),
            distances_bounded(self.distance@),
            self.pure_permutations@.len() <= u32::MAX,
        ensures
            r.0 == self.pure_permutations@.len(),
            r.1 == distance_sum(self.distance@, self.pure_permutations@, self.pure_permutations@.len() as int),
            r.2@.len() == 100,
            forall|x: int| 0 <= x < 100 ==> #[trigger] r.2@[x] == distance_count(
                self.distance@,
                self.pure_permutations@,
                x,
                self.pure_permutations@.len() as int,
            ),
    {
        let size = self.pure_permutations.len();
        let mut total_distance: u64 = 0;
        let mut distance_counts: Vec<u32> = vec![];
        for x in 0..100usize
            invariant
                distance_counts@.len() == x,
                forall|y: int| 0 <= y < x ==> #[trigger] distance_counts@[y] == 0,
        {
            distance_counts.push(0);
        }
        for pos in 0..size
            invariant
                size == self.pure_permutations@.len(),
                size <= u32::MAX,
                distances_bounded(self.distance@),
                forall|t: int|
                    0 <= t < self.pure_permutations@.len() ==> (#[trigger] self.pure_permutations@[t] as int) < self.distance@.len(),
                total_distance == distance_sum(self.distance@, self.pure_permutations@, pos as int),
                distance_counts@.len() == 100,
                forall|x: int| 0 <= x < 100 ==> #[trigger] distance_counts@[x] == distance_count(
                    self.distance@,
                    self.pure_permutations@,
                    x,
                    pos as int,
                ),
        {
            let code = self.pure_permutations[pos];
            let distance = self.distance[code as usize];
            proof {
                lemma_distance_sum_bounds(self.distance@, self.pure_permutations@, pos + 1);
                lemma_distance_count_bounds(self.distance@, self.pure_permutations@, distance as int, pos as int);
            }
            total_distance = total_distance + distance as u64;
            let ct = distance_counts[distance as usize];
            distance_counts.set(distance as usize, ct + 1);
        }
        (size, total_distance, distance_counts)
    }
}

} // verus!
