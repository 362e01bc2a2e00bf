//! Distances with less memory: per code one status and, per block start, a
//! 16-bit mask of the block ends already reached, in place of a full table
//! of visited blocks; codes are processed batch by batch, by distance.
use vstd::prelude::*;
use crate::permutation::theory::{fact, lehmer_value, lemma_lehmer_range, lemma_small_facts, lemma_fact_monotone, lemma_fact_pos};
use crate::permutation::constants::{FACTORIALS, lemma_factorials_table};
use crate::permutation::permutation_label::{
    get_permutation_from_lehmer_code, get_lehmer_code_from_permutation, perm_of_code, lemma_perm_of_code, codes_decode,
};
use crate::permutation::permutation_helper::{reduce_permutation, reduce_spec, lemma_reduce_is_permutation};
use crate::permutation::adjacency_calculator::AdjacencyCalculator;
use crate::permutation::mask_bits::{bit16, lemma_bit_test, lemma_bit_or_shift};
use crate::permutation::distance_calculator::{
    blocks_for_size, get_all_blocks_for_size, lemma_blocks_bounds, slide_code, lemma_slide_code_range, distances_bounded,
    one_slide_from, lemma_blocks_upto_holds,
};
use crate::permutation::block_walk::{sortable_within, lemma_sortable_step, table_sound, lemma_slide_is_block_move};
use crate::permutation::distance_calculator::exact_at;

verus! {

/// Where a code stands in the batches.
#[derive(PartialEq, Eq, Structural, Debug, Clone, Copy)]
pub enum ProcessingStatus {
    UNPROCESSED,
    PROCESSING,
    PROCESSED,
}

/// Distances of the permutations of one size (by Lehmer code), with the
/// reduced form of each, a status per code, and per code and block start a
/// mask of the block ends already reached.
pub struct PermutationsData {
    pub size: usize,
    pub distance: Vec<u8>,
    pub adjacency_calculator: AdjacencyCalculator,
    pub reduced_code: Vec<(usize, u32)>,
    pub processing_status: Vec<ProcessingStatus>,
    pub end_mask: Vec<Vec<u16>>,
}

/// The size and code of the reduced form of the permutation of code `c`.
pub open spec fn reduced_form(n: int, c: int) -> (usize, u32) {
    let r = reduce_spec(perm_of_code(n, c));
    (r.len() as usize, lehmer_value(r) as u32)
}

/// The reduced forms of every code of size `n`.
pub open spec fn reduced_forms_ok(n: int, rc: Seq<(usize, u32)>) -> bool {
    &&& rc.len() == fact(n as nat)
    &&& forall|c: int| 0 <= c < rc.len() ==> #[trigger] rc[c] == reduced_form(n, c)
}

/// `m` is a `count x n` array of masks.
pub open spec fn mask_shape(m: Seq<Vec<u16>>, count: int, n: int) -> bool {
    &&& m.len() == count
    &&& forall|c: int| 0 <= c < count ==> (#[trigger] m[c])@.len() == n
}

/// The data of every size below `n` has one distance, at most 99, per code.
pub open spec fn previous_ok(prev: Seq<PermutationsData>, n: int) -> bool {
    &&& prev.len() >= n
    &&& forall|m: int|
        0 <= m < n ==> (#[trigger] prev[m]).distance@.len() == fact(m as nat) && distances_bounded(prev[m].distance@)
}

/// The tables of every size below `n` are sound (see `table_sound`).
pub open spec fn sound_before(prev: Seq<PermutationsData>, n: int) -> bool {
    forall|m: int| 0 <= m < n ==> table_sound(m, #[trigger] prev[m].distance@)
}

/// Every distance of the tables of the sizes below `n` is the least number
/// of block transpositions that sorts the permutation of its code.
pub open spec fn exact_before(prev: Seq<PermutationsData>, n: int) -> bool {
    &&& sound_before(prev, n)
    &&& forall|m: int, c: int| 0 <= m < n && 0 <= c < prev[m].distance@.len() ==> #[trigger] exact_at(m, prev[m].distance@, c)
}

proof fn lemma_exact_before_prefix(a: Seq<PermutationsData>, b: Seq<PermutationsData>, m: int)
    requires
        0 <= m <= a.len(),
        m <= b.len(),
        forall|i: int| 0 <= i < m ==> a[i] == b[i],
    ensures
        exact_before(a, m) == exact_before(b, m),
{
    if exact_before(a, m) {
        assert forall|i: int| 0 <= i < m implies table_sound(i, #[trigger] b[i].distance@) by {
            assert(a[i] == b[i]);
            assert(table_sound(i, a[i].distance@));
        }
        assert forall|i: int, c: int| 0 <= i < m && 0 <= c < b[i].distance@.len() implies #[trigger] exact_at(i, b[i].distance@, c) by {
            assert(a[i] == b[i]);
            assert(exact_at(i, a[i].distance@, c));
        }
    }
    if exact_before(b, m) {
        assert forall|i: int| 0 <= i < m implies table_sound(i, #[trigger] a[i].distance@) by {
            assert(a[i] == b[i]);
            assert(table_sound(i, b[i].distance@));
        }
        assert forall|i: int, c: int| 0 <= i < m && 0 <= c < a[i].distance@.len() implies #[trigger] exact_at(i, a[i].distance@, c) by {
            assert(a[i] == b[i]);
            assert(exact_at(i, b[i].distance@, c));
        }
    }
}

/// The reduced form of a code: a size at most `n` and a code of that size.
pub proof fn lemma_reduced_form_bounds(n: int, c: int)
    requires
        1 <= n <= 12,
        codes_decode(n),
        0 <= c < fact(n as nat),
    ensures
        reduced_form(n, c).0 <= n,
        (reduced_form(n, c).1 as int) < fact(reduced_form(n, c).0 as nat),
{
    let p = perm_of_code(n, c);
    lemma_reduce_is_permutation(p);
    let r = reduce_spec(p);
    lemma_lehmer_range(r, r.len() as int);
    lemma_small_facts();
    lemma_fact_monotone(r.len() as nat, 12);
}

/// The sorted permutation reduces to the empty permutation, of size 0 and
/// code 0.
pub proof fn lemma_sorted_reduced_form(n: int)
    requires
        1 <= n <= 12,
    ensures
        reduced_form(n, 0) == (0usize, 0u32),
{
    crate::permutation::distance_calculator::lemma_sorted_reduces(n);
    crate::permutation::permutation_helper::lemma_reduce_identity(n);
    assert(lehmer_value(Seq::<u8>::empty()) == 0);
}

impl PermutationsData {
    /// The tables of a size `n` from 1 to 12 have their shapes, the reduced
    /// forms are those of the permutations, and distances are at most 99.
    pub open spec fn well_formed(&self) -> bool {
        let n = self.size as int;
        &&& 1 <= n <= 12
        &&& codes_decode(n)
        &&& self.adjacency_calculator.well_formed()
        &&& self.adjacency_calculator.dimension() == n
        &&& self.distance@.len() == fact(n as nat)
        &&& distances_bounded(self.distance@)
        &&& reduced_forms_ok(n, self.reduced_code@)
        &&& self.processing_status@.len() == fact(n as nat)
        &&& mask_shape(self.end_mask@, fact(n as nat) as int, n)
    }

    /// The distance of a code.
    fn get_distance(&self, code: usize) -> (r: u8)
        requires
            code < self.distance@.len(),
        ensures
            r == self.distance@[code as int],
    {
        self.distance[code]
    }

    /// The largest distance, 0 when there is none.
    fn get_max_dist(&self) -> (r: u8)
        ensures
            forall|c: int| 0 <= c < self.distance@.len() ==> #[trigger] self.distance@[c] <= r,
            self.distance@.len() == 0 ==> r == 0,
            self.distance@.len() > 0 ==> exists|c: int| 0 <= c < self.distance@.len() && r == #[trigger] self.distance@[c],
    {
        let mut best: Option<u8> = None;
        let len = self.distance.len();
        for t in 0..len
            invariant
                len == self.distance@.len(),
                t == 0 <==> best is None,
                forall|c: int| 0 <= c < t ==> #[trigger] self.distance@[c] <= best->0,
                t > 0 ==> exists|c: int| 0 <= c < t && best->0 == #[trigger] self.distance@[c],
        {
            let d = self.distance[t];
            match best {
                Some(x) => {
                    if d > x {
                        best = Some(d);
                    }
                },
                None => {
                    best = Some(d);
                },
            }
        }
        match best {
            Some(x) => x,
            None => 0,
        }
    }

    /// Sets the distance of a code.
    fn set_distance(&mut self, code: usize, dist: u8)
        requires
            code < old(self).distance@.len(),
        ensures
            final(self).distance@ == old(self).distance@.update(code as int, dist),
            final(self).size == old(self).size,
            final(self).adjacency_calculator == old(self).adjacency_calculator,
            final(self).reduced_code == old(self).reduced_code,
            final(self).processing_status == old(self).processing_status,
            final(self).end_mask == old(self).end_mask,
    {
        self.distance.set(code, dist);
    }

    /// Whether the block `[start_pos, end_pos]` of `code` has been reached.
    fn get_end_mask_bit(&self, code: usize, start_pos: usize, end_pos: usize) -> (r: bool)
        requires
            code < self.end_mask@.len(),
            start_pos < self.end_mask@[code as int]@.len(),
            end_pos < 16,
        ensures
            r == bit16(self.end_mask@[code as int]@[start_pos as int], end_pos as u16),
    {
        proof {
            lemma_bit_test(self.end_mask@[code as int]@[start_pos as int], end_pos as u16);
        }
        return self.end_mask[code][start_pos] & (1u16 << end_pos as u16) != 0;
    }

    /// Marks the block `[start_pos, end_pos]` of `code` reached.
    fn set_end_mask_bit(&mut self, code: usize, start_pos: usize, end_pos: usize)
        requires
            code < old(self).end_mask@.len(),
            start_pos < old(self).end_mask@[code as int]@.len(),
            end_pos < 16,
        ensures
            final(self).end_mask@.len() == old(self).end_mask@.len(),
            forall|c: int| 0 <= c < old(self).end_mask@.len() && c != code ==> #[trigger] final(self).end_mask@[c] == old(self).end_mask@[c],
            final(self).end_mask@[code as int]@ == old(self).end_mask@[code as int]@.update(
                start_pos as int,
                old(self).end_mask@[code as int]@[start_pos as int] | (1u16 << end_pos as u16),
            ),
            final(self).size == old(self).size,
            final(self).distance == old(self).distance,
            final(self).adjacency_calculator == old(self).adjacency_calculator,
            final(self).reduced_code == old(self).reduced_code,
            final(self).processing_status == old(self).processing_status,
    {
        let m = self.end_mask[code][start_pos] | (1u16 << end_pos as u16);
        self.end_mask[code][start_pos] = m;
    }

    /// The status of a code.
    fn get_processing_status(&self, code: usize) -> (r: ProcessingStatus)
        requires
            code < self.processing_status@.len(),
        ensures
            r == self.processing_status@[code as int],
    {
        self.processing_status[code]
    }

    /// Sets the status of a code.
    fn set_processing_status(&mut self, code: usize, new_processing_status: ProcessingStatus)
        requires
            code < old(self).processing_status@.len(),
        ensures
            final(self).processing_status@ == old(self).processing_status@.update(code as int, new_processing_status),
            final(self).size == old(self).size,
            final(self).distance == old(self).distance,
            final(self).adjacency_calculator == old(self).adjacency_calculator,
            final(self).reduced_code == old(self).reduced_code,
            final(self).end_mask == old(self).end_mask,
    {
        self.processing_status.set(code, new_processing_status);
    }

    /// The codes of the size, in order.
    fn get_code_range(&self) -> (r: Vec<usize>)
        requires
            self.size <= 12,
        ensures
            r@.len() == fact(self.size as nat),
            forall|c: int| 0 <= c < r@.len() ==> #[trigger] r@[c] == c,
    {
        proof {
            lemma_factorials_table(self.size as int);
        }
        let total = FACTORIALS[self.size] as usize;
        let mut codes: Vec<usize> = vec![];
        for c in 0..total
            invariant
                total == fact(self.size as nat),
                codes@.len() == c,
                forall|x: int| 0 <= x < c ==> #[trigger] codes@[x] == x,
        {
            codes.push(c);
        }
        codes
    }

    /// The reduced form of every code.
    fn init_reduced_code(&mut self)
        requires
            1 <= old(self).size <= 12,
        ensures
            reduced_forms_ok(old(self).size as int, final(self).reduced_code@),
            final(self).size == old(self).size,
            final(self).distance == old(self).distance,
            final(self).adjacency_calculator == old(self).adjacency_calculator,
            final(self).processing_status == old(self).processing_status,
            final(self).end_mask == old(self).end_mask,
    {
        let ghost n = self.size as int;
        let codes = self.get_code_range();
        let mut reduced: Vec<(usize, u32)> = vec![];
        let len = codes.len();
        for t in 0..len
            invariant
                len == codes@.len(),
                len == fact(n as nat),
                n == self.size,
                1 <= n <= 12,
                forall|c: int| 0 <= c < codes@.len() ==> #[trigger] codes@[c] == c,
                reduced@.len() == t,
                forall|c: int| 0 <= c < t ==> #[trigger] reduced@[c] == reduced_form(n, c),
        {
            let code = codes[t];
            let permutation = get_permutation_from_lehmer_code(self.size, code);
            proof {
                vstd::arithmetic::div_mod::lemma_small_mod(code as nat, fact(n as nat));
                lemma_perm_of_code(permutation@, n, code as int);
                lemma_reduce_is_permutation(permutation@);
            }
            let reduced_permutation = reduce_permutation(&permutation);
            let reduced_code = get_lehmer_code_from_permutation(&reduced_permutation);
            reduced.push((reduced_permutation.len(), reduced_code));
        }
        self.reduced_code = reduced;
    }

    /// Distances to start from: 99 (unknown) for the pure codes, the
    /// distance of the reduced form for the others.
    fn init_distance(&mut self, previous_size_data: &Vec<PermutationsData>)
        requires
            1 <= old(self).size <= 12,
            codes_decode(old(self).size as int),
            reduced_forms_ok(old(self).size as int, old(self).reduced_code@),
            previous_ok(previous_size_data@, old(self).size as int),
        ensures
            final(self).distance@ == Seq::new(
                fact(old(self).size as nat),
                |c: int|
                    if old(self).reduced_code@[c].0 == old(self).size {
                        99u8
                    } else {
                        previous_size_data@[old(self).reduced_code@[c].0 as int].distance@[old(self).reduced_code@[c].1 as int]
                    },
            ),
            distances_bounded(final(self).distance@),
            sound_before(previous_size_data@, old(self).size as int) ==> table_sound(
                old(self).size as int,
                final(self).distance@,
            ),
            final(self).size == old(self).size,
            final(self).reduced_code == old(self).reduced_code,
            final(self).adjacency_calculator == old(self).adjacency_calculator,
            final(self).processing_status == old(self).processing_status,
            final(self).end_mask == old(self).end_mask,
    {
        let ghost n = self.size as int;
        let codes = self.get_code_range();
        let mut distance: Vec<u8> = vec![];
        let len = codes.len();
        for t in 0..len
            invariant
                len == codes@.len(),
                len == fact(n as nat),
                n == self.size,
                1 <= n <= 12,
                codes_decode(n),
                reduced_forms_ok(n, self.reduced_code@),
                previous_ok(previous_size_data@, n),
                forall|c: int| 0 <= c < codes@.len() ==> #[trigger] codes@[c] == c,
                distance@.len() == t,
                forall|c: int|
                    0 <= c < t ==> #[trigger] distance@[c] == if self.reduced_code@[c].0 == self.size {
                        99u8
                    } else {
                        previous_size_data@[self.reduced_code@[c].0 as int].distance@[self.reduced_code@[c].1 as int]
                    },
                forall|c: int| 0 <= c < t ==> #[trigger] distance@[c] <= 99,
        {
            let code = codes[t];
            if self.reduced_code[code].0 == self.size {
                distance.push(99);
            } else {
                proof {
                    lemma_reduced_form_bounds(n, code as int);
                }
                let reduced_size = self.reduced_code[code].0;
                let reduced_code = self.reduced_code[code].1 as usize;
                let reduced_dist = previous_size_data[reduced_size].get_distance(reduced_code);
                distance.push(reduced_dist);
            }
        }
        self.distance = distance;
        proof {
            if sound_before(previous_size_data@, n) {
                assert forall|c: int| 0 <= c < self.distance@.len() && self.distance@[c] < 99 implies sortable_within(
                    perm_of_code(n, c),
                    #[trigger] self.distance@[c] as nat,
                ) by {
                    let rc = self.reduced_code@;
                    assert(rc[c] == reduced_form(n, c));
                    if rc[c].0 != self.size {
                        lemma_reduced_form_bounds(n, c);
                        let p = perm_of_code(n, c);
                        let r = reduce_spec(p);
                        lemma_reduce_is_permutation(p);
                        lemma_lehmer_range(r, r.len() as int);
                        lemma_small_facts();
                        lemma_fact_monotone(r.len() as nat, 12);
                        let rs = rc[c].0 as int;
                        assert(rs == r.len());
                        assert(rc[c].1 as int == lehmer_value(r));
                        assert(table_sound(rs, previous_size_data@[rs].distance@));
                        crate::permutation::distance_calculator::lemma_reduced_sound(n, c, previous_size_data@[rs].distance@);
                    }
                }
            }
            assert(self.distance@ =~= Seq::new(
                fact(n as nat),
                |c: int|
                    if old(self).reduced_code@[c].0 == old(self).size {
                        99u8
                    } else {
                        previous_size_data@[old(self).reduced_code@[c].0 as int].distance@[old(self).reduced_code@[c].1 as int]
                    },
            ));
        }
    }

    /// No block end reached yet.
    fn init_end_mask(&mut self)
        requires
            old(self).size <= 12,
        ensures
            mask_shape(final(self).end_mask@, fact(old(self).size as nat) as int, old(self).size as int),
            forall|c: int, a: int|
                0 <= c < fact(old(self).size as nat) && 0 <= a < old(self).size ==> #[trigger] final(self).end_mask@[c]@[a] == 0,
            final(self).size == old(self).size,
            final(self).distance == old(self).distance,
            final(self).reduced_code == old(self).reduced_code,
            final(self).adjacency_calculator == old(self).adjacency_calculator,
            final(self).processing_status == old(self).processing_status,
    {
        let codes = self.get_code_range();
        let mut end_mask: Vec<Vec<u16>> = vec![];
        let len = codes.len();
        let size = self.size;
        for t in 0..len
            invariant
                len == codes@.len(),
                end_mask@.len() == t,
                forall|c: int| 0 <= c < t ==> (#[trigger] end_mask@[c])@.len() == size,
                forall|c: int, a: int| 0 <= c < t && 0 <= a < size ==> #[trigger] end_mask@[c]@[a] == 0,
        {
            let mut masks: Vec<u16> = vec![];
            for i in 0..size
                invariant
                    masks@.len() == i,
                    forall|a: int| 0 <= a < i ==> #[trigger] masks@[a] == 0,
            {
                masks.push(0);
            }
            end_mask.push(masks);
        }
        self.end_mask = end_mask;
    }

    /// Every code unprocessed.
    fn init_processing_status(&mut self)
        requires
            old(self).size <= 12,
        ensures
            final(self).processing_status@.len() == fact(old(self).size as nat),
            forall|c: int|
                0 <= c < final(self).processing_status@.len() ==> #[trigger] final(self).processing_status@[c]
                    == ProcessingStatus::UNPROCESSED,
            final(self).size == old(self).size,
            final(self).distance == old(self).distance,
            final(self).reduced_code == old(self).reduced_code,
            final(self).adjacency_calculator == old(self).adjacency_calculator,
            final(self).end_mask == old(self).end_mask,
    {
        let codes = self.get_code_range();
        let mut status: Vec<ProcessingStatus> = vec![];
        let len = codes.len();
        for t in 0..len
            invariant
                len == codes@.len(),
                status@.len() == t,
                forall|c: int| 0 <= c < t ==> #[trigger] status@[c] == ProcessingStatus::UNPROCESSED,
        {
            status.push(ProcessingStatus::UNPROCESSED);
        }
        self.processing_status = status;
    }
}

/// Where block `[i, j]` of `code` lands once its last item reaches `m`:
/// the code reached and the block's new first and last positions.
pub open spec fn landing(n: int, code: int, i: int, j: int, m: int) -> (usize, usize, usize) {
    (slide_code(n, code, j - i + 1, j, m) as usize, (i + (m - j)) as usize, m as usize)
}

/// The cell `(code, first, last)` can be reached: its code is unprocessed
/// and that block end is not marked.
pub open spec fn cell_free(data: PermutationsData, t: (usize, usize, usize)) -> bool {
    &&& data.processing_status@[t.0 as int] == ProcessingStatus::UNPROCESSED
    &&& !bit16(data.end_mask@[t.0 as int]@[t.1 as int], t.2 as u16)
}

/// Every cell the block lands on up to position `m` can be reached.
pub open spec fn free_walk(data: PermutationsData, n: int, code: int, i: int, j: int, m: int) -> bool
    decreases m - j,
{
    if m <= j {
        true
    } else {
        free_walk(data, n, code, i, j, m - 1) && cell_free(data, landing(n, code, i, j, m))
    }
}

/// The cells the block lands on before position `k`, up to the first one
/// that cannot be reached.
pub open spec fn free_cells(data: PermutationsData, n: int, code: int, i: int, j: int, k: int) -> Seq<(usize, usize, usize)>
    decreases k - j,
{
    if k <= j + 1 {
        Seq::empty()
    } else if free_walk(data, n, code, i, j, k - 1) {
        free_cells(data, n, code, i, j, k - 1).push(landing(n, code, i, j, k - 1))
    } else {
        free_cells(data, n, code, i, j, k - 1)
    }
}

/// The cells sliding block `[i, j]` of `code` reaches: none when that block
/// end of `code` is marked already.
pub open spec fn block_slide(data: PermutationsData, code: int, i: int, j: int) -> Seq<(usize, usize, usize)> {
    if bit16(data.end_mask@[code]@[i], j as u16) {
        Seq::empty()
    } else {
        free_cells(data, data.size as int, code, i, j, data.size as int)
    }
}

/// `block_slide` of the first `t` blocks, one after the other.
pub open spec fn slides_of_blocks(data: PermutationsData, code: int, blocks: Seq<(usize, usize)>, t: int) -> Seq<
    (usize, usize, usize),
>
    decreases t,
{
    if t <= 0 {
        Seq::empty()
    } else {
        slides_of_blocks(data, code, blocks, t - 1) + block_slide(data, code, blocks[t - 1].0 as int, blocks[t - 1].1 as int)
    }
}

/// The cells reached by sliding every block of `code`.
pub open spec fn adjacent_cells(data: PermutationsData, code: int) -> Seq<(usize, usize, usize)> {
    let blocks = blocks_for_size(data.size as int);
    slides_of_blocks(data, code, blocks, blocks.len() as int)
}

/// Some cell listed is of code `c`.
pub open spec fn touches(s: Seq<(usize, usize, usize)>, c: int) -> bool {
    exists|t: int| 0 <= t < s.len() && (#[trigger] s[t]).0 as int == c
}

/// The cells are in range and can be reached.
pub open spec fn cells_ok(data: PermutationsData, s: Seq<(usize, usize, usize)>) -> bool {
    let n = data.size as int;
    forall|t: int|
        0 <= t < s.len() ==> {
            let x = #[trigger] s[t];
            &&& (x.0 as int) < fact(n as nat)
            &&& (x.1 as int) < n
            &&& (x.2 as int) < n
            &&& cell_free(data, x)
        }
}

proof fn lemma_free_closed(data: PermutationsData, n: int, code: int, i: int, j: int, k: int, m: int)
    requires
        j < k <= m,
        !free_walk(data, n, code, i, j, k),
    ensures
        !free_walk(data, n, code, i, j, m),
        free_cells(data, n, code, i, j, m + 1) == free_cells(data, n, code, i, j, k),
    decreases m - k,
{
    if m > k {
        lemma_free_closed(data, n, code, i, j, k, m - 1);
    }
}

proof fn lemma_free_cells_ok(data: PermutationsData, code: int, i: int, j: int, k: int)
    requires
        data.well_formed(),
        0 <= code < fact(data.size as nat),
        0 <= i <= j,
        k <= data.size,
    ensures
        cells_ok(data, free_cells(data, data.size as int, code, i, j, k)),
        forall|t: int|
            0 <= t < free_cells(data, data.size as int, code, i, j, k).len() ==> one_slide_from(
                data.size as int,
                code,
                (#[trigger] free_cells(data, data.size as int, code, i, j, k)[t]).0 as int,
            ),
    decreases k - j,
{
    let n = data.size as int;
    if k > j + 1 {
        lemma_free_cells_ok(data, code, i, j, k - 1);
        lemma_slide_code_range(n, code, j - i + 1, j, k - 1);
        lemma_small_facts();
        lemma_fact_monotone(n as nat, 12);
        let cells = free_cells(data, n, code, i, j, k - 1);
        if free_walk(data, n, code, i, j, k - 1) {
            let cur = cells.push(landing(n, code, i, j, k - 1));
            assert forall|t: int| 0 <= t < cur.len() implies {
                let x = #[trigger] cur[t];
                &&& (x.0 as int) < fact(n as nat)
                &&& (x.1 as int) < n
                &&& (x.2 as int) < n
                &&& cell_free(data, x)
            } by {
                if t < cells.len() {
                    assert(cur[t] == cells[t]);
                }
            }
            let c = slide_code(n, code, j - i + 1, j, k - 1);
            assert(one_slide_from(n, code, c));
            assert forall|t: int| 0 <= t < cur.len() implies one_slide_from(n, code, (#[trigger] cur[t]).0 as int) by {
                if t < cells.len() {
                    assert(cur[t] == cells[t]);
                } else {
                    assert(cur[t].0 as int == c);
                }
            }
        }
    }
}

proof fn lemma_slides_ok(data: PermutationsData, code: int, blocks: Seq<(usize, usize)>, t: int)
    requires
        data.well_formed(),
        0 <= code < fact(data.size as nat),
        0 <= t <= blocks.len(),
        forall|s: int| 0 <= s < blocks.len() ==> (#[trigger] blocks[s]).0 <= blocks[s].1,
    ensures
        cells_ok(data, slides_of_blocks(data, code, blocks, t)),
        forall|s: int|
            0 <= s < slides_of_blocks(data, code, blocks, t).len() ==> one_slide_from(
                data.size as int,
                code,
                (#[trigger] slides_of_blocks(data, code, blocks, t)[s]).0 as int,
            ),
    decreases t,
{
    if t > 0 {
        lemma_slides_ok(data, code, blocks, t - 1);
        let b = blocks[t - 1];
        let a = slides_of_blocks(data, code, blocks, t - 1);
        let w = block_slide(data, code, b.0 as int, b.1 as int);
        if !bit16(data.end_mask@[code]@[b.0 as int], b.1 as u16) {
            lemma_free_cells_ok(data, code, b.0 as int, b.1 as int, data.size as int);
        }
        let n = data.size as int;
        assert forall|s: int| 0 <= s < (a + w).len() implies one_slide_from(n, code, (#[trigger] (a + w)[s]).0 as int) by {
            if s < a.len() {
                assert((a + w)[s] == a[s]);
            } else {
                assert((a + w)[s] == w[s - a.len()]);
            }
        }
        assert forall|s: int| 0 <= s < (a + w).len() implies {
            let x = #[trigger] (a + w)[s];
            &&& (x.0 as int) < fact(n as nat)
            &&& (x.1 as int) < n
            &&& (x.2 as int) < n
            &&& cell_free(data, x)
        } by {
            if s < a.len() {
                assert((a + w)[s] == a[s]);
            } else {
                assert((a + w)[s] == w[s - a.len()]);
            }
        }
    }
}

/// The first cell block `[i, j]` lands on is reached when it can be.
proof fn lemma_first_cell_reached(data: PermutationsData, n: int, code: int, i: int, j: int, k: int)
    requires
        j + 2 <= k,
        cell_free(data, landing(n, code, i, j, j + 1)),
    ensures
        free_cells(data, n, code, i, j, k).contains(landing(n, code, i, j, j + 1)),
    decreases k - j,
{
    assert(free_walk(data, n, code, i, j, j));
    assert(free_walk(data, n, code, i, j, j + 1));
    if k == j + 2 {
        assert(free_cells(data, n, code, i, j, j + 1) =~= Seq::<(usize, usize, usize)>::empty());
        assert(free_cells(data, n, code, i, j, k) == free_cells(data, n, code, i, j, j + 1).push(landing(n, code, i, j, j + 1)));
        assert(free_cells(data, n, code, i, j, k)[0] == landing(n, code, i, j, j + 1));
    } else {
        lemma_first_cell_reached(data, n, code, i, j, k - 1);
        let prev = free_cells(data, n, code, i, j, k - 1);
        let w = choose|w: int| 0 <= w < prev.len() && prev[w] == landing(n, code, i, j, j + 1);
        if free_walk(data, n, code, i, j, k - 1) {
            assert(free_cells(data, n, code, i, j, k)[w] == prev[w]);
        }
    }
}

/// A cell reached by one block is among those reached by the blocks.
proof fn lemma_slides_contain(
    data: PermutationsData,
    code: int,
    blocks: Seq<(usize, usize)>,
    t: int,
    s: int,
    x: (usize, usize, usize),
)
    requires
        0 <= s < t <= blocks.len(),
        block_slide(data, code, blocks[s].0 as int, blocks[s].1 as int).contains(x),
    ensures
        slides_of_blocks(data, code, blocks, t).contains(x),
    decreases t,
{
    let a = slides_of_blocks(data, code, blocks, t - 1);
    let w = block_slide(data, code, blocks[t - 1].0 as int, blocks[t - 1].1 as int);
    if s == t - 1 {
        let v = choose|v: int| 0 <= v < w.len() && w[v] == x;
        assert((a + w)[a.len() + v] == x);
    } else {
        lemma_slides_contain(data, code, blocks, t - 1, s, x);
        let v = choose|v: int| 0 <= v < a.len() && a[v] == x;
        assert((a + w)[v] == x);
    }
}

/// Block `[i, j]` of `c` has been slid from, as seen from `start`: when
/// that block end of `c` is not marked in `data` and the first cell the
/// block lands on could be reached in `start`, the code of that cell is at
/// most one farther than `c`.
pub open spec fn first_slide_done(start: PermutationsData, data: PermutationsData, c: int, i: int, j: int) -> bool {
    let x = landing(data.size as int, c, i, j, j + 1);
    (!bit16(data.end_mask@[c]@[i], j as u16) && cell_free(start, x)) ==> data.distance@[x.0 as int]
        <= data.distance@[c] + 1
}

/// Every block of `c` has been slid from (see `first_slide_done`).
pub open spec fn blocks_slid(start: PermutationsData, data: PermutationsData, c: int) -> bool {
    forall|i: int, j: int| 0 <= i <= j < data.size - 1 ==> #[trigger] first_slide_done(start, data, c, i, j)
}

/// Every cell that could be reached in `start` but no longer can in `data`
/// is of a code at distance at most `bound`.
pub open spec fn taken_near(start: PermutationsData, data: PermutationsData, bound: int) -> bool {
    forall|x: (usize, usize, usize)|
        (x.0 as int) < fact(data.size as nat) && (x.1 as int) < data.size && (x.2 as int) < data.size && cell_free(start, x)
            && !#[trigger] cell_free(data, x) ==> data.distance@[x.0 as int] <= bound
}

/// The blocks of `c` stay slid from while its distance and block ends stay
/// and no distance grows.
proof fn lemma_slid_kept(start: PermutationsData, a: PermutationsData, b: PermutationsData, c: int)
    requires
        a.well_formed(),
        b.size == a.size,
        0 <= c < fact(a.size as nat),
        blocks_slid(start, a, c),
        b.distance@.len() == a.distance@.len(),
        b.distance@[c] == a.distance@[c],
        forall|y: int| 0 <= y < a.distance@.len() ==> #[trigger] b.distance@[y] <= a.distance@[y],
        forall|i: int, j: u16| 0 <= i < a.size && j < 16 ==> #[trigger] bit16(b.end_mask@[c]@[i], j) == bit16(a.end_mask@[c]@[i], j),
    ensures
        blocks_slid(start, b, c),
{
    let n = a.size as int;
    assert forall|i: int, j: int| 0 <= i <= j < b.size - 1 implies #[trigger] first_slide_done(start, b, c, i, j) by {
        assert(first_slide_done(start, a, c, i, j));
        lemma_slide_code_range(n, c, j - i + 1, j, j + 1);
        assert(bit16(b.end_mask@[c]@[i], j as u16) == bit16(a.end_mask@[c]@[i], j as u16));
    }
}

/// A bound on the cells taken holds of every larger bound.
proof fn lemma_taken_wider(start: PermutationsData, data: PermutationsData, bound: int, wider: int)
    requires
        taken_near(start, data, bound),
        bound <= wider,
    ensures
        taken_near(start, data, wider),
{
}

/// Some code is at least three farther than `c` in `d`.
pub open spec fn three_short_of_some(d: Seq<u8>, c: int) -> bool {
    exists|c2: int| 0 <= c2 < d.len() && #[trigger] d[c2] >= d[c] + 3
}

/// Every code of `data` at a distance from `lo` up to (not including) `hi`
/// is being processed and has its blocks slid from (see `blocks_slid`).
pub open spec fn walked_between(start: PermutationsData, data: PermutationsData, lo: int, hi: int) -> bool {
    forall|c: int|
        0 <= c < data.distance@.len() && lo <= data.distance@[c] < hi ==> #[trigger] data.processing_status@[c]
            == ProcessingStatus::PROCESSING && blocks_slid(start, data, c)
}

/// The batches have all run: every code from the distance `s0` on that
/// some code is at least three farther than is being processed and has its
/// blocks slid from (see `blocks_slid`).
pub open spec fn batches_done(start: PermutationsData, fin: PermutationsData, s0: int) -> bool {
    forall|c: int|
        0 <= c < fin.distance@.len() && s0 <= fin.distance@[c] && three_short_of_some(fin.distance@, c)
            ==> #[trigger] fin.processing_status@[c] == ProcessingStatus::PROCESSING && blocks_slid(start, fin, c)
}

/// What one slide of every block of `code` (see
/// `process_permutation_paralleled`) does: the codes reached from `code`
/// take one more than its distance, the cells reached are marked, and
/// nothing else changes.
pub open spec fn walked_from(before: PermutationsData, after: PermutationsData, code: int) -> bool {
    let n = before.size as int;
    &&& after.well_formed()
    &&& after.size == before.size
    &&& after.distance@ == Seq::new(
        before.distance@.len(),
        |c: int|
            if touches(adjacent_cells(before, code), c) {
                (before.distance@[code] + 1) as u8
            } else {
                before.distance@[c]
            },
    )
    &&& forall|c: int, a: int, b: u16|
        0 <= c < fact(n as nat) && 0 <= a < n && b < 16 ==> #[trigger] bit16(after.end_mask@[c]@[a], b) == (bit16(
            before.end_mask@[c]@[a],
            b,
        ) || adjacent_cells(before, code).contains((c as usize, a as usize, b as usize)))
    &&& forall|c: int|
        0 <= c < before.distance@.len() && touches(adjacent_cells(before, code), c)
            ==> #[trigger] before.processing_status@[c] == ProcessingStatus::UNPROCESSED
    &&& after.processing_status == before.processing_status
}

/// After `code`, at the distance `bound - 1` with every code that near
/// marked, slides its blocks: its blocks are slid from, the cells taken
/// since `start` stay near, no distance grows, and codes being processed
/// keep their distances and block ends.
proof fn lemma_walk_step(start: PermutationsData, before: PermutationsData, after: PermutationsData, code: int, bound: int)
    requires
        before.well_formed(),
        start.size == before.size,
        0 <= code < fact(before.size as nat),
        walked_from(before, after, code),
        before.processing_status@[code] == ProcessingStatus::PROCESSING,
        before.distance@[code] + 1 == bound,
        forall|c: int|
            0 <= c < before.distance@.len() && before.distance@[c] < bound ==> #[trigger] before.processing_status@[c]
                != ProcessingStatus::UNPROCESSED,
        taken_near(start, before, bound),
    ensures
        blocks_slid(start, after, code),
        taken_near(start, after, bound),
        forall|c: int| 0 <= c < before.distance@.len() ==> #[trigger] after.distance@[c] <= before.distance@[c],
        forall|c: int|
            0 <= c < before.distance@.len() && before.processing_status@[c] == ProcessingStatus::PROCESSING
                ==> #[trigger] after.distance@[c] == before.distance@[c],
        forall|c: int, a: int, b: u16|
            0 <= c < before.distance@.len() && before.processing_status@[c] == ProcessingStatus::PROCESSING && 0 <= a
                < before.size && b < 16 ==> #[trigger] bit16(after.end_mask@[c]@[a], b) == bit16(before.end_mask@[c]@[a], b),
{
    let n = before.size as int;
    let cells = adjacent_cells(before, code);
    lemma_small_facts();
    lemma_fact_monotone(n as nat, 12);
    assert forall|c: int| 0 <= c < before.distance@.len() implies #[trigger] after.distance@[c] <= before.distance@[c] by {
        if touches(cells, c) {
            assert(before.processing_status@[c] == ProcessingStatus::UNPROCESSED);
        }
    }
    assert forall|c: int|
        0 <= c < before.distance@.len() && before.processing_status@[c] == ProcessingStatus::PROCESSING
            implies #[trigger] after.distance@[c] == before.distance@[c] by {
        if touches(cells, c) {
            assert(before.processing_status@[c] == ProcessingStatus::UNPROCESSED);
        }
    }
    assert forall|c: int, a: int, b: u16|
        0 <= c < before.distance@.len() && before.processing_status@[c] == ProcessingStatus::PROCESSING && 0 <= a
            < before.size && b < 16 implies #[trigger] bit16(after.end_mask@[c]@[a], b) == bit16(before.end_mask@[c]@[a], b) by {
        if cells.contains((c as usize, a as usize, b as usize)) {
            let w = choose|w: int| 0 <= w < cells.len() && cells[w] == (c as usize, a as usize, b as usize);
            assert(touches(cells, c));
        }
    }
    assert forall|x: (usize, usize, usize)|
        (x.0 as int) < fact(after.size as nat) && (x.1 as int) < after.size && (x.2 as int) < after.size && cell_free(
            start,
            x,
        ) && !#[trigger] cell_free(after, x) implies after.distance@[x.0 as int] <= bound by {
        if cell_free(before, x) {
            assert(bit16(after.end_mask@[x.0 as int]@[x.1 as int], x.2 as u16));
            assert(cells.contains((x.0, x.1, (x.2 as u16) as usize)));
            let w = choose|w: int| 0 <= w < cells.len() && cells[w] == x;
            assert(touches(cells, x.0 as int));
        } else {
            assert(before.distance@[x.0 as int] <= bound);
        }
    }
    assert forall|i: int, j: int| 0 <= i <= j < after.size - 1 implies #[trigger] first_slide_done(start, after, code, i, j) by {
        let x = landing(n, code, i, j, j + 1);
        lemma_slide_code_range(n, code, j - i + 1, j, j + 1);
        if !bit16(after.end_mask@[code]@[i], j as u16) && cell_free(start, x) {
            assert(!bit16(before.end_mask@[code]@[i], j as u16));
            if cell_free(before, x) {
                lemma_first_cell_reached(before, n, code, i, j, n);
                let blocks = blocks_for_size(n);
                lemma_blocks_upto_holds(n - 1, n - 1, i, j);
                let b2 = choose|b2: int| 0 <= b2 < blocks.len() && #[trigger] blocks[b2] == (i as usize, j as usize);
                assert(block_slide(before, code, blocks[b2].0 as int, blocks[b2].1 as int).contains(x));
                lemma_slides_contain(before, code, blocks, blocks.len() as int, b2, x);
                let w = choose|w: int| 0 <= w < cells.len() && cells[w] == x;
                assert(touches(cells, x.0 as int));
            } else {
                assert(before.distance@[x.0 as int] <= bound);
            }
        }
    }
}

/// The walk of block `[i, j]` of `code` to the right: none when that block
/// end of `code` is marked; else the cells it lands on, up to the first
/// whose code is not unprocessed or whose block end is marked.
fn process_permutation_block_slide(permutations_data: &PermutationsData, code: usize, i: usize, j: usize) -> (r: Vec<
    (usize, usize, usize),
>)
    requires
        permutations_data.well_formed(),
        (code as int) < fact(permutations_data.size as nat),
        i <= j < permutations_data.size - 1,
    ensures
        r@ == block_slide(*permutations_data, code as int, i as int, j as int),
{
    let ghost n = permutations_data.size as int;
    let ghost data = *permutations_data;
    proof {
        lemma_small_facts();
        lemma_fact_monotone(n as nat, 12);
    }
    if permutations_data.get_end_mask_bit(code, i, j) {
        return vec![];
    }
    let block_size = (j - i) + 1;
    let mut cur_code = code;
    let mut new_permutations_to_process: Vec<(usize, usize, usize)> = vec![];
    let mut k = j + 1;
    while k < permutations_data.size
        invariant_except_break
            cur_code as int == slide_code(n, code as int, j - i + 1, j as int, k - 1),
            free_walk(data, n, code as int, i as int, j as int, k - 1),
            new_permutations_to_process@ == free_cells(data, n, code as int, i as int, j as int, k as int),
        invariant
            permutations_data.well_formed(),
            data == *permutations_data,
            n == permutations_data.size,
            fact(n as nat) <= 479001600,
            (code as int) < fact(n as nat),
            i <= j < n - 1,
            block_size == j - i + 1,
            j + 1 <= k <= n,
        ensures
            new_permutations_to_process@ == free_cells(data, n, code as int, i as int, j as int, n),
        decreases n - k,
    {
        let block_shift = k - j;
        let new_i = i + block_shift;
        let new_j = j + block_shift;
        let new_pos = k as i8 - block_size as i8 - 1;
        proof {
            lemma_slide_code_range(n, code as int, j - i + 1, j as int, k - 1);
            permutations_data.adjacency_calculator.lemma_well_formed_facts();
        }
        let delta_for_move = permutations_data.adjacency_calculator.get_delta_for_moving_item(
            cur_code as u32,
            k,
            new_pos,
        );
        proof {
            lemma_slide_code_range(n, code as int, j - i + 1, j as int, k as int);
            assert(cur_code + delta_for_move == slide_code(n, code as int, j - i + 1, j as int, k as int));
        }
        cur_code = (cur_code as i32 + delta_for_move) as usize;
        proof {
            assert((cur_code, new_i, new_j) == landing(n, code as int, i as int, j as int, k as int));
        }
        let processing_status = permutations_data.get_processing_status(cur_code);
        if processing_status == ProcessingStatus::PROCESSING || processing_status == ProcessingStatus::PROCESSED {
            proof {
                if k + 1 < n {
                    lemma_free_closed(data, n, code as int, i as int, j as int, k as int, n - 1);
                }
            }
            break;
        } else if permutations_data.get_end_mask_bit(cur_code, new_i, new_j) {
            proof {
                if k + 1 < n {
                    lemma_free_closed(data, n, code as int, i as int, j as int, k as int, n - 1);
                }
            }
            break;
        } else {
            new_permutations_to_process.push((cur_code, new_i, new_j));
        }
        k = k + 1;
    }
    new_permutations_to_process
}

impl PermutationsData {
    /// Every listed code takes the distance `new_dist`, and every listed
    /// block end is marked reached.
    fn update_end_mask_and_distance(&mut self, adj_codes: Vec<(usize, usize, usize)>, new_dist: u8)
        requires
            old(self).well_formed(),
            new_dist <= 99,
            forall|t: int|
                0 <= t < adj_codes@.len() ==> {
                    let x = #[trigger] adj_codes@[t];
                    &&& (x.0 as int) < fact(old(self).size as nat)
                    &&& (x.1 as int) < old(self).size
                    &&& (x.2 as int) < 16
                },
        ensures
            final(self).well_formed(),
            final(self).distance@ == Seq::new(
                old(self).distance@.len(),
                |c: int|
                    if touches(adj_codes@, c) {
                        new_dist
                    } else {
                        old(self).distance@[c]
                    },
            ),
            forall|c: int, a: int, b: u16|
                0 <= c < fact(old(self).size as nat) && 0 <= a < old(self).size && b < 16 ==> #[trigger] bit16(
                    final(self).end_mask@[c]@[a],
                    b,
                ) == (bit16(old(self).end_mask@[c]@[a], b) || adj_codes@.contains((c as usize, a as usize, b as usize))),
            final(self).size == old(self).size,
            final(self).adjacency_calculator == old(self).adjacency_calculator,
            final(self).reduced_code == old(self).reduced_code,
            final(self).processing_status == old(self).processing_status,
    {
        let ghost n = self.size as int;
        let ghost total = fact(n as nat) as int;
        let ghost d0 = self.distance@;
        let ghost m0 = self.end_mask@;
        proof {
            lemma_small_facts();
            lemma_fact_monotone(n as nat, 12);
        }
        let len = adj_codes.len();
        for t in 0..len
            invariant
                len == adj_codes@.len(),
                n == self.size,
                total == fact(n as nat),
                total <= 479001600,
                self.well_formed(),
                new_dist <= 99,
                self.size == old(self).size,
                self.adjacency_calculator == old(self).adjacency_calculator,
                self.reduced_code == old(self).reduced_code,
                self.processing_status == old(self).processing_status,
                self.end_mask == old(self).end_mask,
                d0 == old(self).distance@,
                forall|t: int|
                    0 <= t < adj_codes@.len() ==> {
                        let x = #[trigger] adj_codes@[t];
                        &&& (x.0 as int) < total
                        &&& (x.1 as int) < n
                        &&& (x.2 as int) < 16
                    },
                self.distance@ == Seq::new(
                    d0.len(),
                    |c: int|
                        if touches(adj_codes@.take(t as int), c) {
                            new_dist
                        } else {
                            d0[c]
                        },
                ),
        {
            let x = adj_codes[t];
            self.set_distance(x.0, new_dist);
            proof {
                assert forall|c: int| 0 <= c < d0.len() implies #[trigger] touches(adj_codes@.take(t + 1), c) == (touches(
                    adj_codes@.take(t as int),
                    c,
                ) || c == x.0 as int) by {
                    let pre = adj_codes@.take(t as int);
                    let post = adj_codes@.take(t + 1);
                    if touches(pre, c) {
                        let w = choose|w: int| 0 <= w < pre.len() && (#[trigger] pre[w]).0 as int == c;
                        assert(post[w] == pre[w]);
                    }
                    if c == x.0 as int {
                        assert(post[t as int] == x);
                    }
                    if touches(post, c) {
                        let w = choose|w: int| 0 <= w < post.len() && (#[trigger] post[w]).0 as int == c;
                        if w < t {
                            assert(pre[w] == post[w]);
                        }
                    }
                }
                assert(self.distance@ =~= Seq::new(
                    d0.len(),
                    |c: int|
                        if touches(adj_codes@.take(t + 1), c) {
                            new_dist
                        } else {
                            d0[c]
                        },
                ));
            }
        }
        proof {
            assert(adj_codes@.take(len as int) =~= adj_codes@);
        }
        for t in 0..len
            invariant
                len == adj_codes@.len(),
                n == self.size,
                total == fact(n as nat),
                total <= 479001600,
                self.size == old(self).size,
                self.adjacency_calculator == old(self).adjacency_calculator,
                self.reduced_code == old(self).reduced_code,
                self.processing_status == old(self).processing_status,
                1 <= n <= 12,
                mask_shape(self.end_mask@, total, n),
                m0 == old(self).end_mask@,
                mask_shape(m0, total, n),
                forall|t: int|
                    0 <= t < adj_codes@.len() ==> {
                        let x = #[trigger] adj_codes@[t];
                        &&& (x.0 as int) < total
                        &&& (x.1 as int) < n
                        &&& (x.2 as int) < 16
                    },
                self.distance@ == Seq::new(
                    d0.len(),
                    |c: int|
                        if touches(adj_codes@, c) {
                            new_dist
                        } else {
                            d0[c]
                        },
                ),
                forall|c: int, a: int, b: u16|
                    0 <= c < total && 0 <= a < n && b < 16 ==> #[trigger] bit16(self.end_mask@[c]@[a], b) == (bit16(
                        m0[c]@[a],
                        b,
                    ) || adj_codes@.take(t as int).contains((c as usize, a as usize, b as usize))),
        {
            let x = adj_codes[t];
            let ghost pre = self.end_mask@;
            self.set_end_mask_bit(x.0, x.1, x.2);
            proof {
                let seen = adj_codes@.take(t as int);
                assert(adj_codes@.take(t + 1) =~= seen.push(x));
                assert forall|c: int, a: int, b: u16|
                    0 <= c < total && 0 <= a < n && b < 16 implies #[trigger] bit16(self.end_mask@[c]@[a], b) == (bit16(
                    m0[c]@[a],
                    b,
                ) || adj_codes@.take(t + 1).contains((c as usize, a as usize, b as usize))) by {
                    vstd::seq_lib::lemma_seq_contains_after_push(seen, x, (c as usize, a as usize, b as usize));
                    if c == x.0 as int && a == x.1 as int {
                        lemma_bit_or_shift(pre[c]@[a], x.2 as u16, b);
                    } else if c == x.0 as int {
                        assert(self.end_mask@[c]@[a] == pre[c]@[a]);
                    } else {
                        assert(self.end_mask@[c] == pre[c]);
                    }
                }
            }
        }
        proof {
            assert(adj_codes@.take(len as int) =~= adj_codes@);
            assert forall|c: int| 0 <= c < self.distance@.len() implies #[trigger] self.distance@[c] <= 99 by {
                assert(d0[c] <= 99);
            }
        }
    }

    /// Slides every block of `code` right (see `block_slide`), all against
    /// the tables as they are on entry; then every code reached takes one
    /// more than the distance of `code`, and every block end reached is
    /// marked.
    fn process_permutation_paralleled(&mut self, code: usize)
        requires
            old(self).well_formed(),
            (code as int) < fact(old(self).size as nat),
            old(self).distance@[code as int] < 99,
        ensures
            final(self).well_formed(),
            final(self).distance@ == Seq::new(
                old(self).distance@.len(),
                |c: int|
                    if touches(adjacent_cells(*old(self), code as int), c) {
                        (old(self).distance@[code as int] + 1) as u8
                    } else {
                        old(self).distance@[c]
                    },
            ),
            forall|c: int, a: int, b: u16|
                0 <= c < fact(old(self).size as nat) && 0 <= a < old(self).size && b < 16 ==> #[trigger] bit16(
                    final(self).end_mask@[c]@[a],
                    b,
                ) == (bit16(old(self).end_mask@[c]@[a], b) || adjacent_cells(*old(self), code as int).contains(
                    (c as usize, a as usize, b as usize),
                )),
            forall|c: int|
                0 <= c < old(self).distance@.len() && touches(adjacent_cells(*old(self), code as int), c)
                    ==> #[trigger] old(self).processing_status@[c] == ProcessingStatus::UNPROCESSED,
            table_sound(old(self).size as int, old(self).distance@) ==> table_sound(
                old(self).size as int,
                final(self).distance@,
            ),
            final(self).size == old(self).size,
            final(self).adjacency_calculator == old(self).adjacency_calculator,
            final(self).reduced_code == old(self).reduced_code,
            final(self).processing_status == old(self).processing_status,
    {
        let ghost n = self.size as int;
        let ghost data = *self;
        let blocks = get_all_blocks_for_size(self.size);
        let ghost bl = blocks@;
        proof {
            lemma_blocks_bounds(n - 1, n - 1);
        }
        let mut adjacent_permutations: Vec<(usize, usize, usize)> = vec![];
        let nb = blocks.len();
        for b in 0..nb
            invariant
                nb == bl.len(),
                bl == blocks@,
                bl == blocks_for_size(n),
                forall|t: int| 0 <= t < bl.len() ==> {
                    let x = #[trigger] bl[t];
                    x.0 <= x.1 < n - 1
                },
                self.well_formed(),
                data == *self,
                n == self.size,
                (code as int) < fact(n as nat),
                adjacent_permutations@ == slides_of_blocks(data, code as int, bl, b as int),
        {
            let pair = blocks[b];
            let part = process_permutation_block_slide(self, code, pair.0, pair.1);
            let ghost before = adjacent_permutations@;
            let plen = part.len();
            for t in 0..plen
                invariant
                    plen == part@.len(),
                    adjacent_permutations@ == before + part@.take(t as int),
            {
                adjacent_permutations.push(part[t]);
                proof {
                    assert(part@.take(t + 1) =~= part@.take(t as int).push(part@[t as int]));
                }
            }
            proof {
                assert(part@.take(plen as int) =~= part@);
            }
        }
        proof {
            lemma_slides_ok(data, code as int, bl, nb as int);
            assert forall|c: int|
                0 <= c < data.distance@.len() && touches(adjacent_cells(data, code as int), c) implies #[trigger] data.processing_status@[c]
                    == ProcessingStatus::UNPROCESSED by {
                let cells = adjacent_cells(data, code as int);
                let w = choose|w: int| 0 <= w < cells.len() && (#[trigger] cells[w]).0 as int == c;
                assert(cell_free(data, cells[w]));
            }
        }
        let new_dist = self.get_distance(code);
        self.update_end_mask_and_distance(adjacent_permutations, self.get_distance(code) + 1);
        proof {
            if table_sound(n, data.distance@) {
                let cells = adjacent_cells(data, code as int);
                assert forall|c: int| 0 <= c < self.distance@.len() && self.distance@[c] < 99 implies sortable_within(
                    perm_of_code(n, c),
                    #[trigger] self.distance@[c] as nat,
                ) by {
                    if touches(cells, c) {
                        let w = choose|w: int| 0 <= w < cells.len() && (#[trigger] cells[w]).0 as int == c;
                        assert(one_slide_from(n, code as int, c));
                        lemma_slide_is_block_move(n, code as int, c);
                        lemma_sortable_step(perm_of_code(n, c), perm_of_code(n, code as int), data.distance@[code as int] as nat);
                    }
                }
            }
        }
    }
}

/// The least distance among the first `k` codes whose reduced form has
/// size `s`, if any.
pub open spec fn least_distance_of_size(d: Seq<u8>, rc: Seq<(usize, u32)>, s: int, k: int) -> Option<u8>
    decreases k,
{
    if k <= 0 {
        None
    } else {
        let before = least_distance_of_size(d, rc, s, k - 1);
        if rc[k - 1].0 as int == s {
            match before {
                Some(m) => if d[k - 1] < m {
                    Some(d[k - 1])
                } else {
                    Some(m)
                },
                None => Some(d[k - 1]),
            }
        } else {
            before
        }
    }
}

/// The distance the batches start from: the least distance among the codes
/// whose reduced form has three items fewer (none fewer than 0 items), 0
/// when there is none or it is unknown (99).
pub open spec fn starting_dist(data: PermutationsData) -> u8 {
    starting_dist_from(data.size as int, data.reduced_code@, data.distance@)
}

/// The starting distance (see `starting_dist`) for codes of size `n` with
/// reduced forms `rc` and distances `d`.
pub open spec fn starting_dist_from(n: int, rc: Seq<(usize, u32)>, d: Seq<u8>) -> u8 {
    let s = if n >= 3 { n - 3 } else { 0 };
    match least_distance_of_size(d, rc, s, d.len() as int) {
        Some(m) => if m == 99 {
            0
        } else {
            m
        },
        None => 0,
    }
}

/// The distances the codes of size `n` start from: 99 for a pure code,
/// else the distance of its reduced form in the data of its size.
pub open spec fn start_distances(prev: Seq<PermutationsData>, rc: Seq<(usize, u32)>, n: int) -> Seq<u8> {
    Seq::new(
        fact(n as nat),
        |c: int|
            if rc[c].0 == n as usize {
                99u8
            } else {
                prev[rc[c].0 as int].distance@[rc[c].1 as int]
            },
    )
}

/// What the batches leave marked in `fin`, from the distances `d0`: every
/// code nearer than the starting distance, and, when some code started at
/// least three farther than it, every code at it.
pub open spec fn batches_marked(fin: PermutationsData, d0: Seq<u8>) -> bool {
    let s0 = starting_dist_from(fin.size as int, fin.reduced_code@, d0);
    &&& forall|c: int|
        0 <= c < fin.distance@.len() && fin.distance@[c] < s0 ==> #[trigger] fin.processing_status@[c]
            != ProcessingStatus::UNPROCESSED
    &&& (exists|c: int| 0 <= c < d0.len() && #[trigger] d0[c] >= s0 + 3) ==> forall|c: int|
        0 <= c < fin.distance@.len() && fin.distance@[c] <= s0 ==> #[trigger] fin.processing_status@[c]
            != ProcessingStatus::UNPROCESSED
}

/// Block `[i, j]` of `c` has been slid from in `fin`: when that block end
/// of `c` is not marked, the code its first cell lands on is at most one
/// farther than `c`.
pub open spec fn slid_first(fin: PermutationsData, c: int, i: int, j: int) -> bool {
    let x = landing(fin.size as int, c, i, j, j + 1);
    !bit16(fin.end_mask@[c]@[i], j as u16) ==> fin.distance@[x.0 as int] <= fin.distance@[c] + 1
}

/// What the batches leave walked in `fin`, from the distances `d0` with
/// every cell free: when some code started at least three farther than the
/// starting distance, every code at it is being processed; every code from
/// the starting distance on that some code ends at least three farther than
/// is being processed (the batches run up to two below the largest
/// distance); and every block of every code being processed has been slid
/// from (see `slid_first`).
pub open spec fn batches_walked(fin: PermutationsData, d0: Seq<u8>) -> bool {
    let s0 = starting_dist_from(fin.size as int, fin.reduced_code@, d0);
    &&& (exists|c: int| 0 <= c < d0.len() && #[trigger] d0[c] >= s0 + 3) ==> forall|c: int|
        0 <= c < d0.len() && d0[c] == s0 ==> #[trigger] fin.processing_status@[c] == ProcessingStatus::PROCESSING
    &&& forall|c: int|
        0 <= c < fin.distance@.len() && s0 <= fin.distance@[c] && three_short_of_some(fin.distance@, c)
            ==> #[trigger] fin.processing_status@[c] == ProcessingStatus::PROCESSING
    &&& forall|c: int, i: int, j: int|
        0 <= c < fin.distance@.len() && 0 <= i <= j < fin.size - 1 && fin.processing_status@[c]
            == ProcessingStatus::PROCESSING ==> #[trigger] slid_first(fin, c, i, j)
}

/// In a table the batch search leaves (see `batches_walked`), every code
/// from the starting distance on that some code is at least three farther
/// than is within one of its neighbours one slide away: each of its blocks
/// whose end is not marked, moved right by one position, gives a code at
/// most one farther. So the batches cannot stop short of two below the
/// largest distance while codes between stay unknown.
pub proof fn lemma_batches_reach_below_top(fin: PermutationsData, d0: Seq<u8>, c: int, i: int, j: int)
    requires
        fin.well_formed(),
        batches_walked(fin, d0),
        0 <= c < fin.distance@.len(),
        0 <= i <= j < fin.size - 1,
        starting_dist_from(fin.size as int, fin.reduced_code@, d0) <= fin.distance@[c],
        three_short_of_some(fin.distance@, c),
        !bit16(fin.end_mask@[c]@[i], j as u16),
    ensures
        fin.processing_status@[c] == ProcessingStatus::PROCESSING,
        fin.distance@[slide_code(fin.size as int, c, j - i + 1, j, j + 1)] <= fin.distance@[c] + 1,
{
    assert(fin.processing_status@[c] == ProcessingStatus::PROCESSING);
    assert(slid_first(fin, c, i, j));
    lemma_slide_code_range(fin.size as int, c, j - i + 1, j, j + 1);
    lemma_small_facts();
    lemma_fact_monotone(fin.size as nat, 12);
}

/// No block end is marked in an empty mask.
proof fn lemma_zero_mask(b: u16)
    ensures
        !bit16(0, b),
{
    assert((0u16 >> b) & 1u16 == 0u16) by (bit_vector);
}

proof fn lemma_least_distance_bound(d: Seq<u8>, rc: Seq<(usize, u32)>, s: int, k: int)
    requires
        0 <= k <= d.len(),
        distances_bounded(d),
    ensures
        match least_distance_of_size(d, rc, s, k) {
            Some(m) => m <= 99,
            None => true,
        },
    decreases k,
{
    if k > 0 {
        lemma_least_distance_bound(d, rc, s, k - 1);
    }
}

impl PermutationsData {
    /// Every code nearer than `dist` is marked processed.
    fn set_codes_to_processed_with_distance_less_than(&mut self, dist: u8)
        requires
            old(self).well_formed(),
        ensures
            final(self).well_formed(),
            final(self).processing_status@ == Seq::new(
                old(self).processing_status@.len(),
                |c: int|
                    if old(self).distance@[c] < dist {
                        ProcessingStatus::PROCESSED
                    } else {
                        old(self).processing_status@[c]
                    },
            ),
            final(self).size == old(self).size,
            final(self).distance == old(self).distance,
            final(self).adjacency_calculator == old(self).adjacency_calculator,
            final(self).reduced_code == old(self).reduced_code,
            final(self).end_mask == old(self).end_mask,
    {
        let codes = self.get_code_range();
        let len = codes.len();
        let ghost s0 = self.processing_status@;
        for t in 0..len
            invariant
                len == codes@.len(),
                len == fact(self.size as nat),
                forall|c: int| 0 <= c < codes@.len() ==> #[trigger] codes@[c] == c,
                self.well_formed(),
                self.size == old(self).size,
                self.distance == old(self).distance,
                self.adjacency_calculator == old(self).adjacency_calculator,
                self.reduced_code == old(self).reduced_code,
                self.end_mask == old(self).end_mask,
                s0 == old(self).processing_status@,
                self.processing_status@ == Seq::new(
                    s0.len(),
                    |c: int|
                        if c < t && old(self).distance@[c] < dist {
                            ProcessingStatus::PROCESSED
                        } else {
                            s0[c]
                        },
                ),
        {
            let code = codes[t];
            if self.distance[code] < dist {
                self.set_processing_status(code, ProcessingStatus::PROCESSED);
            }
            proof {
                assert(self.processing_status@ =~= Seq::new(
                    s0.len(),
                    |c: int|
                        if c < t + 1 && old(self).distance@[c] < dist {
                            ProcessingStatus::PROCESSED
                        } else {
                            s0[c]
                        },
                ));
            }
        }
        proof {
            assert(self.processing_status@ =~= Seq::new(
                s0.len(),
                |c: int|
                    if old(self).distance@[c] < dist {
                        ProcessingStatus::PROCESSED
                    } else {
                        s0[c]
                    },
            ));
        }
    }

    /// The distance the batches start from (see `starting_dist`).
    fn get_starting_dist(&self) -> (r: u8)
        requires
            self.well_formed(),
        ensures
            r == starting_dist(*self),
            r < 99,
    {
        let max_reduced_size_adjacent: u8 = if self.size >= 3 {
            (self.size - 3) as u8
        } else {
            0
        };
        let ghost s = max_reduced_size_adjacent as int;
        let codes = self.get_code_range();
        let len = codes.len();
        let mut found_min: Option<u8> = None;
        for t in 0..len
            invariant
                len == codes@.len(),
                len == fact(self.size as nat),
                forall|c: int| 0 <= c < codes@.len() ==> #[trigger] codes@[c] == c,
                self.well_formed(),
                s == if self.size >= 3 { self.size - 3 } else { 0 },
                s == max_reduced_size_adjacent,
                found_min == least_distance_of_size(self.distance@, self.reduced_code@, s, t as int),
        {
            let code = codes[t];
            if self.reduced_code[code].0 == max_reduced_size_adjacent as usize {
                let d = self.distance[code];
                match found_min {
                    Some(m) => {
                        if d < m {
                            found_min = Some(d);
                        }
                    },
                    None => {
                        found_min = Some(d);
                    },
                }
            }
        }
        proof {
            lemma_least_distance_bound(self.distance@, self.reduced_code@, s, len as int);
        }
        let dist: u8 = match found_min {
            Some(x) => x,
            None => 0,
        };
        if dist == 99 {
            0
        } else {
            dist
        }
    }

    /// The codes batch by batch: from the starting distance (see
    /// `starting_dist`), the codes nearer than it are marked processed;
    /// then, while the current distance is more than two below the largest
    /// distance, the codes at the current distance are marked processing,
    /// each slides its blocks (see `process_permutation_paralleled`), and
    /// the current distance goes up by one. Every code nearer than the
    /// starting distance ends marked, and so does every code at it when the
    /// batches run at all, each of those then being processed. Every code
    /// processed here has its blocks slid from (see `blocks_slid`): the first
    /// cell each free block lands on, when it could be reached on entry,
    /// ends at most one farther than the code. The batches all run: every
    /// code from the starting distance on that some code ends at least three
    /// farther than has been processed this way (see `batches_done`).
    fn process_permutations(&mut self)
        requires
            old(self).well_formed(),
        ensures
            final(self).well_formed(),
            forall|c: int| 0 <= c < old(self).distance@.len() ==> #[trigger] final(self).distance@[c] <= old(self).distance@[c],
            table_sound(old(self).size as int, old(self).distance@) ==> table_sound(
                old(self).size as int,
                final(self).distance@,
            ),
            final(self).size == old(self).size,
            final(self).adjacency_calculator == old(self).adjacency_calculator,
            final(self).reduced_code == old(self).reduced_code,
            forall|c: int|
                0 <= c < final(self).distance@.len() && final(self).distance@[c] < starting_dist(*old(self))
                    ==> #[trigger] final(self).processing_status@[c] != ProcessingStatus::UNPROCESSED,
            (exists|c: int| 0 <= c < old(self).distance@.len() && #[trigger] old(self).distance@[c] >= starting_dist(*old(self)) + 3)
                ==> forall|c: int|
                0 <= c < final(self).distance@.len() && final(self).distance@[c] <= starting_dist(*old(self))
                    ==> #[trigger] final(self).processing_status@[c] != ProcessingStatus::UNPROCESSED,
            (exists|c: int| 0 <= c < old(self).distance@.len() && #[trigger] old(self).distance@[c] >= starting_dist(*old(self)) + 3)
                ==> forall|c: int|
                0 <= c < old(self).distance@.len() && old(self).distance@[c] == starting_dist(*old(self))
                    ==> #[trigger] final(self).processing_status@[c] == ProcessingStatus::PROCESSING,
            forall|c: int|
                0 <= c < old(self).distance@.len() && final(self).processing_status@[c] == ProcessingStatus::PROCESSING
                    && old(self).processing_status@[c] != ProcessingStatus::PROCESSING ==> #[trigger] blocks_slid(
                    *old(self),
                    *final(self),
                    c,
                ),
            batches_done(*old(self), *final(self), starting_dist(*old(self)) as int),
    {
        let ghost start = *self;
        let ghost n = self.size as int;
        let ghost total = fact(n as nat) as int;
        proof {
            lemma_small_facts();
            lemma_fact_monotone(n as nat, 12);
        }
        let mut current_dist = self.get_starting_dist();
        let ghost s0 = current_dist;
        let mut max_dist: u8 = self.get_max_dist();
        self.set_codes_to_processed_with_distance_less_than(current_dist);
        let ghost mut ran = false;
        proof {
            if exists|c: int| 0 <= c < start.distance@.len() && #[trigger] start.distance@[c] >= s0 + 3 {
                let c = choose|c: int| 0 <= c < start.distance@.len() && #[trigger] start.distance@[c] >= s0 + 3;
                assert(start.distance@[c] <= max_dist);
            }
            assert forall|x: (usize, usize, usize)|
                (x.0 as int) < fact(self.size as nat) && (x.1 as int) < self.size && (x.2 as int) < self.size && cell_free(
                    start,
                    x,
                ) && !#[trigger] cell_free(*self, x) implies self.distance@[x.0 as int] <= current_dist + 1 by {
                assert(self.processing_status@[x.0 as int] != start.processing_status@[x.0 as int]);
            }
        }
        while current_dist + 2 < max_dist
            invariant
                s0 == starting_dist(start),
                current_dist >= s0,
                ran ==> current_dist >= s0 + 1,
                !ran ==> ((exists|c: int| 0 <= c < start.distance@.len() && #[trigger] start.distance@[c] >= s0 + 3) ==> s0 + 2 < max_dist),
                !ran ==> current_dist == s0,
                self.well_formed(),
                n == self.size,
                total == fact(n as nat),
                total <= 479001600,
                start.size == self.size,
                start.adjacency_calculator == self.adjacency_calculator,
                start.reduced_code == self.reduced_code,
                start.distance@.len() == self.distance@.len(),
                forall|c: int| 0 <= c < start.distance@.len() ==> #[trigger] self.distance@[c] <= start.distance@[c],
                table_sound(n, start.distance@) ==> table_sound(n, self.distance@),
                current_dist <= 98,
                max_dist <= 99,
                forall|c: int|
                    0 <= c < self.distance@.len() && self.distance@[c] < current_dist ==> #[trigger] self.processing_status@[c]
                        != ProcessingStatus::UNPROCESSED,
                !ran ==> self.distance@ == start.distance@,
                taken_near(start, *self, current_dist + 1),
                forall|c: int|
                    0 <= c < start.distance@.len() && self.processing_status@[c] == ProcessingStatus::PROCESSING
                        && start.processing_status@[c] != ProcessingStatus::PROCESSING ==> #[trigger] blocks_slid(start, *self, c),
                ran ==> forall|c: int|
                    0 <= c < start.distance@.len() && start.distance@[c] == s0 ==> #[trigger] self.processing_status@[c]
                        == ProcessingStatus::PROCESSING,
                forall|c: int| 0 <= c < self.distance@.len() ==> #[trigger] self.distance@[c] <= max_dist,
                walked_between(start, *self, s0 as int, current_dist as int),
            decreases 99 - current_dist,
        {
            let codes = self.get_code_range();
            let len = codes.len();
            let mut current_batch: Vec<usize> = vec![];
            for t in 0..len
                invariant
                    len == codes@.len(),
                    len == total,
                    total == fact(n as nat),
                    forall|c: int| 0 <= c < codes@.len() ==> #[trigger] codes@[c] == c,
                    self.well_formed(),
                    n == self.size,
                    forall|x: int| 0 <= x < current_batch@.len() ==> (#[trigger] current_batch@[x] as int) < total
                        && self.distance@[current_batch@[x] as int] == current_dist,
                    forall|c: int| 0 <= c < t && self.distance@[c] == current_dist ==> #[trigger] current_batch@.contains(c as usize),
            {
                let code = codes[t];
                let ghost before = current_batch@;
                if self.get_distance(code) == current_dist {
                    current_batch.push(code);
                }
                proof {
                    assert forall|c: int| 0 <= c < t + 1 && self.distance@[c] == current_dist implies #[trigger] current_batch@.contains(
                        c as usize,
                    ) by {
                        if c < t {
                            assert(before.contains(c as usize));
                            vstd::seq_lib::lemma_seq_contains_after_push(before, code, c as usize);
                        } else {
                            assert(current_batch@[before.len() as int] == code);
                        }
                    }
                }
            }
            let blen = current_batch.len();
            let ghost status0 = self.processing_status@;
            let ghost d_batch = self.distance@;
            for t in 0..blen
                invariant
                    blen == current_batch@.len(),
                    self.well_formed(),
                    n == self.size,
                    total == fact(n as nat),
                    start.size == self.size,
                    start.adjacency_calculator == self.adjacency_calculator,
                    start.reduced_code == self.reduced_code,
                    start.distance@.len() == self.distance@.len(),
                    forall|c: int| 0 <= c < start.distance@.len() ==> #[trigger] self.distance@[c] <= start.distance@[c],
                    table_sound(n, start.distance@) ==> table_sound(n, self.distance@),
                table_sound(n, start.distance@) ==> table_sound(n, self.distance@),
                    forall|x: int| 0 <= x < current_batch@.len() ==> (#[trigger] current_batch@[x] as int) < total
                        && self.distance@[current_batch@[x] as int] == current_dist,
                    forall|c: int| 0 <= c < total && self.distance@[c] == current_dist ==> #[trigger] current_batch@.contains(c as usize),
                    forall|x: int| 0 <= x < t ==> #[trigger] self.processing_status@[current_batch@[x] as int]
                        == ProcessingStatus::PROCESSING,
                    forall|c: int|
                        0 <= c < self.distance@.len() && self.distance@[c] < current_dist ==> #[trigger] self.processing_status@[c]
                            != ProcessingStatus::UNPROCESSED,
                    self.distance@ == d_batch,
                    taken_near(start, *self, current_dist + 1),
                    forall|c: int|
                        0 <= c < start.distance@.len() && self.processing_status@[c] == ProcessingStatus::PROCESSING
                            && start.processing_status@[c] != ProcessingStatus::PROCESSING ==> #[trigger] blocks_slid(start, *self, c)
                            || current_batch@.contains(c as usize),
                    ran ==> forall|c: int|
                        0 <= c < start.distance@.len() && start.distance@[c] == s0 ==> #[trigger] self.processing_status@[c]
                            == ProcessingStatus::PROCESSING,
                    walked_between(start, *self, s0 as int, current_dist as int),
            {
                let ghost before = self.processing_status@;
                let ghost before_data = *self;
                self.set_processing_status(current_batch[t], ProcessingStatus::PROCESSING);
                proof {
                    let cb = current_batch@[t as int] as int;
                    assert forall|c: int|
                        0 <= c < self.distance@.len() && s0 <= self.distance@[c] < current_dist implies #[trigger] self.processing_status@[c]
                            == ProcessingStatus::PROCESSING && blocks_slid(start, *self, c) by {
                        assert(before_data.processing_status@[c] == ProcessingStatus::PROCESSING && blocks_slid(start, before_data, c));
                        if c != cb {
                            assert(self.processing_status@[c] == before[c]);
                        }
                        lemma_slid_kept(start, before_data, *self, c);
                    }
                    assert forall|x: (usize, usize, usize)|
                        (x.0 as int) < fact(self.size as nat) && (x.1 as int) < self.size && (x.2 as int) < self.size
                            && cell_free(start, x) && !#[trigger] cell_free(*self, x) implies self.distance@[x.0 as int]
                            <= current_dist + 1 by {
                        if x.0 as int != cb {
                            assert(!cell_free(before_data, x));
                        }
                    }
                    assert forall|c: int|
                        0 <= c < start.distance@.len() && self.processing_status@[c] == ProcessingStatus::PROCESSING
                            && start.processing_status@[c] != ProcessingStatus::PROCESSING implies #[trigger] blocks_slid(start, *self, c)
                            || current_batch@.contains(c as usize) by {
                        if c == cb {
                            assert(current_batch@[t as int] == c as usize);
                        } else {
                            assert(self.processing_status@[c] == before[c]);
                            if blocks_slid(start, before_data, c) {
                                lemma_slid_kept(start, before_data, *self, c);
                            }
                        }
                    }
                    if ran {
                        assert forall|c: int|
                            0 <= c < start.distance@.len() && start.distance@[c] == s0 implies #[trigger] self.processing_status@[c]
                                == ProcessingStatus::PROCESSING by {
                            if c != cb {
                                assert(self.processing_status@[c] == before[c]);
                            }
                        }
                    }
                    assert forall|x: int| 0 <= x < t + 1 implies #[trigger] self.processing_status@[current_batch@[x] as int]
                        == ProcessingStatus::PROCESSING by {
                        if current_batch@[x] != current_batch@[t as int] {
                            assert(self.processing_status@[current_batch@[x] as int] == before[current_batch@[x] as int]);
                        }
                    }
                    assert forall|c: int|
                        0 <= c < self.distance@.len() && self.distance@[c] < current_dist implies #[trigger] self.processing_status@[c]
                            != ProcessingStatus::UNPROCESSED by {
                        if c != current_batch@[t as int] as int {
                            assert(self.processing_status@[c] == before[c]);
                        }
                    }
                }
            }
            proof {
                assert forall|c: int|
                    0 <= c < self.distance@.len() && self.distance@[c] <= current_dist implies #[trigger] self.processing_status@[c]
                        != ProcessingStatus::UNPROCESSED by {
                    if self.distance@[c] == current_dist {
                        assert(current_batch@.contains(c as usize));
                        let x = choose|x: int| 0 <= x < current_batch@.len() && current_batch@[x] == c as usize;
                        assert(self.processing_status@[current_batch@[x] as int] == ProcessingStatus::PROCESSING);
                    }
                }
                assert(current_batch@.subrange(0, blen as int) =~= current_batch@);
            }
            for t in 0..blen
                invariant
                    blen == current_batch@.len(),
                    self.well_formed(),
                    n == self.size,
                    total == fact(n as nat),
                    current_dist <= 96,
                    start.size == self.size,
                    start.adjacency_calculator == self.adjacency_calculator,
                    start.reduced_code == self.reduced_code,
                    start.distance@.len() == self.distance@.len(),
                    forall|c: int| 0 <= c < start.distance@.len() ==> #[trigger] self.distance@[c] <= start.distance@[c],
                    table_sound(n, start.distance@) ==> table_sound(n, self.distance@),
                table_sound(n, start.distance@) ==> table_sound(n, self.distance@),
                    forall|x: int| 0 <= x < current_batch@.len() ==> (#[trigger] current_batch@[x] as int) < total
                        && self.distance@[current_batch@[x] as int] == current_dist
                        && self.processing_status@[current_batch@[x] as int] == ProcessingStatus::PROCESSING,
                    forall|c: int|
                        0 <= c < self.distance@.len() && self.distance@[c] <= current_dist ==> #[trigger] self.processing_status@[c]
                            != ProcessingStatus::UNPROCESSED,
                    taken_near(start, *self, current_dist + 1),
                    total <= 479001600,
                    forall|c: int|
                        0 <= c < start.distance@.len() && self.processing_status@[c] == ProcessingStatus::PROCESSING
                            && start.processing_status@[c] != ProcessingStatus::PROCESSING ==> #[trigger] blocks_slid(start, *self, c)
                            || current_batch@.subrange(t as int, blen as int).contains(c as usize),
                    ran ==> forall|c: int|
                        0 <= c < start.distance@.len() && start.distance@[c] == s0 ==> #[trigger] self.processing_status@[c]
                            == ProcessingStatus::PROCESSING,
                    forall|c: int| 0 <= c < total && d_batch[c] == current_dist ==> #[trigger] current_batch@.contains(c as usize),
                    !ran ==> d_batch == start.distance@,
                    d_batch.len() == self.distance@.len(),
                    walked_between(start, *self, s0 as int, current_dist as int),
                    forall|x: int| 0 <= x < t ==> blocks_slid(start, *self, #[trigger] current_batch@[x] as int),
                    forall|c: int|
                        0 <= c < self.distance@.len() ==> #[trigger] self.distance@[c] == d_batch[c] || self.distance@[c]
                            == current_dist + 1,
            {
                let code = current_batch[t];
                let ghost before = *self;
                self.process_permutation_paralleled(code);
                proof {
                    assert(walked_from(before, *self, code as int));
                    lemma_walk_step(start, before, *self, code as int, current_dist + 1);
                    let cells0 = adjacent_cells(before, code as int);
                    assert forall|c: int|
                        0 <= c < self.distance@.len() && s0 <= self.distance@[c] < current_dist implies #[trigger] self.processing_status@[c]
                            == ProcessingStatus::PROCESSING && blocks_slid(start, *self, c) by {
                        if touches(cells0, c) {
                            assert(self.distance@[c] == current_dist + 1);
                        }
                        assert(self.distance@[c] == before.distance@[c]);
                        assert(before.processing_status@[c] == ProcessingStatus::PROCESSING && blocks_slid(start, before, c));
                        lemma_slid_kept(start, before, *self, c);
                    }
                    assert forall|x: int| 0 <= x < t + 1 implies blocks_slid(start, *self, #[trigger] current_batch@[x] as int) by {
                        if x < t {
                            let c = current_batch@[x] as int;
                            assert(before.processing_status@[c] == ProcessingStatus::PROCESSING);
                            lemma_slid_kept(start, before, *self, c);
                        }
                    }
                    assert forall|c: int|
                        0 <= c < self.distance@.len() implies #[trigger] self.distance@[c] == d_batch[c] || self.distance@[c]
                            == current_dist + 1 by {
                        if !touches(cells0, c) {
                            assert(self.distance@[c] == before.distance@[c]);
                        }
                    }
                    assert forall|c: int|
                        0 <= c < start.distance@.len() && self.processing_status@[c] == ProcessingStatus::PROCESSING
                            && start.processing_status@[c] != ProcessingStatus::PROCESSING implies #[trigger] blocks_slid(start, *self, c)
                            || current_batch@.subrange(t + 1, blen as int).contains(c as usize) by {
                        if c != code as int {
                            assert(before.processing_status@[c] == ProcessingStatus::PROCESSING);
                            if blocks_slid(start, before, c) {
                                lemma_slid_kept(start, before, *self, c);
                            } else {
                                let w = choose|w: int|
                                    0 <= w < current_batch@.subrange(t as int, blen as int).len()
                                        && current_batch@.subrange(t as int, blen as int)[w] == c as usize;
                                assert(current_batch@.subrange(t as int, blen as int)[w] == current_batch@[t + w]);
                                assert(w != 0);
                                assert(current_batch@.subrange(t + 1, blen as int)[w - 1] == c as usize);
                            }
                        }
                    }
                    let cells = adjacent_cells(before, code as int);
                    assert forall|c: int| 0 <= c < start.distance@.len() implies #[trigger] self.distance@[c] <= start.distance@[c] by {
                        if touches(cells, c) {
                            assert(before.processing_status@[c] == ProcessingStatus::UNPROCESSED);
                            assert(before.distance@[c] > current_dist);
                        }
                        assert(before.distance@[c] <= start.distance@[c]);
                    }
                    assert forall|x: int| 0 <= x < current_batch@.len() implies (#[trigger] current_batch@[x] as int) < total
                        && self.distance@[current_batch@[x] as int] == current_dist
                        && self.processing_status@[current_batch@[x] as int] == ProcessingStatus::PROCESSING by {
                        let c = current_batch@[x] as int;
                        if touches(cells, c) {
                            assert(before.processing_status@[c] == ProcessingStatus::UNPROCESSED);
                        }
                    }
                    assert forall|c: int|
                        0 <= c < self.distance@.len() && self.distance@[c] <= current_dist implies #[trigger] self.processing_status@[c]
                            != ProcessingStatus::UNPROCESSED by {
                        if touches(cells, c) {
                            assert(self.distance@[c] == current_dist + 1);
                        }
                    }
                }
            }
            proof {
                assert forall|c: int|
                    0 <= c < start.distance@.len() && start.distance@[c] == s0 implies #[trigger] self.processing_status@[c]
                        == ProcessingStatus::PROCESSING by {
                    if !ran {
                        assert(d_batch[c] == current_dist);
                        assert(current_batch@.contains(c as usize));
                        let x = choose|x: int| 0 <= x < current_batch@.len() && current_batch@[x] == c as usize;
                        assert(self.processing_status@[current_batch@[x] as int] == ProcessingStatus::PROCESSING);
                    }
                }
                assert forall|c: int|
                    0 <= c < start.distance@.len() && self.processing_status@[c] == ProcessingStatus::PROCESSING
                        && start.processing_status@[c] != ProcessingStatus::PROCESSING implies #[trigger] blocks_slid(start, *self, c) by {
                    assert(current_batch@.subrange(blen as int, blen as int).len() == 0);
                }
                lemma_taken_wider(start, *self, current_dist + 1, current_dist + 2);
                assert forall|c: int|
                    0 <= c < self.distance@.len() && s0 <= self.distance@[c] < current_dist + 1 implies #[trigger] self.processing_status@[c]
                        == ProcessingStatus::PROCESSING && blocks_slid(start, *self, c) by {
                    if self.distance@[c] == current_dist {
                        assert(d_batch[c] == current_dist);
                        assert(current_batch@.contains(c as usize));
                        let x = choose|x: int| 0 <= x < current_batch@.len() && current_batch@[x] == c as usize;
                        assert(blocks_slid(start, *self, current_batch@[x] as int));
                        assert(self.processing_status@[current_batch@[x] as int] == ProcessingStatus::PROCESSING);
                    }
                }
            }
            current_dist = current_dist + 1;
            proof {
                ran = true;
            }
            max_dist = self.get_max_dist();
            proof {
                if self.distance@.len() > 0 {
                    let c = choose|c: int| 0 <= c < self.distance@.len() && max_dist == #[trigger] self.distance@[c];
                }
            }
        }
        proof {
            assert forall|c: int|
                0 <= c < self.distance@.len() && s0 <= self.distance@[c] && three_short_of_some(self.distance@, c)
                    implies #[trigger] self.processing_status@[c] == ProcessingStatus::PROCESSING && blocks_slid(start, *self, c) by {
                let c2 = choose|c2: int| 0 <= c2 < self.distance@.len() && #[trigger] self.distance@[c2] >= self.distance@[c] + 3;
                assert(self.distance@[c2] <= max_dist);
            }
        }
    }

    /// The data of a size from 1 to 12, from that of the smaller sizes: the
    /// reduced forms, the starting distances (see `init_distance`), nothing
    /// reached and nothing processed, then the batches (see
    /// `process_permutations`, `batches_marked` and `batches_walked`).
    pub fn init(size: usize, previous_size_data: &Vec<PermutationsData>) -> (r: PermutationsData)
        requires
            1 <= size <= 12,
            previous_ok(previous_size_data@, size as int),
        ensures
            r.well_formed(),
            r.size == size,
            sound_before(previous_size_data@, size as int) ==> table_sound(size as int, r.distance@),
            forall|c: int|
                0 <= c < r.distance@.len() ==> #[trigger] r.distance@[c] <= if r.reduced_code@[c].0 == size {
                    99u8
                } else {
                    previous_size_data@[r.reduced_code@[c].0 as int].distance@[r.reduced_code@[c].1 as int]
                },
            batches_marked(r, start_distances(previous_size_data@, r.reduced_code@, size as int)),
            batches_walked(r, start_distances(previous_size_data@, r.reduced_code@, size as int)),
    {
        let mut permutations_data = PermutationsData {
            size,
            distance: vec![],
            adjacency_calculator: AdjacencyCalculator::init(size),
            reduced_code: vec![],
            processing_status: vec![],
            end_mask: vec![],
        };
        proof {
            permutations_data.adjacency_calculator.lemma_well_formed_facts();
        }
        permutations_data.init_reduced_code();
        permutations_data.init_distance(&previous_size_data);
        permutations_data.init_end_mask();
        permutations_data.init_processing_status();
        let ghost before = permutations_data;
        proof {
            assert(before.distance@ =~= start_distances(previous_size_data@, before.reduced_code@, size as int));
        }
        permutations_data.process_permutations();
        proof {
            let n = size as int;
            let fin = permutations_data;
            assert(batches_done(before, fin, starting_dist(before) as int));
            assert forall|c: int, i: int, j: int|
                0 <= c < fin.distance@.len() && 0 <= i <= j < fin.size - 1 && fin.processing_status@[c]
                    == ProcessingStatus::PROCESSING implies #[trigger] slid_first(fin, c, i, j) by {
                assert(before.processing_status@[c] == ProcessingStatus::UNPROCESSED);
                assert(blocks_slid(before, fin, c));
                assert(first_slide_done(before, fin, c, i, j));
                let x = landing(n, c, i, j, j + 1);
                lemma_slide_code_range(n, c, j - i + 1, j, j + 1);
                lemma_zero_mask(x.2 as u16);
                assert(before.end_mask@[x.0 as int]@[x.1 as int] == 0);
                assert(cell_free(before, x));
            }
        }
        return permutations_data;
    }

    /// The number of codes whose reduced form keeps the size, and the sum
    /// of the distances of their reduced forms.
    pub fn distance_summary(&self) -> (r: (usize, u64))
        requires
            forall|c: int|
                0 <= c < self.reduced_code@.len() && #[trigger] self.reduced_code@[c].0 == self.size ==> (
                self.reduced_code@[c].1 as int) < self.distance@.len(),
            distances_bounded(self.distance@),
            self.reduced_code@.len() <= u32::MAX,
        ensures
            r.0 == pure_count(self.reduced_code@, self.size as int, self.reduced_code@.len() as int),
            r.1 == pure_distance_total(self.distance@, self.reduced_code@, self.size as int, self.reduced_code@.len() as int),
    {
        let ghost n = self.size as int;
        let len = self.reduced_code.len();
        let mut total_count: usize = 0;
        let mut total_steps: u64 = 0;
        for code in 0..len
            invariant
                len == self.reduced_code@.len(),
                len <= u32::MAX,
                n == self.size,
                forall|c: int|
                    0 <= c < self.reduced_code@.len() && #[trigger] self.reduced_code@[c].0 == self.size ==> (
                    self.reduced_code@[c].1 as int) < self.distance@.len(),
                distances_bounded(self.distance@),
                total_count == pure_count(self.reduced_code@, n, code as int),
                total_steps == pure_distance_total(self.distance@, self.reduced_code@, n, code as int),
                total_count <= code,
                total_steps <= 99 * code,
        {
            let pair = self.reduced_code[code];
            if pair.0 == self.size {
                total_count = total_count + 1;
                total_steps = total_steps + self.get_distance(pair.1 as usize) as u64;
            }
        }
        (total_count, total_steps)
    }
}

/// How many of the first `k` codes have a reduced form of size `n`.
pub open spec fn pure_count(rc: Seq<(usize, u32)>, n: int, k: int) -> int
    decreases k,
{
    if k <= 0 {
        0
    } else {
        pure_count(rc, n, k - 1) + if rc[k - 1].0 as int == n { 1int } else { 0int }
    }
}

/// The sum of the distances of the reduced forms of size `n` among the first
/// `k` codes.
pub open spec fn pure_distance_total(d: Seq<u8>, rc: Seq<(usize, u32)>, n: int, k: int) -> int
    decreases k,
{
    if k <= 0 {
        0
    } else {
        pure_distance_total(d, rc, n, k - 1) + if rc[k - 1].0 as int == n { d[rc[k - 1].1 as int] as int } else { 0int }
    }
}

/// The data of the size 0: one code, the empty permutation, at distance 0.
pub open spec fn is_size_zero_data(d: PermutationsData) -> bool {
    &&& d.size == 0
    &&& d.distance@ == seq![0u8]
    &&& d.reduced_code@ == seq![(0usize, 0u32)]
    &&& d.processing_status@.len() == 0
    &&& d.end_mask@.len() == 0
}

/// The data of every size below `max_size` (at least the size 0), each
/// from the ones before it (see `PermutationsData::init`).
#[verifier::spinoff_prover]
#[verifier::rlimit(40)]
pub fn generate_data_for_size_up_to(max_size: usize) -> (r: Vec<PermutationsData>)
    requires
        max_size <= 13,
    ensures
        r@.len() == if max_size == 0 { 1 } else { max_size as int },
        is_size_zero_data(r@[0]),
        forall|m: int| 1 <= m < r@.len() ==> (#[trigger] r@[m]).well_formed() && r@[m].size == m,
        forall|m: int| 1 <= m < r@.len() ==> (#[trigger] r@[m]).distance@[0] == 0,
        sound_before(r@, r@.len() as int),
        forall|m: int, c: int|
            1 <= m < r@.len() && exact_before(r@, m) && 0 <= c < r@[m].distance@.len() && r@[m].reduced_code@[c].0 != m
                ==> #[trigger] exact_at(m, r@[m].distance@, c),
        forall|m: int, c: int|
            1 <= m < r@.len() && 0 <= c < r@[m].distance@.len() ==> #[trigger] r@[m].distance@[c] <= if r@[m].reduced_code@[c].0
                == m {
                99u8
            } else {
                r@[r@[m].reduced_code@[c].0 as int].distance@[r@[m].reduced_code@[c].1 as int]
            },
        forall|m: int| 1 <= m < r@.len() ==> batches_marked(#[trigger] r@[m], start_distances(r@, r@[m].reduced_code@, m)),
        forall|m: int| 1 <= m < r@.len() ==> batches_walked(#[trigger] r@[m], start_distances(r@, r@[m].reduced_code@, m)),
{
    let mut permutations_data = vec![
        PermutationsData {
            size: 0,
            distance: vec![0],
            adjacency_calculator: AdjacencyCalculator::init(0),
            reduced_code: vec![(0, 0)],
            processing_status: vec![],
            end_mask: vec![],
        },
    ];
    proof {
        lemma_small_facts();
        assert(permutations_data@[0].distance@ =~= seq![0u8]);
        assert(permutations_data@[0].reduced_code@ =~= seq![(0usize, 0u32)]);
        crate::permutation::distance_calculator::lemma_size_zero_sound(permutations_data@[0].distance@);
    }
    let mut size: usize = 1;
    while size < max_size
        invariant
            max_size <= 13,
            1 <= size,
            size <= max_size || size == 1,
            permutations_data@.len() == size,
            is_size_zero_data(permutations_data@[0]),
            forall|m: int| 1 <= m < size ==> (#[trigger] permutations_data@[m]).well_formed() && permutations_data@[m].size == m,
            forall|m: int| 1 <= m < size ==> (#[trigger] permutations_data@[m]).distance@[0] == 0,
            sound_before(permutations_data@, size as int),
            forall|m: int, c: int|
                1 <= m < size && exact_before(permutations_data@, m) && 0 <= c < permutations_data@[m].distance@.len()
                    && permutations_data@[m].reduced_code@[c].0 != m ==> #[trigger] exact_at(m, permutations_data@[m].distance@, c),
            forall|m: int, c: int|
                1 <= m < size && 0 <= c < permutations_data@[m].distance@.len() ==> #[trigger] permutations_data@[m].distance@[c]
                    <= if permutations_data@[m].reduced_code@[c].0 == m {
                    99u8
                } else {
                    permutations_data@[permutations_data@[m].reduced_code@[c].0 as int].distance@[permutations_data@[m].reduced_code@[c].1 as int]
                },
            forall|m: int|
                1 <= m < size ==> batches_marked(
                    #[trigger] permutations_data@[m],
                    start_distances(permutations_data@, permutations_data@[m].reduced_code@, m),
                ),
            forall|m: int|
                1 <= m < size ==> batches_walked(
                    #[trigger] permutations_data@[m],
                    start_distances(permutations_data@, permutations_data@[m].reduced_code@, m),
                ),
        decreases max_size - size,
    {
        proof {
            assert forall|m: int| 0 <= m < size implies (#[trigger] permutations_data@[m]).distance@.len() == fact(m as nat)
                && distances_bounded(permutations_data@[m].distance@) by {
                if m == 0 {
                    assert(distances_bounded(permutations_data@[0].distance@));
                }
            }
        }
        let cur_size_permutations_data = PermutationsData::init(size, &permutations_data);
        let ghost prev = permutations_data@;
        permutations_data.push(cur_size_permutations_data);
        proof {
            assert forall|m: int| 1 <= m < size + 1 implies batches_marked(
                #[trigger] permutations_data@[m],
                start_distances(permutations_data@, permutations_data@[m].reduced_code@, m),
            ) by {
                let rc = permutations_data@[m].reduced_code@;
                assert forall|c: int| 0 <= c < fact(m as nat) && rc[c].0 != m as usize implies (rc[c].0 as int) < m by {
                    assert(rc[c] == reduced_form(m, c));
                    lemma_reduced_form_bounds(m, c);
                }
                assert(start_distances(permutations_data@, rc, m) =~= start_distances(prev, rc, m));
                if m < size {
                    assert(permutations_data@[m] == prev[m]);
                } else {
                    assert(permutations_data@[m] == cur_size_permutations_data);
                }
            }
            assert forall|m: int| 1 <= m < size + 1 implies batches_walked(
                #[trigger] permutations_data@[m],
                start_distances(permutations_data@, permutations_data@[m].reduced_code@, m),
            ) by {
                let rc = permutations_data@[m].reduced_code@;
                assert forall|c: int| 0 <= c < fact(m as nat) && rc[c].0 != m as usize implies (rc[c].0 as int) < m by {
                    assert(rc[c] == reduced_form(m, c));
                    lemma_reduced_form_bounds(m, c);
                }
                assert(start_distances(permutations_data@, rc, m) =~= start_distances(prev, rc, m));
                if m < size {
                    assert(permutations_data@[m] == prev[m]);
                } else {
                    assert(permutations_data@[m] == cur_size_permutations_data);
                }
            }
            assert forall|m: int, c: int|
                1 <= m < size + 1 && 0 <= c < permutations_data@[m].distance@.len() implies #[trigger] permutations_data@[m].distance@[c]
                    <= if permutations_data@[m].reduced_code@[c].0 == m {
                    99u8
                } else {
                    permutations_data@[permutations_data@[m].reduced_code@[c].0 as int].distance@[permutations_data@[m].reduced_code@[c].1 as int]
                } by {
                if m < size {
                    assert(permutations_data@[m] == prev[m]);
                    if permutations_data@[m].reduced_code@[c].0 != m {
                        lemma_reduced_form_bounds(m, c);
                        assert(permutations_data@[permutations_data@[m].reduced_code@[c].0 as int] == prev[prev[m].reduced_code@[c].0 as int]);
                    }
                } else {
                    if permutations_data@[m].reduced_code@[c].0 != m {
                        lemma_reduced_form_bounds(m, c);
                        assert(permutations_data@[permutations_data@[m].reduced_code@[c].0 as int] == prev[prev.len() - 1 - (prev.len() - 1 - permutations_data@[m].reduced_code@[c].0 as int)]);
                    }
                }
            }
        }
        proof {
            lemma_sorted_reduced_form(size as int);
            lemma_fact_pos(size as nat);
            let cur = permutations_data@[size as int];
            assert(cur.reduced_code@[0] == reduced_form(size as int, 0));
            assert(cur.distance@[0] <= prev[0].distance@[0]);
            assert forall|m: int| 1 <= m < size + 1 implies (#[trigger] permutations_data@[m]).distance@[0] == 0 by {
                if m < size {
                    assert(permutations_data@[m] == prev[m]);
                }
            }
            assert forall|m: int| 0 <= m < size + 1 implies table_sound(m, #[trigger] permutations_data@[m].distance@) by {
                if m < size {
                    assert(permutations_data@[m] == prev[m]);
                }
            }
            assert forall|m: int, c: int|
                1 <= m < size + 1 && exact_before(permutations_data@, m) && 0 <= c < permutations_data@[m].distance@.len()
                    && permutations_data@[m].reduced_code@[c].0 != m implies #[trigger] exact_at(m, permutations_data@[m].distance@, c) by {
                lemma_exact_before_prefix(permutations_data@, prev, m);
                if m < size {
                    assert(permutations_data@[m] == prev[m]);
                } else {
                    let fin = permutations_data@[m];
                    let rc = fin.reduced_code@;
                    assert(rc[c] == reduced_form(m, c));
                    lemma_reduced_form_bounds(m, c);
                    let p = perm_of_code(m, c);
                    let r = reduce_spec(p);
                    lemma_reduce_is_permutation(p);
                    lemma_lehmer_range(r, r.len() as int);
                    lemma_small_facts();
                    lemma_fact_monotone(r.len() as nat, 12);
                    let rs = rc[c].0 as int;
                    assert(rs == r.len());
                    assert(rc[c].1 as int == lehmer_value(r));
                    assert(prev[rs].distance@.len() == fact(rs as nat));
                    assert(exact_at(rs, prev[rs].distance@, rc[c].1 as int));
                    crate::permutation::distance_calculator::lemma_reduced_exact(m, c, prev[rs].distance@);
                    let big_d = prev[rs].distance@[rc[c].1 as int];
                    assert(fin.distance@[c] <= big_d);
                    if fin.distance@[c] < big_d {
                        assert(sortable_within(perm_of_code(m, c), fin.distance@[c] as nat));
                        assert(!sortable_within(perm_of_code(m, c), fin.distance@[c] as nat));
                    }
                }
            }
        }
        size = size + 1;
    }
    return permutations_data;
}

} // verus!
