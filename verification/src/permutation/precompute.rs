//! First steps towards a table of single-item moves between permutations.
use vstd::prelude::*;
use crate::permutation::theory::{is_permutation, sum_fact, lemma_sum_fact_monotone};
use crate::permutation::permutation_label::{get_permutation_from_label, get_label_for_permutation, sum_factorial, lemma_label_size_bounds};

verus! {

/// `p` with the item at `item_pos` taken out and put back in front of
/// position `move_to_before`.
pub open spec fn moved_item(p: Seq<u8>, item_pos: int, move_to_before: int) -> Seq<u8> {
    p.subrange(0, move_to_before).push(p[item_pos]) + p.subrange(move_to_before, item_pos) + p.subrange(
        item_pos + 1,
        p.len() as int,
    )
}

/// Moving one item keeps a permutation a permutation.
pub proof fn lemma_moved_item_permutation(p: Seq<u8>, n: int, item_pos: int, move_to_before: int)
    requires
        is_permutation(p, n),
        0 <= move_to_before <= item_pos < n,
    ensures
        is_permutation(moved_item(p, item_pos, move_to_before), n),
{
    let r = moved_item(p, item_pos, move_to_before);
    let to = move_to_before;
    let src = |k: int|
        if k < to {
            k
        } else if k == to {
            item_pos
        } else if k <= item_pos {
            k - 1
        } else {
            k
        };
    assert(r.len() == n);
    assert forall|k: int| 0 <= k < n implies r[k] == p[src(k)] && 0 <= src(k) < n by {}
    assert forall|i: int| 0 <= i < n implies (#[trigger] r[i] as int) < n by {
        assert(r[i] == p[src(i)]);
    }
    assert forall|i: int, j: int| 0 <= i < j < n implies #[trigger] r[i] != #[trigger] r[j] by {
        assert(r[i] == p[src(i)]);
        assert(r[j] == p[src(j)]);
        assert(src(i) != src(j));
        if src(i) < src(j) {
            assert(p[src(i)] != p[src(j)]);
        } else {
            assert(p[src(j)] != p[src(i)]);
        }
    }
}

/// Every label lies at or above the first label of the given size (and
/// below the labels of size 13), so that its permutation has at least that
/// many items.
pub open spec fn labels_of_size_at_least(labels: Seq<u32>, size: int) -> bool {
    forall|k: int|
        0 <= k < labels.len() ==> (#[trigger] labels[k] as int) < sum_fact(12) && (size == 0 || sum_fact(
            (size - 1) as nat,
        ) <= labels[k] as int)
}

/// A grid of zeros of dimensions `d1 x d2 x d3`.
pub open spec fn is_zero_grid(g: Seq<Vec<Vec<u32>>>, d1: int, d2: int, d3: int) -> bool {
    &&& g.len() == d1
    &&& forall|a: int| 0 <= a < d1 ==> (#[trigger] g[a])@.len() == d2
    &&& forall|a: int, b: int| 0 <= a < d1 && 0 <= b < d2 ==> (#[trigger] g[a]@[b])@.len() == d3
    &&& forall|a: int, b: int, c: int|
        0 <= a < d1 && 0 <= b < d2 && 0 <= c < d3 ==> #[trigger] g[a]@[b]@[c] == 0
}

/// For each given label and each pair `i <= j < size`, moves the item at
/// `j` in front of position `i` and labels the result; the grid it returns,
/// indexed by label and the two positions, is not filled yet and holds zeros.
pub fn pre_compute(pure_perm_labels: Vec<u32>, size: usize) -> (r: Vec<Vec<Vec<u32>>>)
    requires
        size <= 12,
        labels_of_size_at_least(pure_perm_labels@, size as int),
    ensures
        is_zero_grid(r@, sum_fact(size as nat) as int, size as int, size as int),
{
    let total_permutation_labels = sum_factorial(size as u32);
    let mut grid_3d = initialize_3d_grid(total_permutation_labels as usize, size, size);

    for idx in 0..pure_perm_labels.len()
        invariant
            size <= 12,
            labels_of_size_at_least(pure_perm_labels@, size as int),
            is_zero_grid(grid_3d@, sum_fact(size as nat) as int, size as int, size as int),
    {
        let label = pure_perm_labels[idx];
        let permutation = get_permutation_from_label(label);
        proof {
            lemma_label_size_bounds(permutation@);
            if size > 0 && permutation@.len() < size {
                lemma_sum_fact_monotone(permutation@.len() as nat, (size - 1) as nat);
                assert(permutation@.len() > 0) by {
                    assert(sum_fact(0) == 1);
                    lemma_sum_fact_monotone(0, (size - 1) as nat);
                }
            }
        }
        for i in 0..size
            invariant
                is_permutation(permutation@, permutation@.len() as int),
                size <= permutation@.len() <= 12,
        {
            for j in i..size
                invariant
                    is_permutation(permutation@, permutation@.len() as int),
                    size <= permutation@.len() <= 12,
                    i < size,
            {
                let new_permutation: Vec<u8> = permutation_move_item(&permutation, j, i);
                proof {
                    lemma_moved_item_permutation(permutation@, permutation@.len() as int, j as int, i as int);
                }
                let new_label = get_label_for_permutation(&new_permutation);
            }
        }
    }
    return grid_3d;
}

/// `permutation` with the item at `item_pos` moved in front of `move_to_before`.
pub fn permutation_move_item(permutation: &Vec<u8>, item_pos: usize, move_to_before: usize) -> (r: Vec<u8>)
    requires
        move_to_before <= item_pos < permutation@.len(),
    ensures
        r@ == moved_item(permutation@, item_pos as int, move_to_before as int),
{
    let mut new_permutation: Vec<u8> = vec![];
    for pos in 0..move_to_before
        invariant
            move_to_before <= item_pos < permutation@.len(),
            new_permutation@ =~= permutation@.subrange(0, pos as int),
    {
        new_permutation.push(permutation[pos]);
    }
    new_permutation.push(permutation[item_pos]);
    let ghost head = new_permutation@;
    for pos in move_to_before..item_pos
        invariant
            move_to_before <= item_pos < permutation@.len(),
            new_permutation@ =~= head + permutation@.subrange(move_to_before as int, pos as int),
    {
        new_permutation.push(permutation[pos]);
    }
    let ghost middle = new_permutation@;
    for pos in item_pos + 1..permutation.len()
        invariant
            move_to_before <= item_pos < permutation@.len(),
            new_permutation@ =~= middle + permutation@.subrange(item_pos + 1, pos as int),
    {
        new_permutation.push(permutation[pos]);
    }
    new_permutation
}

/// A `d1 x d2 x d3` grid of zeros.
pub fn initialize_3d_grid(d1: usize, d2: usize, d3: usize) -> (r: Vec<Vec<Vec<u32>>>)
    ensures
        is_zero_grid(r@, d1 as int, d2 as int, d3 as int),
{
    let row = vec![0 as u32; d3];
    let plane = vec![row; d2];
    let grid_3d = vec![plane; d1 as usize];
    proof {
        assert forall|c: int| 0 <= c < d3 implies row@[c] == 0 by {
            assert(vstd::pervasive::cloned(0u32, row@[c]));
        }
        assert forall|b: int| 0 <= b < d2 implies plane@[b]@ == row@ by {
            assert(vstd::pervasive::cloned(row, plane@[b]));
        }
        assert forall|a: int| 0 <= a < d1 implies #[trigger] grid_3d@[a]@.len() == d2 && forall|b: int| 0 <= b < d2 ==> grid_3d@[a]@[b]@ == row@ by {
            assert(vstd::pervasive::cloned(plane, grid_3d@[a]));
        }
    }
    return grid_3d;
}

} // verus!
