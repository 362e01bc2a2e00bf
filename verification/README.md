# permutations_sorting

Distances of permutations from the identity under block transpositions
(swapping two adjacent blocks), computed for every permutation of each size
by Lehmer code, in Verus.

- `src/permutation_label.rs`, `src/permutation/permutation_label.rs`:
  factorials, labels and Lehmer codes of permutations, both ways.
- `src/permutation/theory.rs`: the model the contracts speak of (Lehmer
  values, permutations of a code, counts).
- `src/permutation/permutation_helper.rs`, `reduction_lift.rs`: reduction of
  a permutation (runs of consecutive values collapse, a fixed first or last
  value is dropped) and the proof that a permutation and its reduced form
  need the same number of block transpositions.
- `src/permutation/adjacency_calculator.rs`, `slide.rs`, `precompute.rs`:
  how a Lehmer code changes when one item moves.
- `src/permutation/block_walk.rs`: a block sliding right as a block
  transposition, and the walks the searches make.
- `src/permutation/distance_calculator.rs` and its
  `distance_calculator_mem_efficient.rs`: the distance tables, size by size.
- `app/main.rs`: reads a size and prints a summary of each table.

What the contracts state of the tables: every known distance is achieved
by that many block transpositions; a reducible permutation's distance is
that of its reduced form; each walk of a block lowers every code it reaches
through open cells to at most one more than the walking code; the first
pass over the pure permutations bounds each one by its neighbours. That the
searches end with the least number of moves for every permutation is
checked by the tests against a breadth-first search for the small sizes.
