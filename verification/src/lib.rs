//! Exact transposition distances of permutations, with labels built on
//! Lehmer codes and a reduction of permutations to their irreducible form.
pub mod permutation;
pub mod permutation_label;
