pub mod theory;
pub mod mask_bits;
pub mod constants;
pub mod permutation_label;
pub mod permutation_helper;
pub mod permutations_generator;
pub mod precompute;
pub mod pure_permutations_generator;
pub mod slide;
pub mod adjacency_calculator;
pub mod distance_calculator;
pub mod block_walk;
pub mod reduction_lift;
