use permutations_sorting::permutation::permutations_generator::{generate_permutations, generate_permutations_up_to_size};
use permutations_sorting::permutation::permutation_label::get_permutation_from_lehmer_code;
use permutations_sorting::permutation::precompute::{initialize_3d_grid, permutation_move_item, pre_compute};
use permutations_sorting::permutation::pure_permutations_generator::PermutationTracker;
use permutohedron::LexicalPermutation;
use std::time::Instant;

#[test]
pub fn test_permutation_generation() {
    let mut permutation = vec![1, 2, 3, 4];
    let mut permutations = Vec::new();

    loop {
        permutations.push(permutation.to_vec());
        if !permutation.next_permutation() {
            break;
        }
    }
    assert_eq!(24, permutations.len());
    for permutation in permutations {
        println!("{:?}", permutation);
    }
}

#[test]
pub fn test_permutations_list_generation() {
    let now = Instant::now();
    for size in 0..8 {
        let _permutations_up_to_size_n = generate_permutations_up_to_size(size);
        let elapsed_duration = now.elapsed();
        println!(
            "For size {}, time taken (ms) = {:?}, (s) = {:?}",
            size,
            elapsed_duration.as_millis(),
            elapsed_duration.as_secs()
        );
    }
}

#[test]
fn permutations_listed_in_lexical_order() {
    assert_eq!(generate_permutations(0), vec![Vec::<u8>::new()]);
    assert_eq!(generate_permutations(1), vec![vec![0]]);
    assert_eq!(
        generate_permutations(3),
        vec![vec![0, 1, 2], vec![0, 2, 1], vec![1, 0, 2], vec![1, 2, 0], vec![2, 0, 1], vec![2, 1, 0]]
    );
    let all = generate_permutations(5);
    assert_eq!(all.len(), 120);
    for k in 1..all.len() {
        assert!(all[k - 1] < all[k]);
    }
    let upto = generate_permutations_up_to_size(4);
    assert_eq!(upto.len(), 4);
    assert_eq!(upto[0], vec![vec![0]]);
    assert_eq!(upto[3].len(), 24);
}

#[test]
fn test_pre_compute() {
    let labels = vec![4, 5, 6, 7, 8, 9];
    pre_compute(labels, 3);
}

#[test]
fn moving_one_item() {
    assert_eq!(permutation_move_item(&vec![0, 1, 2, 3], 2, 0), vec![2, 0, 1, 3]);
    assert_eq!(permutation_move_item(&vec![3, 2, 1, 0], 3, 1), vec![3, 0, 2, 1]);
    assert_eq!(permutation_move_item(&vec![3, 2, 1, 0], 1, 1), vec![3, 2, 1, 0]);
    let grid = initialize_3d_grid(2, 3, 4);
    assert_eq!(grid.len(), 2);
    assert_eq!(grid[1].len(), 3);
    assert_eq!(grid[1][2], vec![0, 0, 0, 0]);
}

#[test]
fn test_pure_permutation_tracker_upto_size() {
    let permutation_tracker = PermutationTracker::upto_size(5);

    println!("Permutation Trackers : {:?}", permutation_tracker.pure_lehmer_codes_for_size);
}

#[test]
fn tracker_lists_pure_codes_by_size() {
    let tracker = PermutationTracker::upto_size(4);
    assert_eq!(tracker.pure_lehmer_codes_for_size.len(), 5);
    assert_eq!(tracker.pure_lehmer_codes_for_size[0], vec![0]);
    assert_eq!(tracker.pure_lehmer_codes_for_size[1], Vec::<u32>::new());
    assert_eq!(tracker.pure_lehmer_codes_for_size[2], vec![1]);
    assert_eq!(tracker.pure_lehmer_codes_for_size[3], vec![5]);
    assert_eq!(tracker.pure_lehmer_codes_for_size[4], vec![7, 10, 11, 13, 15, 19, 20, 23]);
}

#[test]
fn generated_order_is_code_order() {
    // the lexicographic list holds the permutation of code c at place c
    for n in 1..7u8 {
        let all = generate_permutations(n);
        for (c, p) in all.iter().enumerate() {
            assert_eq!(*p, get_permutation_from_lehmer_code(n as usize, c));
        }
    }
}
