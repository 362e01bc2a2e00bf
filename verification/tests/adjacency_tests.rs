use permutations_sorting::permutation::adjacency_calculator::{
    get_bit_count_before_pos_in_mask, get_code_shifting_item_to_new_position,
    get_mask_for_pos_with_items_lesser_than_item_for_code, get_mask_sum_of_bits_position_factorial,
    get_mask_with_bits_set_before, get_masks_for_pos_with_items_lesser_than_item_for_permutation,
    get_permutations_of_size, get_position_factorial_for_set_bits_in_mask,
    get_running_sum_of_item_pos_factorial_for_all_codes, get_running_sum_of_item_pos_factorial_for_code,
    AdjacencyCalculator,
};
use permutations_sorting::permutation::permutation_label::{
    get_lehmer_code_from_permutation, get_permutation_from_lehmer_code,
};

#[test]
fn get_mask_for_pos_with_items_greater_than_item_for_code_test() {
    struct TestCase {
        input_permutation: Vec<u8>,
        expected_mask_vector: Vec<u16>,
    }

    let test_cases = vec![
        TestCase { input_permutation: vec![0, 1, 2, 3], expected_mask_vector: vec![0b0000, 0b0001, 0b0011, 0b0111] },
        TestCase { input_permutation: vec![3, 1, 2, 0], expected_mask_vector: vec![0b0000, 0b1000, 0b1010, 0b1110] },
        TestCase { input_permutation: vec![3, 2, 1, 0], expected_mask_vector: vec![0b0000, 0b1000, 0b1100, 0b1110] },
    ];

    for case in test_cases {
        let input_code = get_lehmer_code_from_permutation(&case.input_permutation);
        let size = (&case).input_permutation.len();
        let returned_mask = get_mask_for_pos_with_items_lesser_than_item_for_code(size, input_code);

        assert_eq!(returned_mask, case.expected_mask_vector);
    }
}

#[test]
fn test_get_mask_sum_of_bits_position_factorial() {
    struct TestCase {
        size: usize,
        expected_output: Vec<u32>,
    }

    let test_cases = vec![
        TestCase { size: 1, expected_output: vec![0, 1] },
        TestCase { size: 2, expected_output: vec![0, 1, 1, 2] },
        TestCase { size: 3, expected_output: vec![0, 2, 1, 3, 1, 3, 2, 4] },
    ];

    for case in test_cases {
        let output = get_mask_sum_of_bits_position_factorial(case.size);
        assert_eq!(output, case.expected_output);
    }
}

#[test]
fn test_adjacency_calculator_init() {
    let _adjacency_calculator = AdjacencyCalculator::init(6);
}

#[test]
fn test_get_masks_for_pos_with_items_lesser_than_item_for_permutation() {
    let _output = get_masks_for_pos_with_items_lesser_than_item_for_permutation(10);
}

#[test]
fn test_get_masks_for_pos_with_items_lesser_than_item_for_permutation_for_small() {
    let output = get_masks_for_pos_with_items_lesser_than_item_for_permutation(3);
    let expected_output = vec![vec![0, 1, 3], vec![0, 1, 5], vec![0, 2, 3], vec![0, 4, 5], vec![0, 2, 6], vec![0, 4, 6]];
    assert_eq!(output, expected_output);
}

#[test]
fn test_get_permutations_of_size_for_small() {
    let output = get_permutations_of_size(3);
    let expected_output = vec![vec![0, 1, 2], vec![0, 2, 1], vec![1, 0, 2], vec![1, 2, 0], vec![2, 0, 1], vec![2, 1, 0]];
    assert_eq!(output, expected_output);
}

#[test]
fn test_time_get_permutations_of_size_for_large() {
    let _output = get_permutations_of_size(10);
}

#[test]
fn test_get_running_sum_of_item_pos_factorial_for_all_codes_for_small() {
    let output = get_running_sum_of_item_pos_factorial_for_all_codes(3);
    let expected_output = vec![
        vec![vec![0, 0, 0], vec![0, 0]],
        vec![vec![0, 1, 1], vec![0, 1]],
        vec![vec![2, 2, 2], vec![1, 1]],
        vec![vec![2, 3, 3], vec![1, 2]],
        vec![vec![4, 4, 4], vec![2, 2]],
        vec![vec![4, 5, 5], vec![2, 3]],
    ];
    assert_eq!(output, expected_output);
}

#[test]
fn test_time_get_running_sum_of_item_pos_factorial_for_all_codes_for_large() {
    let _output = get_running_sum_of_item_pos_factorial_for_all_codes(10);
}

#[test]
fn test_time_get_mask_sum_of_bits_position_factorial_for_all_codes_for_large() {
    let _output = get_mask_sum_of_bits_position_factorial(13);
}

#[test]
fn test_get_delta_for_moving_item() {
    struct TestCase {
        size: u8,
        permutation: Vec<u8>,
        pos_to_move: u8,
        new_after_pos: i8,
        new_permutation: Vec<u8>,
    }

    let test_cases = vec![
        TestCase {
            size: 4,
            permutation: vec![3, 2, 1, 0],
            pos_to_move: 2,
            new_after_pos: 0,
            new_permutation: vec![3, 1, 2, 0],
        },
        TestCase {
            size: 4,
            permutation: vec![0, 1, 2, 3],
            pos_to_move: 2,
            new_after_pos: -1,
            new_permutation: vec![2, 0, 1, 3],
        },
        TestCase {
            size: 4,
            permutation: vec![1, 2, 3, 0],
            pos_to_move: 3,
            new_after_pos: 0,
            new_permutation: vec![1, 0, 2, 3],
        },
    ];

    let adjacency_calculator = AdjacencyCalculator::init(4);

    for case in test_cases {
        let code = get_lehmer_code_from_permutation(&case.permutation);
        let delta = adjacency_calculator.get_delta_for_moving_item(code, case.pos_to_move as usize, case.new_after_pos);
        let new_code = (code as i32 + delta) as u32;

        let new_permutation = get_permutation_from_lehmer_code(case.size as usize, new_code as usize);

        assert_eq!(new_permutation, case.new_permutation);
    }
}

#[test]
fn delta_agrees_with_recomputing_the_code() {
    // every move of every permutation of up to six items: the delta from
    // the tables lands on the code of the moved permutation
    for size in 2..7usize {
        let calculator = AdjacencyCalculator::init(size);
        let total = get_permutations_of_size(size).len() as u32;
        for code in 0..total {
            for old_pos in 1..size {
                for new_after in -1..(old_pos as i8) {
                    let delta = calculator.get_delta_for_moving_item(code, old_pos, new_after);
                    let expected = get_code_shifting_item_to_new_position(size, code, old_pos, new_after);
                    assert_eq!((code as i32 + delta) as u32, expected);
                }
            }
        }
    }
}

#[test]
fn moving_an_item_to_just_after_its_left_neighbour_changes_nothing() {
    let calculator = AdjacencyCalculator::init(5);
    for code in 0..120u32 {
        for old_pos in 1..5usize {
            assert_eq!(calculator.get_delta_for_moving_item(code, old_pos, old_pos as i8 - 1), 0);
        }
    }
}

#[test]
fn shifting_an_item_recodes_the_permutation() {
    // [3, 2, 1, 0] with the item at 2 moved after position 0 is [3, 1, 2, 0]
    let code = get_lehmer_code_from_permutation(&vec![3, 2, 1, 0]);
    let shifted = get_code_shifting_item_to_new_position(4, code, 2, 0);
    assert_eq!(get_permutation_from_lehmer_code(4, shifted as usize), vec![3, 1, 2, 0]);
    // moving an item to where it is keeps the code
    assert_eq!(get_code_shifting_item_to_new_position(4, code, 2, 1), code);
    // to the front
    let id = get_lehmer_code_from_permutation(&vec![0, 1, 2, 3]);
    let front = get_code_shifting_item_to_new_position(4, id, 3, -1);
    assert_eq!(get_permutation_from_lehmer_code(4, front as usize), vec![3, 0, 1, 2]);
}

#[test]
fn mask_helpers() {
    assert_eq!(get_bit_count_before_pos_in_mask(0b1011, 0), 0);
    assert_eq!(get_bit_count_before_pos_in_mask(0b1011, 2), 2);
    assert_eq!(get_bit_count_before_pos_in_mask(0b1011, 4), 3);
    assert_eq!(get_bit_count_before_pos_in_mask(0xffff, 20), 16);
    assert_eq!(get_mask_with_bits_set_before(0), 0);
    assert_eq!(get_mask_with_bits_set_before(-3), 0);
    assert_eq!(get_mask_with_bits_set_before(3), 0b111);
    assert_eq!(get_mask_with_bits_set_before(14), 0x3fff);
    // bits at positions 0 and 2 of size 4 stand for 3! and 1!
    assert_eq!(get_position_factorial_for_set_bits_in_mask(4, 0b101), 7);
    assert_eq!(get_position_factorial_for_set_bits_in_mask(4, 0), 0);
}

#[test]
fn running_sums_for_one_code() {
    // code 5 of size 3 is [2, 1, 0]
    assert_eq!(get_running_sum_of_item_pos_factorial_for_code(3, 5), vec![vec![4, 5, 5], vec![2, 3]]);
}

#[test]
fn single_item_memo_is_empty() {
    let calculator = AdjacencyCalculator::init(3);
    assert_eq!(calculator.get_single_item_transposition_memo(), Vec::<Vec<Vec<u32>>>::new());
}
