use permutations_sorting::permutation_label::{factorial, get_label_for_permutation, sum_factorial};

#[test]
fn test_factorial() {
    let factorials = [1, 1, 2, 6, 24];
    for i in 0..factorials.len() {
        assert_eq!(factorials[i], factorial(i as u32));
    }
}

#[test]
fn test_sum_factorial() {
    let sum_factorials = [1, 2, 4, 10, 34];
    for i in 0..sum_factorials.len() {
        assert_eq!(sum_factorials[i], sum_factorial(i as u32));
    }
}

#[test]
fn test_lehmer_from_permutation() {
    let input_permutations: Vec<Vec<u8>> = vec![
        vec![],
        vec![0],
        vec![0, 1],
        vec![1, 0],
        vec![0, 1, 2],
        vec![0, 2, 1],
        vec![1, 0, 2],
        vec![1, 2, 0],
        vec![2, 0, 1],
        vec![2, 1, 0],
    ];

    let expected_output = vec![0, 1, 2, 3, 4, 5, 6, 7, 8, 9];

    for pos in 0..input_permutations.len() {
        let lehmer_code = get_label_for_permutation(input_permutations[pos as usize].clone());
        println!("For Permutation: {:?}, Lehmer Code : {:?}", input_permutations[pos], lehmer_code);
        assert_eq!(lehmer_code, expected_output[pos]);
    }
}

#[test]
fn label_of_larger_sizes() {
    // the first label of size 4 is 0! + 1! + 2! + 3! = 10
    assert_eq!(get_label_for_permutation(vec![0, 1, 2, 3]), 10);
    assert_eq!(get_label_for_permutation(vec![3, 2, 1, 0]), 10 + 23);
    assert_eq!(get_label_for_permutation(vec![1, 0, 3, 2]), 10 + 7);
    assert_eq!(factorial(12), 479001600);
    assert_eq!(sum_factorial(12), 522956314);
}
