use permutations_sorting::permutation::permutation_label::{
    factorial, get_all_pure_lehmer_codes_of_size, get_label_for_permutation, get_lehmer_code_from_permutation,
    get_permutation_from_label, get_permutation_from_lehmer_code, get_personal_lehmer_from_permutation,
    sum_factorial,
};
use permutations_sorting::permutation::permutation_helper::reduce_permutation;
use permutations_sorting::permutation::constants::{get_factorial, get_sum_factorials};

#[test]
fn permutation_label_test_factorial() {
    let factorials = [1, 1, 2, 6, 24];
    for i in 0..factorials.len() {
        assert_eq!(factorials[i], factorial(i as u32));
    }
}

#[test]
fn permutation_label_test_sum_factorial() {
    let sum_factorials = [1, 2, 4, 10, 34];
    for i in 0..sum_factorials.len() {
        assert_eq!(sum_factorials[i], sum_factorial(i as u32));
    }
}

#[test]
fn permutation_label_test_lehmer_from_permutation() {
    let input_permutations: Vec<Vec<u8>> = vec![
        vec![],
        vec![0],
        vec![0, 1],
        vec![1, 0],
        vec![0, 1, 2],
        vec![0, 2, 1],
        vec![1, 0, 2],
        vec![1, 2, 0],
        vec![2, 0, 1],
        vec![2, 1, 0],
    ];

    let expected_output = vec![0, 1, 2, 3, 4, 5, 6, 7, 8, 9];

    for pos in 0..input_permutations.len() {
        let lehmer_code = get_label_for_permutation(&input_permutations[pos as usize]);
        println!("For Permutation: {:?}, Lehmer Code : {:?}", input_permutations[pos], lehmer_code);
        assert_eq!(lehmer_code, expected_output[pos]);
    }
}

#[test]
fn get_precompute_data() {
    let mut line = String::from("[");
    for size in 0..13 {
        line.push_str(&format!("{}, ", sum_factorial(size)));
    }
    line.push_str("]");
    println!("{}", line);
}

#[test]
fn test_get_permutation_from_label() {
    let labels = vec![0, 1, 2, 3, 4, 5, 6, 7, 8, 9];

    let expected_output: Vec<Vec<u8>> = vec![
        vec![],
        vec![0],
        vec![0, 1],
        vec![1, 0],
        vec![0, 1, 2],
        vec![0, 2, 1],
        vec![1, 0, 2],
        vec![1, 2, 0],
        vec![2, 0, 1],
        vec![2, 1, 0],
    ];

    for pos in 0..labels.len() {
        let permutation = get_permutation_from_label(labels[pos as usize].clone());
        println!("For Code: {:?}, Permutation : {:?}", labels[pos], permutation);
        assert_eq!(permutation, expected_output[pos]);
    }
}

#[test]
fn test_get_all_pure_lehmer_codes_of_size() {
    for size in 0..5 {
        let lehmer_codes = get_all_pure_lehmer_codes_of_size(size);
        let mut permutations: Vec<Vec<u8>> = vec![];
        for code in &lehmer_codes {
            permutations.push(get_permutation_from_lehmer_code(size as usize, *code as usize));
        }
        println!("size: {}, lehmer_codes: {:?}, permutations: {:?}", size, &lehmer_codes, permutations);
    }
}

#[test]
fn test_lehmer_code_generation() {
    let permutations: Vec<Vec<u8>> = vec![vec![0, 1, 2, 3, 4], vec![4, 3, 2, 1, 0], vec![3, 2, 4, 1, 0]];

    for permutation in permutations {
        let personal_lehmer = get_personal_lehmer_from_permutation(&permutation);
        let module_lehmer = get_lehmer_code_from_permutation(&permutation);
        println!("Permutation: {:?}\n\
        Personal : {}, Module generated : {}", &permutation, personal_lehmer, module_lehmer);
        assert_eq!(personal_lehmer, module_lehmer);
    }
}

#[test]
fn pure_codes_of_small_sizes() {
    assert_eq!(get_all_pure_lehmer_codes_of_size(0), vec![0]);
    assert_eq!(get_all_pure_lehmer_codes_of_size(1), Vec::<u32>::new());
    assert_eq!(get_all_pure_lehmer_codes_of_size(2), vec![1]);
    // [2, 1, 0] is the only pure permutation of three items
    assert_eq!(get_all_pure_lehmer_codes_of_size(3), vec![5]);
    let codes4 = get_all_pure_lehmer_codes_of_size(4);
    let perms: Vec<Vec<u8>> = codes4.iter().map(|c| get_permutation_from_lehmer_code(4, *c as usize)).collect();
    assert_eq!(
        perms,
        vec![
            vec![1, 0, 3, 2],
            vec![1, 3, 0, 2],
            vec![1, 3, 2, 0],
            vec![2, 0, 3, 1],
            vec![2, 1, 3, 0],
            vec![3, 0, 2, 1],
            vec![3, 1, 0, 2],
            vec![3, 2, 1, 0]
        ]
    );
}

#[test]
fn lehmer_round_trip() {
    // a code decodes to a permutation whose code is the code back
    for n in 0..7usize {
        let total = get_factorial(n);
        for code in 0..total {
            let p = get_permutation_from_lehmer_code(n, code as usize);
            assert_eq!(p.len(), n);
            assert_eq!(get_lehmer_code_from_permutation(&p), code);
            assert_eq!(get_personal_lehmer_from_permutation(&p), code);
        }
    }
    // codes are taken modulo n!
    assert_eq!(get_permutation_from_lehmer_code(3, 6), vec![0, 1, 2]);
    assert_eq!(get_permutation_from_lehmer_code(3, 5), vec![2, 1, 0]);
}

#[test]
fn label_round_trip() {
    let end = get_sum_factorials(6);
    for label in 0..end {
        let p = get_permutation_from_label(label);
        assert_eq!(get_label_for_permutation(&p), label);
    }
    assert_eq!(get_sum_factorials(3), 10);
    assert_eq!(get_factorial(5), 120);
}

#[test]
fn test_reduce_permutation() {
    let permutations: Vec<Vec<u8>> = vec![
        vec![0, 1, 4, 3, 2],
        vec![0, 1, 2],
        vec![0, 1, 2, 3],
        vec![0, 2, 1, 3],
        vec![3, 2, 1, 0],
    ];

    let expected_reduced_form: Vec<Vec<u8>> = vec![vec![2, 1, 0], vec![], vec![], vec![1, 0], vec![3, 2, 1, 0]];

    let mut actual_reduced_form: Vec<Vec<u8>> = vec![];

    for permutation in permutations {
        actual_reduced_form.push(reduce_permutation(&permutation));
    }

    for test_case_number in 0..actual_reduced_form.len() {
        assert_eq!(actual_reduced_form[test_case_number], expected_reduced_form[test_case_number]);
    }
}

#[test]
fn reduce_collapses_runs() {
    // runs of consecutive values collapse to one item; a leading 0 and a
    // trailing last item drop off
    assert_eq!(reduce_permutation(&vec![0]), Vec::<u8>::new());
    assert_eq!(reduce_permutation(&vec![1, 0]), vec![1, 0]);
    assert_eq!(reduce_permutation(&vec![2, 3, 0, 1]), vec![1, 0]);
    assert_eq!(reduce_permutation(&vec![1, 2, 0]), vec![1, 0]);
}

#[test]
fn reducing_twice_is_reducing_once() {
    for n in 1..7usize {
        let total = get_factorial(n) as usize;
        for code in 0..total {
            let p = get_permutation_from_lehmer_code(n, code);
            let r = reduce_permutation(&p);
            if !r.is_empty() {
                assert_eq!(reduce_permutation(&r), r);
            }
        }
    }
}

#[test]
fn personal_code_counts_smaller_values_after() {
    // [3, 1, 0, 2]: 3 smaller after 3, 1 after 1, none after 0 and 2
    let p = vec![3u8, 1, 0, 2];
    assert_eq!(get_personal_lehmer_from_permutation(&p), 3 * 6 + 1 * 2 + 0 + 0);
}
