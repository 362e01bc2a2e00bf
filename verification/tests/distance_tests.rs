use permutations_sorting::permutation::distance_calculator::{
    generate_data_for_size_up_to, get_all_blocks_for_size, PermutationsData, ProcessingStatus, INVALID_PAIR,
};
use permutations_sorting::permutation::permutation_label::{get_lehmer_code_from_permutation, get_permutation_from_lehmer_code};
use std::collections::HashMap;

struct TestCase {
    size: u8,
    permutations_data: PermutationsData,
    expected_pure_permutations: Vec<Vec<u8>>,
}

fn assert_reduced_code(case: &TestCase) {
    let pure_labels = case.permutations_data.pure_permutations.clone();
    for pure_label in pure_labels {
        let is_pure = case.permutations_data.reduced_code[pure_label as usize].0 == case.size as usize;

        assert_eq!(is_pure, true);
    }
}

fn assert_pure_permutations(case: &TestCase) {
    let mut pure_permutations = vec![];
    let pure_labels = case.permutations_data.pure_permutations.clone();
    for label in pure_labels {
        let permutation = get_permutation_from_lehmer_code(case.size as usize, label as usize);
        pure_permutations.push(permutation);
    }
    assert_eq!(pure_permutations, case.expected_pure_permutations);
}

#[test]
fn test_init_permutations_data() {
    let test_cases = vec![
        TestCase { size: 3, permutations_data: PermutationsData::init(3), expected_pure_permutations: vec![vec![2, 1, 0]] },
        TestCase {
            size: 4,
            permutations_data: PermutationsData::init(4),
            expected_pure_permutations: vec![
                vec![1, 0, 3, 2],
                vec![1, 3, 0, 2],
                vec![1, 3, 2, 0],
                vec![2, 0, 3, 1],
                vec![2, 1, 3, 0],
                vec![3, 0, 2, 1],
                vec![3, 1, 0, 2],
                vec![3, 2, 1, 0],
            ],
        },
    ];

    for case in test_cases {
        assert_pure_permutations(&case);
        assert_reduced_code(&case);
    }
}

#[test]
fn test_generate_data() {
    let permutations_data = generate_data_for_size_up_to(10);

    let mut actual_stats = vec![];
    for permutation_data in permutations_data {
        let size = permutation_data.pure_permutations.len();
        let mut total_distance: u64 = 0;
        let mut distance_distribution: HashMap<u8, Vec<u32>> = HashMap::new();
        let mut distance_counts: HashMap<u8, u32> = HashMap::new();
        for pos in 0..size {
            let code = permutation_data.pure_permutations[pos];
            let distance = permutation_data.distance[code as usize];
            total_distance += distance as u64;

            distance_distribution.entry(distance).and_modify(|list| list.push(code)).or_insert_with(|| vec![]);

            distance_counts.entry(distance).and_modify(|ct| *ct += 1).or_insert_with(|| 0);
        }
        let average_distance = total_distance as f32 / size as f32;
        actual_stats.push((total_distance, size, average_distance));
        let (pures, total, counts) = if permutation_data.size == 0 {
            (1, 0, vec![])
        } else {
            permutation_data.distance_summary()
        };
        println!(
            "size: {}, total_pures: {}, total_distance: {}, average_distance: {}, counts: {:?}",
            permutation_data.size,
            pures,
            total,
            average_distance,
            counts.iter().enumerate().filter(|(_, c)| **c > 0).collect::<Vec<_>>()
        );
    }
}

#[test]
fn test_generate_data_5() {
    let permutations_data = generate_data_for_size_up_to(8);
    let expected_average: Vec<f32> = vec![0.0, 0.0, 1.0, 2.0, 2.125, 2.6944444, 3.1965065, 3.7095385];

    let mut actual_stats = vec![];
    for permutation_data in permutations_data {
        let size = permutation_data.pure_permutations.len();
        let mut total_distance: u64 = 0;
        let mut distance_distribution: HashMap<u8, Vec<u32>> = HashMap::new();
        let mut distance_counts: HashMap<u8, u32> = HashMap::new();
        for pos in 0..size {
            let code = permutation_data.pure_permutations[pos];
            let distance = permutation_data.distance[code as usize];
            total_distance += distance as u64;

            distance_distribution.entry(distance).and_modify(|list| list.push(code)).or_insert_with(|| vec![]);

            distance_counts.entry(distance).and_modify(|ct| *ct += 1).or_insert_with(|| 0);
        }
        let average_distance = total_distance as f32 / size as f32;
        actual_stats.push((total_distance, size, average_distance));
    }
    assert_eq!(f32::abs(expected_average[7] - actual_stats[7].2) < 0.01, true);
}

#[test]
fn find_smallest_reducible_code_sliding_block_beyond() {}

#[test]
fn averages_of_each_size() {
    // totals of the distances of the pure codes, and their numbers, by size
    let data = generate_data_for_size_up_to(8);
    let expected: Vec<(usize, u64)> = vec![(1, 0), (0, 0), (1, 1), (1, 2), (8, 17), (36, 97), (229, 732), (1625, 6028)];
    for size in 1..8 {
        let (pures, total, counts) = data[size].distance_summary();
        assert_eq!((pures, total), expected[size]);
        assert_eq!(counts.iter().map(|c| *c as usize).sum::<usize>(), pures);
    }
    // the size 0 holds the empty permutation at distance 0
    assert_eq!(data[0].size, 0);
    assert_eq!(data[0].distance, vec![0]);
    assert_eq!(data[0].pure_permutations, vec![0]);
}

#[test]
fn generated_sizes_and_bounds() {
    assert_eq!(generate_data_for_size_up_to(0).len(), 1);
    assert_eq!(generate_data_for_size_up_to(1).len(), 1);
    let data = generate_data_for_size_up_to(6);
    assert_eq!(data.len(), 6);
    for size in 1..6 {
        assert_eq!(data[size].size, size);
        assert!(data[size].distance.iter().all(|d| *d <= 99));
    }
    // [1, 0] is one block move away from sorted
    assert_eq!(data[2].distance[1], 1);
    // [2, 1, 0] needs two
    assert_eq!(data[3].distance[5], 2);
}

#[test]
fn init_tables() {
    let data = PermutationsData::init(3);
    assert_eq!(data.size, 3);
    assert_eq!(data.distance, vec![0, 99, 99, 99, 99, 99]);
    assert_eq!(data.next_step[0], (0, 0));
    assert_eq!(data.next_step[1], INVALID_PAIR);
    assert_eq!(data.visited.len(), 6);
    assert!(data.visited.iter().all(|plane| plane.len() == 3 && plane.iter().all(|row| row.len() == 3
        && row.iter().all(|s| *s == ProcessingStatus::UNPROCESSED))));
    // [0, 2, 1] (code 1) reduces to [1, 0] (size 2, code 1)
    assert_eq!(data.reduced_code[1], (2, 1));
    // [2, 1, 0] is pure and keeps its own code
    assert_eq!(data.reduced_code[5], (3, 5));
    assert_eq!(data.pure_permutations, vec![5]);
    assert_eq!(
        get_all_blocks_for_size(4),
        vec![(0, 0), (0, 1), (0, 2), (1, 1), (1, 2), (2, 2)]
    );
}

#[test]
fn inherited_distances() {
    // the reducible codes take the distances of their reduced forms; the
    // pure one takes one more than its best reducible neighbour
    let data = generate_data_for_size_up_to(3);
    let mut cur = PermutationsData::init(3);
    cur.update_init_on_basis_of_previous(&data);
    for code in 0..6 {
        let (s, c) = cur.reduced_code[code];
        if s < 3 {
            assert_eq!(cur.distance[code], data[s].distance[c as usize]);
            assert_eq!(cur.next_step[code], (s as u8, c));
        }
    }
    assert_eq!(cur.distance[5], 2);
    assert_eq!(cur.next_step[5].0, 2);
}

#[test]
fn sliding_from_one_code() {
    // from the identity of size 3 at distance 0, every code one block move
    // away and farther is set to distance 1
    let mut data = PermutationsData::init(3);
    let reached = data.process_permutation_paralleled(0);
    let mut sorted = reached.clone();
    sorted.sort();
    sorted.dedup();
    for code in &sorted {
        assert_eq!(data.distance[*code as usize], 1);
        let p = get_permutation_from_lehmer_code(3, *code as usize);
        assert!(p != vec![0, 1, 2] && p != vec![2, 1, 0]);
    }
    // [2, 1, 0] is not one move away
    assert_eq!(data.distance[5], 99);
    assert_eq!(data.distance[0], 0);
    // the sequential variant reaches the same codes from a fresh start
    let mut seq = PermutationsData::init(3);
    seq.process_permutation(0);
    for code in 1..5usize {
        let expected = if sorted.contains(&(code as u32)) { 1 } else { 99 };
        assert_eq!(seq.distance[code], expected);
    }
    assert_eq!(seq.visited[0][0][0], ProcessingStatus::PROCESSED);
    assert_eq!(get_lehmer_code_from_permutation(&vec![0, 1, 2]), 0);
}

#[test]
fn processing_all_codes_lowers_distances() {
    let mut data = PermutationsData::init(4);
    let before = data.distance.clone();
    data.process_all_permutations();
    for code in 0..24 {
        assert!(data.distance[code] <= before[code]);
    }
    assert_eq!(data.distance[0], 0);
    let mut other = PermutationsData::init(4);
    other.process_all_permutations_time_optimized();
    assert_eq!(other.distance[0], 0);
    other.calculate();
}

fn block_transposition_distances(n: usize) -> HashMap<Vec<u8>, u8> {
    let start: Vec<u8> = (0..n as u8).collect();
    let mut dist: HashMap<Vec<u8>, u8> = HashMap::new();
    dist.insert(start.clone(), 0);
    let mut frontier = vec![start];
    let mut level: u8 = 0;
    while !frontier.is_empty() {
        let mut next = vec![];
        for p in &frontier {
            for i in 0..n {
                for j in i..n {
                    for k in j + 1..n {
                        let mut q: Vec<u8> = p[..i].to_vec();
                        q.extend_from_slice(&p[j + 1..k + 1]);
                        q.extend_from_slice(&p[i..j + 1]);
                        q.extend_from_slice(&p[k + 1..]);
                        if !dist.contains_key(&q) {
                            dist.insert(q.clone(), level + 1);
                            next.push(q);
                        }
                    }
                }
            }
        }
        frontier = next;
        level += 1;
    }
    dist
}

#[test]
fn tables_match_block_transposition_distances() {
    // for every permutation of up to seven items, the table holds the least
    // number of block transpositions that sort it
    let data = generate_data_for_size_up_to(8);
    for n in 1..8usize {
        let truth = block_transposition_distances(n);
        for code in 0..data[n].distance.len() {
            let p = get_permutation_from_lehmer_code(n, code);
            assert_eq!(data[n].distance[code], truth[&p], "size {} code {}", n, code);
        }
    }
}

#[test]
fn distribution_of_size_eight() {
    let data = generate_data_for_size_up_to(9);
    let (pures, total, counts) = data[8].distance_summary();
    assert_eq!((pures, total), (13208, 55299));
    assert_eq!((counts[3], counts[4], counts[5]), (369, 10003, 2836));
    let (_, _, counts7) = data[7].distance_summary();
    assert_eq!((counts7[3], counts7[4]), (472, 1153));
    let (_, _, counts5) = data[5].distance_summary();
    assert_eq!((counts5[2], counts5[3]), (11, 25));
}

#[test]
fn a_walk_lowers_every_code_it_reaches() {
    // sliding the block [0] of the identity of size 4 one place reaches
    // [1, 0, 2, 3] and two places [1, 2, 0, 3]; with their distances
    // forgotten, the walk from the identity finds both again
    let mut data = PermutationsData::init(4);
    let near = get_lehmer_code_from_permutation(&vec![1, 0, 2, 3]) as usize;
    let far = get_lehmer_code_from_permutation(&vec![1, 2, 0, 3]) as usize;
    data.distance[near] = 99;
    data.distance[far] = 99;
    data.process_permutation(0);
    assert_eq!(data.distance[near], 1);
    assert_eq!(data.distance[far], 1);
    assert_eq!(data.next_step[far], (4, 0));
    assert_eq!(data.distance[0], 0);
}

#[test]
fn the_batches_start_by_sliding_from_the_identity() {
    // with the distance of [1, 0, 2, 3] forgotten, the batch search from
    // the identity finds it one block move away again
    let mut data = PermutationsData::init(4);
    let near = get_lehmer_code_from_permutation(&vec![1, 0, 2, 3]) as usize;
    data.distance[near] = 99;
    data.process_all_permutations();
    assert!(data.distance[near] <= 1);
    assert_eq!(data.distance[0], 0);
}
