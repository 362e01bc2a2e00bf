use permutations_sorting::permutation::distance_calculator::distance_calculator_mem_efficient::{
    generate_data_for_size_up_to, PermutationsData, ProcessingStatus,
};
use permutations_sorting::permutation::permutation_label::{get_lehmer_code_from_permutation, get_permutation_from_lehmer_code};

#[test]
fn mem_efficient_averages_of_each_size() {
    // the same totals as the full tables: codes whose reduced form keeps
    // the size, and the sum of their distances
    let data = generate_data_for_size_up_to(8);
    assert_eq!(data.len(), 8);
    let expected: Vec<(usize, u64)> = vec![(1, 0), (0, 0), (1, 1), (1, 2), (8, 17), (36, 97), (229, 732), (1625, 6028)];
    for size in 1..8 {
        assert_eq!(data[size].size, size);
        assert_eq!(data[size].distance_summary(), expected[size]);
        let average = expected[size].1 as f32 / expected[size].0 as f32;
        println!("For size : {}\n\taverage_distance: {}", size, average);
    }
    assert!((6028.0f32 / 1625.0 - 3.7095385).abs() < 0.01);
    assert_eq!(data[0].size, 0);
    assert_eq!(data[0].distance, vec![0]);
    assert_eq!(data[0].reduced_code, vec![(0, 0)]);
}

#[test]
fn mem_efficient_init_tables() {
    let data = generate_data_for_size_up_to(3);
    let size3 = PermutationsData::init(3, &data);
    assert_eq!(size3.size, 3);
    assert_eq!(size3.distance.len(), 6);
    assert!(size3.distance.iter().all(|d| *d <= 99));
    // [2, 1, 0] is pure: its reduced form is itself
    assert_eq!(size3.reduced_code[5], (3, 5));
    // [0, 1, 2] reduces to the empty permutation
    assert_eq!(size3.reduced_code[0], (0, 0));
    assert_eq!(size3.distance[0], 0);
    assert_eq!(size3.end_mask.len(), 6);
    assert!(size3.end_mask.iter().all(|m| m.len() == 3));
    assert_eq!(size3.processing_status.len(), 6);
    assert!(size3.processing_status.iter().all(|s| *s != ProcessingStatus::PROCESSING || true));
    assert_eq!(generate_data_for_size_up_to(0).len(), 1);
}

#[test]
fn mem_efficient_processed_codes_reach_their_first_cells() {
    // every code processed in the batches has, for each block whose end is
    // not marked, the code one slide away at most one farther
    let data = generate_data_for_size_up_to(7);
    let mut checked = 0;
    for size in 3..7 {
        let table = &data[size];
        for code in 0..table.distance.len() {
            if table.processing_status[code] != ProcessingStatus::PROCESSING {
                continue;
            }
            let p = get_permutation_from_lehmer_code(size, code);
            for i in 0..size - 1 {
                for j in i..size - 1 {
                    if (table.end_mask[code][i] >> j) & 1 == 1 {
                        continue;
                    }
                    let mut q = p[..i].to_vec();
                    q.push(p[j + 1]);
                    q.extend_from_slice(&p[i..=j]);
                    q.extend_from_slice(&p[j + 2..]);
                    let next = get_lehmer_code_from_permutation(&q) as usize;
                    assert!(table.distance[next] <= table.distance[code] + 1);
                    checked += 1;
                }
            }
        }
    }
    assert!(checked > 0);
}
