use expensive_similarity::matrix::{build_value_counts, compute_distance_matrix};

#[test]
fn value_counts_exclude_missing_and_sum_occurrences() {
    let data: Vec<Vec<Option<u8>>> = vec![
        vec![Some(1), Some(9)],
        vec![Some(1), None],
        vec![Some(2), Some(9)],
        vec![None, Some(8)],
    ];
    let vc = build_value_counts(&data, 2);
    assert_eq!(vc.len(), 2);
    assert_eq!(vc[0].get(&1), Some(&2));
    assert_eq!(vc[0].get(&2), Some(&1));
    assert_eq!(vc[0].get(&3), None);
    assert_eq!(vc[1].get(&9), Some(&2));
    assert_eq!(vc[1].get(&8), Some(&1));
}

#[test]
fn value_counts_of_empty_dataset_are_empty_maps() {
    let data: Vec<Vec<Option<u8>>> = Vec::new();
    let vc = build_value_counts(&data, 3);
    assert_eq!(vc.len(), 3);
    assert!(vc[0].is_empty());
}

// naive reference computation, written directly from the formula
fn naive_matrix(data: &Vec<Vec<Option<u8>>>) -> Vec<Vec<u128>> {
    let n = data.len();
    let m = if n > 0 { data[0].len() } else { 0 };
    let mut counts: Vec<std::collections::HashMap<u8, u128>> =
        vec![std::collections::HashMap::new(); m];
    for row in data {
        for (k, v) in row.iter().enumerate() {
            if let Some(v) = v {
                *counts[k].entry(*v).or_insert(0) += 1;
            }
        }
    }
    let mut out = vec![vec![0u128; n]; n];
    for i in 0..n {
        for j in i..n {
            let mut d = 0u128;
            for k in 0..m {
                let (a, b) = (data[i][k], data[j][k]);
                if a.is_none() && b.is_none() {
                    continue;
                }
                if a == b {
                    d += counts[k][&a.unwrap()];
                } else {
                    d += n as u128;
                }
            }
            out[i][j] = d;
        }
    }
    out
}

#[test]
fn blocked_matrix_matches_hand_computed_values() {
    let data: Vec<Vec<Option<u8>>> = vec![
        vec![Some(1), Some(2)],
        vec![Some(1), None],
    ];
    let matrix = compute_distance_matrix(data, 64);
    // counts: column 0 has {1: 2}, column 1 has {2: 1}; penalty is n = 2
    assert_eq!(matrix[0][0], 3); // 2 + 1
    assert_eq!(matrix[0][1], 4); // match (2) + present-vs-missing penalty (2)
    assert_eq!(matrix[1][1], 2); // 2 + nothing (missing against itself)
    assert_eq!(matrix[1][0], 0); // lower triangle is never written
}

#[test]
fn blocked_matrix_equals_naive_for_every_chunk_width() {
    let data: Vec<Vec<Option<u8>>> = vec![
        vec![Some(3), Some(1), None, Some(4), Some(4)],
        vec![Some(3), None, Some(2), Some(4), Some(5)],
        vec![Some(6), Some(1), Some(2), None, Some(5)],
        vec![None, Some(1), Some(2), Some(4), Some(4)],
    ];
    let expected = naive_matrix(&data);
    for c in [1usize, 2, 3, 5, 64] {
        let got = compute_distance_matrix(data.clone(), c);
        assert_eq!(got, expected, "chunk width {}", c);
    }
}

#[test]
fn blocked_matrix_of_empty_dataset_is_empty() {
    let data: Vec<Vec<Option<u8>>> = Vec::new();
    let matrix = compute_distance_matrix(data, 4);
    assert_eq!(matrix.len(), 0);
}

#[test]
fn blocked_matrix_with_no_features_is_all_zero() {
    let data: Vec<Vec<Option<u8>>> = vec![Vec::new(), Vec::new()];
    let matrix = compute_distance_matrix(data, 3);
    assert_eq!(matrix, vec![vec![0u128, 0], vec![0u128, 0]]);
}

#[test]
fn full_scenario_single_column_four_samples() {
    // one feature column [1, 1, 2, missing]: the blocked pipeline yields the
    // same entries as the feature-by-feature rule
    let data: Vec<Vec<Option<u8>>> = vec![
        vec![Some(1)],
        vec![Some(1)],
        vec![Some(2)],
        vec![None],
    ];
    let matrix = compute_distance_matrix(data, 4);
    assert_eq!(matrix[0][0], 2);
    assert_eq!(matrix[0][1], 2);
    assert_eq!(matrix[0][2], 4);
    assert_eq!(matrix[0][3], 4);
    assert_eq!(matrix[2][2], 1);
    assert_eq!(matrix[3][3], 0);
    assert_eq!(matrix[2][3], 4);
}
