use expensive_similarity::flatten::{flatten, FlattenAxis};
use std::collections::HashMap;

use expensive_similarity::metric::{distance_other, distance_self};

fn table(cols: Vec<Vec<(u8, u128)>>) -> Vec<HashMap<u8, u128>> {
    let mut out: Vec<HashMap<u8, u128>> = Vec::new();
    for col in cols {
        let mut map = HashMap::new();
        for (k, v) in col {
            map.insert(k, v);
        }
        out.push(map);
    }
    out
}

#[test]
fn flatten_column_is_chunk_major() {
    let data: Vec<Vec<Option<u8>>> = vec![
        vec![Some(1), Some(2), Some(3)],
        vec![Some(4), None, Some(6)],
    ];
    let blocks = flatten(data, FlattenAxis::Column, 2);
    // two chunks of two samples each
    assert_eq!(blocks.len(), 4);
    assert_eq!(*blocks[0].iter(), vec![1u8, 2]); // chunk 0, sample 0
    assert_eq!(*blocks[1].iter(), vec![4u8, 0]); // chunk 0, sample 1
    assert_eq!(*blocks[2].iter(), vec![3u8, 0]); // chunk 1, sample 0
    assert_eq!(*blocks[3].iter(), vec![6u8, 0]); // chunk 1, sample 1
}

#[test]
fn flatten_row_is_sample_major() {
    let data: Vec<Vec<Option<u8>>> = vec![
        vec![Some(1), Some(2), Some(3)],
        vec![Some(4), None, Some(6)],
    ];
    let blocks = flatten(data, FlattenAxis::Row, 2);
    assert_eq!(blocks.len(), 4);
    assert_eq!(*blocks[0].iter(), vec![1u8, 2]); // sample 0, chunk 0
    assert_eq!(*blocks[1].iter(), vec![3u8, 0]); // sample 0, chunk 1
    assert_eq!(*blocks[2].iter(), vec![4u8, 0]); // sample 1, chunk 0
    assert_eq!(*blocks[3].iter(), vec![6u8, 0]); // sample 1, chunk 1
}

#[test]
fn flatten_of_empty_dataset_is_empty() {
    let data: Vec<Vec<Option<u8>>> = Vec::new();
    let blocks = flatten(data, FlattenAxis::Column, 4);
    assert_eq!(blocks.len(), 0);
}

#[test]
fn self_distance_sums_frequencies_of_present_values() {
    let data: Vec<Vec<Option<u8>>> = vec![vec![Some(2), None, Some(5)]];
    let blocks = flatten(data, FlattenAxis::Column, 4);
    let vc = table(vec![vec![(2, 7)], vec![], vec![(5, 3)], vec![]]);
    assert_eq!(distance_self(&blocks[0], &vc, 0, 3), 10);
}

#[test]
fn self_distance_of_all_missing_chunk_is_zero() {
    let data: Vec<Vec<Option<u8>>> = vec![vec![None, None, None, None]];
    let blocks = flatten(data, FlattenAxis::Column, 4);
    let vc = table(vec![vec![], vec![], vec![], vec![]]);
    assert_eq!(distance_self(&blocks[0], &vc, 0, 4), 0);
}

#[test]
fn cross_distance_of_two_all_missing_chunks_is_zero() {
    let data: Vec<Vec<Option<u8>>> = vec![
        vec![None, None, None],
        vec![None, None, None],
    ];
    let blocks = flatten(data, FlattenAxis::Column, 4);
    let vc = table(vec![vec![], vec![], vec![]]);
    assert_eq!(distance_other(&blocks[0], &blocks[1], &vc, 0, 3, 2), 0);
}

#[test]
fn single_column_scenario_matches_hand_computation() {
    // one feature column holding [1, 1, 2, missing] across four samples
    let data: Vec<Vec<Option<u8>>> = vec![
        vec![Some(1)],
        vec![Some(1)],
        vec![Some(2)],
        vec![None],
    ];
    let vc = table(vec![vec![(1, 2), (2, 1)]]);
    let blocks = flatten(data, FlattenAxis::Column, 4);
    let penalty = 4u128; // the sample count
    // self-contribution of sample 0: frequency of value 1
    assert_eq!(distance_self(&blocks[0], &vc, 0, 1), 2);
    // match: the shared value's frequency
    assert_eq!(distance_other(&blocks[0], &blocks[1], &vc, 0, 1, penalty), 2);
    // mismatch: the penalty
    assert_eq!(distance_other(&blocks[0], &blocks[2], &vc, 0, 1, penalty), 4);
    // present against missing is not filtered out: it costs the penalty
    assert_eq!(distance_other(&blocks[0], &blocks[3], &vc, 0, 1, penalty), 4);
}

#[test]
fn identical_samples_under_unit_frequencies_score_the_feature_count() {
    // two identical samples, every feature present, every frequency 1:
    // both the self-distance and the cross-distance equal the feature count
    let data: Vec<Vec<Option<u8>>> = vec![
        vec![Some(5), Some(6), Some(7)],
        vec![Some(5), Some(6), Some(7)],
    ];
    let vc = table(vec![vec![(5, 1)], vec![(6, 1)], vec![(7, 1)]]);
    let blocks = flatten(data, FlattenAxis::Column, 4);
    assert_eq!(distance_self(&blocks[0], &vc, 0, 3), 3);
    assert_eq!(distance_other(&blocks[0], &blocks[1], &vc, 0, 3, 2), 3);
}

#[test]
fn take_bound_keeps_kernels_off_padding() {
    // chunk width 4 but only 2 valid positions: padding is never counted
    let data: Vec<Vec<Option<u8>>> = vec![vec![Some(3), Some(3)]];
    let blocks = flatten(data, FlattenAxis::Column, 4);
    let vc = table(vec![vec![(3, 1)], vec![(3, 1)]]);
    assert_eq!(distance_self(&blocks[0], &vc, 0, 2), 2);
}
