use clann::errors::ClusteredIndexError;
use clann::metricdata::AngularData;

const ONE: i64 = 1_000_000;

#[test]
fn test_distance_orthogonal_is_one() {
    let data = AngularData::new(vec![vec![ONE, 0], vec![0, ONE]]).unwrap();
    assert_eq!(data.distance(0, 1), 1_000_000);
    assert_eq!(data.distance(1, 0), 1_000_000);
}

#[test]
fn test_distance_self_is_zero() {
    let data = AngularData::new(vec![vec![ONE, 0], vec![3 * ONE, 4 * ONE]]).unwrap();
    assert_eq!(data.distance(0, 0), 0);
    assert_eq!(data.distance(1, 1), 0);
}

#[test]
fn test_distance_opposite_is_two() {
    let data = AngularData::new(vec![vec![ONE, 0], vec![-ONE, 0]]).unwrap();
    assert_eq!(data.distance(0, 1), 2_000_000);
}

#[test]
fn test_distance_is_scale_free() {
    // the cosine distance ignores the vector lengths
    let data = AngularData::new(vec![vec![ONE, 0], vec![5 * ONE, 5 * ONE]]).unwrap();
    let d = data.distance(0, 1) as i64;
    assert!((d - 292_893).abs() <= 10, "got {}", d);
}

#[test]
fn test_distance_point_zero_query() {
    let data = AngularData::new(vec![vec![ONE, 0], vec![0, -ONE]]).unwrap();
    assert_eq!(data.distance_point(0, &[0, 0]), 1_000_000);
    assert_eq!(data.distance_point(1, &[0, 0]), 1_000_000);
}

#[test]
fn test_zero_row_is_distance_one_from_itself() {
    // a zero row has no direction; its distance to anything, itself
    // included, is one
    let data = AngularData::new(vec![vec![0, 0], vec![ONE, 0]]).unwrap();
    assert_eq!(data.distance(0, 0), 1_000_000);
    assert_eq!(data.distance(0, 1), 1_000_000);
}

#[test]
fn test_all_distances_matches_pairwise() {
    let data = AngularData::new(vec![
        vec![ONE, 0],
        vec![0, ONE],
        vec![-ONE, 0],
        vec![700_000, 700_000],
    ])
    .unwrap();
    let mut out: Vec<u64> = Vec::new();
    data.all_distances(3, &mut out);
    assert_eq!(out.len(), 4);
    for i in 0..4 {
        assert_eq!(out[i], data.distance(i, 3));
    }
}

#[test]
fn test_subset_keeps_selected_rows() {
    let data = AngularData::new(vec![vec![ONE, 0], vec![0, ONE], vec![-ONE, 0]]).unwrap();
    let sub = data.subset(&vec![2, 0]);
    assert_eq!(sub.num_points(), 2);
    assert_eq!(sub.dimensions(), 2);
    assert_eq!(sub.distance(0, 1), 2_000_000);
    assert_eq!(sub.distance_point(1, &[ONE, 0]), 0);
}

#[test]
fn test_ragged_rows_rejected() {
    match AngularData::new(vec![vec![ONE, 0], vec![ONE]]) {
        Err(ClusteredIndexError::DataError(_)) => {},
        other => panic!("expected DataError, got {:?}", other.map(|_| ())),
    }
}

#[test]
fn test_out_of_range_coordinate_rejected() {
    match AngularData::new(vec![vec![2_000_000_000_000, 0]]) {
        Err(ClusteredIndexError::DataError(_)) => {},
        other => panic!("expected DataError, got {:?}", other.map(|_| ())),
    }
}
