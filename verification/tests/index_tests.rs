use clann::config::{Config, MetricsOutput};
use clann::subindex::SimilarityMeasure;
use clann::errors::ClusteredIndexError;
use clann::index::{ClusterCenter, ClusteredIndex};
use clann::metricdata::AngularData;
use clann::{build, init, init_from_bytes, init_with_config, save_metrics, search, serialize};

// Coordinates are quantised to millionths.
fn row(xs: &[f64]) -> Vec<i64> {
    xs.iter().map(|x| (x * 1_000_000.0).round() as i64).collect()
}

fn dataset(points: &[&[f64]]) -> AngularData {
    AngularData::new(points.iter().map(|p| row(p)).collect()).unwrap()
}

#[test]
fn test_sort_cluster() {
    let points: Vec<Vec<f64>> = vec![
        vec![0.1, 0.9, 0.4],
        vec![0.7, 0.2, 0.6],
        vec![0.5, 0.3, 0.9],
        vec![0.8, 0.4, 0.1],
        vec![0.2, 0.1, 0.8],
        vec![0.9, 0.8, 0.3],
        vec![0.3, 0.6, 0.5],
        vec![0.4, 0.3, 0.7],
        vec![0.1, 0.2, 0.9],
        vec![0.6, 0.7, 0.8],
        vec![0.2, 0.8, 0.1],
        vec![0.9, 0.2, 0.4],
        vec![0.3, 0.5, 0.6],
        vec![0.1, 0.9, 0.2],
        vec![0.7, 0.4, 0.6],
        vec![0.8, 0.3, 0.2],
        vec![0.4, 0.6, 0.3],
        vec![0.2, 0.7, 0.9],
        vec![0.9, 0.4, 0.8],
        vec![0.5, 0.1, 0.3],
    ];
    let data = AngularData::new(points.iter().map(|p| row(p)).collect()).unwrap();

    let cluster_indices: [usize; 3] = [6, 3, 17];
    let mut clusters = Vec::new();
    for (idx, center_idx) in cluster_indices.iter().enumerate() {
        clusters.push(ClusterCenter {
            idx,
            center_idx: *center_idx,
            radius: 0,
            assignment: vec![],
            brute_force: false,
            memory_used: 0,
        });
    }

    let config = Config::default();

    let index = ClusteredIndex {
        data,
        clusters,
        config,
        puffinn_indices: Vec::new(),
        metrics: None,
    };

    let sorted_indices = index.sort_cluster_indices_by_distance(&row(&[0.1, 0.0, 0.7]));

    assert_eq!(sorted_indices, vec![2, 0, 1]);
}

#[test]
fn test_trivial_scenario() {
    // five points on the unit circle; query (1, 0) has 0 and 4 as nearest
    let s = 1.0 / (2.0f64).sqrt();
    let data = dataset(&[
        &[1.0, 0.0],
        &[0.0, 1.0],
        &[-1.0, 0.0],
        &[0.0, -1.0],
        &[s, s],
    ]);
    let config = Config::new(4, 1000, 2, 900, b"trivial", MetricsOutput::NoOutput);
    let mut index = init_with_config(data, config).unwrap();
    build(&mut index).unwrap();

    let result = search(&mut index, &row(&[1.0, 0.0])).unwrap();
    assert_eq!(result.len(), 2);
    assert_eq!(result[0].1, 0);
    assert_eq!(result[0].0, 0);
    assert_eq!(result[1].1, 4);
    // 1 - 1/sqrt(2) = 0.29289322 -> 292893 in millionths
    let d = result[1].0 as i64;
    assert!((d - 292893).abs() <= 10, "distance {} too far from 292893", d);
}

#[test]
fn test_single_point_dataset() {
    // N = 1 with k = 10: exactly one pair comes back
    let data = dataset(&[&[0.6, 0.8]]);
    let mut index = init(data).unwrap();
    build(&mut index).unwrap();
    assert_eq!(index.clusters.len(), 1);
    let result = search(&mut index, &row(&[0.0, 1.0])).unwrap();
    assert_eq!(result.len(), 1);
    assert_eq!(result[0].1, 0);
}

#[test]
fn test_n_equals_k() {
    // N = k: every point comes back, ascending by distance
    let data = dataset(&[
        &[1.0, 0.0],
        &[0.9, 0.1],
        &[0.0, 1.0],
        &[-1.0, 0.0],
    ]);
    let config = Config::new(4, 1000, 4, 900, b"nk", MetricsOutput::NoOutput);
    let mut index = init_with_config(data, config).unwrap();
    build(&mut index).unwrap();
    let result = search(&mut index, &row(&[1.0, 0.0])).unwrap();
    assert_eq!(result.len(), 4);
    for w in result.windows(2) {
        assert!(w[0].0 <= w[1].0);
    }
    assert_eq!(result[0].1, 0);
}

#[test]
fn test_zero_norm_query() {
    // a zero query is at distance 1.0 from everything and still gets
    // min(k, n) results
    let data = dataset(&[&[1.0, 0.0], &[0.0, 1.0], &[-1.0, 0.0]]);
    let config = Config::new(4, 1000, 2, 900, b"zero", MetricsOutput::NoOutput);
    let mut index = init_with_config(data, config).unwrap();
    build(&mut index).unwrap();
    let result = search(&mut index, &[0, 0]).unwrap();
    assert_eq!(result.len(), 2);
    for (d, _) in &result {
        assert_eq!(*d, 1_000_000);
    }
}

#[test]
fn test_duplicate_points() {
    // duplicates are distinct ids; the result never repeats an id
    let data = dataset(&[
        &[1.0, 0.0],
        &[1.0, 0.0],
        &[1.0, 0.0],
        &[0.0, 1.0],
    ]);
    let config = Config::new(4, 1000, 3, 900, b"dup", MetricsOutput::NoOutput);
    let mut index = init_with_config(data, config).unwrap();
    build(&mut index).unwrap();
    let result = search(&mut index, &row(&[1.0, 0.0])).unwrap();
    assert_eq!(result.len(), 3);
    let mut ids: Vec<usize> = result.iter().map(|p| p.1).collect();
    ids.sort();
    ids.dedup();
    assert_eq!(ids.len(), 3);
}

#[test]
fn test_empty_dataset_rejected() {
    let data = AngularData::new(Vec::new()).unwrap();
    match init(data) {
        Err(ClusteredIndexError::DataError(_)) => {},
        other => panic!("expected DataError, got {:?}", other.map(|_| ())),
    }
}

#[test]
fn test_invalid_config_rejected() {
    let data = dataset(&[&[1.0, 0.0]]);
    let config = Config::new(4, 1000, 0, 900, b"bad", MetricsOutput::NoOutput);
    match init_with_config(data, config) {
        Err(ClusteredIndexError::ConfigError(_)) => {},
        other => panic!("expected ConfigError, got {:?}", other.map(|_| ())),
    }
}

#[test]
fn test_restore_rejects_garbage() {
    let data = dataset(&[&[1.0, 0.0]]);
    match init_from_bytes(data, b"not a container") {
        Err(ClusteredIndexError::ConfigError(_)) => {},
        other => panic!("expected ConfigError, got {:?}", other.map(|_| ())),
    }
}

#[test]
fn test_restore_rejects_wrong_dataset() {
    // an index built on two points cannot be restored over one point
    let data = dataset(&[&[1.0, 0.0], &[0.0, 1.0]]);
    let config = Config::new(4, 1000, 1, 900, b"wrong", MetricsOutput::NoOutput);
    let mut index = init_with_config(data, config).unwrap();
    build(&mut index).unwrap();
    let bytes = serialize(&index).unwrap();

    let other = dataset(&[&[1.0, 0.0]]);
    assert!(init_from_bytes(other, &bytes).is_err());
}

#[test]
fn test_serialize_rejects_bad_name() {
    let data = dataset(&[&[1.0, 0.0]]);
    let config = Config::new(4, 1000, 1, 900, b"bad\"name", MetricsOutput::NoOutput);
    let mut index = init_with_config(data, config).unwrap();
    build(&mut index).unwrap();
    match serialize(&index) {
        Err(ClusteredIndexError::SerializeError(_)) => {},
        other => panic!("expected SerializeError, got {:?}", other.map(|_| ())),
    }
}

#[test]
fn test_save_metrics_requires_enabled_metrics() {
    let data = dataset(&[&[1.0, 0.0]]);
    let mut index = init(data).unwrap();
    build(&mut index).unwrap();
    let gt = vec![vec![0u64; 10]];
    let run = vec![vec![0u64; 1]];
    match save_metrics(&mut index, &gt, &run, 1000) {
        Err(ClusteredIndexError::MetricsError(_)) => {},
        other => panic!("expected MetricsError, got {:?}", other.map(|_| ())),
    }
}

#[test]
fn test_cluster_count_formula() {
    // P4: clusters.len() == min(n, max(1, floor(factor * sqrt(n))))
    let mut points: Vec<Vec<f64>> = Vec::new();
    for i in 0..50 {
        let a = (i as f64) * 0.12;
        points.push(vec![a.cos(), a.sin()]);
    }
    let refs: Vec<&[f64]> = points.iter().map(|p| p.as_slice()).collect();

    // factor 0.1: floor(0.1 * sqrt(50)) = 0 -> 1 cluster
    let config = Config::new(4, 100, 10, 900, b"one", MetricsOutput::NoOutput);
    let mut index = init_with_config(dataset(&refs), config).unwrap();
    build(&mut index).unwrap();
    assert_eq!(index.clusters.len(), 1);

    // factor 1.0: floor(sqrt(50)) = 7 clusters
    let config = Config::new(4, 1000, 10, 900, b"seven", MetricsOutput::NoOutput);
    let mut index = init_with_config(dataset(&refs), config).unwrap();
    build(&mut index).unwrap();
    assert_eq!(index.clusters.len(), 7);

    // factor large enough: capped at n
    let config = Config::new(4, 1_000_000, 10, 900, b"all", MetricsOutput::NoOutput);
    let mut index = init_with_config(dataset(&refs), config).unwrap();
    build(&mut index).unwrap();
    assert_eq!(index.clusters.len(), 50);
}

#[test]
fn test_partition_and_parity_invariants() {
    // P1, P2, P3: after build the assignments partition the rows, radii
    // bound member distances, and slots mirror the brute-force flags
    let mut points: Vec<Vec<f64>> = Vec::new();
    for i in 0..120 {
        let a = (i as f64) * 0.05;
        points.push(vec![a.cos(), a.sin(), (a * 0.5).sin()]);
    }
    let refs: Vec<&[f64]> = points.iter().map(|p| p.as_slice()).collect();
    let config = Config::new(4, 200, 5, 900, b"inv", MetricsOutput::NoOutput);
    let mut index = init_with_config(dataset(&refs), config).unwrap();
    build(&mut index).unwrap();

    let n = 120usize;
    let mut seen = vec![false; n];
    for (c, cl) in index.clusters.iter().enumerate() {
        assert_eq!(cl.idx, c);
        assert_eq!(
            index.puffinn_indices[c].is_some(),
            !cl.brute_force,
            "slot parity broken at {}",
            c
        );
        assert_eq!(cl.brute_force, cl.assignment.len() < 100 || cl.assignment.len() < 5);
        if cl.brute_force {
            assert_eq!(cl.memory_used, 0);
        } else {
            assert_eq!(cl.memory_used, cl.assignment.len() * 3 * 8 + cl.assignment.len() * 8);
        }
        for &p in &cl.assignment {
            assert!(p < n);
            assert!(!seen[p], "row {} in two clusters", p);
            seen[p] = true;
            let d = index.data.distance(cl.center_idx, p);
            assert!(d <= cl.radius, "radius violated: {} > {}", d, cl.radius);
        }
    }
    assert!(seen.iter().all(|&s| s), "some row is not covered");
}

#[test]
fn test_similarity_measure_names() {
    assert_eq!(SimilarityMeasure::CosineSimilarity.family_name(), "cosine");
    assert_eq!(SimilarityMeasure::JaccardSimilarity.family_name(), "angular");
}

#[test]
fn test_greedy_selection_order() {
    // Row 0 seeds the centers. Rows 1 and 3 are the same point, both
    // farthest from row 0; the lower row id wins the tie. Row 2 sits
    // exactly between the two centers and the tie goes to the earlier one.
    let data = dataset(&[
        &[1.0, 0.0],
        &[0.0, 1.0],
        &[0.7, 0.7],
        &[0.0, 1.0],
    ]);
    let (centers, assignment, _radius) = clann::gmm::greedy_minimum_maximum(&data, 2);
    assert_eq!(centers, vec![0, 1]);
    assert_eq!(assignment, vec![0, 1, 0, 1]);
}
