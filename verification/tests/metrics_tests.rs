use clann::config::{Config, MetricsOutput};
use clann::metricdata::AngularData;
use clann::metrics::{get_recall_values, sort_distances, threshold, QueryMetrics, RunMetrics};
use clann::{build, init_with_config};

#[test]
fn test_query_metrics_new_is_zeroed() {
    let q = QueryMetrics::new();
    assert_eq!(q.distance_computations, 0);
    assert_eq!(q.query_time_ns, 0);
    assert!(q.cluster_n_candidates.is_empty());
    assert!(q.cluster_timings_ns.is_empty());
    assert!(q.cluster_distance_computations.is_empty());
}

#[test]
fn test_run_metrics_counters() {
    let config = Config::new(4, 1000, 2, 900, b"counters", MetricsOutput::DB);
    let mut m = RunMetrics::new(config, 5);
    assert!(m.current_query().is_none());
    m.new_query();
    m.add_distance_computation_global(3);
    m.add_distance_computation_cluster(4);
    m.log_n_candidates(2);
    m.log_cluster_time(10);
    m.log_query_time(99);
    m.log_index_building_time(1234);
    let q = m.current_query().unwrap();
    assert_eq!(q.distance_computations, 7);
    assert_eq!(q.cluster_distance_computations, vec![4]);
    assert_eq!(q.cluster_n_candidates, vec![2]);
    assert_eq!(q.cluster_timings_ns, vec![10]);
    assert_eq!(q.query_time_ns, 99);
    assert_eq!(m.indexing_duration_ns, 1234);
}

#[test]
fn test_sort_distances_sorts_ascending() {
    let mut v: Vec<u64> = vec![5, 1, 4, 1, 3];
    sort_distances(&mut v);
    assert_eq!(v, vec![1, 1, 3, 4, 5]);
}

#[test]
fn test_threshold_is_kth_smallest_plus_epsilon() {
    // k-th smallest of the ground truth plus one thousandth (1000 in
    // millionths)
    let distances: Vec<u64> = vec![500_000, 100_000, 300_000];
    assert_eq!(threshold(&distances, 2), 301_000);
    assert_eq!(threshold(&distances, 1), 101_000);
}

#[test]
fn test_recall_values_exact() {
    // query 1: both returned distances within threshold; query 2: one of two
    let gt = vec![vec![100_000u64, 200_000], vec![100_000, 200_000]];
    let run = vec![vec![100_000u64, 200_000], vec![100_000, 900_000]];
    let (mean, _std) = get_recall_values(&gt, &run, 2);
    // counts are 2 and 1 over q*k = 4 -> 0.75
    assert_eq!(mean, 750_000);

    let (mean_all, std_all) = get_recall_values(&gt, &vec![vec![100_000u64, 200_000]; 2], 2);
    assert_eq!(mean_all, 1_000_000);
    assert_eq!(std_all, 0);
}

#[test]
fn test_csv_build_metrics_exact() {
    let config = Config::new(50, 400, 10, 900, b"glove-25-angular", MetricsOutput::DB);
    let m = RunMetrics::new(config, 10_000);
    let csv = m.csv_build_metrics(7, 3, 123_456, 42);
    let text = String::from_utf8(csv).unwrap();
    let expected = "num_clusters,0.4\n\
                    num_tables,50\n\
                    dataset,glove-25-angular\n\
                    total_num_clusters,7\n\
                    greedy_num_clusters,3\n\
                    memory_used_bytes,123456\n\
                    build_time_s,42\n";
    assert_eq!(text, expected);
}

#[test]
fn test_index_file_name() {
    let rows: Vec<Vec<i64>> = vec![vec![1_000_000, 0], vec![0, 1_000_000]];
    let data = AngularData::new(rows).unwrap();
    let config = Config::new(50, 400, 1, 900, b"glove-25-angular", MetricsOutput::NoOutput);
    let mut index = init_with_config(data, config).unwrap();
    build(&mut index).unwrap();
    let name = String::from_utf8(index.index_file_name()).unwrap();
    assert_eq!(name, "index_glove-25-angular_k0.40_L50.h5");
}
