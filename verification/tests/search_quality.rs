use clann::config::{Config, MetricsOutput};
use clann::metricdata::AngularData;
use clann::{build, init_from_bytes, init_with_config, save_metrics, search, serialize};
use rand::RngExt;

// Coordinates are quantised to millionths.
fn quantise(xs: &[f64]) -> Vec<i64> {
    xs.iter().map(|x| (x * 1_000_000.0).round() as i64).collect()
}

fn random_unit_rows(rng: &mut rand::rngs::ThreadRng, n: usize, d: usize) -> Vec<Vec<i64>> {
    let mut rows = Vec::with_capacity(n);
    for _ in 0..n {
        let mut v: Vec<f64> = (0..d).map(|_| rng.random_range(-1.0..1.0)).collect();
        let norm: f64 = v.iter().map(|x| x * x).sum::<f64>().sqrt();
        if norm > 0.0 {
            for x in v.iter_mut() {
                *x /= norm;
            }
        } else {
            v[0] = 1.0;
        }
        rows.push(quantise(&v));
    }
    rows
}

// exact k nearest rows by full scan, using the library's own metric
fn brute_force_knn(data: &AngularData, query: &[i64], k: usize) -> Vec<(u64, usize)> {
    let n = data.num_points();
    let mut pairs: Vec<(u64, usize)> = (0..n).map(|i| (data.distance_point(i, query), i)).collect();
    pairs.sort();
    pairs.truncate(k);
    pairs
}

#[test]
fn test_single_cluster_matches_brute_force() {
    // one cluster, all brute force: the result is the exact k-NN
    let mut rng = rand::rng();
    let rows = random_unit_rows(&mut rng, 50, 8);
    let data = AngularData::new(rows.clone()).unwrap();
    let config = Config::new(4, 100, 10, 900, b"single", MetricsOutput::NoOutput);
    let mut index = init_with_config(data, config).unwrap();
    build(&mut index).unwrap();
    assert_eq!(index.clusters.len(), 1);
    assert!(index.clusters[0].brute_force);

    let reference = AngularData::new(rows).unwrap();
    for _ in 0..20 {
        let q = random_unit_rows(&mut rng, 1, 8).pop().unwrap();
        let got = search(&mut index, &q).unwrap();
        let expected = brute_force_knn(&reference, &q, 10);
        let got_ids: Vec<usize> = got.iter().map(|p| p.1).collect();
        let expected_ids: Vec<usize> = expected.iter().map(|p| p.1).collect();
        assert_eq!(got.len(), 10);
        assert_eq!(got_ids, expected_ids);
    }
}

#[test]
fn test_mixed_brute_and_subindex_clusters() {
    // a dataset large enough that some clusters use the sub-index
    let mut rng = rand::rng();
    let rows = random_unit_rows(&mut rng, 1500, 6);
    let data = AngularData::new(rows).unwrap();
    let config = Config::new(4, 150, 10, 900, b"mixed", MetricsOutput::NoOutput);
    let mut index = init_with_config(data, config).unwrap();
    build(&mut index).unwrap();

    let n_sub = index.clusters.iter().filter(|c| !c.brute_force).count();
    assert!(n_sub > 0, "expected at least one sub-indexed cluster");
    for (c, cl) in index.clusters.iter().enumerate() {
        assert_eq!(index.puffinn_indices[c].is_some(), !cl.brute_force);
    }

    let q = random_unit_rows(&mut rng, 1, 6).pop().unwrap();
    let result = search(&mut index, &q).unwrap();
    assert_eq!(result.len(), 10);
    for w in result.windows(2) {
        assert!(w[0].0 <= w[1].0);
    }
    // every reported distance is the true distance of that row (P6)
    for (d, id) in &result {
        assert_eq!(*d, index.data.distance_point(*id, &q));
    }
}

#[test]
fn test_round_trip_preserves_search_results() {
    // serialize, restore over the same dataset, and search both
    let mut rng = rand::rng();
    let rows = random_unit_rows(&mut rng, 300, 6);
    let data = AngularData::new(rows.clone()).unwrap();
    let config = Config::new(4, 100, 10, 900, b"roundtrip", MetricsOutput::NoOutput);
    let mut index = init_with_config(data, config).unwrap();
    build(&mut index).unwrap();
    let bytes = serialize(&index).unwrap();

    let data2 = AngularData::new(rows).unwrap();
    let mut restored = init_from_bytes(data2, &bytes).unwrap();

    assert_eq!(restored.clusters.len(), index.clusters.len());
    for (a, b) in index.clusters.iter().zip(restored.clusters.iter()) {
        assert_eq!(a, b);
    }
    // the restored container serializes to the same bytes
    let bytes2 = serialize(&restored).unwrap();
    assert_eq!(bytes, bytes2);

    for _ in 0..30 {
        let q = random_unit_rows(&mut rng, 1, 6).pop().unwrap();
        let r1 = search(&mut index, &q).unwrap();
        let r2 = search(&mut restored, &q).unwrap();
        assert_eq!(r1, r2);
    }
}

#[test]
fn test_early_exit_skips_far_cluster() {
    // two well-separated bundles; a query at one center must not probe the
    // other bundle's candidates
    let mut rng = rand::rng();
    let mut rows: Vec<Vec<i64>> = Vec::new();
    for _ in 0..150 {
        let dx: f64 = rng.random_range(-0.02..0.02);
        let dy: f64 = rng.random_range(-0.02..0.02);
        let norm: f64 = ((1.0 + dx) * (1.0 + dx) + dy * dy).sqrt();
        rows.push(quantise(&[(1.0 + dx) / norm, dy / norm]));
    }
    for _ in 0..150 {
        let dx: f64 = rng.random_range(-0.02..0.02);
        let dy: f64 = rng.random_range(-0.02..0.02);
        let norm: f64 = ((1.0 + dx) * (1.0 + dx) + dy * dy).sqrt();
        rows.push(quantise(&[-(1.0 + dx) / norm, dy / norm]));
    }
    let data = AngularData::new(rows).unwrap();
    // factor 0.15 * sqrt(300) = 2 clusters; metrics record cluster visits
    let config = Config::new(4, 150, 10, 900, b"exit", MetricsOutput::DB);
    let mut index = init_with_config(data, config).unwrap();
    build(&mut index).unwrap();
    assert_eq!(index.clusters.len(), 2);

    let q = quantise(&[1.0, 0.0]);
    let result = search(&mut index, &q).unwrap();
    assert_eq!(result.len(), 10);

    let metrics = index.metrics.as_ref().unwrap();
    let query = &metrics.queries[metrics.queries.len() - 1];
    assert_eq!(
        query.cluster_n_candidates.len(),
        1,
        "the far cluster contributed candidates"
    );
}

#[test]
fn test_recall_floor_on_random_unit_vectors() {
    // statistical recall floor: all-brute clusters, early exit allowed
    let mut rng = rand::rng();
    let rows = random_unit_rows(&mut rng, 1000, 25);
    let data = AngularData::new(rows.clone()).unwrap();
    let config = Config::new(10, 1000, 10, 900, b"recall", MetricsOutput::DB);
    let mut index = init_with_config(data, config).unwrap();
    build(&mut index).unwrap();

    let reference = AngularData::new(rows).unwrap();
    let n_queries = 100;
    let k = 10;
    let mut gt: Vec<Vec<u64>> = Vec::new();
    let mut run: Vec<Vec<u64>> = Vec::new();
    let mut hits = 0usize;
    for _ in 0..n_queries {
        let q = random_unit_rows(&mut rng, 1, 25).pop().unwrap();
        let expected = brute_force_knn(&reference, &q, k);
        let got = search(&mut index, &q).unwrap();
        let expected_ids: Vec<usize> = expected.iter().map(|p| p.1).collect();
        hits += got.iter().filter(|p| expected_ids.contains(&p.1)).count();
        gt.push(expected.iter().map(|p| p.0).collect());
        run.push(got.iter().map(|p| p.0).collect());
    }
    let recall = hits as f64 / (n_queries * k) as f64;
    assert!(recall >= 0.8, "mean recall {} below the floor", recall);

    // the metrics path agrees with the direct computation, loosely
    save_metrics(&mut index, &gt, &run, 1_000_000_000).unwrap();
    let metrics = index.metrics.as_ref().unwrap();
    assert!(metrics.recall_mean_micro >= 800_000);
    assert_eq!(metrics.total_search_time_ns, 1_000_000_000);
}
