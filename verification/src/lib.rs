//! Clustered approximate nearest-neighbour search under the angular metric.
//!
//! The engine partitions a dataset with greedy farthest-point clustering,
//! keeps an exact sub-index per large cluster, and answers queries by
//! visiting clusters in ascending distance-to-center order with a
//! radius-based early termination rule. All distances are fixed-point
//! cosine distances in millionths, computed in exact integer arithmetic;
//! callers quantise real-valued coordinates to integers at their own scale.

use vstd::prelude::*;

pub mod codec;
pub mod config;
pub mod errors;
pub mod fixed;
pub mod gmm;
pub mod heap;
pub mod index;
pub mod laws;
pub mod metricdata;
pub mod metrics;
pub mod subindex;

use crate::config::Config;
use crate::errors::ClusteredIndexError;
use crate::index::ClusteredIndex;
use crate::metricdata::{coords_bounded, AngularData};

verus! {

/// A new index over the dataset with the default configuration.
pub fn init(data: AngularData) -> (r: Result<ClusteredIndex, ClusteredIndexError>)
    requires
        data.wf(),
    ensures
        match r {
            Ok(idx) => idx.wf_base() && idx.data == data && idx.clusters@.len() == 0,
            Err(e) => e is DataError,
        },
        r is Err <==> !(data.n_spec() >= 1 && data.n_spec() <= u32::MAX),
{
    let config = Config::default();
    ClusteredIndex::new(config, data)
}

/// A new index over the dataset with the given configuration.
pub fn init_with_config(data: AngularData, config: Config) -> (r: Result<
    ClusteredIndex,
    ClusteredIndexError,
>)
    requires
        data.wf(),
    ensures
        match r {
            Ok(idx) => {
                &&& idx.wf_base()
                &&& idx.data == data
                &&& idx.config == config
                &&& idx.clusters@.len() == 0
            },
            Err(e) => e is DataError || e is ConfigError,
        },
        r is Err <==> !(data.n_spec() >= 1 && data.n_spec() <= u32::MAX && config.wf()),
        !(data.n_spec() >= 1 && data.n_spec() <= u32::MAX)
            ==> (r matches Err(e) && e is DataError),
        data.n_spec() >= 1 && data.n_spec() <= u32::MAX && !config.wf()
            ==> (r matches Err(e) && e is ConfigError),
{
    ClusteredIndex::new(config, data)
}

/// An index restored from its on-disk container, over the same dataset it
/// was built on. Every structural invariant is re-checked.
pub fn init_from_bytes(data: AngularData, bytes: &[u8]) -> (r: Result<
    ClusteredIndex,
    ClusteredIndexError,
>)
    requires
        data.wf(),
    ensures
        match r {
            Ok(idx) => idx.wf_built() && idx.data == data,
            Err(e) => e is ConfigError || e is DataError,
        },
        forall|other: ClusteredIndex|
            other.wf_built() && other.data == data
                && crate::codec::name_serializable(other.config.dataset_name@)
                && bytes@ == #[trigger] crate::codec::enc_container_spec(
                other.config,
                other.clusters@,
            ) ==> r is Ok,
{
    ClusteredIndex::new_from_bytes(data, bytes)
}

/// Builds the index: clusters the dataset and prepares one sub-index per
/// large cluster. After a build the partition, radius, brute-force and
/// slot-parity invariants hold, and the cluster count is exactly
/// min(n, max(1, floor(factor * sqrt(n)))).
pub fn build(index: &mut ClusteredIndex) -> (r: Result<(), ClusteredIndexError>)
    requires
        old(index).wf_base(),
    ensures
        r is Ok,
        final(index).wf_built(),
        final(index).data == old(index).data,
        final(index).config == old(index).config,
{
    index.build()
}

/// Answers a query with exactly min(k, n) pairs (distance, dataset row),
/// ascending by distance, every distance recomputed against the dataset.
/// When the index holds a single cluster the answer is the exact top-k:
/// every row left out is at least as far from the query as every returned
/// row.
pub fn search(index: &mut ClusteredIndex, query: &[i64]) -> (r: Result<
    Vec<(u64, usize)>,
    ClusteredIndexError,
>)
    requires
        old(index).wf_built(),
        query@.len() == old(index).data.dims_spec(),
        coords_bounded(query@),
    ensures
        final(index).wf_built(),
        final(index).data == old(index).data,
        final(index).clusters == old(index).clusters,
        final(index).config == old(index).config,
        r is Ok,
        ClusteredIndex::search_post(
            old(index).data,
            old(index).config.k as nat,
            query@,
            (r->Ok_0)@,
        ),
        old(index).clusters@.len() == 1 ==> forall|j: int, m: int|
            0 <= j < old(index).data.n_spec() && 0 <= m < (r->Ok_0)@.len()
                && !(#[trigger] crate::index::contains_result_id((r->Ok_0)@, j))
                ==> old(index).data.dist_point_spec(j, query@)
                    >= old(index).data.dist_point_spec(
                    (#[trigger] (r->Ok_0)@[m]).1 as int,
                    query@,
                ),
{
    index.search(query)
}

/// The on-disk container of the index, as bytes; the caller stores them
/// under `index.index_file_name()`.
pub fn serialize(index: &ClusteredIndex) -> (r: Result<Vec<u8>, ClusteredIndexError>)
    ensures
        match r {
            Ok(b) => b@ == crate::codec::enc_container_spec(index.config, index.clusters@),
            Err(e) => e is SerializeError,
        },
        r is Ok <==> crate::codec::name_serializable(index.config.dataset_name@),
{
    index.serialize()
}

/// Folds a finished run into the collected metrics: recall against ground
/// truth for the configured k, wall time and throughput. Succeeds exactly
/// when metrics are enabled, the ground truth covers every result row, and
/// every ground-truth row holds at least k entries; on success the stored
/// statistics are the spec formulas of the inputs.
pub fn save_metrics(
    index: &mut ClusteredIndex,
    ground_truth_distances: &Vec<Vec<u64>>,
    run_distances: &Vec<Vec<u64>>,
    total_search_time_ns: u64,
) -> (r: Result<(), ClusteredIndexError>)
    requires
        old(index).config.wf(),
    ensures
        final(index).data == old(index).data,
        final(index).clusters == old(index).clusters,
        final(index).puffinn_indices == old(index).puffinn_indices,
        final(index).config == old(index).config,
        r is Err ==> (r->Err_0) is MetricsError,
        r is Ok <==> old(index).metrics is Some
            && ground_truth_distances@.len() >= run_distances@.len()
            && (forall|i: int| 0 <= i < ground_truth_distances@.len()
                ==> (#[trigger] ground_truth_distances@[i])@.len() >= old(index).config.k),
        r is Ok ==> (final(index).metrics matches Some(m) && {
            let gtv = ground_truth_distances@.map_values(|v: Vec<u64>| v@);
            let runv = run_distances@.map_values(|v: Vec<u64>| v@);
            &&& m.total_search_time_ns == total_search_time_ns
            &&& m.queries@ == old(index).metrics->0.queries@
            &&& (run_distances@.len() > 0 ==> m.recall_mean_micro as int
                == crate::metrics::mean_recall_micro_spec(
                gtv,
                runv,
                old(index).config.k as int,
            ))
            &&& (run_distances@.len() > 0 ==> m.recall_std_micro as int
                == crate::metrics::std_recall_micro_spec(
                gtv,
                runv,
                old(index).config.k as int,
            ))
        }),
{
    if ground_truth_distances.len() < run_distances.len() {
        return Err(ClusteredIndexError::MetricsError(
            "fewer ground-truth rows than result rows".to_string(),
        ));
    }
    let k = index.config.k;
    let mut i: usize = 0;
    while i < ground_truth_distances.len()
        invariant
            i <= ground_truth_distances@.len(),
            k == index.config.k,
            k >= 1,
            forall|t: int| 0 <= t < i ==> (#[trigger] ground_truth_distances@[t])@.len() >= k,
        decreases ground_truth_distances@.len() - i,
    {
        if ground_truth_distances[i].len() < k {
            return Err(ClusteredIndexError::MetricsError(
                "ground truth shorter than k".to_string(),
            ));
        }
        i += 1;
    }
    let met = index.metrics.take();
    match met {
        Some(mut m) => {
            m.compute_run_statistics(
                ground_truth_distances,
                run_distances,
                k,
                total_search_time_ns,
            );
            index.metrics = Some(m);
            Ok(())
        },
        None => {
            Err(ClusteredIndexError::MetricsError("run metrics are not enabled".to_string()))
        },
    }
}

} // verus!
