//! Index parameters, frozen at initialisation.

use vstd::prelude::*;

verus! {

/// Where metrics are persisted.
#[derive(Debug, Clone, Copy, PartialEq, Eq, Structural)]
pub enum MetricsOutput {
    DB,
    NoOutput,
}

/// How much detail `save_metrics` writes.
#[derive(Debug, Clone, Copy, PartialEq, Eq, Structural)]
pub enum MetricsGranularity {
    /// Only overall run metrics.
    Run,
    /// Run plus per-query metrics.
    Query,
    /// Run plus per-query plus per-cluster metrics.
    Cluster,
}

/// Scale of the fixed-point configuration ratios: one unit is one thousandth.
pub const MILLI: u64 = 1000;

/// Parameters for the index.
///
/// The two real-valued knobs of the engine, the cluster-count factor and the
/// target recall, are held in thousandths so that every computation on them
/// is exact integer arithmetic.
#[derive(Debug, Clone)]
pub struct Config {
    /// LSH table count passed to each sub-index build.
    pub num_tables: usize,

    /// Factor applied to sqrt(n) for the cluster count, in thousandths.
    pub num_clusters_factor: u32,

    /// Number of nearest neighbours to search.
    pub k: usize,

    /// Target recall, in thousandths, in (0, 1000).
    pub delta: u32,

    /// Dataset name used in persistence and metrics, as bytes.
    pub dataset_name: Vec<u8>,

    /// Where to save metrics.
    pub metrics_output: MetricsOutput,
}

impl Config {
    /// A configuration is valid when its counts are positive, its recall lies
    /// strictly between zero and one, and its factor is positive and small
    /// enough for exact arithmetic.
    pub open spec fn wf(&self) -> bool {
        &&& self.num_tables >= 1
        &&& 1 <= self.num_clusters_factor <= 1_000_000
        &&& self.k >= 1
        &&& 0 < self.delta < 1000
    }

    pub fn new(
        num_tables: usize,
        num_clusters_factor: u32,
        k: usize,
        delta: u32,
        dataset_name: &[u8],
        metrics_output: MetricsOutput,
    ) -> (r: Config)
        ensures
            r.num_tables == num_tables,
            r.num_clusters_factor == num_clusters_factor,
            r.k == k,
            r.delta == delta,
            r.dataset_name@ == dataset_name@,
            r.metrics_output == metrics_output,
    {
        Config {
            num_tables,
            num_clusters_factor,
            k,
            delta,
            dataset_name: vstd::slice::slice_to_vec(dataset_name),
            metrics_output,
        }
    }
}

impl Default for Config {
    /// The default configuration: 10 tables, factor 1, k = 10, recall 0.9,
    /// no dataset name, no metrics.
    fn default() -> (r: Self)
        ensures
            r.num_tables == 10,
            r.num_clusters_factor == 1000,
            r.k == 10,
            r.delta == 900,
            r.dataset_name@ == Seq::<u8>::empty(),
            r.metrics_output == MetricsOutput::NoOutput,
            r.wf(),
    {
        Config {
            num_tables: 10,
            num_clusters_factor: 1000,
            k: 10,
            delta: 900,
            dataset_name: Vec::new(),
            metrics_output: MetricsOutput::NoOutput,
        }
    }
}

} // verus!
