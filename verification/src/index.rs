//! The clustered index: greedy clustering over the metric view, one
//! sub-index per large cluster, and the query loop with radius-based early
//! termination.

use vstd::prelude::*;

use crate::config::{Config, MetricsOutput};
use crate::errors::ClusteredIndexError;
use crate::fixed::{isqrt, isqrt_spec, lemma_isqrt_bounds};
use crate::gmm::{gmm_post, greedy_minimum_maximum};
use crate::heap::{Element, TopKClosestHeap};
use crate::metricdata::{coords_bounded, AngularData};
use crate::metrics::RunMetrics;
use crate::subindex::ExactSubIndex;

verus! {

/// Clusters smaller than this scan their points directly instead of
/// consulting a sub-index.
pub const BRUTE_FORCE_CUTOFF: usize = 100;

/// One cluster: its dense id, the dataset row of its center, its radius,
/// the dataset rows assigned to it (ascending), whether it is answered by
/// brute force, and the bytes its sub-index reported at build time.
#[derive(Debug, Clone, PartialEq)]
pub struct ClusterCenter {
    pub idx: usize,
    pub center_idx: usize,
    pub radius: u64,
    pub assignment: Vec<usize>,
    pub brute_force: bool,
    pub memory_used: usize,
}

/// A cluster of this size is answered by brute force.
pub open spec fn brute_force_rule(len: nat, k: nat) -> bool {
    len < BRUTE_FORCE_CUTOFF || len < k
}

/// Cluster id `c` appears in the order sequence.
pub open spec fn appears(r: Seq<usize>, c: int) -> bool {
    exists|m: int| 0 <= m < r.len() && r[m] == c
}

/// Some candidate in the sequence carries dataset row id `i`.
pub open spec fn has_id(s: Seq<Element>, i: int) -> bool {
    exists|m: int| 0 <= m < s.len() && s[m].point_index == i
}

/// Some (distance, id) pair in the result carries dataset row id `t`.
pub open spec fn contains_result_id(r: Seq<(u64, usize)>, t: int) -> bool {
    exists|m: int| 0 <= m < r.len() && r[m].1 == t
}

/// Dataset row `i` is listed in this cluster.
pub open spec fn in_cluster(cl: ClusterCenter, i: int) -> bool {
    exists|j: int| 0 <= j < cl.assignment@.len() && cl.assignment@[j] == i
}

/// Dataset row `i` is listed in some cluster of the sequence.
pub open spec fn covered_by(cls: Seq<ClusterCenter>, i: int) -> bool {
    exists|c: int| 0 <= c < cls.len() && #[trigger] in_cluster(cls[c], i)
}

/// The number of clusters asked of the clusterer:
/// max(1, floor(factor * sqrt(n))), with factor held in thousandths.
pub open spec fn target_clusters_spec(factor: nat, n: nat) -> nat {
    let t = isqrt_spec(factor * factor * n) / 1000;
    if t < 1 {
        1
    } else {
        t
    }
}

/// The sub-index of a cluster holds exactly the selected rows of the
/// dataset, in assignment order, with their cached norms.
pub open spec fn is_subset_view(sub: AngularData, data: AngularData, idxs: Seq<usize>) -> bool {
    &&& sub.wf()
    &&& sub.n_spec() == idxs.len()
    &&& idxs.len() <= data.n_spec()
    &&& sub.dims_spec() == data.dims_spec()
    &&& forall|j: int| 0 <= j < idxs.len() ==> #[trigger] sub.rows()[j] == data.rows()[idxs[j] as int]
}

pub struct ClusteredIndex {
    pub data: AngularData,
    pub clusters: Vec<ClusterCenter>,
    pub config: Config,
    pub puffinn_indices: Vec<Option<ExactSubIndex>>,
    pub metrics: Option<RunMetrics>,
}

impl ClusteredIndex {
    /// Base well-formedness, before or after build.
    pub open spec fn wf_base(&self) -> bool {
        &&& self.data.wf()
        &&& self.config.wf()
        &&& self.data.n_spec() >= 1
        &&& self.data.n_spec() <= u32::MAX
    }

    /// Every assignment entry is a dataset row (I1, validity).
    pub open spec fn inv_assignment_valid(&self) -> bool {
        forall|c: int, j: int|
            0 <= c < self.clusters@.len() && 0 <= j < self.clusters@[c].assignment@.len()
                ==> #[trigger] self.clusters@[c].assignment@[j] < self.data.n_spec()
    }

    /// Assignment lists are strictly increasing (I1, no duplicates).
    pub open spec fn inv_assignment_sorted(&self) -> bool {
        forall|c: int, j1: int, j2: int|
            0 <= c < self.clusters@.len() && 0 <= j1 < j2 < self.clusters@[c].assignment@.len()
                ==> #[trigger] self.clusters@[c].assignment@[j1]
                    < #[trigger] self.clusters@[c].assignment@[j2]
    }

    /// Dataset row `i` is listed in some cluster.
    pub open spec fn covered(&self, i: int) -> bool {
        exists|c: int| 0 <= c < self.clusters@.len() && in_cluster(#[trigger] self.clusters@[c], i)
    }

    /// Every dataset row is listed in some cluster (I1, coverage).
    pub open spec fn inv_coverage(&self) -> bool {
        forall|i: int| 0 <= i < self.data.n_spec() ==> #[trigger] self.covered(i)
    }

    /// No dataset row is listed in two clusters (I1, disjointness).
    pub open spec fn inv_disjoint(&self) -> bool {
        forall|c1: int, c2: int, i: int|
            0 <= c1 < self.clusters@.len() && 0 <= c2 < self.clusters@.len()
                && #[trigger] in_cluster(self.clusters@[c1], i)
                && #[trigger] in_cluster(self.clusters@[c2], i) ==> c1 == c2
    }

    /// Each cluster's radius bounds the distance from its center to each of
    /// its members (I2).
    pub open spec fn inv_radius(&self) -> bool {
        forall|c: int, j: int|
            0 <= c < self.clusters@.len() && 0 <= j < self.clusters@[c].assignment@.len()
                ==> self.data.dist_spec(
                    self.clusters@[c].center_idx as int,
                    #[trigger] self.clusters@[c].assignment@[j] as int,
                ) <= self.clusters@[c].radius
    }

    /// The brute-force flag follows the size rule (I3).
    pub open spec fn inv_brute_force(&self) -> bool {
        forall|c: int| 0 <= c < self.clusters@.len()
            ==> (#[trigger] self.clusters@[c]).brute_force == brute_force_rule(
                self.clusters@[c].assignment@.len(),
                self.config.k as nat,
            )
    }

    /// Memory accounting: a brute-force cluster reports no sub-index
    /// memory; any other cluster reports exactly the bytes its sub-index
    /// needs for the cluster's rows.
    pub open spec fn inv_memory(&self) -> bool {
        forall|c: int| 0 <= c < self.clusters@.len()
            ==> (#[trigger] self.clusters@[c]).memory_used as nat == if self.clusters@[c]
                .brute_force {
                0nat
            } else {
                crate::subindex::subindex_memory_spec(
                    self.clusters@[c].assignment@.len(),
                    self.data.dims_spec(),
                )
            }
    }

    /// Slot parity (I4): slot c holds a sub-index iff cluster c is not
    /// brute-force, and that sub-index is the subset view of the cluster.
    pub open spec fn inv_slots(&self) -> bool {
        &&& self.puffinn_indices@.len() == self.clusters@.len()
        &&& forall|c: int| 0 <= c < self.clusters@.len()
            ==> ((#[trigger] self.puffinn_indices@[c]) is Some
                <==> !self.clusters@[c].brute_force)
        &&& forall|c: int| 0 <= c < self.clusters@.len()
            ==> ((#[trigger] self.puffinn_indices@[c]) matches Some(s)
                ==> is_subset_view(s.data, self.data, self.clusters@[c].assignment@))
    }

    /// Dense ids (I5): cluster c sits at position c, and its center is a
    /// dataset row.
    pub open spec fn inv_ids(&self) -> bool {
        forall|c: int| 0 <= c < self.clusters@.len()
            ==> (#[trigger] self.clusters@[c]).idx == c
                && self.clusters@[c].center_idx < self.data.n_spec()
                && self.clusters@[c].radius <= 2 * crate::metricdata::DIST_SCALE
                && self.clusters@[c].assignment@.len() <= self.data.n_spec()
    }

    /// The cluster count the build owes (P4).
    pub open spec fn expected_cluster_count(&self) -> nat {
        let t = target_clusters_spec(self.config.num_clusters_factor as nat, self.data.n_spec());
        if t <= self.data.n_spec() {
            t
        } else {
            self.data.n_spec()
        }
    }

    /// A built index: base well-formedness plus invariants I1 to I5 and the
    /// owed cluster count.
    pub open spec fn wf_built(&self) -> bool {
        &&& self.wf_base()
        &&& self.clusters@.len() == self.expected_cluster_count()
        &&& self.inv_assignment_valid()
        &&& self.inv_assignment_sorted()
        &&& self.inv_coverage()
        &&& self.inv_disjoint()
        &&& self.inv_radius()
        &&& self.inv_brute_force()
        &&& self.inv_memory()
        &&& self.inv_slots()
        &&& self.inv_ids()
    }

    /// Whether an index is well built does not depend on its metrics field.
    pub proof fn lemma_wf_built_frame(a: ClusteredIndex, b: ClusteredIndex)
        requires
            a.wf_built(),
            b.data == a.data,
            b.clusters == a.clusters,
            b.config == a.config,
            b.puffinn_indices == a.puffinn_indices,
        ensures
            b.wf_built(),
    {
        assert forall|i: int| 0 <= i < b.data.n_spec() implies #[trigger] b.covered(i) by {
            assert(a.covered(i));
            let c = choose|c: int|
                0 <= c < a.clusters@.len() && in_cluster(a.clusters@[c], i);
            assert(in_cluster(b.clusters@[c], i));
        }
    }

    /// A fresh, unbuilt index over a dataset and a configuration.
    ///
    /// Fails with DataError if the dataset is empty or too large, and with
    /// ConfigError if a count is zero or a ratio is out of range.
    pub fn new(config: Config, data: AngularData) -> (r: Result<ClusteredIndex, ClusteredIndexError>)
        requires
            data.wf(),
        ensures
            match r {
                Ok(idx) => {
                    &&& idx.wf_base()
                    &&& idx.data == data
                    &&& idx.config == config
                    &&& idx.clusters@.len() == 0
                    &&& idx.puffinn_indices@.len() == 0
                    &&& (idx.metrics is Some <==> config.metrics_output is DB)
                },
                Err(e) => e is DataError || e is ConfigError,
            },
            r is Err <==> !(data.n_spec() >= 1 && data.n_spec() <= u32::MAX && config.wf()),
            !(data.n_spec() >= 1 && data.n_spec() <= u32::MAX)
                ==> (r matches Err(e) && e is DataError),
            data.n_spec() >= 1 && data.n_spec() <= u32::MAX && !config.wf()
                ==> (r matches Err(e) && e is ConfigError),
    {
        if data.num_points() == 0 {
            return Err(ClusteredIndexError::DataError("empty dataset".to_string()));
        }
        if data.num_points() > u32::MAX as usize {
            return Err(ClusteredIndexError::DataError("dataset too large".to_string()));
        }
        if !(config.num_tables >= 1 && 1 <= config.num_clusters_factor
            && config.num_clusters_factor <= 1_000_000 && config.k >= 1 && 0 < config.delta
            && config.delta < 1000) {
            return Err(ClusteredIndexError::ConfigError("invalid configuration".to_string()));
        }
        let metrics = match config.metrics_output {
            MetricsOutput::DB => Some(RunMetrics::new(config.clone(), data.num_points())),
            MetricsOutput::NoOutput => None,
        };
        Ok(ClusteredIndex {
            data,
            clusters: Vec::new(),
            config,
            puffinn_indices: Vec::new(),
            metrics,
        })
    }

    /// The number of clusters this index aims for: max(1, floor(factor * sqrt(n))).
    fn target_clusters(&self) -> (r: usize)
        requires
            self.wf_base(),
        ensures
            r as nat == target_clusters_spec(
                self.config.num_clusters_factor as nat,
                self.data.n_spec(),
            ),
            r >= 1,
    {
        target_clusters_for(self.config.num_clusters_factor, self.data.num_points())
    }
}

/// max(1, floor(factor * sqrt(n))), exactly, with factor in thousandths.
fn target_clusters_for(factor: u32, n: usize) -> (r: usize)
    requires
        1 <= factor <= 1_000_000,
        n <= u32::MAX,
    ensures
        r as nat == target_clusters_spec(factor as nat, n as nat),
        r >= 1,
{
    {
        let f: u128 = factor as u128;
        proof {
            assert(f * f <= 1_000_000u128 * 1_000_000u128) by (nonlinear_arith)
                requires 0 <= f <= 1_000_000u128;
            assert(f * f * (n as u128)
                <= 1_000_000u128 * 1_000_000u128 * 0xFFFF_FFFFu128) by (nonlinear_arith)
                requires
                    f * f <= 1_000_000u128 * 1_000_000u128,
                    0 <= n as u128 <= 0xFFFF_FFFFu128;
        }
        let sq: u128 = f * f * (n as u128);
        let root = isqrt(sq);
        proof {
            lemma_isqrt_bounds(sq as nat);
            assert(isqrt_spec(sq as nat) <= 100_000_000_000nat) by (nonlinear_arith)
                requires
                    isqrt_spec(sq as nat) * isqrt_spec(sq as nat) <= sq as nat,
                    sq as nat <= 1_000_000nat * 1_000_000nat * 0xFFFF_FFFFnat;
        }
        let t: u128 = root / 1000;
        if t < 1 {
            1
        } else {
            t as usize
        }
    }
}

impl ClusteredIndex {
    /// Builds the index: clusters the dataset with the greedy farthest-point
    /// heuristic, materialises the cluster records, and builds one sub-index
    /// per non-brute-force cluster. Establishes the invariants I1 to I5.
    pub fn build(&mut self) -> (r: Result<(), ClusteredIndexError>)
        requires
            old(self).wf_base(),
        ensures
            r is Ok,
            final(self).wf_built(),
            final(self).data == old(self).data,
            final(self).config == old(self).config,
            final(self).clusters@[0].center_idx == 0,
    {
        let n = self.data.num_points();
        let kc = self.target_clusters();
        let (centers, assignment, radius) = greedy_minimum_maximum(&self.data, kc);
        let kcp = centers.len();
        proof {
            assert(gmm_post(self.data, kc as int, centers@, assignment@, radius@));
        }

        let mut clusters: Vec<ClusterCenter> = Vec::new();
        let mut subs: Vec<Option<ExactSubIndex>> = Vec::new();
        let mut c: usize = 0;
        while c < kcp
            invariant
                self.wf_base(),
                n == self.data.n_spec(),
                gmm_post(self.data, kc as int, centers@, assignment@, radius@),
                kcp == centers@.len(),
                kcp <= n,
                c <= kcp,
                clusters@.len() == c,
                subs@.len() == c,
                forall|cc: int, j: int|
                    0 <= cc < c && 0 <= j < clusters@[cc].assignment@.len()
                        ==> #[trigger] clusters@[cc].assignment@[j] < n,
                forall|cc: int, j1: int, j2: int|
                    0 <= cc < c && 0 <= j1 < j2 < clusters@[cc].assignment@.len()
                        ==> #[trigger] clusters@[cc].assignment@[j1]
                            < #[trigger] clusters@[cc].assignment@[j2],
                forall|cc: int, i: int| 0 <= cc < c && 0 <= i < n
                    ==> (#[trigger] in_cluster(clusters@[cc], i) <==> assignment@[i] == cc),
                forall|cc: int, j: int|
                    0 <= cc < c && 0 <= j < clusters@[cc].assignment@.len()
                        ==> self.data.dist_spec(
                            clusters@[cc].center_idx as int,
                            #[trigger] clusters@[cc].assignment@[j] as int,
                        ) <= clusters@[cc].radius,
                forall|cc: int| 0 <= cc < c
                    ==> (#[trigger] clusters@[cc]).brute_force == brute_force_rule(
                        clusters@[cc].assignment@.len(),
                        self.config.k as nat,
                    ),
                forall|cc: int| 0 <= cc < c
                    ==> (#[trigger] clusters@[cc]).memory_used as nat == if clusters@[cc]
                        .brute_force {
                        0nat
                    } else {
                        crate::subindex::subindex_memory_spec(
                            clusters@[cc].assignment@.len(),
                            self.data.dims_spec(),
                        )
                    },
                forall|cc: int| 0 <= cc < c
                    ==> ((#[trigger] subs@[cc]) is Some <==> !clusters@[cc].brute_force),
                forall|cc: int| 0 <= cc < c
                    ==> ((#[trigger] subs@[cc]) matches Some(s)
                        ==> is_subset_view(s.data, self.data, clusters@[cc].assignment@)),
                forall|cc: int| 0 <= cc < c
                    ==> (#[trigger] clusters@[cc]).idx == cc
                        && clusters@[cc].center_idx < n
                        && clusters@[cc].center_idx == centers@[cc]
                        && clusters@[cc].radius <= 2 * crate::metricdata::DIST_SCALE
                        && clusters@[cc].assignment@.len() <= n,
            decreases kcp - c,
        {
            // collect the rows assigned to center c, in ascending order
            let mut list: Vec<usize> = Vec::new();
            let mut i: usize = 0;
            while i < n
                invariant
                    n == assignment@.len(),
                    c < centers@.len(),
                    i <= n,
                    list@.len() <= i,
                    forall|t: int| 0 <= t < list@.len() ==> #[trigger] list@[t] < i,
                    forall|t1: int, t2: int| 0 <= t1 < t2 < list@.len()
                        ==> #[trigger] list@[t1] < #[trigger] list@[t2],
                    forall|t: int| 0 <= t < list@.len()
                        ==> assignment@[#[trigger] list@[t] as int] == c,
                    forall|i2: int| 0 <= i2 < i && assignment@[i2] == c
                        ==> exists|t: int| 0 <= t < list@.len() && list@[t] == i2,
                decreases n - i,
            {
                if assignment[i] == c {
                    let ghost old_list = list@;
                    list.push(i);
                    proof {
                        assert(list@[list@.len() - 1] == i);
                        assert forall|i2: int| 0 <= i2 < i + 1 && assignment@[i2] == c implies
                            exists|t: int| 0 <= t < list@.len() && list@[t] == i2 by {
                            if i2 == i {
                                assert(list@[list@.len() - 1] == i2);
                            } else {
                                let t = choose|t: int|
                                    0 <= t < old_list.len() && old_list[t] == i2;
                                assert(list@[t] == i2);
                            }
                        }
                    }
                }
                i += 1;
            }
            let ghost final_list = list@;
            let list_len = list.len();
            let brute = list_len < BRUTE_FORCE_CUTOFF || list_len < self.config.k;
            let mut memory: usize = 0;
            if brute {
                subs.push(None);
            } else {
                let sub_data = self.data.subset(&list);
                let built = ExactSubIndex::build(sub_data, self.config.num_tables);
                memory = built.1;
                subs.push(Some(built.0));
            }
            let center_idx = centers[c];
            let rad = radius[c];
            proof {
                // the radius of the cluster bounds the distance of each member
                assert forall|j: int| 0 <= j < list@.len() implies
                    self.data.dist_spec(center_idx as int, #[trigger] list@[j] as int) <= rad by {
                    let i2 = list@[j] as int;
                    assert(assignment@[i2] == c);
                    assert(self.data.dist_spec(
                        centers@[assignment@[i2] as int] as int, i2)
                            <= radius@[assignment@[i2] as int]);
                }
            }
            clusters.push(ClusterCenter {
                idx: c,
                center_idx,
                radius: rad,
                assignment: list,
                brute_force: brute,
                memory_used: memory,
            });
            proof {
                let cl = clusters@[c as int];
                assert(cl.assignment@ == final_list);
                assert forall|i2: int| 0 <= i2 < n implies
                    (#[trigger] in_cluster(cl, i2) <==> assignment@[i2] == c as int) by {
                    if assignment@[i2] == c as int {
                        let t = choose|t: int|
                            0 <= t < final_list.len() && final_list[t] == i2;
                        assert(cl.assignment@[t] == i2);
                        assert(in_cluster(cl, i2));
                    } else {
                        if in_cluster(cl, i2) {
                            let j = choose|j: int|
                                0 <= j < cl.assignment@.len() && cl.assignment@[j] == i2;
                            assert(assignment@[cl.assignment@[j] as int] == c as int);
                            assert(false);
                        }
                    }
                }
            }
            c += 1;
        }

        self.clusters = clusters;
        self.puffinn_indices = subs;
        proof {
            // coverage and disjointness follow from the characterisation of
            // membership by the assignment map
            assert forall|i: int| 0 <= i < n implies #[trigger] self.covered(i) by {
                let cc = assignment@[i] as int;
                assert(0 <= cc < kcp);
                assert(in_cluster(self.clusters@[cc], i));
            }
            // row 0 seeds the clustering, so cluster 0 is centered there
            assert(self.clusters@[0].center_idx == centers@[0]);
            assert(centers@[0] == 0);
        }
        Ok(())
    }

    /// Cluster ids ordered by the distance from the query to each cluster's
    /// center, ascending. The result is a permutation of all cluster ids.
    pub fn sort_cluster_indices_by_distance(&self, query: &[i64]) -> (r: Vec<usize>)
        requires
            self.wf_built(),
            query@.len() == self.data.dims_spec(),
            coords_bounded(query@),
        ensures
            r@.len() == self.clusters@.len(),
            forall|m: int| 0 <= m < r@.len() ==> #[trigger] r@[m] < self.clusters@.len(),
            forall|m1: int, m2: int| 0 <= m1 < m2 < r@.len() ==> r@[m1] != r@[m2],
            forall|m1: int, m2: int| 0 <= m1 <= m2 < r@.len()
                ==> self.center_dist(#[trigger] r@[m1] as int, query@)
                    <= self.center_dist(#[trigger] r@[m2] as int, query@),
            forall|c: int| 0 <= c < self.clusters@.len() ==> #[trigger] appears(r@, c),
    {
        let n_c = self.clusters.len();
        let mut pairs: Vec<(u64, usize)> = Vec::new();
        let mut c: usize = 0;
        while c < n_c
            invariant
                self.wf_built(),
                query@.len() == self.data.dims_spec(),
                coords_bounded(query@),
                n_c == self.clusters@.len(),
                c <= n_c,
                pairs@.len() == c,
                forall|m: int| 0 <= m < c ==> #[trigger] pairs@[m]
                    == ((self.center_dist(m, query@) as u64, m as usize)),
            decreases n_c - c,
        {
            let center = self.clusters[c].center_idx;
            let d = self.data.distance_point(center, query);
            pairs.push((d, c));
            c += 1;
        }
        let ghost orig_pairs = pairs@;
        proof {
            assert forall|m1: int, m2: int| 0 <= m1 < m2 < orig_pairs.len() implies
                orig_pairs[m1] != orig_pairs[m2] by {
                assert(orig_pairs[m1].1 == m1 && orig_pairs[m2].1 == m2);
            }
            orig_pairs.lemma_multiset_has_no_duplicates();
        }
        // insertion sort, ascending by distance
        let mut i: usize = 1;
        while i < pairs.len()
            invariant
                self.wf_built(),
                n_c == self.clusters@.len(),
                pairs@.len() == orig_pairs.len(),
                pairs@.to_multiset() == orig_pairs.to_multiset(),
                1 <= i <= pairs@.len() || pairs@.len() == 0,
                forall|a: int, b: int| 0 <= a < b < i ==> pairs@[a].0 <= pairs@[b].0,
                forall|m: int| 0 <= m < pairs@.len()
                    ==> #[trigger] pairs@[m]
                        == ((self.center_dist(pairs@[m].1 as int, query@) as u64, pairs@[m].1))
                        && pairs@[m].1 < n_c,
            decreases pairs@.len() - i,
        {
            let mut j: usize = i;
            while j > 0 && pairs[j - 1].0 > pairs[j].0
                invariant
                    self.wf_built(),
                    n_c == self.clusters@.len(),
                    0 <= j <= i < pairs@.len(),
                    pairs@.len() == orig_pairs.len(),
                    pairs@.to_multiset() == orig_pairs.to_multiset(),
                    forall|a: int, b: int| 0 <= a < b <= i && b != j ==> pairs@[a].0 <= pairs@[b].0,
                    forall|a: int, b: int| j <= a < b <= i ==> pairs@[a].0 <= pairs@[b].0,
                    forall|m: int| 0 <= m < pairs@.len()
                        ==> #[trigger] pairs@[m]
                            == ((self.center_dist(pairs@[m].1 as int, query@) as u64, pairs@[m].1))
                            && pairs@[m].1 < n_c,
                decreases j,
            {
                let ghost s0 = pairs@;
                let tmp = pairs[j - 1];
                let cur = pairs[j];
                pairs.set(j - 1, cur);
                let ghost s1 = pairs@;
                pairs.set(j, tmp);
                proof {
                    broadcast use vstd::seq_lib::to_multiset_update;
                    broadcast use vstd::seq_lib::group_to_multiset_ensures;
                    broadcast use vstd::multiset::group_multiset_axioms;

                    assert(s1.to_multiset() == s0.to_multiset().insert(cur).remove(s0[j - 1]));
                    assert(pairs@.to_multiset() == s1.to_multiset().insert(tmp).remove(s1[j as int]));
                    assert(s1[j as int] == cur && s0[j - 1] == tmp);
                    assert(pairs@.to_multiset() =~= s0.to_multiset());
                }
                j -= 1;
            }
            i += 1;
        }
        proof {
            broadcast use vstd::seq_lib::group_to_multiset_ensures;
            broadcast use vstd::multiset::group_multiset_axioms;

            // distinctness and completeness follow from multiset equality
            assert forall|m1: int, m2: int| 0 <= m1 < m2 < pairs@.len() implies
                pairs@[m1] != pairs@[m2] by {
                if pairs@[m1] == pairs@[m2] {
                    let sfx = pairs@.subrange(m2, pairs@.len() as int);
                    let pre = pairs@.subrange(0, m2);
                    assert(pairs@ =~= pre + sfx);
                    vstd::seq_lib::lemma_multiset_commutative(pre, sfx);
                    assert(pre.to_multiset().contains(pairs@[m1])) by {
                        assert(pre[m1] == pairs@[m1]);
                    }
                    assert(sfx.to_multiset().contains(pairs@[m2])) by {
                        assert(sfx[0] == pairs@[m2]);
                    }
                    assert(pairs@.to_multiset().count(pairs@[m1]) >= 2);
                    assert(orig_pairs.to_multiset().count(pairs@[m1]) <= 1);
                    assert(false);
                }
            }
        }
        // harvest the ids
        let mut out: Vec<usize> = Vec::new();
        let mut m: usize = 0;
        while m < pairs.len()
            invariant
                m <= pairs@.len(),
                out@.len() == m,
                forall|t: int| 0 <= t < m ==> #[trigger] out@[t] == pairs@[t].1,
            decreases pairs@.len() - m,
        {
            let id = pairs[m].1;
            out.push(id);
            m += 1;
        }
        proof {
            assert forall|m1: int, m2: int| 0 <= m1 < m2 < out@.len() implies
                out@[m1] != out@[m2] by {
                assert(out@[m1] == pairs@[m1].1 && out@[m2] == pairs@[m2].1);
                if pairs@[m1].1 == pairs@[m2].1 {
                    assert(pairs@[m1] == pairs@[m2]);
                }
            }
            broadcast use vstd::seq_lib::group_to_multiset_ensures;
            broadcast use vstd::multiset::group_multiset_axioms;

            assert forall|c2: int| 0 <= c2 < n_c implies #[trigger] appears(out@, c2) by {
                let p0 = orig_pairs[c2];
                assert(orig_pairs.to_multiset().contains(p0)) by {
                    assert(orig_pairs[c2] == p0);
                }
                assert(pairs@.to_multiset().contains(p0));
                assert(pairs@.contains(p0));
                let m2 = choose|m2: int| 0 <= m2 < pairs@.len() && pairs@[m2] == p0;
                assert(out@[m2] == c2);
            }
        }
        out
    }

    /// Distance from the query to the center of cluster c.
    pub open spec fn center_dist(&self, c: int, q: Seq<i64>) -> int {
        self.data.dist_point_spec(self.clusters@[c].center_idx as int, q)
    }

    /// Maps local ids returned by a sub-index to dataset row ids through the
    /// cluster's assignment list. A local id at or past the end of the list
    /// is reported as IndexOutOfBounds.
    pub fn map_candidates(&self, candidates: &Vec<u32>, cluster: &ClusterCenter) -> (r: Result<
        Vec<usize>,
        ClusteredIndexError,
    >)
        ensures
            match r {
                Ok(v) => {
                    &&& forall|m: int| 0 <= m < candidates@.len()
                        ==> #[trigger] candidates@[m] < cluster.assignment@.len()
                    &&& v@.len() == candidates@.len()
                    &&& forall|m: int| 0 <= m < v@.len()
                        ==> #[trigger] v@[m] == cluster.assignment@[candidates@[m] as int]
                },
                Err(e) => exists|j: int|
                    0 <= j < candidates@.len()
                        && (#[trigger] candidates@[j]) as int >= cluster.assignment@.len()
                        && (forall|j2: int| 0 <= j2 < j
                            ==> (#[trigger] candidates@[j2]) < cluster.assignment@.len())
                        && e == ClusteredIndexError::IndexOutOfBounds(
                        candidates@[j] as usize,
                        cluster.assignment@.len() as usize,
                    ),
            },
            (forall|m: int| 0 <= m < candidates@.len()
                ==> #[trigger] candidates@[m] < cluster.assignment@.len()) ==> r is Ok,
    {
        let mut out: Vec<usize> = Vec::new();
        let mut m: usize = 0;
        while m < candidates.len()
            invariant
                m <= candidates@.len(),
                out@.len() == m,
                forall|t: int| 0 <= t < m ==> #[trigger] candidates@[t] < cluster.assignment@.len(),
                forall|t: int| 0 <= t < m
                    ==> #[trigger] out@[t] == cluster.assignment@[candidates@[t] as int],
            decreases candidates@.len() - m,
        {
            let local = candidates[m] as usize;
            if local < cluster.assignment.len() {
                out.push(cluster.assignment[local]);
            } else {
                proof {
                    assert(candidates@[m as int] as int >= cluster.assignment@.len());
                }
                return Err(ClusteredIndexError::IndexOutOfBounds(
                    local,
                    cluster.assignment.len(),
                ));
            }
            m += 1;
        }
        Ok(out)
    }

    /// The k closest members of one cluster, by direct scan: pairs of
    /// (distance, dataset row id), with exact recomputed distances.
    #[verifier::rlimit(100)]
    pub fn brute_force_search(&self, cluster: &ClusterCenter, query: &[i64]) -> (r: Result<
        Vec<(u64, usize)>,
        ClusteredIndexError,
    >)
        requires
            self.wf_built(),
            query@.len() == self.data.dims_spec(),
            coords_bounded(query@),
            forall|j: int| 0 <= j < cluster.assignment@.len()
                ==> #[trigger] cluster.assignment@[j] < self.data.n_spec(),
            forall|j1: int, j2: int| 0 <= j1 < j2 < cluster.assignment@.len()
                ==> cluster.assignment@[j1] < cluster.assignment@[j2],
        ensures
            r is Ok,
            ({
                let v = r->Ok_0;
                &&& v@.len() == min_spec(self.config.k as nat, cluster.assignment@.len())
                &&& forall|m: int| 0 <= m < v@.len() ==> (#[trigger] v@[m]).1 < self.data.n_spec()
                &&& forall|m: int| 0 <= m < v@.len()
                    ==> (#[trigger] v@[m]).0 as int == self.data.dist_point_spec(v@[m].1 as int, query@)
                &&& forall|m: int| 0 <= m < v@.len()
                    ==> in_cluster(*cluster, (#[trigger] v@[m]).1 as int)
                &&& forall|m1: int, m2: int| 0 <= m1 < m2 < v@.len() ==> v@[m1].1 != v@[m2].1
                &&& forall|m1: int, m2: int| 0 <= m1 < m2 < v@.len() ==> v@[m1].0 <= v@[m2].0
                &&& forall|j: int, m: int|
                    0 <= j < cluster.assignment@.len() && 0 <= m < v@.len()
                        && !#[trigger] contains_result_id(v@, cluster.assignment@[j] as int)
                        ==> self.data.dist_point_spec(cluster.assignment@[j] as int, query@)
                            >= self.data.dist_point_spec((#[trigger] v@[m]).1 as int, query@)
            }),
    {
        let k = self.config.k;
        let n_members = cluster.assignment.len();
        let mut pq = TopKClosestHeap::new(k);
        let mut j: usize = 0;
        while j < n_members
            invariant
                self.wf_built(),
                query@.len() == self.data.dims_spec(),
                coords_bounded(query@),
                k == self.config.k,
                n_members == cluster.assignment@.len(),
                forall|t: int| 0 <= t < cluster.assignment@.len()
                    ==> #[trigger] cluster.assignment@[t] < self.data.n_spec(),
                forall|t1: int, t2: int| 0 <= t1 < t2 < cluster.assignment@.len()
                    ==> cluster.assignment@[t1] < cluster.assignment@[t2],
                j <= n_members,
                pq.wf(),
                pq.length == k,
                pq.heap@.len() == min_spec(k as nat, j as nat),
                forall|m: int| 0 <= m < pq.heap@.len()
                    ==> (#[trigger] pq.heap@[m]).point_index < self.data.n_spec()
                        && pq.heap@[m].distance as int
                            == self.data.dist_point_spec(pq.heap@[m].point_index as int, query@)
                        && (exists|t: int| 0 <= t < j
                            && cluster.assignment@[t] == pq.heap@[m].point_index),
                forall|m1: int, m2: int| 0 <= m1 < m2 < pq.heap@.len()
                    ==> pq.heap@[m1].point_index != pq.heap@[m2].point_index,
                forall|t: int| 0 <= t < j
                    ==> #[trigger] has_id(pq.heap@, cluster.assignment@[t] as int)
                        || (pq.heap@.len() == k && (pq.heap@.len() == 0
                            || self.data.dist_point_spec(cluster.assignment@[t] as int, query@)
                                >= pq.heap@.last().distance)),
            decreases n_members - j,
        {
            let p = cluster.assignment[j];
            let d = self.data.distance_point(p, query);
            let e = Element { distance: d, point_index: p };
            let ghost s = pq.heap@;
            let _acc = pq.add(e);
            proof {
                let jj = j as int;
                let pred = |el: Element|
                    el.point_index < self.data.n_spec()
                        && el.distance as int
                            == self.data.dist_point_spec(el.point_index as int, query@)
                        && (exists|t: int| 0 <= t < jj + 1
                            && cluster.assignment@[t] == el.point_index);
                assert forall|m: int| 0 <= m < s.len() implies pred(#[trigger] s[m]) by {
                    let t = choose|t: int| 0 <= t < jj && cluster.assignment@[t] == s[m].point_index;
                    assert(0 <= t < jj + 1 && cluster.assignment@[t] == s[m].point_index);
                }
                assert(pred(e)) by {
                    assert(cluster.assignment@[jj] == e.point_index);
                }
                assert forall|m: int| 0 <= m < s.len() implies
                    (#[trigger] s[m]).point_index != e.point_index by {
                    let t = choose|t: int| 0 <= t < jj && cluster.assignment@[t] == s[m].point_index;
                    assert(cluster.assignment@[t] < cluster.assignment@[jj]);
                }
                crate::heap::lemma_add_preserves(s, pq.heap@, pq.length as nat, e, pred);
                let s2 = pq.heap@;
                assert forall|t: int| 0 <= t < jj + 1 implies
                    #[trigger] has_id(s2, cluster.assignment@[t] as int)
                        || (s2.len() == k && (s2.len() == 0
                            || self.data.dist_point_spec(cluster.assignment@[t] as int, query@)
                                >= s2.last().distance)) by {
                    let tid = cluster.assignment@[t] as int;
                    if s.len() < k {
                        if t == jj {
                            let m = choose|m: int| 0 <= m < s2.len() && s2[m] == e;
                            assert(s2[m].point_index == tid);
                        } else {
                            assert(has_id(s, tid));
                            let m0 = choose|m0: int|
                                0 <= m0 < s.len() && s[m0].point_index == tid;
                            let m = choose|m: int| 0 <= m < s2.len() && s2[m] == s[m0];
                            assert(s2[m].point_index == tid);
                        }
                    } else if k > 0 && e.distance < s.last().distance {
                        if t == jj {
                            let m = choose|m: int| 0 <= m < s2.len() && s2[m] == e;
                            assert(s2[m].point_index == tid);
                        } else if has_id(s, tid) {
                            let m0 = choose|m0: int|
                                0 <= m0 < s.len() && s[m0].point_index == tid;
                            if m0 < s.len() - 1 {
                                let m = choose|m: int|
                                    0 <= m < s2.len() && s2[m] == s[m0];
                                assert(s2[m].point_index == tid);
                            } else {
                                // the dropped element was the worst retained
                                assert(s[m0] == s.last());
                                assert(s[m0].distance as int
                                    == self.data.dist_point_spec(tid, query@));
                            }
                        } else {
                            assert(self.data.dist_point_spec(tid, query@)
                                >= s.last().distance);
                        }
                    } else {
                        assert(s2 == s);
                        if k == 0 {
                            assert(s2.len() == 0);
                        } else if t == jj {
                            assert(e.distance as int
                                == self.data.dist_point_spec(tid, query@));
                            assert(e.distance >= s.last().distance);
                        }
                    }
                }
            }
            j += 1;
        }
        let pairs = pq.to_list();
        proof {
            assert forall|m: int| 0 <= m < pairs@.len() implies
                in_cluster(*cluster, (#[trigger] pairs@[m]).1 as int) by {
                assert(pairs@[m].1 == pq.heap@[m].point_index);
            }
            assert forall|m1: int, m2: int| 0 <= m1 < m2 < pairs@.len() implies
                pairs@[m1].0 <= pairs@[m2].0 by {
                assert(crate::heap::le_elem(pq.heap@[m1], pq.heap@[m2]));
            }
            // every member left out is at least as far as every returned one
            assert forall|j2: int, m: int|
                0 <= j2 < cluster.assignment@.len() && 0 <= m < pairs@.len()
                    && !#[trigger] contains_result_id(pairs@, cluster.assignment@[j2] as int)
                    implies self.data.dist_point_spec(cluster.assignment@[j2] as int, query@)
                    >= self.data.dist_point_spec((#[trigger] pairs@[m]).1 as int, query@) by {
                let tid = cluster.assignment@[j2] as int;
                if has_id(pq.heap@, tid) {
                    let m0 = choose|m0: int|
                        0 <= m0 < pq.heap@.len() && pq.heap@[m0].point_index == tid;
                    assert(pairs@[m0].1 == pq.heap@[m0].point_index);
                    assert(contains_result_id(pairs@, tid));
                    assert(false);
                }
                assert(pq.heap@.len() > 0);
                assert(self.data.dist_point_spec(tid, query@) >= pq.heap@.last().distance);
                assert(crate::heap::le_elem(pq.heap@[m], pq.heap@.last()));
                assert(pairs@[m].1 == pq.heap@[m].point_index);
                assert(pq.heap@[m].distance as int
                    == self.data.dist_point_spec(pq.heap@[m].point_index as int, query@));
            }
        }
        Ok(pairs)
    }

    /// A dataset row belongs to one of the first `pos` clusters of the
    /// visiting order.
    pub open spec fn from_visited(&self, order: Seq<usize>, pos: int, id: int) -> bool {
        exists|t: int| 0 <= t < pos && in_cluster(self.clusters@[order[t] as int], id)
    }

    /// What `search` owes: exactly min(k, n) pairs, ascending by distance,
    /// with pairwise distinct dataset rows, and every reported distance is
    /// the true fixed-point cosine distance of that row to the query.
    pub open spec fn search_post(data: AngularData, k: nat, q: Seq<i64>, r: Seq<(u64, usize)>) -> bool {
        &&& r.len() == min_spec(k, data.n_spec())
        &&& forall|m: int| 0 <= m < r.len() ==> (#[trigger] r[m]).1 < data.n_spec()
        &&& forall|m: int| 0 <= m < r.len()
            ==> (#[trigger] r[m]).0 as int == data.dist_point_spec(r[m].1 as int, q)
        &&& forall|m1: int, m2: int| 0 <= m1 < m2 < r.len() ==> r[m1].0 <= r[m2].0
        &&& forall|m1: int, m2: int| 0 <= m1 < m2 < r.len() ==> r[m1].1 != r[m2].1
    }

    /// Answers a query: visits clusters in ascending order of the distance
    /// from the query to their centers, stops as soon as no later candidate
    /// can improve the answer (the full top-k is closer than the lower bound
    /// `center distance - radius` of the current cluster), and recomputes
    /// every candidate distance before accepting it.
    #[verifier::rlimit(100)]
    pub fn search(&mut self, query: &[i64]) -> (res: Result<
        Vec<(u64, usize)>,
        ClusteredIndexError,
    >)
        requires
            old(self).wf_built(),
            query@.len() == old(self).data.dims_spec(),
            coords_bounded(query@),
        ensures
            final(self).data == old(self).data,
            final(self).clusters == old(self).clusters,
            final(self).puffinn_indices == old(self).puffinn_indices,
            final(self).config == old(self).config,
            final(self).wf_built(),
            res is Ok,
            Self::search_post(
                old(self).data,
                old(self).config.k as nat,
                query@,
                (res->Ok_0)@,
            ),
            old(self).clusters@.len() == 1 ==> forall|j: int, m: int|
                0 <= j < old(self).data.n_spec() && 0 <= m < (res->Ok_0)@.len()
                    && !(#[trigger] contains_result_id((res->Ok_0)@, j))
                    ==> old(self).data.dist_point_spec(j, query@)
                        >= old(self).data.dist_point_spec(
                        (#[trigger] (res->Ok_0)@[m]).1 as int,
                        query@,
                    ),
    {
        let mut met = self.metrics.take();
        met = match met {
            Some(mut m) => {
                m.new_query();
                Some(m)
            },
            None => None,
        };

        proof {
            Self::lemma_wf_built_frame(*old(self), *self);
        }
        let k = self.config.k;
        let n = self.data.num_points();
        let n_c = self.clusters.len();
        let order = self.sort_cluster_indices_by_distance(query);
        met = match met {
            Some(mut m) => {
                m.add_distance_computation_global(n_c);
                Some(m)
            },
            None => None,
        };

        let mut pq = TopKClosestHeap::new(k);
        let mut max_dist: u64 = u64::MAX;
        let mut pos: usize = 0;
        while pos < n_c
            invariant
                self.wf_built(),
                self.data == old(self).data,
                self.clusters == old(self).clusters,
                self.puffinn_indices == old(self).puffinn_indices,
                self.config == old(self).config,
                query@.len() == self.data.dims_spec(),
                coords_bounded(query@),
                k == self.config.k,
                n == self.data.n_spec(),
                n_c == self.clusters@.len(),
                order@.len() == n_c,
                forall|m: int| 0 <= m < order@.len() ==> #[trigger] order@[m] < n_c,
                forall|m1: int, m2: int| 0 <= m1 < m2 < order@.len() ==> order@[m1] != order@[m2],
                forall|m1: int, m2: int| 0 <= m1 <= m2 < order@.len()
                    ==> self.center_dist(#[trigger] order@[m1] as int, query@)
                        <= self.center_dist(#[trigger] order@[m2] as int, query@),
                forall|c: int| 0 <= c < n_c ==> #[trigger] appears(order@, c),
                pos <= n_c,
                pq.wf(),
                pq.length == k,
                forall|m: int| 0 <= m < pq.heap@.len()
                    ==> (#[trigger] pq.heap@[m]).point_index < n
                        && pq.heap@[m].distance as int
                            == self.data.dist_point_spec(pq.heap@[m].point_index as int, query@)
                        && self.from_visited(order@, pos as int, pq.heap@[m].point_index as int),
                forall|m1: int, m2: int| 0 <= m1 < m2 < pq.heap@.len()
                    ==> pq.heap@[m1].point_index != pq.heap@[m2].point_index,
                pq.heap@.len() < k ==> forall|t: int, i2: int|
                    0 <= t < pos && #[trigger] in_cluster(self.clusters@[order@[t] as int], i2)
                        ==> has_id(pq.heap@, i2),
                n_c == 1 && pos == 1 ==> forall|j: int, m0: int|
                    #![trigger has_id(pq.heap@, j), pq.heap@[m0]]
                    0 <= j < n && 0 <= m0 < pq.heap@.len() && !has_id(pq.heap@, j)
                        ==> self.data.dist_point_spec(j, query@)
                            >= self.data.dist_point_spec(
                            pq.heap@[m0].point_index as int,
                            query@,
                        ),
            decreases n_c - pos,
        {
            let cluster_id = order[pos];
            let center_idx = self.clusters[cluster_id].center_idx;
            let radius = self.clusters[cluster_id].radius;
            let brute = self.clusters[cluster_id].brute_force;

            // early-termination rule: once the top-k is full, a cluster
            // whose nearest possible member is farther than the current
            // worst answer ends the search
            if pq.len() == k {
                let top = pq.get_top();
                if let Some(t) = top {
                    max_dist = t.1;
                    let cd = self.data.distance_point(center_idx, query);
                    if (cd as u128) > (max_dist as u128) + (radius as u128) {
                        met = match met {
                            Some(mut m) => {
                                m.add_distance_computation_cluster(1);
                                Some(m)
                            },
                            None => None,
                        };
                        let out = pq.to_list();
                        proof {
                            lemma_distinct_ids_le_n(pq.heap@, n as nat);
                            assert forall|m1: int, m2: int| 0 <= m1 < m2 < out@.len() implies
                                out@[m1].0 <= out@[m2].0 by {
                                assert(crate::heap::le_elem(pq.heap@[m1], pq.heap@[m2]));
                            }
                            if n_c == 1 {
                                // with one cluster the buffer is still empty
                                // here, so it cannot be full
                                assert(pos == 0);
                                assert(pq.heap@.len() == 0) by {
                                    if pq.heap@.len() > 0 {
                                        assert(self.from_visited(
                                            order@,
                                            0,
                                            pq.heap@[0].point_index as int,
                                        ));
                                        assert(false);
                                    }
                                }
                                assert(k >= 1);
                                assert(false);
                            }
                        }
                        let ghost pre = *self;
                        self.metrics = met;
                        proof {
                            Self::lemma_wf_built_frame(pre, *self);
                        }
                        return Ok(out);
                    }
                }
            }

            // gather this cluster's candidates: (distance, dataset row)
            let candidates: Vec<(u64, usize)>;
            let dc: usize;
            if brute {
                let cl = &self.clusters[cluster_id];
                candidates = match self.brute_force_search(cl, query) {
                    Ok(v) => v,
                    Err(e) => {
                        self.metrics = met;
                        return Err(e);
                    },
                };
                dc = cl.assignment.len();
            } else {
                let locals = match &self.puffinn_indices[cluster_id] {
                    Some(sub) => sub.search(query, k, max_dist, self.config.delta),
                    None => {
                        self.metrics = met;
                        return Err(ClusteredIndexError::IndexNotFound());
                    },
                };
                let cl = &self.clusters[cluster_id];
                let mapped = match self.map_candidates(&locals, cl) {
                    Ok(v) => v,
                    Err(e) => {
                        self.metrics = met;
                        return Err(e);
                    },
                };
                proof {
                    assert forall|t: int| 0 <= t < mapped@.len() implies #[trigger] mapped@[t] < n by {
                        let c_int = cluster_id as int;
                        assert(mapped@[t] == self.clusters@[c_int].assignment@[locals@[t] as int]);
                    }
                }
                let mut cand: Vec<(u64, usize)> = Vec::new();
                let mut m: usize = 0;
                while m < mapped.len()
                    invariant
                        self.wf_built(),
                        query@.len() == self.data.dims_spec(),
                        coords_bounded(query@),
                        n == self.data.n_spec(),
                        m <= mapped@.len(),
                        cand@.len() == m,
                        forall|t: int| 0 <= t < mapped@.len() ==> #[trigger] mapped@[t] < n,
                        forall|t: int| 0 <= t < m
                            ==> (#[trigger] cand@[t]).1 == mapped@[t]
                                && cand@[t].0 as int
                                    == self.data.dist_point_spec(mapped@[t] as int, query@),
                    decreases mapped@.len() - m,
                {
                    let p = mapped[m];
                    let d = self.data.distance_point(p, query);
                    cand.push((d, p));
                    m += 1;
                }
                proof {
                    let c_int = cluster_id as int;
                    let cl_g = self.clusters@[c_int];
                    let subs = self.puffinn_indices@[c_int];
                    assert(subs is Some);
                    assert forall|t1: int, t2: int| 0 <= t1 < t2 < cand@.len() implies
                        cand@[t1].1 != cand@[t2].1 by {
                        assert(mapped@[t1] == cl_g.assignment@[locals@[t1] as int]);
                        assert(mapped@[t2] == cl_g.assignment@[locals@[t2] as int]);
                        assert(locals@[t1] != locals@[t2]);
                        if locals@[t1] < locals@[t2] {
                            assert(cl_g.assignment@[locals@[t1] as int]
                                < cl_g.assignment@[locals@[t2] as int]);
                        } else {
                            assert(cl_g.assignment@[locals@[t2] as int]
                                < cl_g.assignment@[locals@[t1] as int]);
                        }
                    }
                    assert forall|t: int| 0 <= t < cand@.len() implies
                        in_cluster(cl_g, (#[trigger] cand@[t]).1 as int) by {
                        assert(cl_g.assignment@[locals@[t] as int] == cand@[t].1);
                    }
                    // every cluster member left out of the candidates is at
                    // least as far as every candidate (transferred from the
                    // sub-index through the subset view)
                    let s_sub = subs->0;
                    assert(is_subset_view(s_sub.data, self.data, cl_g.assignment@));
                    assert forall|j2: int, t: int|
                        0 <= j2 < cl_g.assignment@.len() && 0 <= t < cand@.len()
                            && !#[trigger] contains_result_id(cand@, cl_g.assignment@[j2] as int)
                            implies self.data.dist_point_spec(cl_g.assignment@[j2] as int, query@)
                            >= self.data.dist_point_spec((#[trigger] cand@[t]).1 as int, query@) by {
                        if crate::subindex::contains_local(locals@, j2) {
                            let t2 = choose|t2: int|
                                0 <= t2 < locals@.len() && locals@[t2] == j2;
                            assert(cand@[t2].1 == mapped@[t2]);
                            assert(mapped@[t2] == cl_g.assignment@[locals@[t2] as int]);
                            assert(contains_result_id(cand@, cl_g.assignment@[j2] as int));
                            assert(false);
                        }
                        assert(s_sub.data.dist_point_spec(j2, query@)
                            >= s_sub.data.dist_point_spec(locals@[t] as int, query@));
                        lemma_subset_dist(s_sub.data, self.data, cl_g.assignment@, j2, query@);
                        lemma_subset_dist(
                            s_sub.data,
                            self.data,
                            cl_g.assignment@,
                            locals@[t] as int,
                            query@,
                        );
                        assert(cand@[t].1 == cl_g.assignment@[locals@[t] as int]);
                    }
                }
                candidates = cand;
                dc = cl.assignment.len();
            }

            // fold the candidates into the running top-k
            let ghost cl_ghost = self.clusters@[cluster_id as int];
            let ghost len0 = pq.heap@.len();
            proof {
                assert(candidates@.len() == min_spec(k as nat, cl_ghost.assignment@.len()));
                if pos == 0 {
                    assert(len0 == 0) by {
                        if pq.heap@.len() > 0 {
                            assert(self.from_visited(
                                order@,
                                0,
                                pq.heap@[0].point_index as int,
                            ));
                            assert(false);
                        }
                    }
                }
            }
            let mut added: usize = 0;
            let mut m: usize = 0;
            while m < candidates.len()
                invariant
                    self.inv_disjoint(),
                    query@.len() == self.data.dims_spec(),
                    coords_bounded(query@),
                    k == self.config.k,
                    n == self.data.n_spec(),
                    n_c == self.clusters@.len(),
                    order@.len() == n_c,
                    pos < n_c,
                    cluster_id == order@[pos as int],
                    cluster_id < n_c,
                    cl_ghost == self.clusters@[cluster_id as int],
                    forall|m0: int| 0 <= m0 < order@.len() ==> #[trigger] order@[m0] < n_c,
                    forall|m1: int, m2: int| 0 <= m1 < m2 < order@.len()
                        ==> order@[m1] != order@[m2],
                    m <= candidates@.len(),
                    added <= m,
                    forall|t: int| 0 <= t < candidates@.len()
                        ==> (#[trigger] candidates@[t]).1 < n
                            && candidates@[t].0 as int
                                == self.data.dist_point_spec(candidates@[t].1 as int, query@)
                            && in_cluster(cl_ghost, candidates@[t].1 as int),
                    forall|t1: int, t2: int| 0 <= t1 < t2 < candidates@.len()
                        ==> candidates@[t1].1 != candidates@[t2].1,
                    pq.wf(),
                    pq.length == k,
                    pq.heap@.len() == min_spec(k as nat, (len0 + m) as nat),
                    len0 <= k,
                    forall|m0: int| 0 <= m0 < pq.heap@.len()
                        ==> (#[trigger] pq.heap@[m0]).point_index < n
                            && pq.heap@[m0].distance as int
                                == self.data.dist_point_spec(pq.heap@[m0].point_index as int, query@)
                            && (self.from_visited(order@, pos as int, pq.heap@[m0].point_index as int)
                                || exists|t: int| 0 <= t < m
                                    && (#[trigger] candidates@[t]).1 == pq.heap@[m0].point_index),
                    forall|m1: int, m2: int| 0 <= m1 < m2 < pq.heap@.len()
                        ==> pq.heap@[m1].point_index != pq.heap@[m2].point_index,
                    pq.heap@.len() < k ==> forall|t: int, i2: int|
                        0 <= t < pos && #[trigger] in_cluster(self.clusters@[order@[t] as int], i2)
                            ==> has_id(pq.heap@, i2),
                    pq.heap@.len() < k ==> forall|t: int| 0 <= t < m
                        ==> has_id(pq.heap@, (#[trigger] candidates@[t]).1 as int),
                decreases candidates@.len() - m,
            {
                let cpair = candidates[m];
                let e = Element { distance: cpair.0, point_index: cpair.1 };
                let ghost s = pq.heap@;
                let accepted = pq.add(e);
                if accepted {
                    added += 1;
                }
                proof {
                    let mm = m as int;
                    let pred = |el: Element|
                        el.point_index < n
                            && el.distance as int
                                == self.data.dist_point_spec(el.point_index as int, query@)
                            && (self.from_visited(order@, pos as int, el.point_index as int)
                                || exists|t: int| 0 <= t < mm + 1
                                    && (#[trigger] candidates@[t]).1 == el.point_index);
                    assert forall|m0: int| 0 <= m0 < s.len() implies pred(#[trigger] s[m0]) by {
                        if !self.from_visited(order@, pos as int, s[m0].point_index as int) {
                            let t = choose|t: int|
                                0 <= t < mm && (#[trigger] candidates@[t]).1 == s[m0].point_index;
                            assert(0 <= t < mm + 1 && candidates@[t].1 == s[m0].point_index);
                        }
                    }
                    assert(pred(e)) by {
                        assert(candidates@[mm].1 == e.point_index);
                    }
                    assert forall|m0: int| 0 <= m0 < s.len() implies
                        (#[trigger] s[m0]).point_index != e.point_index by {
                        if self.from_visited(order@, pos as int, s[m0].point_index as int) {
                            // a point of an earlier cluster cannot recur here:
                            // clusters are disjoint and the order has no repeats
                            let t = choose|t: int|
                                0 <= t < pos
                                    && in_cluster(
                                    self.clusters@[order@[t] as int],
                                    s[m0].point_index as int,
                                );
                            if s[m0].point_index == e.point_index {
                                assert(in_cluster(cl_ghost, e.point_index as int));
                                assert(in_cluster(
                                    self.clusters@[order@[t] as int],
                                    e.point_index as int,
                                ));
                                assert(order@[t] as int == cluster_id as int);
                                assert(order@[t] != order@[pos as int]);
                                assert(false);
                            }
                        } else {
                            let t = choose|t: int|
                                0 <= t < mm && (#[trigger] candidates@[t]).1 == s[m0].point_index;
                            assert(candidates@[t].1 != candidates@[mm].1);
                        }
                    }
                    crate::heap::lemma_add_preserves(s, pq.heap@, pq.length as nat, e, pred);
                    if s.len() < k && pq.heap@.len() < k {
                        assert forall|t: int| 0 <= t < mm + 1 implies
                            has_id(pq.heap@, (#[trigger] candidates@[t]).1 as int) by {
                            if t < mm {
                                assert(has_id(s, candidates@[t].1 as int));
                                let m0 = choose|m0: int|
                                    0 <= m0 < s.len()
                                        && (#[trigger] s[m0]).point_index == candidates@[t].1;
                                let m1 = choose|m1: int|
                                    0 <= m1 < pq.heap@.len() && pq.heap@[m1] == s[m0];
                                assert(pq.heap@[m1].point_index == candidates@[t].1);
                            } else {
                                let m1 = choose|m1: int|
                                    0 <= m1 < pq.heap@.len() && pq.heap@[m1] == e;
                                assert(pq.heap@[m1].point_index == candidates@[t].1);
                            }
                        }
                        assert forall|t: int, i2: int|
                            0 <= t < pos
                                && #[trigger] in_cluster(self.clusters@[order@[t] as int], i2)
                                implies has_id(pq.heap@, i2) by {
                            assert(has_id(s, i2));
                            let m0 = choose|m0: int|
                                0 <= m0 < s.len() && (#[trigger] s[m0]).point_index == i2;
                            let m1 = choose|m1: int|
                                0 <= m1 < pq.heap@.len() && pq.heap@[m1] == s[m0];
                            assert(pq.heap@[m1].point_index == i2);
                        }
                    }
                }
                m += 1;
            }

            met = match met {
                Some(mut mtr) => {
                    mtr.log_n_candidates(added);
                    mtr.add_distance_computation_cluster(dc);
                    Some(mtr)
                },
                None => None,
            };

            // re-establish the outer invariant one cluster further on
            proof {
                let posi = pos as int;
                assert forall|m0: int| 0 <= m0 < pq.heap@.len() implies
                    self.from_visited(order@, posi + 1, (#[trigger] pq.heap@[m0]).point_index as int) by {
                    if self.from_visited(order@, posi, pq.heap@[m0].point_index as int) {
                        let t = choose|t: int|
                            0 <= t < posi
                                && in_cluster(
                                self.clusters@[order@[t] as int],
                                pq.heap@[m0].point_index as int,
                            );
                        assert(0 <= t < posi + 1 && in_cluster(
                            self.clusters@[order@[t] as int],
                            pq.heap@[m0].point_index as int,
                        ));
                    } else {
                        let t = choose|t: int|
                            0 <= t < candidates@.len()
                                && (#[trigger] candidates@[t]).1 == pq.heap@[m0].point_index;
                        assert(in_cluster(
                            self.clusters@[order@[posi] as int],
                            pq.heap@[m0].point_index as int,
                        ));
                        assert(0 <= posi < posi + 1);
                    }
                }
                if pq.heap@.len() < k {
                    // the whole current cluster made it into the buffer
                    assert(len0 + candidates@.len() < k);
                    assert(candidates@.len() == min_spec(k as nat, cl_ghost.assignment@.len()));
                    assert(candidates@.len() == cl_ghost.assignment@.len());
                    let ids = Seq::new(candidates@.len(), |t: int| candidates@[t].1 as int);
                    let univ = Seq::new(
                        cl_ghost.assignment@.len(),
                        |t: int| cl_ghost.assignment@[t] as int,
                    );
                    assert(ids.no_duplicates()) by {
                        assert forall|t1: int, t2: int|
                            0 <= t1 < ids.len() && 0 <= t2 < ids.len() && t1 != t2 implies
                            ids[t1] != ids[t2] by {
                            if t1 < t2 {
                                assert(candidates@[t1].1 != candidates@[t2].1);
                            } else {
                                assert(candidates@[t2].1 != candidates@[t1].1);
                            }
                        }
                    }
                    assert(univ.no_duplicates()) by {
                        assert forall|t1: int, t2: int|
                            0 <= t1 < univ.len() && 0 <= t2 < univ.len() && t1 != t2 implies
                            univ[t1] != univ[t2] by {
                            if t1 < t2 {
                                assert(cl_ghost.assignment@[t1] < cl_ghost.assignment@[t2]);
                            } else {
                                assert(cl_ghost.assignment@[t2] < cl_ghost.assignment@[t1]);
                            }
                        }
                    }
                    assert forall|t: int| 0 <= t < ids.len() implies univ.contains(#[trigger] ids[t]) by {
                        let j2 = choose|j2: int|
                            0 <= j2 < cl_ghost.assignment@.len()
                                && cl_ghost.assignment@[j2] == candidates@[t].1 as int;
                        assert(univ[j2] == ids[t]);
                    }
                    lemma_distinct_subset_covers(ids, univ);
                    assert forall|t: int, i2: int|
                        0 <= t < pos + 1
                            && #[trigger] in_cluster(self.clusters@[order@[t] as int], i2)
                            implies has_id(pq.heap@, i2) by {
                        if t == pos as int {
                            let j2 = choose|j2: int|
                                0 <= j2 < cl_ghost.assignment@.len()
                                    && cl_ghost.assignment@[j2] == i2;
                            assert(univ[j2] == i2);
                            assert(univ.contains(i2));
                            assert(ids.contains(i2));
                            let t2 = choose|t2: int| 0 <= t2 < ids.len() && ids[t2] == i2;
                            assert(candidates@[t2].1 == i2);
                            assert(has_id(pq.heap@, i2));
                        }
                    }
                }
                if n_c == 1 {
                    // one cluster covers the dataset and its candidates are
                    // optimal within it, so the buffer now holds the best
                    // min(k, n) rows outright
                    assert(pos == 0);
                    assert(len0 == 0);
                    assert(candidates@.len() <= k);
                    assert(pq.heap@.len() == candidates@.len());
                    let hids = Seq::new(pq.heap@.len(), |m0: int| pq.heap@[m0].point_index as int);
                    let cids = Seq::new(candidates@.len(), |t: int| candidates@[t].1 as int);
                    assert(hids.no_duplicates()) by {
                        assert forall|m1: int, m2: int|
                            0 <= m1 < hids.len() && 0 <= m2 < hids.len() && m1 != m2 implies
                            hids[m1] != hids[m2] by {
                            if m1 < m2 {
                                assert(pq.heap@[m1].point_index != pq.heap@[m2].point_index);
                            } else {
                                assert(pq.heap@[m2].point_index != pq.heap@[m1].point_index);
                            }
                        }
                    }
                    assert(cids.no_duplicates()) by {
                        assert forall|t1: int, t2: int|
                            0 <= t1 < cids.len() && 0 <= t2 < cids.len() && t1 != t2 implies
                            cids[t1] != cids[t2] by {
                            if t1 < t2 {
                                assert(candidates@[t1].1 != candidates@[t2].1);
                            } else {
                                assert(candidates@[t2].1 != candidates@[t1].1);
                            }
                        }
                    }
                    assert forall|m0: int| 0 <= m0 < hids.len() implies
                        cids.contains(#[trigger] hids[m0]) by {
                        assert(!self.from_visited(order@, 0, pq.heap@[m0].point_index as int));
                        let t = choose|t: int|
                            0 <= t < candidates@.len()
                                && (#[trigger] candidates@[t]).1 == pq.heap@[m0].point_index;
                        assert(cids[t] == hids[m0]);
                    }
                    lemma_distinct_subset_covers(hids, cids);
                    assert forall|t: int| 0 <= t < candidates@.len() implies
                        has_id(pq.heap@, (#[trigger] candidates@[t]).1 as int) by {
                        assert(cids[t] == candidates@[t].1 as int);
                        assert(cids.contains(cids[t]));
                        assert(hids.contains(cids[t]));
                        let m0 = choose|m0: int| 0 <= m0 < hids.len() && hids[m0] == cids[t];
                        assert(pq.heap@[m0].point_index == candidates@[t].1);
                    }
                    assert forall|j: int, m0: int|
                        #![trigger has_id(pq.heap@, j), pq.heap@[m0]]
                        0 <= j < n && 0 <= m0 < pq.heap@.len() && !has_id(pq.heap@, j)
                            implies self.data.dist_point_spec(j, query@)
                            >= self.data.dist_point_spec(
                            pq.heap@[m0].point_index as int,
                            query@,
                        ) by {
                        assert(self.covered(j));
                        let c = choose|c: int|
                            0 <= c < self.clusters@.len()
                                && in_cluster(#[trigger] self.clusters@[c], j);
                        assert(c == 0);
                        assert(cluster_id as int == 0);
                        assert(in_cluster(cl_ghost, j));
                        let j2 = choose|j2: int|
                            0 <= j2 < cl_ghost.assignment@.len()
                                && cl_ghost.assignment@[j2] == j;
                        assert(!contains_result_id(candidates@, cl_ghost.assignment@[j2] as int))
                            by {
                            if contains_result_id(candidates@, cl_ghost.assignment@[j2] as int) {
                                let t = choose|t: int|
                                    0 <= t < candidates@.len() && candidates@[t].1 == j;
                                assert(has_id(pq.heap@, candidates@[t].1 as int));
                                assert(false);
                            }
                        }
                        assert(!self.from_visited(order@, 0, pq.heap@[m0].point_index as int));
                        let t0 = choose|t: int|
                            0 <= t < candidates@.len()
                                && (#[trigger] candidates@[t]).1 == pq.heap@[m0].point_index;
                        assert(self.data.dist_point_spec(cl_ghost.assignment@[j2] as int, query@)
                            >= self.data.dist_point_spec(
                            (candidates@[t0]).1 as int,
                            query@,
                        ));
                    }
                }
            }
            pos += 1;
        }

        let out = pq.to_list();
        proof {
            lemma_distinct_ids_le_n(pq.heap@, n as nat);
            if pq.heap@.len() < k {
                // nothing was ever dropped, so every dataset row is present
                assert forall|i2: int| 0 <= i2 < n implies has_id(pq.heap@, i2) by {
                    assert(self.covered(i2));
                    let c = choose|c: int|
                        0 <= c < self.clusters@.len() && in_cluster(self.clusters@[c], i2);
                    assert(appears(order@, c));
                    let t = choose|t: int| 0 <= t < order@.len() && order@[t] == c;
                    assert(in_cluster(self.clusters@[order@[t] as int], i2));
                }
                lemma_ids_cover_n(pq.heap@, n as nat);
            }
            assert forall|m1: int, m2: int| 0 <= m1 < m2 < out@.len() implies
                out@[m1].0 <= out@[m2].0 by {
                assert(crate::heap::le_elem(pq.heap@[m1], pq.heap@[m2]));
            }
            if n_c == 1 {
                assert forall|j: int, m: int|
                    0 <= j < n && 0 <= m < out@.len()
                        && !(#[trigger] contains_result_id(out@, j))
                        implies self.data.dist_point_spec(j, query@)
                        >= self.data.dist_point_spec(
                        (#[trigger] out@[m]).1 as int,
                        query@,
                    ) by {
                    assert(!has_id(pq.heap@, j)) by {
                        if has_id(pq.heap@, j) {
                            let m0 = choose|m0: int|
                                0 <= m0 < pq.heap@.len() && pq.heap@[m0].point_index == j;
                            assert(out@[m0].1 == pq.heap@[m0].point_index);
                            assert(contains_result_id(out@, j));
                            assert(false);
                        }
                    }
                    assert(out@[m] == (pq.heap@[m].distance, pq.heap@[m].point_index));
                    assert(self.data.dist_point_spec(j, query@)
                        >= self.data.dist_point_spec(pq.heap@[m].point_index as int, query@));
                }
            }
        }
        let ghost pre = *self;
        self.metrics = met;
        proof {
            Self::lemma_wf_built_frame(pre, *self);
        }
        Ok(out)
    }

    /// The total distance computations of the query currently being
    /// answered, when metrics are enabled and a query has run.
    pub fn get_distance_computations(&self) -> (r: Result<usize, ClusteredIndexError>)
        ensures
            match r {
                Ok(v) => self.metrics matches Some(m) && m.queries@.len() > 0
                    && v == m.queries@.last().distance_computations,
                Err(e) => e is MetricsError,
            },
            r is Ok <==> (self.metrics matches Some(m) && m.queries@.len() > 0),
    {
        match &self.metrics {
            Some(m) => match m.current_query() {
                Some(q) => Ok(q.distance_computations),
                None => Err(ClusteredIndexError::MetricsError(
                    "no query has run".to_string(),
                )),
            },
            None => Err(ClusteredIndexError::MetricsError(
                "run metrics are not enabled".to_string(),
            )),
        }
    }

    /// The on-disk form of the index: the whole container as bytes,
    /// byte-for-byte as `enc_container_spec` describes. Fails only when the
    /// dataset name cannot be stored verbatim.
    pub fn serialize(&self) -> (r: Result<Vec<u8>, ClusteredIndexError>)
        ensures
            match r {
                Ok(b) => b@ == crate::codec::enc_container_spec(self.config, self.clusters@),
                Err(e) => e is SerializeError,
            },
            r is Ok <==> crate::codec::name_serializable(self.config.dataset_name@),
    {
        if !crate::codec::check_name_serializable(&self.config.dataset_name) {
            return Err(ClusteredIndexError::SerializeError(
                "dataset name is not storable".to_string(),
            ));
        }
        let mut out: Vec<u8> = Vec::new();
        crate::codec::enc_container_push(&mut out, &self.config, &self.clusters);
        Ok(out)
    }

    /// The conventional container file name:
    /// `index_{dataset}_k{factor:.2}_L{tables}.h5`, with the factor rounded
    /// to two decimals, half up.
    pub fn index_file_name(&self) -> (r: Vec<u8>)
        requires
            self.config.num_clusters_factor <= 1_000_000,
        ensures
            r@ == file_name_spec(self.config),
    {
        let mut out: Vec<u8> = Vec::new();
        let ghost pre = out@;
        // "index_"
        out.push(105);
        out.push(110);
        out.push(100);
        out.push(101);
        out.push(120);
        out.push(95);
        proof {
            assert(out@ =~= seq![105u8, 110u8, 100u8, 101u8, 120u8, 95u8]);
        }
        out.extend_from_slice(self.config.dataset_name.as_slice());
        // "_k"
        out.push(95);
        out.push(107);
        let centi: u64 = (self.config.num_clusters_factor as u64 + 5) / 10;
        crate::codec::enc_u64_push(&mut out, centi / 100);
        out.push(46);
        out.push(48 + ((centi / 10) % 10) as u8);
        out.push(48 + (centi % 10) as u8);
        // "_L"
        out.push(95);
        out.push(76);
        crate::codec::enc_u64_push(&mut out, self.config.num_tables as u64);
        // ".h5"
        out.push(46);
        out.push(104);
        out.push(53);
        proof {
            assert(out@ =~= file_name_spec(self.config));
        }
        out
    }

    /// What the restore validation accepts: exactly the states a built
    /// index over this dataset can have. Lemma `lemma_wf_built_restorable`
    /// shows every well-built index passes.
    pub open spec fn restorable_state(
        data: AngularData,
        config: Config,
        cls: Seq<ClusterCenter>,
    ) -> bool {
        let n = data.n_spec() as int;
        &&& 1 <= n <= u32::MAX
        &&& config.wf()
        &&& cls.len() == ({
            let t = target_clusters_spec(config.num_clusters_factor as nat, data.n_spec());
            if t <= data.n_spec() {
                t
            } else {
                data.n_spec()
            }
        })
        &&& forall|c: int, j: int|
            0 <= c < cls.len() && 0 <= j < cls[c].assignment@.len()
                ==> #[trigger] cls[c].assignment@[j] < n
        &&& forall|c: int, j1: int, j2: int|
            0 <= c < cls.len() && 0 <= j1 < j2 < cls[c].assignment@.len()
                ==> #[trigger] cls[c].assignment@[j1] < #[trigger] cls[c].assignment@[j2]
        &&& forall|i: int| 0 <= i < n ==> #[trigger] covered_by(cls, i)
        &&& forall|c1: int, c2: int, i: int|
            0 <= c1 < cls.len() && 0 <= c2 < cls.len()
                && #[trigger] in_cluster(cls[c1], i)
                && #[trigger] in_cluster(cls[c2], i) ==> c1 == c2
        &&& forall|c: int, j: int|
            0 <= c < cls.len() && 0 <= j < cls[c].assignment@.len()
                ==> data.dist_spec(
                    cls[c].center_idx as int,
                    #[trigger] cls[c].assignment@[j] as int,
                ) <= cls[c].radius
        &&& forall|c: int| 0 <= c < cls.len()
            ==> (#[trigger] cls[c]).brute_force == brute_force_rule(
                cls[c].assignment@.len(),
                config.k as nat,
            )
        &&& forall|c: int| 0 <= c < cls.len()
            ==> (#[trigger] cls[c]).memory_used as nat == if cls[c].brute_force {
                0nat
            } else {
                crate::subindex::subindex_memory_spec(
                    cls[c].assignment@.len(),
                    data.dims_spec(),
                )
            }
        &&& forall|c: int| 0 <= c < cls.len()
            ==> (#[trigger] cls[c]).idx == c && cls[c].center_idx < n
                && cls[c].radius <= 2 * crate::metricdata::DIST_SCALE
                && cls[c].assignment@.len() <= n
    }

    /// Every well-built index passes the restore validation over its own
    /// dataset: restore owes success on any state that `build` produces.
    pub proof fn lemma_wf_built_restorable(idx: ClusteredIndex)
        requires
            idx.wf_built(),
        ensures
            Self::restorable_state(idx.data, idx.config, idx.clusters@),
    {
        assert forall|i: int| 0 <= i < idx.data.n_spec() as int implies
            #[trigger] covered_by(idx.clusters@, i) by {
            assert(idx.covered(i));
            let c = choose|c: int|
                0 <= c < idx.clusters@.len() && in_cluster(idx.clusters@[c], i);
            assert(in_cluster(idx.clusters@[c], i));
        }
        assert(idx.inv_assignment_valid() && idx.inv_assignment_sorted() && idx.inv_disjoint()
            && idx.inv_radius() && idx.inv_brute_force() && idx.inv_memory() && idx.inv_ids());
        let cls = idx.clusters@;
        let data = idx.data;
        let config = idx.config;
        assert(cls.len() == ({
            let t = target_clusters_spec(config.num_clusters_factor as nat, data.n_spec());
            if t <= data.n_spec() {
                t
            } else {
                data.n_spec()
            }
        }));
        assert(forall|c: int, j: int|
            0 <= c < cls.len() && 0 <= j < cls[c].assignment@.len()
                ==> #[trigger] cls[c].assignment@[j] < data.n_spec());
        assert(forall|c: int, j1: int, j2: int|
            0 <= c < cls.len() && 0 <= j1 < j2 < cls[c].assignment@.len()
                ==> #[trigger] cls[c].assignment@[j1] < #[trigger] cls[c].assignment@[j2]);
        assert(forall|c1: int, c2: int, i: int|
            0 <= c1 < cls.len() && 0 <= c2 < cls.len() && #[trigger] in_cluster(cls[c1], i)
                && #[trigger] in_cluster(cls[c2], i) ==> c1 == c2);
        assert(forall|c: int, j: int|
            0 <= c < cls.len() && 0 <= j < cls[c].assignment@.len()
                ==> data.dist_spec(
                cls[c].center_idx as int,
                #[trigger] cls[c].assignment@[j] as int,
            ) <= cls[c].radius);
        assert(forall|c: int| 0 <= c < cls.len()
            ==> (#[trigger] cls[c]).brute_force == brute_force_rule(
                cls[c].assignment@.len(),
                config.k as nat,
            ));
        assert(forall|c: int| 0 <= c < cls.len()
            ==> (#[trigger] cls[c]).memory_used as nat == if cls[c].brute_force {
                0nat
            } else {
                crate::subindex::subindex_memory_spec(
                    cls[c].assignment@.len(),
                    data.dims_spec(),
                )
            });
        assert(forall|c: int| 0 <= c < cls.len()
            ==> (#[trigger] cls[c]).idx == c && cls[c].center_idx < data.n_spec()
                && cls[c].radius <= 2 * crate::metricdata::DIST_SCALE
                && cls[c].assignment@.len() <= data.n_spec());
    }

    /// A state that agrees field for field with a restorable state is
    /// itself restorable.
    pub proof fn lemma_restorable_eqv(
        data: AngularData,
        cfg1: Config,
        cls1: Seq<ClusterCenter>,
        cfg2: Config,
        cls2: Seq<ClusterCenter>,
    )
        requires
            Self::restorable_state(data, cfg1, cls1),
            crate::codec::config_eqv(cfg2, cfg1),
            cls1.len() == cls2.len(),
            forall|i: int| 0 <= i < cls1.len()
                ==> crate::codec::cluster_eqv(#[trigger] cls2[i], cls1[i]),
        ensures
            Self::restorable_state(data, cfg2, cls2),
    {
        assert forall|i: int| 0 <= i < data.n_spec() as int implies
            #[trigger] covered_by(cls2, i) by {
            assert(covered_by(cls1, i));
            let c = choose|c: int| 0 <= c < cls1.len() && in_cluster(cls1[c], i);
            assert(in_cluster(cls1[c], i));
            let j = choose|j: int|
                0 <= j < cls1[c].assignment@.len() && cls1[c].assignment@[j] == i;
            assert(cls2[c].assignment@[j] == i);
            assert(in_cluster(cls2[c], i));
        }
        assert forall|c1: int, c2: int, i: int|
            0 <= c1 < cls2.len() && 0 <= c2 < cls2.len()
                && #[trigger] in_cluster(cls2[c1], i)
                && #[trigger] in_cluster(cls2[c2], i) implies c1 == c2 by {
            let j1 = choose|j1: int|
                0 <= j1 < cls2[c1].assignment@.len() && cls2[c1].assignment@[j1] == i;
            let j2 = choose|j2: int|
                0 <= j2 < cls2[c2].assignment@.len() && cls2[c2].assignment@[j2] == i;
            assert(cls1[c1].assignment@[j1] == i);
            assert(cls1[c2].assignment@[j2] == i);
            assert(in_cluster(cls1[c1], i) && in_cluster(cls1[c2], i));
        }
    }

    /// Restores an index from an already parsed container state: validates
    /// every structural invariant against the dataset, rebuilds the
    /// sub-indexes, and succeeds exactly when the state is one a built
    /// index over this dataset can have.
    pub fn new_from_state(data: AngularData, config: Config, clusters: Vec<ClusterCenter>) -> (r:
        Result<ClusteredIndex, ClusteredIndexError>)
        requires
            data.wf(),
        ensures
            r is Ok <==> Self::restorable_state(data, config, clusters@),
            match r {
                Ok(idx) => {
                    &&& idx.wf_built()
                    &&& idx.data == data
                    &&& idx.config == config
                    &&& idx.clusters == clusters
                    &&& (idx.metrics is Some <==> config.metrics_output is DB)
                },
                Err(e) => e is ConfigError || e is DataError,
            },
    {
        let n = data.num_points();
        if n == 0 {
            return Err(ClusteredIndexError::DataError("empty dataset".to_string()));
        }
        if n > u32::MAX as usize {
            return Err(ClusteredIndexError::DataError("dataset too large".to_string()));
        }
        if !(config.num_tables >= 1 && 1 <= config.num_clusters_factor
            && config.num_clusters_factor <= 1_000_000 && config.k >= 1 && 0 < config.delta
            && config.delta < 1000) {
            return Err(ClusteredIndexError::ConfigError("invalid configuration".to_string()));
        }
        let kc = target_clusters_for(config.num_clusters_factor, n);
        let expected: usize = if kc <= n {
            kc
        } else {
            n
        };
        if clusters.len() != expected {
            return Err(ClusteredIndexError::ConfigError("wrong cluster count".to_string()));
        }
        let n_c = clusters.len();
        let mut seen: Vec<bool> = vec![false; n];
        let mut c: usize = 0;
        while c < n_c
            invariant
                data.wf(),
                n == data.n_spec(),
                1 <= n <= u32::MAX,
                n_c == clusters@.len(),
                c <= n_c,
                seen@.len() == n,
                config.wf(),
                forall|cc: int, j: int|
                    0 <= cc < c && 0 <= j < clusters@[cc].assignment@.len()
                        ==> #[trigger] clusters@[cc].assignment@[j] < n,
                forall|cc: int, j1: int, j2: int|
                    0 <= cc < c && 0 <= j1 < j2 < clusters@[cc].assignment@.len()
                        ==> #[trigger] clusters@[cc].assignment@[j1]
                            < #[trigger] clusters@[cc].assignment@[j2],
                forall|cc: int, j: int|
                    0 <= cc < c && 0 <= j < clusters@[cc].assignment@.len()
                        ==> data.dist_spec(
                            clusters@[cc].center_idx as int,
                            #[trigger] clusters@[cc].assignment@[j] as int,
                        ) <= clusters@[cc].radius,
                forall|cc: int| 0 <= cc < c
                    ==> (#[trigger] clusters@[cc]).brute_force == brute_force_rule(
                        clusters@[cc].assignment@.len(),
                        config.k as nat,
                    ),
                forall|cc: int| 0 <= cc < c
                    ==> (#[trigger] clusters@[cc]).memory_used as nat == if clusters@[cc]
                        .brute_force {
                        0nat
                    } else {
                        crate::subindex::subindex_memory_spec(
                            clusters@[cc].assignment@.len(),
                            data.dims_spec(),
                        )
                    },
                forall|cc: int| 0 <= cc < c
                    ==> (#[trigger] clusters@[cc]).idx == cc
                        && clusters@[cc].center_idx < n
                        && clusters@[cc].radius <= 2 * crate::metricdata::DIST_SCALE
                        && clusters@[cc].assignment@.len() <= n,
                forall|i: int| 0 <= i < n && #[trigger] seen@[i]
                    ==> exists|cc: int| 0 <= cc < c && in_cluster(clusters@[cc], i),
                forall|cc: int, i: int| 0 <= cc < c && #[trigger] in_cluster(clusters@[cc], i)
                    ==> 0 <= i < n && seen@[i],
                forall|c1: int, c2: int, i: int|
                    0 <= c1 < c && 0 <= c2 < c
                        && #[trigger] in_cluster(clusters@[c1], i)
                        && #[trigger] in_cluster(clusters@[c2], i) ==> c1 == c2,
            decreases n_c - c,
        {
            let cl = &clusters[c];
            if cl.idx != c {
                return Err(ClusteredIndexError::ConfigError("cluster ids out of order".to_string()));
            }
            if cl.center_idx >= n {
                return Err(ClusteredIndexError::ConfigError("center out of range".to_string()));
            }
            if cl.radius > 2 * crate::metricdata::DIST_SCALE {
                return Err(ClusteredIndexError::ConfigError("radius out of range".to_string()));
            }
            if cl.assignment.len() > n {
                return Err(ClusteredIndexError::ConfigError("cluster too large".to_string()));
            }
            let brute_expected = cl.assignment.len() < BRUTE_FORCE_CUTOFF
                || cl.assignment.len() < config.k;
            if cl.brute_force != brute_expected {
                return Err(ClusteredIndexError::ConfigError("brute-force flag wrong".to_string()));
            }
            let memory_expected: usize = if brute_expected {
                0
            } else {
                expected_subindex_memory(cl.assignment.len(), data.dimensions())
            };
            if cl.memory_used != memory_expected {
                return Err(ClusteredIndexError::ConfigError(
                    "memory accounting wrong".to_string(),
                ));
            }
            let n_members = cl.assignment.len();
            let mut j: usize = 0;
            while j < n_members
                invariant
                    data.wf(),
                    n == data.n_spec(),
                    n_c == clusters@.len(),
                    c < n_c,
                    *cl == clusters@[c as int],
                    cl.center_idx < n,
                    n_members == cl.assignment@.len(),
                    j <= n_members,
                    seen@.len() == n,
                    forall|t: int| 0 <= t < j ==> #[trigger] cl.assignment@[t] < n,
                    forall|t1: int, t2: int| 0 <= t1 < t2 < j
                        ==> #[trigger] cl.assignment@[t1] < #[trigger] cl.assignment@[t2],
                    forall|t: int| 0 <= t < j
                        ==> data.dist_spec(
                            cl.center_idx as int,
                            #[trigger] cl.assignment@[t] as int,
                        ) <= cl.radius,
                    forall|t: int| 0 <= t < j ==> #[trigger] seen@[cl.assignment@[t] as int],
                    forall|t: int, cc: int| 0 <= t < j && 0 <= cc < c
                        ==> !in_cluster(#[trigger] clusters@[cc], #[trigger] cl.assignment@[t] as int),
                    forall|i: int| 0 <= i < n && #[trigger] seen@[i]
                        ==> (exists|cc: int| 0 <= cc < c && in_cluster(clusters@[cc], i))
                            || (exists|t: int| 0 <= t < j && cl.assignment@[t] == i),
                    forall|cc: int, i: int| 0 <= cc < c && #[trigger] in_cluster(clusters@[cc], i)
                        ==> 0 <= i < n && seen@[i],
                    forall|c1: int, c2: int, i: int|
                        0 <= c1 < c && 0 <= c2 < c
                            && #[trigger] in_cluster(clusters@[c1], i)
                            && #[trigger] in_cluster(clusters@[c2], i) ==> c1 == c2,
                decreases n_members - j,
            {
                let a = cl.assignment[j];
                if a >= n {
                    return Err(ClusteredIndexError::ConfigError("member out of range".to_string()));
                }
                if j > 0 && cl.assignment[j - 1] >= a {
                    return Err(ClusteredIndexError::ConfigError(
                        "assignment not increasing".to_string(),
                    ));
                }
                if seen[a] {
                    proof {
                        // the row already sits in an earlier cluster or
                        // earlier in this one; either way no valid state
                        // holds these records
                        assert(in_cluster(clusters@[c as int], a as int)) by {
                            assert(cl.assignment@[j as int] == a);
                        }
                        if exists|cc: int| 0 <= cc < c && in_cluster(clusters@[cc], a as int) {
                            let cc = choose|cc: int|
                                0 <= cc < c && in_cluster(clusters@[cc], a as int);
                            assert(in_cluster(clusters@[cc], a as int));
                            assert(!Self::restorable_state(data, config, clusters@));
                        } else {
                            let j2 = choose|j2: int|
                                0 <= j2 < j && cl.assignment@[j2] == a as int;
                            assert(cl.assignment@[j2] == cl.assignment@[j as int]);
                            assert(!Self::restorable_state(data, config, clusters@));
                        }
                    }
                    return Err(ClusteredIndexError::ConfigError(
                        "row in two clusters".to_string(),
                    ));
                }
                let d = data.distance(cl.center_idx, a);
                if d > cl.radius {
                    return Err(ClusteredIndexError::ConfigError("radius violated".to_string()));
                }
                let ghost seen_pre = seen@;
                seen.set(a, true);
                proof {
                    assert forall|t1: int, t2: int| 0 <= t1 < t2 < j + 1 implies
                        #[trigger] cl.assignment@[t1] < #[trigger] cl.assignment@[t2] by {
                        if t2 < j {
                        } else {
                            assert(t2 == j);
                            if t1 < j - 1 {
                                assert(cl.assignment@[t1] < cl.assignment@[j - 1]);
                            }
                        }
                    }
                    assert forall|t: int, cc: int| 0 <= t < j + 1 && 0 <= cc < c implies
                        !in_cluster(#[trigger] clusters@[cc], #[trigger] cl.assignment@[t] as int) by {
                        if t == j as int {
                            if in_cluster(clusters@[cc], a as int) {
                                assert(seen_pre[a as int]);
                                assert(false);
                            }
                        }
                    }
                }
                j += 1;
            }
            proof {
                // fold this cluster's members into the global bookkeeping
                assert forall|cc: int, i: int| 0 <= cc < c + 1
                    && #[trigger] in_cluster(clusters@[cc], i) implies 0 <= i < n && seen@[i] by {
                    if cc == c as int {
                        let t = choose|t: int|
                            0 <= t < clusters@[cc].assignment@.len()
                                && clusters@[cc].assignment@[t] == i;
                        assert(seen@[cl.assignment@[t] as int]);
                    }
                }
                assert forall|c1: int, c2: int, i: int|
                    0 <= c1 < c + 1 && 0 <= c2 < c + 1
                        && #[trigger] in_cluster(clusters@[c1], i)
                        && #[trigger] in_cluster(clusters@[c2], i) implies c1 == c2 by {
                    if c1 == c as int && c2 < c as int {
                        let t = choose|t: int|
                            0 <= t < cl.assignment@.len() && cl.assignment@[t] == i;
                        assert(!in_cluster(clusters@[c2], cl.assignment@[t] as int));
                    } else if c2 == c as int && c1 < c as int {
                        let t = choose|t: int|
                            0 <= t < cl.assignment@.len() && cl.assignment@[t] == i;
                        assert(!in_cluster(clusters@[c1], cl.assignment@[t] as int));
                    }
                }
                assert forall|i: int| 0 <= i < n && #[trigger] seen@[i] implies
                    exists|cc: int| 0 <= cc < c + 1 && in_cluster(clusters@[cc], i) by {
                    if exists|cc: int| 0 <= cc < c && in_cluster(clusters@[cc], i) {
                        let cc = choose|cc: int| 0 <= cc < c && in_cluster(clusters@[cc], i);
                        assert(0 <= cc < c + 1 && in_cluster(clusters@[cc], i));
                    } else {
                        let t = choose|t: int|
                            0 <= t < cl.assignment@.len() && cl.assignment@[t] == i;
                        assert(in_cluster(clusters@[c as int], i));
                    }
                }
            }
            c += 1;
        }
        // every dataset row must be covered
        let mut i: usize = 0;
        while i < n
            invariant
                n == seen@.len(),
                n == data.n_spec(),
                n_c == clusters@.len(),
                i <= n,
                forall|t: int| 0 <= t < i ==> #[trigger] seen@[t],
                forall|cc: int, i2: int| 0 <= cc < n_c && #[trigger] in_cluster(clusters@[cc], i2)
                    ==> 0 <= i2 < n && seen@[i2],
            decreases n - i,
        {
            if !seen[i] {
                proof {
                    assert(!covered_by(clusters@, i as int)) by {
                        if covered_by(clusters@, i as int) {
                            let cc = choose|cc: int|
                                0 <= cc < clusters@.len() && in_cluster(clusters@[cc], i as int);
                            assert(in_cluster(clusters@[cc], i as int));
                            assert(seen@[i as int]);
                        }
                    }
                    assert(!Self::restorable_state(data, config, clusters@));
                }
                return Err(ClusteredIndexError::ConfigError("row not covered".to_string()));
            }
            i += 1;
        }
        // rebuild the sub-indexes from the same dataset
        let mut subs: Vec<Option<ExactSubIndex>> = Vec::new();
        let mut c2: usize = 0;
        while c2 < n_c
            invariant
                data.wf(),
                n == data.n_spec(),
                1 <= n <= u32::MAX,
                n_c == clusters@.len(),
                c2 <= n_c,
                subs@.len() == c2,
                config.wf(),
                forall|cc: int, j: int|
                    0 <= cc < n_c && 0 <= j < clusters@[cc].assignment@.len()
                        ==> #[trigger] clusters@[cc].assignment@[j] < n,
                forall|cc: int| 0 <= cc < n_c
                    ==> (#[trigger] clusters@[cc]).assignment@.len() <= n,
                forall|cc: int| 0 <= cc < n_c
                    ==> (#[trigger] clusters@[cc]).brute_force == brute_force_rule(
                        clusters@[cc].assignment@.len(),
                        config.k as nat,
                    ),
                forall|cc: int| 0 <= cc < c2
                    ==> ((#[trigger] subs@[cc]) is Some <==> !clusters@[cc].brute_force),
                forall|cc: int| 0 <= cc < c2
                    ==> ((#[trigger] subs@[cc]) matches Some(s)
                        ==> is_subset_view(s.data, data, clusters@[cc].assignment@)),
            decreases n_c - c2,
        {
            let cl = &clusters[c2];
            if cl.brute_force {
                subs.push(None);
            } else {
                let sub_data = data.subset(&cl.assignment);
                let built = ExactSubIndex::build(sub_data, config.num_tables);
                subs.push(Some(built.0));
            }
            c2 += 1;
        }
        let metrics = match config.metrics_output {
            MetricsOutput::DB => Some(RunMetrics::new(config.clone(), n)),
            MetricsOutput::NoOutput => None,
        };
        let ghost cls_view = clusters@;
        let idx = ClusteredIndex { data, clusters, config, puffinn_indices: subs, metrics };
        proof {
            assert forall|i2: int| 0 <= i2 < n implies #[trigger] idx.covered(i2) by {
                assert(seen@[i2]);
                let cc = choose|cc: int|
                    0 <= cc < idx.clusters@.len() && in_cluster(idx.clusters@[cc], i2);
                assert(in_cluster(idx.clusters@[cc], i2));
            }
            assert forall|i2: int| 0 <= i2 < n implies #[trigger] covered_by(cls_view, i2) by {
                assert(seen@[i2]);
                let cc = choose|cc: int|
                    0 <= cc < cls_view.len() && in_cluster(cls_view[cc], i2);
                assert(in_cluster(cls_view[cc], i2));
            }
            assert(1 <= idx.data.n_spec() <= u32::MAX && idx.config.wf());
            assert(cls_view.len() == ({
                let t = target_clusters_spec(
                    idx.config.num_clusters_factor as nat,
                    idx.data.n_spec(),
                );
                if t <= idx.data.n_spec() {
                    t
                } else {
                    idx.data.n_spec()
                }
            }));
            assert(forall|cc: int, j: int|
                0 <= cc < cls_view.len() && 0 <= j < cls_view[cc].assignment@.len()
                    ==> #[trigger] cls_view[cc].assignment@[j] < idx.data.n_spec());
            assert(forall|cc: int, j1: int, j2: int|
                0 <= cc < cls_view.len() && 0 <= j1 < j2 < cls_view[cc].assignment@.len()
                    ==> #[trigger] cls_view[cc].assignment@[j1]
                        < #[trigger] cls_view[cc].assignment@[j2]);
            assert(forall|i2: int| 0 <= i2 < idx.data.n_spec()
                ==> #[trigger] covered_by(cls_view, i2));
            assert(forall|c1: int, c2: int, i2: int|
                0 <= c1 < cls_view.len() && 0 <= c2 < cls_view.len()
                    && #[trigger] in_cluster(cls_view[c1], i2)
                    && #[trigger] in_cluster(cls_view[c2], i2) ==> c1 == c2);
            assert(forall|cc: int, j: int|
                0 <= cc < cls_view.len() && 0 <= j < cls_view[cc].assignment@.len()
                    ==> idx.data.dist_spec(
                    cls_view[cc].center_idx as int,
                    #[trigger] cls_view[cc].assignment@[j] as int,
                ) <= cls_view[cc].radius);
            assert(forall|cc: int| 0 <= cc < cls_view.len()
                ==> (#[trigger] cls_view[cc]).brute_force == brute_force_rule(
                    cls_view[cc].assignment@.len(),
                    idx.config.k as nat,
                ));
            assert(forall|cc: int| 0 <= cc < cls_view.len()
                ==> (#[trigger] cls_view[cc]).memory_used as nat == if cls_view[cc].brute_force {
                    0nat
                } else {
                    crate::subindex::subindex_memory_spec(
                        cls_view[cc].assignment@.len(),
                        idx.data.dims_spec(),
                    )
                });
            assert(forall|cc: int| 0 <= cc < cls_view.len()
                ==> (#[trigger] cls_view[cc]).idx == cc
                    && cls_view[cc].center_idx < idx.data.n_spec()
                    && cls_view[cc].radius <= 2 * crate::metricdata::DIST_SCALE
                    && cls_view[cc].assignment@.len() <= idx.data.n_spec());
            assert(Self::restorable_state(idx.data, idx.config, cls_view));
        }
        Ok(idx)
    }

    /// Restores an index from its on-disk form over the same dataset that
    /// it was built on: the bytes must parse as a canonical container whose
    /// state passes the full validation of `new_from_state`. A restored
    /// index always re-serializes to exactly its source bytes.
    pub fn new_from_bytes(data: AngularData, bytes: &[u8]) -> (r: Result<
        ClusteredIndex,
        ClusteredIndexError,
    >)
        requires
            data.wf(),
        ensures
            match r {
                Ok(idx) => {
                    &&& idx.wf_built()
                    &&& idx.data == data
                    &&& (idx.metrics is Some <==> idx.config.metrics_output is DB)
                    &&& bytes@ == crate::codec::enc_container_spec(idx.config, idx.clusters@)
                    &&& crate::codec::name_serializable(idx.config.dataset_name@)
                },
                Err(e) => e is ConfigError || e is DataError,
            },
            forall|other: ClusteredIndex|
                other.wf_built() && other.data == data
                    && crate::codec::name_serializable(other.config.dataset_name@)
                    && bytes@ == #[trigger] crate::codec::enc_container_spec(
                    other.config,
                    other.clusters@,
                ) ==> r is Ok,
    {
        let pr = crate::codec::parse_container(bytes);
        let parsed = match pr {
            Some(t) => t,
            None => {
                proof {
                    assert forall|other: ClusteredIndex|
                        other.wf_built() && other.data == data
                            && crate::codec::name_serializable(other.config.dataset_name@)
                            && bytes@ == #[trigger] crate::codec::enc_container_spec(
                            other.config,
                            other.clusters@,
                        ) implies false by {
                        assert(pr matches Some(t2));
                    }
                }
                return Err(ClusteredIndexError::ConfigError("malformed container".to_string()));
            },
        };
        let config = parsed.0;
        let clusters = parsed.1;
        // the container must be the canonical encoding of what was read;
        // anything else (a lenient parse of a hand-edited file) is refused,
        // so a restored index always re-serializes to its own source bytes
        if !crate::codec::check_name_serializable(&config.dataset_name) {
            proof {
                assert forall|other: ClusteredIndex|
                    other.wf_built() && other.data == data
                        && crate::codec::name_serializable(other.config.dataset_name@)
                        && bytes@ == #[trigger] crate::codec::enc_container_spec(
                        other.config,
                        other.clusters@,
                    ) implies false by {
                    assert(crate::codec::config_eqv(config, other.config));
                    assert(config.dataset_name@ == other.config.dataset_name@);
                }
            }
            return Err(ClusteredIndexError::ConfigError("dataset name not storable".to_string()));
        }
        let mut reencoded: Vec<u8> = Vec::new();
        crate::codec::enc_container_push(&mut reencoded, &config, &clusters);
        if !bytes_equal(bytes, &reencoded) {
            proof {
                assert forall|other: ClusteredIndex|
                    other.wf_built() && other.data == data
                        && crate::codec::name_serializable(other.config.dataset_name@)
                        && bytes@ == #[trigger] crate::codec::enc_container_spec(
                        other.config,
                        other.clusters@,
                    ) implies false by {
                    crate::codec::lemma_enc_container_congruent(
                        config,
                        clusters@,
                        other.config,
                        other.clusters@,
                    );
                    assert(reencoded@ == bytes@);
                }
            }
            return Err(ClusteredIndexError::ConfigError(
                "container is not in canonical form".to_string(),
            ));
        }
        let rr = Self::new_from_state(data, config, clusters);
        proof {
            assert forall|other: ClusteredIndex|
                other.wf_built() && other.data == data
                    && crate::codec::name_serializable(other.config.dataset_name@)
                    && bytes@ == #[trigger] crate::codec::enc_container_spec(
                    other.config,
                    other.clusters@,
                ) implies rr is Ok by {
                Self::lemma_wf_built_restorable(other);
                Self::lemma_restorable_eqv(
                    data,
                    other.config,
                    other.clusters@,
                    config,
                    clusters@,
                );
            }
        }
        rr
    }
}

/// The conventional container file name of a configuration:
/// `index_{dataset}_k{factor:.2}_L{tables}.h5`, with the factor in
/// hundredths, rounded half up from thousandths.
pub open spec fn file_name_spec(cfg: Config) -> Seq<u8> {
    let centi = (cfg.num_clusters_factor + 5) as nat / 10;
    seq![105u8, 110u8, 100u8, 101u8, 120u8, 95u8] + cfg.dataset_name@ + seq![95u8, 107u8]
        + crate::codec::dec_u64(centi / 100) + seq![46u8]
        + seq![(48 + (centi / 10) % 10) as u8, (48 + centi % 10) as u8] + seq![95u8, 76u8]
        + crate::codec::dec_u64(cfg.num_tables as nat) + seq![46u8, 104u8, 53u8]
}

/// The smaller of two counts.
pub open spec fn min_spec(a: nat, b: nat) -> nat {
    if a <= b {
        a
    } else {
        b
    }
}

/// A sequence of distinct values drawn from a distinct universe of the same
/// size covers the universe.
/// A sub-index row and the dataset row it views are at the same distance
/// from any query: the rows are equal and both norms are the cached norm of
/// that row.
proof fn lemma_subset_dist(sub: AngularData, data: AngularData, idxs: Seq<usize>, j: int, q: Seq<i64>)
    requires
        data.wf(),
        is_subset_view(sub, data, idxs),
        0 <= j < idxs.len(),
        forall|t: int| 0 <= t < idxs.len() ==> #[trigger] idxs[t] < data.n_spec(),
    ensures
        sub.dist_point_spec(j, q) == data.dist_point_spec(idxs[j] as int, q),
{
    assert(sub.rows()[j] == data.rows()[idxs[j] as int]);
    assert(sub.norms@[j] as nat == crate::metricdata::norm_spec(sub.rows()[j]));
    assert(data.norms@[idxs[j] as int] as nat
        == crate::metricdata::norm_spec(data.rows()[idxs[j] as int]));
}

proof fn lemma_distinct_subset_covers(ids: Seq<int>, univ: Seq<int>)
    requires
        ids.no_duplicates(),
        univ.no_duplicates(),
        forall|m: int| 0 <= m < ids.len() ==> univ.contains(#[trigger] ids[m]),
        ids.len() == univ.len(),
    ensures
        forall|x: int| univ.contains(x) ==> ids.contains(x),
{
    broadcast use vstd::seq_lib::seq_to_set_is_finite;

    ids.unique_seq_to_set();
    univ.unique_seq_to_set();
    assert(ids.to_set().subset_of(univ.to_set())) by {
        assert forall|x: int| ids.to_set().contains(x) implies univ.to_set().contains(x) by {
            let m = choose|m: int| 0 <= m < ids.len() && ids[m] == x;
            assert(univ.contains(ids[m]));
        }
    }
    vstd::set_lib::lemma_subset_equality(ids.to_set(), univ.to_set());
    assert forall|x: int| univ.contains(x) implies ids.contains(x) by {
        assert(univ.to_set().contains(x));
        assert(ids.to_set().contains(x));
    }
}

/// Bytes a sub-index over n rows of dimension d reports, capped at the
/// address-space limit; the executable twin of `subindex_memory_spec`.
fn expected_subindex_memory(n: usize, d: usize) -> (r: usize)
    requires
        n <= u32::MAX,
        d <= crate::metricdata::MAX_DIM,
    ensures
        r as nat == crate::subindex::subindex_memory_spec(n as nat, d as nat),
{
    proof {
        assert((n as int) * (d as int) <= 0x1_0000_0000int * 1_000_000int) by (nonlinear_arith)
            requires 0 <= n as int <= 0x1_0000_0000int, 0 <= d as int <= 1_000_000int;
    }
    let raw: u128 = (n as u128) * (d as u128) * 8 + (n as u128) * 8;
    if raw > usize::MAX as u128 {
        usize::MAX
    } else {
        raw as usize
    }
}

/// Bytewise equality of a slice and a vector.
fn bytes_equal(a: &[u8], b: &Vec<u8>) -> (r: bool)
    ensures
        r == (a@ == b@),
{
    if a.len() != b.len() {
        proof {
            assert(a@.len() != b@.len());
        }
        return false;
    }
    let n = a.len();
    let mut i: usize = 0;
    while i < n
        invariant
            n == a@.len(),
            a@.len() == b@.len(),
            i <= n,
            forall|t: int| 0 <= t < i ==> a@[t] == b@[t],
        decreases n - i,
    {
        if a[i] != b[i] {
            return false;
        }
        i += 1;
    }
    proof {
        assert(a@ =~= b@);
    }
    true
}

/// A sequence of candidates with pairwise distinct ids below n has at most n
/// entries.
proof fn lemma_distinct_ids_le_n(s: Seq<Element>, n: nat)
    requires
        forall|m: int| 0 <= m < s.len() ==> (#[trigger] s[m]).point_index < n,
        forall|m1: int, m2: int| 0 <= m1 < m2 < s.len()
            ==> s[m1].point_index != s[m2].point_index,
    ensures
        s.len() <= n,
{
    let ids = Seq::new(s.len(), |m: int| s[m].point_index as int);
    assert(ids.no_duplicates()) by {
        assert forall|m1: int, m2: int|
            0 <= m1 < ids.len() && 0 <= m2 < ids.len() && m1 != m2 implies
            ids[m1] != ids[m2] by {
            if m1 < m2 {
                assert(s[m1].point_index != s[m2].point_index);
            } else {
                assert(s[m2].point_index != s[m1].point_index);
            }
        }
    }
    ids.unique_seq_to_set();
    vstd::set_lib::lemma_int_range(0, n as int);
    assert(ids.to_set().subset_of(vstd::set_lib::set_int_range(0, n as int))) by {
        assert forall|x: int| ids.to_set().contains(x) implies
            vstd::set_lib::set_int_range(0, n as int).contains(x) by {
            let m = choose|m: int| 0 <= m < ids.len() && ids[m] == x;
            assert(s[m].point_index < n);
        }
    }
    vstd::set_lib::lemma_len_subset(ids.to_set(), vstd::set_lib::set_int_range(0, n as int));
}

/// A sequence of candidates whose ids include every row below n has at
/// least n entries.
proof fn lemma_ids_cover_n(s: Seq<Element>, n: nat)
    requires
        forall|i: int| 0 <= i < n ==> #[trigger] has_id(s, i),
    ensures
        s.len() >= n,
{
    let ids = Seq::new(s.len(), |m: int| s[m].point_index as int);
    vstd::set_lib::lemma_int_range(0, n as int);
    assert(vstd::set_lib::set_int_range(0, n as int).subset_of(ids.to_set())) by {
        assert forall|x: int| vstd::set_lib::set_int_range(0, n as int).contains(x) implies
            ids.to_set().contains(x) by {
            assert(has_id(s, x));
            let m = choose|m: int| 0 <= m < s.len() && s[m].point_index == x;
            assert(ids[m] == x);
            assert(ids.contains(x));
        }
    }
    assert(ids.to_set().finite()) by {
        broadcast use vstd::seq_lib::seq_to_set_is_finite;

    }
    ids.lemma_cardinality_of_set();
    vstd::set_lib::lemma_len_subset(
        vstd::set_lib::set_int_range(0, n as int),
        ids.to_set(),
    );
}

} // verus!
