//! Per-run and per-query counters, and the deterministic recall computation
//! over fixed-point distances. Writing the counters to a relational store is
//! outside the library; callers read the collected values instead. Times are
//! supplied by the caller in nanoseconds.

use vstd::prelude::*;

use crate::config::Config;
use crate::fixed::isqrt;

verus! {

/// Counters for one query.
pub struct QueryMetrics {
    /// Distance computations over the whole query.
    pub distance_computations: usize,
    /// Wall time of the query, in nanoseconds.
    pub query_time_ns: u64,
    /// Candidates accepted per visited cluster.
    pub cluster_n_candidates: Vec<usize>,
    /// Wall time per visited cluster, in nanoseconds.
    pub cluster_timings_ns: Vec<u64>,
    /// Distance computations per visited cluster.
    pub cluster_distance_computations: Vec<usize>,
}

impl QueryMetrics {
    /// Fresh counters, all zero and empty.
    pub fn new() -> (r: QueryMetrics)
        ensures
            r.distance_computations == 0,
            r.query_time_ns == 0,
            r.cluster_n_candidates@.len() == 0,
            r.cluster_timings_ns@.len() == 0,
            r.cluster_distance_computations@.len() == 0,
    {
        QueryMetrics {
            distance_computations: 0,
            query_time_ns: 0,
            cluster_n_candidates: Vec::new(),
            cluster_timings_ns: Vec::new(),
            cluster_distance_computations: Vec::new(),
        }
    }
}

impl Default for QueryMetrics {
    fn default() -> (r: Self)
        ensures
            r.distance_computations == 0,
    {
        QueryMetrics::new()
    }
}

/// Counters for one run: one entry of `queries` per query answered, plus
/// run statistics filled in by `compute_run_statistics`.
pub struct RunMetrics {
    pub queries: Vec<QueryMetrics>,
    pub config: Config,
    pub dataset_len: usize,
    /// Total wall time over all queries, in nanoseconds.
    pub total_search_time_ns: u64,
    /// Queries per second, in thousandths.
    pub queries_per_second_milli: u64,
    /// Mean recall, in millionths.
    pub recall_mean_micro: u64,
    /// Per-query recall standard deviation, in millionths.
    pub recall_std_micro: u64,
    /// Wall time of the build, in nanoseconds.
    pub indexing_duration_ns: u64,
}

impl RunMetrics {
    pub fn new(config: Config, dataset_len: usize) -> (r: RunMetrics)
        ensures
            r.queries@.len() == 0,
            r.config == config,
            r.dataset_len == dataset_len,
            r.total_search_time_ns == 0,
            r.indexing_duration_ns == 0,
    {
        RunMetrics {
            queries: Vec::new(),
            config,
            dataset_len,
            total_search_time_ns: 0,
            queries_per_second_milli: 0,
            recall_mean_micro: 0,
            recall_std_micro: 0,
            indexing_duration_ns: 0,
        }
    }

    /// Opens the counters for the next query: a zeroed entry is appended
    /// and nothing else changes.
    pub fn new_query(&mut self)
        ensures
            *final(self) == (RunMetrics { queries: final(self).queries, ..*old(self) }),
            final(self).queries@ == old(self).queries@.push(final(self).queries@.last()),
            final(self).queries@.last().distance_computations == 0,
            final(self).queries@.last().query_time_ns == 0,
            final(self).queries@.last().cluster_n_candidates@.len() == 0,
            final(self).queries@.last().cluster_timings_ns@.len() == 0,
            final(self).queries@.last().cluster_distance_computations@.len() == 0,
    {
        self.queries.push(QueryMetrics::new());
    }

    /// The counters of the query currently being answered.
    pub fn current_query(&self) -> (r: Option<&QueryMetrics>)
        ensures
            match r {
                Some(q) => self.queries@.len() > 0 && *q == self.queries@.last(),
                None => self.queries@.len() == 0,
            },
    {
        let n = self.queries.len();
        if n == 0 {
            None
        } else {
            Some(&self.queries[n - 1])
        }
    }

    /// Records the wall time of the build.
    pub fn log_index_building_time(&mut self, time_ns: u64)
        ensures
            *final(self) == (RunMetrics { indexing_duration_ns: time_ns, ..*old(self) }),
    {
        self.indexing_duration_ns = time_ns;
    }

    /// Appends the accepted-candidate count of a visited cluster to the
    /// current query, if one is open; everything else is unchanged.
    pub fn log_n_candidates(&mut self, n_candidates: usize)
        ensures
            *final(self) == (RunMetrics { queries: final(self).queries, ..*old(self) }),
            old(self).queries@.len() == 0 ==> final(self).queries@ == old(self).queries@,
            old(self).queries@.len() > 0 ==> final(self).queries@
                == old(self).queries@.update(
                old(self).queries@.len() - 1,
                final(self).queries@.last(),
            ),
            old(self).queries@.len() > 0 ==> final(self).queries@.last()
                == (QueryMetrics {
                cluster_n_candidates: final(self).queries@.last().cluster_n_candidates,
                ..old(self).queries@.last()
            }),
            old(self).queries@.len() > 0 ==> final(self).queries@.last().cluster_n_candidates@
                == old(self).queries@.last().cluster_n_candidates@.push(n_candidates),
    {
        let ghost pre = self.queries@;
        if let Some(mut q) = self.queries.pop() {
            q.cluster_n_candidates.push(n_candidates);
            self.queries.push(q);
            proof {
                assert(self.queries@ =~= pre.update(pre.len() - 1, self.queries@.last()));
            }
        }
    }

    /// Appends the wall time of a visited cluster to the current query;
    /// everything else is unchanged.
    pub fn log_cluster_time(&mut self, time_ns: u64)
        ensures
            *final(self) == (RunMetrics { queries: final(self).queries, ..*old(self) }),
            old(self).queries@.len() == 0 ==> final(self).queries@ == old(self).queries@,
            old(self).queries@.len() > 0 ==> final(self).queries@
                == old(self).queries@.update(
                old(self).queries@.len() - 1,
                final(self).queries@.last(),
            ),
            old(self).queries@.len() > 0 ==> final(self).queries@.last()
                == (QueryMetrics {
                cluster_timings_ns: final(self).queries@.last().cluster_timings_ns,
                ..old(self).queries@.last()
            }),
            old(self).queries@.len() > 0 ==> final(self).queries@.last().cluster_timings_ns@
                == old(self).queries@.last().cluster_timings_ns@.push(time_ns),
    {
        let ghost pre = self.queries@;
        if let Some(mut q) = self.queries.pop() {
            q.cluster_timings_ns.push(time_ns);
            self.queries.push(q);
            proof {
                assert(self.queries@ =~= pre.update(pre.len() - 1, self.queries@.last()));
            }
        }
    }

    /// Records the wall time of the current query; everything else is
    /// unchanged.
    pub fn log_query_time(&mut self, time_ns: u64)
        ensures
            *final(self) == (RunMetrics { queries: final(self).queries, ..*old(self) }),
            old(self).queries@.len() == 0 ==> final(self).queries@ == old(self).queries@,
            old(self).queries@.len() > 0 ==> final(self).queries@
                == old(self).queries@.update(
                old(self).queries@.len() - 1,
                final(self).queries@.last(),
            ),
            old(self).queries@.len() > 0 ==> final(self).queries@.last()
                == (QueryMetrics { query_time_ns: time_ns, ..old(self).queries@.last() }),
    {
        let ghost pre = self.queries@;
        if let Some(mut q) = self.queries.pop() {
            q.query_time_ns = time_ns;
            self.queries.push(q);
            proof {
                assert(self.queries@ =~= pre.update(pre.len() - 1, self.queries@.last()));
            }
        }
    }

    /// Adds query-wide distance computations to the current query,
    /// saturating at the machine limit; everything else is unchanged.
    pub fn add_distance_computation_global(&mut self, n_comp: usize)
        ensures
            *final(self) == (RunMetrics { queries: final(self).queries, ..*old(self) }),
            old(self).queries@.len() == 0 ==> final(self).queries@ == old(self).queries@,
            old(self).queries@.len() > 0 ==> final(self).queries@
                == old(self).queries@.update(
                old(self).queries@.len() - 1,
                final(self).queries@.last(),
            ),
            old(self).queries@.len() > 0 ==> final(self).queries@.last()
                == (QueryMetrics {
                distance_computations: final(self).queries@.last().distance_computations,
                ..old(self).queries@.last()
            }),
            old(self).queries@.len() > 0 ==> final(self).queries@.last().distance_computations
                as int == sat_add_usize_spec(
                old(self).queries@.last().distance_computations as int,
                n_comp as int,
            ),
    {
        let ghost pre = self.queries@;
        if let Some(mut q) = self.queries.pop() {
            q.distance_computations = saturating_add_usize(q.distance_computations, n_comp);
            self.queries.push(q);
            proof {
                assert(self.queries@ =~= pre.update(pre.len() - 1, self.queries@.last()));
            }
        }
    }

    /// Adds the distance computations of one visited cluster to the current
    /// query, both per cluster and in the saturating query total; everything
    /// else is unchanged.
    pub fn add_distance_computation_cluster(&mut self, n_comp: usize)
        ensures
            *final(self) == (RunMetrics { queries: final(self).queries, ..*old(self) }),
            old(self).queries@.len() == 0 ==> final(self).queries@ == old(self).queries@,
            old(self).queries@.len() > 0 ==> final(self).queries@
                == old(self).queries@.update(
                old(self).queries@.len() - 1,
                final(self).queries@.last(),
            ),
            old(self).queries@.len() > 0 ==> final(self).queries@.last()
                == (QueryMetrics {
                distance_computations: final(self).queries@.last().distance_computations,
                cluster_distance_computations: final(self).queries@.last()
                    .cluster_distance_computations,
                ..old(self).queries@.last()
            }),
            old(self).queries@.len() > 0 ==> final(self).queries@.last().distance_computations
                as int == sat_add_usize_spec(
                old(self).queries@.last().distance_computations as int,
                n_comp as int,
            ),
            old(self).queries@.len() > 0
                ==> final(self).queries@.last().cluster_distance_computations@
                == old(self).queries@.last().cluster_distance_computations@.push(n_comp),
    {
        let ghost pre = self.queries@;
        if let Some(mut q) = self.queries.pop() {
            q.cluster_distance_computations.push(n_comp);
            q.distance_computations = saturating_add_usize(q.distance_computations, n_comp);
            self.queries.push(q);
            proof {
                assert(self.queries@ =~= pre.update(pre.len() - 1, self.queries@.last()));
            }
        }
    }

    /// Fills the run statistics: recall against ground truth (for the k
    /// nearest, `count`), total time and throughput. Each row of
    /// `dataset_distances` holds the true nearest distances of one query (at
    /// least count of them, sorted or not); each row of `run_distances`
    /// holds the distances this engine returned. Every statistic is pinned
    /// to its spec formula; nothing else of the record changes.
    pub fn compute_run_statistics(
        &mut self,
        dataset_distances: &Vec<Vec<u64>>,
        run_distances: &Vec<Vec<u64>>,
        count: usize,
        total_search_time_ns: u64,
    )
        requires
            count >= 1,
            dataset_distances@.len() >= run_distances@.len(),
            forall|i: int| 0 <= i < dataset_distances@.len()
                ==> (#[trigger] dataset_distances@[i])@.len() >= count,
        ensures
            *final(self) == (RunMetrics {
                total_search_time_ns: total_search_time_ns,
                queries_per_second_milli: final(self).queries_per_second_milli,
                recall_mean_micro: final(self).recall_mean_micro,
                recall_std_micro: final(self).recall_std_micro,
                ..*old(self)
            }),
            run_distances@.len() == 0 ==> final(self).recall_mean_micro == 0
                && final(self).recall_std_micro == 0,
            run_distances@.len() > 0 ==> final(self).recall_mean_micro as int
                == mean_recall_micro_spec(
                dataset_distances@.map_values(|v: Vec<u64>| v@),
                run_distances@.map_values(|v: Vec<u64>| v@),
                count as int,
            ),
            run_distances@.len() > 0 ==> final(self).recall_std_micro as int
                == std_recall_micro_spec(
                dataset_distances@.map_values(|v: Vec<u64>| v@),
                run_distances@.map_values(|v: Vec<u64>| v@),
                count as int,
            ),
            total_search_time_ns == 0 ==> final(self).queries_per_second_milli == 0,
            total_search_time_ns > 0 ==> final(self).queries_per_second_milli as int
                == sat_u64(run_distances@.len() as int * 1_000_000_000_000 / total_search_time_ns as int),
    {
        let (mean, std) = get_recall_values(dataset_distances, run_distances, count);
        self.recall_mean_micro = mean;
        self.recall_std_micro = std;
        self.total_search_time_ns = total_search_time_ns;
        if total_search_time_ns > 0 {
            let q = run_distances.len();
            let qps: u128 = (q as u128) * 1000u128 * 1_000_000_000u128 / (total_search_time_ns as u128);
            self.queries_per_second_milli = if qps > u64::MAX as u128 {
                u64::MAX
            } else {
                qps as u64
            };
        } else {
            self.queries_per_second_milli = 0;
        }
    }
}

/// Addition on counters, saturating at the machine limit.
pub open spec fn sat_add_usize_spec(a: int, b: int) -> int {
    if a + b > usize::MAX {
        usize::MAX as int
    } else {
        a + b
    }
}

fn saturating_add_usize(a: usize, b: usize) -> (r: usize)
    ensures
        r as int == if a + b > usize::MAX {
            usize::MAX as int
        } else {
            a + b
        },
{
    if a <= usize::MAX - b {
        a + b
    } else {
        usize::MAX
    }
}

/// The order of the recall statistics: at-most on distances.
pub open spec fn dist_leq() -> spec_fn(u64, u64) -> bool {
    |x: u64, y: u64| x <= y
}

/// A sorted sequence is determined by its multiset: sorting is unique.
proof fn lemma_sorted_u64_unique(s1: Seq<u64>, s2: Seq<u64>)
    requires
        s1.to_multiset() == s2.to_multiset(),
        forall|a: int, b: int| 0 <= a < b < s1.len() ==> s1[a] <= s1[b],
        forall|a: int, b: int| 0 <= a < b < s2.len() ==> s2[a] <= s2[b],
    ensures
        s1 == s2,
    decreases s1.len(),
{
    broadcast use vstd::seq_lib::group_to_multiset_ensures;
    broadcast use vstd::multiset::group_multiset_axioms;

    s1.to_multiset_ensures();
    s2.to_multiset_ensures();
    assert(s1.len() == s2.len());
    if s1.len() == 0 {
        assert(s1 =~= s2);
    } else {
        assert(s1.contains(s1[0]));
        assert(s1.to_multiset().count(s1[0]) > 0);
        assert(s2.to_multiset().count(s1[0]) > 0);
        assert(s2.contains(s1[0]));
        let j = choose|j: int| 0 <= j < s2.len() && s2[j] == s1[0];
        assert(s2[0] <= s1[0]);
        assert(s2.contains(s2[0]));
        assert(s2.to_multiset().count(s2[0]) > 0);
        assert(s1.to_multiset().count(s2[0]) > 0);
        assert(s1.contains(s2[0]));
        let j2 = choose|j2: int| 0 <= j2 < s1.len() && s1[j2] == s2[0];
        assert(s1[0] <= s2[0]);
        assert(s1[0] == s2[0]);
        let t1 = s1.remove(0);
        let t2 = s2.remove(0);
        assert(t1.to_multiset() == s1.to_multiset().remove(s1[0]));
        assert(t2.to_multiset() == s2.to_multiset().remove(s2[0]));
        assert(forall|a: int, b: int| 0 <= a < b < t1.len()
            ==> #[trigger] t1[a] <= #[trigger] t1[b]) by {
            assert(forall|a: int| 0 <= a < t1.len() ==> #[trigger] t1[a] == s1[a + 1]);
        }
        assert(forall|a: int, b: int| 0 <= a < b < t2.len()
            ==> #[trigger] t2[a] <= #[trigger] t2[b]) by {
            assert(forall|a: int| 0 <= a < t2.len() ==> #[trigger] t2[a] == s2[a + 1]);
        }
        lemma_sorted_u64_unique(t1, t2);
        assert forall|a: int| 0 <= a < s1.len() implies s1[a] == s2[a] by {
            if a > 0 {
                assert(t1[a - 1] == s1[a]);
                assert(t2[a - 1] == s2[a]);
                assert(t1[a - 1] == t2[a - 1]);
            }
        }
        assert(s1 =~= s2);
    }
}

/// Saturation at the u64 limit.
pub open spec fn sat_u64(x: int) -> int {
    if x > u64::MAX {
        u64::MAX as int
    } else {
        x
    }
}

/// Saturation at the u128 limit.
pub open spec fn sat_u128(x: int) -> int {
    if x > u128::MAX {
        u128::MAX as int
    } else {
        x
    }
}

/// The acceptance threshold of one query: the count-th smallest
/// ground-truth distance plus one thousandth (1000 in millionths),
/// saturating at the distance limit.
pub open spec fn threshold_spec(row: Seq<u64>, count: int) -> int {
    let kth = row.sort_by(dist_leq())[count - 1] as int;
    sat_u64(kth + 1000)
}

/// How many of the first m entries of a result row lie at or below t.
pub open spec fn count_within_spec(row: Seq<u64>, t: int, m: int) -> int
    decreases m,
{
    if m <= 0 {
        0
    } else {
        count_within_spec(row, t, m - 1) + if row[m - 1] as int <= t {
            1int
        } else {
            0int
        }
    }
}

/// The recall count of one query: how many of its first count returned
/// distances lie at or below its threshold.
pub open spec fn recall_count_spec(gt_row: Seq<u64>, run_row: Seq<u64>, count: int) -> int {
    let lim = if run_row.len() < count {
        run_row.len() as int
    } else {
        count
    };
    count_within_spec(run_row, threshold_spec(gt_row, count), lim)
}

/// The recall counts of the first q queries, summed with u64 saturation.
pub open spec fn total_counts_spec(gt: Seq<Seq<u64>>, run: Seq<Seq<u64>>, count: int, q: int) -> int
    decreases q,
{
    if q <= 0 {
        0
    } else {
        sat_u64(total_counts_spec(gt, run, count, q - 1) + recall_count_spec(
            gt[q - 1],
            run[q - 1],
            count,
        ))
    }
}

/// Mean recall in millionths: the total count over Q * count.
pub open spec fn mean_recall_micro_spec(gt: Seq<Seq<u64>>, run: Seq<Seq<u64>>, count: int) -> int {
    let q = run.len() as int;
    sat_u64(total_counts_spec(gt, run, count, q) * 1_000_000 / (q * count))
}

/// Sum of squared deviations of the per-query counts (in millionths) from
/// their mean, with u128 saturation.
pub open spec fn var_sum_spec(
    gt: Seq<Seq<u64>>,
    run: Seq<Seq<u64>>,
    count: int,
    mean_counts: int,
    q: int,
) -> int
    decreases q,
{
    if q <= 0 {
        0
    } else {
        let c = recall_count_spec(gt[q - 1], run[q - 1], count) * 1_000_000;
        let dev = if c >= mean_counts {
            c - mean_counts
        } else {
            mean_counts - c
        };
        let devc = sat_u64(dev);
        sat_u128(var_sum_spec(gt, run, count, mean_counts, q - 1) + devc * devc)
    }
}

/// Per-query recall standard deviation in millionths, divided by count.
pub open spec fn std_recall_micro_spec(gt: Seq<Seq<u64>>, run: Seq<Seq<u64>>, count: int) -> int {
    let q = run.len() as int;
    let mean_counts = total_counts_spec(gt, run, count, q) * 1_000_000 / q;
    let var = var_sum_spec(gt, run, count, mean_counts, q) / q;
    sat_u64(crate::fixed::isqrt_spec(var as nat) as int / count)
}

/// Sorts a vector of distances ascending (insertion sort).
pub fn sort_distances(v: &mut Vec<u64>)
    ensures
        final(v)@.len() == old(v)@.len(),
        final(v)@.to_multiset() == old(v)@.to_multiset(),
        forall|a: int, b: int| 0 <= a < b < final(v)@.len() ==> final(v)@[a] <= final(v)@[b],
        final(v)@ == old(v)@.sort_by(dist_leq()),
{
    let ghost orig = v@;
    let mut i: usize = 1;
    if v.len() == 0 {
        proof {
            assert(vstd::relations::total_ordering(dist_leq()));
            orig.lemma_sort_by_ensures(dist_leq());
            orig.to_multiset_ensures();
            orig.sort_by(dist_leq()).to_multiset_ensures();
            assert(v@ =~= orig.sort_by(dist_leq()));
        }
        return ;
    }
    while i < v.len()
        invariant
            1 <= i <= v@.len(),
            v@.len() == orig.len(),
            v@.to_multiset() == orig.to_multiset(),
            forall|a: int, b: int| 0 <= a < b < i ==> v@[a] <= v@[b],
        decreases v@.len() - i,
    {
        let mut j: usize = i;
        while j > 0 && v[j - 1] > v[j]
            invariant
                0 <= j <= i < v@.len(),
                v@.len() == orig.len(),
                v@.to_multiset() == orig.to_multiset(),
                forall|a: int, b: int| 0 <= a < b <= i && b != j ==> v@[a] <= v@[b],
                forall|a: int, b: int| j <= a < b <= i ==> v@[a] <= v@[b],
            decreases j,
        {
            let ghost s0 = v@;
            let tmp = v[j - 1];
            let cur = v[j];
            v.set(j - 1, cur);
            let ghost s1 = v@;
            v.set(j, tmp);
            proof {
                broadcast use vstd::seq_lib::to_multiset_update;
                broadcast use vstd::seq_lib::group_to_multiset_ensures;
                broadcast use vstd::multiset::group_multiset_axioms;

                assert(s1.to_multiset() == s0.to_multiset().insert(cur).remove(s0[j - 1]));
                assert(v@.to_multiset() == s1.to_multiset().insert(tmp).remove(s1[j as int]));
                assert(s1[j as int] == cur && s0[j - 1] == tmp);
                assert(v@.to_multiset() =~= s0.to_multiset());
            }
            j -= 1;
        }
        i += 1;
    }
    proof {
        assert(vstd::relations::total_ordering(dist_leq()));
        orig.lemma_sort_by_ensures(dist_leq());
        let sb = orig.sort_by(dist_leq());
        assert(forall|a: int, b: int| 0 <= a < b < sb.len()
            ==> #[trigger] sb[a] <= #[trigger] sb[b]) by {
            assert(forall|a: int, b: int| 0 <= a < b < sb.len()
                ==> vstd::relations::sorted_by(sb, dist_leq()) && dist_leq()(sb[a], sb[b]));
        }
        lemma_sorted_u64_unique(v@, sb);
    }
}

/// The acceptance threshold for one query: the count-th smallest
/// ground-truth distance plus one thousandth (in millionths: plus 1000).
pub fn threshold(distances: &Vec<u64>, count: usize) -> (r: u64)
    requires
        count >= 1,
        distances@.len() >= count,
    ensures
        r as int == threshold_spec(distances@, count as int),
{
    let mut sorted = distances.clone();
    sort_distances(&mut sorted);
    let base = sorted[count - 1];
    if base <= u64::MAX - 1000 {
        base + 1000
    } else {
        u64::MAX
    }
}

/// Deterministic recall against ground truth, in millionths.
///
/// For query i the threshold is the count-th smallest ground-truth distance
/// plus one thousandth; the recall count of the query is how many of its
/// returned distances (at most count of them) lie at or below the
/// threshold. The mean is the total count over Q * count; the standard
/// deviation is over the per-query counts, divided by count. The exact
/// integer formulas, saturations included, are the spec functions
/// `mean_recall_micro_spec` and `std_recall_micro_spec`.
pub fn get_recall_values(
    dataset_distances: &Vec<Vec<u64>>,
    run_distances: &Vec<Vec<u64>>,
    count: usize,
) -> (r: (u64, u64))
    requires
        count >= 1,
        dataset_distances@.len() >= run_distances@.len(),
        forall|i: int| 0 <= i < dataset_distances@.len()
            ==> (#[trigger] dataset_distances@[i])@.len() >= count,
    ensures
        run_distances@.len() == 0 ==> r.0 == 0 && r.1 == 0,
        run_distances@.len() > 0 ==> r.0 as int == mean_recall_micro_spec(
            dataset_distances@.map_values(|v: Vec<u64>| v@),
            run_distances@.map_values(|v: Vec<u64>| v@),
            count as int,
        ),
        run_distances@.len() > 0 ==> r.1 as int == std_recall_micro_spec(
            dataset_distances@.map_values(|v: Vec<u64>| v@),
            run_distances@.map_values(|v: Vec<u64>| v@),
            count as int,
        ),
{
    let ghost gtv = dataset_distances@.map_values(|v: Vec<u64>| v@);
    let ghost runv = run_distances@.map_values(|v: Vec<u64>| v@);
    let q = run_distances.len();
    if q == 0 {
        return (0, 0);
    }
    let mut counts: Vec<u64> = Vec::new();
    let mut total: u64 = 0;
    let mut i: usize = 0;
    while i < q
        invariant
            q == run_distances@.len(),
            dataset_distances@.len() >= run_distances@.len(),
            count >= 1,
            gtv == dataset_distances@.map_values(|v: Vec<u64>| v@),
            runv == run_distances@.map_values(|v: Vec<u64>| v@),
            forall|t: int| 0 <= t < dataset_distances@.len()
                ==> (#[trigger] dataset_distances@[t])@.len() >= count,
            i <= q,
            counts@.len() == i,
            forall|t: int| 0 <= t < i
                ==> #[trigger] counts@[t] as int == recall_count_spec(gtv[t], runv[t], count as int),
            total as int == total_counts_spec(gtv, runv, count as int, i as int),
        decreases q - i,
    {
        let t = threshold(&dataset_distances[i], count);
        let row = &run_distances[i];
        let mut actual: u64 = 0;
        let mut m: usize = 0;
        let lim = if row.len() < count {
            row.len()
        } else {
            count
        };
        while m < lim
            invariant
                lim <= row@.len(),
                lim <= count,
                m <= lim,
                actual <= m as u64,
                actual as int == count_within_spec(row@, t as int, m as int),
            decreases lim - m,
        {
            if row[m] <= t {
                actual += 1;
            }
            m += 1;
        }
        proof {
            assert(row@ == runv[i as int]);
            assert(dataset_distances@[i as int]@ == gtv[i as int]);
            assert(actual as int == recall_count_spec(gtv[i as int], runv[i as int], count as int));
        }
        counts.push(actual);
        total = saturating_add_u64(total, actual);
        i += 1;
    }
    // mean recall in millionths: total * 1e6 / (q * count)
    proof {
        assert(1 <= (q as int) * (count as int)
            && (q as int) * (count as int)
                <= 0xFFFF_FFFF_FFFF_FFFFint * 0xFFFF_FFFF_FFFF_FFFFint) by (nonlinear_arith)
            requires
                1 <= q as int <= 0xFFFF_FFFF_FFFF_FFFFint,
                1 <= count as int <= 0xFFFF_FFFF_FFFF_FFFFint;
    }
    let denom: u128 = (q as u128) * (count as u128);
    let mean_micro128: u128 = (total as u128) * 1_000_000u128 / denom;
    let mean_micro: u64 = if mean_micro128 > u64::MAX as u128 {
        u64::MAX
    } else {
        mean_micro128 as u64
    };
    // per-query mean of counts in millionths
    let mean_counts: u128 = (total as u128) * 1_000_000u128 / (q as u128);
    // variance of counts (in millionths squared), then std / count
    let mut var_sum: u128 = 0;
    let mut i2: usize = 0;
    while i2 < counts.len()
        invariant
            count >= 1,
            i2 <= counts@.len(),
            counts@.len() == q,
            q == run_distances@.len(),
            q >= 1,
            gtv == dataset_distances@.map_values(|v: Vec<u64>| v@),
            runv == run_distances@.map_values(|v: Vec<u64>| v@),
            forall|t: int| 0 <= t < counts@.len()
                ==> #[trigger] counts@[t] as int == recall_count_spec(gtv[t], runv[t], count as int),
            mean_counts as int == total_counts_spec(gtv, runv, count as int, q as int)
                * 1_000_000 / (q as int),
            var_sum as int == var_sum_spec(gtv, runv, count as int, mean_counts as int, i2 as int),
        decreases counts@.len() - i2,
    {
        let c_micro: u128 = (counts[i2] as u128) * 1_000_000u128;
        let dev: u128 = if c_micro >= mean_counts {
            c_micro - mean_counts
        } else {
            mean_counts - c_micro
        };
        let dev_capped: u128 = if dev > 0xFFFF_FFFF_FFFF_FFFFu128 {
            0xFFFF_FFFF_FFFF_FFFFu128
        } else {
            dev
        };
        proof {
            assert(dev_capped * dev_capped
                <= 0xFFFF_FFFF_FFFF_FFFFu128 * 0xFFFF_FFFF_FFFF_FFFFu128) by (nonlinear_arith)
                requires dev_capped <= 0xFFFF_FFFF_FFFF_FFFFu128;
        }
        let sq: u128 = dev_capped * dev_capped;
        var_sum = saturating_add_u128(var_sum, sq);
        i2 += 1;
    }
    let var: u128 = var_sum / (q as u128);
    let std128 = isqrt(var);
    proof {
        crate::fixed::lemma_isqrt_bounds(var as nat);
        assert(crate::fixed::isqrt_spec(var as nat) <= u64::MAX as nat) by (nonlinear_arith)
            requires
                crate::fixed::isqrt_spec(var as nat) * crate::fixed::isqrt_spec(var as nat)
                    <= var as nat,
                var as nat <= u128::MAX as nat;
    }
    let std_over_k: u128 = std128 / (count as u128);
    let std_micro: u64 = if std_over_k > u64::MAX as u128 {
        u64::MAX
    } else {
        std_over_k as u64
    };
    (mean_micro, std_micro)
}

fn saturating_add_u64(a: u64, b: u64) -> (r: u64)
    ensures
        r as int == if a + b > u64::MAX {
            u64::MAX as int
        } else {
            a + b
        },
{
    if a <= u64::MAX - b {
        a + b
    } else {
        u64::MAX
    }
}

fn saturating_add_u128(a: u128, b: u128) -> (r: u128)
    ensures
        r as int == if a + b > u128::MAX {
            u128::MAX as int
        } else {
            a + b
        },
{
    if a <= u128::MAX - b {
        a + b
    } else {
        u128::MAX
    }
}

/// The byte form of `num_clusters,`.
pub open spec fn lit_csv_num_clusters() -> Seq<u8> {
    seq![110u8, 117u8, 109u8, 95u8, 99u8, 108u8, 117u8, 115u8, 116u8, 101u8, 114u8, 115u8, 44u8]
}

fn emit_lit_csv_num_clusters(out: &mut Vec<u8>)
    ensures
        final(out)@ == old(out)@ + lit_csv_num_clusters(),
{
    let ghost pre = out@;
    out.push(110u8);
    out.push(117u8);
    out.push(109u8);
    out.push(95u8);
    out.push(99u8);
    out.push(108u8);
    out.push(117u8);
    out.push(115u8);
    out.push(116u8);
    out.push(101u8);
    out.push(114u8);
    out.push(115u8);
    out.push(44u8);
    proof {
        assert(out@ =~= pre + lit_csv_num_clusters());
    }
}

/// The byte form of `num_tables,`.
pub open spec fn lit_csv_num_tables() -> Seq<u8> {
    seq![110u8, 117u8, 109u8, 95u8, 116u8, 97u8, 98u8, 108u8, 101u8, 115u8, 44u8]
}

fn emit_lit_csv_num_tables(out: &mut Vec<u8>)
    ensures
        final(out)@ == old(out)@ + lit_csv_num_tables(),
{
    let ghost pre = out@;
    out.push(110u8);
    out.push(117u8);
    out.push(109u8);
    out.push(95u8);
    out.push(116u8);
    out.push(97u8);
    out.push(98u8);
    out.push(108u8);
    out.push(101u8);
    out.push(115u8);
    out.push(44u8);
    proof {
        assert(out@ =~= pre + lit_csv_num_tables());
    }
}

/// The byte form of `dataset,`.
pub open spec fn lit_csv_dataset() -> Seq<u8> {
    seq![100u8, 97u8, 116u8, 97u8, 115u8, 101u8, 116u8, 44u8]
}

fn emit_lit_csv_dataset(out: &mut Vec<u8>)
    ensures
        final(out)@ == old(out)@ + lit_csv_dataset(),
{
    let ghost pre = out@;
    out.push(100u8);
    out.push(97u8);
    out.push(116u8);
    out.push(97u8);
    out.push(115u8);
    out.push(101u8);
    out.push(116u8);
    out.push(44u8);
    proof {
        assert(out@ =~= pre + lit_csv_dataset());
    }
}

/// The byte form of `total_num_clusters,`.
pub open spec fn lit_csv_total() -> Seq<u8> {
    seq![116u8, 111u8, 116u8, 97u8, 108u8, 95u8, 110u8, 117u8, 109u8, 95u8, 99u8, 108u8, 117u8, 115u8, 116u8, 101u8, 114u8, 115u8, 44u8]
}

fn emit_lit_csv_total(out: &mut Vec<u8>)
    ensures
        final(out)@ == old(out)@ + lit_csv_total(),
{
    let ghost pre = out@;
    out.push(116u8);
    out.push(111u8);
    out.push(116u8);
    out.push(97u8);
    out.push(108u8);
    out.push(95u8);
    out.push(110u8);
    out.push(117u8);
    out.push(109u8);
    out.push(95u8);
    out.push(99u8);
    out.push(108u8);
    out.push(117u8);
    out.push(115u8);
    out.push(116u8);
    out.push(101u8);
    out.push(114u8);
    out.push(115u8);
    out.push(44u8);
    proof {
        assert(out@ =~= pre + lit_csv_total());
    }
}

/// The byte form of `greedy_num_clusters,`.
pub open spec fn lit_csv_greedy() -> Seq<u8> {
    seq![103u8, 114u8, 101u8, 101u8, 100u8, 121u8, 95u8, 110u8, 117u8, 109u8, 95u8, 99u8, 108u8, 117u8, 115u8, 116u8, 101u8, 114u8, 115u8, 44u8]
}

fn emit_lit_csv_greedy(out: &mut Vec<u8>)
    ensures
        final(out)@ == old(out)@ + lit_csv_greedy(),
{
    let ghost pre = out@;
    out.push(103u8);
    out.push(114u8);
    out.push(101u8);
    out.push(101u8);
    out.push(100u8);
    out.push(121u8);
    out.push(95u8);
    out.push(110u8);
    out.push(117u8);
    out.push(109u8);
    out.push(95u8);
    out.push(99u8);
    out.push(108u8);
    out.push(117u8);
    out.push(115u8);
    out.push(116u8);
    out.push(101u8);
    out.push(114u8);
    out.push(115u8);
    out.push(44u8);
    proof {
        assert(out@ =~= pre + lit_csv_greedy());
    }
}

/// The byte form of `memory_used_bytes,`.
pub open spec fn lit_csv_memory() -> Seq<u8> {
    seq![109u8, 101u8, 109u8, 111u8, 114u8, 121u8, 95u8, 117u8, 115u8, 101u8, 100u8, 95u8, 98u8, 121u8, 116u8, 101u8, 115u8, 44u8]
}

fn emit_lit_csv_memory(out: &mut Vec<u8>)
    ensures
        final(out)@ == old(out)@ + lit_csv_memory(),
{
    let ghost pre = out@;
    out.push(109u8);
    out.push(101u8);
    out.push(109u8);
    out.push(111u8);
    out.push(114u8);
    out.push(121u8);
    out.push(95u8);
    out.push(117u8);
    out.push(115u8);
    out.push(101u8);
    out.push(100u8);
    out.push(95u8);
    out.push(98u8);
    out.push(121u8);
    out.push(116u8);
    out.push(101u8);
    out.push(115u8);
    out.push(44u8);
    proof {
        assert(out@ =~= pre + lit_csv_memory());
    }
}

/// The byte form of `build_time_s,`.
pub open spec fn lit_csv_build_time() -> Seq<u8> {
    seq![98u8, 117u8, 105u8, 108u8, 100u8, 95u8, 116u8, 105u8, 109u8, 101u8, 95u8, 115u8, 44u8]
}

fn emit_lit_csv_build_time(out: &mut Vec<u8>)
    ensures
        final(out)@ == old(out)@ + lit_csv_build_time(),
{
    let ghost pre = out@;
    out.push(98u8);
    out.push(117u8);
    out.push(105u8);
    out.push(108u8);
    out.push(100u8);
    out.push(95u8);
    out.push(116u8);
    out.push(105u8);
    out.push(109u8);
    out.push(101u8);
    out.push(95u8);
    out.push(115u8);
    out.push(44u8);
    proof {
        assert(out@ =~= pre + lit_csv_build_time());
    }
}

/// The CSV build-metrics report: one `key,value` line per build statistic.
pub open spec fn csv_build_spec(
    cfg: crate::config::Config,
    num_clusters: nat,
    num_greedy: nat,
    memory_used_bytes: nat,
    build_time_s: nat,
) -> Seq<u8> {
    lit_csv_num_clusters() + crate::codec::enc_milli_spec(cfg.num_clusters_factor as nat)
        + seq![10u8] + lit_csv_num_tables() + crate::codec::dec_u64(cfg.num_tables as nat)
        + seq![10u8] + lit_csv_dataset() + cfg.dataset_name@ + seq![10u8] + lit_csv_total()
        + crate::codec::dec_u64(num_clusters) + seq![10u8] + lit_csv_greedy()
        + crate::codec::dec_u64(num_greedy) + seq![10u8] + lit_csv_memory()
        + crate::codec::dec_u64(memory_used_bytes) + seq![10u8] + lit_csv_build_time()
        + crate::codec::dec_u64(build_time_s) + seq![10u8]
}

impl RunMetrics {
    /// The build statistics of the run as CSV bytes, one `key,value` line
    /// per statistic; the caller stores them wherever it keeps reports.
    pub fn csv_build_metrics(
        &self,
        num_clusters: usize,
        num_greedy: usize,
        memory_used_bytes: usize,
        build_time_s: u64,
    ) -> (r: Vec<u8>)
        ensures
            r@ == csv_build_spec(
                self.config,
                num_clusters as nat,
                num_greedy as nat,
                memory_used_bytes as nat,
                build_time_s as nat,
            ),
    {
        let mut out: Vec<u8> = Vec::new();
        emit_lit_csv_num_clusters(&mut out);
        crate::codec::enc_milli_push(&mut out, self.config.num_clusters_factor as u64);
        out.push(10);
        emit_lit_csv_num_tables(&mut out);
        crate::codec::enc_u64_push(&mut out, self.config.num_tables as u64);
        out.push(10);
        emit_lit_csv_dataset(&mut out);
        out.extend_from_slice(self.config.dataset_name.as_slice());
        out.push(10);
        emit_lit_csv_total(&mut out);
        crate::codec::enc_u64_push(&mut out, num_clusters as u64);
        out.push(10);
        emit_lit_csv_greedy(&mut out);
        crate::codec::enc_u64_push(&mut out, num_greedy as u64);
        out.push(10);
        emit_lit_csv_memory(&mut out);
        crate::codec::enc_u64_push(&mut out, memory_used_bytes as u64);
        out.push(10);
        emit_lit_csv_build_time(&mut out);
        crate::codec::enc_u64_push(&mut out, build_time_s);
        out.push(10);
        proof {
            assert(out@ =~= csv_build_spec(
                self.config,
                num_clusters as nat,
                num_greedy as nat,
                memory_used_bytes as nat,
                build_time_s as nat,
            ));
        }
        out
    }
}

} // verus!
