//! Stated laws of the engine that relate several functions.
//!
//! The partition, radius, brute-force, slot-parity and cluster-count
//! invariants are part of `ClusteredIndex::wf_built` and are ensured by
//! `build` and `new_from_bytes`; the result-size, ordering and
//! recomputed-distance guarantees of a query are part of
//! `ClusteredIndex::search_post` and are ensured by `search`. This module
//! states the laws that do not attach to a single function.

use vstd::prelude::*;

use crate::codec::{cluster_eqv, enc_container_spec, lemma_container_inj, name_serializable};
use crate::index::ClusteredIndex;
use crate::metricdata::{norm_spec, AngularData, DIST_SCALE};

verus! {

/// Serialization round trip: restoring a serialized index reproduces its
/// state. `serialize` ensures that the bytes it hands out are the canonical
/// container encoding of the stored index, and `new_from_bytes` ensures
/// that the index it hands back re-encodes to exactly the bytes it was
/// given; since the container encoding is injective, the two indexes agree
/// on the whole configuration and on every cluster record, field for field.
/// Restored over the same dataset, the restored index therefore answers
/// queries under the same contract as the stored one.
///
/// Success is owed end to end: `new_from_bytes` ensures Ok on the
/// canonical bytes of any well-built index over the same dataset (the
/// parser is proved complete on canonical encodings, and
/// `new_from_state` succeeds exactly on `restorable_state`, which every
/// well-built state satisfies by `lemma_wf_built_restorable`).
pub proof fn law_serialize_restore_round_trip(
    stored: ClusteredIndex,
    restored: ClusteredIndex,
    bytes: Seq<u8>,
)
    requires
        bytes == enc_container_spec(stored.config, stored.clusters@),
        bytes == enc_container_spec(restored.config, restored.clusters@),
        name_serializable(stored.config.dataset_name@),
        name_serializable(restored.config.dataset_name@),
    ensures
        restored.config.num_tables == stored.config.num_tables,
        restored.config.num_clusters_factor == stored.config.num_clusters_factor,
        restored.config.k == stored.config.k,
        restored.config.delta == stored.config.delta,
        restored.config.dataset_name@ == stored.config.dataset_name@,
        restored.config.metrics_output == stored.config.metrics_output,
        restored.clusters@.len() == stored.clusters@.len(),
        forall|i: int| 0 <= i < stored.clusters@.len()
            ==> cluster_eqv(#[trigger] stored.clusters@[i], restored.clusters@[i]),
{
    lemma_container_inj(
        stored.config,
        stored.clusters@,
        restored.config,
        restored.clusters@,
    );
}

/// Soundness of the early-termination rule, within one cluster and onward:
/// clusters are visited in ascending order of center distance, and the
/// search stops at the first position whose lower bound
/// `center distance - radius` exceeds the current worst answer. At that
/// point no member of the stopping cluster can improve the answer, and
/// neither can any later cluster whose radius does not exceed the stopping
/// cluster's. (A later cluster with a strictly larger radius may still hold
/// a closer point; the rule trades that possibility for speed.)
pub proof fn law_early_exit_sound(
    idx: ClusteredIndex,
    q: Seq<i64>,
    order: Seq<usize>,
    j: int,
    m: int,
    worst: int,
)
    requires
        forall|m1: int, m2: int| 0 <= m1 <= m2 < order.len()
            ==> idx.center_dist(#[trigger] order[m1] as int, q)
                <= idx.center_dist(#[trigger] order[m2] as int, q),
        forall|t: int| 0 <= t < order.len() ==> #[trigger] order[t] < idx.clusters@.len(),
        0 <= j <= m < order.len(),
        idx.center_dist(order[j] as int, q)
            > worst + idx.clusters@[order[j] as int].radius,
        idx.clusters@[order[m] as int].radius <= idx.clusters@[order[j] as int].radius,
    ensures
        idx.center_dist(order[m] as int, q)
            > worst + idx.clusters@[order[m] as int].radius,
{
    assert(idx.center_dist(order[j] as int, q) <= idx.center_dist(order[m] as int, q));
}

/// The lower bound that the early-termination rule uses is sound for each
/// member of the stopping cluster itself: a member within `radius` of the
/// center whose center is farther than `worst + radius` cannot beat `worst`
/// whenever the metric obeys the triangle inequality between the three
/// points involved. The fixed-point cosine distance is not a metric, so the
/// triangle bound enters as a premise rather than a proved fact.
pub proof fn law_exit_bound_per_member(
    center_q: int,
    member_q: int,
    center_member: int,
    radius: int,
    worst: int,
)
    requires
        center_q > worst + radius,
        center_member <= radius,
        center_q <= member_q + center_member,
    ensures
        member_q > worst,
{
}

/// A query with a zero norm is at distance one (in DIST_SCALE units) from
/// every point of the dataset.
pub proof fn law_zero_norm_query(data: AngularData, i: int, q: Seq<i64>)
    requires
        data.wf(),
        0 <= i < data.n_spec(),
        norm_spec(q) == 0,
    ensures
        data.dist_point_spec(i, q) == DIST_SCALE,
{
    assert((data.norms@[i] as nat) * norm_spec(q) == 0) by (nonlinear_arith)
        requires norm_spec(q) == 0;
}

} // verus!
