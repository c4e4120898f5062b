//! The per-cluster sub-index.
//!
//! The engine treats the sub-index as a collaborator with a narrow contract:
//! build over a subset view, answer a query with up to k local row ids, and
//! report its memory use. This module provides an exact scanning
//! implementation of that contract, so the whole composition is verified;
//! the recall and similarity-bound parameters of `search` are advisory and
//! an exact implementation may ignore them.

use vstd::prelude::*;

use crate::heap::{le_elem, lemma_insert_index_facts, Element, TopKClosestHeap};
use crate::index::has_id;
use crate::metricdata::{coords_bounded, AngularData};

verus! {

/// Local id `t` occurs in the result list.
pub open spec fn contains_local(r: Seq<u32>, t: int) -> bool {
    exists|m: int| 0 <= m < r.len() && r[m] == t
}

/// The similarity family a sub-index is built for.
#[derive(Debug, Clone, Copy, PartialEq, Eq, Structural)]
pub enum SimilarityMeasure {
    CosineSimilarity,
    JaccardSimilarity,
}

impl SimilarityMeasure {
    /// The dataset-type tag of the family.
    pub fn family_name(&self) -> (r: &'static str)
        ensures
            r == if self is CosineSimilarity { "cosine" } else { "angular" },
    {
        match self {
            SimilarityMeasure::CosineSimilarity => "cosine",
            SimilarityMeasure::JaccardSimilarity => "angular",
        }
    }
}

/// Bytes needed to store n points of dimension d plus their cached norms,
/// capped at the address-space limit.
pub open spec fn subindex_memory_spec(n: nat, d: nat) -> nat {
    let raw = n * d * 8 + n * 8;
    if raw > usize::MAX {
        usize::MAX as nat
    } else {
        raw
    }
}

/// An exact sub-index over the subset view it was built with: it answers a
/// query by scanning every stored point, so its recall is 1.
pub struct ExactSubIndex {
    pub data: AngularData,
}

impl ExactSubIndex {
    pub open spec fn wf(&self) -> bool {
        &&& self.data.wf()
        &&& self.data.n_spec() <= u32::MAX
    }

    /// Builds the sub-index over a subset view and reports its memory use.
    /// An exact sub-index never refuses a build.
    pub fn build(data: AngularData, num_tables: usize) -> (r: (ExactSubIndex, usize))
        requires
            data.wf(),
            data.n_spec() <= u32::MAX,
            num_tables >= 1,
        ensures
            r.0.wf(),
            r.0.data == data,
            r.1 as nat == subindex_memory_spec(data.n_spec(), data.dims_spec()),
    {
        let n = data.num_points();
        let d = data.dimensions();
        proof {
            assert((n as int) * (d as int) <= 0x1_0000_0000int * 1_000_000int) by (nonlinear_arith)
                requires 0 <= n as int <= 0x1_0000_0000int, 0 <= d as int <= 1_000_000int;
        }
        let raw: u128 = (n as u128) * (d as u128) * 8 + (n as u128) * 8;
        let memory: usize = if raw > usize::MAX as u128 {
            usize::MAX
        } else {
            raw as usize
        };
        (ExactSubIndex { data }, memory)
    }

    /// Up to k local row ids, exactly the ids of the k closest stored points
    /// to the query: every stored point left out is at least as far from the
    /// query as every returned one. The similarity bound and the recall
    /// target are advisory and ignored by an exact implementation.
    #[allow(unused_variables)]
    pub fn search(&self, query: &[i64], k: usize, max_dist: u64, recall_milli: u32) -> (r: Vec<u32>)
        requires
            self.wf(),
            query@.len() == self.data.dims_spec(),
            coords_bounded(query@),
        ensures
            r@.len() == if k <= self.data.n_spec() {
                k as nat
            } else {
                self.data.n_spec()
            },
            forall|m: int| 0 <= m < r@.len() ==> (#[trigger] r@[m]) < self.data.n_spec(),
            forall|m1: int, m2: int| 0 <= m1 < m2 < r@.len() ==> r@[m1] != r@[m2],
            forall|m1: int, m2: int| 0 <= m1 < m2 < r@.len()
                ==> self.data.dist_point_spec(#[trigger] r@[m1] as int, query@)
                    <= self.data.dist_point_spec(#[trigger] r@[m2] as int, query@),
            forall|t: int, m: int|
                0 <= t < self.data.n_spec() && !#[trigger] contains_local(r@, t)
                    && 0 <= m < r@.len()
                    ==> self.data.dist_point_spec(t, query@)
                        >= self.data.dist_point_spec(#[trigger] r@[m] as int, query@),
    {
        let n = self.data.num_points();
        let mut pq = TopKClosestHeap::new(k);
        let mut i: usize = 0;
        while i < n
            invariant
                self.wf(),
                query@.len() == self.data.dims_spec(),
                coords_bounded(query@),
                n == self.data.n_spec(),
                i <= n,
                pq.wf(),
                pq.length == k,
                pq.heap@.len() == if k <= i {
                    k as nat
                } else {
                    i as nat
                },
                forall|m: int| 0 <= m < pq.heap@.len()
                    ==> (#[trigger] pq.heap@[m]).point_index < i,
                forall|m1: int, m2: int| 0 <= m1 < m2 < pq.heap@.len()
                    ==> pq.heap@[m1].point_index != pq.heap@[m2].point_index,
                forall|m: int| 0 <= m < pq.heap@.len()
                    ==> (#[trigger] pq.heap@[m]).distance as int
                        == self.data.dist_point_spec(pq.heap@[m].point_index as int, query@),
                forall|t: int| 0 <= t < i ==> #[trigger] has_id(pq.heap@, t)
                    || (pq.heap@.len() == k && (pq.heap@.len() == 0
                        || self.data.dist_point_spec(t, query@)
                            >= pq.heap@.last().distance)),
            decreases n - i,
        {
            let d = self.data.distance_point(i, query);
            let e = Element { distance: d, point_index: i };
            let ghost s = pq.heap@;
            let _accepted = pq.add(e);
            proof {
                let s2 = pq.heap@;
                if s.len() < k {
                    let p = crate::heap::insert_pos(s, e);
                    crate::heap::lemma_insert_pos_range(s, e);
                    lemma_insert_index_facts(s, p, e);
                    assert forall|m: int| 0 <= m < s2.len() implies
                        (#[trigger] s2[m]).point_index < i + 1 by {
                        if m < p {
                            assert(s2[m] == s[m]);
                        } else if m == p {
                            assert(s2[m] == e);
                        } else {
                            assert(s2[m] == s[m - 1]);
                        }
                    }
                    assert forall|m1: int, m2: int| 0 <= m1 < m2 < s2.len() implies
                        s2[m1].point_index != s2[m2].point_index by {
                        if m1 < p {
                            assert(s2[m1] == s[m1]);
                        } else if m1 == p {
                            assert(s2[m1] == e);
                        } else {
                            assert(s2[m1] == s[m1 - 1]);
                        }
                        if m2 < p {
                            assert(s2[m2] == s[m2]);
                        } else if m2 == p {
                            assert(s2[m2] == e);
                        } else {
                            assert(s2[m2] == s[m2 - 1]);
                        }
                    }
                    assert forall|m: int| 0 <= m < s2.len() implies
                        (#[trigger] s2[m]).distance as int
                            == self.data.dist_point_spec(s2[m].point_index as int, query@) by {
                        if m < p {
                            assert(s2[m] == s[m]);
                        } else if m == p {
                            assert(s2[m] == e);
                        } else {
                            assert(s2[m] == s[m - 1]);
                        }
                    }
                    // the buffer was not full, so every earlier row is still
                    // in it, and the new row joins it
                    assert forall|t: int| 0 <= t < i + 1 implies
                        #[trigger] has_id(s2, t) by {
                        if t == i {
                            assert(s2[p] == e);
                        } else {
                            assert(has_id(s, t));
                            let m0 = choose|m0: int|
                                0 <= m0 < s.len() && s[m0].point_index == t;
                            if m0 < p {
                                assert(s2[m0] == s[m0]);
                            } else {
                                assert(s2[m0 + 1] == s[m0]);
                            }
                        }
                    }
                } else if k > 0 && e.distance < s.last().distance {
                    let t = s.drop_last();
                    assert(forall|m: int| 0 <= m < t.len() ==> t[m] == s[m]);
                    let p = crate::heap::insert_pos(t, e);
                    crate::heap::lemma_insert_pos_range(t, e);
                    lemma_insert_index_facts(t, p, e);
                    assert forall|m: int| 0 <= m < s2.len() implies
                        (#[trigger] s2[m]).point_index < i + 1 by {
                        if m < p {
                            assert(s2[m] == t[m]);
                        } else if m == p {
                            assert(s2[m] == e);
                        } else {
                            assert(s2[m] == t[m - 1]);
                        }
                    }
                    assert forall|m1: int, m2: int| 0 <= m1 < m2 < s2.len() implies
                        s2[m1].point_index != s2[m2].point_index by {
                        if m1 < p {
                            assert(s2[m1] == t[m1]);
                        } else if m1 == p {
                            assert(s2[m1] == e);
                        } else {
                            assert(s2[m1] == t[m1 - 1]);
                        }
                        if m2 < p {
                            assert(s2[m2] == t[m2]);
                        } else if m2 == p {
                            assert(s2[m2] == e);
                        } else {
                            assert(s2[m2] == t[m2 - 1]);
                        }
                    }
                    assert forall|m: int| 0 <= m < s2.len() implies
                        (#[trigger] s2[m]).distance as int
                            == self.data.dist_point_spec(s2[m].point_index as int, query@) by {
                        if m < p {
                            assert(s2[m] == t[m]);
                        } else if m == p {
                            assert(s2[m] == e);
                        } else {
                            assert(s2[m] == t[m - 1]);
                        }
                    }
                    // the worst retained distance can only shrink when the
                    // worst candidate is replaced by a closer one
                    assert(s2.last().distance <= s.last().distance) by {
                        let lm = s2.len() - 1;
                        if lm < p {
                            assert(s2[lm] == t[lm]);
                            assert(crate::heap::le_elem(s[lm], s.last()));
                        } else if lm == p {
                            assert(s2[lm] == e);
                        } else {
                            assert(s2[lm] == t[lm - 1]);
                            assert(crate::heap::le_elem(s[lm - 1], s.last()));
                        }
                    }
                    assert forall|tid: int| 0 <= tid < i + 1 implies
                        #[trigger] has_id(s2, tid) || (s2.len() == k && (s2.len() == 0
                            || self.data.dist_point_spec(tid, query@)
                                >= s2.last().distance)) by {
                        if tid == i {
                            assert(s2[p] == e);
                        } else if has_id(s, tid) {
                            let m0 = choose|m0: int|
                                0 <= m0 < s.len() && s[m0].point_index == tid;
                            if m0 < s.len() - 1 {
                                assert(t[m0] == s[m0]);
                                if m0 < p {
                                    assert(s2[m0] == t[m0]);
                                } else {
                                    assert(s2[m0 + 1] == t[m0]);
                                }
                            } else {
                                // the dropped element was the worst retained
                                assert(s[m0] == s.last());
                                assert(s[m0].distance as int
                                    == self.data.dist_point_spec(tid, query@));
                            }
                        } else {
                            assert(self.data.dist_point_spec(tid, query@)
                                >= s.last().distance);
                        }
                    }
                } else {
                    assert(s2 == s);
                    assert forall|tid: int| 0 <= tid < i + 1 implies
                        #[trigger] has_id(s2, tid) || (s2.len() == k && (s2.len() == 0
                            || self.data.dist_point_spec(tid, query@)
                                >= s2.last().distance)) by {
                        if k == 0 {
                            assert(s2.len() == 0);
                        } else if tid == i {
                            assert(e.distance as int
                                == self.data.dist_point_spec(i as int, query@));
                            assert(e.distance >= s.last().distance);
                        }
                    }
                }
            }
            i += 1;
        }
        // harvest local ids, ascending by distance
        let pairs = pq.to_list();
        let mut out: Vec<u32> = Vec::new();
        let mut m: usize = 0;
        while m < pairs.len()
            invariant
                n <= u32::MAX,
                pairs@.len() <= n,
                m <= pairs@.len(),
                out@.len() == m,
                forall|t: int| 0 <= t < pairs@.len() ==> (#[trigger] pairs@[t]).1 < n,
                forall|t1: int, t2: int| 0 <= t1 < t2 < pairs@.len()
                    ==> pairs@[t1].1 != pairs@[t2].1,
                forall|t: int| 0 <= t < m ==> #[trigger] out@[t] as int == pairs@[t].1,
            decreases pairs@.len() - m,
        {
            let id = pairs[m].1;
            out.push(id as u32);
            m += 1;
        }
        proof {
            assert forall|m1: int, m2: int| 0 <= m1 < m2 < out@.len()
                implies out@[m1] != out@[m2] by {
                assert(out@[m1] as int == pairs@[m1].1);
                assert(out@[m2] as int == pairs@[m2].1);
            }
            assert forall|m1: int, m2: int| 0 <= m1 < m2 < out@.len() implies
                self.data.dist_point_spec(#[trigger] out@[m1] as int, query@)
                    <= self.data.dist_point_spec(#[trigger] out@[m2] as int, query@) by {
                assert(le_elem(pq.heap@[m1], pq.heap@[m2]));
                assert(out@[m1] as int == pq.heap@[m1].point_index as int);
                assert(out@[m2] as int == pq.heap@[m2].point_index as int);
                assert(pq.heap@[m1].distance as int
                    == self.data.dist_point_spec(pq.heap@[m1].point_index as int, query@));
                assert(pq.heap@[m2].distance as int
                    == self.data.dist_point_spec(pq.heap@[m2].point_index as int, query@));
            }
            // every row left out is at least as far as every returned row
            assert forall|t: int, m: int|
                0 <= t < n && !#[trigger] contains_local(out@, t) && 0 <= m < out@.len() implies
                self.data.dist_point_spec(t, query@)
                    >= self.data.dist_point_spec(#[trigger] out@[m] as int, query@) by {
                if has_id(pq.heap@, t) {
                    let m0 = choose|m0: int|
                        0 <= m0 < pq.heap@.len() && pq.heap@[m0].point_index == t;
                    assert(out@[m0] as int == pairs@[m0].1);
                    assert(out@[m0] == t);
                    assert(contains_local(out@, t));
                    assert(false);
                }
                assert(pq.heap@.len() > 0);
                assert(self.data.dist_point_spec(t, query@) >= pq.heap@.last().distance);
                assert(le_elem(pq.heap@[m], pq.heap@.last()));
                assert(pq.heap@[m].distance as int
                    == self.data.dist_point_spec(pq.heap@[m].point_index as int, query@));
                assert(out@[m] as int == pairs@[m].1);
            }
        }
        out
    }
}

} // verus!
