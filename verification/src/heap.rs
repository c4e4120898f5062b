//! Bounded top-k buffer: keeps the k closest (distance, point id) pairs seen
//! so far, ordered ascending. The backing store is a sorted vector, so every
//! operation has an exact sequence-level contract.

use vstd::prelude::*;

verus! {

/// One candidate: a fixed-point distance and the id of the point.
#[derive(Debug, Clone, Copy, PartialEq, Eq, Structural)]
pub struct Element {
    pub distance: u64,
    pub point_index: usize,
}

/// Total order on candidates: by distance, ties by point id.
pub open spec fn le_elem(a: Element, b: Element) -> bool {
    a.distance < b.distance || (a.distance == b.distance && a.point_index <= b.point_index)
}

pub open spec fn sorted_elems(s: Seq<Element>) -> bool {
    forall|i: int, j: int| 0 <= i < j < s.len() ==> le_elem(#[trigger] s[i], #[trigger] s[j])
}

/// Position where a new candidate is inserted: after every element that is
/// at most the candidate in the total order.
pub open spec fn insert_pos(s: Seq<Element>, e: Element) -> int
    decreases s.len(),
{
    if s.len() == 0 {
        0
    } else if !le_elem(s[0], e) {
        0
    } else {
        1 + insert_pos(s.drop_first(), e)
    }
}

proof fn lemma_insert_pos_char(s: Seq<Element>, e: Element, i: int)
    requires
        0 <= i <= s.len(),
        forall|m: int| 0 <= m < i ==> le_elem(#[trigger] s[m], e),
        i == s.len() || !le_elem(s[i], e),
    ensures
        insert_pos(s, e) == i,
    decreases s.len(),
{
    if s.len() == 0 {
    } else if !le_elem(s[0], e) {
        assert(i == 0);
    } else {
        assert(le_elem(s[0], e));
        assert(i >= 1);
        let t = s.drop_first();
        assert(forall|m: int| 0 <= m < i - 1 ==> le_elem(#[trigger] t[m], e)) by {
            assert(forall|m: int| 0 <= m < i - 1 ==> t[m] == s[m + 1]);
        }
        assert(i - 1 == t.len() || !le_elem(t[i - 1], e));
        lemma_insert_pos_char(t, e, i - 1);
    }
}

pub proof fn lemma_insert_pos_range(s: Seq<Element>, e: Element)
    ensures
        0 <= insert_pos(s, e) <= s.len(),
    decreases s.len(),
{
    if s.len() == 0 {
    } else if !le_elem(s[0], e) {
    } else {
        lemma_insert_pos_range(s.drop_first(), e);
    }
}

proof fn lemma_insert_pos_props(s: Seq<Element>, e: Element)
    requires
        sorted_elems(s),
    ensures
        0 <= insert_pos(s, e) <= s.len(),
        forall|m: int| 0 <= m < insert_pos(s, e) ==> le_elem(#[trigger] s[m], e),
        forall|m: int| insert_pos(s, e) <= m < s.len() ==> !le_elem(#[trigger] s[m], e),
    decreases s.len(),
{
    lemma_insert_pos_range(s, e);
    if s.len() == 0 {
    } else if !le_elem(s[0], e) {
        assert forall|m: int| 0 <= m < s.len() implies !le_elem(#[trigger] s[m], e) by {
            if m > 0 {
                assert(le_elem(s[0], s[m]));
            }
        }
    } else {
        let t = s.drop_first();
        assert(sorted_elems(t)) by {
            assert(forall|m: int| 0 <= m < t.len() ==> t[m] == s[m + 1]);
        }
        lemma_insert_pos_props(t, e);
        let p = insert_pos(s, e);
        assert(p == 1 + insert_pos(t, e));
        assert forall|m: int| 0 <= m < p implies le_elem(#[trigger] s[m], e) by {
            if m > 0 {
                assert(t[m - 1] == s[m]);
                assert(le_elem(t[m - 1], e));
            }
        }
        assert forall|m: int| p <= m < s.len() implies !le_elem(#[trigger] s[m], e) by {
            assert(t[m - 1] == s[m]);
            assert(!le_elem(t[m - 1], e));
        }
    }
}

/// Inserting at the insertion position keeps the order.
proof fn lemma_insert_sorted(s: Seq<Element>, e: Element)
    requires
        sorted_elems(s),
    ensures
        sorted_elems(s.insert(insert_pos(s, e), e)),
{
    let p = insert_pos(s, e);
    lemma_insert_pos_props(s, e);
    let s2 = s.insert(p, e);
    assert forall|i: int, j: int| 0 <= i < j < s2.len() implies le_elem(#[trigger] s2[i], #[trigger] s2[j]) by {
        if i < p && j < p {
            assert(s2[i] == s[i] && s2[j] == s[j]);
        } else if i < p && j == p {
            assert(s2[i] == s[i] && s2[j] == e);
        } else if i < p && j > p {
            assert(s2[i] == s[i] && s2[j] == s[j - 1]);
        } else if i == p && j > p {
            assert(s2[i] == e && s2[j] == s[j - 1]);
        } else if i > p && j > p {
            assert(s2[i] == s[i - 1] && s2[j] == s[j - 1]);
        }
    }
}

/// How Seq::insert rearranges indices; callers of `add` use this to track
/// which candidates a buffer holds.
pub proof fn lemma_insert_index_facts(s: Seq<Element>, p: int, e: Element)
    requires
        0 <= p <= s.len(),
    ensures
        s.insert(p, e).len() == s.len() + 1,
        s.insert(p, e)[p] == e,
        forall|m: int| 0 <= m < p ==> s.insert(p, e)[m] == s[m],
        forall|m: int| p < m <= s.len() ==> s.insert(p, e)[m] == s[m - 1],
{
    let s2 = s.insert(p, e);
    assert forall|m: int| 0 <= m < p implies s2[m] == s[m] by {
        assert(s2[m] == s.subrange(0, p)[m]);
    }
    assert forall|m: int| p < m <= s.len() implies s2[m] == s[m - 1] by {
        assert(s2[m] == s.subrange(p, s.len() as int)[m - p - 1]);
    }
}

/// What one `add` call does to the candidates a buffer holds: a property of
/// every held element is preserved, distinct point ids stay distinct, and
/// while the buffer is below capacity nothing is ever dropped.
pub proof fn lemma_add_preserves(
    s: Seq<Element>,
    s2: Seq<Element>,
    length: nat,
    e: Element,
    pred: spec_fn(Element) -> bool,
)
    requires
        s.len() < length ==> s2 == s.insert(insert_pos(s, e), e),
        s.len() >= length && length > 0 && e.distance < s.last().distance
            ==> s2 == s.drop_last().insert(insert_pos(s.drop_last(), e), e),
        s.len() >= length && length > 0 && e.distance >= s.last().distance ==> s2 == s,
        length == 0 ==> s2 == s,
        forall|m: int| 0 <= m < s.len() ==> pred(#[trigger] s[m]),
        pred(e),
        forall|m: int| 0 <= m < s.len() ==> (#[trigger] s[m]).point_index != e.point_index,
        forall|m1: int, m2: int| 0 <= m1 < m2 < s.len()
            ==> s[m1].point_index != s[m2].point_index,
    ensures
        forall|m: int| 0 <= m < s2.len() ==> pred(#[trigger] s2[m]),
        forall|m1: int, m2: int| 0 <= m1 < m2 < s2.len()
            ==> s2[m1].point_index != s2[m2].point_index,
        forall|m: int| 0 <= m < s2.len()
            ==> (#[trigger] s2[m]) == e || exists|m0: int| 0 <= m0 < s.len() && s[m0] == s2[m],
        s.len() < length ==> forall|m0: int| 0 <= m0 < s.len()
            ==> exists|m: int| 0 <= m < s2.len() && s2[m] == #[trigger] s[m0],
        s.len() < length ==> exists|m: int| 0 <= m < s2.len() && s2[m] == e,
        s.len() >= length && length > 0 && e.distance < s.last().distance && sorted_elems(s)
            ==> forall|m0: int| 0 <= m0 < s.len() - 1
                ==> exists|m: int| 0 <= m < s2.len() && s2[m] == #[trigger] s[m0],
        s.len() >= length && length > 0 && e.distance < s.last().distance
            ==> exists|m: int| 0 <= m < s2.len() && s2[m] == e,
        s.len() >= length && length > 0 && sorted_elems(s) && s2.len() > 0
            ==> s2.last().distance <= s.last().distance,
{
    if s.len() < length {
        let p = insert_pos(s, e);
        lemma_insert_pos_range(s, e);
        lemma_insert_index_facts(s, p, e);
        assert forall|m: int| 0 <= m < s2.len() implies pred(#[trigger] s2[m]) by {
            if m < p {
                assert(s2[m] == s[m]);
            } else if m == p {
                assert(s2[m] == e);
            } else {
                assert(s2[m] == s[m - 1]);
            }
        }
        assert forall|m1: int, m2: int| 0 <= m1 < m2 < s2.len() implies
            s2[m1].point_index != s2[m2].point_index by {
            if m1 < p {
                assert(s2[m1] == s[m1]);
            } else if m1 == p {
                assert(s2[m1] == e);
            } else {
                assert(s2[m1] == s[m1 - 1]);
            }
            if m2 < p {
                assert(s2[m2] == s[m2]);
            } else if m2 == p {
                assert(s2[m2] == e);
            } else {
                assert(s2[m2] == s[m2 - 1]);
            }
        }
        assert forall|m: int| 0 <= m < s2.len() implies
            (#[trigger] s2[m]) == e
                || exists|m0: int| 0 <= m0 < s.len() && s[m0] == s2[m] by {
            if m < p {
                assert(s[m] == s2[m]);
            } else if m > p {
                assert(s[m - 1] == s2[m]);
            }
        }
        assert forall|m0: int| 0 <= m0 < s.len() implies
            exists|m: int| 0 <= m < s2.len() && s2[m] == #[trigger] s[m0] by {
            if m0 < p {
                assert(s2[m0] == s[m0]);
            } else {
                assert(s2[m0 + 1] == s[m0]);
            }
        }
        assert(s2[p] == e);
    } else if length > 0 && e.distance < s.last().distance {
        let t = s.drop_last();
        assert(forall|m: int| 0 <= m < t.len() ==> t[m] == s[m]);
        let p = insert_pos(t, e);
        lemma_insert_pos_range(t, e);
        lemma_insert_index_facts(t, p, e);
        assert forall|m: int| 0 <= m < s2.len() implies pred(#[trigger] s2[m]) by {
            if m < p {
                assert(s2[m] == t[m]);
            } else if m == p {
                assert(s2[m] == e);
            } else {
                assert(s2[m] == t[m - 1]);
            }
        }
        assert forall|m1: int, m2: int| 0 <= m1 < m2 < s2.len() implies
            s2[m1].point_index != s2[m2].point_index by {
            if m1 < p {
                assert(s2[m1] == t[m1]);
            } else if m1 == p {
                assert(s2[m1] == e);
            } else {
                assert(s2[m1] == t[m1 - 1]);
            }
            if m2 < p {
                assert(s2[m2] == t[m2]);
            } else if m2 == p {
                assert(s2[m2] == e);
            } else {
                assert(s2[m2] == t[m2 - 1]);
            }
        }
        assert forall|m: int| 0 <= m < s2.len() implies
            (#[trigger] s2[m]) == e
                || exists|m0: int| 0 <= m0 < s.len() && s[m0] == s2[m] by {
            if m < p {
                assert(s[m] == s2[m]);
            } else if m > p {
                assert(s[m - 1] == s2[m]);
            }
        }
        assert(s2[p] == e);
        if sorted_elems(s) {
            assert forall|m0: int| 0 <= m0 < s.len() - 1 implies
                exists|m: int| 0 <= m < s2.len() && s2[m] == #[trigger] s[m0] by {
                assert(t[m0] == s[m0]);
                if m0 < p {
                    assert(s2[m0] == t[m0]);
                } else {
                    assert(s2[m0 + 1] == t[m0]);
                }
            }
            assert(s2.last().distance <= s.last().distance) by {
                let lastm = s2.len() - 1;
                if lastm < p {
                    assert(s2[lastm] == t[lastm]);
                    assert(le_elem(s[lastm], s.last()));
                } else if lastm == p {
                    assert(s2[lastm] == e);
                } else {
                    assert(s2[lastm] == t[lastm - 1]);
                    assert(le_elem(s[lastm - 1], s.last()));
                }
            }
        }
    } else {
    }
}

/// A max-kept-out buffer of the k closest candidates, sorted ascending.
pub struct TopKClosestHeap {
    pub heap: Vec<Element>,
    pub length: usize,
}

impl TopKClosestHeap {
    pub open spec fn view_spec(&self) -> Seq<Element> {
        self.heap@
    }

    pub open spec fn wf(&self) -> bool {
        &&& sorted_elems(self.heap@)
        &&& self.heap@.len() <= self.length
    }

    /// An empty buffer of capacity top_n.
    pub fn new(top_n: usize) -> (r: TopKClosestHeap)
        ensures
            r.wf(),
            r.length == top_n,
            r.heap@ =~= Seq::<Element>::empty(),
    {
        TopKClosestHeap { heap: Vec::new(), length: top_n }
    }

    fn find_pos(&self, e: &Element) -> (r: usize)
        requires
            self.wf(),
        ensures
            r as int == insert_pos(self.heap@, *e),
    {
        let n = self.heap.len();
        let mut i: usize = 0;
        while i < n
            invariant
                self.wf(),
                n == self.heap@.len(),
                i <= n,
                forall|m: int| 0 <= m < i ==> le_elem(#[trigger] self.heap@[m], *e),
            decreases n - i,
        {
            let c = &self.heap[i];
            if c.distance < e.distance || (c.distance == e.distance && c.point_index <= e.point_index) {
                i += 1;
            } else {
                proof {
                    lemma_insert_pos_char(self.heap@, *e, i as int);
                }
                return i;
            }
        }
        proof {
            lemma_insert_pos_char(self.heap@, *e, n as int);
        }
        n
    }

    /// Offers a candidate. If the buffer is not full it is accepted; if it is
    /// full and strictly closer than the current worst, it replaces the
    /// worst; otherwise it is rejected.
    pub fn add(&mut self, element: Element) -> (r: bool)
        requires
            old(self).wf(),
        ensures
            final(self).wf(),
            final(self).length == old(self).length,
            ({
                let s = old(self).heap@;
                let s2 = final(self).heap@;
                &&& (s.len() < old(self).length ==> {
                    &&& r == true
                    &&& s2 == s.insert(insert_pos(s, element), element)
                    &&& s2.len() == s.len() + 1
                })
                &&& (s.len() >= old(self).length && old(self).length > 0
                        && element.distance < s.last().distance ==> {
                    &&& r == true
                    &&& s2 == s.drop_last().insert(insert_pos(s.drop_last(), element), element)
                    &&& s2.len() == s.len()
                })
                &&& (s.len() >= old(self).length && old(self).length > 0
                        && element.distance >= s.last().distance ==> {
                    &&& r == false
                    &&& s2 == s
                })
                &&& (old(self).length == 0 ==> r == true && s2 == s)
            }),
    {
        let len = self.heap.len();
        if len < self.length {
            let p = self.find_pos(&element);
            proof {
                lemma_insert_pos_range(self.heap@, element);
                lemma_insert_sorted(self.heap@, element);
            }
            self.heap.insert(p, element);
            true
        } else if len > 0 {
            let worst = self.heap[len - 1].distance;
            if element.distance < worst {
                let ghost s = self.heap@;
                self.heap.pop();
                proof {
                    assert(self.heap@ =~= s.drop_last());
                    assert(sorted_elems(self.heap@)) by {
                        assert(forall|m: int| 0 <= m < s.len() - 1 ==> self.heap@[m] == s[m]);
                    }
                }
                let p = self.find_pos(&element);
                proof {
                    lemma_insert_pos_range(self.heap@, element);
                    lemma_insert_sorted(self.heap@, element);
                }
                self.heap.insert(p, element);
                true
            } else {
                false
            }
        } else {
            true
        }
    }

    /// How many candidates the buffer currently holds.
    pub fn len(&self) -> (r: usize)
        ensures
            r == self.heap@.len(),
    {
        self.heap.len()
    }

    /// The current worst retained candidate, if any: its id and distance.
    pub fn get_top(&self) -> (r: Option<(usize, u64)>)
        requires
            self.wf(),
        ensures
            match r {
                Some(t) => self.heap@.len() > 0 && t.0 == self.heap@.last().point_index
                    && t.1 == self.heap@.last().distance,
                None => self.heap@.len() == 0,
            },
    {
        let len = self.heap.len();
        if len == 0 {
            None
        } else {
            let e = &self.heap[len - 1];
            Some((e.point_index, e.distance))
        }
    }

    /// The retained candidates, ascending by distance.
    pub fn to_list(&self) -> (r: Vec<(u64, usize)>)
        requires
            self.wf(),
        ensures
            r@.len() == self.heap@.len(),
            forall|m: int| 0 <= m < r@.len()
                ==> #[trigger] r@[m] == (self.heap@[m].distance, self.heap@[m].point_index),
    {
        let mut out: Vec<(u64, usize)> = Vec::new();
        let mut i: usize = 0;
        let n = self.heap.len();
        while i < n
            invariant
                self.wf(),
                n == self.heap@.len(),
                i <= n,
                out@.len() == i,
                forall|m: int| 0 <= m < i
                    ==> #[trigger] out@[m] == (self.heap@[m].distance, self.heap@[m].point_index),
            decreases n - i,
        {
            let e = &self.heap[i];
            out.push((e.distance, e.point_index));
            i += 1;
        }
        out
    }
}

} // verus!
