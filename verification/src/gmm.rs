//! Greedy farthest-point (minimum-maximum) clustering, the Gonzalez
//! heuristic for the k-center problem.

use vstd::prelude::*;

use crate::metricdata::{AngularData, DIST_SCALE};

verus! {

/// Index of the first maximal value of a non-empty vector.
fn argmax(v: &Vec<u64>) -> (r: usize)
    requires
        v@.len() >= 1,
    ensures
        r < v@.len(),
        forall|m: int| 0 <= m < v@.len() ==> #[trigger] v@[m] <= v@[r as int],
        forall|m: int| 0 <= m < r ==> #[trigger] v@[m] < v@[r as int],
{
    let mut i: usize = 0;
    let mut best: u64 = v[0];
    let mut idx: usize = 1;
    while idx < v.len()
        invariant
            v@.len() >= 1,
            i < idx <= v@.len(),
            best == v@[i as int],
            forall|m: int| 0 <= m < idx ==> #[trigger] v@[m] <= best,
            forall|m: int| 0 <= m < i ==> #[trigger] v@[m] < best,
        decreases v@.len() - idx,
    {
        if v[idx] > best {
            i = idx;
            best = v[idx];
        }
        idx += 1;
    }
    i
}

/// The distance from row i to its nearest among the first j chosen centers.
pub open spec fn min_dist_to(data: AngularData, centers: Seq<usize>, j: int, i: int) -> int
    decreases j,
{
    if j <= 1 {
        data.dist_spec(i, centers[0] as int)
    } else {
        let m = min_dist_to(data, centers, j - 1, i);
        let d = data.dist_spec(i, centers[j - 1] as int);
        if d < m {
            d
        } else {
            m
        }
    }
}

/// min_dist_to reads only the first j centers.
proof fn lemma_min_dist_prefix(data: AngularData, c1: Seq<usize>, c2: Seq<usize>, j: int, i: int)
    requires
        1 <= j <= c1.len(),
        j <= c2.len(),
        forall|t: int| 0 <= t < j ==> c1[t] == c2[t],
    ensures
        min_dist_to(data, c1, j, i) == min_dist_to(data, c2, j, i),
    decreases j,
{
    if j > 1 {
        lemma_min_dist_prefix(data, c1, c2, j - 1, i);
    }
}

/// The contract of the clusterer: min(k, n) centers drawn from the dataset,
/// an assignment of every point to a center, and per-center radii that bound
/// the distance from each center to each point assigned to it. For n > k
/// the selection itself is pinned: each further center is a row farthest
/// from the chosen ones, ties broken by the lowest row id, and each row is
/// assigned to the earliest of its nearest chosen centers.
pub open spec fn gmm_post(
    data: AngularData,
    k: int,
    centers: Seq<usize>,
    assignment: Seq<usize>,
    radius: Seq<u64>,
) -> bool {
    let n = data.n_spec() as int;
    &&& centers.len() == if n <= k {
        n
    } else {
        k
    }
    &&& assignment.len() == n
    &&& radius.len() == centers.len()
    &&& forall|c: int| 0 <= c < centers.len() ==> #[trigger] centers[c] < n
    &&& forall|i: int| 0 <= i < n ==> #[trigger] assignment[i] < centers.len()
    &&& forall|i: int| 0 <= i < n
        ==> data.dist_spec(#[trigger] centers[assignment[i] as int] as int, i)
            <= radius[assignment[i] as int]
    &&& forall|c: int| 0 <= c < radius.len() ==> #[trigger] radius[c] <= 2 * DIST_SCALE
    &&& forall|i: int, c: int|
        0 <= i < n && 0 <= c < centers.len()
            ==> data.dist_spec(i, centers[#[trigger] assignment[i] as int] as int)
                <= data.dist_spec(i, #[trigger] centers[c] as int)
    &&& forall|c: int| 0 <= c < radius.len()
        ==> #[trigger] radius[c] == 0 || exists|i: int|
            0 <= i < n && #[trigger] assignment[i] == c
                && data.dist_spec(i, centers[c] as int) == radius[c] as int
    &&& (n > k ==> centers[0] == 0)
    &&& (n > k ==> forall|j: int, i: int| 1 <= j < centers.len() && 0 <= i < n
        ==> #[trigger] min_dist_to(data, centers, j, i)
            <= min_dist_to(data, centers, j, #[trigger] centers[j] as int))
    &&& (n > k ==> forall|j: int, i: int| 1 <= j < centers.len() && 0 <= i < centers[j]
        ==> #[trigger] min_dist_to(data, centers, j, i)
            < min_dist_to(data, centers, j, #[trigger] centers[j] as int))
    &&& (n > k ==> forall|i: int, c: int| 0 <= i < n && 0 <= c < assignment[i]
        ==> data.dist_spec(i, #[trigger] centers[c] as int)
            > data.dist_spec(i, centers[#[trigger] assignment[i] as int] as int))
    &&& (n <= k ==> (forall|i: int| 0 <= i < n ==> #[trigger] centers[i] == i)
        && (forall|i: int| 0 <= i < n ==> #[trigger] assignment[i] == i)
        && (forall|i: int| 0 <= i < n ==> #[trigger] radius[i] as int == data.dist_spec(i, i)))
}

/// Greedy minimum-maximum clustering.
///
/// Returns (centers, assignment, radius): centers are row ids of the
/// dataset; assignment maps every row to a position in centers; radius[c]
/// bounds the distance from center c to every row assigned to it. If the
/// dataset has at most k points every point is its own center; otherwise
/// row 0 seeds the centers and each further center is the row farthest from
/// the centers chosen so far, ties broken by the lowest row id.
pub fn greedy_minimum_maximum(data: &AngularData, k: usize) -> (r: (Vec<usize>, Vec<usize>, Vec<u64>))
    requires
        data.wf(),
        data.n_spec() >= 1,
        k >= 1,
    ensures
        gmm_post(*data, k as int, r.0@, r.1@, r.2@),
{
    let n = data.num_points();
    if n <= k {
        // Every point is its own center; the radius of the singleton cluster
        // is the distance of the point to itself, which is zero for every
        // point with a nonzero norm.
        let mut centers: Vec<usize> = Vec::new();
        let mut assignment: Vec<usize> = Vec::new();
        let mut radius: Vec<u64> = Vec::new();
        let mut i: usize = 0;
        while i < n
            invariant
                data.wf(),
                n == data.n_spec(),
                i <= n,
                centers@.len() == i,
                assignment@.len() == i,
                radius@.len() == i,
                forall|m: int| 0 <= m < i ==> #[trigger] centers@[m] == m,
                forall|m: int| 0 <= m < i ==> #[trigger] assignment@[m] == m,
                forall|m: int| 0 <= m < i ==> #[trigger] radius@[m] as int == data.dist_spec(m, m),
                forall|m: int| 0 <= m < i ==> #[trigger] radius@[m] <= 2 * DIST_SCALE,
            decreases n - i,
        {
            centers.push(i);
            assignment.push(i);
            let d = data.distance(i, i);
            proof {
                AngularData::lemma_dist_range(
                    data.rows()[i as int],
                    data.norms@[i as int] as nat,
                    data.rows()[i as int],
                );
            }
            radius.push(d);
            i += 1;
        }
        proof {
            assert forall|i2: int| 0 <= i2 < n implies
                data.dist_spec(#[trigger] centers@[assignment@[i2] as int] as int, i2)
                    <= radius@[assignment@[i2] as int] by {
                assert(assignment@[i2] == i2);
                assert(centers@[i2] == i2);
                assert(radius@[i2] as int == data.dist_spec(i2, i2));
            }
            // each point is its own nearest center: its self-distance is 0,
            // or 1 for a zero-norm row, which is then 1 from every center
            assert forall|i2: int, c: int| 0 <= i2 < n && 0 <= c < centers@.len() implies
                data.dist_spec(i2, centers@[#[trigger] assignment@[i2] as int] as int)
                    <= data.dist_spec(i2, #[trigger] centers@[c] as int) by {
                assert(assignment@[i2] == i2 && centers@[i2] == i2 && centers@[c] == c);
                let rowi = data.rows()[i2];
                let ni = data.norms@[i2] as nat;
                AngularData::lemma_self_dist(rowi, ni);
                if ni == 0 {
                    AngularData::lemma_zero_norm_row(rowi, data.rows()[c]);
                } else {
                    AngularData::lemma_dist_range(rowi, ni, data.rows()[c]);
                }
            }
            assert forall|c: int| 0 <= c < radius@.len() implies
                #[trigger] radius@[c] == 0 || exists|i: int|
                    0 <= i < n && #[trigger] assignment@[i] == c
                        && data.dist_spec(i, centers@[c] as int) == radius@[c] as int by {
                if radius@[c] != 0 {
                    assert(assignment@[c] == c && centers@[c] == c);
                    assert(data.dist_spec(c, centers@[c] as int) == radius@[c] as int);
                }
            }
        }
        return (centers, assignment, radius);
    }

    let mut centers: Vec<usize> = Vec::new();
    centers.push(0);
    let mut distances: Vec<u64> = Vec::new();
    data.all_distances(0, &mut distances);
    let mut new_distances: Vec<u64> = Vec::new();
    let mut assignment: Vec<usize> = vec![0usize; n];

    let mut idx: usize = 1;
    while idx < k
        invariant
            data.wf(),
            n == data.n_spec(),
            1 <= idx <= k,
            k < n,
            centers@.len() == idx,
            centers@[0] == 0,
            distances@.len() == n,
            assignment@.len() == n,
            forall|c: int| 0 <= c < idx ==> #[trigger] centers@[c] < n,
            forall|i: int| 0 <= i < n ==> #[trigger] assignment@[i] < idx,
            forall|i: int| 0 <= i < n
                ==> #[trigger] distances@[i] as int
                    == data.dist_spec(i, centers@[assignment@[i] as int] as int),
            forall|m: int, c: int| 0 <= m < n && 0 <= c < idx
                ==> #[trigger] distances@[m] as int
                    <= data.dist_spec(m, #[trigger] centers@[c] as int),
            forall|m: int| 0 <= m < n
                ==> #[trigger] distances@[m] as int == min_dist_to(*data, centers@, idx as int, m),
            forall|j: int, i: int| 1 <= j < idx && 0 <= i < n
                ==> #[trigger] min_dist_to(*data, centers@, j, i)
                    <= min_dist_to(*data, centers@, j, #[trigger] centers@[j] as int),
            forall|j: int, i: int| 1 <= j < idx && 0 <= i < centers@[j]
                ==> #[trigger] min_dist_to(*data, centers@, j, i)
                    < min_dist_to(*data, centers@, j, #[trigger] centers@[j] as int),
            forall|i: int, c: int| 0 <= i < n && 0 <= c < assignment@[i]
                ==> data.dist_spec(i, #[trigger] centers@[c] as int)
                    > data.dist_spec(i, centers@[#[trigger] assignment@[i] as int] as int),
        decreases k - idx,
    {
        let ghost pre_centers = centers@;
        let farthest = argmax(&distances);
        centers.push(farthest);
        proof {
            // the chosen row is farthest from the centers so far, ties to
            // the lowest row id, and the running distances read the new
            // center list through its unchanged prefix
            assert forall|m: int| 0 <= m < n implies
                #[trigger] distances@[m] as int
                    == min_dist_to(*data, centers@, idx as int, m) by {
                lemma_min_dist_prefix(*data, pre_centers, centers@, idx as int, m);
            }
            assert forall|j: int, i2: int| 1 <= j < idx && 0 <= i2 < n implies
                #[trigger] min_dist_to(*data, centers@, j, i2)
                    <= min_dist_to(*data, centers@, j, #[trigger] centers@[j] as int) by {
                lemma_min_dist_prefix(*data, pre_centers, centers@, j, i2);
                lemma_min_dist_prefix(*data, pre_centers, centers@, j, pre_centers[j] as int);
                assert(min_dist_to(*data, pre_centers, j, i2)
                    <= min_dist_to(*data, pre_centers, j, pre_centers[j] as int));
            }
            assert forall|j: int, i2: int| 1 <= j < idx && 0 <= i2 < centers@[j] implies
                #[trigger] min_dist_to(*data, centers@, j, i2)
                    < min_dist_to(*data, centers@, j, #[trigger] centers@[j] as int) by {
                lemma_min_dist_prefix(*data, pre_centers, centers@, j, i2);
                lemma_min_dist_prefix(*data, pre_centers, centers@, j, pre_centers[j] as int);
                assert(min_dist_to(*data, pre_centers, j, i2)
                    < min_dist_to(*data, pre_centers, j, pre_centers[j] as int));
            }
            assert forall|i2: int| 0 <= i2 < n implies
                #[trigger] min_dist_to(*data, centers@, idx as int, i2)
                    <= min_dist_to(*data, centers@, idx as int, centers@[idx as int] as int) by {
                assert(distances@[i2] <= distances@[farthest as int]);
            }
            assert forall|i2: int| 0 <= i2 < centers@[idx as int] implies
                #[trigger] min_dist_to(*data, centers@, idx as int, i2)
                    < min_dist_to(*data, centers@, idx as int, centers@[idx as int] as int) by {
                assert(distances@[i2] < distances@[farthest as int]);
            }
        }
        data.all_distances(farthest, &mut new_distances);
        let ghost old_assignment = assignment@;
        let mut i: usize = 0;
        while i < n
            invariant
                data.wf(),
                n == data.n_spec(),
                i <= n,
                idx < k < n,
                centers@.len() == idx + 1,
                centers@[idx as int] == farthest,
                farthest < n,
                distances@.len() == n,
                new_distances@.len() == n,
                assignment@.len() == n,
                forall|c: int| 0 <= c < idx + 1 ==> #[trigger] centers@[c] < n,
                forall|m: int| 0 <= m < n
                    ==> #[trigger] new_distances@[m] as int == data.dist_spec(m, farthest as int),
                forall|m: int| 0 <= m < n ==> #[trigger] assignment@[m] < idx + 1,
                forall|m: int| 0 <= m < n
                    ==> #[trigger] distances@[m] as int
                        == data.dist_spec(m, centers@[assignment@[m] as int] as int),
                forall|m: int, c: int| 0 <= m < i && 0 <= c < idx + 1
                    ==> #[trigger] distances@[m] as int
                        <= data.dist_spec(m, #[trigger] centers@[c] as int),
                forall|m: int, c: int| i <= m < n && 0 <= c < idx
                    ==> #[trigger] distances@[m] as int
                        <= data.dist_spec(m, #[trigger] centers@[c] as int),
                forall|m: int| 0 <= m < i
                    ==> #[trigger] distances@[m] as int
                        == min_dist_to(*data, centers@, idx + 1, m),
                forall|m: int| i <= m < n
                    ==> #[trigger] distances@[m] as int
                        == min_dist_to(*data, centers@, idx as int, m),
                forall|j: int, i2: int| 1 <= j <= idx && 0 <= i2 < n
                    ==> #[trigger] min_dist_to(*data, centers@, j, i2)
                        <= min_dist_to(*data, centers@, j, #[trigger] centers@[j] as int),
                forall|j: int, i2: int| 1 <= j <= idx && 0 <= i2 < centers@[j]
                    ==> #[trigger] min_dist_to(*data, centers@, j, i2)
                        < min_dist_to(*data, centers@, j, #[trigger] centers@[j] as int),
                forall|m: int, c: int| 0 <= m < n && 0 <= c < assignment@[m]
                    ==> data.dist_spec(m, #[trigger] centers@[c] as int)
                        > data.dist_spec(
                        m,
                        centers@[#[trigger] assignment@[m] as int] as int,
                    ),
            decreases n - i,
        {
            if new_distances[i] < distances[i] {
                proof {
                    // every earlier center is strictly farther than the new one
                    assert forall|c: int| 0 <= c < idx implies
                        data.dist_spec(i as int, #[trigger] centers@[c] as int)
                            > new_distances@[i as int] as int by {
                        assert(distances@[i as int] as int
                            <= data.dist_spec(i as int, centers@[c] as int));
                    }
                }
                assignment.set(i, idx);
                let nd = new_distances[i];
                distances.set(i, nd);
            }
            i += 1;
        }
        idx += 1;
    }

    proof {
        assert forall|m: int| 0 <= m < n implies #[trigger] distances@[m] <= 2 * DIST_SCALE by {
            let cm = centers@[assignment@[m] as int] as int;
            assert(distances@[m] as int == data.dist_spec(m, cm));
            AngularData::lemma_dist_range(
                data.rows()[m],
                data.norms@[m] as nat,
                data.rows()[cm],
            );
        }
    }
    let mut radius: Vec<u64> = vec![0u64; k];
    let mut i: usize = 0;
    while i < n
        invariant
            n == data.n_spec(),
            i <= n,
            radius@.len() == k,
            distances@.len() == n,
            assignment@.len() == n,
            forall|m: int| 0 <= m < n ==> #[trigger] assignment@[m] < k,
            forall|m: int| 0 <= m < n ==> #[trigger] distances@[m] <= 2 * DIST_SCALE,
            forall|m: int| 0 <= m < i
                ==> #[trigger] distances@[m] <= radius@[assignment@[m] as int],
            forall|c: int| 0 <= c < k ==> #[trigger] radius@[c] <= 2 * DIST_SCALE,
            forall|c: int| 0 <= c < k ==> #[trigger] radius@[c] == 0 || exists|m: int|
                0 <= m < i && #[trigger] assignment@[m] == c && distances@[m] == radius@[c],
        decreases n - i,
    {
        let c = assignment[i];
        if distances[i] > radius[c] {
            let d = distances[i];
            radius.set(c, d);
        }
        i += 1;
    }

    proof {
        assert forall|i2: int| 0 <= i2 < n implies
            data.dist_spec(#[trigger] centers@[assignment@[i2] as int] as int, i2)
                <= radius@[assignment@[i2] as int] by {
            let c = assignment@[i2] as int;
            assert(c < k);
            assert(centers@[c] < n);
            assert(distances@[i2] as int == data.dist_spec(i2, centers@[c] as int));
            assert(distances@[i2] <= radius@[c]);
            data.lemma_dist_symm(i2, centers@[c] as int);
        }
        // every point sits with its nearest chosen center
        assert forall|i2: int, c: int| 0 <= i2 < n && 0 <= c < centers@.len() implies
            data.dist_spec(i2, centers@[#[trigger] assignment@[i2] as int] as int)
                <= data.dist_spec(i2, #[trigger] centers@[c] as int) by {
            assert(distances@[i2] as int
                == data.dist_spec(i2, centers@[assignment@[i2] as int] as int));
            assert(distances@[i2] as int <= data.dist_spec(i2, centers@[c] as int));
        }
        // each radius is achieved by one of the assigned points
        assert forall|c: int| 0 <= c < radius@.len() implies
            #[trigger] radius@[c] == 0 || exists|i2: int|
                0 <= i2 < n && #[trigger] assignment@[i2] == c
                    && data.dist_spec(i2, centers@[c] as int) == radius@[c] as int by {
            if radius@[c] != 0 {
                let m = choose|m: int|
                    0 <= m < n && #[trigger] assignment@[m] == c && distances@[m] == radius@[c];
                assert(distances@[m] as int == data.dist_spec(m, centers@[c] as int));
            }
        }
    }
    (centers, assignment, radius)
}

} // verus!
