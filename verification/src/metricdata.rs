//! The metric data view: an owned table of points with cached norms, under
//! the angular (cosine) metric in exact fixed-point arithmetic.
//!
//! A coordinate is an `i64`; callers pick their own scale when they quantise
//! real-valued data. The cosine distance between two points is returned in
//! millionths (`DIST_SCALE` units), clamped into [0, 2].

use vstd::prelude::*;

use crate::errors::ClusteredIndexError;
use crate::fixed::{isqrt, isqrt_spec, lemma_isqrt_bounds, lemma_isqrt_unique};

verus! {

/// Scale of a fixed-point distance: one unit is one millionth.
pub const DIST_SCALE: u64 = 1_000_000;

/// Largest coordinate magnitude the view accepts.
pub const COORD_LIMIT: i64 = 1_000_000_000_000;

/// Largest dimension the view accepts.
pub const MAX_DIM: usize = 1_000_000;

/// Dot product of two coordinate rows.
pub open spec fn dot_spec(u: Seq<i64>, v: Seq<i64>) -> int
    decreases u.len(),
{
    if u.len() == 0 || v.len() == 0 {
        0
    } else {
        u.last() * v.last() + dot_spec(u.drop_last(), v.drop_last())
    }
}

pub open spec fn coords_bounded(u: Seq<i64>) -> bool {
    forall|i: int| 0 <= i < u.len() ==> -(COORD_LIMIT as int) <= #[trigger] u[i] <= COORD_LIMIT as int
}

/// Cached norm of a row: the integer square root of its squared norm.
pub open spec fn norm_spec(u: Seq<i64>) -> nat {
    isqrt_spec(dot_spec(u, u) as nat)
}

proof fn lemma_take_drop_last<A>(u: Seq<A>, m: int)
    requires
        0 <= m < u.len(),
    ensures
        u.take(m + 1).drop_last() =~= u.take(m),
        u.take(m + 1).last() == u[m],
{
}

/// The dot product of bounded rows is bounded by len * limit^2.
pub proof fn lemma_dot_bound(u: Seq<i64>, v: Seq<i64>)
    requires
        coords_bounded(u),
        coords_bounded(v),
        u.len() == v.len(),
    ensures
        -(u.len() as int) * (COORD_LIMIT as int) * (COORD_LIMIT as int) <= dot_spec(u, v),
        dot_spec(u, v) <= (u.len() as int) * (COORD_LIMIT as int) * (COORD_LIMIT as int),
    decreases u.len(),
{
    let l = COORD_LIMIT as int;
    if u.len() == 0 {
    } else {
        assert(coords_bounded(u.drop_last())) by {
            assert(forall|i: int| 0 <= i < u.len() - 1 ==> u.drop_last()[i] == u[i]);
        }
        assert(coords_bounded(v.drop_last())) by {
            assert(forall|i: int| 0 <= i < v.len() - 1 ==> v.drop_last()[i] == v[i]);
        }
        lemma_dot_bound(u.drop_last(), v.drop_last());
        let a = u.last();
        let b = v.last();
        assert(-(l * l) <= a * b <= l * l) by (nonlinear_arith)
            requires -l <= a <= l, -l <= b <= l, l >= 0;
        let n1 = u.len() as int - 1;
        assert(n1 * l * l + l * l == (n1 + 1) * l * l) by (nonlinear_arith);
        assert(-(n1 * l * l) - l * l == -((n1 + 1) * l * l)) by (nonlinear_arith);
    }
}

/// The squared norm of a row is non-negative.
pub proof fn lemma_sqnorm_nonneg(u: Seq<i64>)
    ensures
        dot_spec(u, u) >= 0,
    decreases u.len(),
{
    if u.len() == 0 {
    } else {
        lemma_sqnorm_nonneg(u.drop_last());
        let a = u.last();
        assert(a * a >= 0) by (nonlinear_arith);
    }
}

pub proof fn lemma_dot_symm(u: Seq<i64>, v: Seq<i64>)
    ensures
        dot_spec(u, v) == dot_spec(v, u),
    decreases u.len(),
{
    if u.len() == 0 || v.len() == 0 {
    } else {
        lemma_dot_symm(u.drop_last(), v.drop_last());
    }
}

/// Norm of a bounded row of dimension at most MAX_DIM fits well under 2^53.
pub proof fn lemma_norm_bound(u: Seq<i64>)
    requires
        coords_bounded(u),
        u.len() <= MAX_DIM,
    ensures
        0 <= norm_spec(u) <= 1_000_000_000_000_000,
{
    let l = COORD_LIMIT as int;
    lemma_sqnorm_nonneg(u);
    lemma_dot_bound(u, u);
    let sq = dot_spec(u, u) as nat;
    assert((u.len() as int) * l * l <= (MAX_DIM as int) * l * l) by (nonlinear_arith)
        requires 0 <= u.len() as int <= MAX_DIM as int, l >= 0;
    lemma_isqrt_bounds(sq);
    let r = isqrt_spec(sq);
    assert(r <= 1_000_000_000_000_000) by (nonlinear_arith)
        requires
            r * r <= sq,
            sq <= (MAX_DIM as int) * l * l,
            l == 1_000_000_000_000int,
            MAX_DIM == 1_000_000int;
}

/// What the view accepts: rectangular rows of one dimension at most
/// MAX_DIM, every coordinate within COORD_LIMIT.
pub open spec fn rows_acceptable(rows: Seq<Seq<i64>>) -> bool {
    let d = if rows.len() > 0 {
        rows[0].len()
    } else {
        0
    };
    &&& d <= MAX_DIM
    &&& forall|i: int| 0 <= i < rows.len() ==> (#[trigger] rows[i]).len() == d
    &&& forall|i: int| 0 <= i < rows.len() ==> coords_bounded(#[trigger] rows[i])
}

/// An owned view over points of one dimension under the angular metric.
pub struct AngularData {
    pub data: Vec<Vec<i64>>,
    pub norms: Vec<u64>,
    pub dims: usize,
}

impl AngularData {
    /// The rows of the view, as mathematical sequences.
    pub open spec fn rows(&self) -> Seq<Seq<i64>> {
        self.data@.map_values(|r: Vec<i64>| r@)
    }

    /// Well-formedness: consistent dimensions, bounded coordinates, and a
    /// correctly cached norm per row.
    pub open spec fn wf(&self) -> bool {
        &&& self.dims <= MAX_DIM
        &&& self.norms@.len() == self.data@.len()
        &&& forall|i: int| 0 <= i < self.data@.len() ==> (#[trigger] self.rows()[i]).len() == self.dims
        &&& forall|i: int| 0 <= i < self.data@.len() ==> coords_bounded(#[trigger] self.rows()[i])
        &&& forall|i: int| 0 <= i < self.data@.len() ==> #[trigger] self.norms@[i] as nat == norm_spec(self.rows()[i])
    }

    pub open spec fn n_spec(&self) -> nat {
        self.data@.len()
    }

    pub open spec fn dims_spec(&self) -> nat {
        self.dims as nat
    }

    /// Fixed-point cosine distance between a stored row and an arbitrary
    /// bounded query row, given the stored row's cached norm.
    ///
    /// With p the product of the norms: 1 - dot/p, scaled by DIST_SCALE and
    /// clamped into [0, 2 * DIST_SCALE]; if either norm is zero the distance
    /// is DIST_SCALE (the distance of orthogonal vectors).
    pub open spec fn dist_to_query_spec(row: Seq<i64>, row_norm: nat, q: Seq<i64>) -> int {
        let p = row_norm * norm_spec(q);
        let d = dot_spec(row, q);
        if p == 0 {
            DIST_SCALE as int
        } else if d >= p {
            0
        } else {
            let v = (p - d) * (DIST_SCALE as int) / (p as int);
            if v > 2 * (DIST_SCALE as int) {
                2 * (DIST_SCALE as int)
            } else {
                v
            }
        }
    }

    /// Distance between stored rows i and j.
    pub open spec fn dist_spec(&self, i: int, j: int) -> int {
        Self::dist_to_query_spec(self.rows()[i], self.norms@[i] as nat, self.rows()[j])
    }

    /// Distance between stored row i and an external query point.
    pub open spec fn dist_point_spec(&self, i: int, q: Seq<i64>) -> int {
        Self::dist_to_query_spec(self.rows()[i], self.norms@[i] as nat, q)
    }

    /// Every distance lies in [0, 2] in DIST_SCALE units.
    pub proof fn lemma_dist_range(row: Seq<i64>, row_norm: nat, q: Seq<i64>)
        ensures
            0 <= Self::dist_to_query_spec(row, row_norm, q) <= 2 * DIST_SCALE,
    {
        let p = row_norm * norm_spec(q);
        let d = dot_spec(row, q);
        if p == 0 {
        } else if d >= p {
        } else {
            assert(p > 0);
            assert((p - d) * (DIST_SCALE as int) >= 0) by (nonlinear_arith)
                requires p - d >= 0;
            assert((p - d) * (DIST_SCALE as int) / (p as int) >= 0) by (nonlinear_arith)
                requires (p - d) * (DIST_SCALE as int) >= 0, p > 0;
        }
    }

    /// A row is at distance zero from itself, unless its norm is zero, in
    /// which case it is at distance one from everything, itself included.
    pub proof fn lemma_self_dist(row: Seq<i64>, row_norm: nat)
        requires
            row_norm == norm_spec(row),
        ensures
            Self::dist_to_query_spec(row, row_norm, row) == if row_norm == 0 {
                DIST_SCALE as int
            } else {
                0
            },
    {
        let sq = dot_spec(row, row);
        lemma_sqnorm_nonneg(row);
        lemma_isqrt_bounds(sq as nat);
        if row_norm == 0 {
            assert(row_norm * norm_spec(row) == 0) by (nonlinear_arith)
                requires row_norm == 0;
        } else {
            assert(row_norm * row_norm <= sq);
            assert(row_norm * norm_spec(row) == row_norm * row_norm);
            assert(row_norm * row_norm > 0) by (nonlinear_arith)
                requires row_norm > 0;
        }
    }

    /// A row with a zero cached norm is at distance one from every query.
    pub proof fn lemma_zero_norm_row(row: Seq<i64>, q: Seq<i64>)
        ensures
            Self::dist_to_query_spec(row, 0, q) == DIST_SCALE as int,
    {
        assert(0nat * norm_spec(q) == 0) by (nonlinear_arith);
    }

    /// The distance of a row to itself as a query is symmetric in the rows.
    pub proof fn lemma_dist_symm(&self, i: int, j: int)
        requires
            self.wf(),
            0 <= i < self.n_spec(),
            0 <= j < self.n_spec(),
        ensures
            self.dist_spec(i, j) == self.dist_spec(j, i),
    {
        lemma_dot_symm(self.rows()[i], self.rows()[j]);
        assert(self.norms@[i] as nat == norm_spec(self.rows()[i]));
        assert(self.norms@[j] as nat == norm_spec(self.rows()[j]));
        assert((self.norms@[i] as nat) * (self.norms@[j] as nat)
            == (self.norms@[j] as nat) * (self.norms@[i] as nat)) by (nonlinear_arith);
    }

    /// Number of points.
    pub fn num_points(&self) -> (r: usize)
        ensures
            r == self.n_spec(),
    {
        self.data.len()
    }

    /// Dimension of every point.
    pub fn dimensions(&self) -> (r: usize)
        ensures
            r == self.dims_spec(),
    {
        self.dims
    }

    /// Borrow row i.
    pub fn get_point(&self, i: usize) -> (r: &Vec<i64>)
        requires
            i < self.n_spec(),
        ensures
            r@ == self.rows()[i as int],
    {
        &self.data[i]
    }

    /// Builds a view from raw rows: every row must have the same dimension,
    /// at most MAX_DIM, with coordinates bounded by COORD_LIMIT. Norms are
    /// cached on construction.
    pub fn new(rows: Vec<Vec<i64>>) -> (r: Result<AngularData, ClusteredIndexError>)
        ensures
            match r {
                Ok(d) => {
                    &&& d.wf()
                    &&& d.rows() == rows@.map_values(|v: Vec<i64>| v@)
                    &&& d.n_spec() == rows@.len()
                    &&& rows@.len() > 0 ==> d.dims_spec() == rows@[0]@.len()
                },
                Err(e) => e is DataError,
            },
            r is Ok <==> rows_acceptable(rows@.map_values(|v: Vec<i64>| v@)),
    {
        let ghost rows_view = rows@.map_values(|v: Vec<i64>| v@);
        let dims: usize = if rows.len() > 0 {
            rows[0].len()
        } else {
            0
        };
        if dims > MAX_DIM {
            return Err(ClusteredIndexError::DataError("dimension too large".to_string()));
        }
        let mut norms: Vec<u64> = Vec::new();
        let mut i: usize = 0;
        while i < rows.len()
            invariant
                i <= rows@.len(),
                norms@.len() == i,
                dims <= MAX_DIM,
                rows_view == rows@.map_values(|v: Vec<i64>| v@),
                rows@.len() > 0 ==> dims as int == rows_view[0].len(),
                forall|m: int| 0 <= m < i ==> (#[trigger] rows_view[m]).len() == dims,
                forall|m: int| 0 <= m < i ==> coords_bounded(#[trigger] rows_view[m]),
                forall|m: int| 0 <= m < i ==> #[trigger] norms@[m] as nat == norm_spec(rows_view[m]),
            decreases rows@.len() - i,
        {
            let row = &rows[i];
            if row.len() != dims {
                proof {
                    assert(!rows_acceptable(rows_view)) by {
                        assert(rows_view[i as int] == rows@[i as int]@);
                        assert(rows_view[i as int].len() != rows_view[0].len());
                    }
                }
                return Err(ClusteredIndexError::DataError("ragged rows".to_string()));
            }
            // validate coordinate bounds
            let mut m: usize = 0;
            while m < row.len()
                invariant
                    m <= row@.len(),
                    row@ == rows_view[i as int],
                    i < rows_view.len(),
                    rows_view == rows@.map_values(|v: Vec<i64>| v@),
                    forall|t: int| 0 <= t < m ==> -(COORD_LIMIT as int) <= #[trigger] row@[t] <= COORD_LIMIT as int,
                decreases row@.len() - m,
            {
                let c = row[m];
                if c < -COORD_LIMIT || c > COORD_LIMIT {
                    proof {
                        assert(!rows_acceptable(rows_view)) by {
                            assert(rows_view[i as int][m as int] == c);
                            assert(!coords_bounded(rows_view[i as int]));
                        }
                    }
                    return Err(ClusteredIndexError::DataError("coordinate out of range".to_string()));
                }
                m += 1;
            }
            assert(coords_bounded(row@));
            let sq = dot_i128(row, row);
            proof {
                lemma_sqnorm_nonneg(row@);
            }
            let norm128 = isqrt(sq as u128);
            proof {
                lemma_norm_bound(row@);
            }
            let norm: u64 = norm128 as u64;
            norms.push(norm);
            i += 1;
        }
        Ok(AngularData { data: rows, norms, dims })
    }

    /// Distance between stored rows i and j.
    pub fn distance(&self, i: usize, j: usize) -> (r: u64)
        requires
            self.wf(),
            i < self.n_spec(),
            j < self.n_spec(),
        ensures
            r as int == self.dist_spec(i as int, j as int),
    {
        let d = dist_to_query(&self.data[i], self.norms[i], &self.data[j], self.norms[j]);
        d
    }

    /// Distance between stored row i and an external query point of the same
    /// dimension with bounded coordinates.
    pub fn distance_point(&self, i: usize, point: &[i64]) -> (r: u64)
        requires
            self.wf(),
            i < self.n_spec(),
            point@.len() == self.dims_spec(),
            coords_bounded(point@),
        ensures
            r as int == self.dist_point_spec(i as int, point@),
    {
        let qsq = dot_slice_i128(point, point);
        proof {
            lemma_sqnorm_nonneg(point@);
        }
        let qn128 = isqrt(qsq as u128);
        proof {
            lemma_norm_bound(point@);
        }
        let qnorm: u64 = qn128 as u64;
        dist_to_query_with_norm(&self.data[i], self.norms[i], point, qnorm)
    }

    /// Writes distance(i, j) for every stored row i into out.
    pub fn all_distances(&self, j: usize, out: &mut Vec<u64>)
        requires
            self.wf(),
            j < self.n_spec(),
        ensures
            final(out)@.len() == self.n_spec(),
            forall|i: int| 0 <= i < self.n_spec() ==> final(out)@[i] as int == self.dist_spec(i, j as int),
    {
        out.clear();
        let n = self.data.len();
        let mut i: usize = 0;
        while i < n
            invariant
                self.wf(),
                j < self.n_spec(),
                n == self.n_spec(),
                i <= n,
                out@.len() == i,
                forall|m: int| 0 <= m < i ==> out@[m] as int == self.dist_spec(m, j as int),
            decreases n - i,
        {
            let d = self.distance(i, j);
            out.push(d);
            i += 1;
        }
    }

    /// A new view holding the selected rows, in the order of `indices`.
    /// Cached norms are copied, not recomputed.
    pub fn subset(&self, indices: &Vec<usize>) -> (r: AngularData)
        requires
            self.wf(),
            forall|m: int| 0 <= m < indices@.len() ==> #[trigger] indices@[m] < self.n_spec(),
        ensures
            r.wf(),
            r.n_spec() == indices@.len(),
            r.dims_spec() == self.dims_spec(),
            forall|m: int| 0 <= m < indices@.len() ==> #[trigger] r.rows()[m] == self.rows()[indices@[m] as int],
    {
        let mut data: Vec<Vec<i64>> = Vec::new();
        let mut norms: Vec<u64> = Vec::new();
        let mut m: usize = 0;
        while m < indices.len()
            invariant
                self.wf(),
                forall|t: int| 0 <= t < indices@.len() ==> #[trigger] indices@[t] < self.n_spec(),
                m <= indices@.len(),
                data@.len() == m,
                norms@.len() == m,
                forall|t: int| 0 <= t < m ==> #[trigger] data@[t]@ == self.rows()[indices@[t] as int],
                forall|t: int| 0 <= t < m ==> #[trigger] norms@[t] == self.norms@[indices@[t] as int],
            decreases indices@.len() - m,
        {
            let idx = indices[m];
            data.push(self.data[idx].clone());
            norms.push(self.norms[idx]);
            m += 1;
        }
        let r = AngularData { data, norms, dims: self.dims };
        proof {
            assert(forall|t: int| 0 <= t < indices@.len()
                ==> #[trigger] r.rows()[t] == self.rows()[indices@[t] as int]);
        }
        r
    }
}

/// Dot product of two equal-length bounded rows, exact in i128.
fn dot_i128(u: &Vec<i64>, v: &Vec<i64>) -> (r: i128)
    requires
        u@.len() == v@.len(),
        u@.len() <= MAX_DIM,
        coords_bounded(u@),
        coords_bounded(v@),
    ensures
        r as int == dot_spec(u@, v@),
{
    dot_slice_i128(u.as_slice(), v.as_slice())
}

/// Dot product over slices.
fn dot_slice_i128(u: &[i64], v: &[i64]) -> (r: i128)
    requires
        u@.len() == v@.len(),
        u@.len() <= MAX_DIM,
        coords_bounded(u@),
        coords_bounded(v@),
    ensures
        r as int == dot_spec(u@, v@),
{
    let n = u.len();
    let mut acc: i128 = 0;
    let mut m: usize = 0;
    while m < n
        invariant
            n == u@.len(),
            u@.len() == v@.len(),
            u@.len() <= MAX_DIM,
            coords_bounded(u@),
            coords_bounded(v@),
            m <= n,
            acc as int == dot_spec(u@.take(m as int), v@.take(m as int)),
            -(m as int) * (COORD_LIMIT as int) * (COORD_LIMIT as int) <= acc as int,
            acc as int <= (m as int) * (COORD_LIMIT as int) * (COORD_LIMIT as int),
        decreases n - m,
    {
        let a = u[m];
        let b = v[m];
        proof {
            let l = COORD_LIMIT as int;
            assert(-l <= a as int <= l && -l <= b as int <= l);
            assert(-(l * l) <= (a as int) * (b as int) <= l * l) by (nonlinear_arith)
                requires -l <= a as int <= l, -l <= b as int <= l, l >= 0;
            assert((m as int) * l * l + l * l == (m as int + 1) * l * l) by (nonlinear_arith);
            assert((m as int + 1) * l * l <= (MAX_DIM as int) * l * l) by (nonlinear_arith)
                requires m as int + 1 <= MAX_DIM as int, l >= 0;
            lemma_take_drop_last(u@, m as int);
            lemma_take_drop_last(v@, m as int);
        }
        let prod: i128 = (a as i128) * (b as i128);
        acc = acc + prod;
        m += 1;
    }
    proof {
        assert(u@.take(n as int) =~= u@);
        assert(v@.take(n as int) =~= v@);
    }
    acc
}

/// Fixed-point cosine distance of a stored row (with cached norm) to a query
/// row whose norm is already known.
fn dist_to_query_with_norm(row: &Vec<i64>, row_norm: u64, q: &[i64], q_norm: u64) -> (r: u64)
    requires
        row@.len() == q@.len(),
        row@.len() <= MAX_DIM,
        coords_bounded(row@),
        coords_bounded(q@),
        row_norm as nat == norm_spec(row@),
        q_norm as nat == norm_spec(q@),
    ensures
        r as int == AngularData::dist_to_query_spec(row@, row_norm as nat, q@),
{
    let d: i128 = dot_slice_i128(row.as_slice(), q);
    proof {
        lemma_norm_bound(row@);
        lemma_norm_bound(q@);
        lemma_dot_bound(row@, q@);
        assert((row_norm as int) * (q_norm as int)
            <= 1_000_000_000_000_000int * 1_000_000_000_000_000int) by (nonlinear_arith)
            requires
                0 <= row_norm as int <= 1_000_000_000_000_000int,
                0 <= q_norm as int <= 1_000_000_000_000_000int;
        assert((row_norm as int) * (q_norm as int) >= 0) by (nonlinear_arith)
            requires row_norm as int >= 0, q_norm as int >= 0;
        let l = COORD_LIMIT as int;
        assert((row@.len() as int) * l * l <= (MAX_DIM as int) * l * l) by (nonlinear_arith)
            requires 0 <= row@.len() as int <= MAX_DIM as int, l >= 0;
    }
    let p: u128 = (row_norm as u128) * (q_norm as u128);
    if p == 0 {
        return DIST_SCALE;
    }
    if d >= 0 && (d as u128) >= p {
        return 0;
    }
    // num = p - d > 0; at most 2 * 10^30
    let num: u128 = if d >= 0 {
        p - (d as u128)
    } else {
        p + ((-d) as u128)
    };
    assert(num as int == p as int - d as int);
    let scaled: u128 = num * (DIST_SCALE as u128);
    proof {
        assert(num * (DIST_SCALE as u128) <= 2_000_000_000_000_000_000_000_000_000_000u128 * 1_000_000u128)
            by (nonlinear_arith)
            requires num <= 2_000_000_000_000_000_000_000_000_000_000u128;
    }
    let v: u128 = scaled / p;
    proof {
        assert(v as int == (p as int - d as int) * (DIST_SCALE as int) / (p as int));
    }
    if v > 2 * (DIST_SCALE as u128) {
        2 * DIST_SCALE
    } else {
        v as u64
    }
}

/// Distance of a stored row to a query row, computing the query norm.
fn dist_to_query(row: &Vec<i64>, row_norm: u64, q: &Vec<i64>, q_norm: u64) -> (r: u64)
    requires
        row@.len() == q@.len(),
        row@.len() <= MAX_DIM,
        coords_bounded(row@),
        coords_bounded(q@),
        row_norm as nat == norm_spec(row@),
        q_norm as nat == norm_spec(q@),
    ensures
        r as int == AngularData::dist_to_query_spec(row@, row_norm as nat, q@),
{
    dist_to_query_with_norm(row, row_norm, q.as_slice(), q_norm)
}

} // verus!
