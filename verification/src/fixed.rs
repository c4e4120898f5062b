//! Fixed-point numerics: all distances are integers in millionths, and the
//! square roots that the metric and the cluster-count formula need are exact
//! integer square roots.

use vstd::prelude::*;

verus! {

/// Mathematical integer square root: the largest r with r * r <= x.
pub open spec fn isqrt_spec(x: nat) -> nat
    decreases x,
{
    if x < 2 {
        x
    } else {
        let s = 2 * isqrt_spec(x / 4);
        if (s + 1) * (s + 1) <= x {
            s + 1
        } else {
            s
        }
    }
}

/// isqrt_spec is characterised by r * r <= x < (r + 1) * (r + 1).
pub proof fn lemma_isqrt_bounds(x: nat)
    ensures
        isqrt_spec(x) * isqrt_spec(x) <= x,
        x < (isqrt_spec(x) + 1) * (isqrt_spec(x) + 1),
    decreases x,
{
    if x < 2 {
        assert(isqrt_spec(x) == x);
        assert(x * x <= x && x < (x + 1) * (x + 1)) by (nonlinear_arith)
            requires x < 2;
    } else {
        lemma_isqrt_bounds(x / 4);
        let q = isqrt_spec(x / 4);
        let s = 2 * q;
        assert(q * q <= x / 4 && x / 4 < (q + 1) * (q + 1));
        assert(s * s == 4 * (q * q)) by (nonlinear_arith)
            requires s == 2 * q;
        assert(4 * (q * q) <= 4 * (x / 4)) by (nonlinear_arith)
            requires q * q <= x / 4;
        assert(4 * (x / 4) <= x) by (nonlinear_arith);
        assert((s + 2) * (s + 2) == 4 * ((q + 1) * (q + 1))) by (nonlinear_arith)
            requires s == 2 * q;
        assert(x < 4 * ((q + 1) * (q + 1))) by (nonlinear_arith)
            requires x / 4 < (q + 1) * (q + 1);
        if (s + 1) * (s + 1) <= x {
            assert(isqrt_spec(x) == s + 1);
            assert(x < (s + 2) * (s + 2));
        } else {
            assert(isqrt_spec(x) == s);
            assert(s * s <= x);
        }
    }
}

/// Any r with r * r <= x < (r + 1) * (r + 1) equals isqrt_spec(x).
pub proof fn lemma_isqrt_unique(x: nat, r: nat)
    requires
        r * r <= x,
        x < (r + 1) * (r + 1),
    ensures
        r == isqrt_spec(x),
{
    lemma_isqrt_bounds(x);
    let s = isqrt_spec(x);
    if r < s {
        assert((r + 1) * (r + 1) <= s * s) by (nonlinear_arith)
            requires r + 1 <= s;
        assert(false);
    }
    if s < r {
        assert((s + 1) * (s + 1) <= r * r) by (nonlinear_arith)
            requires s + 1 <= r;
        assert(false);
    }
}

/// Integer square root by binary search.
pub fn isqrt(x: u128) -> (r: u128)
    ensures
        r == isqrt_spec(x as nat),
{
    let mut lo: u128 = 0;
    let mut hi: u128 = if x < 0xFFFF_FFFF_FFFF_FFFF {
        x
    } else {
        0xFFFF_FFFF_FFFF_FFFF
    };
    proof {
        assert((hi as int + 1) * (hi as int + 1) > x as int) by (nonlinear_arith)
            requires hi as int >= 0xFFFF_FFFF_FFFF_FFFF || hi as int >= x as int;
    }
    while lo < hi
        invariant
            lo <= hi,
            (lo as int) * (lo as int) <= x as int,
            (hi as int + 1) * (hi as int + 1) > x as int,
            hi <= 0xFFFF_FFFF_FFFF_FFFF,
        decreases hi - lo,
    {
        let mid: u128 = lo + (hi - lo + 1) / 2;
        assert(mid * mid <= 0xFFFF_FFFF_FFFF_FFFF * 0xFFFF_FFFF_FFFF_FFFF) by (nonlinear_arith)
            requires mid <= 0xFFFF_FFFF_FFFF_FFFF;
        if mid * mid <= x {
            lo = mid;
        } else {
            hi = mid - 1;
        }
    }
    proof {
        lemma_isqrt_unique(x as nat, lo as nat);
    }
    lo
}

} // verus!
