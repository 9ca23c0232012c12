//! Flooring integer square root, used wherever the metric takes a root.

use vstd::prelude::*;

verus! {

/// Largest `r` with `r * r <= n` (and 0 for non-positive `n`).
pub open spec fn sqrt_floor(n: int) -> int
    decreases n,
{
    if n <= 0 {
        0
    } else {
        let r = sqrt_floor(n - 1);
        if (r + 1) * (r + 1) <= n {
            r + 1
        } else {
            r
        }
    }
}

pub proof fn lemma_sqrt_floor_props(n: int)
    requires
        n >= 0,
    ensures
        0 <= sqrt_floor(n),
        sqrt_floor(n) * sqrt_floor(n) <= n,
        n < (sqrt_floor(n) + 1) * (sqrt_floor(n) + 1),
    decreases n,
{
    if n > 0 {
        lemma_sqrt_floor_props(n - 1);
        let r = sqrt_floor(n - 1);
        if (r + 1) * (r + 1) <= n {
            assert(n < (r + 2) * (r + 2)) by (nonlinear_arith)
                requires
                    r >= 0,
                    n - 1 < (r + 1) * (r + 1),
            ;
        }
    }
}

pub proof fn lemma_sqrt_floor_unique(n: int, r: int)
    requires
        n >= 0,
        r >= 0,
        r * r <= n,
        n < (r + 1) * (r + 1),
    ensures
        r == sqrt_floor(n),
{
    lemma_sqrt_floor_props(n);
    let q = sqrt_floor(n);
    if q < r {
        assert((q + 1) * (q + 1) <= r * r) by (nonlinear_arith)
            requires
                0 <= q,
                q + 1 <= r,
        ;
    }
    if r < q {
        assert((r + 1) * (r + 1) <= q * q) by (nonlinear_arith)
            requires
                0 <= r,
                r + 1 <= q,
        ;
    }
}

pub proof fn lemma_sqrt_floor_le(n: int, m: int)
    requires
        0 <= n,
        0 <= m,
        n <= m * m,
    ensures
        sqrt_floor(n) <= m,
{
    lemma_sqrt_floor_props(n);
    let q = sqrt_floor(n);
    if q > m {
        assert((m + 1) * (m + 1) <= q * q && m * m < (m + 1) * (m + 1)) by (nonlinear_arith)
            requires
                0 <= m,
                m + 1 <= q,
        ;
    }
}

/// Flooring square root of a 128-bit value by bisection.
pub fn isqrt(n: u128) -> (r: u64)
    ensures
        r as int == sqrt_floor(n as int),
{
    let mut lo: u128 = 0;
    let mut hi: u128 = 18446744073709551616;
    proof {
        assert(n < hi * hi) by (nonlinear_arith)
            requires
                hi == 18446744073709551616,
                n <= u128::MAX,
        ;
    }
    while hi - lo > 1
        invariant
            0 <= lo < hi <= 18446744073709551616,
            lo * lo <= n,
            n < hi * hi,
        decreases hi - lo,
    {
        let mid = lo + (hi - lo) / 2;
        proof {
            assert(mid * mid < u128::MAX) by (nonlinear_arith)
                requires
                    mid < 18446744073709551616,
            ;
        }
        if mid * mid <= n {
            lo = mid;
        } else {
            hi = mid;
        }
    }
    proof {
        assert(hi == lo + 1);
        lemma_sqrt_floor_unique(n as int, lo as int);
        assert(lo < 18446744073709551616);
    }
    lo as u64
}

} // verus!
