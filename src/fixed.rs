//! Fixed-point scalars: a real value `v` is held as the integer `v * ONE`.
use vstd::prelude::*;
use vstd::arithmetic::div_mod::{lemma_fundamental_div_mod, lemma_fundamental_div_mod_converse};

verus! {

/// The fixed-point unit: the integer that stands for the real value 1.
pub const ONE: i64 = 65536;

/// Half of the fixed-point unit, used for rounding and for pixel centers.
pub const HALF: i64 = 32768;

/// `v` clamped into `[lo, hi]`.
pub open spec fn clamp(v: int, lo: int, hi: int) -> int {
    if v < lo {
        lo
    } else if v > hi {
        hi
    } else {
        v
    }
}

/// Division rounded towards negative infinity, for a positive divisor.
pub fn floor_div(n: i128, d: i128) -> (q: i128)
    requires
        d > 0,
        n > i128::MIN,
    ensures
        q == n / d,
{
    if n >= 0 {
        n / d
    } else {
        let m: i128 = -n;
        let q0: i128 = m / d;
        proof {
            lemma_fundamental_div_mod(m as int, d as int);
            assert(0 <= m % d < d) by {
                vstd::arithmetic::div_mod::lemma_mod_pos_bound(m as int, d as int);
            }
            assert(q0 * d <= m) by (nonlinear_arith)
                requires
                    m == d * q0 + m % d,
                    0 <= m % d,
            ;
        }
        if q0 * d == m {
            proof {
                assert(n == (-q0) * d + 0) by (nonlinear_arith)
                    requires
                        q0 * d == m,
                        n == -m,
                ;
                lemma_fundamental_div_mod_converse(n as int, d as int, -q0, 0);
            }
            -q0
        } else {
            proof {
                assert(n == (-q0 - 1) * d + (d - m % d)) by (nonlinear_arith)
                    requires
                        m == d * q0 + m % d,
                        n == -m,
                ;
                assert(m % d != 0) by (nonlinear_arith)
                    requires
                        m == d * q0 + m % d,
                        q0 * d != m,
                ;
                lemma_fundamental_div_mod_converse(n as int, d as int, -q0 - 1, d - m % d);
            }
            -q0 - 1
        }
    }
}

/// `r` is the integer square root of `v`: the greatest integer whose square is at most `v`.
pub open spec fn is_isqrt(v: int, r: int) -> bool {
    0 <= r && r * r <= v < (r + 1) * (r + 1)
}

/// The integer square root of a non-negative `v`.
pub open spec fn isqrt_spec(v: int) -> int {
    choose|r: int| is_isqrt(v, r)
}

/// There is only one integer square root.
pub proof fn lemma_isqrt_unique(v: int, r1: int, r2: int)
    requires
        is_isqrt(v, r1),
        is_isqrt(v, r2),
    ensures
        r1 == r2,
{
    if r1 < r2 {
        assert((r1 + 1) * (r1 + 1) <= r2 * r2) by (nonlinear_arith)
            requires
                0 <= r1 < r2,
        ;
    } else if r2 < r1 {
        assert((r2 + 1) * (r2 + 1) <= r1 * r1) by (nonlinear_arith)
            requires
                0 <= r2 < r1,
        ;
    }
}

/// Bound on the values whose square root is taken here.
pub const SQRT_INPUT_LIMIT: u128 = 0x100_0000_0000_0000_0000_0000;

/// The integer square root, by bisection.
pub fn isqrt(v: u128) -> (r: u64)
    requires
        v < SQRT_INPUT_LIMIT,
    ensures
        is_isqrt(v as int, r as int),
        r == isqrt_spec(v as int),
{
    let mut lo: u128 = 0;
    let mut hi: u128 = 0x1000_0000_0000;
    assert(hi * hi == SQRT_INPUT_LIMIT) by (nonlinear_arith)
        requires
            hi == 0x1000_0000_0000u128,
    ;
    while hi - lo > 1
        invariant
            lo < hi <= 0x1000_0000_0000,
            lo * lo <= v < hi * hi,
        decreases hi - lo,
    {
        let mid = lo + (hi - lo) / 2;
        assert(mid * mid <= 0x1000_0000_0000 * 0x1000_0000_0000) by (nonlinear_arith)
            requires
                0 <= mid < 0x1000_0000_0000,
        ;
        if mid * mid <= v {
            lo = mid;
        } else {
            hi = mid;
        }
    }
    assert(hi == lo + 1);
    proof {
        lemma_isqrt_unique(v as int, lo as int, isqrt_spec(v as int));
    }
    lo as u64
}

} // verus!
