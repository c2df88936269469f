//! Fixed-point scale used for all normalized color arithmetic.
//!
//! A normalized channel value `v` in the real interval `[0, 1]` is stored as
//! the integer `v * UNIT`.  `UNIT` is `255 * 400`, so the conversion from an
//! 8-bit channel (`c / 255`) is exact (`c * 400`), and so are the alpha
//! levels `1/4, 1/2, 3/4, 9/10, 1` and the `1/1000` steps of the alpha scan
//! used by the engine.

use vstd::prelude::*;

verus! {

/// The fixed-point representation of the real number one.
pub const UNIT: i64 = 102000;

/// `UNIT / 255`: the fixed-point size of one 8-bit channel step.
pub const CHANNEL_STEP: i64 = 400;

/// Truncating integer square root: the greatest `r` with `r * r <= x`.
pub open spec fn is_sqrt(x: int, r: int) -> bool {
    r >= 0 && r * r <= x && (r + 1) * (r + 1) > x
}

/// The truncating square root as a spec value: the unique `r` with
/// `r * r <= x < (r + 1) * (r + 1)`.
pub open spec fn sqrt_floor(x: int) -> int {
    choose|r: int| is_sqrt(x, r)
}

/// Any witness of `is_sqrt` is the `sqrt_floor`.
pub proof fn lemma_sqrt_floor_of(x: int, r: int)
    requires
        is_sqrt(x, r),
    ensures
        sqrt_floor(x) == r,
{
    let rc = sqrt_floor(x);
    assert(is_sqrt(x, rc));
    assert(rc == r) by (nonlinear_arith)
        requires
            rc >= 0,
            rc * rc <= x,
            (rc + 1) * (rc + 1) > x,
            r >= 0,
            r * r <= x,
            (r + 1) * (r + 1) > x,
    ;
}

/// For a truncating square root, comparing the root against a bound is
/// comparing the radicand against the bound's square.
pub proof fn lemma_isqrt_lt(x: int, r: int, t: int)
    requires
        is_sqrt(x, r),
        t >= 0,
    ensures
        (r < t) <==> (x < t * t),
{
    if r < t {
        assert((r + 1) * (r + 1) <= t * t) by (nonlinear_arith)
            requires
                0 <= r + 1 <= t,
        ;
    }
    if x < t * t {
        assert(r < t) by (nonlinear_arith)
            requires
                r * r <= x,
                x < t * t,
                r >= 0,
                t >= 0,
        ;
    }
}

/// Integer square root by binary search.
pub fn isqrt(x: u64) -> (r: u64)
    ensures
        is_sqrt(x as int, r as int),
{
    if x == 0 {
        return 0;
    }
    let mut lo: u64 = 0;
    // An upper bound with (hi + 1)^2 > x: for x >= 1, x itself works since
    // (x + 1)^2 > x.
    let mut hi: u64 = if x < 0xFFFF_FFFF {
        x
    } else {
        0xFFFF_FFFF
    };
    proof {
        assert((hi + 1) * (hi + 1) > x) by (nonlinear_arith)
            requires
                hi >= 1,
                x <= hi || hi == 0xFFFF_FFFFu64,
                x <= u64::MAX,
        ;
    }
    while lo < hi
        invariant
            lo <= hi,
            hi <= 0xFFFF_FFFF,
            lo * lo <= x,
            (hi + 1) * (hi + 1) > x,
        decreases hi - lo,
    {
        let mid = lo + (hi - lo + 1) / 2;
        if mid <= x / mid {
            proof {
                assert(mid * mid <= x) by (nonlinear_arith)
                    requires
                        mid >= 1,
                        mid <= x as int / mid as int,
                ;
            }
            lo = mid;
        } else {
            proof {
                assert(mid * mid > x) by (nonlinear_arith)
                    requires
                        mid >= 1,
                        mid > x as int / mid as int,
                ;
            }
            hi = mid - 1;
        }
    }
    lo
}

} // verus!
