//! A raster terrain-editing engine: a 2D height field of fixed-point
//! elevation samples, localized falloff-weighted brush transforms over it,
//! and a quantized persistence codec.
//!
//! Elevations are carried in micro-units: an `i64` value of `SCALE`
//! stands for one world unit of height.

pub mod brush;
pub mod codec;
pub mod field;
pub mod kernel;

use vstd::prelude::*;

verus! {

/// Micro-units per world unit of elevation.
pub const SCALE: i64 = 1_000_000;

/// Top of the elevation domain the codec quantizes over, in micro-units
/// (511 world units).
pub const MAX_Z_MICRO: i64 = 511_000_000;

/// Largest grid side the engine accepts.
pub const MAX_DIM: usize = 8192;

/// Elevation magnitude bound kept by every well-formed field (2^35
/// micro-units); it keeps all kernel arithmetic inside i64/i128 range.
pub const ELEV_LIMIT: i64 = 34_359_738_368;

/// Largest brush radius the engine accepts.
pub const MAX_RADIUS: u32 = 65536;

/// Brush strength magnitude bound, in micro-units (2^30).
pub const STRENGTH_LIMIT: i64 = 1_073_741_824;

/// Noise sample magnitude bound, in micro-units: samples handed to the
/// noise applier must lie in [-2, 2] world units.
pub const NOISE_LIMIT: i64 = 2_000_000;

/// An elevation value the engine can hold in a field cell.
pub open spec fn elev_ok(v: int) -> bool {
    -ELEV_LIMIT <= v <= ELEV_LIMIT
}

/// Row-major cell index of column `i`, row `j` in a grid `w` cells wide.
pub open spec fn idx_of(i: int, j: int, w: int) -> int {
    i + j * w
}

/// Truncating division (the quotient is rounded toward zero), the
/// rounding every blend kernel uses.
pub open spec fn tdiv(a: int, b: int) -> int
    recommends
        b > 0,
{
    if a >= 0 {
        a / b
    } else {
        -((-a) / b)
    }
}

/// `v` clamped into `[lo, hi]`: first capped at `hi`, then floored at
/// `lo`, so `lo` wins when `lo > hi`.
pub open spec fn clampi(v: int, lo: int, hi: int) -> int {
    let m = if v < hi {
        v
    } else {
        hi
    };
    if m < lo {
        lo
    } else {
        m
    }
}

/// Distinct in-range cells have distinct row-major indices.
pub proof fn lemma_idx_injective(i1: int, j1: int, i2: int, j2: int, w: int)
    requires
        0 <= i1 < w,
        0 <= i2 < w,
        0 <= j1,
        0 <= j2,
        idx_of(i1, j1, w) == idx_of(i2, j2, w),
    ensures
        i1 == i2 && j1 == j2,
{
    assert(i1 + j1 * w == i2 + j2 * w);
    assert(j1 == j2) by (nonlinear_arith)
        requires
            0 <= i1 < w,
            0 <= i2 < w,
            0 <= j1,
            0 <= j2,
            i1 + j1 * w == i2 + j2 * w,
    ;
}

/// The clamp policy lands every value inside `[lo, hi]` whenever the
/// range is proper.
pub proof fn lemma_clamp_in_range(v: int, lo: int, hi: int)
    requires
        lo <= hi,
    ensures
        lo <= clampi(v, lo, hi) <= hi,
        elev_ok(lo) && elev_ok(hi) ==> elev_ok(clampi(v, lo, hi)),
{
}

/// `v` clamped into `[lo, hi]`.
pub fn clamp_i64(v: i64, lo: i64, hi: i64) -> (r: i64)
    ensures
        r == clampi(v as int, lo as int, hi as int),
{
    let m: i64 = if v < hi {
        v
    } else {
        hi
    };
    if m < lo {
        lo
    } else {
        m
    }
}

/// Truncating division on i128, mirroring `tdiv`.
pub fn div_trunc(a: i128, b: i128) -> (q: i128)
    requires
        b > 0,
        a != i128::MIN,
    ensures
        q == tdiv(a as int, b as int),
{
    if a >= 0 {
        (((a as u128) / (b as u128)) as i128)
    } else {
        proof {
            assert((((-a) as u128) / (b as u128)) as int == ((-a) as int) / (b as int));
            assert(((-a) as int) / (b as int) <= ((-a) as int)) by (nonlinear_arith)
                requires
                    b >= 1,
                    (-a) as int >= 0,
            ;
        }
        -((((-a) as u128) / (b as u128)) as i128)
    }
}

} // verus!
