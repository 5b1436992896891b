//! The brush engine: stroke configuration, the radial falloff weight,
//! the clamped stroke window, the five mode appliers, and the per-tick
//! stroke controller.

use vstd::prelude::*;
use crate::{
    clampi, div_trunc, elev_ok, idx_of, tdiv, ELEV_LIMIT, MAX_DIM, MAX_RADIUS, MAX_Z_MICRO,
    NOISE_LIMIT, SCALE, STRENGTH_LIMIT,
};
use crate::field::{lemma_idx_in_grid, HeightField, Rect};
use crate::kernel::{
    gather_rect, lemma_mul_abs_bound, lemma_tdiv_bound, median_low_spec, rect_seq, rect_sum,
    sort_ascending, sum_rect,
};

verus! {

/// Centers handed to the stroke controller stay within this magnitude;
/// the pointer collaborator maps world positions to 32-bit grid
/// coordinates.
pub const CENTER_LIMIT: i64 = 2_147_483_648;

/// The transform a stroke applies to the cells under the brush.
#[derive(PartialEq, Eq, Structural, Clone, Copy, Debug)]
pub enum Mode {
    Raise,
    Flatten,
    Median,
    Noise,
    Blur,
}

/// The pointer buttons held during the current tick.
#[derive(PartialEq, Eq, Structural, Clone, Copy, Debug)]
pub struct Buttons {
    pub left: bool,
    pub right: bool,
}

/// Signed strength of the tick: the configured strength under the left
/// button, its negation under the right (the left wins when both are
/// held), and zero when no button is held.
pub open spec fn effective_strength_spec(strength: int, b: Buttons) -> int {
    if b.left {
        strength
    } else if b.right {
        -strength
    } else {
        0
    }
}

/// Falloff weight numerator: the weight of cell offset `(di, dj)` under
/// a brush of the given radius is this value over `radius * radius`. It
/// is `radius * radius` at the center, `0` on and outside the circle of
/// that radius, and decreases linearly in the squared distance between.
pub open spec fn falloff_num_spec(di: int, dj: int, radius: int) -> int {
    let d2 = di * di + dj * dj;
    if d2 >= radius * radius {
        0
    } else {
        radius * radius - d2
    }
}

/// Low edge of the stroke window along one axis: `center - radius`,
/// clamped to the grid.
pub open spec fn win_lo(c: int, r: int) -> int {
    if c - r > 0 {
        c - r
    } else {
        0
    }
}

/// High edge of the stroke window along one axis: `center + radius`,
/// clamped to the grid of the given extent.
pub open spec fn win_hi(c: int, r: int, dim: int) -> int {
    if c + r < dim - 1 {
        c + r
    } else {
        dim - 1
    }
}

/// Whether the clamped stroke window holds at least one cell.
pub open spec fn window_nonempty(mi: int, mj: int, r: int, w: int, h: int) -> bool {
    win_lo(mi, r) <= win_hi(mi, r, w) && win_lo(mj, r) <= win_hi(mj, r, h)
}

/// Number of cells of the clamped stroke window.
pub open spec fn window_cell_count(mi: int, mj: int, r: int, w: int, h: int) -> int {
    if window_nonempty(mi, mj, r, w, h) {
        (win_hi(mi, r, w) - win_lo(mi, r) + 1) * (win_hi(mj, r, h) - win_lo(mj, r) + 1)
    } else {
        0
    }
}

/// Low edge of a per-cell kernel neighborhood along one axis:
/// `center - reach`, clamped to the grid.
pub open spec fn nb_lo(c: int, reach: int) -> int {
    if c - reach > 0 {
        c - reach
    } else {
        0
    }
}

/// High edge of a per-cell kernel neighborhood along one axis:
/// `center + reach`, clamped to the grid of the given extent.
pub open spec fn nb_hi(c: int, reach: int, dim: int) -> int {
    if c + reach < dim - 1 {
        c + reach
    } else {
        dim - 1
    }
}

/// Position of cell `(i, j)` in the row-major walk of the window whose
/// low corner is `(i0, j0)` and whose row length is `si`.
pub open spec fn window_slot(i: int, j: int, i0: int, j0: int, si: int) -> int {
    (j - j0) * si + (i - i0)
}

/// The value a stroke leaves in cell `(i, j)`, before which it reads
/// only the pre-stroke samples `t`: every applier buffers its outputs
/// and commits them after the whole window is computed.
///
/// Blends follow the configured mode's table entry, carried out in
/// integer arithmetic over micro-units with truncating division:
/// `v * (1 - p) + x * p` is computed as `v + tdiv(num, den)` where
/// `num / den` is the exact rational `p * (x - v)`.
pub open spec fn cell_new_value(
    t: Seq<i64>,
    w: int,
    h: int,
    mode: Mode,
    eff: int,
    radius: int,
    lo: int,
    hi: int,
    mi: int,
    mj: int,
    noise: Seq<i64>,
    i: int,
    j: int,
) -> int {
    let r2 = radius * radius;
    let fnum = falloff_num_spec(i - mi, j - mj, radius);
    let v = t[idx_of(i, j, w)] as int;
    match mode {
        Mode::Raise => clampi(v + tdiv(eff * fnum, r2), lo, hi),
        Mode::Flatten => {
            let i0 = win_lo(mi, radius);
            let i1 = win_hi(mi, radius, w);
            let j0 = win_lo(mj, radius);
            let j1 = win_hi(mj, radius, h);
            let cnt = (i1 - i0 + 1) * (j1 - j0 + 1);
            let avg = tdiv(rect_sum(t, w, i0, i1, j0, j1), cnt);
            clampi(v + tdiv(eff * fnum * (avg - v), r2 * 50 * (SCALE as int)), lo, hi)
        },
        Mode::Median => {
            let med = median_low_spec(
                rect_seq(t, w, nb_lo(i, 4), nb_hi(i, 4, w), nb_lo(j, 4), nb_hi(j, 4, h)),
            );
            clampi(v + tdiv(eff * (med - v), 10 * (SCALE as int)), lo, hi)
        },
        Mode::Noise => {
            let i0 = win_lo(mi, radius);
            let i1 = win_hi(mi, radius, w);
            let j0 = win_lo(mj, radius);
            let n = noise[window_slot(i, j, i0, j0, i1 - i0 + 1)] as int;
            clampi(v + tdiv(eff * fnum * n, r2 * (SCALE as int)), lo, hi)
        },
        Mode::Blur => {
            let a0 = nb_lo(i, 1);
            let a1 = nb_hi(i, 1, w);
            let b0 = nb_lo(j, 1);
            let b1 = nb_hi(j, 1, h);
            let cnt = (a1 - a0 + 1) * (b1 - b0 + 1);
            let mean = tdiv(rect_sum(t, w, a0, a1, b0, b1), cnt);
            clampi(v + tdiv(eff * fnum * (mean - v), r2 * 10 * (SCALE as int)), lo, hi)
        },
    }
}

/// The falloff weight is zero on and outside the brush circle, full at
/// its center, and never outside `[0, radius * radius]`.
pub proof fn lemma_falloff_boundary(di: int, dj: int, radius: int)
    requires
        radius >= 1,
    ensures
        di * di + dj * dj >= radius * radius ==> falloff_num_spec(di, dj, radius) == 0,
        falloff_num_spec(0, 0, radius) == radius * radius,
        0 <= falloff_num_spec(di, dj, radius) <= radius * radius,
{
    assert(di * di >= 0) by (nonlinear_arith);
    assert(dj * dj >= 0) by (nonlinear_arith);
    assert(radius * radius >= 1) by (nonlinear_arith)
        requires
            radius >= 1,
    ;
}

/// Falloff weight numerator of cell offset `(di, dj)`.
pub fn falloff_num(di: i64, dj: i64, radius: u32) -> (n: i64)
    requires
        -0x1_0000_0000 <= di <= 0x1_0000_0000,
        -0x1_0000_0000 <= dj <= 0x1_0000_0000,
        1 <= radius <= MAX_RADIUS,
    ensures
        n as int == falloff_num_spec(di as int, dj as int, radius as int),
        0 <= n as int <= (radius as int) * (radius as int),
{
    proof {
        lemma_mul_abs_bound(radius as int, radius as int, MAX_RADIUS as int, MAX_RADIUS as int);
        lemma_mul_abs_bound(di as int, di as int, 0x1_0000_0000, 0x1_0000_0000);
        lemma_mul_abs_bound(dj as int, dj as int, 0x1_0000_0000, 0x1_0000_0000);
        lemma_falloff_boundary(di as int, dj as int, radius as int);
    }
    let r2: i64 = (radius as i64) * (radius as i64);
    let d2: i128 = (di as i128) * (di as i128) + (dj as i128) * (dj as i128);
    if d2 >= r2 as i128 {
        0
    } else {
        (r2 as i128 - d2) as i64
    }
}

/// The clamped stroke window: inclusive cell bounds, all inside the
/// grid.
#[derive(PartialEq, Eq, Structural, Clone, Copy, Debug)]
pub struct Window {
    pub i0: usize,
    pub i1: usize,
    pub j0: usize,
    pub j1: usize,
}

/// Resolve the stroke window: the rectangle of cells within `radius` of
/// the center along each axis, clamped to the grid. `None` when the
/// clamped rectangle holds no cell, which makes the stroke a no-op.
pub fn resolve_window(mi: i64, mj: i64, radius: u32, width: usize, height: usize) -> (w: Option<
    Window,
>)
    requires
        width <= MAX_DIM,
        height <= MAX_DIM,
        1 <= radius <= MAX_RADIUS,
        -CENTER_LIMIT <= mi <= CENTER_LIMIT,
        -CENTER_LIMIT <= mj <= CENTER_LIMIT,
    ensures
        match w {
            Some(win) => {
                &&& window_nonempty(mi as int, mj as int, radius as int, width as int, height as int)
                &&& win.i0 as int == win_lo(mi as int, radius as int)
                &&& win.i1 as int == win_hi(mi as int, radius as int, width as int)
                &&& win.j0 as int == win_lo(mj as int, radius as int)
                &&& win.j1 as int == win_hi(mj as int, radius as int, height as int)
                &&& win.i0 <= win.i1 < width
                &&& win.j0 <= win.j1 < height
            },
            None => !window_nonempty(
                mi as int,
                mj as int,
                radius as int,
                width as int,
                height as int,
            ),
        },
{
    if width == 0 || height == 0 {
        return None;
    }
    let r: i64 = radius as i64;
    let lo_i: i64 = if mi - r > 0 {
        mi - r
    } else {
        0
    };
    let hi_i: i64 = if mi + r < width as i64 - 1 {
        mi + r
    } else {
        width as i64 - 1
    };
    let lo_j: i64 = if mj - r > 0 {
        mj - r
    } else {
        0
    };
    let hi_j: i64 = if mj + r < height as i64 - 1 {
        mj + r
    } else {
        height as i64 - 1
    };
    if lo_i > hi_i || lo_j > hi_j {
        return None;
    }
    Some(
        Window {
            i0: lo_i as usize,
            i1: hi_i as usize,
            j0: lo_j as usize,
            j1: hi_j as usize,
        },
    )
}

/// A cell slot inside its window lies inside the window's cell count.
pub proof fn lemma_slot_in_count(i: int, j: int, i0: int, i1: int, j0: int, j1: int)
    requires
        i0 <= i <= i1,
        j0 <= j <= j1,
    ensures
        0 <= window_slot(i, j, i0, j0, i1 - i0 + 1) < (i1 - i0 + 1) * (j1 - j0 + 1),
{
    assert(0 <= (j - j0) * (i1 - i0 + 1) + (i - i0) < (i1 - i0 + 1) * (j1 - j0 + 1))
        by (nonlinear_arith)
        requires
            i0 <= i <= i1,
            j0 <= j <= j1,
    ;
}

/// Walking the window row-major, every already visited cell's slot lies
/// below the slot about to be filled.
proof fn lemma_slot_before(ii: int, jj: int, i: int, j: int, i0: int, i1: int, j0: int)
    requires
        i0 <= ii <= i1,
        i0 <= i <= i1 + 1,
        j0 <= jj,
        jj < j || (jj == j && ii < i),
    ensures
        0 <= window_slot(ii, jj, i0, j0, i1 - i0 + 1) < window_slot(i, j, i0, j0, i1 - i0 + 1),
{
    assert(0 <= (jj - j0) * (i1 - i0 + 1) + (ii - i0) < (j - j0) * (i1 - i0 + 1) + (i - i0))
        by (nonlinear_arith)
        requires
            i0 <= ii <= i1,
            i0 <= i <= i1 + 1,
            j0 <= jj,
            jj < j || (jj == j && ii < i),
    ;
}

/// Blend a signed delta onto a sample and clamp the result into
/// `[lo, hi]`.
fn blend_clamp(v: i64, delta: i128, lo: i64, hi: i64) -> (r: i64)
    requires
        -(i64::MAX as i128) <= delta <= i64::MAX as i128,
        lo <= hi,
        elev_ok(lo as int),
        elev_ok(hi as int),
    ensures
        r as int == clampi(v as int + delta as int, lo as int, hi as int),
        elev_ok(r as int),
        lo <= r <= hi,
{
    let res: i128 = (v as i128) + delta;
    let c: i128 = if res < (hi as i128) {
        res
    } else {
        hi as i128
    };
    let c2: i128 = if c < (lo as i128) {
        lo as i128
    } else {
        c
    };
    c2 as i64
}

/// Raise applier for one cell: add the falloff-weighted strength.
fn raise_cell(v: i64, eff: i64, fnum: i64, r2: i64, lo: i64, hi: i64) -> (r: i64)
    requires
        -STRENGTH_LIMIT <= eff <= STRENGTH_LIMIT,
        0 <= fnum <= r2,
        1 <= r2 <= 0x1_0000_0000,
        lo <= hi,
        elev_ok(lo as int),
        elev_ok(hi as int),
    ensures
        r as int == clampi(v as int + tdiv(eff as int * fnum as int, r2 as int), lo as int, hi as int),
        lo <= r <= hi,
{
    proof {
        lemma_mul_abs_bound(eff as int, fnum as int, STRENGTH_LIMIT as int, r2 as int);
    }
    let num: i128 = (eff as i128) * (fnum as i128);
    let q: i128 = div_trunc(num, r2 as i128);
    proof {
        lemma_tdiv_bound(num as int, r2 as int, STRENGTH_LIMIT as int);
    }
    blend_clamp(v, q, lo, hi)
}

/// Flatten applier for one cell: blend toward the window average with
/// blend fraction `eff * falloff / 50`, in micro-units.
fn flatten_cell(v: i64, avg: i64, eff: i64, fnum: i64, r2: i64, lo: i64, hi: i64) -> (r: i64)
    requires
        elev_ok(v as int),
        elev_ok(avg as int),
        -STRENGTH_LIMIT <= eff <= STRENGTH_LIMIT,
        0 <= fnum <= r2,
        1 <= r2 <= 0x1_0000_0000,
        lo <= hi,
        elev_ok(lo as int),
        elev_ok(hi as int),
    ensures
        r as int == clampi(
            v as int + tdiv(
                eff as int * fnum as int * (avg as int - v as int),
                r2 as int * 50 * (SCALE as int),
            ),
            lo as int,
            hi as int,
        ),
        lo <= r <= hi,
{
    let d: i64 = avg - v;
    proof {
        lemma_mul_abs_bound(eff as int, fnum as int, STRENGTH_LIMIT as int, r2 as int);
        lemma_mul_abs_bound(eff as int, fnum as int, STRENGTH_LIMIT as int, 0x1_0000_0000);
        lemma_mul_abs_bound(
            (eff as int) * (fnum as int),
            d as int,
            (STRENGTH_LIMIT as int) * (r2 as int),
            2 * (ELEV_LIMIT as int),
        );
        lemma_mul_abs_bound(
            (eff as int) * (fnum as int),
            d as int,
            (STRENGTH_LIMIT as int) * 0x1_0000_0000,
            2 * (ELEV_LIMIT as int),
        );
        assert(((STRENGTH_LIMIT as int) * (r2 as int)) * (2 * (ELEV_LIMIT as int)) <= (64 * (
        ELEV_LIMIT as int)) * ((r2 as int) * 50 * (SCALE as int))) by (nonlinear_arith)
            requires
                1 <= r2 as int,
        ;
    }
    let num: i128 = (eff as i128) * (fnum as i128) * (d as i128);
    let den: i128 = (r2 as i128) * 50 * (SCALE as i128);
    let q: i128 = div_trunc(num, den);
    proof {
        lemma_tdiv_bound(num as int, den as int, 64 * (ELEV_LIMIT as int));
    }
    blend_clamp(v, q, lo, hi)
}

/// Median applier for one cell: blend toward the lower-middle median of
/// the samples within Chebyshev distance 4 (clamped to the grid), with
/// blend fraction `eff / 10`; the falloff weight plays no part in this
/// mode. Samples are integer micro-units, so sorting them is free of
/// floating-point comparison instability by construction.
fn median_cell(field: &HeightField, i: usize, j: usize, eff: i64, lo: i64, hi: i64) -> (r: i64)
    requires
        field.wf(),
        i < field.width,
        j < field.height,
        -STRENGTH_LIMIT <= eff <= STRENGTH_LIMIT,
        lo <= hi,
        elev_ok(lo as int),
        elev_ok(hi as int),
    ensures
        r as int == ({
            let t = field.texels@;
            let w = field.width as int;
            let h = field.height as int;
            let v = t[idx_of(i as int, j as int, w)] as int;
            let med = median_low_spec(
                rect_seq(
                    t,
                    w,
                    nb_lo(i as int, 4),
                    nb_hi(i as int, 4, w),
                    nb_lo(j as int, 4),
                    nb_hi(j as int, 4, h),
                ),
            );
            clampi(v + tdiv(eff as int * (med - v), 10 * (SCALE as int)), lo as int, hi as int)
        }),
        lo <= r <= hi,
{
    let w: usize = field.width;
    let h: usize = field.height;
    proof {
        lemma_idx_in_grid(i as int, j as int, w as int, h as int);
    }
    let v: i64 = field.get(i, j);
    let a0: usize = if i >= 4 {
        i - 4
    } else {
        0
    };
    let a1: usize = if i + 4 <= w - 1 {
        i + 4
    } else {
        w - 1
    };
    let b0: usize = if j >= 4 {
        j - 4
    } else {
        0
    };
    let b1: usize = if j + 4 <= h - 1 {
        j + 4
    } else {
        h - 1
    };
    let neigh: Vec<i64> = gather_rect(field, a0, a1, b0, b1);
    proof {
        assert(neigh@.len() >= 1) by (nonlinear_arith)
            requires
                neigh@.len() == (a1 - a0 + 1) * (b1 - b0 + 1),
                a1 >= a0,
                b1 >= b0,
        ;
    }
    let ghost neigh_seq: Seq<i64> = neigh@;
    let sorted: Vec<i64> = sort_ascending(neigh);
    let med: i64 = sorted[sorted.len() / 2];
    proof {
        broadcast use vstd::seq_lib::group_to_multiset_ensures;
        broadcast use vstd::multiset::group_multiset_axioms;

        assert(sorted@.contains(med)) by {
            assert(sorted@[sorted@.len() as int / 2] == med);
        }
        assert(sorted@.to_multiset().count(med) > 0);
        assert(neigh_seq.to_multiset().count(med) > 0);
        assert(neigh_seq.contains(med));
        assert(elev_ok(med as int)) by {
            let kk = choose|kk: int| 0 <= kk < neigh_seq.len() && neigh_seq[kk] == med;
            assert(elev_ok(neigh_seq[kk] as int));
        }
        lemma_mul_abs_bound(
            eff as int,
            (med - v) as int,
            STRENGTH_LIMIT as int,
            2 * (ELEV_LIMIT as int),
        );
        assert((STRENGTH_LIMIT as int) * (2 * (ELEV_LIMIT as int)) <= (0x1_0000_0000_0000 * (10
            * (SCALE as int))));
    }
    let d: i64 = med - v;
    let num: i128 = (eff as i128) * (d as i128);
    let den: i128 = 10 * (SCALE as i128);
    let q: i128 = div_trunc(num, den);
    proof {
        lemma_tdiv_bound(num as int, den as int, 0x1_0000_0000_0000);
    }
    blend_clamp(v, q, lo, hi)
}

/// Noise applier for one cell: add the falloff-weighted strength scaled
/// by the supplied noise sample (a micro-unit value in roughly
/// `[-SCALE, SCALE]`).
fn noise_cell(v: i64, n: i64, eff: i64, fnum: i64, r2: i64, lo: i64, hi: i64) -> (r: i64)
    requires
        -NOISE_LIMIT <= n <= NOISE_LIMIT,
        -STRENGTH_LIMIT <= eff <= STRENGTH_LIMIT,
        0 <= fnum <= r2,
        1 <= r2 <= 0x1_0000_0000,
        lo <= hi,
        elev_ok(lo as int),
        elev_ok(hi as int),
    ensures
        r as int == clampi(
            v as int + tdiv(eff as int * fnum as int * n as int, r2 as int * (SCALE as int)),
            lo as int,
            hi as int,
        ),
        lo <= r <= hi,
{
    proof {
        lemma_mul_abs_bound(eff as int, fnum as int, STRENGTH_LIMIT as int, r2 as int);
        lemma_mul_abs_bound(
            (eff as int) * (fnum as int),
            n as int,
            (STRENGTH_LIMIT as int) * (r2 as int),
            NOISE_LIMIT as int,
        );
        assert(((STRENGTH_LIMIT as int) * (r2 as int)) * (NOISE_LIMIT as int) <= (2 * (
        STRENGTH_LIMIT as int)) * ((r2 as int) * (SCALE as int))) by (nonlinear_arith)
            requires
                1 <= r2 as int,
        ;
    }
    let num: i128 = (eff as i128) * (fnum as i128) * (n as i128);
    let den: i128 = (r2 as i128) * (SCALE as i128);
    let q: i128 = div_trunc(num, den);
    proof {
        lemma_tdiv_bound(num as int, den as int, 2 * (STRENGTH_LIMIT as int));
    }
    blend_clamp(v, q, lo, hi)
}

/// Blur applier for one cell: blend toward the mean of the 3x3
/// neighborhood (clamped to the grid, so fewer cells at the edges) with
/// blend fraction `eff * falloff / 10`.
#[verifier::rlimit(60)]
fn blur_cell(field: &HeightField, i: usize, j: usize, eff: i64, fnum: i64, r2: i64, lo: i64, hi: i64) -> (r: i64)
    requires
        field.wf(),
        i < field.width,
        j < field.height,
        -STRENGTH_LIMIT <= eff <= STRENGTH_LIMIT,
        0 <= fnum <= r2,
        1 <= r2 <= 0x1_0000_0000,
        lo <= hi,
        elev_ok(lo as int),
        elev_ok(hi as int),
    ensures
        r as int == ({
            let t = field.texels@;
            let w = field.width as int;
            let h = field.height as int;
            let v = t[idx_of(i as int, j as int, w)] as int;
            let a0 = nb_lo(i as int, 1);
            let a1 = nb_hi(i as int, 1, w);
            let b0 = nb_lo(j as int, 1);
            let b1 = nb_hi(j as int, 1, h);
            let cnt = (a1 - a0 + 1) * (b1 - b0 + 1);
            let mean = tdiv(rect_sum(t, w, a0, a1, b0, b1), cnt);
            clampi(
                v + tdiv(eff as int * fnum as int * (mean - v), r2 as int * 10 * (SCALE as int)),
                lo as int,
                hi as int,
            )
        }),
        lo <= r <= hi,
{
    let w: usize = field.width;
    let h: usize = field.height;
    proof {
        lemma_idx_in_grid(i as int, j as int, w as int, h as int);
    }
    let v: i64 = field.get(i, j);
    let a0: usize = if i >= 1 {
        i - 1
    } else {
        0
    };
    let a1: usize = if i + 1 <= w - 1 {
        i + 1
    } else {
        w - 1
    };
    let b0: usize = if j >= 1 {
        j - 1
    } else {
        0
    };
    let b1: usize = if j + 1 <= h - 1 {
        j + 1
    } else {
        h - 1
    };
    proof {
        assert(a1 - a0 + 1 <= 3 && b1 - b0 + 1 <= 3);
        assert(1 <= (a1 - a0 + 1) * (b1 - b0 + 1) <= 9) by (nonlinear_arith)
            requires
                1 <= a1 - a0 + 1 <= 3,
                1 <= b1 - b0 + 1 <= 3,
        ;
    }
    let cnt: usize = (a1 - a0 + 1) * (b1 - b0 + 1);
    let s: i64 = sum_rect(field, a0, a1, b0, b1);
    let q0: i128 = div_trunc(s as i128, cnt as i128);
    proof {
        lemma_tdiv_bound(s as int, cnt as int, ELEV_LIMIT as int);
    }
    let mean: i64 = q0 as i64;
    let d: i64 = mean - v;
    proof {
        lemma_mul_abs_bound(eff as int, fnum as int, STRENGTH_LIMIT as int, r2 as int);
        lemma_mul_abs_bound(eff as int, fnum as int, STRENGTH_LIMIT as int, 0x1_0000_0000);
        lemma_mul_abs_bound(
            (eff as int) * (fnum as int),
            d as int,
            (STRENGTH_LIMIT as int) * (r2 as int),
            2 * (ELEV_LIMIT as int),
        );
        lemma_mul_abs_bound(
            (eff as int) * (fnum as int),
            d as int,
            (STRENGTH_LIMIT as int) * 0x1_0000_0000,
            2 * (ELEV_LIMIT as int),
        );
        assert(((STRENGTH_LIMIT as int) * (r2 as int)) * (2 * (ELEV_LIMIT as int)) <= (256 * (
        ELEV_LIMIT as int)) * ((r2 as int) * 10 * (SCALE as int))) by (nonlinear_arith)
            requires
                1 <= r2 as int,
        ;
    }
    let num: i128 = (eff as i128) * (fnum as i128) * (d as i128);
    let den: i128 = (r2 as i128) * 10 * (SCALE as i128);
    let q: i128 = div_trunc(num, den);
    proof {
        lemma_tdiv_bound(num as int, den as int, 256 * (ELEV_LIMIT as int));
    }
    blend_clamp(v, q, lo, hi)
}

/// Compute the post-stroke value of every window cell from the
/// pre-stroke field, row-major; nothing is written back here, so every
/// applier reads only pre-stroke samples.
#[verifier::loop_isolation(false)]
fn stroke_values(
    field: &HeightField,
    win: Window,
    mi: i64,
    mj: i64,
    eff: i64,
    radius: u32,
    lo: i64,
    hi: i64,
    mode: Mode,
    noise: &Vec<i64>,
) -> (vals: Vec<i64>)
    requires
        field.wf(),
        win.i0 <= win.i1 < field.width,
        win.j0 <= win.j1 < field.height,
        win.i0 as int == win_lo(mi as int, radius as int),
        win.i1 as int == win_hi(mi as int, radius as int, field.width as int),
        win.j0 as int == win_lo(mj as int, radius as int),
        win.j1 as int == win_hi(mj as int, radius as int, field.height as int),
        1 <= radius <= MAX_RADIUS,
        -STRENGTH_LIMIT <= eff <= STRENGTH_LIMIT,
        lo <= hi,
        elev_ok(lo as int),
        elev_ok(hi as int),
        -CENTER_LIMIT <= mi <= CENTER_LIMIT,
        -CENTER_LIMIT <= mj <= CENTER_LIMIT,
        mode == Mode::Noise ==> noise@.len() >= (win.i1 - win.i0 + 1) * (win.j1 - win.j0 + 1)
            && (forall|k: int|
            0 <= k < noise@.len() ==> -NOISE_LIMIT <= #[trigger] noise@[k] <= NOISE_LIMIT),
    ensures
        vals@.len() == (win.i1 - win.i0 + 1) * (win.j1 - win.j0 + 1),
        forall|i: int, j: int|
            win.i0 <= i <= win.i1 && win.j0 <= j <= win.j1 ==> vals@[window_slot(
                i,
                j,
                win.i0 as int,
                win.j0 as int,
                win.i1 - win.i0 + 1,
            )] as int == cell_new_value(
                field.texels@,
                field.width as int,
                field.height as int,
                mode,
                eff as int,
                radius as int,
                lo as int,
                hi as int,
                mi as int,
                mj as int,
                noise@,
                i,
                j,
            ),
        forall|k: int| 0 <= k < vals@.len() ==> lo <= #[trigger] vals@[k] <= hi,
{
    let ghost t: Seq<i64> = field.texels@;
    let w: usize = field.width;
    let h: usize = field.height;
    let si: usize = win.i1 - win.i0 + 1;
    let sj: usize = win.j1 - win.j0 + 1;
    proof {
        crate::field::lemma_grid_cells_bounded(si as int, sj as int);
        assert(si * sj >= 1) by (nonlinear_arith)
            requires
                si >= 1,
                sj >= 1,
        ;
        lemma_mul_abs_bound(radius as int, radius as int, MAX_RADIUS as int, MAX_RADIUS as int);
        assert((radius as int) * (radius as int) >= 1) by (nonlinear_arith)
            requires
                radius as int >= 1,
        ;
    }
    let r2: i64 = (radius as i64) * (radius as i64);
    let avg: i64 = match mode {
        Mode::Flatten => {
            let cnt: usize = si * sj;
            let s: i64 = sum_rect(field, win.i0, win.i1, win.j0, win.j1);
            let q: i128 = div_trunc(s as i128, cnt as i128);
            proof {
                lemma_tdiv_bound(s as int, cnt as int, ELEV_LIMIT as int);
            }
            q as i64
        },
        _ => 0,
    };
    let ghost avg_fact: bool = (mode == Mode::Flatten ==> (-ELEV_LIMIT <= avg <= ELEV_LIMIT
        && avg as int == tdiv(
        rect_sum(t, w as int, win.i0 as int, win.i1 as int, win.j0 as int, win.j1 as int),
        (win.i1 - win.i0 + 1) * (win.j1 - win.j0 + 1),
    )));
    proof {
        assert(avg_fact);
    }
    let mut vals: Vec<i64> = Vec::new();
    let mut j: usize = win.j0;
    while j <= win.j1
        invariant
            avg_fact,
            win.j0 <= j <= win.j1 + 1,
            vals@.len() == (j - win.j0) * si,
            forall|ii: int, jj: int|
                win.i0 <= ii <= win.i1 && win.j0 <= jj < j ==> vals@[window_slot(
                    ii,
                    jj,
                    win.i0 as int,
                    win.j0 as int,
                    si as int,
                )] as int == cell_new_value(
                    t,
                    w as int,
                    h as int,
                    mode,
                    eff as int,
                    radius as int,
                    lo as int,
                    hi as int,
                    mi as int,
                    mj as int,
                    noise@,
                    ii,
                    jj,
                ),
            forall|k: int| 0 <= k < vals@.len() ==> lo <= #[trigger] vals@[k] <= hi,
        decreases win.j1 + 1 - j,
    {
        let mut i: usize = win.i0;
        while i <= win.i1
            invariant
                avg_fact,
                win.j0 <= j <= win.j1,
                win.i0 <= i <= win.i1 + 1,
                vals@.len() == (j - win.j0) * si + (i - win.i0),
                forall|ii: int, jj: int|
                    win.i0 <= ii <= win.i1 && win.j0 <= jj <= win.j1 && (jj < j || (jj == j && ii
                        < i)) ==> vals@[window_slot(
                        ii,
                        jj,
                        win.i0 as int,
                        win.j0 as int,
                        si as int,
                    )] as int == cell_new_value(
                        t,
                        w as int,
                        h as int,
                        mode,
                        eff as int,
                        radius as int,
                        lo as int,
                        hi as int,
                        mi as int,
                        mj as int,
                        noise@,
                        ii,
                        jj,
                    ),
                forall|k: int| 0 <= k < vals@.len() ==> lo <= #[trigger] vals@[k] <= hi,
            decreases win.i1 + 1 - i,
        {
            proof {
                lemma_idx_in_grid(i as int, j as int, w as int, h as int);
            }
            let v: i64 = field.get(i, j);
            let fnum: i64 = falloff_num(i as i64 - mi, j as i64 - mj, radius);
            let val: i64 = match mode {
                Mode::Raise => raise_cell(v, eff, fnum, r2, lo, hi),
                Mode::Flatten => flatten_cell(v, avg, eff, fnum, r2, lo, hi),
                Mode::Median => median_cell(field, i, j, eff, lo, hi),
                Mode::Noise => {
                    proof {
                        lemma_slot_in_count(
                            i as int,
                            j as int,
                            win.i0 as int,
                            win.i1 as int,
                            win.j0 as int,
                            win.j1 as int,
                        );
                    }
                    let slot: usize = (j - win.j0) * si + (i - win.i0);
                    noise_cell(v, noise[slot], eff, fnum, r2, lo, hi)
                },
                Mode::Blur => blur_cell(field, i, j, eff, fnum, r2, lo, hi),
            };
            proof {
                assert(val as int == cell_new_value(
                    t,
                    w as int,
                    h as int,
                    mode,
                    eff as int,
                    radius as int,
                    lo as int,
                    hi as int,
                    mi as int,
                    mj as int,
                    noise@,
                    i as int,
                    j as int,
                ));
            }
            let ghost vals_old: Seq<i64> = vals@;
            vals.push(val);
            proof {
                assert(window_slot(i as int, j as int, win.i0 as int, win.j0 as int, si as int)
                    == vals_old.len());
                assert forall|ii: int, jj: int|
                    win.i0 <= ii <= win.i1 && win.j0 <= jj <= win.j1 && (jj < j || (jj == j && ii
                        < i + 1)) implies vals@[window_slot(
                    ii,
                    jj,
                    win.i0 as int,
                    win.j0 as int,
                    si as int,
                )] as int == cell_new_value(
                    t,
                    w as int,
                    h as int,
                    mode,
                    eff as int,
                    radius as int,
                    lo as int,
                    hi as int,
                    mi as int,
                    mj as int,
                    noise@,
                    ii,
                    jj,
                ) by {
                    if jj < j || (jj == j && ii < i) {
                        lemma_slot_before(
                            ii,
                            jj,
                            i as int,
                            j as int,
                            win.i0 as int,
                            win.i1 as int,
                            win.j0 as int,
                        );
                    }
                }
            }
            i = i + 1;
        }
        proof {
            assert((j - win.j0) * si + (win.i1 + 1 - win.i0) == (j + 1 - win.j0) * si)
                by (nonlinear_arith)
                requires
                    si == win.i1 - win.i0 + 1,
            ;
        }
        j = j + 1;
    }
    proof {
        assert((win.j1 + 1 - win.j0) * si == (win.i1 - win.i0 + 1) * (win.j1 - win.j0 + 1))
            by (nonlinear_arith)
            requires
                si == win.i1 - win.i0 + 1,
        ;
    }
    vals
}

/// Write the buffered window values back into the field, row-major,
/// leaving every cell outside the window untouched.
#[verifier::loop_isolation(false)]
fn commit_window(field: &mut HeightField, win: Window, vals: &Vec<i64>)
    requires
        old(field).wf(),
        win.i0 <= win.i1 < old(field).width,
        win.j0 <= win.j1 < old(field).height,
        vals@.len() == (win.i1 - win.i0 + 1) * (win.j1 - win.j0 + 1),
        forall|k: int| 0 <= k < vals@.len() ==> elev_ok(#[trigger] vals@[k] as int),
    ensures
        final(field).wf(),
        final(field).width == old(field).width,
        final(field).height == old(field).height,
        final(field).texels.len() == old(field).texels.len(),
        forall|i: int, j: int|
            win.i0 <= i <= win.i1 && win.j0 <= j <= win.j1 ==> final(field).texels@[idx_of(
                i,
                j,
                old(field).width as int,
            )] == vals@[window_slot(i, j, win.i0 as int, win.j0 as int, win.i1 - win.i0 + 1)],
        forall|i: int, j: int|
            0 <= i < old(field).width && 0 <= j < old(field).height && !(win.i0 <= i <= win.i1
                && win.j0 <= j <= win.j1) ==> final(field).texels@[idx_of(
                i,
                j,
                old(field).width as int,
            )] == old(field).texels@[idx_of(i, j, old(field).width as int)],
{
    let ghost w: int = old(field).width as int;
    let ghost h: int = old(field).height as int;
    let total: usize = vals.len();
    let si: usize = win.i1 - win.i0 + 1;
    let mut j: usize = win.j0;
    while j <= win.j1
        invariant
            field.wf(),
            field.width == old(field).width,
            field.height == old(field).height,
            field.texels.len() == old(field).texels.len(),
            win.j0 <= j <= win.j1 + 1,
            forall|ii: int, jj: int|
                win.i0 <= ii <= win.i1 && win.j0 <= jj <= win.j1 && jj < j
                    ==> field.texels@[idx_of(ii, jj, w)] == vals@[window_slot(
                    ii,
                    jj,
                    win.i0 as int,
                    win.j0 as int,
                    si as int,
                )],
            forall|ii: int, jj: int|
                0 <= ii < w && 0 <= jj < h && !(win.i0 <= ii <= win.i1 && win.j0 <= jj <= win.j1
                    && jj < j) ==> field.texels@[idx_of(ii, jj, w)] == old(field).texels@[idx_of(
                    ii,
                    jj,
                    w,
                )],
        decreases win.j1 + 1 - j,
    {
        let mut i: usize = win.i0;
        while i <= win.i1
            invariant
                field.wf(),
                field.width == old(field).width,
                field.height == old(field).height,
                field.texels.len() == old(field).texels.len(),
                win.j0 <= j <= win.j1,
                win.i0 <= i <= win.i1 + 1,
                forall|ii: int, jj: int|
                    win.i0 <= ii <= win.i1 && win.j0 <= jj <= win.j1 && (jj < j || (jj == j && ii
                        < i)) ==> field.texels@[idx_of(ii, jj, w)] == vals@[window_slot(
                        ii,
                        jj,
                        win.i0 as int,
                        win.j0 as int,
                        si as int,
                    )],
                forall|ii: int, jj: int|
                    0 <= ii < w && 0 <= jj < h && !(win.i0 <= ii <= win.i1 && win.j0 <= jj
                        <= win.j1 && (jj < j || (jj == j && ii < i))) ==> field.texels@[idx_of(
                        ii,
                        jj,
                        w,
                    )] == old(field).texels@[idx_of(ii, jj, w)],
            decreases win.i1 + 1 - i,
        {
            proof {
                lemma_slot_in_count(
                    i as int,
                    j as int,
                    win.i0 as int,
                    win.i1 as int,
                    win.j0 as int,
                    win.j1 as int,
                );
                assert(window_slot(i as int, j as int, win.i0 as int, win.j0 as int, si as int)
                    == (j - win.j0) * (si as int) + (i - win.i0));
                assert((j - win.j0) * (si as int) + (i - win.i0) < vals@.len());
            }
            let slot: usize = (j - win.j0) * si + (i - win.i0);
            let ghost before: Seq<i64> = field.texels@;
            field.set(i, j, vals[slot]);
            proof {
                assert forall|ii: int, jj: int|
                    0 <= ii < w && 0 <= jj < h && !(ii == i && jj == j) implies field.texels@[
                idx_of(ii, jj, w)] == before[idx_of(ii, jj, w)] by {
                    lemma_idx_in_grid(ii, jj, w, h);
                    if idx_of(ii, jj, w) == idx_of(i as int, j as int, w) {
                        crate::lemma_idx_injective(ii, jj, i as int, j as int, w);
                    }
                }
            }
            i = i + 1;
        }
        j = j + 1;
    }
}

/// Editor state: brush configuration, clamp range, and the noise
/// function's identity (seed and frequency), held as plain values so a
/// stroke is reproducible from the state alone.
pub struct State {
    pub map_path: String,
    pub pen_radius: u32,
    pub pen_strength: i64,
    pub mode: Mode,
    pub noise_seed: u32,
    pub noise_freq_micro: u64,
    pub min_z: i64,
    pub max_z: i64,
}

impl State {
    /// Well-formedness: the radius and strength stay within the engine's
    /// arithmetic limits and the clamp range is proper.
    pub open spec fn wf(&self) -> bool {
        &&& 1 <= self.pen_radius <= MAX_RADIUS
        &&& -STRENGTH_LIMIT <= self.pen_strength <= STRENGTH_LIMIT
        &&& self.min_z <= self.max_z
        &&& elev_ok(self.min_z as int)
        &&& elev_ok(self.max_z as int)
    }

    /// The default editor state: a raise brush of radius 30 and strength
    /// 2, clamping into the codec's domain `[0, MAX_Z_MICRO]`.
    pub fn new() -> (s: State)
        ensures
            s.wf(),
            s.pen_radius == 30u32,
            s.pen_strength == 2 * SCALE,
            s.mode == Mode::Raise,
            s.noise_seed == 0u32,
            s.noise_freq_micro == 10_000_000u64,
            s.min_z == 0i64,
            s.max_z == MAX_Z_MICRO,
            s.map_path@ == "src/asset/map/map_example"@,
    {
        proof {
            broadcast use vstd::string::group_string_axioms;
        }
        State {
            map_path: "src/asset/map/map_example".to_string(),
            pen_radius: 30,
            pen_strength: 2 * SCALE,
            mode: Mode::Raise,
            noise_seed: 0,
            noise_freq_micro: 10_000_000,
            min_z: 0,
            max_z: MAX_Z_MICRO,
        }
    }

    /// Update the clamp range. A ceiling below the floor is reconciled
    /// silently, never an error: the ceiling is raised to the floor.
    pub fn set_range(&mut self, min_z: i64, max_z: i64)
        requires
            old(self).wf(),
            elev_ok(min_z as int),
            elev_ok(max_z as int),
        ensures
            final(self).wf(),
            final(self).min_z == min_z,
            final(self).max_z == (if max_z > min_z { max_z } else { min_z }),
            final(self).map_path == old(self).map_path,
            final(self).pen_radius == old(self).pen_radius,
            final(self).pen_strength == old(self).pen_strength,
            final(self).mode == old(self).mode,
            final(self).noise_seed == old(self).noise_seed,
            final(self).noise_freq_micro == old(self).noise_freq_micro,
    {
        self.min_z = min_z;
        self.max_z = if max_z > min_z {
            max_z
        } else {
            min_z
        };
    }

    /// Update the brush: radius, strength and mode.
    pub fn set_brush(&mut self, radius: u32, strength: i64, mode: Mode)
        requires
            old(self).wf(),
            1 <= radius <= MAX_RADIUS,
            -STRENGTH_LIMIT <= strength <= STRENGTH_LIMIT,
        ensures
            final(self).wf(),
            final(self).pen_radius == radius,
            final(self).pen_strength == strength,
            final(self).mode == mode,
            final(self).map_path == old(self).map_path,
            final(self).min_z == old(self).min_z,
            final(self).max_z == old(self).max_z,
            final(self).noise_seed == old(self).noise_seed,
            final(self).noise_freq_micro == old(self).noise_freq_micro,
    {
        self.pen_radius = radius;
        self.pen_strength = strength;
        self.mode = mode;
    }

    /// Update the noise function's identity.
    pub fn set_noise(&mut self, seed: u32, freq_micro: u64)
        requires
            old(self).wf(),
        ensures
            final(self).wf(),
            final(self).noise_seed == seed,
            final(self).noise_freq_micro == freq_micro,
            final(self).map_path == old(self).map_path,
            final(self).pen_radius == old(self).pen_radius,
            final(self).pen_strength == old(self).pen_strength,
            final(self).mode == old(self).mode,
            final(self).min_z == old(self).min_z,
            final(self).max_z == old(self).max_z,
    {
        self.noise_seed = seed;
        self.noise_freq_micro = freq_micro;
    }

    /// Signed strength of the tick under the held buttons.
    pub fn effective_strength(&self, buttons: Buttons) -> (eff: i64)
        requires
            self.wf(),
        ensures
            eff as int == effective_strength_spec(self.pen_strength as int, buttons),
            -STRENGTH_LIMIT <= eff <= STRENGTH_LIMIT,
    {
        if buttons.left {
            self.pen_strength
        } else if buttons.right {
            -self.pen_strength
        } else {
            0
        }
    }

    /// One tick of the stroke controller. With no button held (or a
    /// strength of zero) the stroke is a silent no-op: the field keeps
    /// every sample bit for bit and no redraw rectangle is reported. The
    /// same holds when the clamped window is empty. Otherwise the
    /// selected applier rewrites exactly the window cells, every written
    /// sample is clamped into `[min_z, max_z]`, and the touched
    /// rectangle handed back for redraw is exactly the window.
    ///
    /// For the noise mode the caller supplies one noise sample per
    /// window cell, row-major, in micro-units.
    pub fn handle_user_input(
        &self,
        buttons: Buttons,
        mi: i64,
        mj: i64,
        field: &mut HeightField,
        noise: &Vec<i64>,
    ) -> (touched: Option<Rect>)
        requires
            self.wf(),
            old(field).wf(),
            -CENTER_LIMIT <= mi <= CENTER_LIMIT,
            -CENTER_LIMIT <= mj <= CENTER_LIMIT,
            self.mode == Mode::Noise ==> noise@.len() >= window_cell_count(
                mi as int,
                mj as int,
                self.pen_radius as int,
                old(field).width as int,
                old(field).height as int,
            ) && (forall|k: int|
                0 <= k < noise@.len() ==> -NOISE_LIMIT <= #[trigger] noise@[k] <= NOISE_LIMIT),
        ensures
            final(field).wf(),
            final(field).width == old(field).width,
            final(field).height == old(field).height,
            final(field).texels.len() == old(field).texels.len(),
            ({
                let eff = effective_strength_spec(self.pen_strength as int, buttons);
                let w = old(field).width as int;
                let h = old(field).height as int;
                let r = self.pen_radius as int;
                if eff == 0 || !window_nonempty(mi as int, mj as int, r, w, h) {
                    touched is None && final(field).texels@ == old(field).texels@
                } else {
                    let i0 = win_lo(mi as int, r);
                    let i1 = win_hi(mi as int, r, w);
                    let j0 = win_lo(mj as int, r);
                    let j1 = win_hi(mj as int, r, h);
                    &&& touched == Some(
                        Rect {
                            x: i0 as u32,
                            y: j0 as u32,
                            w: (i1 - i0 + 1) as u32,
                            h: (j1 - j0 + 1) as u32,
                        },
                    )
                    &&& forall|i: int, j: int|
                        i0 <= i <= i1 && j0 <= j <= j1 ==> final(field).texels@[idx_of(i, j, w)]
                            as int == cell_new_value(
                            old(field).texels@,
                            w,
                            h,
                            self.mode,
                            eff,
                            r,
                            self.min_z as int,
                            self.max_z as int,
                            mi as int,
                            mj as int,
                            noise@,
                            i,
                            j,
                        )
                    &&& forall|i: int, j: int|
                        i0 <= i <= i1 && j0 <= j <= j1 ==> self.min_z <= #[trigger] final(
                        field).texels@[idx_of(i, j, w)] <= self.max_z
                    &&& forall|i: int, j: int|
                        0 <= i < w && 0 <= j < h && !(i0 <= i <= i1 && j0 <= j <= j1) ==> final(
                        field).texels@[idx_of(i, j, w)] == old(field).texels@[idx_of(i, j, w)]
                }
            }),
    {
        let eff: i64 = self.effective_strength(buttons);
        if eff == 0 {
            return None;
        }
        let win_opt: Option<Window> = resolve_window(
            mi,
            mj,
            self.pen_radius,
            field.width,
            field.height,
        );
        match win_opt {
            None => None,
            Some(win) => {
                let vals: Vec<i64> = stroke_values(
                    field,
                    win,
                    mi,
                    mj,
                    eff,
                    self.pen_radius,
                    self.min_z,
                    self.max_z,
                    self.mode,
                    noise,
                );
                commit_window(field, win, &vals);
                proof {
                    assert forall|i: int, j: int|
                        win.i0 <= i <= win.i1 && win.j0 <= j <= win.j1 implies 0 <= #[trigger] window_slot(
                        i,
                        j,
                        win.i0 as int,
                        win.j0 as int,
                        win.i1 - win.i0 + 1,
                    ) < vals@.len() by {
                        lemma_slot_in_count(
                            i,
                            j,
                            win.i0 as int,
                            win.i1 as int,
                            win.j0 as int,
                            win.j1 as int,
                        );
                    }
                }
                Some(
                    Rect {
                        x: win.i0 as u32,
                        y: win.j0 as u32,
                        w: (win.i1 - win.i0 + 1) as u32,
                        h: (win.j1 - win.j0 + 1) as u32,
                    },
                )
            },
        }
    }
}

} // verus!
