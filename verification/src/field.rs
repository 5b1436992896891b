//! The height field: a dense row-major grid of fixed-point elevation
//! samples, and the touched-rectangle record a stroke or a load reports
//! for redraw.

use vstd::prelude::*;
use crate::{elev_ok, idx_of, MAX_DIM};

verus! {

/// A rectangular grid region: origin cell `(x, y)`, `w` columns and `h`
/// rows. Reported to the redraw collaborator after a stroke or a load.
#[derive(Clone, Copy, PartialEq, Eq, Structural, Debug)]
pub struct Rect {
    pub x: u32,
    pub y: u32,
    pub w: u32,
    pub h: u32,
}

/// A dense 2D grid of elevation samples in micro-units, row-major with
/// the origin at the top-left cell.
pub struct HeightField {
    pub width: usize,
    pub height: usize,
    pub texels: Vec<i64>,
}

impl HeightField {
    /// Well-formedness: the sample vector covers the grid exactly, the
    /// grid is no larger than the engine accepts, and every sample is in
    /// the representable elevation range.
    pub open spec fn wf(&self) -> bool {
        &&& self.texels.len() == self.width * self.height
        &&& self.width <= MAX_DIM
        &&& self.height <= MAX_DIM
        &&& forall|k: int| 0 <= k < self.texels.len() ==> elev_ok(#[trigger] self.texels[k] as int)
    }

    /// Elevation at cell `(i, j)` as a spec value.
    pub open spec fn at(&self, i: int, j: int) -> int {
        self.texels[idx_of(i, j, self.width as int)] as int
    }

    /// A fresh field with every cell at `fill`.
    pub fn new(width: usize, height: usize, fill: i64) -> (f: HeightField)
        requires
            width <= MAX_DIM,
            height <= MAX_DIM,
            elev_ok(fill as int),
        ensures
            f.wf(),
            f.width == width,
            f.height == height,
            forall|k: int| 0 <= k < f.texels.len() ==> #[trigger] f.texels[k] == fill,
    {
        proof {
            lemma_grid_cells_bounded(width as int, height as int);
        }
        let n: usize = width * height;
        let mut texels: Vec<i64> = Vec::new();
        let mut k: usize = 0;
        while k < n
            invariant
                k <= n,
                texels.len() == k,
                forall|m: int| 0 <= m < k ==> #[trigger] texels[m] == fill,
            decreases n - k,
        {
            texels.push(fill);
            k = k + 1;
        }
        HeightField { width, height, texels }
    }

    /// Elevation at cell `(i, j)`.
    pub fn get(&self, i: usize, j: usize) -> (v: i64)
        requires
            self.wf(),
            i < self.width,
            j < self.height,
        ensures
            v == self.at(i as int, j as int),
    {
        proof {
            lemma_idx_in_grid(i as int, j as int, self.width as int, self.height as int);
        }
        self.texels[i + j * self.width]
    }

    /// Overwrite cell `(i, j)`, leaving every other cell untouched.
    pub fn set(&mut self, i: usize, j: usize, v: i64)
        requires
            old(self).wf(),
            i < old(self).width,
            j < old(self).height,
            elev_ok(v as int),
        ensures
            final(self).wf(),
            final(self).width == old(self).width,
            final(self).height == old(self).height,
            final(self).texels.len() == old(self).texels.len(),
            final(self).at(i as int, j as int) == v,
            forall|k: int|
                0 <= k < final(self).texels.len() && k != idx_of(
                    i as int,
                    j as int,
                    old(self).width as int,
                ) ==> #[trigger] final(self).texels[k] == old(self).texels[k],
    {
        proof {
            lemma_idx_in_grid(i as int, j as int, self.width as int, self.height as int);
        }
        let idx: usize = i + j * self.width;
        self.texels.set(idx, v);
    }

    /// Set every cell of the grid to `value` and report the whole grid
    /// as touched; this backs the editor's clear action.
    pub fn fill(&mut self, value: i64) -> (touched: Rect)
        requires
            old(self).wf(),
            elev_ok(value as int),
        ensures
            final(self).wf(),
            final(self).width == old(self).width,
            final(self).height == old(self).height,
            final(self).texels.len() == old(self).texels.len(),
            forall|k: int| 0 <= k < final(self).texels.len() ==> #[trigger] final(self).texels[k] == value,
            touched == (Rect { x: 0u32, y: 0u32, w: old(self).width as u32, h: old(self).height as u32 }),
    {
        let n: usize = self.texels.len();
        let mut k: usize = 0;
        while k < n
            invariant
                k <= n,
                self.wf(),
                self.width == old(self).width,
                self.height == old(self).height,
                self.texels.len() == n,
                elev_ok(value as int),
                forall|m: int| 0 <= m < k ==> #[trigger] self.texels[m] == value,
            decreases n - k,
        {
            self.texels.set(k, value);
            k = k + 1;
        }
        Rect { x: 0, y: 0, w: self.width as u32, h: self.height as u32 }
    }
}

/// A grid within the accepted sides has at most `MAX_DIM * MAX_DIM`
/// cells.
pub proof fn lemma_grid_cells_bounded(w: int, h: int)
    requires
        0 <= w <= MAX_DIM,
        0 <= h <= MAX_DIM,
    ensures
        0 <= w * h <= MAX_DIM * MAX_DIM,
{
    assert(0 <= w * h <= MAX_DIM * MAX_DIM) by (nonlinear_arith)
        requires
            0 <= w <= MAX_DIM,
            0 <= h <= MAX_DIM,
    ;
}

/// A cell inside the grid has its row-major index inside the sample
/// vector.
pub proof fn lemma_idx_in_grid(i: int, j: int, w: int, h: int)
    requires
        0 <= i < w,
        0 <= j < h,
    ensures
        0 <= idx_of(i, j, w) < w * h,
{
    assert(i + j * w < w * h) by (nonlinear_arith)
        requires
            0 <= i < w,
            0 <= j < h,
    ;
    assert(0 <= i + j * w) by (nonlinear_arith)
        requires
            0 <= i,
            0 <= j,
            w > 0,
    ;
}

} // verus!
