//! The flat persisted form of a grid and its checked conversions.
//!
//! A snapshot carries the step budget, the two dimensions, and the rows
//! as nested sequences of tiles. Animations and the pending flag are
//! never persisted: a loaded grid is freshly idle. Rebuilding a grid
//! from a snapshot validates the shape and reports a typed error rather
//! than aborting.

use vstd::prelude::*;

use crate::grid::Grid;
use crate::matrix::matrix_from_vec;
use crate::tile::Tile;

verus! {

/// Why a snapshot could not be turned back into a grid.
#[derive(Clone, Copy, Debug, PartialEq, Eq, Structural)]
pub enum SnapshotError {
    /// The text form is not a well-formed snapshot document.
    Malformed,
    /// The row and column counts disagree with the tiles present, or the
    /// declared shape is too large to index.
    DimensionMismatch,
}

/// The flat, row-major persisted form of a grid.
pub struct VecGrid {
    pub steps: usize,
    pub data: Vec<Vec<Tile>>,
    pub height: usize,
    pub width: usize,
}

impl VecGrid {
    /// The declared shape agrees with the rows present and is small
    /// enough to index: each axis and the cell count stay within `isize`.
    pub open spec fn consistent(self) -> bool {
        &&& self.data@.len() == self.height
        &&& forall|y: int| 0 <= y < self.height ==> (#[trigger] self.data@[y])@.len()
            == self.width
        &&& self.height <= isize::MAX
        &&& self.width <= isize::MAX
        &&& self.height * self.width <= isize::MAX
    }
}

impl Grid {
    /// The flat persisted form of this grid: its step budget, shape, and
    /// rows of tiles.
    pub fn to_vec(&self) -> (v: VecGrid)
        requires
            self.wf(),
        ensures
            v.consistent(),
            v.steps == self.spec_steps(),
            v.height == self.h(),
            v.width == self.w(),
            forall|y: int, x: int|
                0 <= y < self.h() && 0 <= x < self.w() ==> #[trigger] v.data@[y]@[x]
                    == self.tile_at(y, x),
    {
        let h = self.get_height();
        let w = self.get_width();
        let mut data: Vec<Vec<Tile>> = Vec::new();
        let mut y: usize = 0;
        while y < h
            invariant
                self.wf(),
                h == self.h(),
                w == self.w(),
                y <= h,
                data@.len() == y,
                forall|yy: int| 0 <= yy < y ==> (#[trigger] data@[yy])@.len() == w,
                forall|yy: int, x: int|
                    0 <= yy < y && 0 <= x < w ==> #[trigger] data@[yy]@[x] == self.tile_at(
                        yy,
                        x,
                    ),
            decreases h - y,
        {
            let mut row: Vec<Tile> = Vec::new();
            let mut x: usize = 0;
            while x < w
                invariant
                    self.wf(),
                    h == self.h(),
                    w == self.w(),
                    y < h,
                    x <= w,
                    row@.len() == x,
                    forall|xx: int|
                        0 <= xx < x ==> #[trigger] row@[xx] == self.tile_at(y as int, xx),
                decreases w - x,
            {
                row.push(self.get(y, x).unwrap());
                x = x + 1;
            }
            data.push(row);
            y = y + 1;
        }
        proof {
            assert(h as int * (w as int) == self.h() as int * (self.w() as int));
        }
        VecGrid { steps: self.get_steps(), data, height: h, width: w }
    }

    /// A read-only snapshot of the tile matrix as rows, for a renderer
    /// that walks cells row by row.
    pub fn get_tiles_view(&self) -> (rows: Vec<Vec<Tile>>)
        requires
            self.wf(),
        ensures
            rows@.len() == self.h(),
            forall|y: int| 0 <= y < self.h() ==> (#[trigger] rows@[y])@.len() == self.w(),
            forall|y: int, x: int|
                0 <= y < self.h() && 0 <= x < self.w() ==> #[trigger] rows@[y]@[x] == self.tile_at(
                    y,
                    x,
                ),
    {
        self.to_vec().data
    }

    /// Rebuilds a grid from its persisted form. Succeeds exactly on a
    /// consistent snapshot; the grid comes back idle, with no animations
    /// and no pending clear. An inconsistent shape is reported, never
    /// trusted.
    pub fn from_vec(v: VecGrid) -> (r: Result<Grid, SnapshotError>)
        ensures
            r is Ok <==> v.consistent(),
            match r {
                Ok(g) => {
                    &&& g.wf()
                    &&& g.h() == v.height
                    &&& g.w() == v.width
                    &&& g.spec_steps() == v.steps
                    &&& forall|y: int, x: int|
                        0 <= y < v.height && 0 <= x < v.width ==> g.tile_at(y, x)
                            == #[trigger] v.data@[y]@[x]
                    &&& g.anims() == Seq::<crate::anim::Animation>::empty()
                    &&& !g.spec_pending_pop()
                },
                Err(e) => e == SnapshotError::DimensionMismatch,
            },
    {
        if v.data.len() != v.height {
            return Err(SnapshotError::DimensionMismatch);
        }
        if v.height > isize::MAX as usize || v.width > isize::MAX as usize {
            return Err(SnapshotError::DimensionMismatch);
        }
        match v.height.checked_mul(v.width) {
            Some(cells) => {
                if cells > isize::MAX as usize {
                    return Err(SnapshotError::DimensionMismatch);
                }
            },
            None => {
                return Err(SnapshotError::DimensionMismatch);
            },
        }
        let mut flat: Vec<Tile> = Vec::new();
        let mut y: usize = 0;
        while y < v.height
            invariant
                v.data@.len() == v.height,
                v.height * v.width <= isize::MAX,
                y <= v.height,
                forall|yy: int| 0 <= yy < y ==> (#[trigger] v.data@[yy])@.len() == v.width,
                flat@.len() == y * v.width,
                forall|yy: int, x: int|
                    0 <= yy < y && 0 <= x < v.width ==> flat@[yy * v.width + x]
                        == #[trigger] v.data@[yy]@[x],
            decreases v.height - y,
        {
            let row = &v.data[y];
            if row.len() != v.width {
                return Err(SnapshotError::DimensionMismatch);
            }
            let mut x: usize = 0;
            while x < v.width
                invariant
                    v.data@.len() == v.height,
                    v.height * v.width <= isize::MAX,
                    y < v.height,
                    x <= v.width,
                    row@ == v.data@[y as int]@,
                    row@.len() == v.width,
                    forall|yy: int| 0 <= yy <= y ==> (#[trigger] v.data@[yy])@.len() == v.width,
                    flat@.len() == y * v.width + x,
                    forall|yy: int, xx: int|
                        0 <= yy < y && 0 <= xx < v.width ==> flat@[yy * v.width + xx]
                            == #[trigger] v.data@[yy]@[xx],
                    forall|xx: int|
                        0 <= xx < x ==> flat@[y * v.width + xx] == #[trigger] v.data@[y as int]@[xx],
                decreases v.width - x,
            {
                proof {
                    crate::grid::lemma_cell_index_bounds(
                        v.height as int,
                        v.width as int,
                        y as int,
                        x as int,
                    );
                }
                flat.push(row[x]);
                proof {
                    assert forall|yy: int, xx: int|
                        0 <= yy < y && 0 <= xx < v.width implies flat@[yy * v.width + xx]
                        == v.data@[yy]@[xx] by {
                        crate::grid::lemma_cell_index_bounds(y as int, v.width as int, yy, xx);
                    }
                }
                x = x + 1;
            }
            proof {
                assert((y as int + 1) * v.width == y as int * v.width + v.width)
                    by (nonlinear_arith);
            }
            y = y + 1;
        }
        let tiles = matrix_from_vec(v.height, v.width, flat);
        Ok(Grid::from_parts(v.steps, tiles))
    }
}

} // verus!
