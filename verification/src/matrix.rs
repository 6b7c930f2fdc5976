//! Trusted boundary around the `ndarray` two-dimensional tile storage.
//!
//! `ndarray::ArrayBase` cannot be declared to the verifier (its generics are
//! bounded by the `RawData` trait), so the array is held in an opaque struct.
//! Its contents are named by `tiles_of`, `rows_of` and `cols_of`, and each
//! method the grid logic calls is wrapped with a contract over those names.

use vstd::prelude::*;

use crate::tile::Tile;

verus! {

/// Owns an `ndarray::Array2<Tile>` in the default (row-major) layout.
/// Opaque to the verifier; described only through the names below.
#[verifier::external_body]
pub struct TileMatrix {
    inner: ndarray::Array2<Tile>,
}

/// The tiles held by the matrix, flattened row-major.
pub uninterp spec fn tiles_of(m: TileMatrix) -> Seq<Tile>;

/// The number of rows of the matrix.
pub uninterp spec fn rows_of(m: TileMatrix) -> nat;

/// The number of columns of the matrix.
pub uninterp spec fn cols_of(m: TileMatrix) -> nat;

/// Relies on ndarray's `Array2::from_elem`: builds an array of shape
/// `(h, w)` with every element a copy of `elem`, in the default row-major
/// layout. It panics only if the product of the non-zero axis lengths
/// overflows `isize`; with each axis and the full product bounded by
/// `isize::MAX`, that product is bounded whichever axes are zero.
#[verifier::external_body]
pub(crate) fn matrix_from_elem(h: usize, w: usize, elem: Tile) -> (m: TileMatrix)
    requires
        h <= isize::MAX,
        w <= isize::MAX,
        h * w <= isize::MAX,
    ensures
        rows_of(m) == h,
        cols_of(m) == w,
        tiles_of(m).len() == h * w,
        forall|i: int| 0 <= i < h * w ==> tiles_of(m)[i] == elem,
{
    TileMatrix { inner: ndarray::Array2::from_elem((h, w), elem) }
}

/// Relies on ndarray's `Array2::from_shape_vec`: with the default strides
/// it returns `Ok` exactly when the product of the non-zero axis lengths
/// stays within `isize` and the shape's element count equals the vector's
/// length, reinterpreting the vector row-major. The preconditions bound
/// each axis and the full product, so both conditions hold and the `Ok`
/// case is certain.
#[verifier::external_body]
pub(crate) fn matrix_from_vec(h: usize, w: usize, v: Vec<Tile>) -> (m: TileMatrix)
    requires
        v@.len() == h * w,
        h <= isize::MAX,
        w <= isize::MAX,
        h * w <= isize::MAX,
    ensures
        rows_of(m) == h,
        cols_of(m) == w,
        tiles_of(m) == v@,
{
    TileMatrix { inner: ndarray::Array2::from_shape_vec((h, w), v).unwrap() }
}

/// Relies on ndarray's `get`: returns the element at `(y, x)` when the index
/// is in bounds and `None` otherwise; the offset for an in-bounds index in
/// the default layout is `y * ncols + x`.
#[verifier::external_body]
pub(crate) fn matrix_get(m: &TileMatrix, y: usize, x: usize) -> (r: Option<Tile>)
    ensures
        (y < rows_of(*m) && x < cols_of(*m)) ==> r == Some(
            tiles_of(*m)[y * cols_of(*m) + x],
        ),
        !(y < rows_of(*m) && x < cols_of(*m)) ==> r is None,
{
    m.inner.get((y, x)).copied()
}

/// Relies on ndarray's `swap`: exchanges the elements at two in-bounds
/// indices (which may be equal) and panics on an out-of-bounds index, which
/// the precondition rules out.
#[verifier::external_body]
pub(crate) fn matrix_swap(m: &mut TileMatrix, y1: usize, x1: usize, y2: usize, x2: usize)
    requires
        y1 < rows_of(*old(m)),
        x1 < cols_of(*old(m)),
        y2 < rows_of(*old(m)),
        x2 < cols_of(*old(m)),
    ensures
        rows_of(*final(m)) == rows_of(*old(m)),
        cols_of(*final(m)) == cols_of(*old(m)),
        tiles_of(*final(m)) == tiles_of(*old(m)).update(
            y1 * cols_of(*old(m)) + x1,
            tiles_of(*old(m))[y2 * cols_of(*old(m)) + x2],
        ).update(
            y2 * cols_of(*old(m)) + x2,
            tiles_of(*old(m))[y1 * cols_of(*old(m)) + x1],
        ),
{
    m.inner.swap((y1, x1), (y2, x2));
}

/// Relies on ndarray's `nrows`: the length of the first axis.
#[verifier::external_body]
pub(crate) fn matrix_nrows(m: &TileMatrix) -> (r: usize)
    ensures
        r == rows_of(*m),
{
    m.inner.nrows()
}

/// Relies on ndarray's `ncols`: the length of the second axis.
#[verifier::external_body]
pub(crate) fn matrix_ncols(m: &TileMatrix) -> (r: usize)
    ensures
        r == cols_of(*m),
{
    m.inner.ncols()
}

/// Relies on ndarray's `get_mut`: returns a mutable reference to the element
/// at an in-bounds index, through which the wrapper stores `t`.
#[verifier::external_body]
pub(crate) fn matrix_set(m: &mut TileMatrix, y: usize, x: usize, t: Tile)
    requires
        y < rows_of(*old(m)),
        x < cols_of(*old(m)),
    ensures
        rows_of(*final(m)) == rows_of(*old(m)),
        cols_of(*final(m)) == cols_of(*old(m)),
        tiles_of(*final(m)) == tiles_of(*old(m)).update(y * cols_of(*old(m)) + x, t),
{
    if let Some(cell) = m.inner.get_mut((y, x)) {
        *cell = t;
    }
}

} // verus!
