//! The two-dimensional array that holds a tile's heights.
//!
//! The array is an `ndarray::Array2<i64>`. Its type is bound by traits of
//! `ndarray` that the verifier cannot be told of, so the array sits in an
//! opaque struct, and the verifier sees it through two names: its shape and
//! its cells. What this crate believes of the array is stated here and
//! nowhere else.

use vstd::prelude::*;

verus! {

/// A two-dimensional array of heights, kept in an `ndarray::Array2<i64>`.
#[verifier::external_body]
#[derive(Debug)]
pub struct HeightArray {
    cells: ndarray::Array2<i64>,
}

/// The lengths of the two axes of an array.
pub uninterp spec fn array_shape(a: HeightArray) -> (nat, nat);

/// The cells of an array, keyed by the index along the first and along the
/// second axis.
pub uninterp spec fn array_cells(a: HeightArray) -> Map<(int, int), i64>;

/// `ndarray::ArrayBase::from_elem` with a two-axis shape: an array of the
/// given shape with `value` in every cell. The call panics where the
/// product of the axis lengths that are not zero overflows `isize`. Here
/// no axis is zero, so that product is the cell count, and the bound on it
/// also keeps the bytes in range.
#[verifier::external_body]
pub(crate) fn array_filled(rows: usize, cols: usize, value: i64) -> (a: HeightArray)
    requires
        rows > 0,
        cols > 0,
        rows * cols * 8 <= isize::MAX,
    ensures
        array_shape(a) == (rows as nat, cols as nat),
        forall|x: int, y: int|
            0 <= x < rows && 0 <= y < cols ==> #[trigger] array_cells(a)[(x, y)] == value,
{
    HeightArray { cells: ndarray::Array2::from_elem((rows, cols), value) }
}

/// `ndarray::ArrayBase::dim`: the lengths of the two axes.
#[verifier::external_body]
pub(crate) fn array_dim(a: &HeightArray) -> (shape: (usize, usize))
    ensures
        shape.0 == array_shape(*a).0,
        shape.1 == array_shape(*a).1,
{
    a.cells.dim()
}

/// Indexing of an `ndarray` array by `[x, y]`: the cell at that place. The
/// call panics outside the shape.
#[verifier::external_body]
pub(crate) fn array_get(a: &HeightArray, x: usize, y: usize) -> (value: i64)
    requires
        x < array_shape(*a).0,
        y < array_shape(*a).1,
    ensures
        value == array_cells(*a)[(x as int, y as int)],
{
    a.cells[[x, y]]
}

/// Assignment through the index `[x, y]` of an `ndarray` array: that cell
/// takes `value`, every other cell and the shape stay. The call panics
/// outside the shape.
#[verifier::external_body]
pub(crate) fn array_set(a: &mut HeightArray, x: usize, y: usize, value: i64)
    requires
        x < array_shape(*old(a)).0,
        y < array_shape(*old(a)).1,
    ensures
        array_shape(*final(a)) == array_shape(*old(a)),
        array_cells(*final(a)) == array_cells(*old(a)).insert((x as int, y as int), value),
    no_unwind
{
    a.cells[[x, y]] = value;
}

} // verus!
