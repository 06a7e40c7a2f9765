//! Dense three-dimensional storage, kept in an `ndarray` array.
//!
//! Nothing in this file is proved: it states what the array type of the
//! `ndarray` crate does, as read from that crate.

use vstd::prelude::*;

verus! {

/// A three-dimensional array of raw counts, held by `ndarray`.
#[verifier::external_body]
pub struct Grid {
    cells: ndarray::Array3<i64>,
}

/// The cells of a grid, by index triple. The keys are exactly the triples
/// that lie inside the grid's shape.
pub uninterp spec fn grid_cells(g: Grid) -> Map<(int, int, int), i64>;

/// `Array3::zeros`: an array of the given shape whose cells are all zero.
/// The call panics when the shape is too large, which `requires` leaves out.
#[verifier::external_body]
pub(crate) fn grid_zeros(w: usize, h: usize, d: usize) -> (g: Grid)
    requires
        (if w == 0 { 1 } else { w as int }) * (if h == 0 { 1 } else { h as int })
            * (if d == 0 { 1 } else { d as int }) * 8 <= isize::MAX,
    ensures
        forall|i: int, j: int, c: int| #[trigger]
            grid_cells(g).contains_key((i, j, c)) <==> (0 <= i < w && 0 <= j < h && 0 <= c < d),
        forall|i: int, j: int, c: int|
            0 <= i < w && 0 <= j < h && 0 <= c < d ==> #[trigger] grid_cells(g)[(i, j, c)] == 0,
{
    Grid { cells: ndarray::Array3::zeros((w, h, d)) }
}

/// Indexing an array by `[i, j, c]`: the cell at that triple. Out of the
/// shape the index panics, which `requires` leaves out.
#[verifier::external_body]
pub(crate) fn grid_get(g: &Grid, i: usize, j: usize, c: usize) -> (v: i64)
    requires
        grid_cells(*g).contains_key((i as int, j as int, c as int)),
    ensures
        v == grid_cells(*g)[(i as int, j as int, c as int)],
{
    g.cells[[i, j, c]]
}

/// Assigning through the index `[i, j, c]`: that cell changes, no other does,
/// and the shape stays.
#[verifier::external_body]
pub(crate) fn grid_set(g: &mut Grid, i: usize, j: usize, c: usize, v: i64)
    requires
        grid_cells(*old(g)).contains_key((i as int, j as int, c as int)),
    ensures
        grid_cells(*final(g)) == grid_cells(*old(g)).insert((i as int, j as int, c as int), v),
{
    g.cells[[i, j, c]] = v;
}

} // verus!
