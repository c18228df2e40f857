use vstd::prelude::*;
use crate::rat::Rat;

verus! {

/// The tableau's working storage: an `ndarray` two-dimensional array of
/// rational coefficients. Verus cannot see inside `ndarray::ArrayBase`
/// (its `RawData` bound cannot be declared here), so the array sits in a
/// private field and is reached only through the trusted wrappers below.
#[verifier::external_body]
pub struct Grid {
    cells: ndarray::Array2<Rat>,
}

/// What the grid holds: one sequence per row, in row order.
pub uninterp spec fn grid_of(g: Grid) -> Seq<Seq<Rat>>;

impl Grid {
    /// Relies on ndarray::Array2::from_shape_vec: a `rows` x `cols` array
    /// built from a row-major buffer of exactly `rows * cols` items. The
    /// size bound keeps the construction within the ranges the crate
    /// accepts, so the call cannot fail.
    #[verifier::external_body]
    pub fn from_flat(rows: usize, cols: usize, cells: Vec<Rat>) -> (g: Grid)
        requires
            cells@.len() == rows as int * cols as int,
            rows as int * cols as int <= 0x7fff_ffff,
        ensures
            grid_of(g).len() == rows as int,
            forall|i: int| 0 <= i < rows as int ==> (#[trigger] grid_of(g)[i]).len() == cols as int,
            forall|i: int, j: int|
                0 <= i < rows as int && 0 <= j < cols as int
                    ==> #[trigger] grid_of(g)[i][j] == cells@[i * cols as int + j],
    {
        Grid { cells: ndarray::Array2::from_shape_vec((rows, cols), cells).unwrap() }
    }

    /// Relies on ndarray::ArrayBase::nrows: the number of rows.
    #[verifier::external_body]
    pub fn nrows(&self) -> (r: usize)
        ensures
            r as int == grid_of(*self).len(),
    {
        self.cells.nrows()
    }

    /// Relies on ndarray::ArrayBase::ncols: the number of columns; every row
    /// of a two-dimensional `ndarray` array has this length.
    #[verifier::external_body]
    pub fn ncols(&self) -> (r: usize)
        ensures
            forall|i: int| 0 <= i < grid_of(*self).len()
                ==> (#[trigger] grid_of(*self)[i]).len() == r as int,
    {
        self.cells.ncols()
    }

    /// Relies on ndarray::ArrayBase's indexing (`Index<[usize; 2]>`): the
    /// element at row `i`, column `j`.
    #[verifier::external_body]
    pub fn get(&self, i: usize, j: usize) -> (r: Rat)
        requires
            (i as int) < grid_of(*self).len(),
            (j as int) < grid_of(*self)[i as int].len(),
        ensures
            r == grid_of(*self)[i as int][j as int],
    {
        self.cells[[i, j]]
    }
}

} // verus!
