use vstd::prelude::*;
use crate::grid::Grid;
use crate::grid::grid_of;
use crate::rat::{
    Rat, Ratio, rat_div, rat_eq, rat_fits, rat_le, rat_lt, rat_mul, rat_neg, rat_recip, rat_sub,
    ratio_less, recip_cell, div_cell, div_neg_cell, sub_mul_div_cell, lemma_div_wf,
    lemma_rat_lt_lt_trans, lemma_rat_lt_le_trans, lemma_recip_twice,
    lemma_gen_cell_twice,
    lemma_row_cell_twice, lemma_col_cell_twice,
};

verus! {

/// Why a solve stopped without an optimum.
#[derive(Clone, Copy, Debug, PartialEq, Eq, Structural)]
pub enum SimplexError {
    /// No pivot row was eligible while restoring feasibility, or a pivot's
    /// exact coefficients left the representable range.
    UnableToCalculateError,
    /// The objective is unbounded.
    UnlimitedError,
    /// The constraints admit no feasible point.
    NoSolutionsError,
    /// The inputs' shapes are inconsistent or too large.
    InvalidDataError,
    /// The pivot cap was reached before either phase finished (the method
    /// itself has no termination bound on cycling inputs).
    IterationLimitExceeded,
}

/// The variable a row or column slot currently stands for: a 1-based
/// variable index, the objective row's marker, or the free-term column's
/// marker.
#[derive(Clone, Copy, Debug, PartialEq, Eq, Structural)]
pub enum Label {
    Var(usize),
    Objective,
    FreeTerm,
}

/// How many pivots `optimise` performs before giving up.
pub const ITERATION_LIMIT: usize = 1000000;

/// The simplex tableau: an (m+1) x (n+1) augmented matrix (constraint rows,
/// then the objective row; coefficient columns, then the free-term column),
/// with one label per row for the variable basic there and one label per
/// column for the variable non-basic there.
pub struct Table {
    pub table: Grid,
    pub base_var: Vec<Label>,
    pub supp_var: Vec<Label>,
}

impl Table {
    /// The matrix as a sequence of rows.
    pub open spec fn mat(self) -> Seq<Seq<Rat>> {
        grid_of(self.table)
    }

    /// Number of rows, m + 1.
    pub open spec fn rows(self) -> int {
        self.mat().len() as int
    }

    /// Number of columns, n + 1.
    pub open spec fn cols(self) -> int {
        self.mat()[0].len() as int
    }

    /// The model value of the cell at row `i`, column `j`.
    pub open spec fn at(self, i: int, j: int) -> Ratio {
        self.mat()[i][j]@
    }

    /// Row `i`'s free term (last column).
    pub open spec fn free_of(self, i: int) -> Ratio {
        self.at(i, self.cols() - 1)
    }

    /// The objective row's coefficient in column `j`.
    pub open spec fn obj_of(self, j: int) -> Ratio {
        self.at(self.rows() - 1, j)
    }

    /// Structural soundness: a rectangular, non-empty matrix of well-formed
    /// rationals, within the size the crate accepts, one label per row and
    /// per column.
    pub open spec fn wf(self) -> bool {
        &&& self.rows() >= 1
        &&& self.cols() >= 1
        &&& self.rows() * self.cols() <= 0x7fff_ffff
        &&& forall|i: int| 0 <= i < self.rows() ==> (#[trigger] self.mat()[i]).len() == self.cols()
        &&& forall|i: int, j: int|
            0 <= i < self.rows() && 0 <= j < self.cols() ==> (#[trigger] self.mat()[i][j]).wf()
        &&& self.base_var@.len() == self.rows()
        &&& self.supp_var@.len() == self.cols()
    }

    /// Phase 1 is finished: no constraint row has a negative free term
    /// (zero does not count as negative).
    pub open spec fn feasible_done(self) -> bool {
        forall|i: int| 0 <= i < self.rows() - 1 ==> (#[trigger] self.free_of(i)).n >= 0
    }

    /// Phase 2 is finished: no objective-row coefficient left of the
    /// free-term column is strictly positive.
    pub open spec fn optimal_done(self) -> bool {
        forall|j: int| 0 <= j < self.cols() - 1 ==> (#[trigger] self.obj_of(j)).n <= 0
    }

    /// Row `i` may leave the basis for pivot column `col`: the ratio
    /// free term / coefficient is defined and non-negative, with a zero
    /// ratio eligible only on a positive coefficient (the sign-bit rule:
    /// a ratio of +0 is eligible, one of -0 is not). In particular a row
    /// whose free term and coefficient are both negative is eligible,
    /// which is how feasibility restoration can pivot on the very row it
    /// repairs.
    pub open spec fn eligible(self, col: int, i: int) -> bool {
        &&& 0 <= i < self.rows() - 1
        &&& ((self.at(i, col).n > 0 && self.free_of(i).n >= 0) || (self.at(i, col).n < 0
            && self.free_of(i).n < 0))
    }

    /// The ratio tested for row `i` in pivot column `col`.
    pub open spec fn row_ratio(self, col: int, i: int) -> Ratio {
        rat_div(self.free_of(i), self.at(i, col))
    }

    /// Row `i` wins the ratio test in column `col`: eligible, no earlier
    /// eligible row ties or beats it, and no later eligible row beats it.
    pub open spec fn selected_pivot_row(self, col: int, i: int) -> bool {
        &&& self.eligible(col, i)
        &&& forall|k: int|
            #[trigger] self.eligible(col, k) ==> (k < i ==> rat_lt(
                self.row_ratio(col, i),
                self.row_ratio(col, k),
            )) && (k > i ==> rat_le(self.row_ratio(col, i), self.row_ratio(col, k)))
    }

    /// Row `i` is the topmost constraint row with a negative free term.
    pub open spec fn is_first_neg_free(self, i: int) -> bool {
        &&& 0 <= i < self.rows() - 1
        &&& self.free_of(i).n < 0
        &&& forall|k: int| 0 <= k < i ==> (#[trigger] self.free_of(k)).n >= 0
    }

    /// Column `j` is the leftmost coefficient column with a negative entry
    /// in row `r`.
    pub open spec fn is_first_neg_in_row(self, r: int, j: int) -> bool {
        &&& 0 <= j < self.cols() - 1
        &&& self.at(r, j).n < 0
        &&& forall|k: int| 0 <= k < j ==> (#[trigger] self.at(r, k)).n >= 0
    }

    /// Column `j` is the leftmost coefficient column whose objective-row
    /// entry is strictly positive.
    pub open spec fn is_first_pos_obj(self, j: int) -> bool {
        &&& 0 <= j < self.cols() - 1
        &&& self.obj_of(j).n > 0
        &&& forall|k: int| 0 <= k < j ==> (#[trigger] self.obj_of(k)).n <= 0
    }

    /// The model value the Gauss-Jordan transform at pivot `(p, q)` writes
    /// into cell `(i, j)`: the pivot cell becomes `1 / v`, the pivot row is
    /// divided by `v`, the pivot column by `-v`, and every other cell `a`
    /// becomes `a - b * c / v` (with `b` taken from the pivot row and `c`
    /// from the pivot column).
    pub open spec fn gj_cell(self, p: int, q: int, i: int, j: int) -> Ratio {
        let v = self.at(p, q);
        if i == p && j == q {
            rat_recip(v)
        } else if i == p {
            rat_div(self.at(i, j), v)
        } else if j == q {
            rat_neg(rat_div(self.at(i, j), v))
        } else {
            rat_sub(self.at(i, j), rat_div(rat_mul(self.at(p, j), self.at(i, q)), v))
        }
    }

    /// Every cell the transform at `(p, q)` would write fits the
    /// fixed-width representation.
    pub open spec fn gj_fits(self, p: int, q: int) -> bool {
        forall|i: int, j: int|
            0 <= i < self.rows() && 0 <= j < self.cols() ==> rat_fits(
                #[trigger] self.gj_cell(p, q, i, j),
            )
    }

    /// Whether any objective-row coefficient left of the free-term column
    /// is still strictly positive; true means phase 2 is finished.
    pub fn check_optimised(&self) -> (r: bool)
        requires
            self.wf(),
        ensures
            r == self.optimal_done(),
    {
        let rows = self.table.nrows();
        let cols = self.table.ncols();
        let mut j: usize = 0;
        while j < cols - 1
            invariant
                self.wf(),
                rows as int == self.rows(),
                cols as int == self.cols(),
                j as int <= self.cols() - 1,
                forall|k: int| 0 <= k < j as int ==> (#[trigger] self.obj_of(k)).n <= 0,
            decreases self.cols() - 1 - j as int,
        {
            if self.table.get(rows - 1, j).num > 0 {
                proof {
                    assert(self.obj_of(j as int).n > 0);
                }
                return false;
            }
            j += 1;
        }
        true
    }

    /// The topmost constraint row whose free term is negative, if any;
    /// `None` means phase 1 is finished.
    pub fn find_in_free_column(&self) -> (r: Option<usize>)
        requires
            self.wf(),
        ensures
            match r {
                Some(i) => self.is_first_neg_free(i as int),
                None => self.feasible_done(),
            },
    {
        let rows = self.table.nrows();
        let cols = self.table.ncols();
        let mut i: usize = 0;
        while i < rows - 1
            invariant
                self.wf(),
                rows as int == self.rows(),
                cols as int == self.cols(),
                i as int <= self.rows() - 1,
                forall|k: int| 0 <= k < i as int ==> (#[trigger] self.free_of(k)).n >= 0,
            decreases self.rows() - 1 - i as int,
        {
            if self.table.get(i, cols - 1).num < 0 {
                return Some(i);
            }
            i += 1;
        }
        None
    }

    /// The leftmost coefficient column with a negative entry in `row`, if
    /// any; `None` means the row cannot be made acceptable.
    pub fn find_neg_in_row(&self, row: usize) -> (r: Option<usize>)
        requires
            self.wf(),
            (row as int) < self.rows(),
        ensures
            match r {
                Some(j) => self.is_first_neg_in_row(row as int, j as int),
                None => forall|k: int|
                    0 <= k < self.cols() - 1 ==> (#[trigger] self.at(row as int, k)).n >= 0,
            },
    {
        let cols = self.table.ncols();
        let mut j: usize = 0;
        while j < cols - 1
            invariant
                self.wf(),
                (row as int) < self.rows(),
                cols as int == self.cols(),
                j as int <= self.cols() - 1,
                forall|k: int| 0 <= k < j as int ==> (#[trigger] self.at(row as int, k)).n >= 0,
            decreases self.cols() - 1 - j as int,
        {
            if self.table.get(row, j).num < 0 {
                return Some(j);
            }
            j += 1;
        }
        None
    }

    /// The ratio test: among constraint rows with a strictly positive
    /// coefficient in `column` and a non-negative free term, the row with
    /// the smallest free term / coefficient ratio; the topmost such row on
    /// ties. `None` when no row is eligible.
    pub fn find_pivot_row(&self, column: usize) -> (r: Option<usize>)
        requires
            self.wf(),
            (column as int) < self.cols(),
        ensures
            match r {
                Some(i) => self.selected_pivot_row(column as int, i as int),
                None => forall|k: int| !self.eligible(column as int, k),
            },
    {
        let rows = self.table.nrows();
        let cols = self.table.ncols();
        let mut best: Option<usize> = None;
        let mut i: usize = 0;
        while i < rows - 1
            invariant
                self.wf(),
                rows as int == self.rows(),
                cols as int == self.cols(),
                (column as int) < self.cols(),
                i as int <= self.rows() - 1,
                match best {
                    Some(b) => (b as int) < i as int && self.eligible(column as int, b as int)
                        && forall|k: int|
                        #[trigger] self.eligible(column as int, k) && k < i as int ==> (k
                            < b as int ==> rat_lt(
                            self.row_ratio(column as int, b as int),
                            self.row_ratio(column as int, k),
                        )) && (k > b as int ==> rat_le(
                            self.row_ratio(column as int, b as int),
                            self.row_ratio(column as int, k),
                        )),
                    None => forall|k: int| 0 <= k < i as int ==> !self.eligible(column as int, k),
                },
            decreases self.rows() - 1 - i as int,
        {
            let coeff = self.table.get(i, column);
            let free = self.table.get(i, cols - 1);
            if (coeff.num > 0 && free.num >= 0) || (coeff.num < 0 && free.num < 0) {
                proof {
                    lemma_div_wf(free@, coeff@);
                }
                match best {
                    None => {
                        best = Some(i);
                    },
                    Some(b) => {
                        let bcoeff = self.table.get(b, column);
                        let bfree = self.table.get(b, cols - 1);
                        proof {
                            lemma_div_wf(bfree@, bcoeff@);
                        }
                        if ratio_less(free, coeff, bfree, bcoeff) {
                            proof {
                                let col = column as int;
                                let ri = self.row_ratio(col, i as int);
                                let rb = self.row_ratio(col, b as int);
                                assert forall|k: int|
                                    #[trigger] self.eligible(col, k) && k < i as int
                                        implies rat_lt(ri, self.row_ratio(col, k)) by {
                                    let rk = self.row_ratio(col, k);
                                    lemma_div_wf(self.free_of(k), self.at(k, col));
                                    if k == b as int {
                                    } else if k < b as int {
                                        lemma_rat_lt_lt_trans(ri, rb, rk);
                                    } else {
                                        lemma_rat_lt_le_trans(ri, rb, rk);
                                    }
                                }
                            }
                            best = Some(i);
                        }
                    },
                }
            }
            i += 1;
        }
        best
    }

    /// The Gauss-Jordan pivot transform at `(p, q)`, in place. The new
    /// matrix is computed into a fresh buffer and committed only when every
    /// cell fits, so on `false` the tableau is unchanged. Labels are never
    /// touched here; the caller swaps them with the same pivot.
    pub fn transform(&mut self, p: usize, q: usize) -> (ok: bool)
        requires
            old(self).wf(),
            (p as int) < old(self).rows(),
            (q as int) < old(self).cols(),
            old(self).at(p as int, q as int).n != 0,
        ensures
            final(self).wf(),
            ok ==> matrix_transformed(*old(self), *final(self), p as int, q as int)
                && old(self).gj_fits(p as int, q as int),
            !ok ==> *final(self) == *old(self) && !old(self).gj_fits(p as int, q as int),
    {
        let rows = self.table.nrows();
        let cols = self.table.ncols();
        let v = self.table.get(p, q);
        let mut flat: Vec<Rat> = Vec::new();
        let mut i: usize = 0;
        while i < rows
            invariant
                self.wf(),
                self == old(self),
                rows as int == self.rows(),
                cols as int == self.cols(),
                (p as int) < self.rows(),
                (q as int) < self.cols(),
                v == self.mat()[p as int][q as int],
                v@.n != 0,
                i as int <= rows as int,
                flat@.len() == i as int * cols as int,
                forall|k: int|
                    0 <= k < flat@.len() ==> (#[trigger] flat@[k]).wf() && flat@[k]@
                        == self.gj_cell(
                        p as int,
                        q as int,
                        k / cols as int,
                        k % cols as int,
                    ) && rat_fits(
                        self.gj_cell(p as int, q as int, k / cols as int, k % cols as int),
                    ),
            decreases rows as int - i as int,
        {
            let mut j: usize = 0;
            while j < cols
                invariant
                    self.wf(),
                    self == old(self),
                    rows as int == self.rows(),
                    cols as int == self.cols(),
                    (p as int) < self.rows(),
                    (q as int) < self.cols(),
                    v == self.mat()[p as int][q as int],
                    v@.n != 0,
                    (i as int) < rows as int,
                    j as int <= cols as int,
                    flat@.len() == i as int * cols as int + j as int,
                    forall|k: int|
                        0 <= k < flat@.len() ==> (#[trigger] flat@[k]).wf() && flat@[k]@
                            == self.gj_cell(
                            p as int,
                            q as int,
                            k / cols as int,
                            k % cols as int,
                        ) && rat_fits(
                            self.gj_cell(p as int, q as int, k / cols as int, k % cols as int),
                        ),
                decreases cols as int - j as int,
            {
                let cell: Option<Rat> = if i == p && j == q {
                    recip_cell(v)
                } else if i == p {
                    div_cell(self.table.get(i, j), v)
                } else if j == q {
                    div_neg_cell(self.table.get(i, j), v)
                } else {
                    sub_mul_div_cell(
                        self.table.get(i, j),
                        self.table.get(p, j),
                        self.table.get(i, q),
                        v,
                    )
                };
                match cell {
                    Some(c) => {
                        proof {
                            vstd::arithmetic::div_mod::lemma_fundamental_div_mod_converse(
                                i as int * cols as int + j as int,
                                cols as int,
                                i as int,
                                j as int,
                            );
                        }
                        let ghost prev = flat@;
                        flat.push(c);
                        proof {
                            assert forall|k: int|
                                0 <= k < flat@.len() implies (#[trigger] flat@[k]).wf() && flat@[k]@
                                == self.gj_cell(
                                p as int,
                                q as int,
                                k / cols as int,
                                k % cols as int,
                            ) && rat_fits(
                                self.gj_cell(p as int, q as int, k / cols as int, k % cols as int),
                            ) by {
                                if k < prev.len() {
                                    assert(flat@[k] == prev[k]);
                                } else {
                                    assert(flat@[k] == c);
                                    assert(k == i as int * cols as int + j as int);
                                }
                            }
                        }
                    },
                    None => {
                        proof {
                            assert(!rat_fits(
                                self.gj_cell(p as int, q as int, i as int, j as int),
                            ));
                        }
                        return false;
                    },
                }
                j += 1;
            }
            proof {
                assert((i as int + 1) * cols as int == i as int * cols as int + cols as int)
                    by (nonlinear_arith);
            }
            i += 1;
        }
        let ghost gflat = flat@;
        self.table = Grid::from_flat(rows, cols, flat);
        proof {
            let pre = *old(self);
            let post = *self;
            assert forall|i2: int, j2: int|
                0 <= i2 < pre.rows() && 0 <= j2 < pre.cols() implies (#[trigger] post.at(i2, j2))
                    == pre.gj_cell(p as int, q as int, i2, j2) by {
                lemma_flat_index(i2, j2, rows as int, cols as int);
            }
            assert forall|i2: int, j2: int|
                0 <= i2 < pre.rows() && 0 <= j2 < pre.cols() implies rat_fits(
                #[trigger] pre.gj_cell(p as int, q as int, i2, j2),
            ) by {
                lemma_flat_index(i2, j2, rows as int, cols as int);
                let k = i2 * cols as int + j2;
                assert(gflat[k].wf());
            }
            assert forall|i2: int, j2: int|
                0 <= i2 < post.rows() && 0 <= j2 < post.cols() implies (#[trigger] post.mat(
                )[i2][j2]).wf() by {
                lemma_flat_index(i2, j2, rows as int, cols as int);
            }
            assert(matrix_transformed(pre, post, p as int, q as int));
            assert(pre.gj_fits(p as int, q as int));
            assert(post.wf());
        }
        true
    }
}

proof fn lemma_flat_index(i: int, j: int, rows: int, cols: int)
    requires
        0 <= i < rows,
        0 <= j < cols,
    ensures
        0 <= i * cols + j < rows * cols,
        (i * cols + j) / cols == i,
        (i * cols + j) % cols == j,
{
    assert(0 <= i * cols + j && i * cols + j < rows * cols) by (nonlinear_arith)
        requires
            0 <= i < rows,
            0 <= j < cols,
    ;
    vstd::arithmetic::div_mod::lemma_fundamental_div_mod_converse(i * cols + j, cols, i, j);
}

impl Table {
    /// One feasibility-restoring step for constraint row `negative`, whose
    /// free term is negative: pivot on the leftmost negative coefficient in
    /// that row and the ratio-test row for that column, swapping the two
    /// labels with it. `NoSolutionsError` when the row has no negative
    /// coefficient (the problem is infeasible); `UnableToCalculateError`
    /// when no row passes the ratio test or the exact pivot overflows.
    pub fn make_acceptable(&mut self, negative: usize) -> (r: Result<(), SimplexError>)
        requires
            old(self).wf(),
            (negative as int) < old(self).rows() - 1,
        ensures
            final(self).wf(),
            final(self).rows() == old(self).rows(),
            final(self).cols() == old(self).cols(),
            match r {
                Ok(()) => exists|i: int, j: int|
                    (#[trigger] old(self).selected_pivot_row(j, i)) && old(
                        self,
                    ).is_first_neg_in_row(negative as int, j) && old(self).gj_fits(i, j)
                        && pivoted(*old(self), *final(self), i, j),
                Err(SimplexError::NoSolutionsError) => *final(self) == *old(self) && forall|k: int|
                    0 <= k < old(self).cols() - 1 ==> (#[trigger] old(self).at(
                        negative as int,
                        k,
                    )).n >= 0,
                Err(SimplexError::UnableToCalculateError) => *final(self) == *old(self) && {
                    ||| exists|j: int|
                        (#[trigger] old(self).is_first_neg_in_row(negative as int, j))
                            && forall|k: int| !old(self).eligible(j, k)
                    ||| exists|i: int, j: int|
                        (#[trigger] old(self).selected_pivot_row(j, i)) && old(
                            self,
                        ).is_first_neg_in_row(negative as int, j) && !old(self).gj_fits(i, j)
                },
                _ => false,
            },
    {
        let j = match self.find_neg_in_row(negative) {
            None => {
                return Err(SimplexError::NoSolutionsError);
            },
            Some(j) => j,
        };
        match self.find_pivot_row(j) {
            Some(i) => {
                if self.transform(i, j) {
                    let ghost mid = *self;
                    let row_label = self.base_var[i];
                    let col_label = self.supp_var[j];
                    self.base_var.set(i, col_label);
                    self.supp_var.set(j, row_label);
                    proof {
                        assert(old(self).selected_pivot_row(j as int, i as int));
                        assert forall|a: int, b: int|
                            0 <= a < old(self).rows() && 0 <= b < old(self).cols() implies (
                        #[trigger] self.at(a, b)) == old(self).gj_cell(i as int, j as int, a, b) by {
                            assert(mid.at(a, b) == old(self).gj_cell(i as int, j as int, a, b));
                        }
                        assert(pivoted(*old(self), *self, i as int, j as int));
                    }
                    Ok(())
                } else {
                    Err(SimplexError::UnableToCalculateError)
                }
            },
            None => Err(SimplexError::UnableToCalculateError),
        }
    }

    /// The phase-2 pivot cell: the leftmost strictly positive objective
    /// coefficient fixes the column (the free-term column is never
    /// examined), and the ratio test fixes the row.
    /// `UnableToCalculateError` when the objective row has no positive
    /// coefficient (the tableau is already optimal, so the driver never
    /// sees this); `UnlimitedError` when no row is eligible for the column,
    /// which also covers a column with no positive constraint-row
    /// coefficient.
    pub fn find_pivot(&self) -> (r: Result<(usize, usize), SimplexError>)
        requires
            self.wf(),
        ensures
            match r {
                Ok(p) => self.is_first_pos_obj(p.1 as int) && self.selected_pivot_row(
                    p.1 as int,
                    p.0 as int,
                ),
                Err(SimplexError::UnableToCalculateError) => self.optimal_done(),
                Err(SimplexError::UnlimitedError) => exists|j: int|
                    (#[trigger] self.is_first_pos_obj(j)) && forall|k: int| !self.eligible(j, k),
                _ => false,
            },
    {
        let rows = self.table.nrows();
        let cols = self.table.ncols();
        let mut j: usize = 0;
        while j < cols - 1
            invariant
                self.wf(),
                rows as int == self.rows(),
                cols as int == self.cols(),
                j as int <= self.cols() - 1,
                forall|k: int| 0 <= k < j as int ==> (#[trigger] self.obj_of(k)).n <= 0,
            decreases self.cols() - 1 - j as int,
        {
            if self.table.get(rows - 1, j).num > 0 {
                proof {
                    assert(self.is_first_pos_obj(j as int));
                }
                return match self.find_pivot_row(j) {
                    Some(i) => Ok((i, j)),
                    None => Err(SimplexError::UnlimitedError),
                };
            }
            j += 1;
        }
        Err(SimplexError::UnableToCalculateError)
    }

    /// One phase-2 step: pivot at the cell `find_pivot` chooses and swap
    /// the two labels. Errors pass through; an exact-arithmetic overflow at
    /// the chosen pivot is `UnableToCalculateError`.
    pub fn iterate(&mut self) -> (r: Result<(), SimplexError>)
        requires
            old(self).wf(),
        ensures
            final(self).wf(),
            final(self).rows() == old(self).rows(),
            final(self).cols() == old(self).cols(),
            match r {
                Ok(()) => exists|i: int, j: int|
                    (#[trigger] old(self).selected_pivot_row(j, i)) && old(self).is_first_pos_obj(
                        j,
                    ) && old(self).gj_fits(i, j) && pivoted(*old(self), *final(self), i, j),
                Err(SimplexError::UnlimitedError) => *final(self) == *old(self) && exists|j: int|
                    (#[trigger] old(self).is_first_pos_obj(j)) && forall|k: int|
                        !old(self).eligible(j, k),
                Err(SimplexError::UnableToCalculateError) => *final(self) == *old(self) && (old(
                    self,
                ).optimal_done() || exists|i: int, j: int|
                    (#[trigger] old(self).selected_pivot_row(j, i)) && !old(self).gj_fits(i, j)),
                _ => false,
            },
    {
        let (i, j) = match self.find_pivot() {
            Ok(p) => p,
            Err(e) => {
                return Err(e);
            },
        };
        if self.transform(i, j) {
            let ghost mid = *self;
            let row_label = self.base_var[i];
            let col_label = self.supp_var[j];
            self.base_var.set(i, col_label);
            self.supp_var.set(j, row_label);
            proof {
                assert(old(self).selected_pivot_row(j as int, i as int));
                assert forall|a: int, b: int|
                    0 <= a < old(self).rows() && 0 <= b < old(self).cols() implies (
                #[trigger] self.at(a, b)) == old(self).gj_cell(i as int, j as int, a, b) by {
                    assert(mid.at(a, b) == old(self).gj_cell(i as int, j as int, a, b));
                }
                assert(pivoted(*old(self), *self, i as int, j as int));
            }
            Ok(())
        } else {
            Err(SimplexError::UnableToCalculateError)
        }
    }

    /// Run phase 1 (restore feasibility) and then phase 2 (optimise the
    /// objective) to completion, pivoting in place. The final state is
    /// reachable from the initial one by driver pivots alone; the limit
    /// error comes only after exactly the cap's worth of pivots. On
    /// success the tableau is feasible and the objective row's
    /// coefficients left of the free-term column are all non-positive; a
    /// tableau that needs no pivot at all comes back unchanged. On failure
    /// the tableau is left at the state that exhibits the failure. Every
    /// pivot swaps one constraint-row label with one coefficient-column
    /// label, so the objective and free-term markers stay at their ends.
    pub fn optimise(&mut self) -> (r: Result<(), SimplexError>)
        requires
            old(self).wf(),
        ensures
            final(self).wf(),
            final(self).rows() == old(self).rows(),
            final(self).cols() == old(self).cols(),
            reaches(*old(self), *final(self)),
            final(self).base_var@[final(self).rows() - 1] == old(self).base_var@[old(self).rows()
                - 1],
            final(self).supp_var@[final(self).cols() - 1] == old(self).supp_var@[old(self).cols()
                - 1],
            final(self).base_var@.to_multiset().add(final(self).supp_var@.to_multiset()) == old(
                self,
            ).base_var@.to_multiset().add(old(self).supp_var@.to_multiset()),
            old(self).feasible_done() && old(self).optimal_done() ==> r is Ok && *final(self)
                == *old(self),
            r is Ok ==> final(self).feasible_done(),
            match r {
                Ok(()) => final(self).optimal_done(),
                Err(SimplexError::NoSolutionsError) => exists|i: int|
                    (#[trigger] final(self).is_first_neg_free(i)) && forall|k: int|
                        0 <= k < final(self).cols() - 1 ==> (#[trigger] final(self).at(i, k)).n
                            >= 0,
                Err(SimplexError::UnlimitedError) => final(self).feasible_done() && exists|j: int|
                    (#[trigger] final(self).is_first_pos_obj(j)) && forall|k: int|
                        !final(self).eligible(j, k),
                Err(SimplexError::UnableToCalculateError) => {
                    ||| exists|i: int, j: int|
                        (#[trigger] final(self).is_first_neg_free(i)) && (
                        #[trigger] final(self).is_first_neg_in_row(i, j)) && forall|k: int|
                            !final(self).eligible(j, k)
                    ||| exists|i: int, j: int|
                        (#[trigger] final(self).selected_pivot_row(j, i)) && !final(self).gj_fits(
                            i,
                            j,
                        )
                },
                Err(SimplexError::IterationLimitExceeded) => reaches_n(
                    *old(self),
                    *final(self),
                    ITERATION_LIMIT as nat,
                ) && !(final(self).feasible_done() && final(self).optimal_done()),
                Err(SimplexError::InvalidDataError) => false,
            },
    {
        let ghost orig = *self;
        let mut fuel: usize = ITERATION_LIMIT;
        proof {
            assert(reaches_n(orig, *self, 0));
        }
        loop
            invariant
                self.wf(),
                self.rows() == orig.rows(),
                self.cols() == orig.cols(),
                orig == *old(self),
                orig.wf(),
                fuel <= ITERATION_LIMIT,
                reaches_n(orig, *self, (ITERATION_LIMIT - fuel) as nat),
                self.base_var@[self.rows() - 1] == orig.base_var@[orig.rows() - 1],
                self.supp_var@[self.cols() - 1] == orig.supp_var@[orig.cols() - 1],
                self.base_var@.to_multiset().add(self.supp_var@.to_multiset())
                    == orig.base_var@.to_multiset().add(orig.supp_var@.to_multiset()),
                orig.feasible_done() && orig.optimal_done() ==> *self == orig,
            ensures
                self.wf(),
                self.rows() == orig.rows(),
                self.cols() == orig.cols(),
                orig == *old(self),
                fuel <= ITERATION_LIMIT,
                reaches_n(orig, *self, (ITERATION_LIMIT - fuel) as nat),
                self.base_var@[self.rows() - 1] == orig.base_var@[orig.rows() - 1],
                self.supp_var@[self.cols() - 1] == orig.supp_var@[orig.cols() - 1],
                self.base_var@.to_multiset().add(self.supp_var@.to_multiset())
                    == orig.base_var@.to_multiset().add(orig.supp_var@.to_multiset()),
                orig.feasible_done() && orig.optimal_done() ==> *self == orig,
                self.feasible_done(),
            decreases fuel,
        {
            match self.find_in_free_column() {
                None => {
                    break ;
                },
                Some(row) => {
                    proof {
                        assert(self.free_of(row as int).n < 0);
                        assert(reaches(orig, *self));
                    }
                    if fuel == 0 {
                        return Err(SimplexError::IterationLimitExceeded);
                    }
                    let ghost before = *self;
                    match self.make_acceptable(row) {
                        Ok(()) => {
                            proof {
                                let kk = (ITERATION_LIMIT - fuel) as nat;
                                let (pi, jj): (int, int) = choose|pi: int, jj: int|
                                    (#[trigger] before.selected_pivot_row(jj, pi))
                                        && before.is_first_neg_in_row(row as int, jj)
                                        && before.gj_fits(pi, jj) && pivoted(before, *self, pi, jj);
                                assert(algo_step(before, *self));
                                lemma_reaches_step(orig, before, *self, kk);
                                lemma_swap_label_multiset(
                                    before.base_var@,
                                    before.supp_var@,
                                    pi,
                                    jj,
                                );
                            }
                            fuel -= 1;
                        },
                        Err(e) => {
                            proof {
                                assert(self.is_first_neg_free(row as int));
                            }
                            return Err(e);
                        },
                    }
                },
            }
        }
        loop
            invariant
                self.wf(),
                self.rows() == orig.rows(),
                self.cols() == orig.cols(),
                orig == *old(self),
                orig.wf(),
                fuel <= ITERATION_LIMIT,
                reaches_n(orig, *self, (ITERATION_LIMIT - fuel) as nat),
                self.base_var@[self.rows() - 1] == orig.base_var@[orig.rows() - 1],
                self.supp_var@[self.cols() - 1] == orig.supp_var@[orig.cols() - 1],
                self.base_var@.to_multiset().add(self.supp_var@.to_multiset())
                    == orig.base_var@.to_multiset().add(orig.supp_var@.to_multiset()),
                orig.feasible_done() && orig.optimal_done() ==> *self == orig,
                self.feasible_done(),
            ensures
                self.wf(),
                self.rows() == orig.rows(),
                self.cols() == orig.cols(),
                orig == *old(self),
                reaches_n(orig, *self, (ITERATION_LIMIT - fuel) as nat),
                self.base_var@[self.rows() - 1] == orig.base_var@[orig.rows() - 1],
                self.supp_var@[self.cols() - 1] == orig.supp_var@[orig.cols() - 1],
                self.base_var@.to_multiset().add(self.supp_var@.to_multiset())
                    == orig.base_var@.to_multiset().add(orig.supp_var@.to_multiset()),
                orig.feasible_done() && orig.optimal_done() ==> *self == orig,
                self.feasible_done(),
                self.optimal_done(),
            decreases fuel,
        {
            if self.check_optimised() {
                break ;
            }
            proof {
                assert(reaches(orig, *self));
            }
            if fuel == 0 {
                return Err(SimplexError::IterationLimitExceeded);
            }
            let ghost before = *self;
            match self.iterate() {
                Ok(()) => {
                    proof {
                        let kk = (ITERATION_LIMIT - fuel) as nat;
                        let (pi, jj): (int, int) = choose|pi: int, jj: int|
                            (#[trigger] before.selected_pivot_row(jj, pi))
                                && before.is_first_pos_obj(jj) && before.gj_fits(pi, jj)
                                && pivoted(before, *self, pi, jj);
                        assert(algo_step(before, *self));
                        lemma_reaches_step(orig, before, *self, kk);
                        lemma_pivot_preserves_feasibility(before, *self, pi, jj);
                        lemma_swap_label_multiset(before.base_var@, before.supp_var@, pi, jj);
                    }
                    fuel -= 1;
                },
                Err(e) => {
                    return Err(e);
                },
            }
        }
        proof {
            assert(reaches(orig, *self));
        }
        Ok(())
    }
}

/// `post` is `pre` with the Gauss-Jordan transform applied at `(p, q)` and
/// the row label at `p` exchanged with the column label at `q`.
/// The construction inputs fit together: one right-hand side per constraint
/// row, every row as wide as the objective vector, and a resulting tableau
/// within the size the crate accepts.
pub open spec fn shapes_ok(cc: Seq<Vec<Rat>>, cv: Seq<Rat>, fc: Seq<Rat>) -> bool {
    &&& cv.len() == cc.len()
    &&& forall|i: int| 0 <= i < cc.len() ==> (#[trigger] cc[i])@.len() == fc.len()
    &&& (cc.len() + 1) * (fc.len() + 1) <= 0x7fff_ffff
}

/// What construction yields: the constraint rows, each extended by its
/// right-hand side; below them the objective row (negated for a
/// minimisation) with an initial objective value of zero; columns labelled
/// 1 to n then the free-term marker; rows labelled n+1 onward then the
/// objective marker.
pub open spec fn built_from(
    t: Table,
    cc: Seq<Vec<Rat>>,
    cv: Seq<Rat>,
    fc: Seq<Rat>,
    minimisation: bool,
) -> bool {
    let m = cc.len() as int;
    let n = fc.len() as int;
    &&& t.rows() == m + 1
    &&& t.cols() == n + 1
    &&& forall|i: int, j: int| 0 <= i < m && 0 <= j < n ==> t.at(i, j) == (#[trigger] cc[i]@[j])@
    &&& forall|i: int| 0 <= i < m ==> t.free_of(i) == (#[trigger] cv[i])@
    &&& forall|j: int|
        0 <= j < n ==> t.obj_of(j) == if minimisation {
            rat_neg((#[trigger] fc[j])@)
        } else {
            fc[j]@
        }
    &&& t.free_of(m) == (Ratio { n: 0, d: 1 })
    &&& forall|j: int| 0 <= j < n ==> t.supp_var@[j] == Label::Var((j + 1) as usize)
    &&& t.supp_var@[n] == Label::FreeTerm
    &&& forall|i: int| 0 <= i < m ==> t.base_var@[i] == Label::Var((n + 1 + i) as usize)
    &&& t.base_var@[m] == Label::Objective
}

/// The cell construction is asked to put at row `i`, column `j` is `cell`.
spec fn built_cell_ok(
    cc: Seq<Vec<Rat>>,
    cv: Seq<Rat>,
    fc: Seq<Rat>,
    minimisation: bool,
    cell: Rat,
    i: int,
    j: int,
) -> bool {
    let m = cc.len() as int;
    let n = fc.len() as int;
    if i < m {
        if j < n {
            cell == cc[i]@[j]
        } else {
            cell == cv[i]
        }
    } else {
        if j < n {
            cell.wf() && cell@ == if minimisation {
                rat_neg(fc[j]@)
            } else {
                fc[j]@
            }
        } else {
            cell.wf() && cell@ == (Ratio { n: 0, d: 1 })
        }
    }
}

pub open spec fn pivoted(pre: Table, post: Table, p: int, q: int) -> bool {
    &&& post.rows() == pre.rows()
    &&& post.cols() == pre.cols()
    &&& forall|i: int, j: int|
        0 <= i < pre.rows() && 0 <= j < pre.cols() ==> #[trigger] post.at(i, j) == pre.gj_cell(
            p,
            q,
            i,
            j,
        )
    &&& post.base_var@ == pre.base_var@.update(p, pre.supp_var@[q])
    &&& post.supp_var@ == pre.supp_var@.update(q, pre.base_var@[p])
}

/// Replacing one element of a sequence removes its old value from the
/// multiset of elements and inserts the new one.
proof fn lemma_update_to_multiset<A>(s: Seq<A>, i: int, y: A)
    requires
        0 <= i < s.len(),
    ensures
        s.update(i, y).to_multiset() == s.to_multiset().remove(s[i]).insert(y),
{
    broadcast use vstd::seq_lib::group_to_multiset_ensures;
    broadcast use vstd::multiset::group_multiset_axioms;

    let su = s.update(i, y);
    assert(su.len() == s.len());
    assert(su[i] == y);
    assert(su.remove(i) =~= s.remove(i));
    assert(su.to_multiset().remove(y) =~= s.to_multiset().remove(s[i]));
    assert(su.contains(y));
    assert forall|x: A|
        su.to_multiset().count(x) == s.to_multiset().remove(s[i]).insert(y).count(x) by {
        if x == y {
            assert(su.to_multiset().count(y) > 0);
        } else {
            assert(su.to_multiset().count(x) == su.to_multiset().remove(y).count(x));
        }
    }
    assert(su.to_multiset() =~= s.to_multiset().remove(s[i]).insert(y));
}

/// A pivot's label exchange permutes the labels: the combined multiset of
/// row and column labels is unchanged.
proof fn lemma_swap_label_multiset(base: Seq<Label>, supp: Seq<Label>, p: int, q: int)
    requires
        0 <= p < base.len(),
        0 <= q < supp.len(),
    ensures
        base.update(p, supp[q]).to_multiset().add(supp.update(q, base[p]).to_multiset())
            == base.to_multiset().add(supp.to_multiset()),
{
    broadcast use vstd::seq_lib::group_to_multiset_ensures;
    broadcast use vstd::multiset::group_multiset_axioms;

    lemma_update_to_multiset(base, p, supp[q]);
    lemma_update_to_multiset(supp, q, base[p]);
    assert(base.contains(base[p]));
    assert(supp.contains(supp[q]));
    assert forall|x: Label|
        base.update(p, supp[q]).to_multiset().add(
            supp.update(q, base[p]).to_multiset(),
        ).count(x) == base.to_multiset().add(supp.to_multiset()).count(x) by {
        assert(base.to_multiset().count(base[p]) > 0);
        assert(supp.to_multiset().count(supp[q]) > 0);
    }
    assert(base.update(p, supp[q]).to_multiset().add(supp.update(q, base[p]).to_multiset())
        =~= base.to_multiset().add(supp.to_multiset()));
}

/// One pivot of the driver: either the feasibility-restoring step, at the
/// leftmost negative coefficient of the topmost negative-free-term row, or
/// the optimising step, at the leftmost positive objective column; in both
/// the ratio test fixes the pivot row.
pub open spec fn algo_step(a: Table, b: Table) -> bool {
    ||| exists|i: int, j: int, p: int|
        #![trigger a.is_first_neg_in_row(i, j), a.selected_pivot_row(j, p)]
        a.is_first_neg_free(i) && a.is_first_neg_in_row(i, j) && a.selected_pivot_row(j, p)
            && a.gj_fits(p, j) && pivoted(a, b, p, j)
    ||| exists|j: int, p: int|
        #![trigger a.is_first_pos_obj(j), a.selected_pivot_row(j, p)]
        a.is_first_pos_obj(j) && a.selected_pivot_row(j, p) && a.gj_fits(p, j) && pivoted(
            a,
            b,
            p,
            j,
        )
}

/// `b` arises from `a` by exactly `k` driver pivots.
pub open spec fn reaches_n(a: Table, b: Table, k: nat) -> bool
    decreases k,
{
    if k == 0 {
        a == b
    } else {
        exists|mid: Table| reaches_n(a, mid, (k - 1) as nat) && #[trigger] algo_step(mid, b)
    }
}

/// `b` arises from `a` by some number of driver pivots, possibly none.
pub open spec fn reaches(a: Table, b: Table) -> bool {
    exists|k: nat| reaches_n(a, b, k)
}

/// A chain of pivots extends by one more step.
proof fn lemma_reaches_step(a: Table, b: Table, c: Table, k: nat)
    requires
        reaches_n(a, b, k),
        algo_step(b, c),
    ensures
        reaches_n(a, c, k + 1),
{
    assert(((k + 1) - 1) as nat == k);
    assert(exists|mid: Table| reaches_n(a, mid, ((k + 1) - 1) as nat) && #[trigger] algo_step(
        mid,
        c,
    ));
}

/// Law: an optimising pivot keeps the tableau feasible. When no constraint
/// row's free term is negative and the pivot row wins the ratio test in a
/// coefficient column, the transformed tableau again has no negative free
/// term: the minimum-ratio rule is exactly what feasibility preservation
/// needs.
pub proof fn lemma_pivot_preserves_feasibility(pre: Table, post: Table, p: int, q: int)
    requires
        pre.wf(),
        pre.feasible_done(),
        0 <= q < pre.cols() - 1,
        pre.selected_pivot_row(q, p),
        pivoted(pre, post, p, q),
    ensures
        post.feasible_done(),
{
    let v = pre.at(p, q);
    let n = pre.cols() - 1;
    assert(pre.free_of(p).n >= 0);
    assert(v.n > 0);
    assert forall|i: int| 0 <= i < post.rows() - 1 implies (#[trigger] post.free_of(i)).n >= 0 by {
        assert(post.at(i, n) == pre.gj_cell(p, q, i, n));
        assert(pre.mat()[i][n].wf());
        assert(pre.mat()[p][n].wf());
        assert(pre.mat()[i][q].wf());
        assert(pre.mat()[p][q].wf());
        let fi = pre.free_of(i);
        let fp = pre.free_of(p);
        assert(fi.n >= 0);
        if i == p {
            assert(fp.n * v.d >= 0) by (nonlinear_arith)
                requires
                    fp.n >= 0,
                    v.d > 0,
            ;
        } else {
            let c = pre.at(i, q);
            if c.n > 0 {
                assert(pre.eligible(q, i));
                let rp = pre.row_ratio(q, p);
                let ri = pre.row_ratio(q, i);
                assert(rat_le(rp, ri));
                assert((fp.n * v.d) * (fi.d * c.n) == ((fp.n * c.n) * v.d) * fi.d)
                    by (nonlinear_arith);
                assert((fi.n * c.d) * (fp.d * v.n) == fi.n * ((fp.d * c.d) * v.n))
                    by (nonlinear_arith);
                assert(fi.n * ((fp.d * c.d) * v.n) - ((fp.n * c.n) * v.d) * fi.d >= 0);
            } else {
                assert(fi.n * ((fp.d * c.d) * v.n) >= 0) by (nonlinear_arith)
                    requires
                        fi.n >= 0,
                        fp.d > 0,
                        c.d > 0,
                        v.n > 0,
                ;
                assert(((fp.n * c.n) * v.d) * fi.d <= 0) by (nonlinear_arith)
                    requires
                        fp.n >= 0,
                        c.n <= 0,
                        v.d > 0,
                        fi.d > 0,
                ;
                assert(fi.n * ((fp.d * c.d) * v.n) - ((fp.n * c.n) * v.d) * fi.d >= 0);
            }
        }
    }
}

/// `post` is `pre` with the Gauss-Jordan transform applied at `(p, q)` and
/// the labels untouched.
pub open spec fn matrix_transformed(pre: Table, post: Table, p: int, q: int) -> bool {
    &&& post.rows() == pre.rows()
    &&& post.cols() == pre.cols()
    &&& forall|i: int, j: int|
        0 <= i < pre.rows() && 0 <= j < pre.cols() ==> #[trigger] post.at(i, j) == pre.gj_cell(
            p,
            q,
            i,
            j,
        )
    &&& post.base_var@ == pre.base_var@
    &&& post.supp_var@ == pre.supp_var@
}

/// Law: pivoting is a self-inverse transform on the tableau's coefficients.
/// Re-applying the Gauss-Jordan transform at the same pivot cell restores
/// every cell of the original matrix, as an exact rational value.
pub proof fn lemma_transform_involution(pre: Table, post: Table, p: int, q: int)
    requires
        pre.wf(),
        0 <= p < pre.rows(),
        0 <= q < pre.cols(),
        pre.at(p, q).n != 0,
        matrix_transformed(pre, post, p, q),
    ensures
        post.at(p, q).n != 0,
        forall|i: int, j: int|
            0 <= i < pre.rows() && 0 <= j < pre.cols() ==> rat_eq(
                #[trigger] post.gj_cell(p, q, i, j),
                pre.at(i, j),
            ),
{
    let v = pre.at(p, q);
    assert(pre.mat()[p][q].wf());
    assert(post.at(p, q) == rat_recip(v));
    lemma_recip_twice(v);
    assert forall|i: int, j: int|
        0 <= i < pre.rows() && 0 <= j < pre.cols() implies rat_eq(
        #[trigger] post.gj_cell(p, q, i, j),
        pre.at(i, j),
    ) by {
        assert(pre.mat()[i][j].wf());
        assert(pre.mat()[p][j].wf());
        assert(pre.mat()[i][q].wf());
        if i == p && j == q {
        } else if i == p {
            lemma_row_cell_twice(pre.at(p, j), v);
        } else if j == q {
            lemma_col_cell_twice(pre.at(i, q), v);
        } else {
            lemma_gen_cell_twice(pre.at(i, j), pre.at(p, j), pre.at(i, q), v);
        }
    }
}

impl Table {
    /// Build the tableau from a constraint coefficient matrix, its
    /// right-hand-side vector, the objective coefficients (negated here
    /// when the caller states a minimisation, so the solver always
    /// maximises internally), and label both axes.
    /// `InvalidDataError` exactly when the shapes disagree or the tableau
    /// would be too large.
    pub fn new(
        constr_coeff: Vec<Vec<Rat>>,
        constr_val: Vec<Rat>,
        func_coeff: Vec<Rat>,
        minimisation_task: bool,
    ) -> (r: Result<Table, SimplexError>)
        requires
            forall|i: int, j: int|
                0 <= i < constr_coeff@.len() && 0 <= j < constr_coeff@[i]@.len() ==> (
                #[trigger] constr_coeff@[i]@[j]).wf(),
            forall|i: int| 0 <= i < constr_val@.len() ==> (#[trigger] constr_val@[i]).wf(),
            forall|j: int| 0 <= j < func_coeff@.len() ==> (#[trigger] func_coeff@[j]).wf(),
            minimisation_task ==> forall|j: int|
                0 <= j < func_coeff@.len() ==> (#[trigger] func_coeff@[j]).num > i32::MIN,
        ensures
            match r {
                Ok(t) => shapes_ok(constr_coeff@, constr_val@, func_coeff@) && t.wf()
                    && built_from(t, constr_coeff@, constr_val@, func_coeff@, minimisation_task),
                Err(SimplexError::InvalidDataError) => !shapes_ok(
                    constr_coeff@,
                    constr_val@,
                    func_coeff@,
                ),
                _ => false,
            },
    {
        let m = constr_coeff.len();
        let n = func_coeff.len();
        if constr_val.len() != m {
            return Err(SimplexError::InvalidDataError);
        }
        let mut i: usize = 0;
        while i < m
            invariant
                m as int == constr_coeff@.len(),
                n as int == func_coeff@.len(),
                i as int <= m as int,
                forall|k: int|
                    0 <= k < i as int ==> (#[trigger] constr_coeff@[k])@.len() == n as int,
            decreases m as int - i as int,
        {
            if constr_coeff[i].len() != n {
                return Err(SimplexError::InvalidDataError);
            }
            i += 1;
        }
        proof {
            assert((m as int + 1) * (n as int + 1) >= m as int + 1 && (m as int + 1) * (n as int
                + 1) >= n as int + 1) by (nonlinear_arith)
                requires
                    m as int >= 0,
                    n as int >= 0,
            ;
        }
        let rows = match m.checked_add(1) {
            Some(v) => v,
            None => {
                return Err(SimplexError::InvalidDataError);
            },
        };
        let cols = match n.checked_add(1) {
            Some(v) => v,
            None => {
                return Err(SimplexError::InvalidDataError);
            },
        };
        match rows.checked_mul(cols) {
            Some(c) => {
                if c > 0x7fff_ffff {
                    return Err(SimplexError::InvalidDataError);
                }
            },
            None => {
                return Err(SimplexError::InvalidDataError);
            },
        };
        let ghost cc = constr_coeff@;
        let ghost cv = constr_val@;
        let ghost fc = func_coeff@;
        let mut flat: Vec<Rat> = Vec::new();
        let mut i: usize = 0;
        while i < m
            invariant
                m as int == cc.len(),
                n as int == fc.len(),
                cv.len() == cc.len(),
                cc == constr_coeff@,
                cv == constr_val@,
                fc == func_coeff@,
                rows as int == m as int + 1,
                cols as int == n as int + 1,
                forall|a: int, b: int|
                    0 <= a < cc.len() && 0 <= b < cc[a]@.len() ==> (#[trigger] cc[a]@[b]).wf(),
                forall|a: int| 0 <= a < cv.len() ==> (#[trigger] cv[a]).wf(),
                forall|b: int| 0 <= b < fc.len() ==> (#[trigger] fc[b]).wf(),
                minimisation_task ==> forall|b: int|
                    0 <= b < fc.len() ==> (#[trigger] fc[b]).num > i32::MIN,
                forall|a: int| 0 <= a < cc.len() ==> (#[trigger] cc[a])@.len() == n as int,
                i as int <= m as int,
                flat@.len() == i as int * cols as int,
                forall|k: int|
                    0 <= k < flat@.len() ==> built_cell_ok(
                        cc,
                        cv,
                        fc,
                        minimisation_task,
                        #[trigger] flat@[k],
                        k / cols as int,
                        k % cols as int,
                    ),
            decreases m as int - i as int,
        {
            let mut j: usize = 0;
            while j < n
                invariant
                    m as int == cc.len(),
                    n as int == fc.len(),
                    cv.len() == cc.len(),
                    cc == constr_coeff@,
                    cv == constr_val@,
                    fc == func_coeff@,
                    rows as int == m as int + 1,
                    cols as int == n as int + 1,
                    forall|a: int, b: int|
                        0 <= a < cc.len() && 0 <= b < cc[a]@.len() ==> (#[trigger] cc[a]@[b]).wf(),
                    forall|a: int| 0 <= a < cv.len() ==> (#[trigger] cv[a]).wf(),
                    forall|b: int| 0 <= b < fc.len() ==> (#[trigger] fc[b]).wf(),
                    minimisation_task ==> forall|b: int|
                        0 <= b < fc.len() ==> (#[trigger] fc[b]).num > i32::MIN,
                    forall|a: int| 0 <= a < cc.len() ==> (#[trigger] cc[a])@.len() == n as int,
                    (i as int) < m as int,
                    j as int <= n as int,
                    flat@.len() == i as int * cols as int + j as int,
                    forall|k: int|
                        0 <= k < flat@.len() ==> built_cell_ok(
                            cc,
                            cv,
                            fc,
                            minimisation_task,
                            #[trigger] flat@[k],
                            k / cols as int,
                            k % cols as int,
                        ),
                decreases n as int - j as int,
            {
                proof {
                    vstd::arithmetic::div_mod::lemma_fundamental_div_mod_converse(
                        i as int * cols as int + j as int,
                        cols as int,
                        i as int,
                        j as int,
                    );
                }
                flat.push(constr_coeff[i][j]);
                j += 1;
            }
            proof {
                vstd::arithmetic::div_mod::lemma_fundamental_div_mod_converse(
                    i as int * cols as int + n as int,
                    cols as int,
                    i as int,
                    n as int,
                );
                assert((i as int + 1) * cols as int == i as int * cols as int + cols as int)
                    by (nonlinear_arith);
            }
            flat.push(constr_val[i]);
            i += 1;
        }
        let mut j: usize = 0;
        while j < n
            invariant
                m as int == cc.len(),
                n as int == fc.len(),
                cv.len() == cc.len(),
                cc == constr_coeff@,
                cv == constr_val@,
                fc == func_coeff@,
                rows as int == m as int + 1,
                cols as int == n as int + 1,
                forall|b: int| 0 <= b < fc.len() ==> (#[trigger] fc[b]).wf(),
                minimisation_task ==> forall|b: int|
                    0 <= b < fc.len() ==> (#[trigger] fc[b]).num > i32::MIN,
                j as int <= n as int,
                flat@.len() == m as int * cols as int + j as int,
                forall|k: int|
                    0 <= k < flat@.len() ==> built_cell_ok(
                        cc,
                        cv,
                        fc,
                        minimisation_task,
                        #[trigger] flat@[k],
                        k / cols as int,
                        k % cols as int,
                    ),
            decreases n as int - j as int,
        {
            proof {
                vstd::arithmetic::div_mod::lemma_fundamental_div_mod_converse(
                    m as int * cols as int + j as int,
                    cols as int,
                    m as int,
                    j as int,
                );
            }
            let coeff = func_coeff[j];
            if minimisation_task {
                flat.push(Rat { num: -coeff.num, den: coeff.den });
            } else {
                flat.push(coeff);
            }
            j += 1;
        }
        proof {
            vstd::arithmetic::div_mod::lemma_fundamental_div_mod_converse(
                m as int * cols as int + n as int,
                cols as int,
                m as int,
                n as int,
            );
            assert(rows as int * cols as int == m as int * cols as int + cols as int)
                by (nonlinear_arith)
                requires
                    rows as int == m as int + 1,
            ;
        }
        flat.push(Rat { num: 0, den: 1 });
        let ghost gflat = flat@;
        let grid = Grid::from_flat(rows, cols, flat);
        let mut supp_var: Vec<Label> = Vec::new();
        let mut j: usize = 0;
        while j < n
            invariant
                n as int == fc.len(),
                (n as int) < 0x7fff_ffff,
                j as int <= n as int,
                supp_var@.len() == j as int,
                forall|k: int| 0 <= k < j as int ==> supp_var@[k] == Label::Var((k + 1) as usize),
            decreases n as int - j as int,
        {
            supp_var.push(Label::Var(j + 1));
            j += 1;
        }
        supp_var.push(Label::FreeTerm);
        let mut base_var: Vec<Label> = Vec::new();
        let mut i: usize = 0;
        while i < m
            invariant
                m as int == cc.len(),
                cols as int == n as int + 1,
                (m as int) < 0x7fff_ffff,
                (cols as int) <= 0x7fff_ffff,
                i as int <= m as int,
                base_var@.len() == i as int,
                forall|k: int|
                    0 <= k < i as int ==> base_var@[k] == Label::Var((n as int + 1 + k) as usize),
            decreases m as int - i as int,
        {
            base_var.push(Label::Var(cols + i));
            i += 1;
        }
        base_var.push(Label::Objective);
        let t = Table { table: grid, base_var, supp_var };
        proof {
            assert forall|a: int, b: int|
                0 <= a < rows as int && 0 <= b < cols as int implies (#[trigger] t.mat()[a][b]).wf()
                && built_cell_ok(cc, cv, fc, minimisation_task, t.mat()[a][b], a, b) by {
                lemma_flat_index(a, b, rows as int, cols as int);
                assert(t.mat()[a][b] == gflat[a * cols as int + b]);
            }
        }
        Ok(t)
    }
}

} // verus!
