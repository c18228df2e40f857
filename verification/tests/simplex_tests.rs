use simplex::{Label, Rat, SimplexError, Table};

fn r(n: i32) -> Rat {
    Rat::from_int(n)
}

fn rows(cells: Vec<Vec<i32>>) -> Vec<Vec<Rat>> {
    cells.into_iter().map(|row| row.into_iter().map(r).collect()).collect()
}

fn vals(cells: Vec<i32>) -> Vec<Rat> {
    cells.into_iter().map(r).collect()
}

#[test]
fn rat_new_normalises_sign() {
    let a = Rat::new(1, 2).unwrap();
    assert_eq!(a.num, 1);
    assert_eq!(a.den, 2);
    let b = Rat::new(1, -2).unwrap();
    assert_eq!(b.num, -1);
    assert_eq!(b.den, 2);
    assert!(Rat::new(1, 0).is_none());
    assert!(r(3).eq_value(Rat::new(6, 2).unwrap()));
}

#[test]
fn construction_cells_and_labels() {
    let t = Table::new(
        rows(vec![vec![1, 2], vec![3, 4]]),
        vals(vec![5, 6]),
        vals(vec![7, 8]),
        true,
    )
    .unwrap();
    assert_eq!(t.table.nrows(), 3);
    assert_eq!(t.table.ncols(), 3);
    // constraint rows with their right-hand sides
    assert!(t.table.get(0, 0).eq_value(r(1)));
    assert!(t.table.get(0, 1).eq_value(r(2)));
    assert!(t.table.get(0, 2).eq_value(r(5)));
    assert!(t.table.get(1, 2).eq_value(r(6)));
    // minimisation: objective coefficients negated, objective value 0
    assert!(t.table.get(2, 0).eq_value(r(-7)));
    assert!(t.table.get(2, 1).eq_value(r(-8)));
    assert!(t.table.get(2, 2).eq_value(r(0)));
    assert_eq!(t.supp_var, vec![Label::Var(1), Label::Var(2), Label::FreeTerm]);
    assert_eq!(t.base_var, vec![Label::Var(3), Label::Var(4), Label::Objective]);
}

#[test]
fn construction_rejects_bad_shapes() {
    // right-hand side length differs from the number of rows
    let e = Table::new(rows(vec![vec![1, 2]]), vals(vec![1, 2]), vals(vec![1, 2]), false);
    assert!(matches!(e, Err(SimplexError::InvalidDataError)));
    // a row narrower than the objective vector
    let e = Table::new(rows(vec![vec![1]]), vals(vec![1]), vals(vec![1, 2]), false);
    assert!(matches!(e, Err(SimplexError::InvalidDataError)));
}

#[test]
fn optimal_tableau_needs_no_pivot() {
    // identity-like: no negative free term, objective row already optimal
    let mut t = Table::new(
        rows(vec![vec![1, 0], vec![0, 1]]),
        vals(vec![1, 1]),
        vals(vec![-1, -1]),
        false,
    )
    .unwrap();
    assert!(t.optimise().is_ok());
    // unchanged, label swaps included
    assert!(t.table.get(0, 0).eq_value(r(1)));
    assert!(t.table.get(0, 2).eq_value(r(1)));
    assert!(t.table.get(1, 2).eq_value(r(1)));
    assert!(t.table.get(2, 0).eq_value(r(-1)));
    assert!(t.table.get(2, 2).eq_value(r(0)));
    assert_eq!(t.base_var, vec![Label::Var(3), Label::Var(4), Label::Objective]);
    assert_eq!(t.supp_var, vec![Label::Var(1), Label::Var(2), Label::FreeTerm]);
}

#[test]
fn transform_twice_restores_matrix() {
    // matrix [[2, 3], [5, 0]]
    let mut t = Table::new(rows(vec![vec![2]]), vals(vec![3]), vals(vec![5]), false).unwrap();
    assert!(t.transform(0, 0));
    assert!(t.table.get(0, 0).eq_value(Rat::new(1, 2).unwrap()));
    assert!(t.table.get(0, 1).eq_value(Rat::new(3, 2).unwrap()));
    assert!(t.table.get(1, 0).eq_value(Rat::new(-5, 2).unwrap()));
    assert!(t.table.get(1, 1).eq_value(Rat::new(-15, 2).unwrap()));
    // the transform is its own inverse at a fixed pivot
    assert!(t.transform(0, 0));
    assert!(t.table.get(0, 0).eq_value(r(2)));
    assert!(t.table.get(0, 1).eq_value(r(3)));
    assert!(t.table.get(1, 0).eq_value(r(5)));
    assert!(t.table.get(1, 1).eq_value(r(0)));
}

#[test]
fn ratio_test_selects_smallest_ratio() {
    // column entries [2, -1, 4], free terms [10, -5, 8]: the ratios are
    // 10/2 = 5, -5/-1 = 5 (a both-negative row is eligible) and 8/4 = 2;
    // row index 2 wins with the smallest ratio 2
    let t = Table::new(
        rows(vec![vec![2], vec![-1], vec![4]]),
        vals(vec![10, -5, 8]),
        vals(vec![0]),
        false,
    )
    .unwrap();
    assert_eq!(t.find_pivot_row(0), Some(2));
}

#[test]
fn ratio_test_zero_free_term_is_eligible() {
    let t = Table::new(
        rows(vec![vec![1], vec![1]]),
        vals(vec![0, 7]),
        vals(vec![0]),
        false,
    )
    .unwrap();
    // ratio 0/1 = 0 is eligible and smallest
    assert_eq!(t.find_pivot_row(0), Some(0));
}

#[test]
fn end_to_end_maximisation() {
    // maximise 3x + 2y subject to x + y <= 4 and x + 2y <= 5 (slack columns
    // already added by the caller)
    let mut t = Table::new(
        rows(vec![vec![1, 1, 1, 0], vec![1, 2, 0, 1]]),
        vals(vec![4, 5]),
        vals(vec![3, 2, 0, 0]),
        false,
    )
    .unwrap();
    assert!(t.optimise().is_ok());
    // one pivot at (0, 0): x enters the basis with value 4, y stays 0
    assert_eq!(t.base_var[0], Label::Var(1));
    assert!(t.table.get(0, 4).eq_value(r(4)));
    assert!(t.table.get(1, 4).eq_value(r(1)));
    // the objective cell accumulates the negated objective value
    assert!(t.table.get(2, 4).eq_value(r(-12)));
    // optimality certificate: every objective coefficient is non-positive
    for j in 0..4 {
        assert!(t.table.get(2, j).num <= 0);
    }
}

#[test]
fn feasibility_restored_by_pivoting_negative_row() {
    // maximise -x subject to -x + s = -1 (x >= 1): phase 1 pivots on the
    // repaired row itself, whose free term and coefficient are both
    // negative, then phase 2 finds the row already optimal
    let mut t = Table::new(rows(vec![vec![-1, 1]]), vals(vec![-1]), vals(vec![-1, 0]), false)
        .unwrap();
    assert!(t.optimise().is_ok());
    // x enters the basis with value 1; the objective cell holds the negated
    // optimum -(-1) = 1
    assert_eq!(t.base_var[0], Label::Var(1));
    assert!(t.table.get(0, 2).eq_value(r(1)));
    assert!(t.table.get(1, 2).eq_value(r(1)));
    // the reported basic solution is feasible
    assert!(t.table.get(0, 2).num >= 0);
}

#[test]
fn end_to_end_infeasible() {
    // x <= -1 and x >= 0 have no common point
    let mut t = Table::new(
        rows(vec![vec![1, 1, 0], vec![-1, 0, 1]]),
        vals(vec![-1, 0]),
        vals(vec![1, 0, 0]),
        false,
    )
    .unwrap();
    assert!(matches!(t.optimise(), Err(SimplexError::NoSolutionsError)));
}

#[test]
fn end_to_end_unbounded() {
    // maximise x subject only to x >= 0
    let mut t = Table::new(rows(vec![vec![-1, 1]]), vals(vec![0]), vals(vec![1, 0]), false)
        .unwrap();
    assert!(matches!(t.optimise(), Err(SimplexError::UnlimitedError)));
}

#[test]
fn optimality_certificate_after_success() {
    let mut t = Table::new(
        rows(vec![vec![2, 1], vec![1, 3]]),
        vals(vec![8, 9]),
        vals(vec![1, 1]),
        false,
    )
    .unwrap();
    assert!(t.optimise().is_ok());
    let cols = t.table.ncols();
    let rows_n = t.table.nrows();
    for j in 0..cols - 1 {
        assert!(t.table.get(rows_n - 1, j).num <= 0);
    }
}
