use multigrains::rational::Rational;
use multigrains::tableau::{BuildError, SimplexError, TableauBuilder};

fn whole(n: i64) -> Rational {
    Rational::from_i64(n)
}

fn frac(n: i64, d: i64) -> Rational {
    whole(n).div(whole(d)).unwrap()
}

#[test]
fn builder_negates_prices() {
    let b = TableauBuilder::new(&[2, 3]);
    assert_eq!(b.target_function.coefficients, vec![whole(-2), whole(-3)]);
    assert_eq!(b.target_function.value, whole(0));
    assert!(b.constraints.is_empty());
}

#[test]
fn builder_adds_slack_columns() {
    let b = TableauBuilder::new(&[2, 3])
        .add_constraint(&[1, 1], 4)
        .unwrap()
        .add_constraint(&[1, 2], 6)
        .unwrap();
    assert_eq!(b.constraints[0].coefficients, vec![whole(1), whole(1), whole(1), whole(0)]);
    assert_eq!(b.constraints[1].coefficients, vec![whole(1), whole(2), whole(0), whole(1)]);
    assert_eq!(b.constraints[1].value, whole(6));
    assert_eq!(b.target_function.coefficients.len(), 4);
    let t = b.get_tableau();
    assert_eq!(t.constraints[0].coefficients.len(), 5);
    assert_eq!(t.constraints[0].coefficients[4], whole(0));
    assert_eq!(t.target_function.coefficients[4], whole(1));
}

#[test]
fn builder_rejects_wrong_counts() {
    let b = TableauBuilder::new(&[2, 3]);
    assert!(matches!(b.add_constraint(&[1, 1, 1], 4), Err(BuildError::InvalidCoefficientCount)));
    let b = TableauBuilder::new(&[2, 3]).add_constraint(&[1, 1], 4).unwrap();
    assert!(matches!(b.add_constraint(&[1], 4), Err(BuildError::InvalidCoefficientCount)));
}

#[test]
fn two_variable_example() {
    let s = TableauBuilder::new(&[2, 3])
        .add_constraint(&[1, 1], 4)
        .unwrap()
        .add_constraint(&[1, 2], 6)
        .unwrap()
        .get_tableau()
        .apply_simplex()
        .unwrap();
    assert_eq!(s.get_coef(0), whole(2));
    assert_eq!(s.get_coef(1), whole(2));
    assert_eq!(s.get_max(), whole(10));
}

#[test]
fn single_constraint_example() {
    let s = TableauBuilder::new(&[1])
        .add_constraint(&[1], 5)
        .unwrap()
        .get_tableau()
        .apply_simplex()
        .unwrap();
    assert_eq!(s.get_coef(0), whole(5));
    assert_eq!(s.get_max(), whole(5));
}

#[test]
fn fractional_optimum() {
    // maximize x1 with 3x1 <= 2: x1 = 2/3
    let s = TableauBuilder::new(&[1])
        .add_constraint(&[3], 2)
        .unwrap()
        .get_tableau()
        .apply_simplex()
        .unwrap();
    assert_eq!(s.get_coef(0), frac(2, 3));
    assert_eq!(s.get_max(), frac(2, 3));
}

#[test]
fn identity_columns_are_read_as_basic() {
    // nothing to improve: every column that is a unit column reads its row's value
    let s = TableauBuilder::new(&[0, 0])
        .add_constraint(&[1, 1], 4)
        .unwrap()
        .get_tableau()
        .apply_simplex()
        .unwrap();
    assert_eq!(s.get_coef(0), whole(4));
    assert_eq!(s.get_coef(1), whole(4));
    assert_eq!(s.get_coef(2), whole(4));
    assert_eq!(s.get_max(), whole(0));
}

#[test]
fn unbounded_problem_is_reported() {
    let r = TableauBuilder::new(&[1, 1])
        .add_constraint(&[1, 0], 4)
        .unwrap()
        .get_tableau()
        .apply_simplex();
    assert!(matches!(r, Err(SimplexError::Unbounded)));
}

#[test]
fn pivot_leaves_unit_column() {
    let s = TableauBuilder::new(&[1])
        .add_constraint(&[2], 4)
        .unwrap()
        .get_tableau()
        .apply_simplex()
        .unwrap();
    assert_eq!(s.coefs, vec![whole(2), whole(0), whole(2)]);
}

#[test]
fn simplex_overflow_is_reported() {
    let r = TableauBuilder::new(&[u64::MAX])
        .add_constraint(&[3], u64::MAX - 1)
        .unwrap()
        .get_tableau()
        .apply_simplex();
    assert!(matches!(r, Err(SimplexError::Overflow)));
}
