use multigrains::gcd::gcd_u64;
use multigrains::rational::{ArithmeticError, Rational};
use std::cmp::Ordering;

fn r(n: i64) -> Rational {
    Rational::from_i64(n)
}

fn parts(x: Rational) -> (bool, u64, u64) {
    (x.is_neg(), x.numerator(), x.denominator())
}

fn third() -> Rational {
    r(1).div(r(3)).unwrap()
}

#[test]
fn gcd_edge_cases() {
    assert_eq!(gcd_u64(0, 0), 0);
    assert_eq!(gcd_u64(7, 0), 7);
    assert_eq!(gcd_u64(0, 7), 7);
    assert_eq!(gcd_u64(48, 18), 6);
    assert_eq!(gcd_u64(18, 48), 6);
    assert_eq!(gcd_u64(17, 5), 1);
    assert_eq!(gcd_u64(1 << 40, 3 << 38), 1 << 38);
    assert_eq!(gcd_u64(u64::MAX, u64::MAX), u64::MAX);
}

#[test]
fn construction_from_integers() {
    assert_eq!(parts(Rational::from_u64(5)), (false, 5, 1));
    assert_eq!(parts(r(-5)), (true, 5, 1));
    assert_eq!(parts(r(0)), (false, 0, 1));
    assert_eq!(parts(r(i64::MIN)), (true, 1u64 << 63, 1));
    assert_eq!(Rational::from_u64(0), r(0));
}

#[test]
fn addition_uses_lowest_terms() {
    let a = r(1).div(r(6)).unwrap();
    let b = r(1).div(r(3)).unwrap();
    assert_eq!(parts(a.add(b).unwrap()), (false, 1, 2));
    assert_eq!(parts(a.add(r(-1)).unwrap()), (true, 5, 6));
    assert_eq!(parts(r(-2).add(r(-3)).unwrap()), (true, 5, 1));
}

#[test]
fn subtraction_and_negation() {
    assert_eq!(parts(r(3).sub(r(5)).unwrap()), (true, 2, 1));
    assert_eq!(parts(third().neg()), (true, 1, 3));
    assert_eq!(parts(r(0).neg()), (false, 0, 1));
}

#[test]
fn zero_results_are_positive() {
    assert_eq!(parts(r(3).sub(r(3)).unwrap()), (false, 0, 1));
    assert_eq!(parts(r(-3).add(r(3)).unwrap()), (false, 0, 1));
    assert_eq!(parts(r(-3).mul(r(0)).unwrap()), (false, 0, 1));
    assert_eq!(parts(r(0).div(r(-7)).unwrap()), (false, 0, 1));
    assert_eq!(r(-3).mul(r(0)).unwrap(), Rational::from_u64(0));
}

#[test]
fn multiplication_and_division() {
    let two_thirds = r(2).div(r(3)).unwrap();
    assert_eq!(parts(two_thirds.mul(r(-3)).unwrap()), (true, 2, 1));
    assert_eq!(parts(two_thirds.div(r(-4)).unwrap()), (true, 1, 6));
    assert_eq!(parts(r(-6).div(r(-4)).unwrap()), (false, 3, 2));
}

#[test]
fn division_by_zero_is_an_error() {
    assert_eq!(r(5).div(r(0)), Err(ArithmeticError::DivisionByZero));
    assert_eq!(r(0).div(r(0)), Err(ArithmeticError::DivisionByZero));
}

#[test]
fn overflow_is_an_error() {
    let big = Rational::from_u64(u64::MAX);
    assert_eq!(big.add(r(1)), Err(ArithmeticError::Overflow));
    assert_eq!(big.mul(r(2)), Err(ArithmeticError::Overflow));
    assert_eq!(r(1).div(big).unwrap().div(r(2)), Err(ArithmeticError::Overflow));
    assert_eq!(parts(big.add(r(-1)).unwrap()), (false, u64::MAX - 1, 1));
}

#[test]
fn add_then_subtract_gives_back() {
    let x = r(7).div(r(12)).unwrap();
    let y = r(-5).div(r(18)).unwrap();
    assert_eq!(x.add(y).unwrap().sub(y).unwrap(), x);
    assert_eq!(y.add(x).unwrap().sub(x).unwrap(), y);
}

#[test]
fn multiply_then_divide_gives_back() {
    let x = r(7).div(r(12)).unwrap();
    let y = r(-5).div(r(18)).unwrap();
    assert_eq!(x.mul(y).unwrap().div(y).unwrap(), x);
    assert_eq!(r(0).mul(y).unwrap().div(y).unwrap(), r(0));
}

#[test]
fn comparison_is_total_and_agrees_with_difference() {
    let values = [r(-3), r(-1).div(r(2)).unwrap(), r(0), third(), r(1).div(r(2)).unwrap(), r(4)];
    for (i, x) in values.iter().enumerate() {
        for (j, y) in values.iter().enumerate() {
            let o = x.compare(y);
            assert_eq!(o, i.cmp(&j));
            let d = x.sub(*y).unwrap();
            let by_difference = if d.is_neg() {
                Ordering::Less
            } else if d == r(0) {
                Ordering::Equal
            } else {
                Ordering::Greater
            };
            assert_eq!(o, by_difference);
            assert_eq!(o == Ordering::Equal, x == y);
        }
    }
}

#[test]
fn comparison_of_negatives_is_inverted() {
    let a = r(-1).div(r(3)).unwrap();
    let b = r(-1).div(r(2)).unwrap();
    assert_eq!(a.compare(&b), Ordering::Greater);
    assert_eq!(b.compare(&a), Ordering::Less);
}

#[test]
fn zero_divided_is_canonical_zero() {
    let z = r(0).div(r(-7).div(r(3)).unwrap()).unwrap();
    assert_eq!(z, Rational::from_u64(0));
    assert_eq!(parts(z), (false, 0, 1));
}
