use multigrains::args::{program, ArgumentError, Arguments, Commands, ProgramError};
use multigrains::rational::Rational;

fn whole(n: i64) -> Rational {
    Rational::from_i64(n)
}

fn args(values: [u64; 9]) -> Arguments {
    match Commands::from_values(&values) {
        Ok(Commands::Program(a)) => a,
        _ => panic!("nine values give a program"),
    }
}

#[test]
fn from_values_counts_arguments() {
    assert!(matches!(Commands::from_values(&[1, 2, 3]), Err(ArgumentError::InvalidCount(3))));
    let a = args([1, 2, 3, 4, 5, 6, 7, 8, 9]);
    assert_eq!((a.n1, a.n4, a.po, a.ps), (1, 4, 5, 9));
}

#[test]
fn all_resources_zero() {
    let s = program(&args([0, 0, 0, 0, 10, 20, 30, 40, 50])).unwrap();
    for i in 0..5 {
        assert_eq!(s.get_coef(i), whole(0));
    }
    assert_eq!(s.get_max(), whole(0));
}

#[test]
fn all_prices_zero() {
    let s = program(&args([10, 10, 10, 10, 0, 0, 0, 0, 0])).unwrap();
    for i in 0..5 {
        assert_eq!(s.get_coef(i), whole(0));
    }
    assert_eq!(s.get_max(), whole(0));
}

#[test]
fn production_plan_is_feasible_and_matches_objective() {
    let a = args([100, 50, 150, 80, 5, 8, 3, 7, 10]);
    let s = program(&a).unwrap();
    let x: Vec<Rational> = (0..5).map(|i| s.get_coef(i)).collect();
    let rows: [[i64; 5]; 4] = [[1, 0, 1, 0, 2], [1, 2, 0, 1, 0], [2, 1, 0, 1, 0], [0, 0, 3, 1, 2]];
    let limits = [a.n1, a.n2, a.n3, a.n4];
    for (row, limit) in rows.iter().zip(limits.iter()) {
        let mut used = whole(0);
        for (c, v) in row.iter().zip(x.iter()) {
            assert!(!v.is_neg());
            used = used.add(whole(*c).mul(*v).unwrap()).unwrap();
        }
        assert!(!Rational::from_u64(*limit).sub(used).unwrap().is_neg());
    }
    let prices = [a.po, a.pw, a.pc, a.pb, a.ps];
    let mut value = whole(0);
    for (p, v) in prices.iter().zip(x.iter()) {
        value = value.add(Rational::from_u64(*p).mul(*v).unwrap()).unwrap();
    }
    assert_eq!(value, s.get_max());
}

#[test]
fn program_never_fails_to_build() {
    let r = program(&args([1, 1, 1, 1, 1, 1, 1, 1, 1]));
    assert!(!matches!(r, Err(ProgramError::Build(_))));
}
