use symbolica::rational::Rational;

fn pair(r: &Rational) -> (i64, i64) {
    (r.num, r.den)
}

fn q(n: i64, d: i64) -> Rational {
    Rational::new(n, d).unwrap()
}

#[test]
fn new_reduces_to_lowest_terms() {
    assert_eq!(pair(&q(6, 4)), (3, 2));
    assert_eq!(pair(&q(3, -6)), (-1, 2));
    assert_eq!(pair(&q(0, 5)), (0, 1));
    assert!(Rational::new(1, 0).is_none());
}

#[test]
fn constants() {
    assert_eq!(pair(&Rational::zero()), (0, 1));
    assert_eq!(pair(&Rational::one()), (1, 1));
    assert_eq!(pair(&Rational::from_int(-7)), (-7, 1));
    assert!(Rational::zero().is_zero());
    assert!(!Rational::one().is_zero());
}

#[test]
fn addition_and_multiplication_commute() {
    let a = q(1, 6);
    let b = q(3, 4);
    assert_eq!(pair(&a.checked_add(&b).unwrap()), (11, 12));
    assert_eq!(pair(&b.checked_add(&a).unwrap()), (11, 12));
    assert_eq!(pair(&a.checked_mul(&b).unwrap()), (1, 8));
    assert_eq!(pair(&b.checked_mul(&a).unwrap()), (1, 8));
}

#[test]
fn negation_inverse_division() {
    assert_eq!(pair(&q(2, 3).checked_neg().unwrap()), (-2, 3));
    assert_eq!(pair(&q(-2, 3).checked_inv().unwrap()), (-3, 2));
    assert!(Rational::zero().checked_inv().is_none());
    assert_eq!(pair(&q(1, 2).checked_div(&q(1, 4)).unwrap()), (2, 1));
    assert!(q(1, 2).checked_div(&Rational::zero()).is_none());
}

#[test]
fn overflow_gives_none() {
    let big = Rational::from_int(i64::MAX);
    assert!(big.checked_add(&Rational::one()).is_none());
    assert!(big.checked_mul(&Rational::from_int(2)).is_none());
    assert!(Rational::from_int(i64::MIN).checked_neg().is_none());
}

#[test]
fn gcd_of_rationals() {
    assert_eq!(pair(&q(4, 1).checked_gcd(&q(6, 1)).unwrap()), (2, 1));
    assert_eq!(pair(&q(1, 2).checked_gcd(&q(1, 3)).unwrap()), (1, 6));
    assert_eq!(pair(&Rational::zero().checked_gcd(&q(2, 3)).unwrap()), (2, 3));
}

#[test]
fn equality_by_value() {
    let a = Rational { num: 2, den: 4 };
    let b = q(1, 2);
    assert!(a.eq_value(&b));
    assert!(!a.eq_value(&q(1, 3)));
}
