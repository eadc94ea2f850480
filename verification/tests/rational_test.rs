use rustymill::rational::{checked_add, checked_div, checked_mul, divide, rational_lt, Rational};

#[test]
fn test_new_reduces_to_lowest_terms() {
    let r = Rational::new(6, 8);
    assert_eq!((r.numer(), r.denom()), (3, 4));
}

#[test]
fn test_new_moves_sign_to_numerator() {
    let r = Rational::new(3, -9);
    assert_eq!((r.numer(), r.denom()), (-1, 3));
}

#[test]
fn test_checked_add_exact_sum() {
    let s = checked_add(&Rational::new(1, 2), &Rational::new(1, 3)).unwrap();
    assert_eq!((s.numer(), s.denom()), (5, 6));
}

#[test]
fn test_checked_add_overflow_is_none() {
    let big = Rational::from_integer(i64::MAX);
    assert!(checked_add(&big, &Rational::from_integer(1)).is_none());
}

#[test]
fn test_checked_mul_exact_product() {
    let p = checked_mul(&Rational::new(2, 3), &Rational::new(3, 4)).unwrap();
    assert_eq!((p.numer(), p.denom()), (1, 2));
}

#[test]
fn test_checked_div_exact_quotient_and_zero_divisor() {
    let q = checked_div(&Rational::new(1, 2), &Rational::new(1, 4)).unwrap();
    assert_eq!((q.numer(), q.denom()), (2, 1));
    assert!(checked_div(&Rational::new(1, 2), &Rational::zero()).is_none());
}

#[test]
fn test_divide_times_divisor_gives_dividend() {
    let e = Rational::new(12, 5);
    let q = Rational::new(3, 10);
    let d = divide(&e, &q).unwrap();
    assert_eq!((d.numer(), d.denom()), (8, 1));
    let back = checked_mul(&q, &d).unwrap();
    assert!(back.equals(&e));
}

#[test]
fn test_rational_order() {
    assert!(rational_lt(&Rational::new(1, 3), &Rational::new(1, 2)));
    assert!(!rational_lt(&Rational::new(1, 2), &Rational::new(1, 2)));
    assert!(rational_lt(&Rational::new(-1, 2), &Rational::zero()));
}

#[test]
fn test_divide_zero_by_min_numerator() {
    let zero = Rational::from_integer(0);
    let b = Rational::new(i64::MIN, 3);
    let q = divide(&zero, &b).unwrap();
    assert!(q.equals(&Rational::from_integer(0)));
}
