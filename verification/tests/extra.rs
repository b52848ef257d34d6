use fixed_decimal::decimal::cmp::Compare;
use fixed_decimal::decimal::errors::ErrorCode;
use fixed_decimal::decimal::ops::{Add, Div, DivUp, Log2, Mul, Pow, Sqrt};
use fixed_decimal::decimal::Decimal;

#[test]
fn test_round_trip_through_text() {
    // parse(display(parse(s))) == parse(s)
    for s in ["42", "-42", "1.5", "-1.5", "0.000001", "42.500420", "1.5e6", "-1.5e6"] {
        let once = Decimal::from_str(s).unwrap();
        let again = Decimal::from_str(once.to_string().as_str()).unwrap();
        assert_eq!(once, again);
    }
}

#[test]
fn test_add_commutes() {
    let a = Decimal::new(12, 1, false);
    let b = Decimal::new(34, 1, true);
    assert_eq!(a.add(b).unwrap(), b.add(a).unwrap());
}

#[test]
fn test_mul_sign_is_xor() {
    let a = Decimal::new(7, 0, true);
    let b = Decimal::new(3, 0, true);
    assert!(!a.mul(b).negative);
    let c = Decimal::new(3, 0, false);
    assert!(a.mul(c).negative);
}

#[test]
fn test_zero_results_are_non_negative() {
    // a product that truncates to zero drops the sign
    let a = Decimal::new(1, 6, true); // -0.000001
    let b = Decimal::new(1, 6, false); // 0.000001
    let product = a.mul(b);
    assert_eq!(product, Decimal::new(0, 6, false));
    assert!(!product.negative);

    // a quotient that truncates to zero drops the sign
    let c = Decimal::new(1, 0, true); // -1
    let d = Decimal::new(100, 0, false); // 100
    let quotient = c.div(d);
    assert_eq!(quotient, Decimal::new(0, 0, false));
    assert!(!quotient.negative);

    // a negative magnitude that truncates away in a scale change too
    let e = Decimal::new(9, 6, true); // -0.000009
    let rescaled = e.to_scale(3);
    assert_eq!(rescaled, Decimal::new(0, 3, false));
    assert!(!rescaled.negative);
}

#[test]
fn test_div_up_dominates_div() {
    let a = Decimal::new(2_000000, 6, false);
    let b = Decimal::new(3_000000, 6, false);
    let floor = a.div(b);
    let ceiling = a.div_up(b);
    assert!(ceiling.value >= floor.value);
    assert!(ceiling.value - floor.value <= 1);
    assert_eq!(floor.value, 666666);
    assert_eq!(ceiling.value, 666667);
}

#[test]
fn test_pow_small_exponents() {
    let x = Decimal::new(7_500000, 6, false);
    assert_eq!(x.pow(0u128), Decimal::new(1_000000, 6, false));
    assert_eq!(x.pow(1u128), x);
    assert_eq!(x.pow(2u128), x.mul(x));
}

#[test]
fn test_log2_exact_power_of_two() {
    // log2(2^10) has no iteration error at the compute scale
    let x = Decimal::new(1024 * 1_000000000000, 12, false);
    assert_eq!(x.log2().unwrap(), Decimal::new(10_000000000000, 12, false));
}

#[test]
fn test_parse_errors() {
    assert_eq!(Decimal::from_str(""), Err(ErrorCode::ParseErrorEmpty));
    assert_eq!(Decimal::from_str("abc"), Err(ErrorCode::ParseError));
    assert_eq!(Decimal::from_str("4-2"), Err(ErrorCode::ParseError));
    assert_eq!(Decimal::from_str("1.5e"), Err(ErrorCode::ParseError));
    assert_eq!(Decimal::from_str(".5"), Err(ErrorCode::ParseError));
    assert_eq!(Decimal::from_str("5."), Err(ErrorCode::ParseError));
    assert_eq!(
        Decimal::from_str_radix("11", 16),
        Err(ErrorCode::ParseErrorBase10)
    );
    assert_eq!(
        Decimal::from_str("99999999999999999999999999999999999999999"),
        Err(ErrorCode::ExceedsRange)
    );
    assert_eq!(
        Decimal::from_str("1e-300"),
        Err(ErrorCode::ExceedsPrecisionRange)
    );
}

#[test]
fn test_almost_eq_tolerance() {
    let a = Decimal::new(1000, 3, false);
    let b = Decimal::new(999, 3, false);
    assert!(a.almost_eq(b, 2).unwrap());
    assert!(!a.almost_eq(b, 1).unwrap());
    // the saturating difference ignores order
    assert!(b.almost_eq(a, 1).unwrap());
}

#[test]
fn test_scale_mismatch_is_rejected() {
    let a = Decimal::new(1, 1, false);
    let b = Decimal::new(1, 2, false);
    assert_eq!(a.add(b), Err(ErrorCode::DifferentScale));
    assert_eq!(a.eq(b), Err(ErrorCode::DifferentScale));
}

#[test]
fn test_display_pads_and_signs() {
    assert_eq!(Decimal::new(5, 3, false).to_string(), "0.005");
    assert_eq!(Decimal::new(5, 3, true).to_string(), "-0.005");
    assert_eq!(Decimal::new(12345, 2, false).to_string(), "123.45");
    assert_eq!(Decimal::new(0, 0, false).to_string(), "0");
}

#[test]
fn test_sqrt_square_stays_close() {
    // sqrt(a) squared lands within one unit for small operands
    let a = Decimal::new(200000000000, 12, false); // 0.2
    let r = a.sqrt().unwrap();
    let back = r.mul(r);
    assert!(back.value <= a.value);
    assert!(a.value - back.value <= 1);
}
