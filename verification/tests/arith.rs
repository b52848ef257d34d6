use fixed_decimal::decimal::big::BigDecimal;
use fixed_decimal::decimal::cmp::Compare;
use fixed_decimal::decimal::errors::ErrorCode;
use fixed_decimal::decimal::ops::{Add, BigDiv, BigMul, Div, DivUp, Mul, MulUp, Neg, Sub};
use fixed_decimal::decimal::Decimal;
use fixed_decimal::uint::U192;

#[test]
fn test_add() {
    {
        // error: 0.000012 + 1.3 = ErrorCode::DifferentScale
        let a = Decimal::new(12, 6, false);
        let b = Decimal::new(13, 2, false);
        let actual = a.add(b);

        assert!(actual.is_err());
        assert!(matches!(actual, Err(ErrorCode::DifferentScale)));
    }

    {
        // test: 1.2 + 1.3 = 2.5
        let a = Decimal::new(12, 1, false);
        let b = Decimal::new(13, 1, false);
        let actual = a.add(b).unwrap();
        let expected = Decimal::new(25, 1, false);

        assert_eq!(actual, expected);
    }

    {
        // test: 2 + 2 = 4
        let a = Decimal::new(2, 0, false);
        let b = Decimal::new(2, 0, false);

        let expected = Decimal::new(4, 0, false);

        assert_eq!(a.add(b).unwrap(), expected);
    }

    {
        // test: -2 + (-2) = -4
        let a = Decimal::new(2, 0, true);
        let b = Decimal::new(2, 0, true);

        let expected = Decimal::new(4, 0, true);

        assert_eq!(a.add(b).unwrap(), expected);
    }

    {
        // test: 4 + (-3) = +1
        let a = Decimal::new(4, 0, false);
        let b = Decimal::new(3, 0, true);

        let expected = Decimal::new(1, 0, false);

        assert_eq!(a.add(b).unwrap(), expected);
    }

    {
        // test: 2 + (-5) = -3;
        let a = Decimal::new(2, 0, false);
        let b = Decimal::new(5, 0, true);

        let expected = Decimal::new(3, 0, true);

        assert_eq!(a.add(b).unwrap(), expected);
    }

    {
        // test -4 + 3 = -1
        let a = Decimal::new(4, 0, true);
        let b = Decimal::new(3, 0, false);

        let expected = Decimal::new(1, 0, true);

        assert_eq!(a.add(b).unwrap(), expected);
    }

    {
        // test: -2 + 5 = 3
        let a = Decimal::new(2, 0, true);
        let b = Decimal::new(5, 0, false);

        let expected = Decimal::new(3, 0, false);

        assert_eq!(a.add(b).unwrap(), expected);
    }
}

#[test]
fn test_sub() {
    {
        // error: 0.000012 - 1.3 = ErrorCode::DifferentScale
        let a = Decimal::new(12, 6, false);
        let b = Decimal::new(13, 2, false);
        let actual = a.sub(b);

        assert!(actual.is_err());
        assert!(matches!(actual, Err(ErrorCode::DifferentScale)));
    }

    {
        // test 1.3 - 1.2 = 0.1
        let a = Decimal::new(13, 1, false);
        let b = Decimal::new(12, 1, false);
        let actual = a.sub(b).unwrap();
        let expected = Decimal::new(1, 1, false);

        assert_eq!(actual, expected);
    }

    {
        // test: 10 - 15 = -5
        let a = Decimal::new(10, 6, false);
        let b = Decimal::new(15, 6, false);

        let expected = Decimal::new(5, 6, true);

        assert_eq!(a.sub(b).unwrap(), expected);
    }

    {
        // test: 15 - 10 = 5
        let a = Decimal::new(15, 6, false);
        let b = Decimal::new(10, 6, false);

        let expected = Decimal::new(5, 6, false);

        assert_eq!(a.sub(b).unwrap(), expected);
    }

    {
        // test: -10 - (-15) = 5
        let a = Decimal::new(10, 6, true);
        let b = Decimal::new(15, 6, true);

        let expected = Decimal::new(5, 6, false);

        assert_eq!(a.sub(b).unwrap(), expected);
    }

    {
        // test: -10 - (-5) = -5
        let a = Decimal::new(10, 6, true);
        let b = Decimal::new(5, 6, true);

        let expected = Decimal::new(5, 6, true);

        assert_eq!(a.sub(b).unwrap(), expected);
    }

    {
        // test: -10 - 15 = -25
        let a = Decimal::new(10, 6, true);
        let b = Decimal::new(15, 6, false);

        let expected = Decimal::new(25, 6, true);

        assert_eq!(a.sub(b).unwrap(), expected);
    }

    {
        // test: 10 - (-15) = 25
        let a = Decimal::new(10, 6, false);
        let b = Decimal::new(15, 6, true);

        let expected = Decimal::new(25, 6, false);

        assert_eq!(a.sub(b).unwrap(), expected);
    }

    {
        // test: 0 - 15 = -15
        let a = Decimal::new(0, 6, false);
        let b = Decimal::new(15, 6, false);

        let expected = Decimal::new(15, 6, true);

        assert_eq!(a.sub(b).unwrap(), expected);
    }

    {
        // test: 0 - (-15) = 15
        let a = Decimal::new(0, 6, false);
        let b = Decimal::new(15, 6, true);

        let expected = Decimal::new(15, 6, false);

        assert_eq!(a.sub(b).unwrap(), expected);
    }
}

#[test]
fn test_neg() {
    // when zero, is zero
    {
        let decimal = Decimal::new(0, 0, false);
        assert!(decimal.neg().is_zero());
    }

    // when positive, is negative
    {
        let decimal = Decimal::new(42, 4, false);
        assert!(decimal.neg().is_negative());
    }

    // when negative, is positive
    {
        let decimal = Decimal::new(42, 4, true);
        assert!(decimal.neg().is_positive());
    }
}

#[test]
fn test_mul_decimal() {
    {
        // test: 1.234 * 0.04321 = 0.053
        let a = Decimal::new(1234, 3, false);
        let b = Decimal::new(4321, 5, false);
        let actual = a.mul(b);
        let expected = Decimal::new(53, 3, false);

        assert_eq!(actual, expected);
    }

    {
        // test: -4 * -3 = 12
        let a = Decimal::new(4, 0, true);
        let b = Decimal::new(3, 0, true);
        let expected = Decimal::new(12, 0, false);

        assert_eq!(a.mul(b), expected);
    }

    {
        // test: -4 * 3 = -12
        let a = Decimal::new(4, 0, true);
        let b = Decimal::new(3, 0, false);
        let expected = Decimal::new(12, 0, true);

        assert_eq!(a.mul(b), expected);
    }

    {
        // test: 4 * -3 = -12
        let a = Decimal::new(4, 0, false);
        let b = Decimal::new(3, 0, true);
        let expected = Decimal::new(12, 0, true);

        assert_eq!(a.mul(b), expected);
    }

    {
        // test: 4 * 3 = 12
        let a = Decimal::new(4, 0, false);
        let b = Decimal::new(3, 0, false);
        let expected = Decimal::new(12, 0, false);

        assert_eq!(a.mul(b), expected);
    }
}

#[test]
fn test_mul_u128() {
    {
        // test: 98.76 * 555 = 54811.80
        let a = Decimal::new(9876, 2, false);
        let b: u128 = 555;
        let actual = a.mul(b);
        let expected = Decimal::new(5481180, 2, false);

        assert_eq!(actual, expected);
    }
}

#[test]
fn test_mul_u192() {
    {
        // test: 18446744073709551615 * 18446744073709551615
        // = 340282366920938463426481119284349108225
        let a = BigDecimal::new(U192::from_u64(u64::MAX), 0, false);
        let b = BigDecimal::new(U192::from_u64(u64::MAX), 0, false);

        let actual = a.mul(b);
        let expected = BigDecimal::new(U192(1, u64::MAX - 1, 0), 0, false);

        assert_eq!(actual, expected);
    }
}

#[test]
fn test_div() {
    {
        // test: 0.0000002 / 0.002 = 0.00010000
        let a = Decimal::new(2, 8, false);
        let b = Decimal::new(2, 3, false);
        let actual = a.div(b);
        let expected = Decimal::new(1000, 8, false);

        assert_eq!(actual, expected);
    }

    {
        // test: 0.0000002 / 0.003 = 0.00006666
        let a = Decimal::new(2, 8, false);
        let b = Decimal::new(3, 3, false);
        let actual = a.div(b);
        let expected = Decimal::new(666, 8, false);

        assert_eq!(actual, expected);
    }

    {
        // test: -12 / -3 = 4
        let a = Decimal::new(12, 0, true);
        let b = Decimal::new(3, 0, true);
        let expected = Decimal::new(4, 0, false);
        assert_eq!(a.div(b), expected);
    }

    {
        // test: -12 / 3 = -4
        let a = Decimal::new(12, 0, true);
        let b = Decimal::new(3, 0, false);
        let expected = Decimal::new(4, 0, true);
        assert_eq!(a.div(b), expected);
    }

    {
        // test: 12 / -3 = -4
        let a = Decimal::new(12, 0, false);
        let b = Decimal::new(3, 0, true);
        let expected = Decimal::new(4, 0, true);
        assert_eq!(a.div(b), expected);
    }

    {
        // test: 12 / 3 = 4
        let a = Decimal::new(12, 0, false);
        let b = Decimal::new(3, 0, false);
        let expected = Decimal::new(4, 0, false);
        assert_eq!(a.div(b), expected);
    }
}

#[test]
fn test_div_192() {
    {
        // test: 340282366920938463426481119284349108225
        // / 18446744073709551615
        // = 18446744073709551615
        let a = BigDecimal::new(U192(1, u64::MAX - 1, 0), 0, false);
        let b = BigDecimal::new(U192::from_u64(u64::MAX), 0, false);
        let actual = a.div(b);
        let expected = BigDecimal::new(U192::from_u64(u64::MAX), 0, false);

        assert_eq!(actual, expected);
    }
}

#[test]
fn test_div_up() {
    // 0/n = 0
    {
        let a = Decimal::new(0, 0, false);
        let b = Decimal::new(1, 0, false);
        assert_eq!(a.div_up(b), Decimal::new(0, 0, false));
    }

    // 1/2 = 1 rounded up
    {
        let a = Decimal::new(1, 0, false);
        let b = Decimal::new(2, 0, false);
        assert_eq!(a.div_up(b), Decimal::new(1, 0, false));
    }

    // 200,000.000001/2 = 100000.000001 rounded up
    {
        let a = Decimal::new(200_000_000_001, 6, false);
        let b = Decimal::new(2_000, 3, false);
        assert!(!a
            .div_up(b)
            .lt(Decimal::new(100_000_000_001, 6, false))
            .unwrap());
    }

    // 42.00/10 = 4.20 = 5.00 rounded up
    {
        let a = Decimal::new(42, 2, false);
        let b = Decimal::new(10, 0, false);
        assert_eq!(a.div_up(b), Decimal::new(5, 2, false));
    }
}

#[test]
fn test_mul_up() {
    // mul of small number
    {
        let a = Decimal::new(1, 12, false);
        let b = Decimal::new(1, 12, false);
        assert_eq!(a.mul_up(b), Decimal::new(1, 12, false));
    }

    // mul same precision
    // 1.000000 * 0.300000 = 0.300000
    {
        let a = Decimal::new(1000000, 6, false);
        let b = Decimal::new(300000, 6, false);
        assert_eq!(a.mul_up(b), Decimal::new(300000, 6, false));
    }

    // mul by zero
    // 1.00 * 0 = 0.00
    {
        let a = Decimal::new(100, 2, false);
        let b = Decimal::new(0, 0, false);
        assert_eq!(a.mul_up(b), Decimal::new(0, 2, false));
    }

    // mul different decimals increases precision
    {
        let a = Decimal::new(1_000_000_000, 9, false);
        let b = Decimal::new(3, 6, false);
        assert_eq!(a.mul_up(b), Decimal::new(3000, 9, false));
    }
}

#[test]
fn test_big_mul_decimal() {
    {
        // test: 340282366920938463463374607.431768211454 * 0.000000000002 = 680564733841876.926926749214
        let a = Decimal::new(u128::MAX - 1, 12, false);
        let b = Decimal::new(2, 12, false);
        let actual = a.big_mul(b);
        let expected = Decimal::new(680_564_733_841_876_926_926_749_214, 12, false);

        assert_eq!(actual, expected);
    }
}

#[test]
fn test_big_div() {
    {
        // test: 18446744073709551615.000000000 / 0.000000001 = 18446744073709551615000000000.000000000
        let a = Decimal::new(u128::MAX, 0, false);
        let b = Decimal::new(1, 0, false);
        let actual = a.big_div(b);
        let expected = Decimal::new(u128::MAX, 0, false);

        assert_eq!(actual, expected);
    }
}
