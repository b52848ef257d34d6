use fixed_decimal::decimal::ops::{Div, DivUp, Mul, Pow, Sqrt};
use fixed_decimal::decimal::Decimal;

#[test]
fn test_basic_examples() {
    {
        // 1.000000 * 1.000000 = 1.000000
        let a = Decimal::from_scaled_amount(1_000000, 6);
        let b = Decimal::from_scaled_amount(1_000000, 6);
        let actual = a.mul(b);
        let expected = Decimal {
            value: 1_000000,
            scale: 6,
            negative: false,
        };
        assert_eq!(actual, expected)
    }
    {
        // 3/2 = 1.500000
        let a = Decimal::from_u64(3).to_scale(6);
        let b = Decimal::from_u64(2).to_scale(6);

        let actual = a.div(b);
        let expected = Decimal {
            value: 1_500000,
            scale: 6,
            negative: false,
        };

        assert_eq!({ actual.value }, { expected.value });
        assert_eq!(actual.scale, expected.scale);

        // 2/3 = 0.666667 rounded up
        let a = Decimal::from_u64(2).to_scale(6);
        let b = Decimal::from_u64(3).to_scale(6);

        let actual = a.div_up(b);
        let expected = Decimal {
            value: 666667,
            scale: 6,
            negative: false,
        };

        assert_eq!({ actual.value }, { expected.value });
        assert_eq!(actual.scale, expected.scale);

        // 2/3 = 0.666666 truncated (default)
        let a = Decimal::from_u64(2).to_scale(6);
        let b = Decimal::from_u64(3).to_scale(6);

        let actual = a.div(b);
        let expected = Decimal {
            value: 666666,
            scale: 6,
            negative: false,
        };

        assert_eq!({ actual.value }, { expected.value });
        assert_eq!(actual.scale, expected.scale);
    }
}

#[test]
fn test_advanced_examples() {
    // large number multiplication
    let lhs = Decimal::from_u128(17134659154348278833);
    let rhs = Decimal::from_u128(11676758639919526015);
    let result = lhs.mul(rhs);
    let expected = Decimal::from_u128(200077279322612464128594731044417340495);
    assert_eq!(result, expected);

    let lhs = Decimal::from_u64(17134659154348278833);
    let rhs = Decimal::from_u64(11676758639919526015);
    let result = lhs.mul(rhs);
    let expected = Decimal::from_u128(200077279322612464128594731044417340495);
    assert_eq!(result, expected);

    let lhs = Decimal::from_scaled_amount(17134659154348278833, 6);
    let rhs = Decimal::from_scaled_amount(11676758639919526015, 6);
    let result = lhs.mul(rhs);
    let expected = Decimal::new(200077279322612464128594731044417, 6, false);
    assert_eq!(result, expected);

    // power function with decimal exponent, scaled down (floor) at lower precision
    // 42^1.5 = 272.191109
    let base = Decimal::new(42_000000000000, 12, false);
    let exp = Decimal::new(1500000000000, 12, false);
    let result = base.pow(exp).to_scale(6);
    let expected = Decimal {
        value: 272_191109,
        scale: 6,
        negative: false,
    };
    assert_eq!(result, expected);

    // power function with decimal exponent, scaled up (ceiling) at lower precision
    // 42^1.5 = 272.191110
    let base = Decimal::new(42_000000000000, 12, false);
    let exp = Decimal::new(1500000000000, 12, false);
    let result = base.pow(exp).to_scale_up(6);
    let expected = Decimal {
        value: 272_191110,
        scale: 6,
        negative: false,
    };
    assert_eq!(result, expected);

    // square root of 2 with accuracy scaled to 12 decimal places
    let n = Decimal::from_u64(2).to_compute_scale();
    let result = n.sqrt().unwrap();
    let expected = Decimal::new(1_414_213_562_373u128, 12, false);
    assert_eq!(result, expected);

    // square root of 2 with accuracy scaled to 8 decimal places
    let n = Decimal::from_u64(2).to_scale(8);
    let result = n.sqrt().unwrap();
    let expected = Decimal::new(141_421_356_u128, 8, false);
    assert_eq!(result, expected);

    // square root of 2 with accuracy scaled to 6 decimal places
    // with last digit rounded up
    let n = Decimal::from_u64(2).to_scale(8);
    let result = n.sqrt().unwrap().to_scale_up(6);
    let expected = Decimal::new(1_414_214u128, 6, false);
    assert_eq!(result, expected);
}

#[test]
fn test_new() {
    {
        let value = 42;
        let scale = 3;
        let actual = Decimal::new(value, scale, false);
        let expected = Decimal {
            value,
            scale,
            negative: false,
        };

        assert_eq!({ actual.value }, { expected.value });
        assert_eq!(actual.scale, expected.scale);
    }
}

#[test]
fn test_denominator() {
    {
        let decimal = Decimal::new(42, 2, false);
        let actual = decimal.denominator();
        let expected = 10u128.pow(2);
        assert_eq!(actual, expected);
    }

    {
        let decimal = Decimal::new(42, 0, false);
        let actual = decimal.denominator();
        let expected = 1;
        assert_eq!(actual, expected);
    }
}

#[test]
fn test_from_integer() {
    let integer: u64 = 42;
    let actual = Decimal::from_u64(integer);
    let expected = Decimal {
        value: 42,
        scale: 0,
        negative: false,
    };

    assert_eq!({ actual.value }, { expected.value });
    assert_eq!(actual.scale, expected.scale);
}

#[test]
fn test_from_scaled_integer() {
    let integer: u64 = 42_000000;
    let scale = 6;
    let actual = Decimal::from_scaled_amount(integer, scale);
    let expected = Decimal {
        value: 42_000000,
        scale: 6,
        negative: false,
    };

    assert_eq!({ actual.value }, { expected.value });
    assert_eq!(actual.scale, expected.scale);
}

#[test]
fn test_to_u64() {
    let decimal = Decimal::new(69420, 6, false);
    let actual: u64 = decimal.to_u64();
    let expected: u64 = 69420;

    assert_eq!(actual, expected);
}

#[test]
fn test_abs() {
    let decimal = Decimal::new(0, 0, false);
    assert_eq!(decimal.abs(), 0);

    let decimal = Decimal::new(42, 0, false);
    assert_eq!(decimal.abs(), 42);

    let decimal = Decimal::new(4269420, 5, false);
    assert_eq!(decimal.abs(), 42);

    let decimal = Decimal::new(4269420, 5, true);
    assert_eq!(decimal.abs(), 42);

    let decimal = Decimal::new(4269420, 5, false);
    assert_eq!(decimal.abs_up(), 43);

    let decimal = Decimal::new(4269420, 5, true);
    assert_eq!(decimal.abs_up(), 43);
}

#[test]
fn test_to_scale() {
    // increase precision
    {
        let decimal = Decimal::new(42, 2, false);
        let result = decimal.to_scale(3);

        assert_eq!(result.scale, 3);
        assert_eq!({ result.value }, 420);
    }
    // decrease precision
    {
        let decimal = Decimal::new(42, 2, false);
        let result = decimal.to_scale(1);

        assert_eq!(result.scale, 1);
        assert_eq!({ result.value }, 4);
    }
    // decrease precision past value
    {
        let decimal = Decimal::new(123, 4, false);
        let result = decimal.to_scale(0);

        assert_eq!(result.scale, 0);
        assert_eq!({ result.value }, 0);
    }
}

#[test]
fn test_to_scale_up() {
    // increase precision
    {
        let decimal = Decimal::new(42, 2, false);
        let result = decimal.to_scale_up(3);

        assert_eq!(result.scale, 3);
        assert_eq!({ result.value }, 420);
    }
    // decrease precision
    {
        let decimal = Decimal::new(42, 2, false);
        let result = decimal.to_scale_up(1);

        assert_eq!(result.scale, 1);
        assert_eq!({ result.value }, 5);
    }
    // decrease precision past value
    {
        let decimal = Decimal::new(123, 4, false);
        let result = decimal.to_scale_up(0);

        assert_eq!(result.scale, 0);
        assert_eq!({ result.value }, 1);
    }
}

#[test]
fn test_into_u64() {
    {
        let decimal = Decimal::new(333333333333333, 15, false);
        let actual: u64 = decimal.to_u64();
        let expected: u64 = 333333333333333;

        assert_eq!(actual, expected);
    }
}

#[test]
fn test_into_string() {
    {
        let decimal = Decimal::from_u128(42);
        assert_eq!(decimal.to_string(), "42");
    }

    {
        let decimal = Decimal::new(42, 0, true);
        assert_eq!(decimal.to_string(), "-42");
    }

    {
        let decimal = Decimal::from_scaled_amount(0, 6);
        assert_eq!(decimal.to_string(), "0.000000");
    }

    {
        let decimal = Decimal::from_scaled_amount(1_500_000, 6);
        assert_eq!(decimal.to_string(), "1.500000");
    }

    {
        let decimal = Decimal::from_scaled_amount(500_000, 6);
        assert_eq!(decimal.to_string(), "0.500000");
    }

    {
        let decimal = Decimal::new(500_000, 6, true);
        assert_eq!(decimal.to_string(), "-0.500000");
    }
}

#[test]
fn test_from_string() {
    {
        let actual = Decimal::from_str("1e6").unwrap();
        let expected = Decimal::new(1_000_000_000_000, 6, false);
        assert_eq!(actual, expected);
    }

    {
        let actual = Decimal::from_str("1.5e6").unwrap();
        let expected = Decimal::new(1_500_000_000_000, 6, false);
        assert_eq!(actual, expected);
    }

    {
        let actual = Decimal::from_str("-1.5e6").unwrap();
        let expected = Decimal::new(1_500_000_000_000, 6, true);
        assert_eq!(actual, expected);
    }

    {
        let actual = Decimal::from_str("1.5e9").unwrap();
        let expected = Decimal::new(1_500_000_000_000_000_000, 9, false);
        assert_eq!(actual, expected);
    }

    {
        let actual = Decimal::from_str("42").unwrap();
        let expected = Decimal::new(42, 0, false);
        assert_eq!(actual, expected);
    }

    {
        let actual = Decimal::from_str("-42").unwrap();
        let expected = Decimal::new(42, 0, true);
        assert_eq!(actual, expected);
    }

    {
        let actual = Decimal::from_str("1.5").unwrap();
        let expected = Decimal::new(15, 1, false);
        assert_eq!(actual, expected);
    }

    {
        let actual = Decimal::from_str("-1.5").unwrap();
        let expected = Decimal::new(15, 1, true);
        assert_eq!(actual, expected);
    }

    {
        let actual = Decimal::from_str("42.500000").unwrap();
        let expected = Decimal::new(42_500_000, 6, false);
        assert_eq!(actual, expected);
    }

    {
        let actual = Decimal::from_str("42.500420").unwrap();
        let expected = Decimal::new(42_500_420, 6, false);
        assert_eq!(actual, expected);
    }
}

#[test]
fn test_sign() {
    // is zero
    {
        let decimal = Decimal::new(0, 0, false);
        assert!(decimal.is_zero());
    }

    // is neither positive or negative i.e. zero
    {
        let decimal = Decimal::new(0, 0, false);
        assert!(!decimal.is_positive());

        let decimal = Decimal::new(0, 0, false);
        assert!(!decimal.is_negative());
    }

    // is positive
    {
        let decimal = Decimal::new(42, 4, false);
        assert!(decimal.is_positive());

        let decimal = Decimal::new(24, 4, false);
        assert!(decimal.is_positive());
    }

    // is negative
    {
        let decimal = Decimal::new(42, 4, true);
        assert!(decimal.is_negative());

        let decimal = Decimal::new(24, 4, true);
        assert!(decimal.is_negative());
    }
}

#[test]
fn test_is_integer() {
    // when scale is zero
    {
        let decimal = Decimal::new(0, 0, false);
        assert!(decimal.is_integer());

        let decimal = Decimal::new(42, 0, false);
        assert!(decimal.is_integer());

        let decimal = Decimal::new(42, 0, true);
        assert!(decimal.is_integer());
    }

    // when scale is not zero
    {
        let decimal = Decimal::new(42420, 3, false);
        assert!(!decimal.is_integer());

        let decimal = Decimal::new(42420, 3, true);
        assert!(!decimal.is_integer());
    }
}
