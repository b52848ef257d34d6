use fixed_decimal::decimal::cmp::Compare;
use fixed_decimal::decimal::Decimal;

#[test]
fn test_lte() {
    {
        let decimal = Decimal::new(1001, 4, false);
        let other = Decimal::new(33, 2, false);
        let result = decimal.lte(other);

        assert!(result.is_err());
    }

    {
        let decimal = Decimal::new(1001, 4, false);
        let other = Decimal::new(33, 4, false);
        let actual = decimal.lte(other).unwrap();
        let expected = false;

        assert_eq!(actual, expected);
    }

    {
        let decimal = Decimal::new(33, 4, false);
        let other = Decimal::new(33, 4, false);
        let actual = decimal.lte(other).unwrap();
        let expected = true;

        assert_eq!(actual, expected);
    }

    {
        let decimal = Decimal::new(10, 4, false);
        let other = Decimal::new(33, 4, false);
        let actual = decimal.lte(other).unwrap();
        let expected = true;

        assert_eq!(actual, expected);
    }

    {
        let decimal = Decimal::new(42, 0, true);
        let other = Decimal::new(42, 0, true);
        let actual = decimal.lte(other).unwrap();
        let expected = true;

        assert_eq!(actual, expected);
    }

    {
        let decimal = Decimal::new(42, 0, false);
        let other = Decimal::new(42, 0, true);
        let actual = decimal.lte(other).unwrap();
        let expected = false;

        assert_eq!(actual, expected);
    }

    {
        let decimal = Decimal::new(42, 0, true);
        let other = Decimal::new(42, 0, false);
        let actual = decimal.lte(other).unwrap();
        let expected = true;

        assert_eq!(actual, expected);
    }
}

#[test]
fn test_lt() {
    {
        let decimal = Decimal::new(1001, 4, false);
        let other = Decimal::new(33, 2, false);
        let result = decimal.lt(other);

        assert!(result.is_err());
    }

    {
        let decimal = Decimal::new(1001, 4, false);
        let other = Decimal::new(33, 4, false);
        let actual = decimal.lt(other).unwrap();
        let expected = false;

        assert_eq!(actual, expected);
    }

    {
        let decimal = Decimal::new(33, 4, false);
        let other = Decimal::new(33, 4, false);
        let actual = decimal.lt(other).unwrap();
        let expected = false;

        assert_eq!(actual, expected);
    }

    {
        let decimal = Decimal::new(10, 4, false);
        let other = Decimal::new(33, 4, false);
        let actual = decimal.lt(other).unwrap();
        let expected = true;

        assert_eq!(actual, expected);
    }

    {
        let decimal = Decimal::new(43, 0, true);
        let other = Decimal::new(42, 0, true);
        let actual = decimal.lt(other).unwrap();
        let expected = true;

        assert_eq!(actual, expected);
    }

    {
        let decimal = Decimal::new(43, 0, false);
        let other = Decimal::new(42, 0, true);
        let actual = decimal.lt(other).unwrap();
        let expected = false;

        assert_eq!(actual, expected);
    }

    {
        let decimal = Decimal::new(43, 0, true);
        let other = Decimal::new(42, 0, false);
        let actual = decimal.lt(other).unwrap();
        let expected = true;

        assert_eq!(actual, expected);
    }
}

#[test]
fn test_gt() {
    {
        let decimal = Decimal::new(1001, 4, false);
        let other = Decimal::new(33, 2, false);
        let result = decimal.gt(other);

        assert!(result.is_err());
    }

    {
        let decimal = Decimal::new(1001, 4, false);
        let other = Decimal::new(33, 4, false);
        let actual = decimal.gt(other).unwrap();
        let expected = true;

        assert_eq!(actual, expected);
    }

    {
        let decimal = Decimal::new(33, 4, false);
        let other = Decimal::new(33, 4, false);
        let actual = decimal.gt(other).unwrap();
        let expected = false;

        assert_eq!(actual, expected);
    }

    {
        let decimal = Decimal::new(10, 4, false);
        let other = Decimal::new(33, 4, false);
        let actual = decimal.gt(other).unwrap();
        let expected = false;

        assert_eq!(actual, expected);
    }

    {
        let decimal = Decimal::new(43, 0, true);
        let other = Decimal::new(42, 0, true);
        let actual = decimal.gt(other).unwrap();
        let expected = false;

        assert_eq!(actual, expected);
    }

    {
        let decimal = Decimal::new(43, 0, false);
        let other = Decimal::new(42, 0, true);
        let actual = decimal.gt(other).unwrap();
        let expected = true;

        assert_eq!(actual, expected);
    }

    {
        let decimal = Decimal::new(43, 0, true);
        let other = Decimal::new(42, 0, false);
        let actual = decimal.gt(other).unwrap();
        let expected = false;

        assert_eq!(actual, expected);
    }
}

#[test]
fn test_gte() {
    {
        let decimal = Decimal::new(1001, 4, false);
        let other = Decimal::new(33, 2, false);
        let result = decimal.gte(other);

        assert!(result.is_err());
    }

    {
        let decimal = Decimal::new(1001, 4, false);
        let other = Decimal::new(33, 4, false);
        let actual = decimal.gte(other).unwrap();
        let expected = true;

        assert_eq!(actual, expected);
    }

    {
        let decimal = Decimal::new(33, 4, false);
        let other = Decimal::new(33, 4, false);
        let actual = decimal.gte(other).unwrap();
        let expected = true;

        assert_eq!(actual, expected);
    }

    {
        let decimal = Decimal::new(10, 4, false);
        let other = Decimal::new(33, 4, false);
        let actual = decimal.gte(other).unwrap();
        let expected = false;

        assert_eq!(actual, expected);
    }

    {
        let decimal = Decimal::new(42, 0, true);
        let other = Decimal::new(42, 0, true);
        let actual = decimal.gte(other).unwrap();
        let expected = true;

        assert_eq!(actual, expected);
    }

    {
        let decimal = Decimal::new(42, 0, false);
        let other = Decimal::new(42, 0, true);
        let actual = decimal.gte(other).unwrap();
        let expected = true;

        assert_eq!(actual, expected);
    }

    {
        let decimal = Decimal::new(42, 0, true);
        let other = Decimal::new(42, 0, false);
        let actual = decimal.gte(other).unwrap();
        let expected = false;

        assert_eq!(actual, expected);
    }
}

#[test]
fn test_eq() {
    {
        let decimal = Decimal::new(1001, 4, false);
        let other = Decimal::new(33, 2, false);
        let result = decimal.eq(other);

        assert!(result.is_err());
    }

    {
        let decimal = Decimal::new(1001, 4, false);
        let other = Decimal::new(33, 4, false);
        let actual = decimal.eq(other).unwrap();
        let expected = false;

        assert_eq!(actual, expected);
    }

    {
        let decimal = Decimal::new(33, 4, false);
        let other = Decimal::new(33, 4, false);
        let actual = decimal.eq(other).unwrap();
        let expected = true;

        assert_eq!(actual, expected);
    }

    {
        let decimal = Decimal::new(10, 4, false);
        let other = Decimal::new(33, 4, false);
        let actual = decimal.eq(other).unwrap();
        let expected = false;

        assert_eq!(actual, expected);
    }

    {
        let decimal = Decimal::new(33, 4, false);
        let other = Decimal::new(33, 4, true);
        let actual = decimal.eq(other).unwrap();
        let expected = false;

        assert_eq!(actual, expected);
    }
}

#[test]
fn test_min_max() {
    {
        let decimal = Decimal::new(10, 2, false);
        let other = Decimal::new(11, 2, false);
        let result = decimal.min(other);

        assert_eq!(decimal, result);
    }

    {
        let decimal = Decimal::new(10, 2, false);
        let other = Decimal::new(11, 2, false);
        let result = decimal.max(other);

        assert_eq!(other, result);
    }

    {
        let decimal = Decimal::new(10, 2, false);
        let other = Decimal::new(11, 2, true);
        let result = decimal.min(other);

        assert_eq!(other, result);
    }

    {
        let decimal = Decimal::new(10, 2, false);
        let other = Decimal::new(11, 2, true);
        let result = decimal.max(other);

        assert_eq!(decimal, result);
    }
}
