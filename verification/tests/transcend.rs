use fixed_decimal::decimal::big::{BigDecimal, BIG_COMPUTE_SCALE};
use fixed_decimal::decimal::ops::{Div, Ln, Log10, Log2, Pow, Sqrt, Sub};
use fixed_decimal::decimal::{Decimal, COMPUTE_SCALE};
use fixed_decimal::uint::U192;

#[test]
fn test_log_e() {
    //  with integer and fractional digits
    // ln(2.25) = 0.8109302162163287639560262309286982731439808469249883952280
    {
        let decimal = Decimal::new(2250000000000, 12, false);
        let actual = decimal.ln().unwrap();
        let expected = Decimal::new(810930216211, 12, false);
        assert_eq!(actual, expected);
    }

    //  with fractional digits only
    // ln(0.810930216211) = -0.209573275164505847614143429005277100396934915004957131195
    {
        let decimal = Decimal::new(810930216211u128, 12, false);
        let actual = decimal.ln().unwrap();
        let expected = Decimal::new(209573275158u128, 12, true);
        assert_eq!(actual, expected);
    }

    // with very small fractional digits only
    // ln(0.000000000001) = -27.63102111592854820821589745621237049121321786354527571239
    {
        let decimal = Decimal::new(1u128, 12, false);
        let actual = decimal.ln().unwrap();
        let expected = Decimal::new(27_631021115941u128, 12, true);
        assert_eq!(actual, expected);
    }

    // ln(.93859063) = -0.06337585862
    {
        let decimal = Decimal::new(93859063, 8, false);
        let actual = decimal.ln().unwrap();
        let expected = Decimal::new(6337585, 8, true);
        assert_eq!(actual, expected);
    }

    // ln(0.9) = -0.105360
    {
        let decimal = Decimal::new(900000u128, 6, false);
        let actual = decimal.ln().unwrap();
        let expected = Decimal::new(105360u128, 6, true);
        assert_eq!(actual, expected);
    }

    // ln(0.9) = -0.105360515652
    {
        let decimal = Decimal::new(900_000_000_000u128, 12, false);
        let actual = decimal.ln().unwrap();
        let expected = Decimal::new(105360515652u128, 12, true);
        assert_eq!(actual, expected);
    }

    // ln(0.1) = -2.302585092990
    {
        let decimal = Decimal::new(100000000000u128, 12, false);
        let actual = decimal.ln().unwrap();
        let expected = Decimal::new(2302585092990u128, 12, true);
        assert_eq!(actual, expected);
    }

    // ln(10) = 2.302585092990
    {
        let decimal = Decimal::new(10_000000000000, 12, false);
        let actual = decimal.ln().unwrap();
        let expected = Decimal::new(2302585092990u128, 12, false);
        assert_eq!(actual, expected);
    }
}

#[test]
fn ln_test_ln() {
    //  with integer and fractional digits
    // ln(2.25) = 0.8109302162163287639560262309286982731439808469249883952280
    {
        let decimal = Decimal::new(2250000000000u128, 12, false);
        let actual = decimal.ln().unwrap();
        let expected = Decimal::new(810930216211u128, 12, false);
        assert_eq!(actual, expected);
    }

    //  with fractional digits only
    // ln(0.810930216211) = -0.209573275164505847614143429005277100396934915004957131195
    {
        let decimal = Decimal::new(810930216211u128, 12, false);
        let actual = decimal.ln().unwrap();
        let expected = Decimal::new(209573275158u128, 12, true);
        assert_eq!(actual, expected);
    }

    // with very small fractional digits only
    // ln(0.000000000001) = -27.63102111592854820821589745621237049121321786354527571239
    {
        let decimal = Decimal::new(1u128, 12, false);
        let actual = decimal.ln().unwrap();
        let expected = Decimal::new(27_631021115941u128, 12, true);
        assert_eq!(actual, expected);
    }
}

#[test]
fn log_10_test_log10() {
    // log10(1) = 0
    {
        let actual = Decimal::new(1_00000000, 8, false).log10().unwrap();
        let expected = Decimal::new(0, 8, false);
        assert_eq!(actual, expected);
    }

    // log10(10) = 1
    {
        let actual = Decimal::new(10_00000000, 8, false).log10().unwrap();
        let expected = Decimal::new(1_00000000, 8, false);
        assert_eq!(actual, expected);
    }

    // log10(1000) = 3
    {
        let actual = Decimal::new(1000_00000000, 8, false).log10().unwrap();
        let expected = Decimal::new(3_00000000, 8, false);
        assert_eq!(actual, expected);
    }

    // log10(1.1) = 0.0413926851582250407501999712430242417067021904664530945965390186...
    {
        let actual = Decimal::new(1_100000000000, 12, false).log10().unwrap();
        let expected = Decimal::new(41392685156, 12, false);
        assert_eq!(actual, expected);
    }

    // log10(18446744.073709551615) = 7.26591972249479649366...
    {
        let actual = Decimal::new(u64::MAX as u128, 12, false).log10().unwrap();
        let expected = Decimal::new(7_265919722493, 12, false);
        assert_eq!(actual, expected);
    }
}

#[test]
fn log10_test_log10() {
    // log10(1.1) = 0.0413926851582250407501999712430242417067021904664530945965390186...
    {
        let decimal = Decimal::new(1_100000000000, 12, false); // 1.1
        let actual = decimal.log10().unwrap();
        let expected = Decimal::new(41392685156u128, 12, false);
        assert_eq!(actual, expected);
    }

    // log10(18446744.073709551615) = 7.26591972249479649366...
    {
        let decimal = Decimal::new(u64::MAX as u128, 12, false); // 18446744073709551615
        let actual = decimal.log10().unwrap();
        let expected = Decimal::new(7_265919722493u128, 12, false);
        assert_eq!(actual, expected);
    }
}

#[test]
fn log_2_test_log2() {
    // log2(2.25) = 1.1699250014423123629074778878956330175196288153849621209115
    {
        let decimal = Decimal::new(2250000000000, 12, false); // 2.25
        let actual = decimal.log2().unwrap();
        let expected = Decimal::new(1_169925001434, 12, false);
        assert_eq!(actual, expected);
    }

    // log2(18446744.073709551615) = 24.1368628613516518255
    {
        let decimal = Decimal::new(18446744073709551615, 12, false);
        let actual = decimal.log2().unwrap();
        let expected = Decimal::new(24_136862861344, 12, false);
        assert_eq!(actual, expected);
    }
}

#[test]
fn log2_test_log2() {
    // log2(18446744.073709551615) = 24.1368628613516518255
    {
        let decimal = Decimal::new(18446744073709551615u128, 12, false); // u64::MAX
        let actual = decimal.log2().unwrap();
        let expected = Decimal::new(24_136862861344u128, 12, false);
        assert_eq!(actual, expected);
    }
}

#[test]
fn test_sqrt() {
    // 0**0.5 = 0
    let n = Decimal::from_u64(0).to_compute_scale();
    let result = n.sqrt().unwrap();
    let expected = Decimal::from_u64(0).to_compute_scale();
    assert_eq!(result, expected);

    // 1**0.5 = 1
    let n = Decimal::from_u64(1).to_compute_scale();
    let result = n.sqrt().unwrap();
    let expected = Decimal::from_u64(1).to_compute_scale();
    assert_eq!(result, expected);

    // 2**0.5 = 1.414213562373
    let n = Decimal::from_u64(2).to_compute_scale();
    let result = n.sqrt().unwrap();
    let expected = Decimal::new(1_414_213_562_373u128, 12, false);
    assert_eq!(result, expected);

    // 3**0.5 = 1.7320508076
    let n = Decimal::from_u64(3).to_compute_scale();
    let result = n.sqrt().unwrap();
    let expected = Decimal::new(1_732_050_807_568u128, 12, false);
    assert_eq!(result, expected);

    // 4**0.5 = 2
    let n = Decimal::from_u64(4).to_compute_scale();
    let result = n.sqrt().unwrap();
    let expected = Decimal::from_u64(2).to_compute_scale();
    assert_eq!(result, expected);

    // MAX**0.5 = 4294967296
    let n = Decimal::from_u64(u64::MAX).to_scale(6);
    let result = n.sqrt().unwrap().to_scale_up(0).value;
    let expected = 4294967296u128;
    assert_eq!(result, expected);

    // 3.141592653589**0.5 = 1.7724538509
    let n = Decimal::new(3_141_592_653_589u128, 12, false);
    let result = n.sqrt().unwrap();
    let expected = Decimal::new(1_772_453_850_905u128, 12, false);
    assert_eq!(result, expected);

    // 3.141592**0.5 = 1.772453
    let n = Decimal::new(3_141_592u128, 6, false);
    let result = n.sqrt().unwrap();
    let expected = Decimal::new(1_772_453u128, 6, false);
    assert_eq!(result, expected);
}

#[test]
fn test_pow_with_integer_exp() {
    // 0**n = 0
    {
        let scale: u8 = 6;
        let base = Decimal::new(0, scale, false);
        let exp: u128 = 100;
        let result = base.pow(exp);
        let expected = Decimal::new(0, scale, false);
        assert_eq!(result, expected);
    }

    // n**0 = 1
    let scale: u8 = 6;
    let base = Decimal::from_u64(10).to_scale(scale);
    let exp: u128 = 0;
    let result = base.pow(exp);
    let expected = Decimal::from_u64(1).to_scale(scale);
    assert_eq!(result, expected);

    // 2**18 = 262,144
    {
        let scale: u8 = 6;
        let base = Decimal::from_u64(2).to_scale(scale);
        let exp: u128 = 18;
        let result = base.pow(exp);
        let expected = Decimal::from_u64(262_144).to_scale(scale);
        assert_eq!(result, expected);
    }

    // (-0.001459854015)**2 = 0.000002131174
    {
        let base = Decimal::from_str("-0.001459854015").unwrap();
        let exp: u128 = 2;
        let result = base.pow(exp);
        let expected = Decimal::from_str("0.000002131173").unwrap();
        assert_eq!(result, expected);
    }

    // (3420/3425-1)**2 = 0.000002131174
    {
        let mut base = Decimal::from_u64(3420)
            .to_compute_scale()
            .div(Decimal::from_u64(3425).to_compute_scale());
        base = base.sub(Decimal::one()).unwrap();
        let exp: u128 = 2;
        let result = base.pow(exp);
        let expected = Decimal::from_str("0.000002131173").unwrap();
        assert_eq!(result, expected);
    }

    // 3.41200000**8 = 18368.43602322
    {
        let base = Decimal::new(3_41200000, 8, false);
        let exp: u128 = 8;
        let result = base.pow(exp);
        let expected = Decimal::new(18368_43602280, 8, false);
        assert_eq!(result, expected);
    }
}

#[test]
fn test_pow_with_decimal_exp() {
    // 42^-0.25 = 0.3928146509
    {
        let base = Decimal::new(42_000000, 6, false);
        let exp = Decimal::new(250000, 6, true);
        let result = base.pow(exp);
        let expected = Decimal::new(392814, 6, false);
        assert_eq!(result, expected);
    }

    // 42^-1 = 0.02380952381
    {
        let base = Decimal::new(42_000000, 6, false);
        let exp = Decimal::new(1_000000, 6, true);
        let result = base.pow(exp);
        let expected = Decimal::new(23809, 6, false);
        assert_eq!(result, expected);
    }

    // 42^0 = 1
    {
        let base = Decimal::new(42_000000, 6, false);
        let exp = Decimal::new(0, 6, false);
        let result = base.pow(exp);
        let expected = Decimal::new(1_000000, 6, false);
        assert_eq!(result, expected);
    }

    // 42^0.25 = 2.545729895021831
    {
        let base = Decimal::new(42_000000000000, 12, false);
        let exp = Decimal::new(250000000000, 12, false);
        let result = base.pow(exp);
        let expected = Decimal::new(2_545_729_895_021u128, 12, false);
        assert_eq!(result, expected);
    }

    // 42^0.5 = 6.48074069840786
    {
        let base = Decimal::new(42_000000000000, 12, false);
        let exp = Decimal::new(500000000000, 12, false);
        let result = base.pow(exp);
        let expected = Decimal::new(6_480_740_698_407u128, 12, false);
        assert_eq!(result, expected);
    }

    // 42^1 = 42
    {
        let base = Decimal::new(42_000000000000, 12, false);
        let exp = Decimal::new(1000000000000, 12, false);
        let result = base.pow(exp);
        let expected = Decimal::new(42_000000000000u128, 12, false);
        assert_eq!(result, expected);
    }

    // 42^1.25 = 106.920655590916882
    {
        let base = Decimal::new(42_000000000000, 12, false);
        let exp = Decimal::new(1250000000000, 12, false);
        let result = base.pow(exp);
        let expected = Decimal::new(106_920_655_590_882u128, 12, false);
        assert_eq!(result, expected);
    }

    // 42^1.5 = 272.19110933313013
    {
        let base = Decimal::new(42_000000000000, 12, false);
        let exp = Decimal::new(1500000000000, 12, false);
        let result = base.pow(exp);
        let expected = Decimal::new(272_191_109_333_094, 12, false);
        assert_eq!(result, expected);
    }

    // 42^2 = 1764
    {
        let base = Decimal::new(42_000000000000, 12, false);
        let exp = Decimal::new(2000000000000, 12, false);
        let result = base.pow(exp);
        let expected = Decimal::new(1764_000000000000u128, 12, false);
        assert_eq!(result, expected);
    }
}

#[test]
fn test_pow_with_big_decimal_exp() {
    // 249383740734.349125162518^-1 = 0.000000004009884...
    {
        let base = BigDecimal::new(
            U192::from_u128(249383740734_349125162518u128),
            COMPUTE_SCALE,
            false,
        );
        let exp = BigDecimal::new(U192::from_u128(1_000000000000u128), COMPUTE_SCALE, true);
        let result = base.pow(exp);
        let expected = BigDecimal::new(U192::from_u128(4009884u128), BIG_COMPUTE_SCALE, false);
        assert_eq!(result, expected);
    }
}
