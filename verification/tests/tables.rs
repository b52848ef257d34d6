use fixed_decimal::decimal::Decimal;

#[test]
fn test_bit_length() {
    // 0 bit length == 0
    let d = Decimal::new(0, 12, false);
    let (bit_length, negative) = d.bit_length().unwrap();
    assert_eq!(bit_length, 0);
    assert_eq!(negative, false);

    // 10 bit length == 3
    let d = Decimal::from_u64(10).to_compute_scale();
    let (bit_length, negative) = d.bit_length().unwrap();
    assert_eq!(bit_length, 3);
    assert_eq!(negative, false);

    // 0.900000000000 bit length == -1
    let d = Decimal::new(900000000000, 12, false);
    let (bit_length, negative) = d.bit_length().unwrap();
    assert_eq!(bit_length, 1);
    assert_eq!(negative, true);

    // 0.01 bit length == -7
    let d = Decimal::new(1, 2, false).to_compute_scale();
    let (bit_length, negative) = d.bit_length().unwrap();
    assert_eq!(bit_length, 7);
    assert_eq!(negative, true);

    // 0.000001 bit length == -20
    let d = Decimal::new(1, 6, false).to_compute_scale();
    let (bit_length, negative) = d.bit_length().unwrap();
    assert_eq!(bit_length, 20);
    assert_eq!(negative, true);

    // 18446744073709551615 bit length == 64
    let d = Decimal::new(18446744073709551615, 12, false);
    let (bit_length, negative) = d.bit_length().unwrap();
    assert_eq!(bit_length, 24);
    assert_eq!(negative, false);
}

#[test]
fn test_ln_tables() {
    //  with integer and fractional digits
    // ln(2.25) = 0.8109302162163287639560262309286982731439808469249883952280
    {
        let decimal = Decimal::new(2250000000000u128, 12, false);
        let actual = decimal.ln_tables();
        let expected = Some((Decimal::new(810930216138u128, 12, false), false));
        assert_eq!(actual, expected);
    }

    //  with fractional digits only
    // ln(0.810930216138) = -0.209573275254525923995526530250450021440003921493434432564204599
    {
        let decimal = Decimal::new(810930216138u128, 12, false);
        let actual = decimal.ln_tables();
        let expected = Some((Decimal::new(209573275322u128, 12, false), true));
        assert_eq!(actual, expected);
    }

    // with very small fractional digits only, note this becomes lossy due to tables
    // ln(0.000000100000) = -16.11809565095831978812594018279054945320771042040141083223329530
    {
        let decimal = Decimal::new(100000u128, 12, false);
        let actual = decimal.ln_tables();
        let expected = Some((Decimal::new(16_118084833430u128, 12, false), true));
        assert_eq!(actual, expected);
    }
}

#[test]
fn msb_test_msb() {
    let decimal = Decimal::new(u64::MAX as u128, 12, false);

    let actual_shift = decimal.msb_shift();

    let actual = decimal.msb();
    let expected = 128u32 - 64u32 - 1u32;

    assert_eq!(actual, expected);
    assert_eq!(actual_shift, expected);
}

#[test]
fn square_test_square() {
    let decimal = Decimal::new(15, 1, false).to_compute_scale(); // 1.5

    let actual = decimal.square();
    let expected = Decimal::new(2250000000000, 12, false); // 2.25
    assert_eq!(actual, expected);
}

#[test]
fn test_big_square() {
    let decimal = Decimal::new(u64::MAX as u128, 12, false);
    let actual = decimal.square();
    let expected = Decimal::new(340282366920938463426481119, 12, false);
    assert_eq!(actual, expected);
}
