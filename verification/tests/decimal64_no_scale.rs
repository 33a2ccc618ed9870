use decimal_bytes::Decimal64NoScale;

#[test]
fn decimal64_no_scale_test_new_basic() {
    let d = Decimal64NoScale::new("123.45", 2).unwrap();
    assert_eq!(d.value(), 12345);
    assert_eq!(d.to_string_with_scale(2), "123.45");

    let d = Decimal64NoScale::new("100", 0).unwrap();
    assert_eq!(d.value(), 100);
    assert_eq!(d.to_string_with_scale(0), "100");

    let d = Decimal64NoScale::new("-50.5", 1).unwrap();
    assert_eq!(d.value(), -505);
    assert_eq!(d.to_string_with_scale(1), "-50.5");
}

#[test]
fn test_18_digit_precision() {
    // This should work with Decimal64NoScale but NOT with Decimal64
    let d = Decimal64NoScale::new("123456789012345678", 0).unwrap();
    assert_eq!(d.value(), 123456789012345678);
    assert_eq!(d.to_string_with_scale(0), "123456789012345678");

    // 18 digits with 2 decimal places
    let d = Decimal64NoScale::new("1234567890123456.78", 2).unwrap();
    assert_eq!(d.value(), 123456789012345678);
    assert_eq!(d.to_string_with_scale(2), "1234567890123456.78");
}

#[test]
fn test_aggregates_work() {
    // This is the key test: aggregates on raw i64 values should work
    let scale = 2;
    let a = Decimal64NoScale::new("100.50", scale).unwrap();
    let b = Decimal64NoScale::new("200.25", scale).unwrap();
    let c = Decimal64NoScale::new("300.75", scale).unwrap();

    // Sum the raw values
    let sum = a.value() + b.value() + c.value();
    assert_eq!(sum, 60150); // 601.50 * 100

    // Interpret with scale - preserves trailing zeros
    let result = Decimal64NoScale::from_raw(sum);
    assert_eq!(result.to_string_with_scale(scale), "601.50");

    // Min/Max - preserves trailing zeros
    let values = [a.value(), b.value(), c.value()];
    let min = *values.iter().min().unwrap();
    let max = *values.iter().max().unwrap();
    assert_eq!(
        Decimal64NoScale::from_raw(min).to_string_with_scale(scale),
        "100.50"
    );
    assert_eq!(
        Decimal64NoScale::from_raw(max).to_string_with_scale(scale),
        "300.75"
    );
}

#[test]
fn test_special_values() {
    let nan = Decimal64NoScale::nan();
    assert!(nan.is_nan());
    assert!(nan.is_special());
    assert_eq!(nan.to_string_with_scale(2), "NaN");

    let inf = Decimal64NoScale::infinity();
    assert!(inf.is_pos_infinity());
    assert_eq!(inf.to_string_with_scale(2), "Infinity");

    let neg_inf = Decimal64NoScale::neg_infinity();
    assert!(neg_inf.is_neg_infinity());
    assert_eq!(neg_inf.to_string_with_scale(2), "-Infinity");
}

#[test]
fn decimal64_no_scale_test_ordering() {
    let neg_inf = Decimal64NoScale::neg_infinity();
    let neg = Decimal64NoScale::from_raw(-1000);
    let zero = Decimal64NoScale::from_raw(0);
    let pos = Decimal64NoScale::from_raw(1000);
    let inf = Decimal64NoScale::infinity();
    let nan = Decimal64NoScale::nan();

    assert!(neg_inf < neg);
    assert!(neg < zero);
    assert!(zero < pos);
    assert!(pos < inf);
    assert!(inf < nan);
}

#[test]
fn test_from_str_special() {
    assert!(
        Decimal64NoScale::new("Infinity", 0)
            .unwrap()
            .is_pos_infinity()
    );
    assert!(
        Decimal64NoScale::new("-Infinity", 0)
            .unwrap()
            .is_neg_infinity()
    );
    assert!(Decimal64NoScale::new("NaN", 0).unwrap().is_nan());
}

#[test]
fn decimal64_no_scale_test_roundtrip() {
    let scale = 4;
    let values = ["0", "123.4567", "-99.9999", "1000000", "-1"];

    for s in values {
        let d = Decimal64NoScale::new(s, scale).unwrap();
        let raw = d.value();
        let restored = Decimal64NoScale::from_raw(raw);
        assert_eq!(d.value(), restored.value(), "Roundtrip failed for {}", s);
    }
}

#[test]
fn decimal64_no_scale_test_byte_roundtrip() {
    let d = Decimal64NoScale::new("123.45", 2).unwrap();
    let bytes = d.to_be_bytes();
    let restored = Decimal64NoScale::from_be_bytes(bytes);
    assert_eq!(d, restored);
}

#[test]
fn decimal64_no_scale_test_zero() {
    let d = Decimal64NoScale::new("0", 0).unwrap();
    assert!(d.is_zero());
    assert!(!d.is_negative());
    assert!(!d.is_positive());
    assert!(d.is_finite());
}

#[test]
fn decimal64_no_scale_test_negative_scale() {
    // Negative scale: rounds to left of decimal point, no decimal in output
    let d = Decimal64NoScale::new("12345", -2).unwrap();
    assert_eq!(d.to_string_with_scale(-2), "12300");

    // More negative scale cases - should NOT have decimal points
    let d = Decimal64NoScale::from_raw(123);
    assert_eq!(d.to_string_with_scale(-1), "1230"); // 123 * 10
    assert_eq!(d.to_string_with_scale(-2), "12300"); // 123 * 100

    // Zero scale - should NOT have decimal point
    let d = Decimal64NoScale::from_raw(12345);
    assert_eq!(d.to_string_with_scale(0), "12345");

    // Zero value with negative/zero scale - no decimal point
    let zero = Decimal64NoScale::from_raw(0);
    assert_eq!(zero.to_string_with_scale(0), "0");
    assert_eq!(zero.to_string_with_scale(-2), "0");
}

#[test]
fn test_max_precision() {
    // Max value that fits
    let max = Decimal64NoScale::max_value();
    assert!(max.is_finite());
    assert!(max.value() > 0);

    // Min value that fits
    let min = Decimal64NoScale::min_value();
    assert!(min.is_finite());
    assert!(min.value() < 0);
}

#[test]
fn test_from_i64() {
    // Basic scaling - preserves trailing zeros
    let d = Decimal64NoScale::from_i64(123, 2).unwrap();
    assert_eq!(d.value(), 12300);
    assert_eq!(d.to_string_with_scale(2), "123.00");

    // Zero scale
    let d = Decimal64NoScale::from_i64(123, 0).unwrap();
    assert_eq!(d.value(), 123);

    // Negative value
    let d = Decimal64NoScale::from_i64(-50, 2).unwrap();
    assert_eq!(d.value(), -5000);

    // Negative scale (divides)
    let d = Decimal64NoScale::from_i64(12345, -2).unwrap();
    assert_eq!(d.value(), 123);
}

#[test]
fn test_from_u64() {
    let d = Decimal64NoScale::from_u64(123, 2).unwrap();
    assert_eq!(d.value(), 12300);

    // Value too large
    assert!(Decimal64NoScale::from_u64(u64::MAX, 0).is_err());
}
