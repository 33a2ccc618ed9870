use std::cmp::Ordering;
use std::collections::HashSet;

use decimal_bytes::decimal64::MIN_VALUE;
use decimal_bytes::Decimal64;

#[test]
fn decimal64_test_new_basic() {
    let d = Decimal64::new("123.45", 2).unwrap();
    assert_eq!(d.to_string(), "123.45");
    assert_eq!(d.scale(), 2);
    assert_eq!(d.value(), 12345);

    let d = Decimal64::new("100", 0).unwrap();
    assert_eq!(d.to_string(), "100");
    assert_eq!(d.scale(), 0);

    let d = Decimal64::new("-50.5", 1).unwrap();
    assert_eq!(d.to_string(), "-50.5");
    assert_eq!(d.scale(), 1);
    assert_eq!(d.value(), -505);
}

#[test]
fn decimal64_test_zero() {
    let d = Decimal64::new("0", 0).unwrap();
    assert!(d.is_zero());
    assert!(!d.is_negative());
    assert!(!d.is_positive());
    assert!(d.is_finite());

    let d = Decimal64::new("0.00", 2).unwrap();
    assert!(d.is_zero());
    assert_eq!(d.scale(), 2);
}

#[test]
fn decimal64_test_from_str() {
    let d: Decimal64 = "123.456".parse().unwrap();
    assert_eq!(d.to_string(), "123.456");
    assert_eq!(d.scale(), 3);

    let d: Decimal64 = "100".parse().unwrap();
    assert_eq!(d.to_string(), "100");
    assert_eq!(d.scale(), 0);
}

#[test]
fn test_infinity() {
    let inf = Decimal64::infinity();
    assert!(inf.is_pos_infinity());
    assert!(inf.is_infinity());
    assert!(inf.is_special());
    assert!(!inf.is_finite());
    assert_eq!(inf.to_string(), "Infinity");

    let neg_inf = Decimal64::neg_infinity();
    assert!(neg_inf.is_neg_infinity());
    assert!(neg_inf.is_infinity());
    assert_eq!(neg_inf.to_string(), "-Infinity");
}

#[test]
fn test_nan() {
    let nan = Decimal64::nan();
    assert!(nan.is_nan());
    assert!(nan.is_special());
    assert!(!nan.is_finite());
    assert_eq!(nan.to_string(), "NaN");

    // PostgreSQL semantics: NaN == NaN
    assert_eq!(nan, Decimal64::nan());
}

#[test]
fn test_special_from_str() {
    assert!(Decimal64::from_str("Infinity").unwrap().is_pos_infinity());
    assert!(Decimal64::from_str("-Infinity").unwrap().is_neg_infinity());
    assert!(Decimal64::from_str("NaN").unwrap().is_nan());
    assert!(Decimal64::from_str("inf").unwrap().is_pos_infinity());
    assert!(Decimal64::from_str("-inf").unwrap().is_neg_infinity());
}

#[test]
fn test_ordering_same_scale() {
    let a = Decimal64::new("100", 0).unwrap();
    let b = Decimal64::new("200", 0).unwrap();
    let c = Decimal64::new("-50", 0).unwrap();

    assert!(c < a);
    assert!(a < b);
}

#[test]
fn test_ordering_different_scale() {
    let a = Decimal64::new("1.5", 1).unwrap(); // 15 at scale 1
    let b = Decimal64::new("1.50", 2).unwrap(); // 150 at scale 2

    // 1.5 == 1.50 when normalized
    assert_eq!(a.cmp(&b), Ordering::Equal);

    let c = Decimal64::new("1.51", 2).unwrap();
    assert!(a < c);
}

#[test]
fn test_ordering_with_special() {
    let neg_inf = Decimal64::neg_infinity();
    let neg = Decimal64::new("-1000", 0).unwrap();
    let zero = Decimal64::new("0", 0).unwrap();
    let pos = Decimal64::new("1000", 0).unwrap();
    let inf = Decimal64::infinity();
    let nan = Decimal64::nan();

    assert!(neg_inf < neg);
    assert!(neg < zero);
    assert!(zero < pos);
    assert!(pos < inf);
    assert!(inf < nan);
}

#[test]
fn decimal64_test_precision_scale() {
    let d = Decimal64::with_precision_scale("123.456", Some(5), Some(2)).unwrap();
    assert_eq!(d.to_string(), "123.46");

    let d = Decimal64::with_precision_scale("12345.67", Some(5), Some(2)).unwrap();
    assert_eq!(d.to_string(), "345.67");
}

#[test]
fn decimal64_test_negative_scale() {
    let d = Decimal64::with_precision_scale("12345", None, Some(-2)).unwrap();
    assert_eq!(d.to_string(), "12300");

    let d = Decimal64::with_precision_scale("12350", None, Some(-2)).unwrap();
    assert_eq!(d.to_string(), "12400");
}

#[test]
fn decimal64_test_roundtrip() {
    let values = ["0", "123.45", "-99.99", "1000000", "-1"];

    for s in values {
        let d: Decimal64 = s.parse().unwrap();
        let packed = d.raw();
        let restored = Decimal64::from_raw(packed);
        assert_eq!(
            d.to_string(),
            restored.to_string(),
            "Roundtrip failed for {}",
            s
        );
    }
}

#[test]
fn decimal64_test_byte_roundtrip() {
    let d = Decimal64::new("123.45", 2).unwrap();
    let bytes = d.to_be_bytes();
    let restored = Decimal64::from_be_bytes(bytes);
    assert_eq!(d, restored);
}

#[test]
fn test_decimal_conversion() {
    let d64 = Decimal64::new("123.456", 3).unwrap();
    let decimal = d64.to_decimal();
    assert_eq!(decimal.to_string(), "123.456");

    let d64_back = Decimal64::from_decimal(&decimal, 3).unwrap();
    assert_eq!(d64.to_string(), d64_back.to_string());
}

#[test]
fn test_from_parts() {
    let d = Decimal64::from_parts(12345, 2).unwrap();
    assert_eq!(d.to_string(), "123.45");
    assert_eq!(d.value(), 12345);
    assert_eq!(d.scale(), 2);
}

#[test]
fn test_precision_too_large() {
    assert!(Decimal64::with_precision_scale("1", Some(17), Some(0)).is_err());
}

#[test]
fn test_scale_too_large() {
    assert!(Decimal64::new("1", 19).is_err());
}

#[test]
fn test_value_too_large() {
    // Value that exceeds 56 bits
    assert!(Decimal64::from_parts(i64::MAX, 0).is_err());
    assert!(Decimal64::from_parts(MIN_VALUE - 1, 0).is_err());
}

#[test]
fn test_min_max_values() {
    let min = Decimal64::min_value();
    let max = Decimal64::max_value();

    assert!(min.is_finite());
    assert!(max.is_finite());
    assert!(min < max);
    assert!(Decimal64::neg_infinity() < min);
    assert!(max < Decimal64::infinity());
}

#[test]
fn decimal64_test_hash() {
    let mut set = HashSet::new();
    set.insert(Decimal64::new("100", 0).unwrap());
    set.insert(Decimal64::new("100", 0).unwrap()); // Duplicate
    set.insert(Decimal64::new("200", 0).unwrap());
    set.insert(Decimal64::nan());

    assert_eq!(set.len(), 3);
}

#[test]
fn test_raw_comparison_same_scale() {
    // Same-scale values should compare correctly using raw i64
    let neg = Decimal64::new("-100", 0).unwrap();
    let zero = Decimal64::new("0", 0).unwrap();
    let pos = Decimal64::new("100", 0).unwrap();

    // Raw i64 comparison should work for same scale
    assert!(
        neg.raw() < zero.raw(),
        "raw: -100 ({}) should be < 0 ({})",
        neg.raw(),
        zero.raw()
    );
    assert!(
        zero.raw() < pos.raw(),
        "raw: 0 ({}) should be < 100 ({})",
        zero.raw(),
        pos.raw()
    );
}

#[test]
fn test_raw_comparison_special_values() {
    // Special values should compare correctly using raw i64
    let neg_inf = Decimal64::neg_infinity();
    let min_normal = Decimal64::min_value();
    let max_normal = Decimal64::max_value();
    let pos_inf = Decimal64::infinity();
    let nan = Decimal64::nan();

    // Raw i64 comparison should place special values correctly
    assert!(
        neg_inf.raw() < min_normal.raw(),
        "-Infinity should be < min_normal"
    );
    assert!(
        max_normal.raw() < pos_inf.raw(),
        "max_normal should be < +Infinity"
    );
    assert!(pos_inf.raw() < nan.raw(), "+Infinity should be < NaN");
}

#[test]
fn test_raw_comparison_cross_scale_limitation() {
    // Cross-scale raw comparison does NOT work correctly
    // This test documents the limitation
    let ten_scale0 = Decimal64::new("10", 0).unwrap(); // 10
    let ten_scale2 = Decimal64::new("10.00", 2).unwrap(); // 10.00 (stored as 1000 at scale 2)

    // These are equal as decimal values
    assert_eq!(
        ten_scale0.cmp(&ten_scale2),
        Ordering::Equal,
        "Ord trait should compare equal"
    );

    // But raw comparison gives wrong result (scale 2 > scale 0 due to high byte)
    // This is expected behavior - cross-scale requires Ord trait
    assert_ne!(
        ten_scale0.raw(),
        ten_scale2.raw(),
        "Raw values differ due to different scales"
    );
}
