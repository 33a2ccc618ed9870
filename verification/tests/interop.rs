use std::str::FromStr;

use bigdecimal::num_bigint::{BigInt, Sign};
use bigdecimal::BigDecimal;
use decimal_bytes::interop::{
    from_big_decimal, from_rust_decimal, short_string, to_big_decimal, to_rust_decimal,
    BigDecimalParts, ConversionError, RustDecimalParts,
};
use decimal_bytes::{Decimal, DecimalError};
use rust_decimal::Decimal as RustDecimal;

fn rust_parts(value: RustDecimal) -> RustDecimalParts {
    RustDecimalParts {
        mantissa: value.mantissa(),
        scale: value.scale(),
    }
}

fn rust_value(parts: RustDecimalParts) -> RustDecimal {
    RustDecimal::from_i128_with_scale(parts.mantissa, parts.scale)
}

fn big_parts(value: &BigDecimal) -> BigDecimalParts {
    let (integer, scale) = value.as_bigint_and_exponent();
    let (sign, digits) = integer.to_radix_be(10);
    BigDecimalParts {
        negative: sign == Sign::Minus,
        digits,
        scale,
    }
}

fn big_value(parts: &BigDecimalParts) -> BigDecimal {
    let sign = if parts.negative {
        Sign::Minus
    } else {
        Sign::Plus
    };
    let integer = BigInt::from_radix_be(sign, &parts.digits, 10).unwrap();
    BigDecimal::new(integer, parts.scale)
}

#[test]
fn test_from_rust_decimal() {
    let rd = RustDecimal::new(12345, 2); // 123.45
    let d = from_rust_decimal(rust_parts(rd)).unwrap();
    assert_eq!(d.to_string(), "123.45");
}

#[test]
fn test_to_rust_decimal() {
    let d = Decimal::from_str("123.45").unwrap();
    let rd = rust_value(to_rust_decimal(&d).unwrap());
    assert_eq!(rd.to_string(), "123.45");
}

#[test]
fn test_rust_decimal_roundtrip() {
    let values = vec!["0", "1", "-1", "123.456", "-999.999", "0.001"];

    for s in values {
        let d = Decimal::from_str(s).unwrap();
        let rd = rust_value(to_rust_decimal(&d).unwrap());
        let d2 = from_rust_decimal(rust_parts(rd)).unwrap();
        assert_eq!(d, d2, "Roundtrip failed for {}", s);
    }
}

#[test]
fn test_rust_decimal_arithmetic() {
    let a = Decimal::from_str("100.50").unwrap();
    let b = Decimal::from_str("25.25").unwrap();

    // Convert to rust_decimal for arithmetic
    let ra = rust_value(to_rust_decimal(&a).unwrap());
    let rb = rust_value(to_rust_decimal(&b).unwrap());
    let sum = ra + rb;

    // Convert back for storage
    let result = from_rust_decimal(rust_parts(sum)).unwrap();
    assert_eq!(result.to_string(), "125.75");
}

#[test]
fn test_rust_decimal_from_owned() {
    let d = Decimal::from_str("456.789").unwrap();
    let rd = rust_value(to_rust_decimal(&d).unwrap());
    assert_eq!(rd.to_string(), "456.789");
}

#[test]
fn test_rust_decimal_special_values_fail() {
    // Infinity cannot convert to rust_decimal
    let inf = Decimal::infinity();
    assert_eq!(to_rust_decimal(&inf), Err(ConversionError::NotRustDecimal));
    assert!(to_rust_decimal(&Decimal::neg_infinity()).is_err());

    // NaN cannot convert to rust_decimal
    let nan = Decimal::nan();
    assert!(to_rust_decimal(&nan).is_err());
}

#[test]
fn test_from_bigdecimal() {
    let bd = BigDecimal::from_str("123.45").unwrap();
    let d = from_big_decimal(&big_parts(&bd)).unwrap();
    assert_eq!(d.to_string(), "123.45");
}

#[test]
fn test_to_bigdecimal() {
    let d = Decimal::from_str("123.45").unwrap();
    let bd = big_value(&to_big_decimal(&d).unwrap());
    assert_eq!(bd.to_string(), "123.45");
}

#[test]
fn test_bigdecimal_roundtrip() {
    let values = vec!["0", "1", "-1", "123.456", "-999.999", "0.001"];

    for s in values {
        let d = Decimal::from_str(s).unwrap();
        let bd = big_value(&to_big_decimal(&d).unwrap());
        let d2 = from_big_decimal(&big_parts(&bd)).unwrap();
        assert_eq!(d, d2, "Roundtrip failed for {}", s);
    }
}

#[test]
fn test_bigdecimal_from_owned() {
    let d = Decimal::from_str("456.789").unwrap();
    let bd = big_value(&to_big_decimal(&d).unwrap());
    assert_eq!(bd.to_string(), "456.789");
}

#[test]
fn test_bigdecimal_from_ref() {
    let bd = BigDecimal::from_str("789.012").unwrap();
    let d = from_big_decimal(&big_parts(&bd)).unwrap();
    assert_eq!(d.to_string(), "789.012");
}

#[test]
fn test_bigdecimal_special_values_fail() {
    // Infinity cannot convert to BigDecimal
    let inf = Decimal::infinity();
    assert_eq!(to_big_decimal(&inf), Err(ConversionError::NotBigDecimal));
    assert!(to_big_decimal(&Decimal::neg_infinity()).is_err());

    // NaN cannot convert to BigDecimal
    let nan = Decimal::nan();
    assert!(to_big_decimal(&nan).is_err());
}

// ==================== Texts that the outside crates write and read ====================

#[test]
fn rust_decimal_text_has_the_digits_of_its_scale() {
    let cases = [
        (0i128, 0u32, "0"),
        (0, 2, "0"),
        (5, 3, "0.005"),
        (-5, 3, "-0.005"),
        (-12300, 2, "-123"),
        (100, 0, "100"),
        (79_228_162_514_264_337_593_543_950_335, 28, "7.9228162514264337593543950335"),
        (-79_228_162_514_264_337_593_543_950_335, 0, "-79228162514264337593543950335"),
    ];
    for (mantissa, scale, expected) in cases {
        let d = from_rust_decimal(RustDecimalParts { mantissa, scale }).unwrap();
        assert_eq!(d.to_string(), expected);
        assert_eq!(d, Decimal::from_str(expected).unwrap());
    }
}

#[test]
fn rust_decimal_reads_digits_that_fit() {
    let cases = [
        ("0", 0i128, 0u32),
        ("0.001", 1, 3),
        ("-0.10", -1, 1),
        ("12000", 12000, 0),
        ("79228162514264337593543950335", 79_228_162_514_264_337_593_543_950_335, 0),
        ("-7.9228162514264337593543950335", -79_228_162_514_264_337_593_543_950_335, 28),
        ("0.0000000000000000000000000001", 1, 28),
        ("123456789012345678.123456789", 123_456_789_012_345_678_123_456_789, 9),
    ];
    for (text, mantissa, scale) in cases {
        let d = Decimal::from_str(text).unwrap();
        assert_eq!(
            to_rust_decimal(&d),
            Ok(RustDecimalParts { mantissa, scale }),
            "{}",
            text
        );
    }
}

#[test]
fn rust_decimal_rounds_or_refuses_what_does_not_fit() {
    let long = Decimal::from_str("0.00000000000000000000000000016").unwrap();
    let parts = to_rust_decimal(&long).unwrap();
    assert_eq!((parts.mantissa, parts.scale), (2, 28));

    let large = Decimal::from_str("79228162514264337593543950336").unwrap();
    assert_eq!(to_rust_decimal(&large), Err(ConversionError::NotRustDecimal));
}

#[test]
fn big_decimal_text_is_a_literal_in_every_notation() {
    let cases = [
        (false, vec![0], 5i64, "0"),
        (true, vec![0], -5, "0"),
        (false, vec![], 3, "0"),
        (false, vec![0, 0, 7], 0, "7"),
        (true, vec![1, 2, 3], 2, "-1.23"),
        (false, vec![1, 2, 3], 3, "0.123"),
        (false, vec![1, 2, 3], 10, "0.0000000123"),
        (true, vec![5], 40, "-0.0000000000000000000000000000000000000005"),
        (false, vec![1, 2], -3, "12000"),
        (true, vec![1, 2], -18, "-12000000000000000000"),
        (false, vec![1], -30, "1000000000000000000000000000000"),
    ];
    for (negative, digits, scale, expected) in cases {
        let parts = BigDecimalParts {
            negative,
            digits,
            scale,
        };
        let d = from_big_decimal(&parts).unwrap();
        assert_eq!(d.to_string(), expected, "{:?}", parts);
    }
}

#[test]
fn big_decimal_exponents_out_of_range_are_refused() {
    for scale in [i64::MIN, -131_072, 16_385, 1i64 << 40, i64::MAX] {
        let parts = BigDecimalParts {
            negative: false,
            digits: vec![1],
            scale,
        };
        assert_eq!(
            from_big_decimal(&parts).unwrap_err(),
            DecimalError::PrecisionOverflow,
            "{}",
            scale
        );
    }
    for scale in [-131_071, 16_384] {
        let parts = BigDecimalParts {
            negative: true,
            digits: vec![1],
            scale,
        };
        assert!(from_big_decimal(&parts).is_ok(), "{}", scale);
    }
}

#[test]
fn big_decimal_reads_every_digit() {
    let cases = [
        ("0", false, vec![0], 0i64),
        ("-0.0025", true, vec![2, 5], 4),
        ("120", false, vec![1, 2, 0], 0),
        ("-31.4", true, vec![3, 1, 4], 1),
    ];
    for (text, negative, digits, scale) in cases {
        let d = Decimal::from_str(text).unwrap();
        let parts = to_big_decimal(&d).unwrap();
        assert_eq!(
            parts,
            BigDecimalParts {
                negative,
                digits,
                scale
            },
            "{}",
            text
        );
    }
}

#[test]
fn rust_decimal_values_keep_their_number_there_and_back() {
    for value in [
        RustDecimal::MAX,
        RustDecimal::MIN,
        RustDecimal::from_i128_with_scale(79_228_162_514_264_337_593_543_950_335, 28),
        RustDecimal::new(1000, 3),
        RustDecimal::new(0, 5),
        RustDecimal::new(-1, 28),
    ] {
        let stored = from_rust_decimal(rust_parts(value)).unwrap();
        let restored = rust_value(to_rust_decimal(&stored).unwrap());
        assert_eq!(restored, value);
    }
}

#[test]
fn zeros_at_the_front_are_left_out() {
    // The digits 0, 0, 1, 2 before the point, and one zero more.
    let d = Decimal::from_bytes(&[0xFF, 0x40, 0x05, 0x00, 0x12]).unwrap();
    assert_eq!(d.to_string(), "00120");
    assert_eq!(short_string(&d), "120");
    let x = to_rust_decimal(&d).unwrap();
    assert_eq!((x.mantissa, x.scale), (120, 0));
    // As many of them as the greatest exponent allows.
    let mut bytes = vec![0xFF, 0xFF, 0xFD, 0, 2, 0, 0];
    bytes.extend(vec![0; 65_535]);
    bytes.push(0x07);
    let d = Decimal::from_bytes(&bytes).unwrap();
    assert_eq!(d.to_string().len(), 131_072);
    assert_eq!(short_string(&d), "7");
    let x = to_rust_decimal(&d).unwrap();
    assert_eq!((x.mantissa, x.scale), (7, 0));
    for s in ["0", "-0.5", "-10.25", "NaN", "-Infinity"] {
        let d = Decimal::from_str(s).unwrap();
        assert_eq!(short_string(&d), s);
    }
}
