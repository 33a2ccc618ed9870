//! Properties on concrete values, the edges of the ranges, and the errors.

use std::cmp::Ordering;

use decimal_bytes::decimal64;
use decimal_bytes::decimal64_no_scale;
use decimal_bytes::encoding::{canonicalize, decode_exponent, decode_mantissa, to_legacy_encoding};
use decimal_bytes::notation::decode_to_string_with_scale;
use decimal_bytes::numeral::int_string;
use decimal_bytes::parse::parse_decimal;
use decimal_bytes::rounding::{
    add_one_to_integer, round_up, truncate_decimal, try_truncate_decimal,
};
use decimal_bytes::special::{encode_special_value, parse_special_value};
use decimal_bytes::{
    decode_parts_into, Decimal, Decimal64, Decimal64NoScale, DecimalError, SpecialValue,
};

fn dec(s: &str) -> Decimal {
    Decimal::from_str(s).unwrap()
}

fn message(e: DecimalError) -> String {
    e.to_string()
}

// ==================== Decimal ====================

#[test]
fn byte_order_is_numeric_order_for_neighbours_and_prefixes() {
    let sorted = [
        "-Infinity",
        "-9.99e131071",
        "-1e49148",
        "-1e49147",
        "-1234567",
        "-123456",
        "-12.345",
        "-12.34",
        "-12.301",
        "-12.3",
        "-12.2999",
        "-12",
        "-1.01",
        "-1",
        "-0.99",
        "-1e-16383",
        "0",
        "1e-16383",
        "0.99",
        "1",
        "1.001",
        "1.01",
        "12",
        "12.2999",
        "12.3",
        "12.301",
        "12.34",
        "12.345",
        "123456",
        "1234567",
        "1e49147",
        "1e49148",
        "9.99e131071",
        "Infinity",
        "NaN",
    ];
    for i in 0..sorted.len() {
        for j in 0..sorted.len() {
            let a = dec(sorted[i]);
            let b = dec(sorted[j]);
            assert_eq!(a.cmp(&b), i.cmp(&j), "{} and {}", sorted[i], sorted[j]);
            assert_eq!(a.as_bytes().cmp(b.as_bytes()), i.cmp(&j));
            assert_eq!(a.partial_cmp(&b), Some(i.cmp(&j)));
            assert_eq!(a == b, i == j);
        }
    }
}

#[test]
fn equal_numbers_have_equal_bytes() {
    for (a, b) in [
        ("1.50", "1.5"),
        ("0.0e5", "-0"),
        ("1e3", "1000"),
        ("+0012.300", "12.3"),
        ("12e-1", "1.2"),
        (" 7 ", "7"),
        ("-nan", "NaN"),
    ] {
        assert_eq!(dec(a), dec(b), "{} and {}", a, b);
        assert_eq!(dec(a).as_bytes(), dec(b).as_bytes());
    }
}

#[test]
fn legacy_layout_is_written_and_read() {
    let d = dec("-1");
    assert_eq!(d.to_legacy_bytes(), vec![0x00, 0xBF, 0xFE, 0xEF]);
    assert_eq!(Decimal::from_bytes(&d.to_legacy_bytes()).unwrap(), d);
    for s in [
        "-1", "-12", "-123", "-0.001", "-1e100", "-1e60000", "5", "0", "Infinity", "-Infinity",
        "NaN", "-10",
    ] {
        let d = dec(s);
        let legacy = d.to_legacy_bytes();
        assert_eq!(Decimal::from_bytes(&legacy).unwrap(), d, "{}", s);
        let plain = Decimal::from_bytes_unchecked(legacy.clone());
        assert_eq!(plain.to_string(), d.to_string());
        if !d.is_negative() || d.is_special() {
            assert_eq!(legacy, d.as_bytes());
        } else {
            assert_ne!(legacy, d.as_bytes());
        }
    }
}

#[test]
fn only_the_older_layout_is_rewritten() {
    assert_eq!(
        canonicalize(&[0x00, 0xBF, 0xFE, 0xEF]).unwrap(),
        vec![0x00, 0xBF, 0xFE, 0x89, 0xFF]
    );
    // A negative number without a mantissa gets the end byte.
    assert_eq!(
        canonicalize(&[0x00, 0xBF, 0xFE]).unwrap(),
        vec![0x00, 0xBF, 0xFE, 0xFF]
    );
    // Trailing zeros of a positive mantissa and bytes behind zero stay.
    assert_eq!(
        canonicalize(&[0xFF, 0x40, 0x01, 0x10, 0x00]).unwrap(),
        vec![0xFF, 0x40, 0x01, 0x10, 0x00]
    );
    assert_eq!(canonicalize(&[0x80, 0x01]).unwrap(), vec![0x80, 0x01]);
    assert_eq!(canonicalize(&[0x80, 0x01]), to_legacy_encoding(&[0x80, 0x01]));
    assert_eq!(canonicalize(&[]), Err(DecimalError::InvalidEncoding));
    assert_eq!(to_legacy_encoding(&[0x7F]), Err(DecimalError::InvalidEncoding));
}

#[test]
fn encoded_lengths() {
    for (s, n) in [
        ("0", 1),
        ("5", 4),
        ("55", 4),
        ("555", 5),
        ("-5", 5),
        ("-55", 5),
        ("-555", 6),
        ("1e49147", 4),
        ("1e49148", 8),
        ("-1e49148", 9),
        ("NaN", 3),
    ] {
        assert_eq!(dec(s).byte_len(), n, "{}", s);
        assert_eq!(dec(s).as_bytes().len(), n);
    }
}

#[test]
fn texts_are_read_back() {
    for s in [
        "0",
        "-0.5",
        "100",
        "0.000123",
        "98765432109876543210.0123456789",
        "-1e131071",
        "1e-16383",
        "Infinity",
        "-Infinity",
        "NaN",
    ] {
        let d = dec(s);
        assert_eq!(dec(&d.to_string()), d);
        for scale in [-3, 0, 16_383] {
            assert_eq!(dec(&d.to_string_with_scale(scale)), d, "{} at {}", s, scale);
        }
    }
}

#[test]
fn scale_gives_that_many_digits() {
    assert_eq!(dec("1").to_string_with_scale(18), "1.000000000000000000");
    assert_eq!(dec("1.5").to_string_with_scale(3), "1.500");
    for (s, scale, expected) in [
        ("1.2345", 2, "1.23"),
        ("1.2345", 3, "1.235"),
        ("-1.2345", 3, "-1.235"),
        ("1.2345", 4, "1.2345"),
        ("0.005", 2, "0.01"),
        ("0.004", 2, "0.00"),
        ("-0.004", 2, "0.00"),
        ("-0.005", 2, "-0.01"),
        ("99.95", 1, "100.0"),
        ("-9.999", 2, "-10.00"),
        ("1e-16383", 1, "0.0"),
        ("0", 3, "0.000"),
        ("12.5", -1, "12.5"),
        ("12.5", 0, "12.5"),
    ] {
        assert_eq!(dec(s).to_string_with_scale(scale), expected, "{} at {}", s, scale);
        assert_eq!(
            decode_to_string_with_scale(dec(s).as_bytes(), scale).unwrap(),
            expected
        );
    }
    assert_eq!(dec("-12").to_string_with_scale(2), "-12.00");
    assert_eq!(dec("123").to_string_with_scale(0), "123");
    assert_eq!(dec("100").to_string_with_scale(-2), "100");
    assert_eq!(Decimal::nan().to_string_with_scale(10), "NaN");
    assert_eq!(Decimal::neg_infinity().to_string_with_scale(1), "-Infinity");
    assert_eq!(
        decode_to_string_with_scale(&[0x01], 2),
        Err(DecimalError::InvalidEncoding)
    );
}

#[test]
fn parts_of_a_number() {
    let mut digits = vec![9];
    assert_eq!(dec("-12.5").read_parts_into(&mut digits), Some((true, 2)));
    assert_eq!(digits, vec![1, 2, 5]);
    assert_eq!(Decimal::nan().read_parts_into(&mut digits), None);
    assert_eq!(digits, vec![1, 2, 5]);
    assert_eq!(dec("0").read_parts_into(&mut digits), Some((false, 0)));
    assert!(digits.is_empty());
    assert_eq!(parse_decimal(" -0.0120e3 ").unwrap(), (true, vec![1, 2], 2));
    assert_eq!(parse_decimal("-").unwrap(), (false, vec![], 0));
}

#[test]
fn a_failed_decode_leaves_the_digits_before_the_bad_pair() {
    let mut digits = vec![7];
    let bad = [0xFF, 0x40, 0x03, 0x12, 0x34, 0x5A, 0x60];
    assert_eq!(
        decode_parts_into(&bad, &mut digits),
        Err(DecimalError::InvalidEncoding)
    );
    assert_eq!(digits, vec![1, 2, 3, 4]);
    assert!(decode_parts_into(&[0xFF, 0x00], &mut digits).is_err());
    assert_eq!(digits, vec![1, 2, 3, 4]);
    assert!(decode_parts_into(&[0x33], &mut digits).is_err());
    assert!(decode_parts_into(&[], &mut digits).is_err());
    assert_eq!(digits, vec![1, 2, 3, 4]);
}

#[test]
fn exponents_and_mantissas_are_decoded() {
    assert_eq!(decode_exponent(&[0x40, 0x03, 0x12], false), Ok((3, 2)));
    assert_eq!(decode_exponent(&[0xBF, 0xFC], true), Ok((3, 2)));
    assert_eq!(decode_exponent(&[0x00, 0x01], false), Ok((-16383, 2)));
    assert_eq!(decode_exponent(&[0xFF, 0xFC], false), Ok((49148, 2)));
    assert_eq!(
        decode_exponent(&[0xFF, 0xFD, 0, 0, 0xBF, 0xFD], false),
        Ok((49149, 6))
    );
    assert_eq!(
        decode_exponent(&[0xFF, 0xFD, 0, 2, 0, 0], false),
        Ok((131072, 6))
    );
    assert!(decode_exponent(&[0xFF, 0xFD, 0, 0, 0xBF, 0xFC], false).is_err());
    assert!(decode_exponent(&[0x40], false).is_err());
    assert_eq!(decode_mantissa(&[0x12, 0x30], false), Ok(vec![1, 2, 3]));
    assert_eq!(decode_mantissa(&[0x00, 0x00], false), Ok(vec![0]));
    assert_eq!(decode_mantissa(&[], true), Ok(vec![]));
    assert_eq!(decode_mantissa(&[0x87, 0x69, 0xFF], true), Ok(vec![1, 2, 3]));
    assert_eq!(decode_mantissa(&[0xED, 0xCF], true), Ok(vec![1, 2, 3]));
    assert!(decode_mantissa(&[0xFF, 0xFF], true).is_err());
}

#[test]
fn special_names() {
    assert_eq!(
        parse_special_value("\u{a0}iNf\u{2003}"),
        Some(SpecialValue::Infinity)
    );
    assert_eq!(parse_special_value("+NaN"), Some(SpecialValue::NaN));
    assert_eq!(parse_special_value("-INF"), Some(SpecialValue::NegInfinity));
    assert_eq!(parse_special_value("\u{130}nf"), None);
    assert_eq!(parse_special_value("infinit"), None);
    assert_eq!(encode_special_value(SpecialValue::Infinity), vec![0xFF, 0xFF, 0xFE]);
}

#[test]
fn errors_of_literals() {
    for (s, m) in [
        ("1.2.3", "Invalid format: Multiple decimal points"),
        ("1.2.x", "Invalid format: Multiple decimal points"),
        ("12abc", "Invalid format: Invalid character: a"),
        ("--1", "Invalid format: Invalid character: -"),
        ("1 2", "Invalid format: Invalid character:  "),
        ("\u{e9}", "Invalid format: Invalid character: \u{e9}"),
        ("1e", "Invalid format: Missing exponent after 'e'"),
        ("1eabc", "Invalid format: Invalid exponent: abc"),
        ("1e+", "Invalid format: Invalid exponent: +"),
        ("1E5 6", "Invalid format: Invalid exponent: 5 6"),
        ("1e131072", "Precision overflow: exponent out of range"),
        ("1e99999999999999999999999999999999999999", "Precision overflow: exponent out of range"),
        ("0e2147483648", "Precision overflow: exponent out of range"),
    ] {
        assert_eq!(message(Decimal::from_str(s).unwrap_err()), m, "{}", s);
    }
    assert_eq!(
        message(Decimal::from_bytes(&[0x12]).unwrap_err()),
        "Invalid encoding"
    );
    assert!(dec("0e2147483647").is_zero());
    assert!(dec("e5").is_zero());
    assert!(dec(".").is_zero());
}

#[test]
fn integers_of_every_width() {
    assert_eq!(Decimal::from(i8::MIN).to_string(), "-128");
    assert_eq!(Decimal::from(u8::MAX).to_string(), "255");
    assert_eq!(Decimal::from(-300i16).to_string(), "-300");
    assert_eq!(Decimal::from(u16::MAX).to_string(), "65535");
    assert_eq!(Decimal::from(u32::MAX).to_string(), "4294967295");
    assert_eq!(Decimal::from(u64::MAX).to_string(), "18446744073709551615");
    assert_eq!(
        Decimal::from(i128::MIN).to_string(),
        "-170141183460469231731687303715884105728"
    );
    assert_eq!(
        Decimal::from(u128::MAX).to_string(),
        "340282366920938463463374607431768211455"
    );
    assert_eq!(int_string(-70), "-70");
    let d: Decimal = "42.5".parse().unwrap();
    assert_eq!(d, dec("42.5"));
}

// ==================== Rounding ====================

#[test]
fn numerals_are_counted_up() {
    assert_eq!(add_one_to_integer("0"), "1");
    assert_eq!(add_one_to_integer("199"), "200");
    assert_eq!(add_one_to_integer("999"), "1000");
    assert_eq!(add_one_to_integer(""), "1");
    assert_eq!(round_up("099"), "100");
}

#[test]
fn ties_round_away_from_zero() {
    for (s, scale, expected) in [
        ("2.5", 0, "3"),
        ("-2.5", 0, "-3"),
        ("2.4999", 0, "2"),
        ("0.125", 2, "0.13"),
        ("-0.125", 2, "-0.13"),
        ("0.005", 2, "0.01"),
        ("0.004", 2, "0"),
        ("-0.004", 2, "0"),
        ("999.995", 2, "1000"),
        ("14.99", -1, "10"),
        ("15", -1, "20"),
        ("-15", -1, "-20"),
        ("5", 3, "5"),
        ("00012.30", 5, "12.3"),
    ] {
        assert_eq!(truncate_decimal(s, None, Some(scale)).unwrap(), expected, "{}", s);
    }
    assert_eq!(truncate_decimal("2.5", None, None).unwrap(), "3");
}

#[test]
fn wide_negative_scales_round_to_zero_or_one_unit() {
    assert_eq!(truncate_decimal("1", None, Some(-25)).unwrap(), "0");
    assert_eq!(
        truncate_decimal("5000000000000000000000000", None, Some(-25)).unwrap(),
        "10000000000000000000000000"
    );
    assert_eq!(
        truncate_decimal("4999999999999999999999999", None, Some(-25)).unwrap(),
        "0"
    );
    assert_eq!(
        truncate_decimal("99999999999999999999", None, Some(-20)).unwrap(),
        "100000000000000000000"
    );
    assert_eq!(truncate_decimal("7", None, Some(i32::MIN + 2_147_483_000)).unwrap(), "0");
}

#[test]
fn precision_keeps_the_last_digits() {
    for (s, p, scale, expected) in [
        ("12345.67", 5, 2, "345.67"),
        ("12345.67", 2, 2, "0.67"),
        ("12345.67", 1, 2, "0.67"),
        ("99.995", 4, 2, "0"),
        ("10099.5", 4, 0, "0100"),
        ("12345", u32::MAX, 0, "12345"),
        ("123", 3_000_000_000, 0, "123"),
        ("123.456", 3_000_000_000, 2, "123.46"),
        ("12345", 3_000_000_000, -2, "12300"),
        ("12345", 0, 0, "0"),
        ("12345", 0, -2, "12300"),
        ("987654", 2, -2, "7700"),
    ] {
        let cut = truncate_decimal(s, Some(p), Some(scale)).unwrap();
        if expected == "0" {
            assert_eq!(dec(&cut), dec("0"), "{} {} {}", s, p, scale);
        } else {
            assert_eq!(cut, expected, "{} {} {}", s, p, scale);
        }
    }
}

#[test]
fn an_exponent_is_read_before_the_number_is_cut() {
    for (s, p, scale, expected) in [
        ("1.2345e3", None, Some(2), "1234.5"),
        ("1.2345e3", None, Some(0), "1235"),
        ("1.2345E3", None, None, "1235"),
        ("-1.2345e3", None, Some(-1), "-1230"),
        ("1235e-1", None, Some(0), "124"),
        ("125e-2", None, Some(1), "1.3"),
        ("1e5", None, Some(2), "100000"),
        ("1e5", Some(5), Some(2), "0"),
        ("-5e-3", None, Some(2), "-0.01"),
        ("-4e-3", None, Some(2), "0"),
        ("12.5e0", None, Some(0), "13"),
    ] {
        let d = Decimal::with_precision_scale(s, p, scale).unwrap();
        assert_eq!(d, dec(expected), "{} at {:?}", s, scale);
        let plain = dec(s).to_string();
        assert_eq!(truncate_decimal(s, p, scale), truncate_decimal(&plain, p, scale));
    }
}

#[test]
fn what_is_no_literal_is_cut_as_it_stands() {
    for (s, scale, expected) in [
        ("--5", 0, "-5"),
        ("+-5", 0, "5"),
        ("-+-5.5", 0, "-6"),
        ("--12.99", 1, "-13"),
        ("1.5x", 0, "2"),
        ("1.4x", 0, "1"),
        ("1.2.3", 1, "1.2"),
        ("1.5e", 0, "2"),
        ("12a.91", 1, "12a.9"),
        ("1e", 0, "1e"),
        ("1x34", -1, "1x30"),
        ("x", -1, "0"),
        ("0+6", -2, "0"),
        ("0+60", -3, "0"),
    ] {
        let cut = truncate_decimal(s, None, Some(scale)).unwrap();
        assert_eq!(cut, expected, "{} at {}", s, scale);
    }
    for (s, scale, expected) in [("--5", 0, "-5"), ("1.5x", 0, "2"), ("1.2.3", 1, "1.2")] {
        let d = Decimal::with_precision_scale(s, None, Some(scale)).unwrap();
        assert_eq!(d, dec(expected), "{}", s);
    }
    for (s, m) in [
        ("12a.91", "Invalid format: Invalid character: a"),
        ("1e", "Invalid format: Missing exponent after 'e'"),
        ("1e131072", "Precision overflow: exponent out of range"),
        ("1e99999999999", "Precision overflow: exponent out of range"),
    ] {
        let e = Decimal::with_precision_scale(s, None, Some(1)).unwrap_err();
        assert_eq!(message(e), m, "{}", s);
    }
    let d = Decimal::with_precision_scale("123.456", Some(5), Some(2)).unwrap();
    assert_eq!(d.to_string(), "123.46");
    assert!(Decimal::with_precision_scale("NaN", Some(5), Some(2)).unwrap().is_nan());
}

#[test]
fn what_cannot_be_counted_up_is_not_cut() {
    assert_eq!(try_truncate_decimal("12a.99", None, Some(1)), None);
    assert_eq!(try_truncate_decimal("1.2\u{e9}5", None, Some(2)), None);
    assert_eq!(try_truncate_decimal("1x9", None, Some(-1)), None);
    assert_eq!(
        try_truncate_decimal("12.99", None, Some(1)),
        Some(Ok("13".to_string()))
    );
    let d = Decimal::try_with_precision_scale("123.456", Some(5), Some(2));
    assert_eq!(d.unwrap().unwrap().to_string(), "123.46");
    let d = Decimal::try_with_precision_scale("NaN", Some(5), Some(2));
    assert!(d.unwrap().unwrap().is_nan());
    // Counting up the letter has no result, while refusing it is an error.
    assert!(Decimal::try_with_precision_scale("1x.9", None, Some(0)).is_none());
    assert!(Decimal::try_with_precision_scale("1x.1", None, Some(0))
        .unwrap()
        .is_err());
}

// ==================== Decimal64 ====================

#[test]
fn decimal64_bits() {
    let d = Decimal64::from_parts(12345, 2).unwrap();
    assert_eq!(d.raw(), (2i64 << 56) + (1i64 << 55) + 12345);
    assert_eq!(d.to_be_bytes(), [2, 0x80, 0, 0, 0, 0, 0x30, 0x39]);
    assert_eq!(Decimal64::default().raw(), 1i64 << 55);
    let d = Decimal64::from_parts(-1, 18).unwrap();
    assert_eq!(d.to_be_bytes(), [18, 0x7F, 0xFF, 0xFF, 0xFF, 0xFF, 0xFF, 0xFF]);
    assert_eq!((d.value(), d.scale()), (-1, 18));
    assert_eq!(d.to_string(), "-0.000000000000000001");
    assert_eq!(Decimal64::neg_infinity().to_be_bytes(), i64::MIN.to_be_bytes());
    for raw in [0, 1, -1, i64::MIN, i64::MAX, 0x0123_4567_89AB_CDEF] {
        let d = Decimal64::from_raw(raw);
        assert_eq!(d.to_be_bytes(), raw.to_be_bytes());
        assert_eq!(Decimal64::from_be_bytes(raw.to_be_bytes()).raw(), raw);
    }
}

#[test]
fn decimal64_limits_and_errors() {
    assert_eq!(
        message(Decimal64::with_precision_scale("1", Some(17), None).unwrap_err()),
        "Invalid format: Precision 17 exceeds maximum 16 for Decimal64"
    );
    assert_eq!(
        message(Decimal64::with_precision_scale("NaN", Some(0), None).unwrap_err()),
        "Invalid format: Precision must be at least 1"
    );
    assert_eq!(
        message(Decimal64::with_precision_scale("1", None, Some(256)).unwrap_err()),
        "Invalid format: Scale 256 exceeds maximum 18 for Decimal64"
    );
    assert_eq!(
        message(Decimal64::from_parts(0, 19).unwrap_err()),
        "Invalid format: Scale 19 exceeds maximum 18"
    );
    assert_eq!(
        message(Decimal64::from_parts(decimal64::MAX_VALUE + 1, 0).unwrap_err()),
        "Invalid format: Value 36028797018963968 doesn't fit in 56 bits (range -36028797018963968 to 36028797018963967)"
    );
    for (s, scale) in [
        ("36028797018963968", 0),
        ("-36028797018963969", 0),
        ("9223372036854775807", 0),
        ("9223372036854775807", 1),
        ("9.223372036854775807", 18),
        ("9223372036854775808", 0),
        ("-9223372036854775808", 0),
        ("99999999999999999999999999999999999999999", 0),
        ("36028797018963967.5", 0),
    ] {
        assert_eq!(
            message(Decimal64::new(s, scale).unwrap_err()),
            "Invalid format: Value too large for Decimal64",
            "{}",
            s
        );
    }
    assert_eq!(
        Decimal64::new("-36028797018963968", 0).unwrap(),
        Decimal64::min_value()
    );
    assert_eq!(
        Decimal64::new("36028797018963967.4", 0).unwrap(),
        Decimal64::max_value()
    );
    // The precision keeps the last digits of an integer of any length.
    let d = Decimal64::with_precision_scale("99999999999999999999123", Some(3), None).unwrap();
    assert_eq!((d.value(), d.scale()), (123, 0));
}

#[test]
fn decimal64_counts_what_is_no_integer_as_zero() {
    for (s, scale, expected) in [
        ("abc", 0, "0"),
        ("abc.25", 2, "0.25"),
        ("1x.9", 1, "0.9"),
        ("--5", 0, "5"),
        ("+-5", 0, "-5"),
        ("5e", 0, "0"),
        ("1e5", 0, "0"),
        ("1.x", 2, "1"),
        ("1.2.3", 2, "1"),
        ("1.-5", 2, "0.95"),
        ("1.2\u{e9}", 3, "1"),
        ("", 1, "0"),
        (" ", 1, "0"),
        ("-", 1, "0"),
        (".", 1, "0"),
        ("-0", 1, "0"),
    ] {
        let d = Decimal64::new(s, scale).unwrap();
        assert_eq!(d.to_string(), expected, "{}", s);
        assert_eq!(d.scale(), scale);
    }
    for (s, scale, expected) in [
        ("abc", -3, "0"),
        ("5e", -20, "0"),
        ("x12345", -2, "0"),
        ("--12345", -2, "12300"),
        ("0+60", -3, "0"),
    ] {
        let d = Decimal64::with_precision_scale(s, None, Some(scale)).unwrap();
        assert_eq!(d.to_string(), expected, "{}", s);
    }
    assert_eq!(
        message(Decimal64::new("--99999999999999999999", 0).unwrap_err()),
        "Invalid format: Value too large for Decimal64"
    );
    assert!(Decimal64::try_with_precision_scale("1x.9", None, Some(0)).is_none());
    assert!(Decimal64::try_with_precision_scale("1.2\u{e9}5", None, Some(2)).is_none());
    assert_eq!("1x.9".parse::<Decimal64>().unwrap().to_string(), "0.9");
    assert_eq!(
        message("9x.9999999999999999999".parse::<Decimal64>().unwrap_err()),
        "Invalid format: Invalid digit"
    );
}

#[test]
fn decimal64_rounding() {
    for (s, p, scale, expected) in [
        ("2.5", None, Some(0), "3"),
        ("-2.5", None, None, "-3"),
        ("9.995", None, Some(2), "10"),
        ("1.2", None, Some(5), "1.2"),
        ("12345.678", Some(5), Some(2), "345.68"),
        ("12345.678", Some(2), Some(2), "0.68"),
        ("12345", None, Some(-2), "12300"),
        ("50", None, Some(-2), "100"),
        ("49", None, Some(-2), "0"),
        ("-50", None, Some(-2), "-100"),
        ("99999", Some(2), Some(-3), "0"),
        ("1", None, Some(-40), "0"),
        ("12345678901234567890123", Some(2), Some(-22), "0"),
        ("+7.25", None, Some(1), "7.3"),
    ] {
        let d = Decimal64::with_precision_scale(s, p, scale);
        if s == "12345678901234567890123" {
            // One unit of that size does not fit.
            assert!(d.is_err());
        } else {
            assert_eq!(d.unwrap().to_string(), expected, "{}", s);
        }
    }
    assert!(Decimal64::with_precision_scale("6", None, Some(-1)).unwrap() == Decimal64::from(10));
}

#[test]
fn decimal64_finds_the_scale() {
    let d = Decimal64::from_str("0.123456789012345678901234").unwrap_err();
    assert_eq!(message(d), "Invalid format: Value too large for Decimal64");
    let d = Decimal64::from_str("0.000000000000000000049").unwrap();
    assert_eq!((d.value(), d.scale()), (0, 18));
    let d = Decimal64::from_str(" -1.250 ").unwrap();
    assert_eq!((d.value(), d.scale()), (-1250, 3));
    assert_eq!(Decimal64::detect_scale("1.23e5"), 2);
    assert_eq!(Decimal64::detect_scale("12"), 0);
}

#[test]
fn decimal64_texts_and_decimals_are_read_back() {
    for (value, scale) in [
        (0, 0),
        (0, 7),
        (12300, 2),
        (-1, 18),
        (decimal64::MAX_VALUE, 5),
        (decimal64::MIN_VALUE, 18),
        (100, 0),
    ] {
        let d = Decimal64::from_parts(value, scale).unwrap();
        assert_eq!(Decimal64::new(&d.to_string(), scale).unwrap(), d);
        assert_eq!(Decimal64::from_decimal(&d.to_decimal(), scale).unwrap(), d);
        assert_eq!(d.to_decimal(), dec(&d.to_string()));
    }
    for d in [
        Decimal64::nan(),
        Decimal64::infinity(),
        Decimal64::neg_infinity(),
    ] {
        assert_eq!(Decimal64::new(&d.to_string(), 3).unwrap(), d);
        assert_eq!(Decimal64::from_decimal(&d.to_decimal(), 3).unwrap(), d);
        assert_eq!((d.value(), d.scale()), (0, 0));
        assert!(!d.is_zero() && !d.is_negative() && !d.is_positive());
    }
}

#[test]
fn decimal64_order_ignores_the_scale() {
    let sorted = [
        Decimal64::neg_infinity(),
        Decimal64::min_value(),
        Decimal64::from_parts(-15, 1).unwrap(),
        Decimal64::from_parts(-1, 18).unwrap(),
        Decimal64::from_parts(0, 3).unwrap(),
        Decimal64::from_parts(1, 18).unwrap(),
        Decimal64::from_parts(decimal64::MAX_VALUE, 18).unwrap(),
        Decimal64::from_parts(1, 0).unwrap(),
        Decimal64::from_parts(1001, 3).unwrap(),
        Decimal64::max_value(),
        Decimal64::infinity(),
        Decimal64::nan(),
    ];
    for i in 0..sorted.len() {
        for j in 0..sorted.len() {
            assert_eq!(sorted[i].cmp(&sorted[j]), i.cmp(&j));
            assert_eq!(sorted[i].partial_cmp(&sorted[j]), Some(i.cmp(&j)));
            let (a, b) = (sorted[i].to_decimal(), sorted[j].to_decimal());
            assert_eq!(a.cmp(&b), i.cmp(&j));
        }
    }
    let a = Decimal64::from_parts(100, 2).unwrap();
    let b = Decimal64::from_parts(1, 0).unwrap();
    assert_eq!(a.cmp(&b), Ordering::Equal);
    assert!(a != b);
}

#[test]
fn decimal64_of_integers() {
    assert_eq!(Decimal64::from(-7i32).value(), -7);
    assert_eq!(Decimal64::from(i64::MAX).value(), decimal64::MAX_VALUE);
    assert_eq!(Decimal64::from(i64::MIN).value(), decimal64::MIN_VALUE);
}

// ==================== Decimal64NoScale ====================

#[test]
fn no_scale_limits_and_errors() {
    for (s, scale, m) in [
        ("1", 19, "Invalid format: Scale 19 exceeds maximum 18 for Decimal64NoScale"),
        ("1", -19, "Invalid format: Scale 19 exceeds maximum 18 for Decimal64NoScale"),
        (
            "1",
            i32::MIN,
            "Invalid format: Scale 2147483648 exceeds maximum 18 for Decimal64NoScale",
        ),
        ("x", 2, "Invalid format: Invalid integer part: x"),
        (
            "0099999999999999999999",
            0,
            "Invalid format: Invalid integer part: 99999999999999999999",
        ),
        ("1000000000000000000", 0, "Invalid format: Value too large for Decimal64NoScale"),
        ("9223372036854775807", 1, "Invalid format: Value too large for Decimal64NoScale"),
        (
            "9.999999999999999999",
            18,
            "Invalid format: Value too large for Decimal64NoScale",
        ),
        (
            "9223372036854775808",
            0,
            "Invalid format: Invalid integer part: 9223372036854775808",
        ),
        (
            "--9223372036854775808",
            0,
            "Invalid format: Value too large for Decimal64NoScale",
        ),
        ("1e5", 0, "Invalid format: Invalid integer part: 1e5"),
        (
            "99999999999999999999999",
            -2,
            "Invalid format: Value too large for Decimal64NoScale",
        ),
        (
            "99999999999999999950",
            -2,
            "Invalid format: Value too large for Decimal64NoScale",
        ),
    ] {
        assert_eq!(message(Decimal64NoScale::new(s, scale).unwrap_err()), m, "{}", s);
    }
    assert!(Decimal64NoScale::new("NaN", 99).unwrap().is_nan());
    assert_eq!(
        message(Decimal64NoScale::from_i64(i64::MAX, 1).unwrap_err()),
        "Invalid format: Overflow: 9223372036854775807 * 10^1 exceeds i64 range"
    );
    assert_eq!(
        message(Decimal64NoScale::from_i64(1, 18).unwrap_err()),
        "Invalid format: Value too large for Decimal64NoScale"
    );
    assert_eq!(
        message(Decimal64NoScale::from_u64(u64::MAX, 0).unwrap_err()),
        "Invalid format: Value 18446744073709551615 exceeds i64::MAX"
    );
    for value in [i64::MAX, i64::MAX - 1, i64::MIN, 1_000_000_000_000_000_000] {
        assert_eq!(
            message(Decimal64NoScale::from_i64(value, 0).unwrap_err()),
            "Invalid format: Value too large for Decimal64NoScale"
        );
        assert!(Decimal64NoScale::from_i64(value, -1).unwrap().is_finite());
    }
    assert_eq!(
        message(Decimal64NoScale::from_u64(i64::MAX as u64, 0).unwrap_err()),
        "Invalid format: Value too large for Decimal64NoScale"
    );
    assert_eq!(
        Decimal64NoScale::from_i64(decimal64_no_scale::MIN_VALUE, 0).unwrap(),
        Decimal64NoScale::min_value()
    );
    assert_eq!(Decimal64NoScale::from_u64(7, 0).unwrap().value(), 7);
    assert_eq!(Decimal64NoScale::from_i64(-199, -2).unwrap().value(), -1);
    assert_eq!(Decimal64NoScale::from_i64(i64::MAX, -40).unwrap().value(), 0);
    assert_eq!(Decimal64NoScale::from_i64(0, 40).unwrap().value(), 0);
    assert!(Decimal64NoScale::from_i64(1, 40).is_err());
}

#[test]
fn no_scale_rounding() {
    for (s, scale, expected) in [
        ("2.5", 0, 3),
        ("-2.5", 0, -3),
        ("2.49", 0, 2),
        ("1.005", 2, 101),
        ("9.995", 2, 1000),
        ("1.2", 4, 12000),
        (".5", 1, 5),
        ("-0.0", 1, 0),
        ("12350", -2, 124),
        ("-12350", -2, -124),
        ("12349", -2, 123),
        ("60", -2, 1),
        ("99", -2, 1),
        ("-99", -2, -1),
        ("50", -2, 1),
        ("49", -2, 0),
        ("49.99", -2, 0),
        ("5", -2, 0),
        ("0099", -2, 1),
        ("500000000000000000", -18, 1),
        ("499999999999999999", -18, 0),
        ("123.99", -2, 1),
        ("99999999999999999949", -2, 999_999_999_999_999_999),
    ] {
        assert_eq!(Decimal64NoScale::new(s, scale).unwrap().value(), expected, "{}", s);
    }
}

#[test]
fn no_scale_counts_what_is_no_integer_as_zero() {
    for (s, scale, expected) in [
        ("1.x", 2, 100),
        ("1.-5", 2, 95),
        ("1.2.3", 2, 100),
        ("--5", 0, 5),
        ("+-5", 1, -50),
        ("", 1, 0),
        ("-", 1, 0),
        (".", 1, 0),
        ("abc", -2, 0),
        ("--9", -1, 0),
        ("--96", -1, 9),
        ("++96", -1, 10),
    ] {
        assert_eq!(Decimal64NoScale::new(s, scale).unwrap().value(), expected, "{}", s);
    }
    assert!(Decimal64NoScale::try_new("1.2\u{e9}5", 2).is_none());
}

#[test]
fn no_scale_texts_and_decimals_are_read_back() {
    for value in [
        0,
        7,
        -300,
        12345,
        decimal64_no_scale::MAX_VALUE,
        decimal64_no_scale::MIN_VALUE,
    ] {
        let d = Decimal64NoScale::from_raw(value);
        for scale in [0, 1, 2, 17, 18] {
            let s = d.to_string_with_scale(scale);
            assert_eq!(Decimal64NoScale::new(&s, scale).unwrap(), d, "{}", s);
            let back = Decimal64NoScale::from_decimal(&d.to_decimal(scale), scale);
            assert_eq!(back.unwrap(), d);
            assert_eq!(d.to_decimal(scale), dec(&s));
        }
    }
    for (value, scale, text) in [
        (123, -2, "12300"),
        (-5, -18, "-5000000000000000000"),
        (0, -3, "0"),
        (123_456, -18, "123456000000000000000000"),
    ] {
        let d = Decimal64NoScale::from_raw(value);
        assert_eq!(d.to_string_with_scale(scale), text);
        assert_eq!(Decimal64NoScale::new(text, scale).unwrap(), d);
    }
    assert_eq!(Decimal64NoScale::from_raw(-5).to_string_with_scale(3), "-0.005");
    assert_eq!(Decimal64NoScale::from_raw(0).to_string_with_scale(2), "0.00");
    assert_eq!(
        Decimal64NoScale::from_raw(i64::MIN + 1).to_string_with_scale(-1),
        "-92233720368547758070"
    );
    assert_eq!(Decimal64NoScale::from_raw(-12345).to_string(), "-12345");
    assert_eq!(Decimal64NoScale::infinity().to_string(), "Infinity");
    assert_eq!(Decimal64NoScale::neg_infinity().to_string_with_scale(2), "-Infinity");
    assert!(Decimal64NoScale::neg_infinity().to_decimal(2).is_neg_infinity());
    assert!(Decimal64NoScale::from_decimal(&Decimal::nan(), 2).unwrap().is_nan());
}

#[test]
fn no_scale_compares_at_scales() {
    let a = Decimal64NoScale::from_raw(100);
    let b = Decimal64NoScale::from_raw(1);
    assert_eq!(a.cmp_with_scale(&b, 2, 0), Ordering::Equal);
    assert_eq!(a.cmp_with_scale(&b, 3, 0), Ordering::Less);
    assert_eq!(a.cmp_with_scale(&b, 1, 0), Ordering::Greater);
    assert_eq!(b.cmp_with_scale(&a, -2, 0), Ordering::Equal);
    assert_eq!(a.cmp_with_scale(&b, 0, -100), Ordering::Less);
    assert_eq!(a.cmp_with_scale(&b, i32::MAX, i32::MIN), Ordering::Less);
    let zero = Decimal64NoScale::from_raw(0);
    assert_eq!(zero.cmp_with_scale(&zero, i32::MAX, i32::MIN), Ordering::Equal);
    let sorted = [
        Decimal64NoScale::neg_infinity(),
        Decimal64NoScale::from_raw(-1),
        Decimal64NoScale::from_raw(2),
        Decimal64NoScale::infinity(),
        Decimal64NoScale::nan(),
    ];
    for i in 0..sorted.len() {
        for j in 0..sorted.len() {
            assert_eq!(sorted[i].cmp_with_scale(&sorted[j], 5, 5), i.cmp(&j));
            assert_eq!(sorted[i].cmp(&sorted[j]), i.cmp(&j));
            assert_eq!(sorted[i].raw().cmp(&sorted[j].raw()), i.cmp(&j));
            assert_eq!(sorted[i] < sorted[j], i < j);
        }
    }
}

#[test]
fn no_scale_sums_are_sums_of_numbers() {
    let a = Decimal64NoScale::new("100.50", 2).unwrap();
    let b = Decimal64NoScale::new("-200.25", 2).unwrap();
    let sum = Decimal64NoScale::from_raw(a.value() + b.value());
    assert_eq!(sum.to_string_with_scale(2), "-99.75");
    assert_eq!(Decimal64NoScale::from(5i32), Decimal64NoScale::from(5i64));
    assert_eq!(Decimal64NoScale::default().value(), 0);
    for raw in [0, 1, -1, i64::MIN, i64::MAX] {
        let d = Decimal64NoScale::from_raw(raw);
        assert_eq!(d.to_be_bytes(), raw.to_be_bytes());
        assert_eq!(Decimal64NoScale::from_be_bytes(raw.to_be_bytes()), d);
    }
}

#[test]
fn all_digits_of_the_range_are_accepted() {
    let whole = "9".repeat(131_072);
    let frac = "0".repeat(16_382) + "1";
    assert!(Decimal::from_str(&whole).is_ok());
    assert!(Decimal::from_str(&format!("0.{}", frac)).is_ok());
    assert!(Decimal::from_str(&format!("000{}.{}", whole, frac)).is_ok());
    assert_eq!(
        Decimal::from_str(&format!("1{}", whole)),
        Err(DecimalError::PrecisionOverflow)
    );
}

#[test]
fn sixteen_and_eighteen_digits_fit() {
    let d = Decimal64::new("99999999999999.99", 2).unwrap();
    assert_eq!(d.value(), 9_999_999_999_999_999);
    let d = Decimal64NoScale::new("-9999999999999999.99", 2).unwrap();
    assert_eq!(d.value(), -999_999_999_999_999_999);
    assert!(Decimal64NoScale::new("10000000000000000.00", 2).is_err());
}

#[test]
fn the_integer_part_decides_rounding_to_a_power() {
    for s in ["1499", "1499.99"] {
        let d = Decimal::with_precision_scale(s, None, Some(-3)).unwrap();
        assert_eq!(d.to_string(), "1000");
    }
    for s in ["-1500", "-1500.01"] {
        let d = Decimal::with_precision_scale(s, None, Some(-3)).unwrap();
        assert_eq!(d.to_string(), "-2000");
    }
}

#[test]
fn conversion_at_a_negative_scale_and_back() {
    let d = Decimal64NoScale::from_raw(-123);
    let wide = d.to_decimal(-2);
    assert_eq!(wide.to_string(), "-12300");
    assert_eq!(Decimal64NoScale::from_decimal(&wide, -2).unwrap(), d);
    for d in [Decimal64NoScale::max_value(), Decimal64NoScale::min_value()] {
        for scale in [-1, -17, -18] {
            let back = Decimal64NoScale::from_decimal(&d.to_decimal(scale), scale);
            assert_eq!(back.unwrap(), d);
        }
    }
}
