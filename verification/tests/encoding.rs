use decimal_bytes::encoding::SIGN_ZERO;
use decimal_bytes::notation::{decode_to_string, format_decimal};
use decimal_bytes::parse::encode_decimal;
use decimal_bytes::rounding::{encode_decimal_with_constraints, truncate_decimal};
use decimal_bytes::special::{ENCODING_NAN, ENCODING_NEG_INFINITY, ENCODING_POS_INFINITY};
use decimal_bytes::{decode_parts_into, decode_special_value, SpecialValue};

#[test]
fn test_encode_decode_roundtrip() {
    let values = vec![
        "0",
        "1",
        "-1",
        "123.456",
        "-123.456",
        "0.001",
        "0.1",
        "10",
        "100",
        "1000",
        "-0.001",
        "999999999999999999",
    ];

    for s in values {
        let encoded = encode_decimal(s).unwrap();
        let decoded = decode_to_string(&encoded).unwrap();
        // Re-encode to normalize
        let re_encoded = encode_decimal(&decoded).unwrap();
        assert_eq!(encoded, re_encoded, "Roundtrip failed for {}", s);
    }
}

#[test]
fn test_lexicographic_ordering() {
    let values = vec![
        "-1000", "-100", "-10", "-1", "-0.1", "-0.01", "0", "0.01", "0.1", "1", "10", "100",
        "1000",
    ];

    let encoded: Vec<Vec<u8>> = values.iter().map(|s| encode_decimal(s).unwrap()).collect();

    // Verify encoding preserves order
    for i in 0..encoded.len() - 1 {
        assert!(
            encoded[i] < encoded[i + 1],
            "Ordering failed: {} should be < {}",
            values[i],
            values[i + 1]
        );
    }
}

#[test]
fn test_zero_encoding() {
    let encoded = encode_decimal("0").unwrap();
    assert_eq!(encoded, vec![SIGN_ZERO]);

    let encoded = encode_decimal("0.0").unwrap();
    assert_eq!(encoded, vec![SIGN_ZERO]);

    let encoded = encode_decimal("-0").unwrap();
    assert_eq!(encoded, vec![SIGN_ZERO]);
}

#[test]
fn test_truncate_scale() {
    assert_eq!(
        truncate_decimal("123.456", None, Some(2)).unwrap(),
        "123.46"
    );
    assert_eq!(
        truncate_decimal("123.454", None, Some(2)).unwrap(),
        "123.45"
    );
    assert_eq!(truncate_decimal("123.995", None, Some(2)).unwrap(), "124");
    assert_eq!(truncate_decimal("9.999", None, Some(2)).unwrap(), "10");
}

#[test]
fn test_storage_efficiency() {
    // 9 digit number: should be ~1 sign + 2 exp + 5 mantissa = 8 bytes
    let encoded = encode_decimal("123456789").unwrap();
    assert!(
        encoded.len() <= 8,
        "Expected <= 8 bytes, got {}",
        encoded.len()
    );

    // Small decimal
    let encoded = encode_decimal("0.1").unwrap();
    assert!(
        encoded.len() <= 4,
        "Expected <= 4 bytes, got {}",
        encoded.len()
    );
}

#[test]
fn test_special_value_encoding() {
    // Test encoding special values
    let pos_inf = encode_decimal("Infinity").unwrap();
    assert_eq!(pos_inf, ENCODING_POS_INFINITY.to_vec());

    let neg_inf = encode_decimal("-Infinity").unwrap();
    assert_eq!(neg_inf, ENCODING_NEG_INFINITY.to_vec());

    let nan = encode_decimal("NaN").unwrap();
    assert_eq!(nan, ENCODING_NAN.to_vec());
}

#[test]
fn test_special_value_decoding() {
    // Test decoding special values
    assert_eq!(
        decode_to_string(&ENCODING_POS_INFINITY).unwrap(),
        "Infinity"
    );
    assert_eq!(
        decode_to_string(&ENCODING_NEG_INFINITY).unwrap(),
        "-Infinity"
    );
    assert_eq!(decode_to_string(&ENCODING_NAN).unwrap(), "NaN");
}

#[test]
fn test_special_value_parsing_variants() {
    // Test various ways to write special values (case-insensitive)
    let variants = vec![
        ("infinity", "Infinity"),
        ("Infinity", "Infinity"),
        ("INFINITY", "Infinity"),
        ("inf", "Infinity"),
        ("Inf", "Infinity"),
        ("+infinity", "Infinity"),
        ("+inf", "Infinity"),
        ("-infinity", "-Infinity"),
        ("-inf", "-Infinity"),
        ("-Infinity", "-Infinity"),
        ("nan", "NaN"),
        ("NaN", "NaN"),
        ("NAN", "NaN"),
        ("-nan", "NaN"), // PostgreSQL treats -NaN as NaN
        ("+nan", "NaN"),
    ];

    for (input, expected) in variants {
        let encoded = encode_decimal(input).unwrap();
        let decoded = decode_to_string(&encoded).unwrap();
        assert_eq!(decoded, expected, "Failed for input: {}", input);
    }
}

#[test]
fn encoding_test_special_value_ordering() {
    // PostgreSQL order: -Infinity < negatives < zero < positives < Infinity < NaN
    let values = vec![
        "-Infinity",
        "-1000000",
        "-1",
        "-0.001",
        "0",
        "0.001",
        "1",
        "1000000",
        "Infinity",
        "NaN",
    ];

    let encoded: Vec<Vec<u8>> = values.iter().map(|s| encode_decimal(s).unwrap()).collect();

    // Verify ordering
    for i in 0..encoded.len() - 1 {
        assert!(
            encoded[i] < encoded[i + 1],
            "Special value ordering failed: {} should be < {} (bytes: {:?} < {:?})",
            values[i],
            values[i + 1],
            encoded[i],
            encoded[i + 1]
        );
    }
}

#[test]
fn test_special_value_roundtrip() {
    let values = vec!["Infinity", "-Infinity", "NaN"];

    for s in values {
        let encoded = encode_decimal(s).unwrap();
        let decoded = decode_to_string(&encoded).unwrap();
        let re_encoded = encode_decimal(&decoded).unwrap();
        assert_eq!(
            encoded, re_encoded,
            "Special value roundtrip failed for {}",
            s
        );
    }
}

#[test]
fn test_decode_special_value_helper() {
    assert_eq!(
        decode_special_value(&ENCODING_POS_INFINITY),
        Some(SpecialValue::Infinity)
    );
    assert_eq!(
        decode_special_value(&ENCODING_NEG_INFINITY),
        Some(SpecialValue::NegInfinity)
    );
    assert_eq!(decode_special_value(&ENCODING_NAN), Some(SpecialValue::NaN));

    // Regular values should return None
    let regular = encode_decimal("123.456").unwrap();
    assert_eq!(decode_special_value(&regular), None);

    let zero = encode_decimal("0").unwrap();
    assert_eq!(decode_special_value(&zero), None);
}

#[test]
fn test_negative_scale_basic() {
    // Round to nearest 10
    assert_eq!(truncate_decimal("123", None, Some(-1)).unwrap(), "120");
    assert_eq!(truncate_decimal("125", None, Some(-1)).unwrap(), "130");
    assert_eq!(truncate_decimal("124", None, Some(-1)).unwrap(), "120");

    // Round to nearest 100
    assert_eq!(truncate_decimal("1234", None, Some(-2)).unwrap(), "1200");
    assert_eq!(truncate_decimal("1250", None, Some(-2)).unwrap(), "1300");
    assert_eq!(truncate_decimal("1249", None, Some(-2)).unwrap(), "1200");

    // Round to nearest 1000
    assert_eq!(truncate_decimal("12345", None, Some(-3)).unwrap(), "12000");
    assert_eq!(truncate_decimal("12500", None, Some(-3)).unwrap(), "13000");
}

#[test]
fn test_negative_scale_small_numbers() {
    // When number is smaller than rounding unit
    assert_eq!(truncate_decimal("499", None, Some(-3)).unwrap(), "0");
    assert_eq!(truncate_decimal("500", None, Some(-3)).unwrap(), "1000");
    assert_eq!(truncate_decimal("999", None, Some(-3)).unwrap(), "1000");

    assert_eq!(truncate_decimal("49", None, Some(-2)).unwrap(), "0");
    assert_eq!(truncate_decimal("50", None, Some(-2)).unwrap(), "100");
}

#[test]
fn encoding_test_negative_scale_with_precision() {
    // NUMERIC(2, -3): max 2 significant digits, round to nearest 1000
    assert_eq!(
        truncate_decimal("12345", Some(2), Some(-3)).unwrap(),
        "12000"
    );
    // 99999 rounded to nearest 1000 = 100000
    // "100" significant part exceeds precision 2, truncated from left to "00"
    // Final: "00" + "000" trailing zeros = "00000"
    // Note: PostgreSQL would error here; we truncate instead
    assert_eq!(
        truncate_decimal("99999", Some(2), Some(-3)).unwrap(),
        "00000"
    );
}

#[test]
fn test_negative_scale_negative_numbers() {
    assert_eq!(truncate_decimal("-123", None, Some(-1)).unwrap(), "-120");
    assert_eq!(truncate_decimal("-125", None, Some(-1)).unwrap(), "-130");
    assert_eq!(truncate_decimal("-1234", None, Some(-2)).unwrap(), "-1200");
}

#[test]
fn test_negative_scale_with_decimal_input() {
    // Fractional part is ignored with negative scale
    assert_eq!(truncate_decimal("123.456", None, Some(-1)).unwrap(), "120");
    assert_eq!(
        truncate_decimal("1234.999", None, Some(-2)).unwrap(),
        "1200"
    );
}

#[test]
fn test_negative_scale_encoding_ordering() {
    // Verify ordering is preserved with negative scale rounding
    let values = vec!["-1000", "-100", "0", "100", "1000"];

    let encoded: Vec<Vec<u8>> = values
        .iter()
        .map(|s| encode_decimal_with_constraints(s, None, Some(-2)).unwrap())
        .collect();

    for i in 0..encoded.len() - 1 {
        assert!(
            encoded[i] < encoded[i + 1],
            "Negative scale ordering failed: {} should be < {}",
            values[i],
            values[i + 1]
        );
    }
}

#[test]
fn test_special_values_ignore_precision_scale() {
    // Special values should pass through unchanged regardless of precision/scale
    let inf = encode_decimal_with_constraints("Infinity", Some(5), Some(2)).unwrap();
    assert_eq!(inf, ENCODING_POS_INFINITY.to_vec());

    let neg_inf = encode_decimal_with_constraints("-Infinity", Some(5), Some(2)).unwrap();
    assert_eq!(neg_inf, ENCODING_NEG_INFINITY.to_vec());

    let nan = encode_decimal_with_constraints("NaN", Some(5), Some(2)).unwrap();
    assert_eq!(nan, ENCODING_NAN.to_vec());
}

#[test]
fn test_decode_parts_into_matches_decode_to_string() {
    // Reconstructing the string from the parts must match the string
    // decoder, so both stay pinned to the same encoding semantics.
    let values = [
        "0",
        "1",
        "-1",
        "0.1",
        "-0.125",
        "3.30",
        "12000",
        "123.456",
        "-987654321.123456789",
        "0.000001",
        "999999999999999999999999999999999999999999999999999999999999999999999999999999",
        "10000000000000000000000000000000000000000000000000000000000000000000123",
    ];
    let mut digits = Vec::new();
    for value in values {
        let bytes = encode_decimal(value).unwrap();
        let (is_negative, exponent) = decode_parts_into(&bytes, &mut digits)
            .unwrap()
            .unwrap_or_else(|| panic!("finite value {value} decoded as special"));
        let formatted = format_decimal(is_negative, &digits, exponent).unwrap();
        assert_eq!(
            formatted,
            decode_to_string(&bytes).unwrap(),
            "value {value}"
        );
    }
}

#[test]
fn test_decode_parts_into_reuses_buffer() {
    let mut digits = vec![9, 9, 9, 9, 9, 9, 9, 9];
    let bytes = encode_decimal("12.5").unwrap();
    let (is_negative, exponent) = decode_parts_into(&bytes, &mut digits).unwrap().unwrap();
    assert!(!is_negative);
    assert_eq!(exponent, 2);
    assert_eq!(digits, vec![1, 2, 5]);
}

#[test]
fn test_decode_parts_into_zero_and_specials() {
    let mut digits = vec![7];
    let zero = encode_decimal("0").unwrap();
    assert_eq!(
        decode_parts_into(&zero, &mut digits).unwrap(),
        Some((false, 0))
    );
    assert!(digits.is_empty());

    for special in [ENCODING_NAN, ENCODING_POS_INFINITY, ENCODING_NEG_INFINITY] {
        assert_eq!(decode_parts_into(&special, &mut digits).unwrap(), None);
    }
}
