//! The values that are not numbers: the two infinities and NaN.
use vstd::prelude::*;

use crate::text;

verus! {

/// A value other than a finite number.
#[derive(Debug, Clone, Copy, PartialEq, Eq, Structural)]
pub enum SpecialValue {
    /// Positive infinity, above every number.
    Infinity,
    /// Negative infinity, below every number.
    NegInfinity,
    /// Not a number; equal to itself and above positive infinity.
    NaN,
}

/// The encoding of negative infinity.
pub const ENCODING_NEG_INFINITY: [u8; 3] = [0x00, 0x00, 0x00];

/// The encoding of positive infinity.
pub const ENCODING_POS_INFINITY: [u8; 3] = [0xFF, 0xFF, 0xFE];

/// The encoding of NaN.
pub const ENCODING_NAN: [u8; 3] = [0xFF, 0xFF, 0xFF];

/// The encoding of a special value.
pub open spec fn special_bytes(v: SpecialValue) -> Seq<u8> {
    match v {
        SpecialValue::NegInfinity => seq![0x00u8, 0x00u8, 0x00u8],
        SpecialValue::Infinity => seq![0xFFu8, 0xFFu8, 0xFEu8],
        SpecialValue::NaN => seq![0xFFu8, 0xFFu8, 0xFFu8],
    }
}

/// The special value that the bytes encode.
pub open spec fn special_of_bytes(b: Seq<u8>) -> Option<SpecialValue> {
    if b == special_bytes(SpecialValue::NegInfinity) {
        Some(SpecialValue::NegInfinity)
    } else if b == special_bytes(SpecialValue::Infinity) {
        Some(SpecialValue::Infinity)
    } else if b == special_bytes(SpecialValue::NaN) {
        Some(SpecialValue::NaN)
    } else {
        None
    }
}

/// The name of a special value.
pub open spec fn special_text(v: SpecialValue) -> Seq<char> {
    match v {
        SpecialValue::NegInfinity => "-Infinity"@,
        SpecialValue::Infinity => "Infinity"@,
        SpecialValue::NaN => "NaN"@,
    }
}

/// The special value that a text names, in any case of letters and with white
/// space around it. ASCII case is enough: no other character has a letter of these
/// names alone as its lower case.
pub open spec fn special_of_text(s: Seq<char>) -> Option<SpecialValue> {
    let t = text::lower_text(text::trim(s));
    if t == "infinity"@ || t == "inf"@ || t == "+infinity"@ || t == "+inf"@ {
        Some(SpecialValue::Infinity)
    } else if t == "-infinity"@ || t == "-inf"@ {
        Some(SpecialValue::NegInfinity)
    } else if t == "nan"@ || t == "-nan"@ || t == "+nan"@ {
        Some(SpecialValue::NaN)
    } else {
        None
    }
}

/// Reads the name of a special value.
pub fn parse_special_value(value: &str) -> (r: Option<SpecialValue>)
    ensures
        r == special_of_text(value@),
{
    let v: Vec<char> = text::chars_of(value);
    let t: Vec<char> = text::trimmed(&v);
    let t: Vec<char> = text::lowered(&t);
    if text::same_text(&t, "infinity") || text::same_text(&t, "inf") || text::same_text(
        &t,
        "+infinity",
    ) || text::same_text(&t, "+inf") {
        Some(SpecialValue::Infinity)
    } else if text::same_text(&t, "-infinity") || text::same_text(&t, "-inf") {
        Some(SpecialValue::NegInfinity)
    } else if text::same_text(&t, "nan") || text::same_text(&t, "-nan") || text::same_text(
        &t,
        "+nan",
    ) {
        Some(SpecialValue::NaN)
    } else {
        None
    }
}

/// The encoding of a special value.
pub fn encode_special_value(special: SpecialValue) -> (r: Vec<u8>)
    ensures
        r@ == special_bytes(special),
{
    let a: [u8; 3] = match special {
        SpecialValue::NegInfinity => ENCODING_NEG_INFINITY,
        SpecialValue::Infinity => ENCODING_POS_INFINITY,
        SpecialValue::NaN => ENCODING_NAN,
    };
    vec![a[0], a[1], a[2]]
}

/// The special value that the bytes encode; `None` for every other encoding.
pub fn decode_special_value(bytes: &[u8]) -> (r: Option<SpecialValue>)
    ensures
        r == special_of_bytes(bytes@),
{
    proof {
        assert forall|v: SpecialValue| special_bytes(v).len() == 3 by {}
    }
    if bytes.len() != 3 {
        return None;
    }
    let r: Option<SpecialValue> = if bytes[0] == 0x00 && bytes[1] == 0x00 && bytes[2] == 0x00 {
        Some(SpecialValue::NegInfinity)
    } else if bytes[0] == 0xFF && bytes[1] == 0xFF && bytes[2] == 0xFE {
        Some(SpecialValue::Infinity)
    } else if bytes[0] == 0xFF && bytes[1] == 0xFF && bytes[2] == 0xFF {
        Some(SpecialValue::NaN)
    } else {
        None
    };
    assert(r matches Some(v) ==> bytes@ =~= special_bytes(v));
    r
}

/// The name of a special value as a string.
pub fn special_string(v: SpecialValue) -> (r: String)
    ensures
        r@ == special_text(v),
{
    match v {
        SpecialValue::NegInfinity => "-Infinity".to_owned(),
        SpecialValue::Infinity => "Infinity".to_owned(),
        SpecialValue::NaN => "NaN".to_owned(),
    }
}

} // verus!
