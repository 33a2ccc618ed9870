//! Decimals of any precision, held as sortable bytes.
use vstd::prelude::*;
use std::cmp::Ordering;

use crate::digits;
use crate::encoding;
use crate::error::DecimalError;
use crate::error::ErrorView;
use crate::notation;
use crate::numeral;
use crate::order;
use crate::order::Order;
use crate::parse;
use crate::rounding;
use crate::special;
use crate::special::SpecialValue;
use crate::value;
use crate::value::Parts;
use crate::value::Value;

verus! {

/// A decimal of any precision. Its bytes compare as the numbers do.
#[derive(Debug, Eq, Ord, Hash)]
pub struct Decimal {
    bytes: Vec<u8>,
}

impl View for Decimal {
    type V = Seq<u8>;

    closed spec fn view(&self) -> Seq<u8> {
        self.bytes@
    }
}

impl Decimal {
    /// The bytes encode a value.
    pub open spec fn valid(&self) -> bool {
        encoding::decode(self@) is Some
    }

    /// The value that the bytes encode.
    pub open spec fn value(&self) -> Value {
        encoding::decode(self@)->0
    }

    /// The bytes are the encoding of a normalized value.
    pub open spec fn canonical(&self) -> bool {
        self.valid() && self.value().wf() && self@ == encoding::encode(self.value())
    }

    /// Reads a decimal cut to a precision (the number of digits that are kept) and
    /// a scale (the digits behind the point, or for a negative one the power of
    /// ten to round to). An exponent is read before the number is cut. Special values have
    /// neither.
    ///
    /// The characters that rounding counts up must be digits, and no cut may fall
    /// inside a character.
    pub fn with_precision_scale(s: &str, precision: Option<u32>, scale: Option<i32>) -> (r: Result<
        Self,
        DecimalError,
    >)
        requires
            rounding::can_constrain(s@, precision, scale),
        ensures
            match r {
                Ok(d) => rounding::constrained_bytes(s@, precision, scale) == Ok::<
                    Seq<u8>,
                    ErrorView,
                >(d@) && d.canonical(),
                Err(e) => rounding::constrained_bytes(s@, precision, scale) == Err::<
                    Seq<u8>,
                    ErrorView,
                >(e@),
            },
    {
        match rounding::encode_decimal_with_constraints(s, precision, scale) {
            Err(e) => Err(e),
            Ok(bytes) => {
                proof {
                    match special::special_of_text(s@) {
                        Some(v) => crate::roundtrip::law_decode_encode(Value::Special(v)),
                        None => lemma_encoded_canonical(
                            rounding::truncate_text(s@, precision, scale)->0->Ok_0,
                        ),
                    }
                }
                Ok(Decimal { bytes })
            },
        }
    }

    /// Reads a decimal cut to a precision and a scale; `None` where that would count
    /// up a character that is no digit, or cut inside a character.
    pub fn try_with_precision_scale(s: &str, precision: Option<u32>, scale: Option<i32>) -> (r:
        Option<Result<Self, DecimalError>>)
        ensures
            match r {
                None => !rounding::can_constrain(s@, precision, scale),
                Some(Ok(d)) => rounding::can_constrain(s@, precision, scale)
                    && rounding::constrained_bytes(s@, precision, scale) == Ok::<
                    Seq<u8>,
                    ErrorView,
                >(d@) && d.canonical(),
                Some(Err(e)) => rounding::can_constrain(s@, precision, scale)
                    && rounding::constrained_bytes(s@, precision, scale) == Err::<
                    Seq<u8>,
                    ErrorView,
                >(e@),
            },
    {
        if special::parse_special_value(s).is_none() && rounding::try_truncate_decimal(
            s,
            precision,
            scale,
        ).is_none() {
            return None;
        }
        Some(Self::with_precision_scale(s, precision, scale))
    }

    /// Reads a decimal or the name of a special value.
    pub fn from_str(s: &str) -> (r: Result<Self, DecimalError>)
        ensures
            match r {
                Ok(d) => parse::parse_value(s@) == Ok::<Value, ErrorView>(d.value())
                    && d.canonical(),
                Err(e) => parse::parse_value(s@) == Err::<Value, ErrorView>(e@),
            },
    {
        match parse::encode_decimal(s) {
            Err(e) => Err(e),
            Ok(bytes) => {
                proof {
                    lemma_encoded_canonical(s@);
                }
                Ok(Decimal { bytes })
            },
        }
    }

    /// Takes bytes that encode a value. A negative mantissa in the older layout is
    /// put into the current one.
    pub fn from_bytes(bytes: &[u8]) -> (r: Result<Self, DecimalError>)
        ensures
            match r {
                Ok(d) => encoding::canonical_bytes(bytes@) == Ok::<Seq<u8>, ErrorView>(d@)
                    && d.valid() && encoding::decode(bytes@) == Some(d.value()),
                Err(e) => encoding::decode(bytes@) is None && e is InvalidEncoding,
            },
    {
        match encoding::canonicalize(bytes) {
            Err(e) => Err(e),
            Ok(b) => {
                proof {
                    crate::roundtrip::law_canonical_decode(bytes@);
                }
                Ok(Decimal { bytes: b })
            },
        }
    }

    /// Takes bytes as they are. Most operations need them to encode a value.
    pub fn from_bytes_unchecked(bytes: Vec<u8>) -> (r: Self)
        ensures
            r@ == bytes@,
    {
        Decimal { bytes }
    }

    /// The bytes.
    pub fn as_bytes(&self) -> (r: &[u8])
        ensures
            r@ == self@,
    {
        self.bytes.as_slice()
    }

    /// The bytes, given away.
    pub fn into_bytes(self) -> (r: Vec<u8>)
        ensures
            r@ == self@,
    {
        self.bytes
    }

    /// The bytes with a negative mantissa in the older layout, for a store that
    /// holds such bytes. They do not sort with the current ones; `from_bytes` reads
    /// both.
    pub fn to_legacy_bytes(&self) -> (r: Vec<u8>)
        requires
            self.valid(),
        ensures
            encoding::legacy_bytes(self@) == Ok::<Seq<u8>, ErrorView>(r@),
    {
        encoding::to_legacy_encoding(self.bytes.as_slice()).unwrap()
    }

    /// Whether this is zero.
    pub fn is_zero(&self) -> (r: bool)
        ensures
            r == (self@ == seq![encoding::SIGN_ZERO]),
    {
        let r: bool = self.bytes.len() == 1 && self.bytes[0] == encoding::SIGN_ZERO;
        assert(r ==> self@ =~= seq![encoding::SIGN_ZERO]);
        r
    }

    /// Whether this is below zero.
    pub fn is_negative(&self) -> (r: bool)
        ensures
            r == (self@.len() > 0 && self@[0] == encoding::SIGN_NEGATIVE),
    {
        self.bytes.len() > 0 && self.bytes[0] == encoding::SIGN_NEGATIVE
    }

    /// Whether this is above zero.
    pub fn is_positive(&self) -> (r: bool)
        ensures
            r == (self@.len() > 0 && self@[0] == encoding::SIGN_POSITIVE),
    {
        self.bytes.len() > 0 && self.bytes[0] == encoding::SIGN_POSITIVE
    }

    /// Whether this is positive infinity.
    pub fn is_pos_infinity(&self) -> (r: bool)
        ensures
            r == (special::special_of_bytes(self@) == Some(SpecialValue::Infinity)),
    {
        match special::decode_special_value(self.bytes.as_slice()) {
            Some(v) => v == SpecialValue::Infinity,
            None => false,
        }
    }

    /// Whether this is negative infinity.
    pub fn is_neg_infinity(&self) -> (r: bool)
        ensures
            r == (special::special_of_bytes(self@) == Some(SpecialValue::NegInfinity)),
    {
        match special::decode_special_value(self.bytes.as_slice()) {
            Some(v) => v == SpecialValue::NegInfinity,
            None => false,
        }
    }

    /// Whether this is one of the infinities.
    pub fn is_infinity(&self) -> (r: bool)
        ensures
            r == (special::special_of_bytes(self@) == Some(SpecialValue::Infinity)
                || special::special_of_bytes(self@) == Some(SpecialValue::NegInfinity)),
    {
        self.is_pos_infinity() || self.is_neg_infinity()
    }

    /// Whether this is NaN.
    pub fn is_nan(&self) -> (r: bool)
        ensures
            r == (special::special_of_bytes(self@) == Some(SpecialValue::NaN)),
    {
        match special::decode_special_value(self.bytes.as_slice()) {
            Some(v) => v == SpecialValue::NaN,
            None => false,
        }
    }

    /// Whether this is an infinity or NaN.
    pub fn is_special(&self) -> (r: bool)
        ensures
            r == (special::special_of_bytes(self@) is Some),
    {
        special::decode_special_value(self.bytes.as_slice()).is_some()
    }

    /// Whether this is a number.
    pub fn is_finite(&self) -> (r: bool)
        ensures
            r == (special::special_of_bytes(self@) is None),
    {
        !self.is_special()
    }

    /// The number of bytes.
    pub fn byte_len(&self) -> (r: usize)
        ensures
            r == self@.len(),
    {
        self.bytes.len()
    }

    /// Positive infinity.
    pub fn infinity() -> (r: Self)
        ensures
            r@ == encoding::encode(Value::Special(SpecialValue::Infinity)),
            r.canonical(),
            r.value() == Value::Special(SpecialValue::Infinity),
    {
        proof {
            crate::roundtrip::law_decode_encode(Value::Special(SpecialValue::Infinity));
        }
        Decimal { bytes: special::encode_special_value(SpecialValue::Infinity) }
    }

    /// Negative infinity.
    pub fn neg_infinity() -> (r: Self)
        ensures
            r@ == encoding::encode(Value::Special(SpecialValue::NegInfinity)),
            r.canonical(),
            r.value() == Value::Special(SpecialValue::NegInfinity),
    {
        proof {
            crate::roundtrip::law_decode_encode(Value::Special(SpecialValue::NegInfinity));
        }
        Decimal { bytes: special::encode_special_value(SpecialValue::NegInfinity) }
    }

    /// NaN.
    pub fn nan() -> (r: Self)
        ensures
            r@ == encoding::encode(Value::Special(SpecialValue::NaN)),
            r.canonical(),
            r.value() == Value::Special(SpecialValue::NaN),
    {
        proof {
            crate::roundtrip::law_decode_encode(Value::Special(SpecialValue::NaN));
        }
        Decimal { bytes: special::encode_special_value(SpecialValue::NaN) }
    }

    /// The number in positional notation, or the name of a special value.
    pub fn to_string(&self) -> (r: String)
        requires
            self.valid(),
        ensures
            r@ == value::value_text(self.value()),
    {
        notation::decode_to_string(self.bytes.as_slice()).unwrap()
    }

    /// The number in positional notation with exactly `scale` digits behind the point, a
    /// longer fraction rounded with a tie away from zero. A scale of zero or less changes
    /// nothing, and special values have no digits.
    pub fn to_string_with_scale(&self, scale: i32) -> (r: String)
        requires
            self.valid(),
        ensures
            r@ == value::scaled_text(self.value(), scale as int),
    {
        notation::decode_to_string_with_scale(self.bytes.as_slice(), scale).unwrap()
    }

    /// The sign and the exponent of a number, with its digits put into `ds`, whose
    /// contents they replace: the number is `0.digits * 10^exponent`. `None` for a
    /// special value, which leaves `ds` alone.
    pub fn read_parts_into(&self, ds: &mut Vec<u8>) -> (r: Option<(bool, i32)>)
        requires
            self.valid(),
        ensures
            match r {
                None => self.value() is Special && final(ds)@ == old(ds)@,
                Some((negative, exponent)) => self.value() == Value::Finite(
                    (Parts { negative, digits: final(ds)@, exponent: exponent as int }),
                ),
            },
    {
        encoding::decode_parts_into(self.bytes.as_slice(), ds).unwrap()
    }

    /// The decimal of an integer.
    fn from_integer(n: i128) -> (r: Self)
        ensures
            r.canonical(),
            r.value() == Value::Finite(value::scaled_parts(n as int, 0)),
    {
        let s: String = numeral::int_string(n);
        proof {
            lemma_int_text(n as int);
        }
        Decimal::from_str(s.as_str()).unwrap()
    }

    /// The decimal of a natural number.
    fn from_natural(n: u128) -> (r: Self)
        ensures
            r.canonical(),
            r.value() == Value::Finite(value::scaled_parts(n as int, 0)),
    {
        let v: Vec<char> = numeral::nat_chars(n);
        let s: String = crate::text::string_of(&v);
        proof {
            lemma_int_text(n as int);
        }
        Decimal::from_str(s.as_str()).unwrap()
    }

    /// Compares the bytes of two decimals.
    pub fn cmp(&self, other: &Self) -> (r: Ordering)
        ensures
            r == ordering(order::bytes_order(self@, other@)),
            r == Ordering::Less <==> order::bytes_lt(self@, other@),
            r == Ordering::Equal <==> self@ == other@,
            r == Ordering::Greater <==> order::bytes_lt(other@, self@),
    {
        proof {
            order::lemma_bytes_lt_irreflexive(self@);
            order::lemma_bytes_lt_asymmetric(self@, other@);
            order::lemma_bytes_lt_total(self@, other@);
        }
        match order::compare_bytes(self.bytes.as_slice(), other.bytes.as_slice()) {
            Order::Less => Ordering::Less,
            Order::Equal => Ordering::Equal,
            Order::Greater => Ordering::Greater,
        }
    }
}

/// The order as std names it.
pub open spec fn ordering(o: Order) -> Ordering {
    match o {
        Order::Less => Ordering::Less,
        Order::Equal => Ordering::Equal,
        Order::Greater => Ordering::Greater,
    }
}

/// What a text is encoded to decodes to its value.
proof fn lemma_encoded_canonical(s: Seq<char>)
    ensures
        parse::encoded_text(s) matches Ok(b) ==> parse::parse_value(s) matches Ok(v) && v.wf()
            && encoding::decode(b) == Some(v) && b == encoding::encode(v),
{
    parse::lemma_parse_wf(s);
    if let Ok(v) = parse::parse_value(s) {
        crate::roundtrip::law_decode_encode(v);
    }
}

/// The numeral of an integer below `10^40` is read as that integer.
proof fn lemma_int_text(n: int)
    requires
        -0x8000_0000_0000_0000_0000_0000_0000_0000 <= n <= u128::MAX,
    ensures
        parse::parse_value(numeral::int_text(n)) == Ok::<Value, ErrorView>(
            Value::Finite(value::scaled_parts(n, 0)),
        ),
{
    let m = (if n < 0 { -n } else { n }) as nat;
    let t = numeral::nat_text(m);
    let none = Seq::<char>::empty();
    numeral::lemma_nat_text(m);
    crate::roundtrip::lemma_plain_literal(n < 0, t, none, false);
    assert(numeral::int_text(n) =~= crate::roundtrip::literal_text(n < 0, t, none, false));
    assert(t + none =~= t);
    numeral::lemma_values(t);
    let vs = numeral::values(t);
    digits::lemma_strip_leading(vs);
    if m > 0 {
        assert(crate::text::is_digit(t[0]));
        assert(vs[0] != 0);
        numeral::lemma_nat_text_len(m, 40);
        digits::lemma_u128_digits();
    }
}

// ==================== Traits ====================

impl Clone for Decimal {
    fn clone(&self) -> (r: Self)
        ensures
            r@ == self@,
    {
        let mut bytes: Vec<u8> = Vec::new();
        let mut i: usize = 0;
        while i < self.bytes.len()
            invariant
                i <= self.bytes@.len(),
                bytes@ == self.bytes@.take(i as int),
            decreases self.bytes@.len() - i,
        {
            bytes.push(self.bytes[i]);
            i += 1;
        }
        Decimal { bytes }
    }
}

impl PartialEq for Decimal {
    fn eq(&self, other: &Self) -> (r: bool) {
        match order::compare_bytes(self.bytes.as_slice(), other.bytes.as_slice()) {
            Order::Equal => true,
            _ => false,
        }
    }
}

impl vstd::std_specs::cmp::PartialEqSpecImpl for Decimal {
    open spec fn obeys_eq_spec() -> bool {
        true
    }

    open spec fn eq_spec(&self, other: &Self) -> bool {
        self@ == other@
    }
}

impl PartialOrd for Decimal {
    fn partial_cmp(&self, other: &Self) -> (r: Option<Ordering>) {
        Some(self.cmp(other))
    }
}

impl vstd::std_specs::cmp::PartialOrdSpecImpl for Decimal {
    open spec fn obeys_partial_cmp_spec() -> bool {
        true
    }

    open spec fn partial_cmp_spec(&self, other: &Self) -> Option<Ordering> {
        Some(ordering(order::bytes_order(self@, other@)))
    }
}

impl Default for Decimal {
    /// Zero.
    fn default() -> (r: Self)
        ensures
            r.canonical(),
            r.value() == Value::Finite(value::zero_parts()),
    {
        proof {
            crate::roundtrip::law_decode_encode(Value::Finite(value::zero_parts()));
        }
        let mut bytes: Vec<u8> = Vec::new();
        bytes.push(encoding::SIGN_ZERO);
        assert(bytes@ =~= seq![encoding::SIGN_ZERO]);
        Decimal { bytes }
    }
}

impl std::str::FromStr for Decimal {
    type Err = DecimalError;

    fn from_str(s: &str) -> (r: Result<Self, DecimalError>)
        ensures
            match r {
                Ok(d) => parse::parse_value(s@) == Ok::<Value, ErrorView>(d.value())
                    && d.canonical(),
                Err(e) => parse::parse_value(s@) == Err::<Value, ErrorView>(e@),
            },
    {
        Decimal::from_str(s)
    }
}

impl From<i8> for Decimal {
    fn from(value: i8) -> (r: Self)
        ensures
            r.canonical(),
            r.value() == Value::Finite(value::scaled_parts(value as int, 0)),
    {
        Decimal::from_integer(value as i128)
    }
}

impl vstd::std_specs::convert::FromSpecImpl<i8> for Decimal {
    open spec fn obeys_from_spec() -> bool {
        false
    }

    open spec fn from_spec(value: i8) -> Self {
        arbitrary()
    }
}

impl From<i16> for Decimal {
    fn from(value: i16) -> (r: Self)
        ensures
            r.canonical(),
            r.value() == Value::Finite(value::scaled_parts(value as int, 0)),
    {
        Decimal::from_integer(value as i128)
    }
}

impl vstd::std_specs::convert::FromSpecImpl<i16> for Decimal {
    open spec fn obeys_from_spec() -> bool {
        false
    }

    open spec fn from_spec(value: i16) -> Self {
        arbitrary()
    }
}

impl From<i32> for Decimal {
    fn from(value: i32) -> (r: Self)
        ensures
            r.canonical(),
            r.value() == Value::Finite(value::scaled_parts(value as int, 0)),
    {
        Decimal::from_integer(value as i128)
    }
}

impl vstd::std_specs::convert::FromSpecImpl<i32> for Decimal {
    open spec fn obeys_from_spec() -> bool {
        false
    }

    open spec fn from_spec(value: i32) -> Self {
        arbitrary()
    }
}

impl From<i64> for Decimal {
    fn from(value: i64) -> (r: Self)
        ensures
            r.canonical(),
            r.value() == Value::Finite(value::scaled_parts(value as int, 0)),
    {
        Decimal::from_integer(value as i128)
    }
}

impl vstd::std_specs::convert::FromSpecImpl<i64> for Decimal {
    open spec fn obeys_from_spec() -> bool {
        false
    }

    open spec fn from_spec(value: i64) -> Self {
        arbitrary()
    }
}

impl From<i128> for Decimal {
    fn from(value: i128) -> (r: Self)
        ensures
            r.canonical(),
            r.value() == Value::Finite(value::scaled_parts(value as int, 0)),
    {
        Decimal::from_integer(value)
    }
}

impl vstd::std_specs::convert::FromSpecImpl<i128> for Decimal {
    open spec fn obeys_from_spec() -> bool {
        false
    }

    open spec fn from_spec(value: i128) -> Self {
        arbitrary()
    }
}

impl From<u8> for Decimal {
    fn from(value: u8) -> (r: Self)
        ensures
            r.canonical(),
            r.value() == Value::Finite(value::scaled_parts(value as int, 0)),
    {
        Decimal::from_natural(value as u128)
    }
}

impl vstd::std_specs::convert::FromSpecImpl<u8> for Decimal {
    open spec fn obeys_from_spec() -> bool {
        false
    }

    open spec fn from_spec(value: u8) -> Self {
        arbitrary()
    }
}

impl From<u16> for Decimal {
    fn from(value: u16) -> (r: Self)
        ensures
            r.canonical(),
            r.value() == Value::Finite(value::scaled_parts(value as int, 0)),
    {
        Decimal::from_natural(value as u128)
    }
}

impl vstd::std_specs::convert::FromSpecImpl<u16> for Decimal {
    open spec fn obeys_from_spec() -> bool {
        false
    }

    open spec fn from_spec(value: u16) -> Self {
        arbitrary()
    }
}

impl From<u32> for Decimal {
    fn from(value: u32) -> (r: Self)
        ensures
            r.canonical(),
            r.value() == Value::Finite(value::scaled_parts(value as int, 0)),
    {
        Decimal::from_natural(value as u128)
    }
}

impl vstd::std_specs::convert::FromSpecImpl<u32> for Decimal {
    open spec fn obeys_from_spec() -> bool {
        false
    }

    open spec fn from_spec(value: u32) -> Self {
        arbitrary()
    }
}

impl From<u64> for Decimal {
    fn from(value: u64) -> (r: Self)
        ensures
            r.canonical(),
            r.value() == Value::Finite(value::scaled_parts(value as int, 0)),
    {
        Decimal::from_natural(value as u128)
    }
}

impl vstd::std_specs::convert::FromSpecImpl<u64> for Decimal {
    open spec fn obeys_from_spec() -> bool {
        false
    }

    open spec fn from_spec(value: u64) -> Self {
        arbitrary()
    }
}

impl From<u128> for Decimal {
    fn from(value: u128) -> (r: Self)
        ensures
            r.canonical(),
            r.value() == Value::Finite(value::scaled_parts(value as int, 0)),
    {
        Decimal::from_natural(value)
    }
}

impl vstd::std_specs::convert::FromSpecImpl<u128> for Decimal {
    open spec fn obeys_from_spec() -> bool {
        false
    }

    open spec fn from_spec(value: u128) -> Self {
        arbitrary()
    }
}

} // verus!
