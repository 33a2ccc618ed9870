//! What holds of decimals held as bytes.
use vstd::prelude::*;
use vstd::std_specs::cmp::{PartialEqSpec, PartialOrdSpec};
use std::cmp::Ordering;

use crate::decimal::Decimal;
use crate::decimal64::Decimal64;
use crate::decimal64_laws;
use crate::decimal64_no_scale::Decimal64NoScale;
use crate::digits;
use crate::encoding;
use crate::error::ErrorView;
use crate::literal;
use crate::literal::Literal;
use crate::numeral;
use crate::numeric_laws;
use crate::order;
use crate::parse;
use crate::rounding;
use crate::rounding_laws;
use crate::roundtrip;
use crate::special::SpecialValue;
use crate::text;
use crate::value;
use crate::value::Value;

verus! {

/// Comparing the bytes of two decimals compares their values, and decimals are
/// equal exactly where their values are; NaN is equal to itself and above all
/// others.
pub proof fn law_order(a: Decimal, b: Decimal)
    requires
        a.canonical(),
        b.canonical(),
    ensures
        order::bytes_order(a@, b@) is Less <==> value::value_lt(a.value(), b.value()),
        order::bytes_order(a@, b@) is Equal <==> a.value() == b.value(),
        order::bytes_order(a@, b@) is Greater <==> value::value_lt(b.value(), a.value()),
        a@ == b@ <==> a.value() == b.value(),
{
    order::law_byte_order(a.value(), b.value());
    order::law_byte_order(b.value(), a.value());
    order::lemma_bytes_lt_total(a@, b@);
    order::lemma_bytes_lt_asymmetric(a@, b@);
}

/// The order of values is transitive.
pub proof fn law_order_transitive(a: Value, b: Value, c: Value)
    requires
        a.wf(),
        b.wf(),
        c.wf(),
        value::value_lt(a, b),
        value::value_lt(b, c),
    ensures
        value::value_lt(a, c),
{
    order::law_byte_order(a, b);
    order::law_byte_order(b, c);
    order::law_byte_order(a, c);
    order::lemma_bytes_lt_transitive(
        encoding::encode(a),
        encoding::encode(b),
        encoding::encode(c),
    );
}

/// A decimal is read back from its bytes, from the bytes of the older layout, and
/// from its text, also with zeros added behind the point.
pub proof fn law_round_trips(d: Decimal, scale: int)
    requires
        d.canonical(),
    ensures
        encoding::canonical_bytes(d@) == Ok::<Seq<u8>, ErrorView>(d@),
        encoding::legacy_bytes(d@) matches Ok(b) && encoding::canonical_bytes(b) == Ok::<
            Seq<u8>,
            ErrorView,
        >(d@),
        parse::parse_value(value::value_text(d.value())) == Ok::<Value, ErrorView>(d.value()),
        parse::encoded_text(value::value_text(d.value())) == Ok::<Seq<u8>, ErrorView>(d@),
        (d.value() matches Value::Finite(p) ==> scale <= 0 || roundtrip::plain_frac(p).len()
            <= scale) ==> parse::parse_value(value::scaled_text(d.value(), scale)) == Ok::<
            Value,
            ErrorView,
        >(d.value()),
{
    roundtrip::law_legacy_round_trip(d.value());
    roundtrip::law_text_round_trip(d.value());
    if d.value() matches Value::Finite(p) ==> scale <= 0 || roundtrip::plain_frac(p).len() <= scale {
        roundtrip::law_scaled_text_read(d.value(), scale);
    }
}

/// A literal with at most 131072 digits before its point, leading zeros aside, and at
/// most 16383 behind it is accepted.
pub proof fn law_accepted(s: Seq<char>)
    requires
        rounding_laws::is_plain(s),
        text::skip_zeros(rounding_laws::whole_of(s)).len() <= value::MAX_EXPONENT,
        rounding_laws::frac_of(s).len() <= -value::MIN_EXPONENT,
    ensures
        parse::parse_value(s) is Ok,
{
    let w = rounding_laws::whole_of(s);
    let f = rounding_laws::frac_of(s);
    let ds = numeral::values(w + f);
    let lead = digits::strip_leading(ds);
    let r = ds.len() - lead.len();
    let z = w.len() - text::skip_zeros(w).len();
    rounding_laws::lemma_plain_not_special(s);
    numeral::lemma_skip_zeros(w);
    digits::lemma_strip_leading(ds);
    if lead.len() > 0 && r < z {
        assert(ds[r] == lead[0]);
        assert(w[r] == '0');
        assert((w + f)[r] == '0');
    }
}

/// Only zero has the bytes of zero. The sign byte of a negative number is also that
/// of negative infinity, and the one of a positive number also that of positive
/// infinity and NaN.
pub proof fn law_sign_byte(d: Decimal)
    requires
        d.canonical(),
    ensures
        d@ == seq![encoding::SIGN_ZERO] <==> d.value() == Value::Finite(value::zero_parts()),
        d@.len() > 0,
        d@[0] == encoding::SIGN_NEGATIVE <==> d.value() == Value::Special(SpecialValue::NegInfinity)
            || (d.value() matches Value::Finite(p) && p.negative),
        d@[0] == encoding::SIGN_POSITIVE <==> d.value() == Value::Special(SpecialValue::Infinity)
            || d.value() == Value::Special(SpecialValue::NaN) || (d.value() matches Value::Finite(p)
            && p.digits.len() > 0 && !p.negative),
{
    roundtrip::law_decode_encode(Value::Finite(value::zero_parts()));
    if let Value::Finite(p) = d.value() {
        if p.digits.len() > 0 {
            roundtrip::law_encoded_len(d.value());
        }
    }
}

/// An integer that a decimal is made from is its number.
pub proof fn law_integer(n: int, u: int)
    requires
        -0x8000_0000_0000_0000_0000_0000_0000_0000 <= n <= u128::MAX,
        u <= 0,
    ensures
        ({
            let p = value::scaled_parts(n, 0);
            &&& p.wf()
            &&& u <= p.unit()
            &&& p.scaled(u) == n * digits::pow10((-u) as nat)
        }),
{
    value::law_scaled_parts(n, 0);
    crate::decimal64_laws::lemma_count(n, 0, u);
    if n != 0 {
        let m = (if n < 0 { -n } else { n }) as nat;
        numeral::lemma_nat_text_len(m, 40);
        digits::lemma_u128_digits();
    }
}

/// A decimal that was read with a precision and a scale is the multiple of `10^-scale` that is
/// nearest to the number of the literal, a tie away from zero, with its sign, and of that the
/// last digits that the precision leaves room for.
pub proof fn law_cut(
    d: Decimal,
    a: Seq<char>,
    l: Literal,
    c: Seq<char>,
    precision: Option<u32>,
    scale: Option<i32>,
    v: int,
    r: nat,
)
    requires
        literal::blank(a),
        literal::blank(c),
        l.wf(),
        l.shift() == 0 || parse::parse_value(a + l.text() + c) is Ok,
        v <= l.unit(),
        v <= -scale.unwrap_or(0),
        numeric_laws::nearest(
            l.number() * digits::pow10((l.unit() - v) as nat),
            digits::pow10((-scale.unwrap_or(0) - v) as nat),
            r,
        ),
        rounding::constrained_bytes(a + l.text() + c, precision, scale) == Ok::<
            Seq<u8>,
            ErrorView,
        >(d@),
    ensures
        d.canonical(),
        literal::denotes(
            d.value(),
            l.minus(),
            numeric_laws::numeric_count(r, precision, scale.unwrap_or(0) as int),
            if scale.unwrap_or(0) < 0 {
                0
            } else {
                -scale.unwrap_or(0)
            },
        ),
{
    let n = numeric_laws::numeric_count(r, precision, scale.unwrap_or(0) as int);
    numeric_laws::lemma_takes(n);
    let k = if n == 0 {
        0
    } else {
        numeral::nat_text(n).len()
    };
    numeric_laws::law_numeric(a, l, c, precision, scale, v, r, k);
}

/// Decimals are equal, and ordered, as their values are.
pub proof fn law_operators(a: Decimal, b: Decimal)
    requires
        a.canonical(),
        b.canonical(),
    ensures
        a.eq_spec(&b) <==> a.value() == b.value(),
        a.partial_cmp_spec(&b) == Some(Ordering::Less) <==> value::value_lt(a.value(), b.value()),
        a.partial_cmp_spec(&b) == Some(Ordering::Equal) <==> a.value() == b.value(),
        a.partial_cmp_spec(&b) == Some(Ordering::Greater) <==> value::value_lt(
            b.value(),
            a.value(),
        ),
        a.partial_cmp_spec(&b) is Some,
{
    law_order(a, b);
}

/// Decimals of 64 bits are ordered as their values are.
pub proof fn law_fixed_operators(a: Decimal64, b: Decimal64)
    ensures
        a.partial_cmp_spec(&b) == Some(Ordering::Less) <==> value::value_lt(a.number(), b.number()),
        a.partial_cmp_spec(&b) == Some(Ordering::Equal) <==> a.number() == b.number(),
        a.partial_cmp_spec(&b) == Some(Ordering::Greater) <==> value::value_lt(
            b.number(),
            a.number(),
        ),
        a.partial_cmp_spec(&b) is Some,
{
    decimal64_laws::law_order(a, b);
}

/// Decimals of 64 bits whose scale is kept elsewhere are ordered as their raw integers are.
pub proof fn law_raw_operators(a: Decimal64NoScale, b: Decimal64NoScale)
    ensures
        a.partial_cmp_spec(&b) == Some(Ordering::Less) <==> a@ < b@,
        a.partial_cmp_spec(&b) == Some(Ordering::Equal) <==> a@ == b@,
        a.partial_cmp_spec(&b) == Some(Ordering::Greater) <==> a@ > b@,
        a.partial_cmp_spec(&b) is Some,
{
}

} // verus!
