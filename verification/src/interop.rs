//! Conversions to and from the decimals of the `rust_decimal` and `bigdecimal`
//! crates, which go through text. Their values are held here in plain parts.
use vstd::prelude::*;

use crate::decimal::Decimal;
use crate::decimal64;
use crate::decimal64_laws;
use crate::digits;
use crate::encoding;
use crate::error::DecimalError;
use crate::error::ErrorView;
use crate::numeral;
use crate::order;
use crate::parse;
use crate::rounding;
use crate::rounding_laws;
use crate::roundtrip;
use crate::special;
use crate::text;
use crate::value;
use crate::value::Parts;
use crate::value::Value;

verus! {

/// The error of `rust_decimal` for text that it refuses.
#[verifier::external_type_specification]
#[verifier::external_body]
pub struct ExRustDecimalError(rust_decimal::Error);

/// The error of `bigdecimal` for text that it refuses.
#[verifier::external_type_specification]
#[verifier::external_body]
pub struct ExParseBigDecimalError(bigdecimal::ParseBigDecimalError);

/// Why a decimal could not be converted.
#[derive(Debug, Clone, Copy, PartialEq, Eq, Structural)]
pub enum ConversionError {
    /// `rust_decimal` does not hold the value.
    NotRustDecimal,
    /// `bigdecimal` does not hold the value.
    NotBigDecimal,
}

/// The greatest mantissa of a `rust_decimal` value: 96 bits.
pub const MAX_RUST_DECIMAL_MANTISSA: i128 = 0xFFFF_FFFF_FFFF_FFFF_FFFF_FFFF;

/// The greatest scale of a `rust_decimal` value.
pub const MAX_RUST_DECIMAL_SCALE: u32 = 28;

/// A `rust_decimal` value: `mantissa * 10^-scale`.
#[derive(Debug, Clone, Copy, PartialEq, Eq, Structural)]
pub struct RustDecimalParts {
    pub mantissa: i128,
    pub scale: u32,
}

impl RustDecimalParts {
    /// The mantissa fits 96 bits and the scale is at most 28.
    pub open spec fn wf(self) -> bool {
        &&& -MAX_RUST_DECIMAL_MANTISSA <= self.mantissa <= MAX_RUST_DECIMAL_MANTISSA
        &&& self.scale <= MAX_RUST_DECIMAL_SCALE
    }
}

/// A `bigdecimal` value: the integer of the digits times `10^-scale`.
#[derive(Debug, PartialEq)]
pub struct BigDecimalParts {
    pub negative: bool,
    pub digits: Vec<u8>,
    pub scale: i64,
}

impl BigDecimalParts {
    /// The digits are digits.
    pub open spec fn wf(&self) -> bool {
        digits::all_digits(self.digits@)
    }

    /// The number as normalized parts; an error where its exponent is out of range.
    pub open spec fn number(&self) -> Result<Parts, ErrorView> {
        big_number(self.negative, self.digits@, self.scale as int)
    }
}

/// The integer of the digits times `10^-scale` as normalized parts.
pub open spec fn big_number(negative: bool, ds: Seq<u8>, scale: int) -> Result<Parts, ErrorView> {
    parse::assemble(negative, numeral::numeral(ds), Seq::empty(), -scale)
}

/// The text is the name of a special value.
pub open spec fn is_special_name(s: Seq<char>) -> bool {
    s == "Infinity"@ || s == "-Infinity"@ || s == "NaN"@
}

/// A plain literal with at least one digit and no white space around it.
pub open spec fn is_number_text(s: Seq<char>) -> bool {
    rounding_laws::is_plain(s) && text::trim(s) == s && (rounding_laws::whole_of(s).len() > 0
        || rounding_laws::frac_of(s).len() > 0)
}

/// The integer part has no needless zero at its front.
pub open spec fn starts_short(s: Seq<char>) -> bool {
    rounding_laws::whole_of(s).len() <= 1 || rounding_laws::whole_of(s)[0] != '0'
}

/// A literal without the needless zeros at the front of its integer part.
pub open spec fn short_literal(t: Seq<char>) -> Seq<char> {
    let body = parse::unsigned_text(t);
    t.take(t.len() - body.len()) + rounding::short(text::before_point(body)) + body.skip(
        text::point(body) as int,
    )
}

/// The text of a value, a number without needless zeros at its front.
pub open spec fn short_value_text(v: Value) -> Seq<char> {
    match v {
        Value::Special(s) => special::special_text(s),
        Value::Finite(p) => short_literal(value::plain_text(p)),
    }
}

/// A literal that `rust_decimal` holds without rounding: its digits fit 96 bits, and
/// at most 28 of them are behind the point.
pub open spec fn fits_rust_decimal(s: Seq<char>) -> bool {
    is_number_text(s) && parse::literal_number(s) <= MAX_RUST_DECIMAL_MANTISSA
        && rounding_laws::frac_of(s).len() <= MAX_RUST_DECIMAL_SCALE
}

/// The digits of a literal without the point, with its sign, and the number of
/// digits behind the point.
pub open spec fn reads_digits(reading: Option<(i128, u32)>, s: Seq<char>) -> bool {
    reading matches Some((mantissa, scale)) && mantissa == decimal64::signed(
        parse::literal_negative(s),
        parse::literal_number(s) as int,
    ) && scale == rounding_laws::frac_of(s).len()
}

/// The same, with the digits one by one.
pub open spec fn reads_big_digits(reading: Option<(bool, Vec<u8>, i64)>, s: Seq<char>) -> bool {
    reading matches Some((negative, ds, scale)) && digits::all_digits(ds@) && digits::number(ds@)
        == parse::literal_number(s) && negative == (parse::literal_negative(s)
        && parse::literal_number(s) > 0) && scale == rounding_laws::frac_of(s).len()
}

// ==================== Outside calls ====================

/// What `rust_decimal::Decimal::from_str` reads a text as: the mantissa and the
/// scale, or nothing where it refuses the text.
pub uninterp spec fn rust_decimal_reading(s: Seq<char>) -> Option<(i128, u32)>;

/// Calls `from_str` of `rust_decimal::Decimal`. It depends on the text alone. A
/// literal that fits is read digit by digit, a longer fraction is rounded, and the
/// names of special values are refused. How a literal that does not fit is read is
/// not spelled out here. It calls itself for every leading zero, so that there must be no
/// needless one.
#[verifier::external_body]
fn read_rust_decimal(s: &str) -> (r: Result<(i128, u32), rust_decimal::Error>)
    requires
        (is_number_text(s@) && starts_short(s@)) || is_special_name(s@),
    ensures
        r.ok() == rust_decimal_reading(s@),
        r.ok() matches Some(x) ==> (RustDecimalParts { mantissa: x.0, scale: x.1 }).wf(),
        fits_rust_decimal(s@) ==> reads_digits(r.ok(), s@),
        is_special_name(s@) ==> r.is_err(),
{
    match <rust_decimal::Decimal as std::str::FromStr>::from_str(s) {
        Ok(d) => Ok((d.mantissa(), d.scale())),
        Err(e) => Err(e),
    }
}

/// Calls `to_string` on the `rust_decimal::Decimal` with the given mantissa and scale:
/// positional notation with exactly `scale` digits behind the point, none of them left
/// out.
#[verifier::external_body]
fn rust_decimal_text(mantissa: i128, scale: u32) -> (r: String)
    requires
        -MAX_RUST_DECIMAL_MANTISSA <= mantissa <= MAX_RUST_DECIMAL_MANTISSA,
        scale <= MAX_RUST_DECIMAL_SCALE,
    ensures
        r@ == value::fixed_text(
            value::plain_text(value::scaled_parts(mantissa as int, scale as int)),
            scale as int,
        ),
{
    rust_decimal::Decimal::from_i128_with_scale(mantissa, scale).to_string()
}

/// Calls `from_str` of `bigdecimal::BigDecimal`: a literal is read as the integer of
/// its digits without the point, with the number of digits behind the point as the
/// scale, and the names of special values are refused.
#[verifier::external_body]
fn read_big_decimal(s: &str) -> (r: Result<
    (bool, Vec<u8>, i64),
    bigdecimal::ParseBigDecimalError,
>)
    requires
        is_number_text(s@) || is_special_name(s@),
    ensures
        is_number_text(s@) ==> reads_big_digits(r.ok(), s@),
        is_special_name(s@) ==> r.is_err(),
{
    let (integer, scale) = match <bigdecimal::BigDecimal as std::str::FromStr>::from_str(s) {
        Ok(d) => d.into_bigint_and_exponent(),
        Err(e) => {
            return Err(e);
        },
    };
    let (sign, ds) = integer.to_radix_be(10);
    match sign {
        bigdecimal::num_bigint::Sign::Minus => Ok((true, ds, scale)),
        bigdecimal::num_bigint::Sign::NoSign => Ok((false, ds, scale)),
        bigdecimal::num_bigint::Sign::Plus => Ok((false, ds, scale)),
    }
}

/// Calls `to_string` on the `bigdecimal::BigDecimal` with the given digits and scale.
/// Whether the text is in positional or in scientific notation depends on the size of
/// the number and on how that crate was built; either way it is a literal of the
/// number.
#[verifier::external_body]
fn big_decimal_text(negative: bool, ds: &[u8], scale: i64) -> (r: String)
    requires
        digits::all_digits(ds@),
    ensures
        special::special_of_text(r@) is None,
        parse::parse_text(r@) == big_number(negative, ds@, scale as int),
{
    let sign = if negative {
        bigdecimal::num_bigint::Sign::Minus
    } else {
        bigdecimal::num_bigint::Sign::Plus
    };
    let integer = bigdecimal::num_bigint::BigInt::from_radix_be(sign, ds, 10).unwrap();
    bigdecimal::BigDecimal::new(integer, scale).to_string()
}

// ==================== Conversions ====================

/// The text of a decimal is a number or the name of a special value.
proof fn lemma_decimal_text(d: Decimal)
    requires
        d.valid(),
    ensures
        match d.value() {
            Value::Special(_) => is_special_name(value::value_text(d.value())),
            Value::Finite(p) => is_number_text(value::value_text(d.value()))
                && digits::all_digits(p.digits),
        },
{
    if let Value::Finite(p) = d.value() {
        encoding::lemma_decoded_digits(d@);
        lemma_number_text(p);
    }
}

/// The text of a number is a plain literal.
proof fn lemma_number_text(p: Parts)
    requires
        digits::all_digits(p.digits),
    ensures
        is_number_text(value::plain_text(p)),
{
    roundtrip::lemma_plain_shape(p);
    rounding_laws::lemma_no_point(roundtrip::plain_frac(p));
    roundtrip::lemma_no_special(value::plain_text(p));
}

/// A literal without needless zeros has all of its other digits.
pub proof fn lemma_short_literal(negative: bool, w: Seq<char>, f: Seq<char>, pointed: bool)
    requires
        numeral::is_numeral(w),
        w.len() > 0,
        numeral::is_numeral(f),
        !pointed ==> f.len() == 0,
    ensures
        short_literal(roundtrip::literal_text(negative, w, f, pointed)) == roundtrip::literal_text(
            negative,
            rounding::short(w),
            f,
            pointed,
        ),
{
    let t = roundtrip::literal_text(negative, w, f, pointed);
    let body = roundtrip::literal_text(false, w, f, pointed);
    roundtrip::lemma_literal_point(negative, w, f, pointed);
    assert(text::is_digit(w[0]));
    assert(t[if negative { 1 } else { 0int }] == w[0]);
    assert(parse::unsigned_text(t) =~= body);
    text::lemma_point(body);
    assert(text::point(body) == w.len());
    assert(short_literal(t) =~= roundtrip::literal_text(negative, rounding::short(w), f, pointed));
}

/// The text of a number without needless zeros at its front is a plain literal, and that
/// of a normalized number has none.
proof fn lemma_short_text(p: Parts)
    requires
        digits::all_digits(p.digits),
    ensures
        is_number_text(short_literal(value::plain_text(p))),
        starts_short(short_literal(value::plain_text(p))),
        p.wf() ==> short_literal(value::plain_text(p)) == value::plain_text(p),
{
    let w = roundtrip::plain_whole(p);
    let f = roundtrip::plain_frac(p);
    let negative = p.negative && p.digits.len() > 0;
    let pointed = f.len() > 0;
    let short = rounding::short(w);
    roundtrip::lemma_plain_shape(p);
    lemma_short_literal(negative, w, f, pointed);
    rounding_laws::lemma_short(w);
    numeral::lemma_skip_zeros(w);
    lemma_literal_number_text(negative, short, f, pointed);
    if p.wf() {
        lemma_normal_whole(p);
    }
}

/// Digits around a point are the text of a number.
proof fn lemma_literal_number_text(negative: bool, w: Seq<char>, f: Seq<char>, pointed: bool)
    requires
        numeral::is_numeral(w),
        w.len() > 0,
        numeral::is_numeral(f),
        pointed == (f.len() > 0),
    ensures
        is_number_text(roundtrip::literal_text(negative, w, f, pointed)),
        rounding_laws::whole_of(roundtrip::literal_text(negative, w, f, pointed)) == w,
{
    let s = roundtrip::literal_text(negative, w, f, pointed);
    roundtrip::lemma_plain_literal(negative, w, f, pointed);
    rounding_laws::lemma_no_point(f);
    assert(text::is_digit(w[0]));
    assert(s[if negative { 1 } else { 0int }] == w[0]);
    if pointed {
        assert(s.last() == f.last());
        assert(text::is_digit(f[f.len() - 1]));
    } else {
        assert(s.last() == w.last());
        assert(text::is_digit(w[w.len() - 1]));
    }
    roundtrip::lemma_no_special(s);
}

/// The integer part of a normalized number has no needless zeros.
proof fn lemma_normal_whole(p: Parts)
    requires
        p.wf(),
    ensures
        rounding::short(roundtrip::plain_whole(p)) == roundtrip::plain_whole(p),
{
    let w = roundtrip::plain_whole(p);
    if p.digits.len() > 0 && p.exponent > 0 {
        numeral::lemma_numeral(p.digits);
        assert(w[0] == numeral::numeral(p.digits)[0]);
        assert(p.digits[0] != 0 && p.digits[0] <= 9);
    } else {
        reveal_with_fuel(text::skip_zeros, 2);
        assert(text::skip_zeros(w) =~= Seq::<char>::empty());
    }
}

/// A literal without the needless zeros at the front of its integer part.
fn shortened(s: &str) -> (r: String)
    ensures
        r@ == short_literal(s@),
{
    let v: Vec<char> = text::chars_of(s);
    let start: usize = if v.len() > 0 && (v[0] == '-' || v[0] == '+') {
        1
    } else {
        0
    };
    let body: Vec<char> = text::copy_range(&v, start, v.len());
    assert(body@ =~= parse::unsigned_text(v@));
    let p: usize = text::point_index(&body);
    let before: Vec<char> = text::copy_range(&body, 0, p);
    let rest: Vec<char> = text::copy_range(&body, p, body.len());
    let whole: Vec<char> = rounding::short_chars(&before);
    let mut out: Vec<char> = text::copy_range(&v, 0, start);
    text::append_all(&mut out, &whole);
    text::append_all(&mut out, &rest);
    assert(before@ =~= text::before_point(body@));
    assert(out@ =~= short_literal(v@));
    text::string_of(&out)
}

/// The text that `rust_decimal` is given to read: that of the decimal, a number without
/// needless zeros at its front.
pub fn short_string(d: &Decimal) -> (r: String)
    requires
        d.valid(),
    ensures
        r@ == short_value_text(d.value()),
{
    if d.is_special() {
        d.to_string()
    } else {
        shortened(d.to_string().as_str())
    }
}

/// A decimal as a `rust_decimal` value. A number that fits, with at most 28 digits
/// behind the point and all digits in 96 bits, keeps its value; others are rounded
/// or refused as `rust_decimal` does, and special values are refused.
pub fn to_rust_decimal(d: &Decimal) -> (r: Result<RustDecimalParts, ConversionError>)
    requires
        d.valid(),
    ensures
        match r {
            Ok(x) => x.wf() && rust_decimal_reading(short_value_text(d.value())) == Some(
                (x.mantissa, x.scale),
            ),
            Err(e) => e == ConversionError::NotRustDecimal && rust_decimal_reading(
                short_value_text(d.value()),
            ) is None,
        },
        d.value() is Special ==> r is Err,
        d.value() matches Value::Finite(p) ==> (p.wf() && fits_rust_decimal(value::plain_text(p))
            ==> (r matches Ok(x) && value::scaled_parts(x.mantissa as int, x.scale as int) == p)),
{
    let s: String = short_string(d);
    proof {
        lemma_decimal_text(*d);
        if let Value::Finite(p) = d.value() {
            lemma_short_text(p);
        }
    }
    match read_rust_decimal(s.as_str()) {
        Ok((mantissa, scale)) => {
            proof {
                if let Value::Finite(p) = d.value() {
                    if p.wf() && fits_rust_decimal(s@) {
                        lemma_same_number(p, mantissa as int, scale as int);
                    }
                }
            }
            Ok(RustDecimalParts { mantissa, scale })
        },
        Err(_) => Err(ConversionError::NotRustDecimal),
    }
}

/// The digits and the scale that the text of a number gives are its parts.
proof fn lemma_same_number(p: Parts, m: int, scale: int)
    requires
        p.wf(),
        m == decimal64::signed(
            parse::literal_negative(value::plain_text(p)),
            parse::literal_number(value::plain_text(p)) as int,
        ),
        scale == rounding_laws::frac_of(value::plain_text(p)).len(),
        -MAX_RUST_DECIMAL_MANTISSA <= m <= MAX_RUST_DECIMAL_MANTISSA,
        scale <= MAX_RUST_DECIMAL_SCALE,
    ensures
        value::scaled_parts(m, scale) == p,
{
    let s = value::plain_text(p);
    let q = value::scaled_parts(m, scale);
    roundtrip::law_text_round_trip(Value::Finite(p));
    roundtrip::lemma_plain_shape(p);
    value::law_scaled_parts(m, scale);
    parse::lemma_literal_unit(s);
    assert(parse::literal_unit(s) == -scale);
    parse::law_literal_value(s, -scale);
    let one = digits::pow10(0);
    let n = parse::literal_number(s);
    assert(n * one == n) by (nonlinear_arith)
        requires
            one == 1,
    ;
    assert(p.scaled(-scale) == m);
    lemma_scaled_wf(m, scale);
    if m == 0 {
        let d = digits::pow10((q.unit() + scale) as nat);
        assert(digits::number(q.digits) == 0);
        assert(0nat * d == 0) by (nonlinear_arith);
    }
    order::lemma_parts_lt_unit(q, p, -scale);
}

/// A `rust_decimal` value has an exponent in range.
proof fn lemma_scaled_wf(m: int, scale: int)
    requires
        -MAX_RUST_DECIMAL_MANTISSA <= m <= MAX_RUST_DECIMAL_MANTISSA,
        0 <= scale <= MAX_RUST_DECIMAL_SCALE,
    ensures
        value::scaled_parts(m, scale).wf(),
{
    value::law_scaled_parts(m, scale);
    if m != 0 {
        let n = (if m < 0 { -m } else { m }) as nat;
        numeral::lemma_nat_text_len(n, 30);
        assert(n < digits::pow10(30)) by {
            reveal_with_fuel(digits::pow10, 31);
        }
    }
}

/// The text of the decimal of a `rust_decimal` value fits that type, so that the value
/// keeps its number on the way there and back.
pub proof fn law_rust_decimal_kept(x: RustDecimalParts)
    requires
        x.wf(),
    ensures
        ({
            let p = value::scaled_parts(x.mantissa as int, x.scale as int);
            p.wf() && fits_rust_decimal(value::plain_text(p))
        }),
{
    let m = x.mantissa as int;
    let p = value::scaled_parts(m, x.scale as int);
    let s = value::plain_text(p);
    lemma_scaled_wf(m, x.scale as int);
    lemma_number_text(p);
    decimal64_laws::lemma_scaled_text(m, x.scale as nat);
    let n = parse::literal_number(s);
    let k = (x.scale - rounding_laws::frac_of(s).len()) as nat;
    let z = digits::pow10(k);
    digits::lemma_pow10_pos(k);
    assert(n <= n * z) by (nonlinear_arith)
        requires
            z >= 1,
    ;
}

/// The decimal of a `rust_decimal` value.
pub fn from_rust_decimal(x: RustDecimalParts) -> (r: Result<Decimal, DecimalError>)
    requires
        x.wf(),
    ensures
        r matches Ok(d) && d.canonical() && d.value() == Value::Finite(
            value::scaled_parts(x.mantissa as int, x.scale as int),
        ),
{
    let s: String = rust_decimal_text(x.mantissa, x.scale);
    proof {
        lemma_scaled_wf(x.mantissa as int, x.scale as int);
        roundtrip::lemma_scaled_frac(x.mantissa as int, x.scale as int);
        roundtrip::law_scaled_text_read(
            Value::Finite(value::scaled_parts(x.mantissa as int, x.scale as int)),
            x.scale as int,
        );
    }
    Decimal::from_str(s.as_str())
}

/// A decimal as a `bigdecimal` value, which holds every number and no special value.
pub fn to_big_decimal(d: &Decimal) -> (r: Result<BigDecimalParts, ConversionError>)
    requires
        d.valid(),
    ensures
        match d.value() {
            Value::Special(_) => r == Err::<BigDecimalParts, ConversionError>(
                ConversionError::NotBigDecimal,
            ),
            Value::Finite(p) => r matches Ok(x) && x.wf() && digits::number(x.digits@)
                == parse::literal_number(value::plain_text(p)) && x.negative == (p.negative
                && digits::number(x.digits@) > 0) && x.scale == roundtrip::plain_frac(p).len() && (
            p.wf() ==> x.number() == Ok::<Parts, ErrorView>(p)),
        },
{
    let s: String = d.to_string();
    proof {
        lemma_decimal_text(*d);
    }
    match read_big_decimal(s.as_str()) {
        Ok((negative, ds, scale)) => {
            proof {
                if let Value::Finite(p) = d.value() {
                    roundtrip::lemma_plain_shape(p);
                    if p.digits.len() == 0 {
                        assert(roundtrip::plain_whole(p) + roundtrip::plain_frac(p) =~= seq!['0']);
                        assert(numeral::values(seq!['0']) =~= digits::zero_digits(1));
                        digits::lemma_number_zeros(1);
                    }
                    if p.wf() {
                        lemma_big_number(p, negative, ds@, scale as int);
                    }
                }
            }
            Ok(BigDecimalParts { negative, digits: ds, scale })
        },
        Err(_) => Err(ConversionError::NotBigDecimal),
    }
}

/// Digits of one number give the same parts, whatever their leading zeros.
proof fn lemma_big_number(p: Parts, negative: bool, ds: Seq<u8>, scale: int)
    requires
        p.wf(),
        digits::all_digits(ds),
        digits::number(ds) == parse::literal_number(value::plain_text(p)),
        negative == (p.negative && digits::number(ds) > 0),
        scale == roundtrip::plain_frac(p).len(),
    ensures
        big_number(negative, ds, scale) == Ok::<Parts, ErrorView>(p),
{
    let whole = roundtrip::plain_whole(p);
    let frac = roundtrip::plain_frac(p);
    roundtrip::law_text_round_trip(Value::Finite(p));
    roundtrip::lemma_plain_shape(p);
    assert(parse::literal_number(value::plain_text(p)) == numeral::text_number(whole + frac));
    lemma_same_assembled(negative, whole, frac, ds);
    lemma_same_assembled(p.negative && p.digits.len() > 0, whole, frac, ds);
}

/// Digits of one number are assembled to the same parts; the sign of zero does not count.
#[verifier::rlimit(40)]
proof fn lemma_same_assembled(negative: bool, whole: Seq<char>, frac: Seq<char>, ds: Seq<u8>)
    requires
        numeral::is_numeral(whole),
        numeral::is_numeral(frac),
        digits::all_digits(ds),
        digits::number(ds) == numeral::text_number(whole + frac),
    ensures
        big_number(negative, ds, frac.len() as int) == parse::assemble(negative, whole, frac, 0),
        digits::number(ds) == 0 ==> parse::assemble(negative, whole, frac, 0) == Ok::<
            Parts,
            ErrorView,
        >(value::zero_parts()),
        digits::number(ds) > 0 ==> parse::assemble(negative, whole, frac, 0) != Ok::<
            Parts,
            ErrorView,
        >(value::zero_parts()),
{
    lemma_same_lead(whole, frac, ds);
}

/// Digits of one number have the same digits behind their leading zeros.
#[verifier::rlimit(40)]
proof fn lemma_same_lead(whole: Seq<char>, frac: Seq<char>, ds: Seq<u8>)
    requires
        numeral::is_numeral(whole),
        numeral::is_numeral(frac),
        digits::all_digits(ds),
        digits::number(ds) == numeral::text_number(whole + frac),
    ensures
        ({
            let es = numeral::values(whole + frac);
            let lead = digits::strip_leading(es);
            &&& numeral::values(numeral::numeral(ds) + Seq::<char>::empty()) == ds
            &&& numeral::numeral(ds).len() == ds.len()
            &&& es.len() == whole.len() + frac.len()
            &&& digits::strip_leading(ds) == lead
            &&& lead.len() == 0 <==> digits::number(ds) == 0
            &&& lead.len() > 0 ==> digits::strip_trailing(lead).len() > 0
        }),
{
    let es = numeral::values(whole + frac);
    rounding_laws::lemma_numeral_concat(whole, frac);
    numeral::lemma_values(whole + frac);
    digits::lemma_strip_leading(ds);
    digits::lemma_strip_leading(es);
    let a = digits::strip_leading(ds);
    let b = digits::strip_leading(es);
    lemma_same_digits(a, b);
    numeral::lemma_numeral(ds);
    assert(numeral::numeral(ds) + Seq::<char>::empty() =~= numeral::numeral(ds));
    digits::lemma_strip_trailing(b);
    if b.len() > 0 && digits::strip_trailing(b).len() == 0 {
        assert(b[0] == digits::zero_digits(b.len())[0]);
    }
}

/// Digits without leading zeros are determined by their number.
proof fn lemma_same_digits(a: Seq<u8>, b: Seq<u8>)
    requires
        digits::all_digits(a),
        digits::all_digits(b),
        a.len() > 0 ==> a[0] != 0,
        b.len() > 0 ==> b[0] != 0,
        digits::number(a) == digits::number(b),
    ensures
        a == b,
    decreases a.len(),
{
    if a.len() == 0 || b.len() == 0 {
        if a.len() > 0 {
            digits::lemma_number_lower(a);
            digits::lemma_pow10_pos((a.len() - 1) as nat);
        }
        if b.len() > 0 {
            digits::lemma_number_lower(b);
            digits::lemma_pow10_pos((b.len() - 1) as nat);
        }
        assert(a =~= b);
    } else {
        assert(a.last() == b.last()) by {
            assert(a[a.len() - 1] <= 9 && b[b.len() - 1] <= 9);
        }
        let c = a.drop_last();
        let d = b.drop_last();
        assert(digits::all_digits(c)) by {
            assert forall|i: int| 0 <= i < c.len() implies #[trigger] c[i] <= 9 by {
                assert(a[i] <= 9);
            }
        }
        assert(digits::all_digits(d)) by {
            assert forall|i: int| 0 <= i < d.len() implies #[trigger] d[i] <= 9 by {
                assert(b[i] <= 9);
            }
        }
        lemma_same_digits(c, d);
        assert(a =~= c.push(a.last()));
        assert(b =~= d.push(b.last()));
    }
}

/// The decimal of a `bigdecimal` value; an error where its exponent is out of range.
pub fn from_big_decimal(x: &BigDecimalParts) -> (r: Result<Decimal, DecimalError>)
    requires
        x.wf(),
    ensures
        match r {
            Ok(d) => d.canonical() && d.value() is Finite && x.number() == Ok::<Parts, ErrorView>(
                d.value()->Finite_0,
            ),
            Err(e) => x.number() == Err::<Parts, ErrorView>(e@),
        },
{
    let s: String = big_decimal_text(x.negative, x.digits.as_slice(), x.scale);
    Decimal::from_str(s.as_str())
}

} // verus!
