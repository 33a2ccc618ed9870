//! Decimals in 64 bits with their scale.
//!
//! The high byte holds the scale (0 to 18) and the other seven bytes the value,
//! with `2^55` added to it, so that raw integers of one scale compare as the
//! numbers do. The special values are the ends of the 64-bit range.
use vstd::prelude::*;
use vstd::string::StringExecFns;
use std::cmp::Ordering;

use crate::decimal::Decimal;
use crate::decimal::ordering;
use crate::digits;
use crate::error::DecimalError;
use crate::error::ErrorView;
use crate::error::invalid_format;
use crate::fixed;
use crate::notation;
use crate::numeral;
use crate::order::Order;
use crate::parse;
use crate::rounding;
use crate::rounding_laws;
use crate::special;
use crate::special::SpecialValue;
use crate::text;
use crate::value;
use crate::value::Value;

verus! {

/// The greatest precision.
pub const MAX_DECIMAL64_PRECISION: u32 = 16;

/// The greatest scale.
pub const MAX_DECIMAL64_SCALE: u8 = 18;

/// The greatest value of 56 bits.
pub const MAX_VALUE: i64 = 36_028_797_018_963_967;

/// The least value of 56 bits.
pub const MIN_VALUE: i64 = -36_028_797_018_963_968;

/// What the scale is multiplied by: `2^56`.
pub const SCALE_UNIT: i64 = 0x100_0000_0000_0000;

/// What is added to the value: `2^55`.
pub const VALUE_BIAS: i64 = 0x80_0000_0000_0000;

/// Negative infinity.
pub const SENTINEL_NEG_INFINITY: i64 = -0x8000_0000_0000_0000;

/// Positive infinity.
pub const SENTINEL_POS_INFINITY: i64 = 0x7FFF_FFFF_FFFF_FFFE;

/// NaN.
pub const SENTINEL_NAN: i64 = 0x7FFF_FFFF_FFFF_FFFF;

/// A decimal of up to 16 digits with a scale from 0 to 18, or a special value.
#[derive(Debug, Clone, Copy, PartialEq, Eq, Structural, Hash)]
pub struct Decimal64 {
    packed: i64,
}

impl View for Decimal64 {
    type V = i64;

    closed spec fn view(&self) -> i64 {
        self.packed
    }
}

// ==================== What the bits mean ====================

/// The raw integer of `value * 10^-scale`.
pub open spec fn packed(value: int, scale: int) -> int {
    scale * SCALE_UNIT + value + VALUE_BIAS
}

/// The raw integer of a special value.
pub open spec fn sentinel(v: SpecialValue) -> i64 {
    match v {
        SpecialValue::NegInfinity => SENTINEL_NEG_INFINITY,
        SpecialValue::Infinity => SENTINEL_POS_INFINITY,
        SpecialValue::NaN => SENTINEL_NAN,
    }
}

/// What a text is read as.
pub enum Reading {
    Special(SpecialValue),
    /// The value and the scale.
    Number(int, int),
}

impl Reading {
    /// The raw integer of what was read.
    pub open spec fn raw(self) -> int {
        match self {
            Reading::Special(v) => sentinel(v) as int,
            Reading::Number(value, scale) => packed(value, scale),
        }
    }
}

impl Decimal64 {
    /// The special value that this is.
    pub open spec fn special_value(self) -> Option<SpecialValue> {
        if self@ == SENTINEL_NEG_INFINITY {
            Some(SpecialValue::NegInfinity)
        } else if self@ == SENTINEL_POS_INFINITY {
            Some(SpecialValue::Infinity)
        } else if self@ == SENTINEL_NAN {
            Some(SpecialValue::NaN)
        } else {
            None
        }
    }

    /// The value in the low seven bytes.
    pub open spec fn stored_value(self) -> int {
        self@ as int % SCALE_UNIT as int - VALUE_BIAS
    }

    /// The scale in the high byte.
    pub open spec fn stored_scale(self) -> int {
        self@ as int / SCALE_UNIT as int % 256
    }

    /// A special value, or a number with a scale that is allowed.
    pub open spec fn wf(self) -> bool {
        self.special_value() is Some || self.stored_scale() <= MAX_DECIMAL64_SCALE
    }

    /// The value that this stands for.
    pub open spec fn number(self) -> Value {
        match self.special_value() {
            Some(v) => Value::Special(v),
            None => Value::Finite(value::scaled_parts(self.stored_value(), self.stored_scale())),
        }
    }
}

/// The value fits 56 bits.
pub open spec fn in_range(value: int) -> bool {
    MIN_VALUE <= value <= MAX_VALUE
}

/// The reading of a value at a scale; an error where it does not fit.
pub open spec fn checked(value: int, scale: int) -> Result<Reading, ErrorView> {
    if in_range(value) {
        Ok(Reading::Number(value, scale))
    } else {
        Err(ErrorView::InvalidFormat("Value too large for Decimal64"@))
    }
}

/// `n`, or `-n` for a negative number.
pub open spec fn signed(negative: bool, n: int) -> int {
    if negative {
        -n
    } else {
        n
    }
}

/// An integer rounded to a multiple of `10^r`. What is kept of it counts as zero where it
/// is no integer.
pub open spec fn read_rounded(
    whole: Seq<char>,
    negative: bool,
    precision: Option<u32>,
    r: nat,
) -> Option<Result<Reading, ErrorView>> {
    let unit = digits::pow10(r) as int;
    if text::byte_len(whole) <= r {
        Some(
            checked(
                if rounding::reaches_half(whole, r) {
                    signed(negative, unit)
                } else {
                    0
                },
                0,
            ),
        )
    } else {
        match rounding::round_off(whole, r) {
            None => None,
            Some(kept) => match rounding::limit_significant(kept, precision) {
                None => None,
                Some(last) => Some(checked(signed(negative, fixed::part_value(last) * unit), 0)),
            },
        }
    }
}

/// `s` with zeros behind it, up to `n` characters.
pub open spec fn pad_end(s: Seq<char>, n: nat) -> Seq<char> {
    if s.len() < n {
        s + text::zeros((n - s.len()) as nat)
    } else {
        s
    }
}

/// Both sides of the point, the fraction rounded or filled to `scale` digits.
pub open spec fn fit_scale(whole: Seq<char>, frac: Seq<char>, scale: nat) -> Option<
    (Seq<char>, Seq<char>),
> {
    match rounding::round_right(whole, frac, scale) {
        None => None,
        Some((w, f)) => Some((w, pad_end(f, scale))),
    }
}

/// A number at a scale of zero or more. What is no integer, on either side of the point,
/// counts as zero.
pub open spec fn read_scaled(
    whole: Seq<char>,
    frac: Seq<char>,
    negative: bool,
    precision: Option<u32>,
    scale: nat,
) -> Option<Result<Reading, ErrorView>> {
    match fit_scale(whole, frac, scale) {
        None => None,
        Some((w, f)) => match rounding::limit_integer(w, precision, scale) {
            None => None,
            Some(last) => Some(
                checked(
                    signed(
                        negative,
                        fixed::part_value(last) * digits::pow10(scale) + fixed::part_value(f),
                    ),
                    scale as int,
                ),
            ),
        },
    }
}

/// What is wrong with a precision and a scale.
pub open spec fn constraint_error(precision: Option<u32>, scale: int) -> Option<ErrorView> {
    if precision matches Some(p) && p > MAX_DECIMAL64_PRECISION {
        Some(
            ErrorView::InvalidFormat(
                "Precision "@ + numeral::int_text(precision->0 as int)
                    + " exceeds maximum 16 for Decimal64"@,
            ),
        )
    } else if precision == Some(0u32) {
        Some(ErrorView::InvalidFormat("Precision must be at least 1"@))
    } else if scale > MAX_DECIMAL64_SCALE {
        Some(
            ErrorView::InvalidFormat(
                "Scale "@ + numeral::int_text(scale) + " exceeds maximum 18 for Decimal64"@,
            ),
        )
    } else {
        None
    }
}

/// What a text is read as with a precision and a scale. `None` where rounding would
/// count up a character that is no digit, or where a cut would fall inside a
/// character.
pub open spec fn read(s: Seq<char>, precision: Option<u32>, scale: Option<i32>) -> Option<
    Result<Reading, ErrorView>,
> {
    let sc = scale.unwrap_or(0) as int;
    let body = parse::unsigned_text(text::trim(s));
    let negative = parse::literal_negative(s);
    let whole = rounding::short(text::before_point(body));
    if constraint_error(precision, sc) is Some {
        Some(Err(constraint_error(precision, sc)->0))
    } else if special::special_of_text(s) is Some {
        Some(Ok(Reading::Special(special::special_of_text(s)->0)))
    } else if sc < 0 {
        read_rounded(whole, negative, precision, (-sc) as nat)
    } else {
        read_scaled(whole, text::after_point(body), negative, precision, sc as nat)
    }
}

/// The number of digits behind the point of a text, at most the greatest scale.
pub open spec fn detected_scale(s: Seq<char>) -> u8 {
    let n = digit_run(text::after_point(text::trim(s)));
    if n > MAX_DECIMAL64_SCALE {
        MAX_DECIMAL64_SCALE
    } else {
        n as u8
    }
}

/// The number of digits at the front of a text.
pub open spec fn digit_run(s: Seq<char>) -> nat
    decreases s.len(),
{
    if s.len() > 0 && text::is_digit(s[0]) {
        1 + digit_run(s.drop_first())
    } else {
        0
    }
}

/// The order of two decimals: the special values at their ends, and numbers by
/// their values brought to the greater scale.
pub open spec fn order_of(a: Decimal64, b: Decimal64) -> Order {
    if a.special_value() is None && b.special_value() is None {
        fixed::scaled_order(a.stored_value(), a.stored_scale(), b.stored_value(), b.stored_scale())
    } else {
        fixed::int_order(value::rank(a.number()), value::rank(b.number()))
    }
}

// ==================== Reading ====================

/// Fills `v` with zeros behind it, up to `n` characters.
fn padded_end(v: Vec<char>, n: usize) -> (r: Vec<char>)
    ensures
        r@ == pad_end(v@, n as nat),
{
    let mut out: Vec<char> = v;
    let have: usize = out.len();
    if have < n {
        text::append_zeros(&mut out, n - have);
    }
    out
}

/// Both sides of the point, the fraction rounded or filled to `scale` digits.
fn apply_scale(whole: &[char], frac: &[char], scale: usize) -> (r: Option<(Vec<char>, Vec<char>)>)
    ensures
        match r {
            Some((w, f)) => fit_scale(whole@, frac@, scale as nat) == Some((w@, f@)),
            None => fit_scale(whole@, frac@, scale as nat) is None,
        },
{
    match rounding::rounded_right(whole, frac, scale) {
        None => None,
        Some((w, f)) => Some((w, padded_end(f, scale))),
    }
}

/// The last digits of the integer that the precision leaves room for.
fn apply_precision(whole: Vec<char>, precision: Option<u32>, scale: usize) -> (r: Option<
    Vec<char>,
>)
    ensures
        match r {
            Some(w) => rounding::limit_integer(whole@, precision, scale as nat) == Some(w@),
            None => rounding::limit_integer(whole@, precision, scale as nat) is None,
        },
{
    rounding::limited_integer(whole, precision, scale)
}

fn too_large() -> (r: DecimalError)
    ensures
        r@ == ErrorView::InvalidFormat("Value too large for Decimal64"@),
{
    invalid_format("Value too large for Decimal64")
}

impl Decimal64 {
    // ==================== Packing ====================

    /// Packs a value and a scale.
    fn pack(value: i64, scale: u8) -> (r: Self)
        requires
            in_range(value as int),
            scale <= MAX_DECIMAL64_SCALE,
        ensures
            r@ == packed(value as int, scale as int),
            r.special_value() is None,
            r.stored_value() == value,
            r.stored_scale() == scale,
    {
        proof {
            lemma_packed(value as int, scale as int);
        }
        Decimal64 { packed: scale as i64 * SCALE_UNIT + (value + VALUE_BIAS) }
    }

    /// The high byte.
    fn scale_byte(&self) -> (r: u8)
        ensures
            r == self.stored_scale(),
    {
        let shifted: i128 = self.packed as i128 + 0x8000_0000_0000_0000;
        proof {
            let p = self.packed as int;
            let u = SCALE_UNIT as int;
            assert(shifted == p + 128 * u);
            vstd::arithmetic::div_mod::lemma_hoist_over_denominator(p, 128, u as nat);
        }
        ((shifted / SCALE_UNIT as i128 + 128) % 256) as u8
    }

    /// The value in the low seven bytes.
    fn unpack_value(&self) -> (r: i64)
        ensures
            r == self.stored_value(),
            in_range(r as int),
    {
        let shifted: i128 = self.packed as i128 + 0x8000_0000_0000_0000;
        proof {
            let p = self.packed as int;
            let u = SCALE_UNIT as int;
            assert(shifted == u * 128 + p);
            vstd::arithmetic::div_mod::lemma_mod_multiples_vanish(128, p, u);
        }
        (shifted % SCALE_UNIT as i128) as i64 - VALUE_BIAS
    }

    /// The value and scale, or an error where the value does not fit.
    fn checked_pack(value: i128, scale: u8) -> (r: Result<Self, DecimalError>)
        requires
            scale <= MAX_DECIMAL64_SCALE,
        ensures
            match r {
                Ok(d) => checked(value as int, scale as int) matches Ok(x) && d@ == x.raw(),
                Err(e) => checked(value as int, scale as int) == Err::<Reading, ErrorView>(e@),
            },
    {
        if value < MIN_VALUE as i128 || value > MAX_VALUE as i128 {
            Err(too_large())
        } else {
            Ok(Self::pack(value as i64, scale))
        }
    }

    /// An integer rounded to a multiple of `10^r`.
    fn parse_negative_scale(
        whole: &[char],
        is_negative: bool,
        precision: Option<u32>,
        r: usize,
    ) -> (out: Option<Result<Self, DecimalError>>)
        requires
            r > 0,
        ensures
            agrees(out, read_rounded(whole@, is_negative, precision, r as nat)),
    {
        let ghost unit = digits::pow10(r as nat) as int;
        let ghost exact: int;
        let kept: i128;
        if !text::longer_than(whole, r) {
            kept = if rounding::at_least_half(whole, r) {
                1
            } else {
                0
            };
            proof {
                exact = kept as int;
                assert(1 * unit == unit && 0 * unit == 0) by (nonlinear_arith);
            }
        } else {
            let head: Vec<char> = match rounding::rounded_off(whole, r) {
                None => {
                    return None;
                },
                Some(head) => head,
            };
            let last: Vec<char> = match rounding::limited_significant(&head, precision) {
                None => {
                    return None;
                },
                Some(last) => last,
            };
            kept = fixed::read_part(&last);
            proof {
                exact = fixed::part_value(last@);
            }
        }
        assert(kept == numeral::clamped(exact));
        proof {
            digits::lemma_pow10_pos(r as nat);
            lemma_times_bound(exact, unit);
        }
        if kept < -1_000_000_000_000_000_000 || kept > 1_000_000_000_000_000_000 {
            return Some(Err(too_large()));
        }
        match fixed::times_power(kept as i64, r) {
            None => Some(Err(too_large())),
            Some(n) => Some(
                Self::checked_pack(
                    if is_negative {
                        -n
                    } else {
                        n
                    },
                    0,
                ),
            ),
        }
    }

    /// A number from the text on both sides of the point.
    fn parts_to_packed(whole: &[char], frac: &[char], is_negative: bool, scale: u8) -> (r: Result<
        Self,
        DecimalError,
    >)
        requires
            scale <= MAX_DECIMAL64_SCALE,
            frac@.len() == scale,
        ensures
            agrees(
                Some(r),
                Some(
                    checked(
                        signed(
                            is_negative,
                            fixed::part_value(whole@) * digits::pow10(scale as nat)
                                + fixed::part_value(frac@),
                        ),
                        scale as int,
                    ),
                ),
            ),
    {
        let i: i128 = fixed::read_part(whole);
        let f: i128 = fixed::read_part(frac);
        let q: i128 = fixed::power_of_ten(scale as usize);
        proof {
            fixed::lemma_part_bound(frac@);
        }
        if i < -1_000_000_000_000_000_000 || i > 1_000_000_000_000_000_000 {
            proof {
                lemma_far(fixed::part_value(whole@), q as int, f as int);
            }
            return Err(too_large());
        }
        proof {
            assert(-1_000_000_000_000_000_000_000_000_000_000_000_000 <= i * q
                <= 1_000_000_000_000_000_000_000_000_000_000_000_000) by (nonlinear_arith)
                requires
                    1 <= q <= 1_000_000_000_000_000_000,
                    -1_000_000_000_000_000_000 <= i <= 1_000_000_000_000_000_000,
            ;
        }
        let n: i128 = i * q + f;
        Self::checked_pack(
            if is_negative {
                -n
            } else {
                n
            },
            scale,
        )
    }

    /// What is wrong with a precision and a scale.
    fn check_constraints(precision: Option<u32>, scale: i32) -> (r: Option<DecimalError>)
        ensures
            match r {
                Some(e) => constraint_error(precision, scale as int) == Some(e@),
                None => constraint_error(precision, scale as int) is None,
            },
    {
        if let Some(p) = precision {
            if p > MAX_DECIMAL64_PRECISION {
                let mut m: String = "Precision ".to_owned();
                m.append(numeral::int_string(p as i128).as_str());
                m.append(" exceeds maximum 16 for Decimal64");
                return Some(DecimalError::InvalidFormat(m));
            }
            if p == 0 {
                return Some(invalid_format("Precision must be at least 1"));
            }
        }
        if scale > MAX_DECIMAL64_SCALE as i32 {
            let mut m: String = "Scale ".to_owned();
            m.append(numeral::int_string(scale as i128).as_str());
            m.append(" exceeds maximum 18 for Decimal64");
            return Some(DecimalError::InvalidFormat(m));
        }
        None
    }

    // ==================== Constructors ====================

    /// Reads a decimal with a precision and a scale; `None` where that would count
    /// up a character that is no digit, or cut inside a character.
    pub fn try_with_precision_scale(s: &str, precision: Option<u32>, scale: Option<i32>) -> (r:
        Option<Result<Self, DecimalError>>)
        ensures
            agrees(r, read(s@, precision, scale)),
    {
        let sc: i32 = match scale {
            Some(sc) => sc,
            None => 0,
        };
        if let Some(e) = Self::check_constraints(precision, sc) {
            return Some(Err(e));
        }
        match special::parse_special_value(s) {
            Some(SpecialValue::NaN) => {
                return Some(Ok(Self::nan()));
            },
            Some(SpecialValue::Infinity) => {
                return Some(Ok(Self::infinity()));
            },
            Some(SpecialValue::NegInfinity) => {
                return Some(Ok(Self::neg_infinity()));
            },
            None => {},
        }
        let v: Vec<char> = text::chars_of(s);
        let t: Vec<char> = text::trimmed(&v);
        let is_negative: bool = t.len() > 0 && t[0] == '-';
        let start: usize = if t.len() > 0 && (t[0] == '-' || t[0] == '+') {
            1
        } else {
            0
        };
        let body: Vec<char> = text::copy_range(&t, start, t.len());
        assert(body@ =~= parse::unsigned_text(t@));
        let (before, frac) = text::split_point(&body);
        let whole: Vec<char> = rounding::short_chars(&before);
        if sc < 0 {
            return Self::parse_negative_scale(
                &whole,
                is_negative,
                precision,
                (-(sc as i64)) as usize,
            );
        }
        let (w, f) = match apply_scale(&whole, &frac, sc as usize) {
            None => {
                return None;
            },
            Some(parts) => parts,
        };
        let last: Vec<char> = match apply_precision(w, precision, sc as usize) {
            None => {
                return None;
            },
            Some(last) => last,
        };
        proof {
            lemma_fitted_len(whole@, frac@, sc as nat);
        }
        Some(Self::parts_to_packed(&last, &f, is_negative, sc as u8))
    }

    /// Reads a decimal with a precision (1 to 16 digits that are kept) and a scale
    /// (0 to 18 digits behind the point, or for a negative one the power of ten to
    /// round to).
    ///
    /// The characters that rounding counts up must be digits, and no cut may fall
    /// inside a character.
    pub fn with_precision_scale(s: &str, precision: Option<u32>, scale: Option<i32>) -> (r: Result<
        Self,
        DecimalError,
    >)
        requires
            read(s@, precision, scale) is Some,
        ensures
            agrees(Some(r), read(s@, precision, scale)),
    {
        Self::try_with_precision_scale(s, precision, scale).unwrap()
    }

    /// Reads a decimal with a scale.
    pub fn new(s: &str, scale: u8) -> (r: Result<Self, DecimalError>)
        requires
            read(s@, None, Some(scale as i32)) is Some,
        ensures
            agrees(Some(r), read(s@, None, Some(scale as i32))),
    {
        Self::with_precision_scale(s, None, Some(scale as i32))
    }

    /// The scale of a text: the number of digits behind its point, at most 18.
    pub fn detect_scale(s: &str) -> (r: u8)
        ensures
            r == detected_scale(s@),
    {
        let v: Vec<char> = text::chars_of(s);
        let t: Vec<char> = text::trimmed(&v);
        let (_, frac) = text::split_point(&t);
        let mut n: usize = 0;
        assert(frac@.skip(0) =~= frac@);
        while n < frac.len() && text::digit(frac[n])
            invariant
                n <= frac@.len(),
                digit_run(frac@) == n + digit_run(frac@.skip(n as int)),
            decreases frac@.len() - n,
        {
            assert(frac@.skip(n as int).drop_first() =~= frac@.skip(n + 1));
            n += 1;
        }
        if n > MAX_DECIMAL64_SCALE as usize {
            MAX_DECIMAL64_SCALE
        } else {
            n as u8
        }
    }

    /// Reads a decimal with the scale that its digits behind the point give.
    pub fn from_str(s: &str) -> (r: Result<Self, DecimalError>)
        requires
            read(s@, None, Some(detected_scale(s@) as i32)) is Some,
        ensures
            agrees(Some(r), read(s@, None, Some(detected_scale(s@) as i32))),
    {
        Self::new(s, Self::detect_scale(s))
    }

    /// The decimal `value * 10^-scale`.
    pub fn from_parts(value: i64, scale: u8) -> (r: Result<Self, DecimalError>)
        ensures
            r is Ok <==> scale <= 18 && -36_028_797_018_963_968 <= value <= 36_028_797_018_963_967,
            r matches Ok(d) ==> d.number() == Value::Finite(
                value::scaled_parts(value as int, scale as int),
            ),
            match r {
                Ok(d) => scale <= MAX_DECIMAL64_SCALE && in_range(value as int) && d@ == packed(
                    value as int,
                    scale as int,
                ) && d.special_value() is None && d.stored_value() == value && d.stored_scale()
                    == scale,
                Err(e) => if scale > MAX_DECIMAL64_SCALE {
                    e@ == ErrorView::InvalidFormat(
                        "Scale "@ + numeral::int_text(scale as int) + " exceeds maximum 18"@,
                    )
                } else {
                    !in_range(value as int) && e@ == ErrorView::InvalidFormat(
                        "Value "@ + numeral::int_text(value as int)
                            + " doesn't fit in 56 bits (range -36028797018963968 to 36028797018963967)"@,
                    )
                },
            },
    {
        if scale > MAX_DECIMAL64_SCALE {
            let mut m: String = "Scale ".to_owned();
            m.append(numeral::int_string(scale as i128).as_str());
            m.append(" exceeds maximum 18");
            return Err(DecimalError::InvalidFormat(m));
        }
        if value < MIN_VALUE || value > MAX_VALUE {
            let mut m: String = "Value ".to_owned();
            m.append(numeral::int_string(value as i128).as_str());
            m.append(" doesn't fit in 56 bits (range -36028797018963968 to 36028797018963967)");
            return Err(DecimalError::InvalidFormat(m));
        }
        Ok(Self::pack(value, scale))
    }

    /// The decimal with a raw integer, as `raw` gives it.
    pub fn from_raw(packed: i64) -> (r: Self)
        ensures
            r@ == packed,
    {
        Decimal64 { packed }
    }

    /// Positive infinity.
    pub fn infinity() -> (r: Self)
        ensures
            r@ == SENTINEL_POS_INFINITY,
            r.special_value() == Some(SpecialValue::Infinity),
    {
        Decimal64 { packed: SENTINEL_POS_INFINITY }
    }

    /// Negative infinity.
    pub fn neg_infinity() -> (r: Self)
        ensures
            r@ == SENTINEL_NEG_INFINITY,
            r.special_value() == Some(SpecialValue::NegInfinity),
    {
        Decimal64 { packed: SENTINEL_NEG_INFINITY }
    }

    /// NaN.
    pub fn nan() -> (r: Self)
        ensures
            r@ == SENTINEL_NAN,
            r.special_value() == Some(SpecialValue::NaN),
    {
        Decimal64 { packed: SENTINEL_NAN }
    }

    /// The least number, at scale 0.
    pub fn min_value() -> (r: Self)
        ensures
            r@ == packed(MIN_VALUE as int, 0),
            r.special_value() is None,
            r.stored_value() == MIN_VALUE == -36_028_797_018_963_968,
            r.stored_scale() == 0,
    {
        Self::pack(MIN_VALUE, 0)
    }

    /// The greatest number, at scale 0.
    pub fn max_value() -> (r: Self)
        ensures
            r@ == packed(MAX_VALUE as int, 0),
            r.special_value() is None,
            r.stored_value() == MAX_VALUE == 36_028_797_018_963_967,
            r.stored_scale() == 0,
    {
        Self::pack(MAX_VALUE, 0)
    }

    // ==================== Accessors ====================

    /// The raw integer.
    pub fn raw(&self) -> (r: i64)
        ensures
            r == self@,
    {
        self.packed
    }

    /// The scale; zero for a special value.
    pub fn scale(&self) -> (r: u8)
        ensures
            r == (if self.special_value() is Some {
                0
            } else {
                self.stored_scale()
            }),
    {
        if self.is_special() {
            0
        } else {
            self.scale_byte()
        }
    }

    /// The value as a multiple of `10^-scale`; zero for a special value.
    pub fn value(&self) -> (r: i64)
        ensures
            r == (if self.special_value() is Some {
                0
            } else {
                self.stored_value()
            }),
    {
        if self.is_special() {
            0
        } else {
            self.unpack_value()
        }
    }

    /// Whether this is zero.
    pub fn is_zero(&self) -> (r: bool)
        ensures
            r == (self.special_value() is None && self.stored_value() == 0),
    {
        !self.is_special() && self.unpack_value() == 0
    }

    /// Whether this is a negative number.
    pub fn is_negative(&self) -> (r: bool)
        ensures
            r == (self.special_value() is None && self.stored_value() < 0),
    {
        !self.is_special() && self.unpack_value() < 0
    }

    /// Whether this is a positive number.
    pub fn is_positive(&self) -> (r: bool)
        ensures
            r == (self.special_value() is None && self.stored_value() > 0),
    {
        !self.is_special() && self.unpack_value() > 0
    }

    /// Whether this is positive infinity.
    pub fn is_pos_infinity(&self) -> (r: bool)
        ensures
            r == (self.special_value() == Some(SpecialValue::Infinity)),
    {
        self.packed == SENTINEL_POS_INFINITY
    }

    /// Whether this is negative infinity.
    pub fn is_neg_infinity(&self) -> (r: bool)
        ensures
            r == (self.special_value() == Some(SpecialValue::NegInfinity)),
    {
        self.packed == SENTINEL_NEG_INFINITY
    }

    /// Whether this is one of the infinities.
    pub fn is_infinity(&self) -> (r: bool)
        ensures
            r == (self.special_value() == Some(SpecialValue::Infinity) || self.special_value()
                == Some(SpecialValue::NegInfinity)),
    {
        self.is_pos_infinity() || self.is_neg_infinity()
    }

    /// Whether this is NaN.
    pub fn is_nan(&self) -> (r: bool)
        ensures
            r == (self.special_value() == Some(SpecialValue::NaN)),
    {
        self.packed == SENTINEL_NAN
    }

    /// Whether this is an infinity or NaN.
    pub fn is_special(&self) -> (r: bool)
        ensures
            r == (self.special_value() is Some),
    {
        self.packed == SENTINEL_NEG_INFINITY || self.packed == SENTINEL_POS_INFINITY || self.packed
            == SENTINEL_NAN
    }

    /// Whether this is a number.
    pub fn is_finite(&self) -> (r: bool)
        ensures
            r == (self.special_value() is None),
    {
        !self.is_special()
    }

    /// The place of this among the kinds of values.
    fn kind(&self) -> (r: i128)
        ensures
            r == value::rank(self.number()),
    {
        if self.is_neg_infinity() {
            0
        } else if self.is_pos_infinity() {
            2
        } else if self.is_nan() {
            3
        } else {
            1
        }
    }

    /// Compares two decimals.
    fn order_with(&self, other: &Self) -> (r: Order)
        ensures
            r == order_of(*self, *other),
    {
        if self.is_special() || other.is_special() {
            fixed::order_ints(self.kind(), other.kind())
        } else {
            fixed::order_scaled(
                self.unpack_value(),
                self.scale_byte() as i32,
                other.unpack_value(),
                other.scale_byte() as i32,
            )
        }
    }

    /// Compares two decimals: negative infinity, then the numbers by size whatever
    /// their scales, then positive infinity, then NaN.
    pub fn cmp(&self, other: &Self) -> (r: Ordering)
        ensures
            r == ordering(order_of(*self, *other)),
            r == Ordering::Less <==> order_of(*self, *other) == Order::Less,
            r == Ordering::Equal <==> order_of(*self, *other) == Order::Equal,
            r == Ordering::Greater <==> order_of(*self, *other) == Order::Greater,
    {
        match self.order_with(other) {
            Order::Less => Ordering::Less,
            Order::Equal => Ordering::Equal,
            Order::Greater => Ordering::Greater,
        }
    }

    // ==================== Conversions ====================

    /// The number in positional notation without trailing zeros, or the name of a
    /// special value.
    pub fn format_decimal(&self) -> (r: String)
        ensures
            r@ == value::value_text(self.number()),
    {
        if self.is_neg_infinity() {
            return special::special_string(SpecialValue::NegInfinity);
        }
        if self.is_pos_infinity() {
            return special::special_string(SpecialValue::Infinity);
        }
        if self.is_nan() {
            return special::special_string(SpecialValue::NaN);
        }
        let out: Vec<char> = notation::scaled_chars(self.unpack_value(), self.scale_byte() as i32);
        text::string_of(&out)
    }

    /// The number in positional notation without trailing zeros, or the name of a
    /// special value.
    pub fn to_string(&self) -> (r: String)
        ensures
            r@ == value::value_text(self.number()),
    {
        self.format_decimal()
    }

    /// The eight bytes of the raw integer, most significant first.
    pub fn to_be_bytes(&self) -> (r: [u8; 8])
        ensures
            r@ == fixed::be_bytes(self@ as int),
    {
        fixed::bytes_of(self.packed)
    }

    /// The decimal with the given bytes of its raw integer.
    pub fn from_be_bytes(bytes: [u8; 8]) -> (r: Self)
        ensures
            r@ == fixed::of_be_bytes(bytes@),
    {
        Decimal64 { packed: fixed::of_bytes(bytes) }
    }

    /// The same value as a decimal of any precision.
    pub fn to_decimal(&self) -> (r: Decimal)
        ensures
            r.canonical(),
            r.value() == self.number(),
    {
        if self.is_neg_infinity() {
            return Decimal::neg_infinity();
        }
        if self.is_pos_infinity() {
            return Decimal::infinity();
        }
        if self.is_nan() {
            return Decimal::nan();
        }
        let s: String = self.to_string();
        proof {
            lemma_number_wf(*self);
            crate::roundtrip::law_text_round_trip(self.number());
        }
        Decimal::from_str(s.as_str()).unwrap()
    }

    /// A decimal of any precision at a scale.
    pub fn from_decimal(decimal: &Decimal, scale: u8) -> (r: Result<Self, DecimalError>)
        requires
            decimal.valid(),
        ensures
            match decimal.value() {
                Value::Special(v) => r matches Ok(d) && d.special_value() == Some(v),
                Value::Finite(p) => agrees(
                    Some(r),
                    read(value::plain_text(p), None, Some(scale as i32)),
                ),
            },
    {
        if decimal.is_nan() {
            return Ok(Self::nan());
        }
        if decimal.is_pos_infinity() {
            return Ok(Self::infinity());
        }
        if decimal.is_neg_infinity() {
            return Ok(Self::neg_infinity());
        }
        let s: String = decimal.to_string();
        proof {
            crate::encoding::lemma_decoded_digits(decimal@);
            if let Value::Finite(p) = decimal.value() {
                crate::roundtrip::lemma_plain_shape(p);
                rounding_laws::lemma_no_point(crate::roundtrip::plain_frac(p));
                lemma_plain_readable(s@, scale as nat);
            }
        }
        Self::new(s.as_str(), scale)
    }
}

/// The result is the one that was specified.
pub open spec fn agrees(
    r: Option<Result<Decimal64, DecimalError>>,
    want: Option<Result<Reading, ErrorView>>,
) -> bool {
    match (r, want) {
        (None, None) => true,
        (Some(Ok(d)), Some(Ok(x))) => d@ == x.raw(),
        (Some(Err(e)), Some(Err(f))) => e@ == f,
        _ => false,
    }
}

// ==================== Lemmas ====================

/// A packed value and scale are read back, and are no special value.
pub proof fn lemma_packed(value: int, scale: int)
    requires
        in_range(value),
        0 <= scale <= MAX_DECIMAL64_SCALE,
    ensures
        0 <= packed(value, scale) < SENTINEL_POS_INFINITY,
        packed(value, scale) % SCALE_UNIT as int - VALUE_BIAS == value,
        packed(value, scale) / SCALE_UNIT as int % 256 == scale,
{
    digits::lemma_div_mod(
        packed(value, scale),
        SCALE_UNIT as int,
        scale,
        value + VALUE_BIAS,
    );
}

/// What a decimal stands for is normalized.
pub proof fn lemma_number_wf(d: Decimal64)
    ensures
        d.number().wf(),
{
    let n = d.stored_value();
    value::law_scaled_parts(n, d.stored_scale());
    if n != 0 {
        let m = (if n < 0 { -n } else { n }) as nat;
        numeral::lemma_nat_text_len(m, 17);
        assert(m < digits::pow10(17)) by {
            reveal_with_fuel(digits::pow10, 18);
        }
    }
}

/// The digits fitted to a scale and a precision count the rounded number.
pub proof fn lemma_fitted(whole: Seq<char>, frac: Seq<char>, precision: Option<u32>, scale: nat)
    requires
        numeral::is_numeral(whole),
        whole.len() > 0,
        numeral::is_numeral(frac),
    ensures
        fit_scale(whole, frac, scale) matches Some((w, f)) && (rounding::limit_integer(
            w,
            precision,
            scale,
        ) matches Some(last) && fixed::part_value(last) * digits::pow10(scale) + fixed::part_value(f)
            == rounding::kept(rounding::rounded(whole, frac, scale), precision, scale)),
{
    rounding_laws::lemma_round_right(whole, frac, scale);
    let (w, f) = rounding::round_right(whole, frac, scale)->0;
    let k = (scale - f.len()) as nat;
    let z = text::zeros(k);
    rounding_laws::lemma_limit_integer(w, f, precision, scale);
    numeral::lemma_values_zeros(k);
    digits::lemma_number_zeros(k);
    rounding_laws::lemma_numeral_concat(f, z);
    assert(pad_end(f, scale) =~= f + z);
    fixed::lemma_part_numeral(f + z);
    fixed::lemma_part_numeral(rounding::limit_integer(w, precision, scale)->0);
}

/// A fraction fitted to a scale has that many characters.
proof fn lemma_fitted_len(whole: Seq<char>, frac: Seq<char>, scale: nat)
    ensures
        fit_scale(whole, frac, scale) matches Some((w, f)) ==> f.len() == scale,
{
    text::lemma_byte_len_bound(frac);
    text::lemma_boundary(frac, scale);
    if let Some(k) = text::boundary(frac, scale) {
        let cut = frac.take(k as int);
        text::lemma_byte_len_bound(cut);
        if let Some(up) = numeral::increment(cut) {
            text::lemma_byte_len_bound(up);
        }
    }
}

/// A plain literal is read at any scale of zero or more.
proof fn lemma_plain_readable(s: Seq<char>, scale: nat)
    requires
        rounding_laws::is_plain(s),
    ensures
        scale <= i32::MAX ==> read(s, None, Some(scale as i32)) is Some,
{
    rounding_laws::lemma_plain(s);
    rounding_laws::lemma_short(rounding_laws::whole_of(s));
    lemma_fitted(
        rounding::short(rounding_laws::whole_of(s)),
        rounding_laws::frac_of(s),
        None,
        scale,
    );
}

/// A positive factor makes no integer smaller.
proof fn lemma_times_bound(n: int, unit: int)
    requires
        unit >= 1,
    ensures
        n >= 0 ==> n * unit >= n,
        n <= 0 ==> n * unit <= n,
{
    assert(n >= 0 ==> n * unit >= n) by (nonlinear_arith)
        requires
            unit >= 1,
    ;
    assert(n <= 0 ==> n * unit <= n) by (nonlinear_arith)
        requires
            unit >= 1,
    ;
}

/// A fraction does not bring a number of more than 18 digits into range.
proof fn lemma_far(n: int, q: int, f: int)
    requires
        q >= 1,
        -q < f < q,
        n < -1_000_000_000_000_000_000 || n > 1_000_000_000_000_000_000,
    ensures
        !in_range(n * q + f),
        !in_range(-(n * q + f)),
{
    if n > 0 {
        lemma_times_bound(n - 1, q);
        assert((n - 1) * q == n * q - q) by (nonlinear_arith);
    } else {
        lemma_times_bound(n + 1, q);
        assert((n + 1) * q == n * q + q) by (nonlinear_arith);
    }
}

// ==================== Traits ====================

impl PartialOrd for Decimal64 {
    fn partial_cmp(&self, other: &Self) -> (r: Option<Ordering>) {
        Some(self.cmp(other))
    }
}

impl vstd::std_specs::cmp::PartialOrdSpecImpl for Decimal64 {
    open spec fn obeys_partial_cmp_spec() -> bool {
        true
    }

    open spec fn partial_cmp_spec(&self, other: &Self) -> Option<Ordering> {
        Some(ordering(order_of(*self, *other)))
    }
}

impl Default for Decimal64 {
    /// Zero at scale 0.
    fn default() -> (r: Self)
        ensures
            r@ == packed(0, 0),
            r.special_value() is None,
            r.stored_value() == 0,
            r.stored_scale() == 0,
    {
        Self::pack(0, 0)
    }
}

impl std::str::FromStr for Decimal64 {
    type Err = DecimalError;

    /// Reads a decimal as the method of that name does; where that has no result,
    /// the text is refused.
    fn from_str(s: &str) -> (r: Result<Self, DecimalError>)
        ensures
            match read(s@, None, Some(detected_scale(s@) as i32)) {
                Some(want) => agrees(Some(r), Some(want)),
                None => r matches Err(e) && e@ == ErrorView::InvalidFormat("Invalid digit"@),
            },
    {
        match Self::try_with_precision_scale(s, None, Some(Self::detect_scale(s) as i32)) {
            Some(r) => r,
            None => Err(invalid_format("Invalid digit")),
        }
    }
}

/// `n`, or the nearest value that fits 56 bits.
pub open spec fn clamped(n: int) -> int {
    if n < MIN_VALUE {
        MIN_VALUE as int
    } else if n > MAX_VALUE {
        MAX_VALUE as int
    } else {
        n
    }
}

impl From<i64> for Decimal64 {
    /// The integer at scale 0, clamped to 56 bits.
    fn from(value: i64) -> (r: Self)
        ensures
            r@ == packed(clamped(value as int), 0),
            r.special_value() is None,
            r.stored_value() == clamped(value as int),
            r.stored_scale() == 0,
            -36_028_797_018_963_968 <= value <= 36_028_797_018_963_967 ==> r.stored_value()
                == value && r.number() == Value::Finite(value::scaled_parts(value as int, 0)),
            value < -36_028_797_018_963_968 ==> r.stored_value() == -36_028_797_018_963_968,
            value > 36_028_797_018_963_967 ==> r.stored_value() == 36_028_797_018_963_967,
    {
        let n: i64 = if value < MIN_VALUE {
            MIN_VALUE
        } else if value > MAX_VALUE {
            MAX_VALUE
        } else {
            value
        };
        Self::pack(n, 0)
    }
}

impl vstd::std_specs::convert::FromSpecImpl<i64> for Decimal64 {
    open spec fn obeys_from_spec() -> bool {
        false
    }

    open spec fn from_spec(value: i64) -> Self {
        arbitrary()
    }
}

impl From<i32> for Decimal64 {
    /// The integer at scale 0.
    fn from(value: i32) -> (r: Self)
        ensures
            r@ == packed(value as int, 0),
            r.special_value() is None,
            r.stored_value() == value,
            r.stored_scale() == 0,
            r.number() == Value::Finite(value::scaled_parts(value as int, 0)),
    {
        Self::pack(value as i64, 0)
    }
}

impl vstd::std_specs::convert::FromSpecImpl<i32> for Decimal64 {
    open spec fn obeys_from_spec() -> bool {
        false
    }

    open spec fn from_spec(value: i32) -> Self {
        arbitrary()
    }
}

} // verus!
