//! Decimals in 64 bits whose scale is kept elsewhere.
//!
//! A raw integer `n` at a scale stands for `n * 10^-scale`. Sums, minima and maxima
//! of raw integers of one scale are those of the numbers. The special values are
//! the ends of the 64-bit range.
use vstd::prelude::*;
use vstd::string::StringExecFns;
use std::cmp::Ordering;

use crate::decimal::Decimal;
use crate::decimal::ordering;
use crate::decimal64;
use crate::digits;
use crate::error::DecimalError;
use crate::error::ErrorView;
use crate::error::invalid_format;
use crate::fixed;
use crate::notation;
use crate::numeral;
use crate::order::Order;
use crate::parse;
use crate::rounding;
use crate::rounding_laws;
use crate::special;
use crate::special::SpecialValue;
use crate::text;
use crate::value;
use crate::value::Value;

verus! {

/// The greatest precision.
pub const MAX_DECIMAL64_NO_SCALE_PRECISION: u32 = 18;

/// The greatest scale.
pub const MAX_DECIMAL64_NO_SCALE_SCALE: i32 = 18;

/// Negative infinity.
pub const SENTINEL_NEG_INFINITY: i64 = -0x8000_0000_0000_0000;

/// Positive infinity.
pub const SENTINEL_POS_INFINITY: i64 = 0x7FFF_FFFF_FFFF_FFFE;

/// NaN.
pub const SENTINEL_NAN: i64 = 0x7FFF_FFFF_FFFF_FFFF;

/// The least value of 18 digits.
pub const MIN_VALUE: i64 = -999_999_999_999_999_999;

/// The greatest value of 18 digits.
pub const MAX_VALUE: i64 = 999_999_999_999_999_999;

/// A decimal of up to 18 digits at a scale that is kept elsewhere, or a special
/// value.
#[derive(Debug, Clone, Copy, PartialEq, Eq, Structural, Ord, Hash)]
pub struct Decimal64NoScale {
    value: i64,
}

impl View for Decimal64NoScale {
    type V = i64;

    closed spec fn view(&self) -> i64 {
        self.value
    }
}

// ==================== What the integer means ====================

/// The raw integer of a special value.
pub open spec fn sentinel(v: SpecialValue) -> i64 {
    match v {
        SpecialValue::NegInfinity => SENTINEL_NEG_INFINITY,
        SpecialValue::Infinity => SENTINEL_POS_INFINITY,
        SpecialValue::NaN => SENTINEL_NAN,
    }
}

impl Decimal64NoScale {
    /// The special value that this is.
    pub open spec fn special_value(self) -> Option<SpecialValue> {
        if self@ == SENTINEL_NEG_INFINITY {
            Some(SpecialValue::NegInfinity)
        } else if self@ == SENTINEL_POS_INFINITY {
            Some(SpecialValue::Infinity)
        } else if self@ == SENTINEL_NAN {
            Some(SpecialValue::NaN)
        } else {
            None
        }
    }

    /// The value that this stands for at a scale.
    pub open spec fn number(self, scale: int) -> Value {
        match self.special_value() {
            Some(v) => Value::Special(v),
            None => Value::Finite(value::scaled_parts(self@ as int, scale)),
        }
    }
}

/// The value has at most 18 digits.
pub open spec fn in_range(n: int) -> bool {
    MIN_VALUE <= n <= MAX_VALUE
}

/// The error for a value of more than 18 digits.
pub open spec fn too_large() -> ErrorView {
    ErrorView::InvalidFormat("Value too large for Decimal64NoScale"@)
}

/// The value; an error where it has more than 18 digits.
pub open spec fn checked(n: int) -> Result<int, ErrorView> {
    if in_range(n) {
        Ok(n)
    } else {
        Err(too_large())
    }
}

/// `a / b` rounded toward zero.
pub open spec fn quotient(a: int, b: int) -> int {
    if a < 0 {
        -((-a) / b)
    } else {
        a / b
    }
}

/// The text behind the point as a multiple of `10^-scale`, rounded or filled. What is no
/// integer counts as zero. `None` where the cut would fall inside a character.
pub open spec fn fraction_value(frac: Seq<char>, scale: nat) -> Option<int> {
    if frac.len() == 0 {
        Some(0)
    } else if text::byte_len(frac) <= scale {
        Some(fixed::part_value(decimal64::pad_end(frac, scale)))
    } else {
        match text::boundary(frac, scale) {
            None => None,
            Some(k) => Some(
                fixed::part_value(frac.take(k as int)) + (if rounding::rounds_up(
                    rounding::char_or_zero(frac, scale as int),
                ) {
                    1int
                } else {
                    0
                }),
            ),
        }
    }
}

/// The value of a text as a multiple of `10^-scale`.
///
/// At a negative scale the integer is rounded to the nearest multiple, and counts as zero
/// where it is none.
pub open spec fn scaled_value(
    whole: Seq<char>,
    frac: Seq<char>,
    negative: bool,
    scale: int,
) -> Option<Result<int, ErrorView>> {
    if scale < 0 {
        let unit = digits::pow10((-scale) as nat) as int;
        Some(
            checked(
                decimal64::signed(negative, quotient(fixed::part_value(whole) + unit / 2, unit)),
            ),
        )
    } else {
        let n = fixed::part_value(whole);
        let m = n * digits::pow10(scale as nat);
        if numeral::signed_value(whole) is None || !(i64::MIN <= n <= i64::MAX) {
            Some(Err(ErrorView::InvalidFormat("Invalid integer part: "@ + whole)))
        } else if !(i64::MIN <= m <= i64::MAX) {
            Some(Err(too_large()))
        } else {
            match fraction_value(frac, scale as nat) {
                None => None,
                Some(f) => Some(checked(decimal64::signed(negative, m + f))),
            }
        }
    }
}

/// What a text is read as at a scale. `None` where a cut would fall inside a
/// character.
pub open spec fn read(s: Seq<char>, scale: int) -> Option<Result<int, ErrorView>> {
    let body = parse::unsigned_text(text::trim(s));
    let size = if scale < 0 {
        -scale
    } else {
        scale
    };
    if special::special_of_text(s) is Some {
        Some(Ok(sentinel(special::special_of_text(s)->0) as int))
    } else if size > MAX_DECIMAL64_NO_SCALE_SCALE {
        Some(
            Err(
                ErrorView::InvalidFormat(
                    "Scale "@ + numeral::int_text(size)
                        + " exceeds maximum 18 for Decimal64NoScale"@,
                ),
            ),
        )
    } else {
        scaled_value(
            rounding::short(text::before_point(body)),
            text::after_point(body),
            parse::literal_negative(s),
            scale,
        )
    }
}

/// The result is the one that was specified.
pub open spec fn agrees(
    r: Option<Result<Decimal64NoScale, DecimalError>>,
    want: Option<Result<int, ErrorView>>,
) -> bool {
    match (r, want) {
        (None, None) => true,
        (Some(Ok(d)), Some(Ok(n))) => d@ == n,
        (Some(Err(e)), Some(Err(f))) => e@ == f,
        _ => false,
    }
}

/// The integer `n` at a scale: multiplied by the power of ten, or for a negative
/// scale divided by it and rounded toward zero.
pub open spec fn scaled_integer(n: int, scale: int) -> Result<int, ErrorView> {
    let m = n * digits::pow10(scale as nat);
    if scale < 0 {
        Ok(quotient(n, digits::pow10((-scale) as nat) as int))
    } else if !(i64::MIN <= m <= i64::MAX) {
        Err(
            ErrorView::InvalidFormat(
                "Overflow: "@ + numeral::int_text(n) + " * 10^"@ + numeral::int_text(scale)
                    + " exceeds i64 range"@,
            ),
        )
    } else {
        checked(m)
    }
}

/// The order of two decimals at their scales: the special values at their ends,
/// and numbers by their values brought to the greater scale.
pub open spec fn order_of(
    a: Decimal64NoScale,
    b: Decimal64NoScale,
    a_scale: int,
    b_scale: int,
) -> Order {
    if a.special_value() is None && b.special_value() is None {
        fixed::scaled_order(a@ as int, a_scale, b@ as int, b_scale)
    } else {
        fixed::int_order(value::rank(a.number(a_scale)), value::rank(b.number(b_scale)))
    }
}

/// The order of two decimals at their scales.
pub open spec fn order_at(
    a: Decimal64NoScale,
    b: Decimal64NoScale,
    a_scale: i32,
    b_scale: i32,
) -> Order {
    order_of(a, b, a_scale as int, b_scale as int)
}

/// The order of the raw integers of two decimals.
pub open spec fn raw_order(a: Decimal64NoScale, b: Decimal64NoScale) -> Order {
    fixed::int_order(a@ as int, b@ as int)
}

// ==================== Reading ====================

fn too_large_error() -> (r: DecimalError)
    ensures
        r@ == too_large(),
{
    invalid_format("Value too large for Decimal64NoScale")
}

/// `a / b` rounded toward zero.
fn divide(a: i128, b: i128) -> (r: i128)
    requires
        b > 0,
        a > i128::MIN,
    ensures
        r == quotient(a as int, b as int),
        a >= 0 ==> 0 <= r <= a,
        a <= 0 ==> a <= r <= 0,
{
    if a < 0 {
        proof {
            lemma_quotient_bound(-(a as int), b as int);
        }
        -((-a) / b)
    } else {
        proof {
            lemma_quotient_bound(a as int, b as int);
        }
        a / b
    }
}

proof fn lemma_quotient_bound(a: int, b: int)
    requires
        a >= 0,
        b > 0,
    ensures
        0 <= a / b <= a,
{
    assert(0 <= a / b <= a) by (nonlinear_arith)
        requires
            a >= 0,
            b > 0,
    ;
}

/// The text behind the point as a multiple of `10^-scale`.
fn read_fraction(frac: &[char], scale: usize) -> (r: Option<i128>)
    requires
        scale <= MAX_DECIMAL64_NO_SCALE_SCALE,
    ensures
        match r {
            Some(n) => fraction_value(frac@, scale as nat) == Some(n as int)
                && -1_000_000_000_000_000_000 < n <= 1_000_000_000_000_000_000,
            None => fraction_value(frac@, scale as nat) is None,
        },
{
    proof {
        digits::lemma_pow10_mono(scale as nat, 18);
        assert(digits::pow10(18) == 1_000_000_000_000_000_000) by {
            reveal_with_fuel(digits::pow10, 19);
        }
        text::lemma_byte_len_bound(frac@);
    }
    if frac.len() == 0 {
        return Some(0);
    }
    if !text::longer_than(frac, scale) {
        let mut f: Vec<char> = text::copy_range(frac, 0, frac.len());
        assert(f@ =~= frac@);
        let have: usize = f.len();
        if have < scale {
            text::append_zeros(&mut f, scale - have);
        }
        proof {
            fixed::lemma_part_bound(f@);
        }
        return Some(fixed::read_part(&f));
    }
    match text::boundary_index(frac, scale) {
        None => None,
        Some(k) => {
            let cut: Vec<char> = text::copy_range(frac, 0, k);
            assert(cut@ =~= frac@.take(k as int));
            proof {
                text::lemma_boundary(frac@, scale as nat);
                fixed::lemma_part_bound(cut@);
                digits::lemma_pow10_mono(cut@.len(), 18);
            }
            let n: i128 = fixed::read_part(&cut);
            if rounding::char_at_or_zero(frac, scale) >= '5' {
                Some(n + 1)
            } else {
                Some(n)
            }
        },
    }
}

impl Decimal64NoScale {
    /// The number `n` or `-n`; an error where it has more than 18 digits.
    fn checked_value(is_negative: bool, n: i128) -> (r: Result<Self, DecimalError>)
        ensures
            agrees(Some(r), Some(checked(decimal64::signed(is_negative, n as int)))),
    {
        if n < MIN_VALUE as i128 || n > MAX_VALUE as i128 {
            return Err(too_large_error());
        }
        let m: i64 = n as i64;
        Ok(
            Decimal64NoScale {
                value: if is_negative {
                    -m
                } else {
                    m
                },
            },
        )
    }

    /// The value of a text as a multiple of `10^-scale`.
    fn compute_scaled_value(whole: &[char], frac: &[char], is_negative: bool, scale: i32) -> (r:
        Option<Result<Self, DecimalError>>)
        requires
            -MAX_DECIMAL64_NO_SCALE_SCALE <= scale <= MAX_DECIMAL64_NO_SCALE_SCALE,
        ensures
            agrees(r, scaled_value(whole@, frac@, is_negative, scale as int)),
    {
        if scale < 0 {
            let unit: i128 = fixed::power_of_ten((-scale) as usize);
            let n: i128 = fixed::read_part(whole);
            proof {
                lemma_clamped_quotient(fixed::part_value(whole@), unit as int);
            }
            return Some(Self::checked_value(is_negative, divide(n + unit / 2, unit)));
        }
        let n: i64 = match numeral::read_signed(whole) {
            Some(n) if i64::MIN as i128 <= n && n <= i64::MAX as i128 => n as i64,
            _ => {
                return Some(Err(fixed::part_error("Invalid integer part: ", whole)));
            },
        };
        let m: i128 = match fixed::times_power(n, scale as usize) {
            None => {
                return Some(Err(too_large_error()));
            },
            Some(m) => m,
        };
        if m < i64::MIN as i128 || m > i64::MAX as i128 {
            return Some(Err(too_large_error()));
        }
        match read_fraction(frac, scale as usize) {
            None => None,
            Some(f) => Some(Self::checked_value(is_negative, m + f)),
        }
    }

    // ==================== Constructors ====================

    /// Reads a decimal at a scale; `None` where a cut would fall inside a character.
    pub fn try_new(s: &str, scale: i32) -> (r: Option<Result<Self, DecimalError>>)
        ensures
            agrees(r, read(s@, scale as int)),
    {
        match special::parse_special_value(s) {
            Some(SpecialValue::NaN) => {
                return Some(Ok(Self::nan()));
            },
            Some(SpecialValue::Infinity) => {
                return Some(Ok(Self::infinity()));
            },
            Some(SpecialValue::NegInfinity) => {
                return Some(Ok(Self::neg_infinity()));
            },
            None => {},
        }
        let size: i64 = if scale < 0 {
            -(scale as i64)
        } else {
            scale as i64
        };
        if size > MAX_DECIMAL64_NO_SCALE_SCALE as i64 {
            let mut m: String = "Scale ".to_owned();
            m.append(numeral::int_string(size as i128).as_str());
            m.append(" exceeds maximum 18 for Decimal64NoScale");
            return Some(Err(DecimalError::InvalidFormat(m)));
        }
        let v: Vec<char> = text::chars_of(s);
        let t: Vec<char> = text::trimmed(&v);
        let is_negative: bool = t.len() > 0 && t[0] == '-';
        let start: usize = if t.len() > 0 && (t[0] == '-' || t[0] == '+') {
            1
        } else {
            0
        };
        let body: Vec<char> = text::copy_range(&t, start, t.len());
        assert(body@ =~= parse::unsigned_text(t@));
        let (before, frac) = text::split_point(&body);
        let whole: Vec<char> = rounding::short_chars(&before);
        Self::compute_scaled_value(&whole, &frac, is_negative, scale)
    }

    /// Reads a decimal at a scale from -18 to 18. No cut may fall inside a
    /// character.
    pub fn new(s: &str, scale: i32) -> (r: Result<Self, DecimalError>)
        requires
            read(s@, scale as int) is Some,
        ensures
            agrees(Some(r), read(s@, scale as int)),
    {
        Self::try_new(s, scale).unwrap()
    }

    /// The decimal with a raw integer.
    pub fn from_raw(value: i64) -> (r: Self)
        ensures
            r@ == value,
    {
        Decimal64NoScale { value }
    }

    /// An integer at a scale. A negative scale divides it and rounds toward zero.
    pub fn from_i64(value: i64, scale: i32) -> (r: Result<Self, DecimalError>)
        ensures
            agrees(Some(r), Some(scaled_integer(value as int, scale as int))),
            r matches Ok(d) ==> d.special_value() is None,
            scale >= 0 ==> (r matches Ok(d) && d@ == value * digits::pow10(scale as nat)
                <==> -999_999_999_999_999_999 <= value * digits::pow10(scale as nat)
                <= 999_999_999_999_999_999),
            scale < 0 ==> r is Ok,
    {
        if scale < 0 {
            let k: i64 = -(scale as i64);
            if k > 36 {
                proof {
                    lemma_zero_quotient(value as int, k as nat);
                }
                return Ok(Decimal64NoScale { value: 0 });
            }
            proof {
                lemma_small_quotient(value as int, k as nat);
            }
            return Ok(
                Decimal64NoScale {
                    value: divide(value as i128, fixed::power_of_ten(k as usize)) as i64,
                },
            );
        }
        if let Some(m) = fixed::times_power(value, scale as usize) {
            if i64::MIN as i128 <= m && m <= i64::MAX as i128 {
                if m < MIN_VALUE as i128 || m > MAX_VALUE as i128 {
                    return Err(too_large_error());
                }
                return Ok(Decimal64NoScale { value: m as i64 });
            }
        }
        let mut m: String = "Overflow: ".to_owned();
        m.append(numeral::int_string(value as i128).as_str());
        m.append(" * 10^");
        m.append(numeral::int_string(scale as i128).as_str());
        m.append(" exceeds i64 range");
        Err(DecimalError::InvalidFormat(m))
    }

    /// A natural number at a scale.
    pub fn from_u64(value: u64, scale: i32) -> (r: Result<Self, DecimalError>)
        ensures
            if value > i64::MAX {
                r matches Err(e) && e@ == ErrorView::InvalidFormat(
                    "Value "@ + numeral::int_text(value as int) + " exceeds i64::MAX"@,
                )
            } else {
                agrees(Some(r), Some(scaled_integer(value as int, scale as int))) && (r matches Ok(d)
                    ==> d.special_value() is None)
            },
            scale >= 0 ==> (r matches Ok(d) && d@ == value * digits::pow10(scale as nat)
                <==> value * digits::pow10(scale as nat) <= 999_999_999_999_999_999),
    {
        proof {
            let k = digits::pow10(scale as nat);
            digits::lemma_pow10_pos(scale as nat);
            assert(value * k >= value) by (nonlinear_arith)
                requires
                    k >= 1,
            ;
        }
        if value > i64::MAX as u64 {
            let mut m: String = "Value ".to_owned();
            m.append(numeral::int_string(value as i128).as_str());
            m.append(" exceeds i64::MAX");
            return Err(DecimalError::InvalidFormat(m));
        }
        Self::from_i64(value as i64, scale)
    }

    /// Positive infinity.
    pub fn infinity() -> (r: Self)
        ensures
            r@ == SENTINEL_POS_INFINITY,
            r.special_value() == Some(SpecialValue::Infinity),
    {
        Decimal64NoScale { value: SENTINEL_POS_INFINITY }
    }

    /// Negative infinity.
    pub fn neg_infinity() -> (r: Self)
        ensures
            r@ == SENTINEL_NEG_INFINITY,
            r.special_value() == Some(SpecialValue::NegInfinity),
    {
        Decimal64NoScale { value: SENTINEL_NEG_INFINITY }
    }

    /// NaN.
    pub fn nan() -> (r: Self)
        ensures
            r@ == SENTINEL_NAN,
            r.special_value() == Some(SpecialValue::NaN),
    {
        Decimal64NoScale { value: SENTINEL_NAN }
    }

    /// The least number of 18 digits.
    pub fn min_value() -> (r: Self)
        ensures
            r@ == MIN_VALUE == -999_999_999_999_999_999,
    {
        Decimal64NoScale { value: MIN_VALUE }
    }

    /// The greatest number of 18 digits.
    pub fn max_value() -> (r: Self)
        ensures
            r@ == MAX_VALUE == 999_999_999_999_999_999,
    {
        Decimal64NoScale { value: MAX_VALUE }
    }

    // ==================== Accessors ====================

    /// The raw integer.
    pub fn value(&self) -> (r: i64)
        ensures
            r == self@,
    {
        self.value
    }

    /// The raw integer.
    pub fn raw(&self) -> (r: i64)
        ensures
            r == self@,
    {
        self.value
    }

    /// Whether this is zero.
    pub fn is_zero(&self) -> (r: bool)
        ensures
            r == (self.special_value() is None && self@ == 0),
    {
        !self.is_special() && self.value == 0
    }

    /// Whether this is a negative number.
    pub fn is_negative(&self) -> (r: bool)
        ensures
            r == (self.special_value() is None && self@ < 0),
    {
        !self.is_special() && self.value < 0
    }

    /// Whether this is a positive number.
    pub fn is_positive(&self) -> (r: bool)
        ensures
            r == (self.special_value() is None && self@ > 0),
    {
        !self.is_special() && self.value > 0
    }

    /// Whether this is positive infinity.
    pub fn is_pos_infinity(&self) -> (r: bool)
        ensures
            r == (self.special_value() == Some(SpecialValue::Infinity)),
    {
        self.value == SENTINEL_POS_INFINITY
    }

    /// Whether this is negative infinity.
    pub fn is_neg_infinity(&self) -> (r: bool)
        ensures
            r == (self.special_value() == Some(SpecialValue::NegInfinity)),
    {
        self.value == SENTINEL_NEG_INFINITY
    }

    /// Whether this is one of the infinities.
    pub fn is_infinity(&self) -> (r: bool)
        ensures
            r == (self.special_value() == Some(SpecialValue::Infinity) || self.special_value()
                == Some(SpecialValue::NegInfinity)),
    {
        self.is_pos_infinity() || self.is_neg_infinity()
    }

    /// Whether this is NaN.
    pub fn is_nan(&self) -> (r: bool)
        ensures
            r == (self.special_value() == Some(SpecialValue::NaN)),
    {
        self.value == SENTINEL_NAN
    }

    /// Whether this is an infinity or NaN.
    pub fn is_special(&self) -> (r: bool)
        ensures
            r == (self.special_value() is Some),
    {
        self.value == SENTINEL_NAN || self.value == SENTINEL_NEG_INFINITY || self.value
            == SENTINEL_POS_INFINITY
    }

    /// Whether this is a number.
    pub fn is_finite(&self) -> (r: bool)
        ensures
            r == (self.special_value() is None),
    {
        !self.is_special()
    }

    // ==================== Comparing ====================

    /// The place of this among the kinds of values.
    fn kind(&self) -> (r: i128)
        ensures
            forall|scale: int| r == #[trigger] value::rank(self.number(scale)),
    {
        if self.is_neg_infinity() {
            0
        } else if self.is_pos_infinity() {
            2
        } else if self.is_nan() {
            3
        } else {
            1
        }
    }

    /// Compares two decimals at their scales.
    fn order_with(&self, other: &Self, self_scale: i32, other_scale: i32) -> (r: Order)
        ensures
            r == order_of(*self, *other, self_scale as int, other_scale as int),
    {
        if self.is_special() || other.is_special() {
            fixed::order_ints(self.kind(), other.kind())
        } else {
            fixed::order_scaled(self.value, self_scale, other.value, other_scale)
        }
    }

    /// The order of the raw integers.
    fn order_raw(&self, other: &Self) -> (r: Order)
        ensures
            r == fixed::int_order(self@ as int, other@ as int),
    {
        fixed::order_ints(self.value as i128, other.value as i128)
    }

    // ==================== Conversions ====================

    /// The number at a scale in positional notation, with as many digits behind the
    /// point as the scale says; or the name of a special value.
    pub fn to_string_with_scale(&self, scale: i32) -> (r: String)
        ensures
            r@ == value::scaled_text(self.number(scale as int), scale as int),
    {
        if self.is_neg_infinity() {
            return special::special_string(SpecialValue::NegInfinity);
        }
        if self.is_pos_infinity() {
            return special::special_string(SpecialValue::Infinity);
        }
        if self.is_nan() {
            return special::special_string(SpecialValue::NaN);
        }
        let out: Vec<char> = notation::scaled_chars(self.value, scale);
        proof {
            value::law_scaled_parts(self@ as int, scale as int);
            notation::lemma_text_numerals(value::scaled_parts(self@ as int, scale as int));
        }
        let padded: Vec<char> = notation::fixed_chars(out, scale);
        text::string_of(&padded)
    }

    /// The raw integer as text, or the name of a special value.
    pub fn to_string(&self) -> (r: String)
        ensures
            r@ == (match self.special_value() {
                Some(v) => special::special_text(v),
                None => numeral::int_text(self@ as int),
            }),
    {
        if self.is_nan() {
            special::special_string(SpecialValue::NaN)
        } else if self.is_pos_infinity() {
            special::special_string(SpecialValue::Infinity)
        } else if self.is_neg_infinity() {
            special::special_string(SpecialValue::NegInfinity)
        } else {
            numeral::int_string(self.value as i128)
        }
    }

    /// The eight bytes of the raw integer, most significant first.
    pub fn to_be_bytes(&self) -> (r: [u8; 8])
        ensures
            r@ == fixed::be_bytes(self@ as int),
    {
        fixed::bytes_of(self.value)
    }

    /// The decimal with the given bytes of its raw integer.
    pub fn from_be_bytes(bytes: [u8; 8]) -> (r: Self)
        ensures
            r@ == fixed::of_be_bytes(bytes@),
    {
        Decimal64NoScale { value: fixed::of_bytes(bytes) }
    }

    /// The value at a scale as a decimal of any precision. Its exponent must be in
    /// the range of those.
    pub fn to_decimal(&self, scale: i32) -> (r: Decimal)
        requires
            self.number(scale as int).wf(),
        ensures
            r.canonical(),
            r.value() == self.number(scale as int),
    {
        if self.is_neg_infinity() {
            return Decimal::neg_infinity();
        }
        if self.is_pos_infinity() {
            return Decimal::infinity();
        }
        if self.is_nan() {
            return Decimal::nan();
        }
        let s: String = self.to_string_with_scale(scale);
        proof {
            crate::roundtrip::lemma_scaled_frac(self@ as int, scale as int);
            crate::roundtrip::law_scaled_text_read(self.number(scale as int), scale as int);
        }
        Decimal::from_str(s.as_str()).unwrap()
    }

    /// A decimal of any precision at a scale.
    pub fn from_decimal(decimal: &Decimal, scale: i32) -> (r: Result<Self, DecimalError>)
        requires
            decimal.valid(),
        ensures
            match decimal.value() {
                Value::Special(v) => r matches Ok(d) && d.special_value() == Some(v),
                Value::Finite(p) => agrees(Some(r), read(value::plain_text(p), scale as int)),
            },
    {
        if decimal.is_nan() {
            return Ok(Self::nan());
        }
        if decimal.is_pos_infinity() {
            return Ok(Self::infinity());
        }
        if decimal.is_neg_infinity() {
            return Ok(Self::neg_infinity());
        }
        let s: String = decimal.to_string();
        proof {
            crate::encoding::lemma_decoded_digits(decimal@);
            if let Value::Finite(p) = decimal.value() {
                crate::roundtrip::lemma_plain_shape(p);
                rounding_laws::lemma_no_point(crate::roundtrip::plain_frac(p));
                lemma_plain_readable(s@, scale as int);
            }
        }
        Self::new(s.as_str(), scale)
    }

    /// Compares two decimals at their scales: negative infinity, then the numbers
    /// by size, then positive infinity, then NaN.
    pub fn cmp_with_scale(&self, other: &Self, self_scale: i32, other_scale: i32) -> (r: Ordering)
        ensures
            r == ordering(order_at(*self, *other, self_scale, other_scale)),
            r == Ordering::Less <==> order_at(*self, *other, self_scale, other_scale)
                == Order::Less,
            r == Ordering::Equal <==> order_at(*self, *other, self_scale, other_scale)
                == Order::Equal,
            r == Ordering::Greater <==> order_at(*self, *other, self_scale, other_scale)
                == Order::Greater,
    {
        match self.order_with(other, self_scale, other_scale) {
            Order::Less => Ordering::Less,
            Order::Equal => Ordering::Equal,
            Order::Greater => Ordering::Greater,
        }
    }

    /// Compares two decimals of one scale by their raw integers.
    pub fn cmp(&self, other: &Self) -> (r: Ordering)
        ensures
            r == ordering(raw_order(*self, *other)),
            r == Ordering::Less <==> self@ < other@,
            r == Ordering::Equal <==> self@ == other@,
            r == Ordering::Greater <==> self@ > other@,
    {
        match self.order_raw(other) {
            Order::Less => Ordering::Less,
            Order::Equal => Ordering::Equal,
            Order::Greater => Ordering::Greater,
        }
    }
}

// ==================== Lemmas ====================

/// A power of ten beyond 64 bits leaves nothing of an integer.
proof fn lemma_zero_quotient(n: int, k: nat)
    requires
        i64::MIN <= n <= i64::MAX,
        k > 36,
    ensures
        quotient(n, digits::pow10(k) as int) == 0,
{
    digits::lemma_pow10_mono(36, k);
    assert(digits::pow10(36) > 0x1_0000_0000_0000_0000) by {
        reveal_with_fuel(digits::pow10, 37);
    }
    let m = if n < 0 {
        -n
    } else {
        n
    };
    let p = digits::pow10(k) as int;
    assert(0 * p == 0) by (nonlinear_arith);
    digits::lemma_div_mod(m, p, 0, m);
}

/// Rounding an integer at the bound gives more than 18 digits, as rounding one beyond does.
proof fn lemma_clamped_quotient(n: int, unit: int)
    requires
        1 <= unit <= 1_000_000_000_000_000_000,
    ensures
        ({
            let q = quotient(n + unit / 2, unit);
            let c = quotient(numeral::clamped(n) + unit / 2, unit);
            c == q || ((c < MIN_VALUE || c > MAX_VALUE) && (q < MIN_VALUE || q > MAX_VALUE))
        }),
{
    let m = numeral::clamped(n);
    if m != n {
        lemma_far_quotient(n + unit / 2, unit);
        lemma_far_quotient(m + unit / 2, unit);
    }
}

proof fn lemma_far_quotient(a: int, unit: int)
    requires
        1 <= unit <= 1_000_000_000_000_000_000,
        a >= 1_000_000_000_000_000_000_000_000_000_000_000_000 || a
            <= -1_000_000_000_000_000_000_000_000_000_000_000_000,
    ensures
        quotient(a, unit) < MIN_VALUE || quotient(a, unit) > MAX_VALUE,
{
    let b = if a < 0 {
        -a
    } else {
        a
    };
    vstd::arithmetic::div_mod::lemma_div_is_ordered_by_denominator(
        b,
        unit,
        1_000_000_000_000_000_000,
    );
}

/// A plain literal is read at any scale.
proof fn lemma_plain_readable(s: Seq<char>, scale: int)
    requires
        rounding_laws::is_plain(s),
    ensures
        read(s, scale) is Some,
{
    rounding_laws::lemma_plain(s);
    let f = rounding_laws::frac_of(s);
    rounding_laws::lemma_numeral_bytes(f);
    if 0 <= scale < f.len() {
        assert(text::boundary(f, scale as nat) == Some(scale as nat));
    }
}

/// A tenth of a 64-bit integer, or less, has at most 18 digits.
proof fn lemma_small_quotient(n: int, k: nat)
    requires
        i64::MIN <= n <= i64::MAX,
        k > 0,
    ensures
        in_range(quotient(n, digits::pow10(k) as int)),
{
    let m = if n < 0 {
        -n
    } else {
        n
    };
    let p = digits::pow10(k) as int;
    digits::lemma_pow10_mono(1, k);
    reveal_with_fuel(digits::pow10, 2);
    vstd::arithmetic::div_mod::lemma_div_is_ordered_by_denominator(m, 10, p);
    lemma_quotient_bound(m, p);
}

// ==================== Traits ====================

impl PartialOrd for Decimal64NoScale {
    fn partial_cmp(&self, other: &Self) -> (r: Option<Ordering>) {
        Some(self.cmp(other))
    }
}

impl vstd::std_specs::cmp::PartialOrdSpecImpl for Decimal64NoScale {
    open spec fn obeys_partial_cmp_spec() -> bool {
        true
    }

    open spec fn partial_cmp_spec(&self, other: &Self) -> Option<Ordering> {
        Some(ordering(raw_order(*self, *other)))
    }
}

impl Default for Decimal64NoScale {
    /// Zero.
    fn default() -> (r: Self)
        ensures
            r@ == 0,
    {
        Decimal64NoScale { value: 0 }
    }
}

impl From<i64> for Decimal64NoScale {
    /// The decimal with a raw integer.
    fn from(value: i64) -> (r: Self)
        ensures
            r@ == value,
    {
        Decimal64NoScale { value }
    }
}

impl vstd::std_specs::convert::FromSpecImpl<i64> for Decimal64NoScale {
    open spec fn obeys_from_spec() -> bool {
        false
    }

    open spec fn from_spec(value: i64) -> Self {
        arbitrary()
    }
}

impl From<i32> for Decimal64NoScale {
    /// The decimal with a raw integer.
    fn from(value: i32) -> (r: Self)
        ensures
            r@ == value,
    {
        Decimal64NoScale { value: value as i64 }
    }
}

impl vstd::std_specs::convert::FromSpecImpl<i32> for Decimal64NoScale {
    open spec fn obeys_from_spec() -> bool {
        false
    }

    open spec fn from_spec(value: i32) -> Self {
        arbitrary()
    }
}

} // verus!
