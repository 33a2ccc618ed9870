//! What a decimal stands for: a finite number in parts, or a special value.
use vstd::prelude::*;

use crate::digits;
use crate::numeral;
use crate::parse;
use crate::rounding;
use crate::special;
use crate::special::SpecialValue;
use crate::text;

verus! {

/// The least exponent of a nonzero number.
pub const MIN_EXPONENT: i32 = -16383;

/// The greatest exponent of a nonzero number.
pub const MAX_EXPONENT: i32 = 131072;

/// A finite number as sign, digits and exponent: `0.digits * 10^exponent`, with
/// the most significant digit first. Zero has no digits.
#[verifier::ext_equal]
pub struct Parts {
    pub negative: bool,
    pub digits: Seq<u8>,
    pub exponent: int,
}

/// A finite number or a special value.
#[verifier::ext_equal]
pub enum Value {
    Special(SpecialValue),
    Finite(Parts),
}

/// The parts of zero.
pub open spec fn zero_parts() -> Parts {
    Parts { negative: false, digits: Seq::empty(), exponent: 0 }
}

/// The parts of `n * 10^-scale`.
pub open spec fn scaled_parts(n: int, scale: int) -> Parts {
    let t = numeral::nat_text((if n < 0 { -n } else { n }) as nat);
    if n == 0 {
        zero_parts()
    } else {
        Parts {
            negative: n < 0,
            digits: digits::strip_trailing(numeral::values(t)),
            exponent: t.len() - scale,
        }
    }
}

impl Parts {
    /// The parts are normalized: zero is `zero_parts`, any other number has
    /// neither a leading nor a trailing zero digit, and its exponent is in range.
    pub open spec fn wf(self) -> bool {
        if self.digits.len() == 0 {
            self == zero_parts()
        } else {
            &&& digits::all_digits(self.digits)
            &&& self.digits[0] != 0
            &&& self.digits.last() != 0
            &&& MIN_EXPONENT <= self.exponent <= MAX_EXPONENT
        }
    }

    /// The power of ten that the last digit counts.
    pub open spec fn unit(self) -> int {
        self.exponent - self.digits.len()
    }

    /// The number as a multiple of `10^u`, where `u` is at most the power of ten
    /// of its last digit.
    pub open spec fn scaled(self, u: int) -> int {
        let m = digits::number(self.digits) * digits::pow10((self.unit() - u) as nat);
        if self.negative {
            -(m as int)
        } else {
            m as int
        }
    }
}

impl Value {
    /// The number in it is normalized.
    pub open spec fn wf(self) -> bool {
        match self {
            Value::Special(_) => true,
            Value::Finite(p) => p.wf(),
        }
    }
}

/// `a` is less than `b` as numbers: both are multiples of `10^u` for the lesser
/// `u` of their last digits, and the multiples compare so.
pub open spec fn parts_lt(a: Parts, b: Parts) -> bool {
    let u = if a.unit() < b.unit() {
        a.unit()
    } else {
        b.unit()
    };
    a.scaled(u) < b.scaled(u)
}

/// The place of a special value or a number among the kinds of values.
pub open spec fn rank(v: Value) -> int {
    match v {
        Value::Special(SpecialValue::NegInfinity) => 0,
        Value::Finite(_) => 1,
        Value::Special(SpecialValue::Infinity) => 2,
        Value::Special(SpecialValue::NaN) => 3,
    }
}

/// The order of values: negative infinity, then the numbers by size, then
/// positive infinity, then NaN.
pub open spec fn value_lt(a: Value, b: Value) -> bool {
    match (a, b) {
        (Value::Finite(p), Value::Finite(q)) => parts_lt(p, q),
        _ => rank(a) < rank(b),
    }
}

/// A finite number in positional notation: the digits around the decimal point,
/// filled with zeros up to it, and at least one digit before it.
pub open spec fn plain_text(p: Parts) -> Seq<char> {
    let n = p.digits.len();
    let t = numeral::numeral(p.digits);
    let sign: Seq<char> = if p.negative {
        seq!['-']
    } else {
        Seq::empty()
    };
    if n == 0 {
        seq!['0']
    } else if p.exponent >= n {
        sign + t + text::zeros((p.exponent - n) as nat)
    } else if p.exponent <= 0 {
        sign + seq!['0', '.'] + text::zeros((-p.exponent) as nat) + t
    } else {
        sign + t.take(p.exponent) + seq!['.'] + t.skip(p.exponent)
    }
}

/// The text of a value.
pub open spec fn value_text(v: Value) -> Seq<char> {
    match v {
        Value::Special(s) => special::special_text(s),
        Value::Finite(p) => plain_text(p),
    }
}

/// The literal `t`, with more than `scale` digits behind its point, rounded to that
/// many, a tie away from zero. Zero has no sign.
pub open spec fn rounded_text(t: Seq<char>, scale: nat) -> Seq<char> {
    let body = parse::unsigned_text(t);
    let (w, f) = rounding::round_right(
        text::before_point(body),
        text::after_point(body),
        scale,
    )->0;
    let sign: Seq<char> = if t.len() > 0 && t[0] == '-' && numeral::text_number(w + f) > 0 {
        seq!['-']
    } else {
        Seq::empty()
    };
    sign + w + seq!['.'] + f
}

/// The literal `t` with exactly `scale` digits behind its point, rounded or filled with
/// zeros; for a `scale` of zero or less as it is.
pub open spec fn fixed_text(t: Seq<char>, scale: int) -> Seq<char> {
    let have = text::after_point(t).len();
    if scale <= 0 {
        t
    } else if text::point(t) == t.len() {
        t + seq!['.'] + text::zeros(scale as nat)
    } else if have > scale {
        rounded_text(t, scale as nat)
    } else {
        t + text::zeros((scale - have) as nat)
    }
}

/// The text of a value with exactly `scale` digits behind the point, where that is
/// positive; special values have none.
pub open spec fn scaled_text(v: Value, scale: int) -> Seq<char> {
    match v {
        Value::Special(s) => special::special_text(s),
        Value::Finite(p) => fixed_text(plain_text(p), scale),
    }
}

/// The parts of `n * 10^-scale` are normalized, but for the range of the exponent,
/// and count `n` in units of `10^-scale`.
pub proof fn law_scaled_parts(n: int, scale: int)
    ensures
        ({
            let p = scaled_parts(n, scale);
            &&& digits::all_digits(p.digits)
            &&& p.wf() <==> n == 0 || MIN_EXPONENT <= p.exponent <= MAX_EXPONENT
            &&& n != 0 ==> p.unit() >= -scale && p.scaled(-scale) == n
            &&& n == 0 ==> p == zero_parts()
        }),
{
    let m = (if n < 0 { -n } else { n }) as nat;
    let t = numeral::nat_text(m);
    let vs = numeral::values(t);
    let p = scaled_parts(n, scale);
    numeral::lemma_nat_text(m);
    numeral::lemma_values(t);
    digits::lemma_strip_trailing(vs);
    if n != 0 {
        assert(text::is_digit(t[0]));
        assert(vs[0] != 0);
        digits::lemma_number_lower(vs);
        digits::lemma_pow10_pos((vs.len() - 1) as nat);
        if p.digits.len() == 0 {
            assert(digits::number(p.digits) == 0);
            let q = digits::pow10(vs.len());
            assert(0nat * q == 0) by (nonlinear_arith);
        }
        assert((p.unit() + scale) as nat == (vs.len() - p.digits.len()) as nat);
    }
}

} // verus!
