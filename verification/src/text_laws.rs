//! The texts that numbers are written as, and what the operations on texts do to any text.
use vstd::prelude::*;

use crate::decimal64_no_scale;
use crate::digits;
use crate::error::ErrorView;
use crate::fixed;
use crate::fixed_laws;
use crate::literal;
use crate::literal::Literal;
use crate::numeral;
use crate::numeric_laws;
use crate::parse;
use crate::rounding;
use crate::rounding_laws;
use crate::roundtrip;
use crate::special;
use crate::special::SpecialValue;
use crate::text;
use crate::value;
use crate::value::Parts;
use crate::value::Value;

verus! {

// ==================== Digits and numbers ====================

/// The digits are the ten characters from 48 on, in the order of their values.
pub proof fn law_digit(c: char, d: u8)
    ensures
        text::is_digit(c) <==> 48 <= c as u32 <= 57,
        text::is_digit(c) ==> text::digit_value(c) == c as u32 - 48,
        d < 10 ==> text::digit_char(d) as u32 == 48 + d,
{
}

/// A numeral is made of digits. A digit writes its value, and a numeral behind another
/// adds its number to that one's, moved up by its length.
pub proof fn law_numeral(a: Seq<char>, b: Seq<char>, c: char)
    ensures
        numeral::is_numeral(a) <==> forall|i: int|
            0 <= i < a.len() ==> 48 <= #[trigger] a[i] as u32 <= 57,
        numeral::text_number(Seq::<char>::empty()) == 0,
        text::is_digit(c) ==> numeral::text_number(seq![c]) == c as u32 - 48,
        numeral::is_numeral(a) && numeral::is_numeral(b) ==> numeral::text_number(a + b)
            == numeral::text_number(a) * vstd::arithmetic::power::pow(10, b.len())
            + numeral::text_number(b),
{
    let e = Seq::<char>::empty();
    assert(numeral::values(e) =~= Seq::<u8>::empty());
    assert(e.push(c) =~= seq![c]);
    numeral::lemma_values_push(e, c);
    law_power(b.len());
    if numeral::is_numeral(a) && numeral::is_numeral(b) {
        rounding_laws::lemma_numeral_concat(a, b);
    }
    if numeral::is_numeral(a) {
        assert forall|i: int| 0 <= i < a.len() implies 48 <= #[trigger] a[i] as u32 <= 57 by {
            assert(text::is_digit(a[i]));
        }
    }
    if forall|i: int| 0 <= i < a.len() ==> 48 <= #[trigger] a[i] as u32 <= 57 {
        assert forall|i: int| 0 <= i < a.len() implies text::is_digit(#[trigger] a[i]) by {
            law_digit(a[i], 0);
        }
    }
}

/// The powers of ten are the powers of ten.
pub proof fn law_power(n: nat)
    ensures
        digits::pow10(n) == vstd::arithmetic::power::pow(10, n),
    decreases n,
{
    reveal(vstd::arithmetic::power::pow);
    if n > 0 {
        law_power((n - 1) as nat);
    }
}

/// A digit writes its value, and digits behind others add their number to that of those,
/// moved up by their length.
pub proof fn law_number(a: Seq<u8>, b: Seq<u8>, d: u8)
    ensures
        digits::number(Seq::<u8>::empty()) == 0,
        digits::number(seq![d]) == d,
        digits::number(a + b) == digits::number(a) * vstd::arithmetic::power::pow(10, b.len())
            + digits::number(b),
{
    let e = Seq::<u8>::empty();
    assert(e.push(d) =~= seq![d]);
    digits::lemma_number_push(e, d);
    digits::lemma_number_concat(a, b);
    law_power(b.len());
}

/// The number counted in units of `10^u`: its digits with `10^(exponent - length - u)`
/// behind them, and its sign.
pub proof fn law_scaled(p: Parts, u: int)
    requires
        u <= p.exponent - p.digits.len(),
    ensures
        ({
            let k = (p.exponent - p.digits.len() - u) as nat;
            fixed_laws::magnitude(p.scaled(u)) == digits::number(p.digits + digits::zero_digits(k))
                && (p.scaled(u) < 0 ==> p.negative) && (p.scaled(u) > 0 ==> !p.negative)
        }),
{
    let k = (p.exponent - p.digits.len() - u) as nat;
    digits::lemma_number_concat(p.digits, digits::zero_digits(k));
    digits::lemma_number_zeros(k);
}

/// The text of an integer: a minus sign before a negative one, and the digits that write it,
/// without needless zeros.
pub proof fn law_integer_text(n: int)
    ensures
        ({
            let t = numeral::nat_text(fixed_laws::magnitude(n));
            &&& numeral::int_text(n) == (if n < 0 {
                seq!['-'] + t
            } else {
                t
            })
            &&& numeral::is_numeral(t)
            &&& numeral::text_number(t) == fixed_laws::magnitude(n)
            &&& t.len() > 0
            &&& t.len() > 1 ==> t[0] != '0'
        }),
{
    let m = fixed_laws::magnitude(n);
    let t = numeral::nat_text(m);
    numeral::lemma_nat_text(m);
    if m == 0 {
        assert(t.len() == 1);
    }
}

/// Digits before and behind the point without needless zeros: at the front of the integer,
/// and at the end of the fraction.
pub open spec fn short_form(l: Literal) -> bool {
    &&& l.sign != Some(false)
    &&& l.exponent is None
    &&& l.point == (l.frac.len() > 0)
    &&& l.whole.len() > 0
    &&& l.whole.len() > 1 ==> l.whole[0] != '0'
    &&& l.frac.len() > 0 ==> l.frac.last() != '0'
}

/// Digits whose first and last are not zero, or none, with any exponent.
pub open spec fn trimmed(p: Parts) -> bool {
    digits::all_digits(p.digits) && (p.digits.len() > 0 ==> p.digits[0] != 0 && p.digits.last()
        != 0)
}

/// The text of such a number is a literal of the number without an exponent and without
/// needless digits and signs.
pub proof fn law_text(p: Parts) -> (l: Literal)
    requires
        trimmed(p),
    ensures
        l.wf(),
        l.text() == value::value_text(Value::Finite(p)),
        short_form(l),
        l.whole == roundtrip::plain_whole(p),
        l.frac == roundtrip::plain_frac(p),
        l.minus() == (p.negative && p.digits.len() > 0),
        p.digits.len() == 0 ==> l.number() == 0 && l.unit() == 0,
        p.digits.len() > 0 ==> l.number() > 0 && l.unit() <= p.unit(),
        forall|v: int|
            v <= l.unit() && v <= p.unit() ==> #[trigger] p.scaled(v) == literal::with_sign(
                p.negative,
                l.number() * digits::pow10((l.unit() - v) as nat),
            ),
{
    let l = fixed_laws::law_any_text(p);
    numeral::lemma_numeral(p.digits);
    let t = numeral::numeral(p.digits);
    if p.digits.len() > 0 {
        assert(p.digits[0] <= 9 && p.digits[p.digits.len() - 1] <= 9);
        assert(t[0] != '0' && t.last() != '0');
        if p.exponent > 0 {
            assert(l.whole[0] == t[0]);
        }
        if l.frac.len() > 0 {
            assert(l.frac.last() == t.last());
        }
        digits::lemma_number_last_nonzero(p.digits);
        let u = l.unit();
        let k = (p.unit() - u) as nat;
        let n = digits::number(p.digits);
        let x = digits::pow10(k);
        digits::lemma_pow10_pos(k);
        assert(n * x > 0) by (nonlinear_arith)
            requires
                n > 0,
                x > 0,
        ;
        assert(p.scaled(u) != 0);
        let one = digits::pow10(0);
        let m = l.number();
        assert(m * one == m) by (nonlinear_arith)
            requires
                one == 1,
        ;
    }
    l
}

/// The texts of the special values.
pub proof fn law_special_text(v: SpecialValue)
    ensures
        value::value_text(Value::Special(v)) == (match v {
            SpecialValue::Infinity => seq!['I', 'n', 'f', 'i', 'n', 'i', 't', 'y'],
            SpecialValue::NegInfinity => seq!['-', 'I', 'n', 'f', 'i', 'n', 'i', 't', 'y'],
            SpecialValue::NaN => seq!['N', 'a', 'N'],
        }),
{
    reveal_strlit("Infinity");
    reveal_strlit("-Infinity");
    reveal_strlit("NaN");
    match v {
        SpecialValue::Infinity => {
            assert("Infinity"@ =~= seq!['I', 'n', 'f', 'i', 'n', 'i', 't', 'y']);
        },
        SpecialValue::NegInfinity => {
            assert("-Infinity"@ =~= seq!['-', 'I', 'n', 'f', 'i', 'n', 'i', 't', 'y']);
        },
        SpecialValue::NaN => {
            assert("NaN"@ =~= seq!['N', 'a', 'N']);
        },
    }
}

/// A numeral that was counted up has no needless zero where the first had none.
proof fn lemma_next(w: Seq<char>)
    requires
        numeral::is_numeral(w),
        w.len() > 0,
        w.len() > 1 ==> w[0] != '0',
    ensures
        numeral::increment(w) matches Some(t) && t.len() > 0 && (t.len() > 1 ==> t[0] != '0'),
{
    numeral::lemma_increment(w);
    let t = numeral::increment(w)->0;
    if t.len() > 1 && t[0] == '0' {
        assert(t.len() == w.len());
        numeral::lemma_values(w);
        numeral::lemma_values(t);
        assert(text::is_digit(w[0]));
        digits::lemma_number_lower(numeral::values(w));
        digits::lemma_number_first(numeral::values(t));
        let rest = numeral::values(t).drop_first();
        assert(digits::all_digits(rest)) by {
            assert forall|i: int| 0 <= i < rest.len() implies #[trigger] rest[i] <= 9 by {
                assert(numeral::values(t)[i + 1] <= 9);
            }
        }
        digits::lemma_number_bound(rest);
        let h = digits::pow10((t.len() - 1) as nat);
        assert(0nat * h == 0) by (nonlinear_arith);
    }
}

/// The text of a number with a positive number of digits behind its point: that many, the
/// multiple that is nearest to the number, a tie away from zero, and its sign unless it is
/// zero. Digits without a needless zero at their front get none.
#[verifier::rlimit(40)]
pub proof fn law_fixed_text(p: Parts, scale: int, v: int, r: nat) -> (l: Literal)
    requires
        digits::all_digits(p.digits),
        p.digits.len() > 0 && p.negative ==> digits::number(p.digits) > 0,
        scale > 0,
        v <= p.unit(),
        v <= -scale,
        numeric_laws::nearest(
            fixed_laws::magnitude(p.scaled(v)),
            digits::pow10((-scale - v) as nat),
            r,
        ),
    ensures
        l.wf(),
        l.text() == value::scaled_text(Value::Finite(p), scale),
        l.exponent is None,
        l.sign == (if p.negative && r > 0 {
            Some(true)
        } else {
            None
        }),
        l.frac.len() == scale,
        l.whole.len() > 0,
        trimmed(p) && l.whole.len() > 1 ==> l.whole[0] != '0',
        l.number() == r,
{
    let l0 = fixed_laws::law_any_text(p);
    if trimmed(p) {
        law_text(p);
    }
    let w = roundtrip::plain_whole(p);
    let f = roundtrip::plain_frac(p);
    let negative = p.negative && p.digits.len() > 0;
    numeric_laws::lemma_rounded(w, f, scale, v);
    digits::lemma_pow10_pos((-scale - v) as nat);
    numeric_laws::lemma_nearest(
        fixed_laws::magnitude(p.scaled(v)),
        digits::pow10((-scale - v) as nat),
        r,
    );
    assert(fixed_laws::magnitude(p.scaled(v)) == l0.number() * digits::pow10(
        (l0.unit() - v) as nat,
    ));
    assert(r == rounding::rounded(w, f, scale as nat));
    roundtrip::lemma_plain_shape(p);
    if p.digits.len() == 0 {
        let x = digits::pow10((l0.unit() - v) as nat);
        assert(0nat * x == 0) by (nonlinear_arith);
        rounding_laws::lemma_round_div_small(0, digits::pow10((-scale - v) as nat));
        assert(r == 0);
    }
    if p.digits.len() > 0 && p.negative {
        let k = (p.unit() - l0.unit()) as nat;
        let n = digits::number(p.digits);
        let x = digits::pow10(k);
        digits::lemma_pow10_pos(k);
        assert(n * x > 0) by (nonlinear_arith)
            requires
                n > 0,
                x > 0,
        ;
        assert(p.scaled(l0.unit()) != 0);
        let one = digits::pow10(0);
        let m = l0.number();
        assert(m * one == m) by (nonlinear_arith)
            requires
                one == 1,
        ;
    }
    lemma_fixed_literal(negative, w, f, scale)
}

/// The text of digits with a number of digits behind the point is a literal with so many.
#[verifier::rlimit(40)]
proof fn lemma_fixed_literal(negative: bool, w: Seq<char>, f: Seq<char>, scale: int) -> (l: Literal)
    requires
        numeral::is_numeral(w),
        numeral::is_numeral(f),
        w.len() > 0,
        scale > 0,
        negative ==> numeral::text_number(w + f) > 0,
    ensures
        l.wf(),
        l.text() == value::fixed_text(
            roundtrip::literal_text(negative, w, f, f.len() > 0),
            scale,
        ),
        l.exponent is None,
        l.sign == (if negative && l.number() > 0 {
            Some(true)
        } else {
            None
        }),
        l.frac.len() == scale,
        l.whole.len() > 0,
        (w.len() > 1 ==> w[0] != '0') ==> (l.whole.len() > 1 ==> l.whole[0] != '0'),
        l.number() == rounding::rounded(w, f, scale as nat),
{
    if f.len() <= scale {
        let z = text::zeros((scale - f.len()) as nat);
        roundtrip::lemma_padded_literal(negative, w, f, scale);
        numeral::lemma_values_zeros(z.len());
        digits::lemma_number_zeros(z.len());
        rounding_laws::lemma_numeral_concat(f, z);
        rounding_laws::lemma_numeral_concat(w, f);
        rounding_laws::lemma_numeral_concat(w + f, z);
        assert(w + (f + z) =~= (w + f) + z);
        let n = numeral::text_number(w + f);
        let x = digits::pow10(z.len());
        digits::lemma_pow10_pos(z.len());
        assert(n > 0 ==> n * x > 0) by (nonlinear_arith)
            requires
                x > 0,
        ;
        lemma_pointed(negative, w, f + z)
    } else {
        let k = scale as nat;
        lemma_rounded_text(negative, w, f, k);
        rounding_laws::lemma_round_right(w, f, k);
        if w.len() > 1 ==> w[0] != '0' {
            lemma_rounded_front(w, f, k);
        }
        let (w2, f2) = rounding::round_right(w, f, k)->0;
        rounding_laws::lemma_numeral_concat(w2, f2);
        let y = numeral::text_number(f2);
        let one = digits::pow10(0);
        assert(y * one == y) by (nonlinear_arith)
            requires
                one == 1,
        ;
        lemma_pointed(negative && numeral::text_number(w2 + f2) > 0, w2, f2)
    }
}

/// The text of digits with a longer fraction is that of the rounded digits.
proof fn lemma_rounded_text(negative: bool, w: Seq<char>, f: Seq<char>, scale: nat)
    requires
        numeral::is_numeral(w),
        numeral::is_numeral(f),
        w.len() > 0,
        0 < scale < f.len(),
    ensures
        rounding::round_right(w, f, scale) matches Some((w2, f2)) && value::fixed_text(
            roundtrip::literal_text(negative, w, f, true),
            scale as int,
        ) == roundtrip::literal_text(
            negative && numeral::text_number(w2 + f2) > 0,
            w2,
            f2,
            true,
        ),
{
    roundtrip::lemma_literal_point(negative, w, f, true);
    rounding_laws::lemma_round_right(w, f, scale);
    let (w2, f2) = rounding::round_right(w, f, scale)->0;
    let shown = negative && numeral::text_number(w2 + f2) > 0;
    let t = value::fixed_text(roundtrip::literal_text(negative, w, f, true), scale as int);
    assert(t =~= roundtrip::literal_text(shown, w2, f2, true));
}

/// The literal of digits around a point.
proof fn lemma_pointed(negative: bool, w: Seq<char>, f: Seq<char>) -> (l: Literal)
    requires
        numeral::is_numeral(w),
        numeral::is_numeral(f),
    ensures
        l.wf(),
        l.text() == roundtrip::literal_text(negative, w, f, true),
        l.exponent is None,
        l.sign == (if negative {
            Some(true)
        } else {
            None
        }),
        l.whole == w,
        l.frac == f,
{
    let none: Option<literal::Exponent> = None;
    let sign: Option<bool> = if negative {
        Some(true)
    } else {
        None
    };
    let l = Literal { sign, whole: w, point: true, frac: f, exponent: none };
    assert(l.text() =~= roundtrip::literal_text(negative, w, f, true));
    l
}

/// The integer beside a rounded fraction has no needless zero at its front.
proof fn lemma_rounded_front(w: Seq<char>, f: Seq<char>, scale: nat)
    requires
        numeral::is_numeral(w),
        numeral::is_numeral(f),
        w.len() > 0,
        w.len() > 1 ==> w[0] != '0',
    ensures
        rounding::round_right(w, f, scale) matches Some((w2, _)) && w2.len() > 0 && (w2.len() > 1
            ==> w2[0] != '0'),
{
    rounding_laws::lemma_round_right(w, f, scale);
    lemma_next(w);
}

/// A scale of zero or less changes nothing of the text of a value, and no scale changes that
/// of a special value.
pub proof fn law_unscaled_text(v: Value, scale: int)
    ensures
        scale <= 0 || v is Special ==> value::scaled_text(v, scale) == value::value_text(v),
{
}

/// The text of `n * 10^-scale` at that scale: all the digits of `n`, so many of them behind the
/// point as the scale says, or with its zeros for a scale of zero or less.
pub proof fn law_text_at_scale(n: int, scale: int) -> (l: Literal)
    ensures
        l.wf(),
        l.text() == value::scaled_text(Value::Finite(value::scaled_parts(n, scale)), scale),
        l.exponent is None,
        l.sign == (if n < 0 {
            Some(true)
        } else {
            None
        }),
        l.whole.len() > 0,
        l.whole.len() > 1 ==> l.whole[0] != '0',
        l.frac.len() == (if scale > 0 {
            scale
        } else {
            0
        }),
        l.number() == (if scale > 0 {
            fixed_laws::magnitude(n)
        } else {
            fixed_laws::magnitude(n) * digits::pow10((-scale) as nat)
        }),
{
    let p = value::scaled_parts(n, scale);
    let m = fixed_laws::magnitude(n);
    lemma_trimmed(n, scale);
    value::law_scaled_parts(n, scale);
    let one = digits::pow10(0);
    if scale > 0 {
        if n == 0 {
            let x = digits::pow10(scale as nat);
            assert(digits::number(p.digits) == 0);
            assert(0nat * x == 0) by (nonlinear_arith);
        }
        assert(fixed_laws::magnitude(p.scaled(-scale)) == m);
        assert((2 * m - 1) * one <= 2 * m && 2 * m < (2 * m + 1) * one) by (nonlinear_arith)
            requires
                one == 1,
        ;
        law_fixed_text(p, scale, -scale, m)
    } else {
        let l = law_text(p);
        crate::decimal64_laws::lemma_count(n, scale, 0);
        let c = l.number();
        let x = digits::pow10((-scale) as nat);
        assert(c * one == c) by (nonlinear_arith)
            requires
                one == 1,
        ;
        assert(n * x == (if n < 0 { -((m * x) as int) } else { (m * x) as int }))
            by (nonlinear_arith)
            requires
                m == (if n < 0 { -n } else { n }),
        ;
        assert(p.scaled(0) == n * x);
        assert(n == 0 ==> m * x == 0) by (nonlinear_arith)
            requires
                m == (if n < 0 { -n } else { n }),
        ;
        l
    }
}

/// The parts of `n * 10^-scale` have neither a leading nor a trailing zero.
proof fn lemma_trimmed(n: int, scale: int)
    ensures
        trimmed(value::scaled_parts(n, scale)),
        n != 0 ==> value::scaled_parts(n, scale).digits.len() > 0,
{
    let t = numeral::nat_text(fixed_laws::magnitude(n));
    value::law_scaled_parts(n, scale);
    if n != 0 {
        numeral::lemma_nat_text(fixed_laws::magnitude(n));
        numeral::lemma_values(t);
        let vs = numeral::values(t);
        assert(text::is_digit(t[0]));
        assert(vs[0] != 0);
        digits::lemma_strip_trailing(vs);
        if digits::strip_trailing(vs).len() == 0 {
            assert(vs[0] == digits::zero_digits(vs.len())[0]);
        }
    }
}

// ==================== Cut texts ====================

/// The text of digits that were cut is a literal of them.
#[verifier::rlimit(40)]
proof fn lemma_cut_literal(
    negative: bool,
    w0: Seq<char>,
    f0: Seq<char>,
    precision: Option<u32>,
    scale: int,
) -> (o: Literal)
    requires
        numeral::is_numeral(w0),
        numeral::is_numeral(f0),
        scale >= 0,
    ensures
        o.wf(),
        rounding::cut_text(negative, w0, f0, precision, scale) == Some(o.text()),
        o.exponent is None,
        o.sign != Some(false),
        o.point == (o.frac.len() > 0),
        o.frac.len() > 0 ==> o.frac.last() != '0',
        o.whole.len() > 0,
        precision is None && o.whole.len() > 1 ==> o.whole[0] != '0',
{
    let n = scale as nat;
    let w1 = rounding::short(w0);
    rounding_laws::lemma_short(w0);
    numeral::lemma_skip_zeros(w0);
    rounding_laws::lemma_round_right(w1, f0, n);
    lemma_rounded_front(w1, f0, n);
    let (w, f) = rounding::round_right(w1, f0, n)->0;
    rounding_laws::lemma_limit_integer(w, f, precision, n);
    let last = rounding::limit_integer(w, precision, n)->0;
    let d = text::drop_zeros(f);
    numeral::lemma_drop_zeros(f);
    let joined = rounding::join(last, f);
    let none: Option<literal::Exponent> = None;
    let sign: Option<bool> = if negative && joined != seq!['0'] {
        Some(true)
    } else {
        None
    };
    let o = Literal { sign, whole: last, point: d.len() > 0, frac: d, exponent: none };
    assert(o.run() =~= joined);
    assert(o.text() =~= rounding::with_sign(negative, joined));
    o
}

/// Cutting a literal to a precision and a scale of zero or more writes the multiple of
/// `10^-scale` that is nearest to its number, a tie away from zero, with its sign, and of
/// that the last digits that the precision leaves room for. It has neither a point without
/// digits behind it nor a zero at its end there.
#[verifier::rlimit(40)]
pub proof fn law_cut_text(
    a: Seq<char>,
    l: Literal,
    c: Seq<char>,
    precision: Option<u32>,
    scale: Option<i32>,
    v: int,
    r: nat,
) -> (o: Literal)
    requires
        literal::blank(a),
        literal::blank(c),
        l.wf(),
        l.shift() == 0 || parse::parse_value(a + l.text() + c) is Ok,
        scale.unwrap_or(0) >= 0,
        v <= l.unit(),
        v <= -scale.unwrap_or(0),
        numeric_laws::nearest(
            l.number() * digits::pow10((l.unit() - v) as nat),
            digits::pow10((-scale.unwrap_or(0) - v) as nat),
            r,
        ),
    ensures
        rounding::truncate_text(a + l.text() + c, precision, scale) == Some(
            Ok::<Seq<char>, ErrorView>(o.text()),
        ),
        o.wf(),
        o.exponent is None,
        o.sign != Some(false),
        o.point == (o.frac.len() > 0),
        o.frac.len() > 0 ==> o.frac.last() != '0',
        o.whole.len() > 0,
        precision is None && o.whole.len() > 1 ==> o.whole[0] != '0',
        o.frac.len() <= scale.unwrap_or(0),
        o.number() * digits::pow10((scale.unwrap_or(0) - o.frac.len()) as nat)
            == numeric_laws::last_digits(r, precision, scale.unwrap_or(0) as int),
        o.number() > 0 ==> o.minus() == l.minus(),
{
    let s = a + l.text() + c;
    let sc = scale.unwrap_or(0) as int;
    numeric_laws::lemma_positional_number(a, l, c, sc, v, r);
    literal::lemma_literal(a, l, c);
    let (w, f) = rounding::positional(s)->Ok_0;
    rounding_laws::law_round_to_scale(s, precision, scale);
    let o = lemma_cut_literal(parse::literal_negative(s), w, f, precision, sc);
    let e = Seq::<char>::empty();
    assert(e + o.text() + e =~= o.text());
    literal::lemma_literal(e, o, e);
    let x = digits::pow10((sc - o.frac.len()) as nat);
    digits::lemma_pow10_pos((sc - o.frac.len()) as nat);
    let n = o.number();
    assert(n > 0 ==> n * x > 0) by (nonlinear_arith)
        requires
            x > 0,
    ;
    o
}

/// Cutting a literal at a negative scale writes the multiple of that power of ten that is
/// nearest to its number, a tie away from zero, of that the last digits that the precision
/// leaves room for, and its zeros.
#[verifier::rlimit(40)]
pub proof fn law_cut_text_left(
    a: Seq<char>,
    l: Literal,
    c: Seq<char>,
    precision: Option<u32>,
    scale: i32,
    v: int,
    r: nat,
) -> (o: Literal)
    requires
        literal::blank(a),
        literal::blank(c),
        l.wf(),
        l.shift() == 0 || parse::parse_value(a + l.text() + c) is Ok,
        scale < 0,
        v <= l.unit(),
        v <= -scale,
        numeric_laws::nearest(
            l.number() * digits::pow10((l.unit() - v) as nat),
            digits::pow10((-scale - v) as nat),
            r,
        ),
    ensures
        rounding::truncate_text(a + l.text() + c, precision, Some(scale)) == Some(
            Ok::<Seq<char>, ErrorView>(o.text()),
        ),
        o.wf(),
        o.exponent is None,
        o.sign != Some(false),
        !o.point,
        o.whole.len() > 0,
        o.number() == numeric_laws::last_digits(r, precision, scale as int) * digits::pow10(
            (-scale) as nat,
        ),
        o.number() > 0 ==> o.minus() == l.minus(),
{
    let s = a + l.text() + c;
    let negative = parse::literal_negative(s);
    numeric_laws::lemma_positional_number(a, l, c, scale as int, v, r);
    literal::lemma_literal(a, l, c);
    let (w, f) = rounding::positional(s)->Ok_0;
    let k = (-scale) as nat;
    rounding_laws::law_round_to_power(s, precision, scale);
    rounding_laws::lemma_short(w);
    rounding_laws::lemma_round_left(rounding::short(w), precision, k);
    let t = rounding::round_left(rounding::short(w), precision, k)->0;
    let none: Option<literal::Exponent> = None;
    let sign: Option<bool> = if negative && t != seq!['0'] {
        Some(true)
    } else {
        None
    };
    let e = Seq::<char>::empty();
    let o = Literal { sign, whole: t, point: false, frac: e, exponent: none };
    assert(o.text() =~= rounding::with_sign(negative, t));
    assert(e + o.text() + e =~= o.text());
    literal::lemma_literal(e, o, e);
    let x = digits::pow10(k);
    digits::lemma_pow10_pos(k);
    let left = numeric_laws::last_digits(r, precision, scale as int);
    assert(left == 0 ==> left * x == 0) by (nonlinear_arith);
    o
}

/// More signs than one before a number are left out where it is cut; the first one counts.
#[verifier::rlimit(40)]
pub proof fn law_more_signs(
    a: Seq<char>,
    g: Seq<char>,
    l: Literal,
    c: Seq<char>,
    precision: Option<u32>,
    scale: Option<i32>,
)
    requires
        literal::blank(a),
        literal::blank(c),
        l.wf(),
        l.exponent is None,
        l.sign is Some,
        forall|i: int| 0 <= i < g.len() ==> #[trigger] g[i] == '-' || g[i] == '+',
    ensures
        rounding::truncate_text(
            a + (literal::sign_text(l.sign) + (g + l.run())) + c,
            precision,
            scale,
        ) == rounding::truncate_text(a + l.text() + c, precision, scale),
        rounding::constrained_bytes(
            a + (literal::sign_text(l.sign) + (g + l.run())) + c,
            precision,
            scale,
        ) == rounding::constrained_bytes(a + l.text() + c, precision, scale),
{
    literal::lemma_literal(a, l, c);
    rounding_laws::lemma_plain(a + l.text() + c);
    if g.len() == 0 {
        assert(g + l.run() =~= l.run());
        assert(literal::sign_text(l.sign) + l.run() =~= l.text());
    } else {
        if l.run().len() > 0 {
            lemma_run_ends(l);
        }
        lemma_signed_body(a, l.minus(), g, l.run(), c);
        assert(literal::sign_text(l.sign) =~= seq![if l.minus() { '-' } else { '+' }]);
    }
}

/// The digits and the point of a literal start and end with one of those.
proof fn lemma_run_ends(l: Literal)
    requires
        l.wf(),
        l.run().len() > 0,
    ensures
        text::is_digit(l.run()[0]) || l.run()[0] == '.',
        text::is_digit(l.run().last()) || l.run().last() == '.',
{
    let run = l.run();
    if l.whole.len() > 0 {
        assert(run[0] == l.whole[0]);
        assert(text::is_digit(l.whole[0]));
    }
    if l.point && l.frac.len() > 0 {
        assert(run.last() == l.frac[l.frac.len() - 1]);
        assert(text::is_digit(l.frac[l.frac.len() - 1]));
    } else if !l.point {
        assert(run.last() == l.whole[l.whole.len() - 1]);
        assert(text::is_digit(l.whole[l.whole.len() - 1]));
    }
}

/// What is cut of a text with more signs than one.
#[verifier::rlimit(40)]
proof fn lemma_signed_body(a: Seq<char>, minus: bool, g: Seq<char>, run: Seq<char>, c: Seq<char>)
    requires
        literal::blank(a),
        literal::blank(c),
        g.len() > 0,
        forall|i: int| 0 <= i < g.len() ==> #[trigger] g[i] == '-' || g[i] == '+',
        run.len() > 0 ==> (text::is_digit(run[0]) || run[0] == '.') && (text::is_digit(run.last())
            || run.last() == '.'),
    ensures
        ({
            let s = a + (seq![if minus { '-' } else { '+' }] + (g + run)) + c;
            &&& rounding::positional(s) == Ok::<(Seq<char>, Seq<char>), ErrorView>(
                (text::before_point(run), text::after_point(run)),
            )
            &&& parse::literal_negative(s) == minus
            &&& special::special_of_text(s) is None
        }),
{
    let h = seq![if minus { '-' } else { '+' }];
    let body = g + run;
    let t = h + body;
    let s = a + t + c;
    assert(t.last() == if run.len() > 0 {
        run.last()
    } else {
        g[g.len() - 1]
    });
    literal::law_trim(a, t, c);
    assert(parse::unsigned_text(t) =~= body);
    assert(body[0] == g[0]);
    literal::lemma_no_name(s);
    assert(parse::run_len(body) == 0);
    assert(body.skip(0) =~= body);
    assert(parse::literal_tail(s) == body);
    assert(parse::literal_run(s) =~= Seq::<char>::empty());
    assert(!rounding::has_exponent(s)) by {
        text::lemma_point(text::after_point(parse::literal_run(s)));
    }
    assert(t =~= (h + g) + run);
    law_signs(h + g, run);
}

/// All signs at the front of a text are left out.
pub proof fn law_signs(g: Seq<char>, t: Seq<char>)
    requires
        forall|i: int| 0 <= i < g.len() ==> #[trigger] g[i] == '-' || g[i] == '+',
        t.len() > 0 ==> t[0] != '-' && t[0] != '+',
    ensures
        text::skip_signs(g + t) == t,
    decreases g.len(),
{
    let s = g + t;
    if g.len() == 0 {
        assert(s =~= t);
    } else {
        let h = g.drop_first();
        assert(s[0] == g[0]);
        assert(s.drop_first() =~= h + t);
        assert forall|i: int| 0 <= i < h.len() implies #[trigger] h[i] == '-' || h[i] == '+' by {
            assert(g[i + 1] == '-' || g[i + 1] == '+');
        }
        law_signs(h, t);
    }
}

// ==================== Pieces of texts ====================

/// A text is split at its first point; one without a point is all before it.
pub proof fn law_split(x: Seq<char>, y: Seq<char>)
    requires
        forall|i: int| 0 <= i < x.len() ==> x[i] != '.',
    ensures
        text::before_point(x + (seq!['.'] + y)) == x,
        text::after_point(x + (seq!['.'] + y)) == y,
        text::before_point(x) == x,
        text::after_point(x).len() == 0,
{
    let s = x + (seq!['.'] + y);
    text::lemma_point(s);
    text::lemma_point(x);
    assert(s[x.len() as int] == '.');
    let p = text::point(s);
    if p < x.len() {
        assert(s[p as int] == x[p as int]);
    }
    assert(text::before_point(s) =~= x);
    assert(text::after_point(s) =~= y);
    assert(text::before_point(x) =~= x);
}

/// The zeros at the front of a text are left out, and those at the end of one.
pub proof fn law_zeros(t: Seq<char>, n: nat)
    ensures
        t.len() == 0 || t[0] != '0' ==> text::skip_zeros(text::zeros(n) + t) == t
            && rounding::short(text::zeros(n) + t) == (if t.len() == 0 {
            seq!['0']
        } else {
            t
        }),
        t.len() == 0 || t.last() != '0' ==> text::drop_zeros(t + text::zeros(n)) == t,
    decreases n,
{
    let a = text::zeros(n) + t;
    let b = t + text::zeros(n);
    if n == 0 {
        assert(a =~= t);
        assert(b =~= t);
    } else {
        let m = (n - 1) as nat;
        assert(a[0] == '0' && b.last() == '0');
        assert(a.drop_first() =~= text::zeros(m) + t);
        assert(b.drop_last() =~= t + text::zeros(m));
        law_zeros(t, m);
    }
}

/// A character takes one to four bytes, and the bytes of texts add up.
pub proof fn law_byte_len(a: Seq<char>, b: Seq<char>, c: char)
    ensures
        text::byte_len(a + b) == text::byte_len(a) + text::byte_len(b),
        text::byte_len(seq![c]) == (if c as u32 <= 0x7F {
            1int
        } else if c as u32 <= 0x7FF {
            2
        } else if c as u32 <= 0xFFFF {
            3
        } else {
            4
        }),
    decreases a.len(),
{
    reveal_with_fuel(text::byte_len, 2);
    assert(seq![c].drop_first() =~= Seq::<char>::empty());
    if a.len() == 0 {
        assert(a + b =~= b);
    } else {
        assert((a + b).drop_first() =~= a.drop_first() + b);
        law_byte_len(a.drop_first(), b, c);
    }
}

/// A cut behind the bytes of a front of the text falls there, and one that falls anywhere
/// else inside a character is none.
pub proof fn law_boundary(a: Seq<char>, b: Seq<char>, n: nat)
    ensures
        text::boundary(a + b, text::byte_len(a)) == Some(a.len()),
        b.len() > 0 && text::byte_len(a) < n < text::byte_len(a) + text::byte_len(seq![b[0]])
            ==> text::boundary(a + b, n) is None,
    decreases a.len(),
{
    reveal_with_fuel(text::byte_len, 2);
    reveal_with_fuel(text::boundary, 2);
    let s = a + b;
    if b.len() > 0 {
        assert(seq![b[0]].drop_first() =~= Seq::<char>::empty());
    }
    if a.len() == 0 {
        assert(s =~= b);
    } else {
        let h = a.drop_first();
        assert(s[0] == a[0]);
        assert(s.drop_first() =~= h + b);
        law_boundary(h, b, (n - text::width(a[0])) as nat);
        text::lemma_byte_len_bound(h);
    }
}

/// The last bytes of a text are its end with so many, and all of it where it has no more.
pub proof fn law_last_bytes(a: Seq<char>, b: Seq<char>, n: nat)
    ensures
        rounding::last_bytes(a + b, text::byte_len(b)) == Some(b),
        n >= text::byte_len(b) ==> rounding::last_bytes(b, n) == Some(b),
{
    law_byte_len(a, b, '0');
    law_boundary(a, b, 0);
    if a.len() == 0 {
        assert(a + b =~= b);
    } else {
        text::lemma_byte_len_bound(a);
        assert((a + b).skip(a.len() as int) =~= b);
    }
}

// ==================== Counting up ====================

/// One added to a numeral. It has one digit more only where all of its digits were nines.
pub proof fn law_increment(d: Seq<char>)
    requires
        numeral::is_numeral(d),
    ensures
        numeral::increment(d) matches Some(t) && numeral::is_numeral(t) && numeral::text_number(t)
            == numeral::text_number(d) + 1 && t.len() == (if numeral::text_number(d) + 1
            == digits::pow10(d.len()) {
            d.len() + 1
        } else {
            d.len()
        }),
{
    numeral::lemma_increment(d);
    numeral::lemma_values(d);
    digits::lemma_number_bound(numeral::values(d));
    let t = numeral::increment(d)->0;
    numeral::lemma_values(t);
    digits::lemma_number_bound(numeral::values(t));
    if t.len() == d.len() + 1 {
        digits::lemma_number_lower(numeral::values(t));
    }
}

/// One added to digits behind a text: the text is kept where they need no digit more, and
/// else there is nothing to count up.
#[verifier::rlimit(40)]
pub proof fn law_increment_behind(x: Seq<char>, d: Seq<char>)
    requires
        x.len() > 0,
        !text::is_digit(x.last()),
        numeral::is_numeral(d),
    ensures
        numeral::increment(x + d) == (if numeral::text_number(d) + 1 == digits::pow10(d.len()) {
            None
        } else {
            Some(x + numeral::increment(d)->0)
        }),
    decreases d.len(),
{
    let s = x + d;
    law_increment(d);
    if d.len() == 0 {
        assert(s =~= x);
        assert(numeral::values(d) =~= Seq::<u8>::empty());
        assert(digits::pow10(0) == 1);
    } else {
        let h = d.drop_last();
        let c = d.last();
        assert(text::is_digit(d[d.len() - 1]));
        assert(s.last() == c);
        assert(s.drop_last() =~= x + h);
        assert forall|i: int| 0 <= i < h.len() implies text::is_digit(#[trigger] h[i]) by {
            assert(text::is_digit(d[i]));
        }
        law_increment_behind(x, h);
        law_increment(h);
        assert(h.push(c) =~= d);
        numeral::lemma_values_push(h, c);
        numeral::lemma_values(h);
        digits::lemma_number_bound(numeral::values(h));
        assert(digits::pow10(d.len()) == 10 * digits::pow10(h.len()));
        if c == '9' {
            if let Some(t) = numeral::increment(h) {
                assert((x + t).push('0') =~= x + t.push('0'));
            }
        } else {
            let y = text::digit_char((text::digit_value(c) + 1) as u8);
            assert((x + h).push(y) =~= x + h.push(y));
        }
    }
}

/// The texts that report the errors.
pub proof fn law_message(m: Seq<char>)
    ensures
        ErrorView::InvalidFormat(m).message() == "Invalid format: "@ + m,
        ErrorView::PrecisionOverflow.message() == "Precision overflow: exponent out of range"@,
        ErrorView::InvalidEncoding.message() == "Invalid encoding"@,
{
}

// ==================== Texts of any characters ====================

/// A text of digits, with a sign or without, is read as its integer, and any other as zero.
pub proof fn law_part(s: Seq<char>)
    ensures
        !literal::is_integer(s) ==> fixed::part_value(s) == 0 && numeral::signed_value(s) is None,
        numeral::is_numeral(s) ==> fixed::part_value(s) == numeral::text_number(s),
        numeral::is_numeral(s) ==> fixed::part_value(seq!['+'] + s) == numeral::text_number(s)
            && fixed::part_value(seq!['-'] + s) == -numeral::text_number(s),
{
    if numeral::is_numeral(s) {
        fixed::lemma_part_numeral(s);
        if s.len() > 0 {
            literal::lemma_signed(Some(false), s);
            literal::lemma_signed(Some(true), s);
        } else {
            assert(numeral::values(s) =~= Seq::<u8>::empty());
            assert((seq!['+'] + s).skip(1) =~= s);
            assert((seq!['-'] + s).len() == 1);
        }
    }
}

/// Any fraction is cut behind so many bytes. Whether that counts up goes by the character with
/// that number, where there is one; a carry goes to the integer.
pub proof fn law_round_any(w: Seq<char>, x: Seq<char>, y: Seq<char>)
    requires
        y.len() > 0,
    ensures
        ({
            let f = x + y;
            let n = text::byte_len(x);
            let r = rounding::round_right(w, f, n);
            if !(f.len() > n && f[n as int] >= '5') {
                r == Some((w, x))
            } else {
                match numeral::increment(x) {
                    None => r is None,
                    Some(t) => if n > 0 && text::byte_len(t) <= n {
                        r == Some((w, t))
                    } else {
                        match numeral::increment(w) {
                            None => r is None,
                            Some(u) => r == Some((u, text::zeros(n))),
                        }
                    },
                }
            }
        }),
{
    law_byte_len(x, y, '0');
    law_boundary(x, y, 0);
    text::lemma_byte_len_bound(y);
    assert((x + y).take(x.len() as int) =~= x);
}

/// A fraction that has no more bytes than digits are asked for is kept.
pub proof fn law_round_none(w: Seq<char>, f: Seq<char>, n: nat)
    requires
        text::byte_len(f) <= n,
    ensures
        rounding::round_right(w, f, n) == Some((w, f)),
{
}

/// Any fraction as a multiple counts what stands before the cut, and one more where the
/// character with that number says so.
pub proof fn law_fraction_any(x: Seq<char>, y: Seq<char>)
    requires
        y.len() > 0,
    ensures
        ({
            let f = x + y;
            let n = text::byte_len(x);
            decimal64_no_scale::fraction_value(f, n) == Some(
                fixed::part_value(x) + (if f.len() > n && f[n as int] >= '5' {
                    1int
                } else {
                    0
                }),
            )
        }),
{
    law_byte_len(x, y, '0');
    law_boundary(x, y, 0);
    text::lemma_byte_len_bound(y);
    assert((x + y).take(x.len() as int) =~= x);
}

/// Any integer is cut before so many of its last bytes, and counted up from a five on.
pub proof fn law_round_off_any(x: Seq<char>, y: Seq<char>)
    requires
        y.len() > 0,
    ensures
        rounding::round_off(x + y, text::byte_len(y)) == (if y[0] >= '5' {
            numeral::increment(x)
        } else {
            Some(x)
        }),
{
    law_byte_len(x, y, '0');
    law_boundary(x, y, 0);
    assert((x + y).take(x.len() as int) =~= x);
    assert((x + y)[x.len() as int] == y[0]);
}

/// A text of no more bytes than are rounded off, which is no integer, is zero.
pub proof fn law_round_left_any(w: Seq<char>, precision: Option<u32>, r: nat)
    requires
        text::byte_len(w) <= r,
        !literal::is_integer(w) || (w.len() > 0 && w[0] == '-'),
    ensures
        rounding::round_left(w, precision, r) == Some(seq!['0']),
{
    if w.len() > 0 && w[0] == '-' {
        assert(!text::is_digit(w[0]));
    }
}

/// A precision leaves room for its digits but those behind the point; without one, and for
/// an integer that has no more bytes, all of it is kept, and without any room nothing but a
/// zero.
pub proof fn law_limit(w: Seq<char>, x: Seq<char>, y: Seq<char>, p: u32, n: nat)
    ensures
        rounding::limit_integer(w, None, n) == Some(w),
        p <= n ==> rounding::limit_integer(w, Some(p), n) == Some(seq!['0']),
        p > n && text::byte_len(w) <= p - n ==> rounding::limit_integer(w, Some(p), n) == Some(w),
        p > n && text::byte_len(y) == p - n ==> rounding::limit_integer(x + y, Some(p), n) == Some(
            y,
        ),
{
    law_last_bytes(x, y, text::byte_len(y));
}

/// Of a multiple the last digits that a precision says are kept where more are significant,
/// leading zeros aside; without a precision, and for zero, all of it.
pub proof fn law_limit_left(w: Seq<char>, x: Seq<char>, y: Seq<char>, p: u32)
    ensures
        rounding::limit_significant(w, None) == Some(w),
        rounding::limit_significant(w, Some(0u32)) == Some(w),
        text::byte_len(text::skip_zeros(w)) <= p ==> rounding::limit_significant(w, Some(p)) == Some(
            w,
        ),
        p > 0 && text::byte_len(y) == p && text::byte_len(text::skip_zeros(x + y)) > p
            ==> rounding::limit_significant(x + y, Some(p)) == Some(y),
{
    law_last_bytes(x, y, text::byte_len(y));
}

/// A text that is no literal is cut as it stands, split at its first point: where another
/// character than a digit, a point or an `e` stands behind its digits, or no integer behind the
/// `e`, or two points among its digits.
#[verifier::rlimit(40)]
pub proof fn law_positional_any(
    a: Seq<char>,
    sign: Option<bool>,
    run: Seq<char>,
    tail: Seq<char>,
    c: Seq<char>,
)
    requires
        literal::blank(a),
        literal::blank(c),
        forall|i: int| 0 <= i < run.len() ==> text::is_digit(#[trigger] run[i]) || run[i] == '.',
        tail.len() > 0 ==> !text::is_digit(tail[0]) && tail[0] != '.' && !text::is_space(
            tail.last(),
        ),
        run.len() == 0 && tail.len() > 0 ==> !text::is_space(tail[0]) && tail[0] != '-' && tail[0]
            != '+',
        text::point(text::after_point(run)) < text::after_point(run).len() || (tail.len() > 0 && ((
        tail[0] != 'e' && tail[0] != 'E') || !literal::is_integer(tail.skip(1)))),
    ensures
        ({
            let s = a + (literal::sign_text(sign) + (run + tail)) + c;
            &&& rounding::positional(s) == Ok::<(Seq<char>, Seq<char>), ErrorView>(
                (text::before_point(run + tail), text::after_point(run + tail)),
            )
            &&& parse::literal_negative(s) == (sign == Some(true))
        }),
{
    let s = a + (literal::sign_text(sign) + (run + tail)) + c;
    let g = literal::sign_text(sign);
    literal::lemma_pieces(a, sign, run, tail, c);
    let body = run + tail;
    if body.len() > 0 {
        if run.len() > 0 {
            assert(body[0] == run[0]);
        } else {
            assert(body[0] == tail[0]);
        }
    }
    law_signs(g, body);
    assert(!rounding::has_exponent(s)) by {
        if tail.len() > 1 {
            law_part(tail.skip(1));
        }
    }
}

/// Any digits or other text, cut at a scale of zero or more: both sides as they were rounded
/// and limited, the zeros at the end of the fraction left out, and the sign unless that leaves
/// a single zero.
pub proof fn law_cut_any(
    minus: bool,
    w: Seq<char>,
    f: Seq<char>,
    precision: Option<u32>,
    scale: nat,
    w2: Seq<char>,
    last: Seq<char>,
    d: Seq<char>,
    k: nat,
)
    requires
        rounding::round_right(rounding::short(w), f, scale) == Some((w2, d + text::zeros(k))),
        rounding::limit_integer(w2, precision, scale) == Some(last),
        d.len() > 0 ==> d.last() != '0',
    ensures
        ({
            let t = if d.len() > 0 {
                last + seq!['.'] + d
            } else {
                last
            };
            rounding::cut_text(minus, w, f, precision, scale as int) == Some(
                if minus && t != seq!['0'] {
                    seq!['-'] + t
                } else {
                    t
                },
            )
        }),
{
    law_zeros(d, k);
}

/// Any text cut at a negative scale: its integer as it was rounded, with the zeros of the power
/// of ten, and the sign unless that is a single zero.
pub proof fn law_cut_left_any(
    minus: bool,
    w: Seq<char>,
    f: Seq<char>,
    precision: Option<u32>,
    r: nat,
    kept: Seq<char>,
    last: Seq<char>,
)
    requires
        r > 0,
        text::byte_len(rounding::short(w)) > r,
        rounding::round_off(rounding::short(w), r) == Some(kept),
        rounding::limit_significant(kept, precision) == Some(last),
    ensures
        ({
            let t = last + text::zeros(r);
            rounding::cut_text(minus, w, f, precision, -r) == Some(
                if minus && t != seq!['0'] {
                    seq!['-'] + t
                } else {
                    t
                },
            )
        }),
{
}

} // verus!
