//! What reading a number with a precision and a scale gives, as SQL says of
//! `NUMERIC(precision, scale)`: the nearest multiple of `10^-scale`, a tie away from zero,
//! and of that the last digits that the precision leaves room for.
use vstd::prelude::*;

use crate::digits;
use crate::encoding;
use crate::error::ErrorView;
use crate::literal;
use crate::literal::Literal;
use crate::numeral;
use crate::parse;
use crate::rounding;
use crate::rounding_laws;
use crate::roundtrip;
use crate::text;
use crate::value::Value;

verus! {

/// `r` multiples of `y` are nearest to `x`; from the half on the greater one is.
pub open spec fn nearest(x: nat, y: nat, r: nat) -> bool {
    (2 * r - 1) * y <= 2 * x && 2 * x < (2 * r + 1) * y
}

/// The last digits of `r` that a precision leaves room for: `p` digits in all, and never
/// fewer than stand behind the point. At a negative scale a precision of zero is none.
pub open spec fn last_digits(r: nat, precision: Option<u32>, scale: int) -> nat {
    match precision {
        None => r,
        Some(p) => if scale < 0 && p == 0 {
            r
        } else if p > scale {
            r % digits::pow10(p as nat)
        } else {
            r % digits::pow10(scale as nat)
        },
    }
}

// ==================== Rounding ====================

pub proof fn lemma_nearest(x: nat, y: nat, r: nat)
    requires
        y > 0,
        nearest(x, y, r),
    ensures
        rounding::round_div(x, y) == r,
{
    let e = (2 * y) as int;
    let m = 2 * x + y - r * e;
    assert(0 <= m < e && 2 * x + y == r * e + m) by (nonlinear_arith)
        requires
            (2 * r - 1) * y <= 2 * x,
            2 * x < (2 * r + 1) * y,
            e == 2 * y,
            m == 2 * x + y - r * e,
    ;
    digits::lemma_div_mod((2 * x + y) as int, e, r as int, m);
}

/// There is a nearest multiple.
pub proof fn law_nearest_exists(x: nat, y: nat)
    requires
        y > 0,
    ensures
        nearest(x, y, rounding::round_div(x, y)),
        forall|r: nat| #[trigger] nearest(x, y, r) ==> r == rounding::round_div(x, y),
{
    let a = (2 * x + y) as int;
    let e = (2 * y) as int;
    let q = a / e;
    let m = a % e;
    vstd::arithmetic::div_mod::lemma_fundamental_div_mod(a, e);
    assert(q >= 0) by (nonlinear_arith)
        requires
            a >= 0,
            e > 0,
            q == a / e,
    ;
    assert((2 * q - 1) * y <= 2 * x && 2 * x < (2 * q + 1) * y) by (nonlinear_arith)
        requires
            a == e * q + m,
            0 <= m < e,
            a == 2 * x + y,
            e == 2 * y,
    ;
    assert forall|r: nat| #[trigger] nearest(x, y, r) implies r == rounding::round_div(x, y) by {
        lemma_nearest(x, y, r);
    }
}

/// Counting both in a smaller unit does not change the nearest multiple.
proof fn lemma_rescale(x: nat, y: nat, c: nat)
    requires
        y > 0,
        c > 0,
    ensures
        rounding::round_div(x * c, y * c) == rounding::round_div(x, y),
        y * c > 0,
{
    let r = rounding::round_div(x, y);
    law_nearest_exists(x, y);
    assert(y * c > 0) by (nonlinear_arith)
        requires
            y > 0,
            c > 0,
    ;
    assert((2 * r - 1) * (y * c) <= 2 * (x * c) && 2 * (x * c) < (2 * r + 1) * (y * c))
        by (nonlinear_arith)
        requires
            (2 * r - 1) * y <= 2 * x,
            2 * x < (2 * r + 1) * y,
            c > 0,
    ;
    lemma_nearest(x * c, y * c, r);
}

/// The rounded digits are the multiple that is nearest, counted in any small unit.
pub proof fn lemma_rounded(w: Seq<char>, f: Seq<char>, scale: int, v: int)
    requires
        numeral::is_numeral(w),
        numeral::is_numeral(f),
        v <= -(f.len() as int),
        v <= -scale,
    ensures
        ({
            let n = numeral::text_number(w + f);
            let x = n * digits::pow10((-(f.len() as int) - v) as nat);
            let y = digits::pow10((-scale - v) as nat);
            rounding::round_div(x, y) == (if scale < 0 {
                rounding::round_div(numeral::text_number(w), digits::pow10((-scale) as nat))
            } else {
                rounding::rounded(w, f, scale as nat)
            })
        }),
{
    let n = numeral::text_number(w + f);
    let fl = f.len() as int;
    let c = digits::pow10((-fl - v) as nat);
    digits::lemma_pow10_pos((-fl - v) as nat);
    if scale < 0 {
        let r = (-scale) as nat;
        rounding_laws::law_integer_decides(w, f, r);
        digits::lemma_pow10_pos(r + f.len());
        lemma_rescale(n, digits::pow10(r + f.len()), c);
        digits::lemma_pow10_add(r + f.len(), (-fl - v) as nat);
        assert(r + f.len() + (-fl - v) as nat == (-scale - v) as nat);
    } else if fl <= scale {
        let d = (-scale - v) as nat;
        let y = digits::pow10(d);
        let e = digits::pow10((scale - fl) as nat);
        digits::lemma_pow10_add((scale - fl) as nat, d);
        digits::lemma_pow10_pos(d);
        assert((scale - fl) as nat + d == (-fl - v) as nat);
        assert(n * (e * y) == (n * e) * y) by (nonlinear_arith);
        rounding_laws::lemma_round_div(n * e, y, 0);
    } else {
        let e = digits::pow10((fl - scale) as nat);
        digits::lemma_pow10_pos((fl - scale) as nat);
        lemma_rescale(n, e, c);
        digits::lemma_pow10_add((fl - scale) as nat, (-fl - v) as nat);
        assert((fl - scale) as nat + (-fl - v) as nat == (-scale - v) as nat);
    }
}

/// The same number, counted in another unit.
pub proof fn lemma_shifted(n: nat, unit: int, v: int, v2: int)
    requires
        v2 <= v <= unit,
    ensures
        n * digits::pow10((unit - v2) as nat) == (n * digits::pow10((unit - v) as nat))
            * digits::pow10((v - v2) as nat),
{
    let x = digits::pow10((unit - v) as nat);
    let y = digits::pow10((v - v2) as nat);
    digits::lemma_pow10_add((unit - v) as nat, (v - v2) as nat);
    assert((unit - v) as nat + (v - v2) as nat == (unit - v2) as nat);
    assert(n * (x * y) == (n * x) * y) by (nonlinear_arith);
}

// ==================== Numbers of digits ====================

pub proof fn lemma_takes(n: nat)
    ensures
        n == 0 ==> literal::takes_digits(n, 0),
        n > 0 ==> literal::takes_digits(n, numeral::nat_text(n).len()),
{
    if n > 0 {
        let t = numeral::nat_text(n);
        numeral::lemma_nat_text(n);
        numeral::lemma_values(t);
        assert(text::is_digit(t[0]));
        digits::lemma_number_lower(numeral::values(t));
        digits::lemma_number_bound(numeral::values(t));
    }
}

pub proof fn lemma_takes_shifted(n: nat, k: nat, e: nat, m: nat)
    requires
        n > 0,
        literal::takes_digits(n, k),
        literal::takes_digits(n * digits::pow10(e), m),
    ensures
        m == k + e,
{
    let x = digits::pow10(e);
    digits::lemma_pow10_pos(e);
    digits::lemma_pow10_add((k - 1) as nat, e);
    digits::lemma_pow10_add(k, e);
    let lo = digits::pow10((k - 1) as nat);
    let hi = digits::pow10(k);
    assert(lo * x <= n * x && n * x < hi * x && n * x > 0) by (nonlinear_arith)
        requires
            lo <= n < hi,
            x > 0,
            n > 0,
    ;
    if m < k + e {
        digits::lemma_pow10_mono(m, (k - 1) as nat + e);
    } else if m > k + e {
        digits::lemma_pow10_mono(k + e, (m - 1) as nat);
    }
}

/// A number read from digits is also the number with zeros behind them, in a smaller unit.
pub proof fn lemma_reads_shifted(
    r: Result<Value, ErrorView>,
    minus: bool,
    n: nat,
    unit: int,
    k: nat,
    e: nat,
)
    requires
        n > 0,
        literal::reads_as(r, minus, n, unit, k),
    ensures
        literal::reads_as(r, minus, n * digits::pow10(e), unit - e, k + e),
{
    let x = digits::pow10(e);
    digits::lemma_pow10_pos(e);
    assert(n * x > 0) by (nonlinear_arith)
        requires
            n > 0,
            x > 0,
    ;
    if let Ok(Value::Finite(p)) = r {
        assert forall|u: int| u <= unit - e implies #[trigger] p.scaled(u) == literal::with_sign(
            minus,
            (n * x) * digits::pow10((unit - e - u) as nat),
        ) by {
            lemma_shifted(n, unit, unit - e, u);
            assert((unit - (unit - e)) as nat == e);
        }
    }
}

// ==================== Decimals of any precision ====================

/// The digits that are cut are those of the number that a literal denotes.
#[verifier::rlimit(40)]
pub proof fn lemma_positional_number(
    a: Seq<char>,
    l: Literal,
    c: Seq<char>,
    scale: int,
    v: int,
    r: nat,
)
    requires
        literal::blank(a),
        literal::blank(c),
        l.wf(),
        l.shift() == 0 || parse::parse_value(a + l.text() + c) is Ok,
        v <= l.unit(),
        v <= -scale,
        nearest(
            l.number() * digits::pow10((l.unit() - v) as nat),
            digits::pow10((-scale - v) as nat),
            r,
        ),
    ensures
        ({
            let s = a + l.text() + c;
            &&& parse::literal_exponent(s) is Ok
            &&& rounding::positional(s) matches Ok((w, f)) && numeral::is_numeral(w)
                && numeral::is_numeral(f) && r == (if scale < 0 {
                rounding::round_div(numeral::text_number(w), digits::pow10((-scale) as nat))
            } else {
                rounding::rounded(w, f, scale as nat)
            })
        }),
{
    let s = a + l.text() + c;
    literal::lemma_literal(a, l, c);
    if l.exponent is None {
        rounding_laws::lemma_plain(s);
    }
    let y = digits::pow10((-scale - v) as nat);
    digits::lemma_pow10_pos((-scale - v) as nat);
    lemma_nearest(l.number() * digits::pow10((l.unit() - v) as nat), y, r);
    rounding_laws::lemma_positional(s);
    let (w, f) = rounding::positional(s)->Ok_0;
    if l.shift() == 0 {
        lemma_rounded(w, f, scale, v);
    } else {
        let p = parse::parse_text(s)->Ok_0;
        parse::lemma_parse_wf(s);
        roundtrip::law_text_round_trip(Value::Finite(p));
        roundtrip::lemma_plain_shape(p);
        let n = numeral::text_number(w + f);
        let fl = f.len() as int;
        lemma_takes(n);
        lemma_takes(l.number());
        let k1 = if n == 0 {
            0
        } else {
            numeral::nat_text(n).len()
        };
        let k2 = if l.number() == 0 {
            0
        } else {
            numeral::nat_text(l.number()).len()
        };
        literal::lemma_assembled(p.negative && p.digits.len() > 0, w, f, 0, k1);
        literal::lemma_assembled(l.minus(), l.whole, l.frac, l.shift(), k2);
        let v2 = if v < -fl {
            v
        } else {
            -fl
        };
        lemma_rounded(w, f, scale, v2);
        let m = l.number();
        lemma_shifted(m, l.unit(), v, v2);
        lemma_shifted(1, -scale, v, v2);
        let d = digits::pow10((v - v2) as nat);
        digits::lemma_pow10_pos((v - v2) as nat);
        lemma_rescale(m * digits::pow10((l.unit() - v) as nat), y, d);
        assert(1 * digits::pow10((-scale - v2) as nat) == digits::pow10((-scale - v2) as nat));
        assert(1 * y == y);
        let q1 = digits::pow10((-fl - v2) as nat);
        let q2 = digits::pow10((l.unit() - v2) as nat);
        if n == 0 || m == 0 {
            assert(n == 0 && m == 0);
            assert(0nat * q1 == 0 && 0nat * q2 == 0) by (nonlinear_arith);
        } else {
            assert(p.scaled(v2) == literal::with_sign(p.negative, n * q1));
            assert(p.scaled(v2) == literal::with_sign(l.minus(), m * q2));
        }
    }
}

/// Cutting a literal to a precision and a scale gives the multiple of `10^-scale` that is
/// nearest to its number, a tie away from zero, with its sign, and of that the last digits
/// that the precision leaves room for; or an overflow where that is out of range. A literal
/// that has an exponent other than zero must itself be in range.
#[verifier::rlimit(40)]
pub proof fn law_numeric(
    a: Seq<char>,
    l: Literal,
    c: Seq<char>,
    precision: Option<u32>,
    scale: Option<i32>,
    v: int,
    r: nat,
    k: nat,
)
    requires
        literal::blank(a),
        literal::blank(c),
        l.wf(),
        l.shift() == 0 || parse::parse_value(a + l.text() + c) is Ok,
        v <= l.unit(),
        v <= -scale.unwrap_or(0),
        nearest(
            l.number() * digits::pow10((l.unit() - v) as nat),
            digits::pow10((-scale.unwrap_or(0) - v) as nat),
            r,
        ),
        literal::takes_digits(numeric_count(r, precision, scale.unwrap_or(0) as int), k),
    ensures
        ({
            let s = a + l.text() + c;
            let sc = scale.unwrap_or(0) as int;
            let n = numeric_count(r, precision, sc);
            let unit = if sc < 0 {
                0
            } else {
                -sc
            };
            &&& rounding::can_constrain(s, precision, scale)
            &&& match rounding::constrained_bytes(s, precision, scale) {
                Ok(b) => encoding::decode(b) matches Some(val) && b == encoding::encode(val)
                    && literal::reads_as(Ok::<Value, ErrorView>(val), l.minus(), n, unit, k),
                Err(e) => literal::reads_as(Err::<Value, ErrorView>(e), l.minus(), n, unit, k),
            }
        }),
{
    let s = a + l.text() + c;
    let sc = scale.unwrap_or(0) as int;
    let n = numeric_count(r, precision, sc);
    let unit = if sc < 0 {
        0
    } else {
        -sc
    };
    literal::lemma_literal(a, l, c);
    lemma_positional_number(a, l, c, sc, v, r);
    let (w, f) = rounding::positional(s)->Ok_0;
    if sc < 0 {
        rounding_laws::law_round_to_power(s, precision, sc as i32);
    } else {
        rounding_laws::law_round_to_scale(s, precision, scale);
    }
    let out = rounding::truncate_text(s, precision, scale)->0->Ok_0;
    let kept = last_digits(r, precision, sc);
    let wo = rounding_laws::whole_of(out);
    let fo = rounding_laws::frac_of(out);
    rounding_laws::lemma_plain(out);
    let m = numeral::text_number(wo + fo);
    let e = (-(fo.len() as int) - unit) as nat;
    assert(n == m * digits::pow10(e)) by {
        if sc < 0 {
            assert(digits::pow10(0) == 1);
            assert(m * 1 == m);
        }
    }
    digits::lemma_pow10_pos(e);
    lemma_takes(m);
    let km = if m == 0 {
        0
    } else {
        numeral::nat_text(m).len()
    };
    let x = digits::pow10(e);
    assert(m == 0 ==> m * x == 0) by (nonlinear_arith);
    assert(m > 0 ==> m * x > 0) by (nonlinear_arith)
        requires
            x > 0,
    ;
    let minus = parse::literal_negative(out);
    literal::lemma_assembled(minus, wo, fo, 0, km);
    let res = parse::parse_value(out);
    assert(literal::reads_as(res, minus, m, -(fo.len() as int), km));
    if m > 0 {
        lemma_takes_shifted(m, km, e, k);
        lemma_reads_shifted(res, minus, m, -(fo.len() as int), km, e);
        let q = digits::pow10((-sc) as nat);
        assert(sc < 0 ==> kept > 0) by {
            if sc < 0 && kept == 0 {
                assert(0nat * q == 0) by (nonlinear_arith);
            }
        }
        assert(minus == l.minus());
    }
    roundtrip::law_encoded_text(out);
}

/// A literal with an exponent other than zero that is out of range is an overflow, whatever it
/// is to be cut to.
pub proof fn law_numeric_overflow(
    a: Seq<char>,
    l: Literal,
    c: Seq<char>,
    precision: Option<u32>,
    scale: Option<i32>,
)
    requires
        literal::blank(a),
        literal::blank(c),
        l.wf(),
        l.shift() != 0,
        parse::parse_value(a + l.text() + c) is Err,
    ensures
        rounding::can_constrain(a + l.text() + c, precision, scale),
        rounding::truncate_text(a + l.text() + c, precision, scale) == Some(
            Err::<Seq<char>, ErrorView>(ErrorView::PrecisionOverflow),
        ),
        rounding::constrained_bytes(a + l.text() + c, precision, scale) == Err::<
            Seq<u8>,
            ErrorView,
        >(ErrorView::PrecisionOverflow),
{
    literal::lemma_literal(a, l, c);
    lemma_takes(l.number());
    let k = if l.number() == 0 {
        0
    } else {
        numeral::nat_text(l.number()).len()
    };
    literal::law_literal_number(a, l, c, k);
}

/// What a cut number counts: at a negative scale with its zeros.
pub open spec fn numeric_count(r: nat, precision: Option<u32>, scale: int) -> nat {
    if scale < 0 {
        last_digits(r, precision, scale) * digits::pow10((-scale) as nat)
    } else {
        last_digits(r, precision, scale)
    }
}

/// Special values have neither a precision nor a scale.
pub proof fn law_numeric_special(s: Seq<char>, precision: Option<u32>, scale: Option<i32>)
    ensures
        parse::parse_value(s) matches Ok(Value::Special(v)) ==> rounding::can_constrain(
            s,
            precision,
            scale,
        ) && (rounding::constrained_bytes(s, precision, scale) matches Ok(b) && encoding::decode(b)
            == Some(Value::Special(v)) && b == encoding::encode(Value::Special(v))),
{
    literal::law_special_name(s);
    if let Ok(Value::Special(v)) = parse::parse_value(s) {
        roundtrip::law_decode_encode(Value::Special(v));
    }
}

} // verus!
