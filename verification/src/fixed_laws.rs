//! What the 64-bit decimals hold, in terms of plain integers: what a literal is read as,
//! what an integer is converted to, and how two of them compare.
use vstd::prelude::*;

use crate::decimal64;
use crate::decimal64::Decimal64;
use crate::decimal64::Reading;
use crate::decimal64_laws;
use crate::decimal64_no_scale;
use crate::decimal64_no_scale::Decimal64NoScale;
use crate::decimal64_no_scale_laws;
use crate::digits;
use crate::error::DecimalError;
use crate::error::ErrorView;
use crate::fixed;
use crate::literal;
use crate::literal::Literal;
use crate::numeral;
use crate::numeric_laws;
use crate::order::Order;
use crate::parse;
use crate::rounding;
use crate::rounding_laws;
use crate::roundtrip;
use crate::special::SpecialValue;
use crate::text;
use crate::text_laws;
use crate::value;
use crate::value::Parts;
use crate::value::Value;

verus! {

/// An integer without its sign.
pub open spec fn magnitude(n: int) -> nat {
    if n < 0 {
        (-n) as nat
    } else {
        n as nat
    }
}

/// The special value has this 64-bit integer: the ends of the range.
pub open spec fn marks(n: int, v: SpecialValue) -> bool {
    match v {
        SpecialValue::NegInfinity => n == -9_223_372_036_854_775_808,
        SpecialValue::Infinity => n == 9_223_372_036_854_775_806,
        SpecialValue::NaN => n == 9_223_372_036_854_775_807,
    }
}

// ==================== Numbers at a scale ====================

/// The parts of `n * 10^-scale` are those of that number.
proof fn lemma_denotes(n: int, scale: int)
    requires
        value::scaled_parts(n, scale).wf(),
    ensures
        literal::denotes(
            Value::Finite(value::scaled_parts(n, scale)),
            n < 0,
            magnitude(n),
            -scale,
        ),
{
    let p = value::scaled_parts(n, scale);
    value::law_scaled_parts(n, scale);
    if n != 0 {
        let m = magnitude(n);
        if p.digits.len() == 0 {
            let d = digits::pow10((p.unit() + scale) as nat);
            assert(digits::number(p.digits) == 0);
            assert(0nat * d == 0) by (nonlinear_arith);
        }
        assert forall|u: int| u <= -scale implies #[trigger] p.scaled(u) == literal::with_sign(
            n < 0,
            m * digits::pow10((-scale - u) as nat),
        ) by {
            let k = (-scale - u) as nat;
            decimal64_laws::lemma_scaled_shift(p, -scale, k);
            let x = digits::pow10(k);
            assert(n * x == (if n < 0 { -((m * x) as int) } else { (m * x) as int }))
                by (nonlinear_arith)
                requires
                    m == (if n < 0 { -n } else { n }),
            ;
        }
    }
}

/// The digits around the point of a number's text write its digits, with zeros up to the
/// point.
proof fn lemma_plain_number(p: Parts)
    requires
        digits::all_digits(p.digits),
    ensures
        ({
            let n = numeral::text_number(roundtrip::plain_whole(p) + roundtrip::plain_frac(p));
            let f = roundtrip::plain_frac(p).len();
            if p.digits.len() == 0 {
                n == 0 && f == 0
            } else if p.unit() > 0 {
                n == digits::number(p.digits) * digits::pow10(p.unit() as nat) && f == 0
            } else {
                n == digits::number(p.digits) && f == -p.unit()
            }
        }),
{
    let t = numeral::numeral(p.digits);
    let all = roundtrip::plain_whole(p) + roundtrip::plain_frac(p);
    numeral::lemma_numeral(p.digits);
    if p.digits.len() == 0 {
        assert(numeral::values(all) =~= digits::zero_digits(1));
        digits::lemma_number_zeros(1);
    } else if p.exponent >= p.digits.len() {
        let k = (p.exponent - p.digits.len()) as nat;
        assert(all =~= t + text::zeros(k));
        numeral::lemma_values_zeros(k);
        digits::lemma_number_zeros(k);
        rounding_laws::lemma_numeral_concat(t, text::zeros(k));
        let n = digits::number(p.digits);
        let one = digits::pow10(0);
        assert(n * one == n) by (nonlinear_arith)
            requires
                one == 1,
        ;
    } else if p.exponent <= 0 {
        let k = (1 - p.exponent) as nat;
        assert(all =~= text::zeros(k) + t);
        numeral::lemma_values_zeros(k);
        digits::lemma_number_zeros(k);
        rounding_laws::lemma_numeral_concat(text::zeros(k), t);
        let x = digits::pow10(t.len());
        assert(0nat * x == 0) by (nonlinear_arith);
    } else {
        assert(all =~= t);
    }
}

/// The text of any digits and exponent is the literal of their number. Only no digits at all
/// have no sign.
#[verifier::rlimit(40)]
pub proof fn law_any_text(p: Parts) -> (l: Literal)
    requires
        digits::all_digits(p.digits),
    ensures
        l.wf(),
        l.exponent is None,
        l.text() == value::plain_text(p),
        l.whole == roundtrip::plain_whole(p),
        l.frac == roundtrip::plain_frac(p),
        l.whole.len() > 0,
        l.point == (l.frac.len() > 0),
        l.sign == (if p.negative && p.digits.len() > 0 {
            Some(true)
        } else {
            None
        }),
        p.digits.len() > 0 ==> l.unit() == (if p.unit() > 0 {
            0
        } else {
            p.unit()
        }),
        p.digits.len() == 0 ==> l.unit() == 0 && l.number() == 0,
        forall|v: int|
            v <= l.unit() && v <= p.unit() ==> #[trigger] p.scaled(v) == literal::with_sign(
                p.negative,
                l.number() * digits::pow10((l.unit() - v) as nat),
            ),
{
    roundtrip::lemma_plain_shape(p);
    lemma_plain_number(p);
    let w = roundtrip::plain_whole(p);
    let f = roundtrip::plain_frac(p);
    let sign: Option<bool> = if p.negative && p.digits.len() > 0 {
        Some(true)
    } else {
        None
    };
    let none: Option<literal::Exponent> = None;
    let l = Literal { sign, whole: w, point: f.len() > 0, frac: f, exponent: none };
    assert(l.text() =~= value::plain_text(p));
    assert forall|v: int| v <= l.unit() && v <= p.unit() implies #[trigger] p.scaled(v)
        == literal::with_sign(
        p.negative,
        l.number() * digits::pow10((l.unit() - v) as nat),
    ) by {
        let x = digits::pow10((l.unit() - v) as nat);
        let y = digits::pow10((p.unit() - v) as nat);
        if p.digits.len() == 0 {
            assert(digits::number(p.digits) == 0);
            assert(0nat * x == 0 && 0nat * y == 0) by (nonlinear_arith);
        } else if p.unit() > 0 {
            let n = digits::number(p.digits);
            let z = digits::pow10(p.unit() as nat);
            digits::lemma_pow10_add(p.unit() as nat, (0 - v) as nat);
            assert(p.unit() as nat + (0 - v) as nat == (p.unit() - v) as nat);
            assert(n * (z * x) == (n * z) * x) by (nonlinear_arith);
        }
    }
    l
}

/// The text of a normalized number is the literal of that number.
pub proof fn lemma_plain_literal(p: Parts) -> (l: Literal)
    requires
        p.wf(),
    ensures
        l.wf(),
        l.exponent is None,
        l.text() == value::plain_text(p),
        l.whole == roundtrip::plain_whole(p),
        l.frac == roundtrip::plain_frac(p),
        l.minus() == p.negative,
        l.unit() <= 0,
        p.unit() <= 0 ==> l.unit() == p.unit(),
        p.unit() > 0 ==> l.unit() == 0,
        forall|v: int|
            v <= l.unit() ==> #[trigger] p.scaled(v) == literal::with_sign(
                p.negative,
                l.number() * digits::pow10((l.unit() - v) as nat),
            ),
{
    law_any_text(p)
}

/// The shortest numeral of a number is the one without leading zeros.
pub proof fn law_short(w: Seq<char>)
    requires
        numeral::is_numeral(w),
    ensures
        rounding::short(w) == numeral::nat_text(numeral::text_number(w)),
{
    rounding_laws::lemma_short(w);
    numeral::lemma_skip_zeros(w);
    lemma_shortest(rounding::short(w));
}

proof fn lemma_shortest(t: Seq<char>)
    requires
        numeral::is_numeral(t),
        t.len() > 0,
        t.len() == 1 || t[0] != '0',
    ensures
        numeral::nat_text(numeral::text_number(t)) == t,
    decreases t.len(),
{
    let h = t.drop_last();
    let c = t.last();
    assert(text::is_digit(t[t.len() - 1]));
    assert(h.push(c) =~= t);
    numeral::lemma_values_push(h, c);
    let n = numeral::text_number(t);
    let m = numeral::text_number(h);
    if t.len() == 1 {
        assert(numeral::values(h) =~= Seq::<u8>::empty());
        assert(numeral::nat_text(n) =~= t);
    } else {
        assert forall|i: int| 0 <= i < h.len() implies text::is_digit(#[trigger] h[i]) by {
            assert(text::is_digit(t[i]));
        }
        numeral::lemma_values(h);
        assert(text::is_digit(h[0]));
        if h.len() > 1 || h[0] != '0' {
            digits::lemma_number_lower(numeral::values(h));
            digits::lemma_pow10_pos((h.len() - 1) as nat);
        }
        assert(m >= 1);
        assert(n / 10 == m && n % 10 == text::digit_value(c) as nat);
        lemma_shortest(h);
        assert(numeral::nat_text(n) =~= t);
    }
}

// ==================== Decimals with their scale ====================

/// A precision from 1 to 16 or none, and a scale of at most 18, are allowed. With any
/// other every text is refused.
pub proof fn law_constraints(s: Seq<char>, precision: Option<u32>, scale: Option<i32>)
    ensures
        ({
            let sc = scale.unwrap_or(0) as int;
            let allowed = precision matches Some(p) ==> 1 <= p <= 16;
            let refused = decimal64::constraint_error(precision, sc);
            &&& refused is None <==> allowed && sc <= 18
            &&& refused matches Some(e) ==> decimal64::read(s, precision, scale) == Some(
                Err::<Reading, ErrorView>(e),
            )
            &&& precision matches Some(p) ==> p > 16 ==> refused == Some(
                ErrorView::InvalidFormat(
                    "Precision "@ + numeral::int_text(p as int)
                        + " exceeds maximum 16 for Decimal64"@,
                ),
            )
            &&& precision == Some(0u32) ==> refused == Some(
                ErrorView::InvalidFormat("Precision must be at least 1"@),
            )
            &&& allowed && sc > 18 ==> refused == Some(
                ErrorView::InvalidFormat(
                    "Scale "@ + numeral::int_text(sc) + " exceeds maximum 18 for Decimal64"@,
                ),
            )
        }),
{
}

/// The raw integer `scale * 2^56 + n + 2^55` stands for `n * 10^-scale`.
pub proof fn law_packed(d: Decimal64, n: int, scale: int)
    requires
        -36_028_797_018_963_968 <= n <= 36_028_797_018_963_967,
        0 <= scale <= 18,
        d@ == scale * 72_057_594_037_927_936 + n + 36_028_797_018_963_968,
    ensures
        d.wf(),
        d.special_value() is None,
        d.stored_value() == n,
        d.stored_scale() == scale,
        d.number() == Value::Finite(value::scaled_parts(n, scale)),
        literal::denotes(d.number(), n < 0, magnitude(n), -scale),
{
    decimal64::lemma_packed(n, scale);
    decimal64::lemma_number_wf(d);
    lemma_denotes(n, scale);
}

/// Every raw integer is made of a high byte, which is the scale, and the value with `2^55`
/// added to it.
pub proof fn law_unpacked(d: Decimal64)
    ensures
        ({
            let high = if d.stored_scale() < 128 {
                d.stored_scale()
            } else {
                d.stored_scale() - 256
            };
            &&& 0 <= d.stored_scale() < 256
            &&& -36_028_797_018_963_968 <= d.stored_value() <= 36_028_797_018_963_967
            &&& d@ == high * 72_057_594_037_927_936 + d.stored_value() + 36_028_797_018_963_968
            &&& d.wf() <==> d.special_value() is Some || d.stored_scale() <= 18
            &&& d.special_value() is None ==> d.number() == Value::Finite(
                value::scaled_parts(d.stored_value(), d.stored_scale()),
            ) && literal::denotes(
                d.number(),
                d.stored_value() < 0,
                magnitude(d.stored_value()),
                -d.stored_scale(),
            )
        }),
{
    decimal64::lemma_number_wf(d);
    if d.special_value() is None {
        lemma_denotes(d.stored_value(), d.stored_scale());
    }
    let p = d@ as int;
    let u = 72_057_594_037_927_936int;
    let q = p / u;
    vstd::arithmetic::div_mod::lemma_fundamental_div_mod(p, u);
    assert(-128 <= q < 128);
}

/// The raw integers of the special values are the ends of the 64-bit range.
pub proof fn law_special(d: Decimal64)
    ensures
        d.special_value() matches Some(v) ==> marks(d@ as int, v) && d.number() == Value::Special(
            v,
        ) && d.wf(),
        d.special_value() is None ==> -9_223_372_036_854_775_808 < d@ < 9_223_372_036_854_775_806,
{
}

/// What is read where `n * 10^-scale` is to be held: that number, or the error where `n`
/// does not fit 56 bits.
pub open spec fn holds(r: Option<Result<Reading, ErrorView>>, n: int, scale: int) -> bool {
    if -36_028_797_018_963_968 <= n <= 36_028_797_018_963_967 {
        r matches Some(Ok(x)) && x == Reading::Number(n, scale) && x.raw() == scale
            * 72_057_594_037_927_936 + n + 36_028_797_018_963_968
    } else {
        r == Some(
            Err::<Reading, ErrorView>(ErrorView::InvalidFormat("Value too large for Decimal64"@)),
        )
    }
}

/// Reading a literal without an exponent gives the multiple of `10^-scale` that is nearest
/// to its number, a tie away from zero, with its sign, and of that the last digits that
/// the precision leaves room for. At a negative scale the multiple is held with its zeros.
#[verifier::rlimit(40)]
pub proof fn law_read(
    a: Seq<char>,
    l: Literal,
    c: Seq<char>,
    precision: Option<u32>,
    scale: Option<i32>,
    v: int,
    r: nat,
)
    requires
        literal::blank(a),
        literal::blank(c),
        l.wf(),
        l.exponent is None,
        precision matches Some(p) ==> 1 <= p <= 16,
        scale.unwrap_or(0) <= 18,
        v <= l.unit(),
        v <= -scale.unwrap_or(0),
        numeric_laws::nearest(
            l.number() * digits::pow10((l.unit() - v) as nat),
            digits::pow10((-scale.unwrap_or(0) - v) as nat),
            r,
        ),
    ensures
        holds(
            decimal64::read(a + l.text() + c, precision, scale),
            literal::with_sign(
                l.minus(),
                numeric_laws::numeric_count(r, precision, scale.unwrap_or(0) as int),
            ),
            if scale.unwrap_or(0) < 0 {
                0
            } else {
                scale.unwrap_or(0) as int
            },
        ),
{
    let s = a + l.text() + c;
    let sc = scale.unwrap_or(0) as int;
    literal::lemma_literal(a, l, c);
    rounding_laws::lemma_plain(s);
    numeric_laws::lemma_rounded(l.whole, l.frac, sc, v);
    digits::lemma_pow10_pos((-sc - v) as nat);
    numeric_laws::lemma_nearest(
        l.number() * digits::pow10((l.unit() - v) as nat),
        digits::pow10((-sc - v) as nat),
        r,
    );
    if let Some(p) = precision {
        digits::lemma_pow10_pos(p as nat);
    }
    if sc < 0 {
        let unit = digits::pow10((-sc) as nat);
        let k = rounding::kept(r, precision, 0);
        decimal64_laws::law_read_rounded(s, precision, sc as i32);
        assert(k == numeric_laws::last_digits(r, precision, sc));
        assert(k * unit as int == (k * unit) as int);
    } else {
        digits::lemma_pow10_pos(sc as nat);
        decimal64_laws::law_read_value(s, precision, scale);
    }
}

/// A literal without an exponent that takes at most 16 digits at a scale is read.
pub proof fn law_sixteen_digits(
    a: Seq<char>,
    l: Literal,
    c: Seq<char>,
    precision: Option<u32>,
    scale: u8,
    v: int,
    r: nat,
)
    requires
        literal::blank(a),
        literal::blank(c),
        l.wf(),
        l.exponent is None,
        precision matches Some(p) ==> 1 <= p <= 16,
        scale <= 18,
        v <= l.unit(),
        v <= -(scale as int),
        numeric_laws::nearest(
            l.number() * digits::pow10((l.unit() - v) as nat),
            digits::pow10((-(scale as int) - v) as nat),
            r,
        ),
        numeric_laws::last_digits(r, precision, scale as int) < digits::pow10(16),
    ensures
        decimal64::read(a + l.text() + c, precision, Some(scale as i32)) == Some(
            Ok::<Reading, ErrorView>(
                Reading::Number(
                    literal::with_sign(
                        l.minus(),
                        numeric_laws::last_digits(r, precision, scale as int),
                    ),
                    scale as int,
                ),
            ),
        ),
{
    assert(digits::pow10(16) == 10_000_000_000_000_000) by {
        reveal_with_fuel(digits::pow10, 17);
    }
    law_read(a, l, c, precision, Some(scale as i32), v, r);
}

/// A result that agrees with such a reading is the decimal of that number, or the error.
pub proof fn law_result(
    out: Option<Result<Decimal64, DecimalError>>,
    r: Option<Result<Reading, ErrorView>>,
    n: int,
    scale: int,
)
    requires
        0 <= scale <= 18,
        decimal64::agrees(out, r),
        holds(r, n, scale),
    ensures
        if -36_028_797_018_963_968 <= n <= 36_028_797_018_963_967 {
            out matches Some(Ok(d)) && d.wf() && d.stored_value() == n && d.stored_scale() == scale
                && literal::denotes(d.number(), n < 0, magnitude(n), -scale)
        } else {
            out matches Some(Err(e)) && e@ == ErrorView::InvalidFormat(
                "Value too large for Decimal64"@,
            )
        },
{
    if let Some(Ok(d)) = out {
        law_packed(d, n, scale);
    }
}

/// A result that agrees with a refusal is that refusal, and one that agrees with a special
/// value is that value.
pub proof fn law_other_result(
    out: Option<Result<Decimal64, DecimalError>>,
    r: Option<Result<Reading, ErrorView>>,
)
    requires
        decimal64::agrees(out, r),
    ensures
        r matches Some(Err(f)) ==> (out matches Some(Err(e)) && e@ == f),
        r matches Some(Ok(Reading::Special(v))) ==> (out matches Some(Ok(d)) && d.special_value()
            == Some(v)),
        r is None ==> out is None,
{
}

/// The special values are read at every precision and scale that is allowed.
pub proof fn law_read_special(
    s: Seq<char>,
    v: SpecialValue,
    precision: Option<u32>,
    scale: Option<i32>,
)
    requires
        parse::parse_value(s) == Ok::<Value, ErrorView>(Value::Special(v)),
        precision matches Some(p) ==> 1 <= p <= 16,
        scale.unwrap_or(0) <= 18,
    ensures
        decimal64::read(s, precision, scale) matches Some(Ok(x)) && x == Reading::Special(v)
            && marks(x.raw(), v),
{
    literal::law_special_name(s);
}

/// The scale that is found for a literal is the number of its digits behind the point, and
/// at most 18.
#[verifier::rlimit(40)]
pub proof fn law_found_scale(a: Seq<char>, l: Literal, c: Seq<char>)
    requires
        literal::blank(a),
        literal::blank(c),
        l.wf(),
    ensures
        decimal64::detected_scale(a + l.text() + c) == (if l.frac.len() > 18 {
            18
        } else {
            l.frac.len() as int
        }),
{
    let t = l.text();
    literal::lemma_literal(a, l, c);
    let g = literal::sign_text(l.sign);
    let at = g.len() + l.whole.len();
    text::lemma_point(t);
    let p = text::point(t);
    if l.point {
        assert(t[at as int] == '.');
    }
    if p < t.len() {
        if p < g.len() {
            assert(t[p as int] == g[p as int]);
        } else if p < at {
            assert(t[p as int] == l.whole[p - g.len()]);
            assert(text::is_digit(l.whole[p - g.len()]));
        } else if !l.point {
            let tail = l.tail();
            let i = p - at;
            let e = l.exponent->0;
            assert(t[p as int] == tail[i]);
            if i > 0 {
                let se = literal::sign_text(e.sign);
                if i <= se.len() {
                    assert(tail[i] == se[i - 1]);
                } else {
                    assert(tail[i] == e.digits[i - 1 - se.len()]);
                    assert(text::is_digit(e.digits[i - 1 - se.len()]));
                }
            }
        }
    }
    if l.point {
        assert(p == at);
        assert(text::after_point(t) =~= l.frac + l.tail());
        lemma_run_len(l.frac, l.tail());
    } else {
        assert(p == t.len());
        assert(text::after_point(t) =~= Seq::<char>::empty());
    }
}

proof fn lemma_run_len(f: Seq<char>, tail: Seq<char>)
    requires
        numeral::is_numeral(f),
        tail.len() > 0 ==> !text::is_digit(tail[0]),
    ensures
        decimal64::digit_run(f + tail) == f.len(),
    decreases f.len(),
{
    let s = f + tail;
    if f.len() == 0 {
        assert(s =~= tail);
    } else {
        let g = f.drop_first();
        assert(text::is_digit(f[0]));
        assert(s[0] == f[0]);
        assert(s.drop_first() =~= g + tail);
        assert forall|i: int| 0 <= i < g.len() implies text::is_digit(#[trigger] g[i]) by {
            assert(text::is_digit(f[i + 1]));
        }
        lemma_run_len(g, tail);
    }
}

/// The scale that is found for any text is the number of digits that follow its first point,
/// and at most 18; zero where there is no point.
pub proof fn law_found_scale_of(
    a: Seq<char>,
    x: Seq<char>,
    f: Seq<char>,
    rest: Seq<char>,
    c: Seq<char>,
)
    requires
        literal::blank(a),
        literal::blank(c),
        forall|i: int| 0 <= i < x.len() ==> x[i] != '.',
        numeral::is_numeral(f),
        rest.len() > 0 ==> !text::is_digit(rest[0]) && !text::is_space(rest.last()),
        x.len() > 0 ==> !text::is_space(x[0]) && !text::is_space(x.last()),
    ensures
        decimal64::detected_scale(a + x + c) == 0,
        decimal64::detected_scale(a + (x + (seq!['.'] + (f + rest))) + c) == (if f.len() > 18 {
            18
        } else {
            f.len() as int
        }),
{
    let t = x + (seq!['.'] + (f + rest));
    literal::law_trim(a, x, c);
    lemma_ends(x, f, rest);
    literal::law_trim(a, t, c);
    text_laws::law_split(x, f + rest);
    lemma_run_len(f, rest);
}

/// The ends of a text with a point.
proof fn lemma_ends(x: Seq<char>, f: Seq<char>, rest: Seq<char>)
    requires
        numeral::is_numeral(f),
        rest.len() > 0 ==> !text::is_space(rest.last()),
        x.len() > 0 ==> !text::is_space(x[0]),
    ensures
        ({
            let t = x + (seq!['.'] + (f + rest));
            t.len() > 0 && !text::is_space(t[0]) && !text::is_space(t.last())
        }),
{
    let t = x + (seq!['.'] + (f + rest));
    if rest.len() > 0 {
        assert(t.last() == rest.last());
    } else if f.len() > 0 {
        assert(text::is_digit(f[f.len() - 1]));
        assert(t.last() == f.last());
    } else {
        assert(t.last() == '.');
    }
    if x.len() > 0 {
        assert(t[0] == x[0]);
    } else {
        assert(t[0] == '.');
    }
}

/// A number of any precision is converted to the multiple of `10^-scale` that is nearest to
/// it, a tie away from zero.
pub proof fn law_from_decimal(p: Parts, scale: u8, v: int, r: nat)
    requires
        p.wf(),
        scale <= 18,
        v <= p.unit(),
        v <= -(scale as int),
        numeric_laws::nearest(
            magnitude(p.scaled(v)),
            digits::pow10((-(scale as int) - v) as nat),
            r,
        ),
    ensures
        holds(
            decimal64::read(value::plain_text(p), None, Some(scale as i32)),
            literal::with_sign(p.negative, r),
            scale as int,
        ),
{
    let l = lemma_plain_literal(p);
    let e = Seq::<char>::empty();
    assert(e + l.text() + e =~= value::plain_text(p));
    law_read(e, l, e, None, Some(scale as i32), v, r);
}

// ==================== Texts of any characters ====================

/// A text as it stands: a sign or none, any text without a point, and where `point` says so a
/// point and any text behind it.
pub open spec fn any_text(
    sign: Option<bool>,
    w: Seq<char>,
    point: bool,
    f: Seq<char>,
) -> Seq<char> {
    literal::sign_text(sign) + (if point {
        w + (seq!['.'] + f)
    } else {
        w
    })
}

/// The pieces of such a text can be told apart: no white space at its ends, no point before
/// the one that is meant, and no sign that would be taken for the one that is missing.
pub open spec fn apart(sign: Option<bool>, w: Seq<char>, point: bool, f: Seq<char>) -> bool {
    &&& forall|i: int| 0 <= i < w.len() ==> w[i] != '.'
    &&& w.len() > 0 ==> !text::is_space(w[0]) && (sign is None ==> w[0] != '-' && w[0] != '+')
    &&& point && f.len() > 0 ==> !text::is_space(f.last())
    &&& !point ==> f.len() == 0 && (w.len() > 0 ==> !text::is_space(w.last()))
}

proof fn lemma_any_text(
    a: Seq<char>,
    sign: Option<bool>,
    w: Seq<char>,
    point: bool,
    f: Seq<char>,
    c: Seq<char>,
)
    requires
        literal::blank(a),
        literal::blank(c),
        apart(sign, w, point, f),
    ensures
        ({
            let s = a + any_text(sign, w, point, f) + c;
            let body = parse::unsigned_text(text::trim(s));
            &&& text::before_point(body) == w
            &&& text::after_point(body) == f
            &&& parse::literal_negative(s) == (sign == Some(true))
        }),
{
    let t = any_text(sign, w, point, f);
    let g = literal::sign_text(sign);
    let body = if point {
        w + (seq!['.'] + f)
    } else {
        w
    };
    if body.len() > 0 {
        assert(t.last() == body.last());
        if point {
            assert(body.last() == if f.len() > 0 {
                f.last()
            } else {
                '.'
            });
        }
        assert(body[0] == if w.len() > 0 {
            w[0]
        } else {
            '.'
        });
        assert(t[g.len() as int] == body[0]);
    }
    literal::law_trim(a, t, c);
    assert(parse::unsigned_text(t) =~= body);
    text_laws::law_split(w, f);
    if !point {
        assert(text::after_point(body) =~= f);
    }
}

/// Any text is read as the integers that stand on both sides of its point once they are cut,
/// zero for what is none: at a scale of zero or more.
pub proof fn law_read_any(
    a: Seq<char>,
    sign: Option<bool>,
    w: Seq<char>,
    point: bool,
    f: Seq<char>,
    c: Seq<char>,
    precision: Option<u32>,
    scale: i32,
    w2: Seq<char>,
    f2: Seq<char>,
    last: Seq<char>,
)
    requires
        literal::blank(a),
        literal::blank(c),
        apart(sign, w, point, f),
        precision matches Some(p) ==> 1 <= p <= 16,
        0 <= scale <= 18,
        !(parse::parse_value(a + any_text(sign, w, point, f) + c) matches Ok(Value::Special(_))),
        rounding::round_right(rounding::short(w), f, scale as nat) == Some((w2, f2)),
        rounding::limit_integer(w2, precision, scale as nat) == Some(last),
        f2.len() <= scale,
    ensures
        ({
            let n = fixed::part_value(last) * digits::pow10(scale as nat) + fixed::part_value(
                f2 + text::zeros((scale - f2.len()) as nat),
            );
            holds(
                decimal64::read(a + any_text(sign, w, point, f) + c, precision, Some(scale)),
                if sign == Some(true) {
                    -n
                } else {
                    n
                },
                scale as int,
            )
        }),
{
    let s = a + any_text(sign, w, point, f) + c;
    literal::law_special_name(s);
    lemma_any_text(a, sign, w, point, f, c);
    let z = text::zeros((scale - f2.len()) as nat);
    assert(decimal64::pad_end(f2, scale as nat) =~= f2 + z);
}

/// Any text is read as a multiple of the power of ten of a negative scale: what is left of its
/// integer once it is rounded, zero where that is none.
pub proof fn law_read_rounded_any(
    a: Seq<char>,
    sign: Option<bool>,
    w: Seq<char>,
    point: bool,
    f: Seq<char>,
    c: Seq<char>,
    precision: Option<u32>,
    scale: i32,
    kept: Seq<char>,
    last: Seq<char>,
)
    requires
        literal::blank(a),
        literal::blank(c),
        apart(sign, w, point, f),
        precision matches Some(p) ==> 1 <= p <= 16,
        scale < 0,
        !(parse::parse_value(a + any_text(sign, w, point, f) + c) matches Ok(Value::Special(_))),
        text::byte_len(rounding::short(w)) > -scale ==> rounding::round_off(
            rounding::short(w),
            (-scale) as nat,
        ) == Some(kept) && rounding::limit_significant(kept, precision) == Some(last),
        text::byte_len(rounding::short(w)) <= -scale ==> !literal::is_integer(rounding::short(w)),
    ensures
        ({
            let n = if text::byte_len(rounding::short(w)) > -scale {
                fixed::part_value(last) * digits::pow10((-scale) as nat)
            } else {
                0
            };
            holds(
                decimal64::read(a + any_text(sign, w, point, f) + c, precision, Some(scale)),
                if sign == Some(true) {
                    -n
                } else {
                    n
                },
                0,
            )
        }),
{
    let s = a + any_text(sign, w, point, f) + c;
    literal::law_special_name(s);
    lemma_any_text(a, sign, w, point, f, c);
}

/// Any text at a scale that is kept elsewhere: the integer before the point must be one of 64
/// bits, and so must its multiple; what stands behind the point is added to that.
pub proof fn law_read_integer_any(
    a: Seq<char>,
    sign: Option<bool>,
    w: Seq<char>,
    point: bool,
    f: Seq<char>,
    c: Seq<char>,
    scale: int,
    x: int,
)
    requires
        literal::blank(a),
        literal::blank(c),
        apart(sign, w, point, f),
        0 <= scale <= 18,
        !(parse::parse_value(a + any_text(sign, w, point, f) + c) matches Ok(Value::Special(_))),
        decimal64_no_scale::fraction_value(f, scale as nat) == Some(x),
    ensures
        ({
            let r = decimal64_no_scale::read(a + any_text(sign, w, point, f) + c, scale);
            let t = rounding::short(w);
            let n = fixed::part_value(t);
            let m = n * digits::pow10(scale as nat);
            if !literal::is_integer(t) || n < -9_223_372_036_854_775_808 || n
                > 9_223_372_036_854_775_807 {
                r == Some(
                    Err::<int, ErrorView>(
                        ErrorView::InvalidFormat("Invalid integer part: "@ + t),
                    ),
                )
            } else if m < -9_223_372_036_854_775_808 || m > 9_223_372_036_854_775_807 {
                r == Some(
                    Err::<int, ErrorView>(
                        ErrorView::InvalidFormat("Value too large for Decimal64NoScale"@),
                    ),
                )
            } else {
                holds_integer(
                    r,
                    if sign == Some(true) {
                        -(m + x)
                    } else {
                        m + x
                    },
                )
            }
        }),
{
    let s = a + any_text(sign, w, point, f) + c;
    let t = rounding::short(w);
    literal::law_special_name(s);
    lemma_any_text(a, sign, w, point, f, c);
    text_laws::law_part(t);
    if literal::is_integer(t) {
        assert(numeral::signed_value(t) is Some);
    }
}

/// Any text at a negative scale that is kept elsewhere counts the integer before its point,
/// zero where that is none, with half a unit added, and the rest left out.
pub proof fn law_read_integer_left_any(
    a: Seq<char>,
    sign: Option<bool>,
    w: Seq<char>,
    point: bool,
    f: Seq<char>,
    c: Seq<char>,
    scale: int,
    q: int,
)
    requires
        literal::blank(a),
        literal::blank(c),
        apart(sign, w, point, f),
        -18 <= scale < 0,
        !(parse::parse_value(a + any_text(sign, w, point, f) + c) matches Ok(Value::Special(_))),
        ({
            let unit = digits::pow10((-scale) as nat) as int;
            let n = 2 * fixed::part_value(rounding::short(w)) + unit;
            if n >= 0 {
                q >= 0 && 2 * q * unit <= n < 2 * (q + 1) * unit
            } else {
                q <= 0 && 2 * (q - 1) * unit < n <= 2 * q * unit
            }
        }),
    ensures
        holds_integer(
            decimal64_no_scale::read(a + any_text(sign, w, point, f) + c, scale),
            if sign == Some(true) {
                -q
            } else {
                q
            },
        ),
{
    let s = a + any_text(sign, w, point, f) + c;
    literal::law_special_name(s);
    lemma_any_text(a, sign, w, point, f, c);
    let h = 5 * digits::pow10((-scale - 1) as nat) as int;
    digits::lemma_pow10_pos((-scale - 1) as nat);
    let unit = digits::pow10((-scale) as nat) as int;
    assert(unit == 2 * h);
    let m = fixed::part_value(rounding::short(w)) + h;
    if m >= 0 {
        let rest = m - q * unit;
        assert(0 <= rest < unit && m == q * unit + rest) by (nonlinear_arith)
            requires
                2 * q * unit <= 2 * m < 2 * (q + 1) * unit,
                rest == m - q * unit,
        ;
        digits::lemma_div_mod(m, unit, q, rest);
    } else {
        let k = -q;
        let rest = -m - k * unit;
        assert(0 <= rest < unit && -m == k * unit + rest) by (nonlinear_arith)
            requires
                2 * (q - 1) * unit < 2 * m <= 2 * q * unit,
                rest == -m - k * unit,
                k == -q,
        ;
        digits::lemma_div_mod(-m, unit, k, rest);
    }
}

// ==================== Integers ====================

/// An integer from `-2^55` to `2^55 - 1` is converted to itself at scale 0, and any other to
/// the nearer end of that range.
pub proof fn law_from_integer(d: Decimal64, n: int)
    requires
        d@ == decimal64::packed(decimal64::clamped(n), 0),
    ensures
        -36_028_797_018_963_968 <= n <= 36_028_797_018_963_967 ==> d.stored_value() == n
            && d.number() == Value::Finite(value::scaled_parts(n, 0)) && literal::denotes(
            d.number(),
            n < 0,
            magnitude(n),
            0,
        ),
        n < -36_028_797_018_963_968 ==> d.stored_value() == -36_028_797_018_963_968,
        n > 36_028_797_018_963_967 ==> d.stored_value() == 36_028_797_018_963_967,
        d.special_value() is None,
        d.stored_scale() == 0,
{
    law_packed(d, decimal64::clamped(n), 0);
}

/// An integer at a scale of zero or more is multiplied by that power of ten, and then still
/// stands for itself, where the product has at most 18 digits; one that has more is
/// refused.
pub proof fn law_scaled_integer(n: int, scale: int)
    requires
        scale >= 0,
    ensures
        ({
            let m = n * digits::pow10(scale as nat);
            let r = decimal64_no_scale::scaled_integer(n, scale);
            if -999_999_999_999_999_999 <= m <= 999_999_999_999_999_999 {
                r == Ok::<int, ErrorView>(m) && value::scaled_parts(m, scale)
                    == value::scaled_parts(n, 0)
            } else if -9_223_372_036_854_775_808 <= m <= 9_223_372_036_854_775_807 {
                r == Err::<int, ErrorView>(
                    ErrorView::InvalidFormat("Value too large for Decimal64NoScale"@),
                )
            } else {
                r == Err::<int, ErrorView>(
                    ErrorView::InvalidFormat(
                        "Overflow: "@ + numeral::int_text(n) + " * 10^"@ + numeral::int_text(scale)
                            + " exceeds i64 range"@,
                    ),
                )
            }
        }),
{
    let k = digits::pow10(scale as nat);
    let m = n * k;
    digits::lemma_pow10_pos(scale as nat);
    if -999_999_999_999_999_999 <= m <= 999_999_999_999_999_999 {
        if n == 0 {
            assert(0 * k == 0) by (nonlinear_arith);
        } else {
            assert(-999_999_999_999_999_999 <= n <= 999_999_999_999_999_999 && k
                <= 999_999_999_999_999_999 && m != 0) by (nonlinear_arith)
                requires
                    -999_999_999_999_999_999 <= m <= 999_999_999_999_999_999,
                    m == n * k,
                    k >= 1,
                    n != 0,
            ;
            if scale > 18 {
                digits::lemma_pow10_mono(18, scale as nat);
                assert(digits::pow10(18) == 1_000_000_000_000_000_000) by {
                    reveal_with_fuel(digits::pow10, 19);
                }
            }
            decimal64_no_scale_laws::lemma_number_wf(m, scale);
            decimal64_no_scale_laws::lemma_number_wf(n, 0);
            decimal64_laws::lemma_scaled_order(m, scale, n, 0);
            let one = digits::pow10(0);
            assert(m * one == m) by (nonlinear_arith)
                requires
                    one == 1,
            ;
        }
    }
}

/// An integer at a negative scale is divided by that power of ten, the rest left out.
pub proof fn law_divided_integer(n: int, scale: int)
    requires
        scale < 0,
    ensures
        decimal64_no_scale::scaled_integer(n, scale) matches Ok(q) && ({
            let unit = digits::pow10((-scale) as nat);
            &&& n >= 0 ==> q >= 0 && q * unit <= n < (q + 1) * unit
            &&& n <= 0 ==> q <= 0 && (q - 1) * unit < n <= q * unit
        }),
{
    let unit = digits::pow10((-scale) as nat) as int;
    digits::lemma_pow10_pos((-scale) as nat);
    let m = magnitude(n) as int;
    let k = m / unit;
    vstd::arithmetic::div_mod::lemma_fundamental_div_mod(m, unit);
    assert(k >= 0 && k * unit <= m < (k + 1) * unit) by (nonlinear_arith)
        requires
            m == unit * k + m % unit,
            0 <= m % unit < unit,
            m >= 0,
            unit >= 1,
            k == m / unit,
    ;
    if n < 0 {
        assert((-k) * unit == -(k * unit) && (-k - 1) * unit == -((k + 1) * unit))
            by (nonlinear_arith);
    }
    if n == 0 {
        assert(k == 0) by (nonlinear_arith)
            requires
                k * unit <= 0,
                k >= 0,
                unit >= 1,
        ;
        assert(0 * unit == 0 && (0 - 1) * unit == -unit) by (nonlinear_arith);
    }
}

// ==================== Decimals whose scale is kept elsewhere ====================

/// The raw integers of the special values are the ends of the 64-bit range; any other one
/// stands for its multiple of `10^-scale`.
pub proof fn law_raw_integer(d: Decimal64NoScale, scale: int)
    ensures
        d.special_value() matches Some(v) ==> marks(d@ as int, v) && d.number(scale)
            == Value::Special(v),
        d.special_value() is None ==> -9_223_372_036_854_775_808 < d@ < 9_223_372_036_854_775_806
            && d.number(scale) == Value::Finite(value::scaled_parts(d@ as int, scale)) && (
        d.number(scale).wf() ==> literal::denotes(
            d.number(scale),
            d@ < 0,
            magnitude(d@ as int),
            -scale,
        )),
{
    if d.special_value() is None && d.number(scale).wf() {
        lemma_denotes(d@ as int, scale);
    }
}

/// What is read where `n` is to be held: `n`, or the error where it has more than 18
/// digits.
pub open spec fn holds_integer(r: Option<Result<int, ErrorView>>, n: int) -> bool {
    r == Some(
        if -999_999_999_999_999_999 <= n <= 999_999_999_999_999_999 {
            Ok::<int, ErrorView>(n)
        } else {
            Err(ErrorView::InvalidFormat("Value too large for Decimal64NoScale"@))
        },
    )
}

/// A result that agrees with such a reading is the decimal of that integer, or the error; one
/// that agrees with a refusal is that refusal.
pub proof fn law_integer_result(
    out: Option<Result<Decimal64NoScale, DecimalError>>,
    r: Option<Result<int, ErrorView>>,
)
    requires
        decimal64_no_scale::agrees(out, r),
    ensures
        r matches Some(Ok(n)) ==> (out matches Some(Ok(d)) && d@ == n),
        r matches Some(Err(f)) ==> (out matches Some(Err(e)) && e@ == f),
        r is None ==> out is None,
{
}

/// Reading a literal without an exponent at a scale from -18 to 18 gives the multiple of
/// `10^-scale` that is nearest to its number, a tie away from zero, with its sign. From
/// scale 0 on, digits before the point that write more than 64 bits are refused.
pub proof fn law_read_integer(
    a: Seq<char>,
    l: Literal,
    c: Seq<char>,
    scale: int,
    v: int,
    r: nat,
)
    requires
        literal::blank(a),
        literal::blank(c),
        l.wf(),
        l.exponent is None,
        -18 <= scale <= 18,
        v <= l.unit(),
        v <= -scale,
        numeric_laws::nearest(
            l.number() * digits::pow10((l.unit() - v) as nat),
            digits::pow10((-scale - v) as nat),
            r,
        ),
    ensures
        ({
            let s = a + l.text() + c;
            let w = numeral::text_number(l.whole);
            if scale >= 0 && w > 9_223_372_036_854_775_807 {
                decimal64_no_scale::read(s, scale) == Some(
                    Err::<int, ErrorView>(
                        ErrorView::InvalidFormat("Invalid integer part: "@ + numeral::nat_text(w)),
                    ),
                )
            } else {
                holds_integer(
                    decimal64_no_scale::read(s, scale),
                    literal::with_sign(l.minus(), r),
                )
            }
        }),
{
    let s = a + l.text() + c;
    literal::lemma_literal(a, l, c);
    rounding_laws::lemma_plain(s);
    numeric_laws::lemma_rounded(l.whole, l.frac, scale, v);
    digits::lemma_pow10_pos((-scale - v) as nat);
    numeric_laws::lemma_nearest(
        l.number() * digits::pow10((l.unit() - v) as nat),
        digits::pow10((-scale - v) as nat),
        r,
    );
    if scale < 0 {
        decimal64_no_scale_laws::law_read_rounded(s, scale);
    } else {
        law_short(l.whole);
        decimal64_no_scale_laws::law_read_value(s, scale);
    }
}

/// The special values are read at every scale; any other text is refused at a scale beyond
/// 18 in either direction.
pub proof fn law_read_integer_special(s: Seq<char>, scale: int)
    ensures
        match parse::parse_value(s) {
            Ok(Value::Special(v)) => decimal64_no_scale::read(s, scale) matches Some(Ok(n))
                && marks(n, v),
            _ => magnitude(scale) > 18 ==> decimal64_no_scale::read(s, scale) == Some(
                Err::<int, ErrorView>(
                    ErrorView::InvalidFormat(
                        "Scale "@ + numeral::int_text(magnitude(scale) as int)
                            + " exceeds maximum 18 for Decimal64NoScale"@,
                    ),
                ),
            ),
        },
{
    literal::law_special_name(s);
}

/// A number of any precision is converted to the multiple of `10^-scale` that is nearest to
/// it, a tie away from zero, where the multiple has at most 18 digits.
pub proof fn law_integer_from_decimal(p: Parts, scale: int, v: int, r: nat)
    requires
        p.wf(),
        -18 <= scale <= 18,
        v <= p.unit(),
        v <= -scale,
        v <= 0,
        numeric_laws::nearest(
            magnitude(p.scaled(v)),
            digits::pow10((-scale - v) as nat),
            r,
        ),
    ensures
        r <= 999_999_999_999_999_999 ==> decimal64_no_scale::read(value::plain_text(p), scale)
            == Some(Ok::<int, ErrorView>(literal::with_sign(p.negative, r))),
        r > 999_999_999_999_999_999 ==> decimal64_no_scale::read(value::plain_text(p), scale)
            matches Some(Err(_)),
{
    let l = lemma_plain_literal(p);
    let e = Seq::<char>::empty();
    assert(e + l.text() + e =~= value::plain_text(p));
    law_read_integer(e, l, e, scale, v, r);
    if scale >= 0 {
        numeric_laws::lemma_rounded(l.whole, l.frac, scale, v);
        digits::lemma_pow10_pos((-scale - v) as nat);
        numeric_laws::lemma_nearest(
            l.number() * digits::pow10((l.unit() - v) as nat),
            digits::pow10((-scale - v) as nat),
            r,
        );
        rounding_laws::lemma_rounded_integer(l.whole, l.frac, scale as nat);
    }
}

// ==================== Order ====================

/// `a * 10^-i` and `b * 10^-j` compare as the integers that they are in any unit small
/// enough for both.
pub proof fn law_scaled_order(a: int, i: int, b: int, j: int, m: int)
    requires
        m >= i,
        m >= j,
    ensures
        ({
            let x = a * digits::pow10((m - i) as nat);
            let y = b * digits::pow10((m - j) as nat);
            &&& fixed::scaled_order(a, i, b, j) == Order::Less <==> x < y
            &&& fixed::scaled_order(a, i, b, j) == Order::Equal <==> x == y
            &&& fixed::scaled_order(a, i, b, j) == Order::Greater <==> x > y
        }),
{
    let most = if i < j {
        j
    } else {
        i
    };
    let least = if i < j {
        i
    } else {
        j
    };
    let e = (m - most) as nat;
    let c = digits::pow10(e) as int;
    let p = digits::pow10((j - least) as nat);
    let q = digits::pow10((i - least) as nat);
    digits::lemma_pow10_pos(e);
    digits::lemma_pow10_add((j - least) as nat, e);
    digits::lemma_pow10_add((i - least) as nat, e);
    assert((j - least) as nat + e == (m - i) as nat);
    assert((i - least) as nat + e == (m - j) as nat);
    assert(a * (p * c) == (a * p) * c && b * (q * c) == (b * q) * c) by (nonlinear_arith);
    let x = a * p;
    let y = b * q;
    assert(x < y ==> x * c < y * c) by (nonlinear_arith)
        requires
            c >= 1,
    ;
    assert(x > y ==> x * c > y * c) by (nonlinear_arith)
        requires
            c >= 1,
    ;
}

/// Two special values, or one and a number, compare as negative infinity, the numbers,
/// positive infinity and NaN follow each other.
pub open spec fn special_order(a: Option<SpecialValue>, b: Option<SpecialValue>) -> Order {
    if a == b {
        Order::Equal
    } else if a == Some(SpecialValue::NegInfinity) || b == Some(SpecialValue::NaN) {
        Order::Less
    } else if b == Some(SpecialValue::NegInfinity) || a == Some(SpecialValue::NaN) {
        Order::Greater
    } else if a is None {
        Order::Less
    } else {
        Order::Greater
    }
}

/// Two decimals with their scales compare as their numbers do, counted in `10^-255`.
pub proof fn law_order(a: Decimal64, b: Decimal64)
    ensures
        if a.special_value() is Some || b.special_value() is Some {
            decimal64::order_of(a, b) == special_order(a.special_value(), b.special_value())
        } else {
            let x = a.stored_value() * digits::pow10((255 - a.stored_scale()) as nat);
            let y = b.stored_value() * digits::pow10((255 - b.stored_scale()) as nat);
            &&& decimal64::order_of(a, b) == Order::Less <==> x < y
            &&& decimal64::order_of(a, b) == Order::Equal <==> x == y
            &&& decimal64::order_of(a, b) == Order::Greater <==> x > y
        },
{
    if a.special_value() is None && b.special_value() is None {
        law_scaled_order(
            a.stored_value(),
            a.stored_scale(),
            b.stored_value(),
            b.stored_scale(),
            255,
        );
    }
}

/// Two decimals at scales that are kept elsewhere compare as their numbers do, counted in
/// any unit small enough for both.
pub proof fn law_order_at(a: Decimal64NoScale, b: Decimal64NoScale, i: int, j: int, m: int)
    requires
        m >= i,
        m >= j,
    ensures
        if a.special_value() is Some || b.special_value() is Some {
            decimal64_no_scale::order_of(a, b, i, j) == special_order(
                a.special_value(),
                b.special_value(),
            )
        } else {
            let x = a@ * digits::pow10((m - i) as nat);
            let y = b@ * digits::pow10((m - j) as nat);
            &&& decimal64_no_scale::order_of(a, b, i, j) == Order::Less <==> x < y
            &&& decimal64_no_scale::order_of(a, b, i, j) == Order::Equal <==> x == y
            &&& decimal64_no_scale::order_of(a, b, i, j) == Order::Greater <==> x > y
        },
        decimal64_no_scale::raw_order(a, b) == Order::Less <==> a@ < b@,
        decimal64_no_scale::raw_order(a, b) == Order::Equal <==> a@ == b@,
        decimal64_no_scale::raw_order(a, b) == Order::Greater <==> a@ > b@,
{
    if a.special_value() is None && b.special_value() is None {
        law_scaled_order(a@ as int, i, b@ as int, j, m);
    }
}

// ==================== Bytes ====================

/// The eight bytes of an integer are its digits to the base 256, most significant first,
/// a negative one with `2^64` added to it.
pub proof fn law_bytes(n: i64)
    ensures
        ({
            let b = fixed::be_bytes(n as int);
            let u = ((((((b[0] * 256 + b[1]) * 256 + b[2]) * 256 + b[3]) * 256 + b[4]) * 256 + b[5])
                * 256 + b[6]) * 256 + b[7];
            b.len() == 8 && u == (if n < 0 {
                n + 18_446_744_073_709_551_616
            } else {
                n as int
            })
        }),
{
    fixed::law_be_round_trip(n);
}

/// Eight bytes are read as the digits of an integer to the base 256, most significant
/// first; from `2^63` on, `2^64` is taken from it.
pub proof fn law_bytes_read(b: Seq<u8>)
    requires
        b.len() == 8,
    ensures
        ({
            let u = ((((((b[0] * 256 + b[1]) * 256 + b[2]) * 256 + b[3]) * 256 + b[4]) * 256 + b[5])
                * 256 + b[6]) * 256 + b[7];
            fixed::of_be_bytes(b) == (if u >= 9_223_372_036_854_775_808 {
                u - 18_446_744_073_709_551_616
            } else {
                u
            })
        }),
{
}

} // verus!
