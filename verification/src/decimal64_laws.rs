//! What holds of decimals in 64 bits with their scale.
use vstd::prelude::*;

use crate::decimal64;
use crate::decimal64::Decimal64;
use crate::decimal64::Reading;
use crate::digits;
use crate::error::ErrorView;
use crate::fixed;
use crate::numeral;
use crate::order;
use crate::parse;
use crate::rounding;
use crate::rounding_laws;
use crate::roundtrip;
use crate::text;
use crate::value;
use crate::value::Parts;
use crate::value::Value;

verus! {

/// Reading a plain literal at a scale of zero or more gives its magnitude as a
/// multiple of `10^-scale`, rounded to the nearest one with a tie away from zero,
/// cut to the last digits that the precision keeps, with the literal's sign; or
/// the error where that does not fit 56 bits.
pub proof fn law_read_value(s: Seq<char>, precision: Option<u32>, scale: Option<i32>)
    requires
        rounding_laws::is_plain(s),
        scale.unwrap_or(0) >= 0,
        decimal64::constraint_error(precision, scale.unwrap_or(0) as int) is None,
    ensures
        decimal64::read(s, precision, scale) == Some(
            decimal64::checked(
                decimal64::signed(
                    parse::literal_negative(s),
                    rounding::kept(
                        rounding_laws::rounded_number(s, scale.unwrap_or(0) as nat),
                        precision,
                        scale.unwrap_or(0) as nat,
                    ) as int,
                ),
                scale.unwrap_or(0) as int,
            ),
        ),
{
    rounding_laws::lemma_plain(s);
    rounding_laws::lemma_plain_not_special(s);
    rounding_laws::lemma_short(rounding_laws::whole_of(s));
    rounding_laws::lemma_rounded_short(
        rounding_laws::whole_of(s),
        rounding_laws::frac_of(s),
        scale.unwrap_or(0) as nat,
    );
    decimal64::lemma_fitted(
        rounding::short(rounding_laws::whole_of(s)),
        rounding_laws::frac_of(s),
        precision,
        scale.unwrap_or(0) as nat,
    );
}

/// A plain literal that takes at most 16 digits at a scale is read, and gives those
/// digits.
pub proof fn law_sixteen_digits(s: Seq<char>, scale: u8)
    requires
        rounding_laws::is_plain(s),
        scale <= decimal64::MAX_DECIMAL64_SCALE,
        rounding_laws::rounded_number(s, scale as nat) < digits::pow10(
            decimal64::MAX_DECIMAL64_PRECISION as nat,
        ),
    ensures
        decimal64::read(s, None, Some(scale as i32)) == Some(
            Ok::<Reading, ErrorView>(
                Reading::Number(
                    decimal64::signed(
                        parse::literal_negative(s),
                        rounding_laws::rounded_number(s, scale as nat) as int,
                    ),
                    scale as int,
                ),
            ),
        ),
{
    assert(digits::pow10(16) == 10_000_000_000_000_000) by {
        reveal_with_fuel(digits::pow10, 17);
    }
    law_read_value(s, None, Some(scale as i32));
}

/// Reading a plain literal at a negative scale rounds it to the nearest multiple of
/// that power of ten, a tie away from zero, and keeps the last digits of the
/// multiple that the precision says; or gives the error where that does not fit 56
/// bits.
pub proof fn law_read_rounded(s: Seq<char>, precision: Option<u32>, scale: i32)
    requires
        rounding_laws::is_plain(s),
        scale < 0,
        decimal64::constraint_error(precision, scale as int) is None,
    ensures
        ({
            let unit = digits::pow10((-scale) as nat);
            let all = rounding::round_div(
                numeral::text_number(rounding_laws::whole_of(s)),
                unit,
            );
            decimal64::read(s, precision, Some(scale)) == Some(
                decimal64::checked(
                    decimal64::signed(
                        parse::literal_negative(s),
                        rounding::kept(all, precision, 0) * unit as int,
                    ),
                    0,
                ),
            )
        }),
{
    let r = (-scale) as nat;
    let unit = digits::pow10(r);
    let w = rounding::short(rounding_laws::whole_of(s));
    rounding_laws::lemma_plain(s);
    rounding_laws::lemma_plain_not_special(s);
    rounding_laws::lemma_short(rounding_laws::whole_of(s));
    rounding_laws::lemma_numeral_bytes(w);
    if w.len() <= r {
        rounding_laws::lemma_round_short(w, r);
        rounding_laws::lemma_kept_small(
            rounding::round_div(numeral::text_number(w), unit),
            precision,
        );
        assert(1 * unit == unit && 0 * unit == 0) by (nonlinear_arith);
    } else {
        rounding_laws::lemma_round_off(w, r);
        let head = rounding::round_off(w, r)->0;
        rounding_laws::lemma_limit_significant(head, precision);
        fixed::lemma_part_numeral(rounding::limit_significant(head, precision)->0);
    }
}

/// The raw integer of a number is made of its value and its scale.
pub proof fn law_raw(d: Decimal64)
    requires
        d.wf(),
        d.special_value() is None,
    ensures
        d@ == decimal64::packed(d.stored_value(), d.stored_scale()),
        decimal64::in_range(d.stored_value()),
        0 <= d.stored_scale(),
{
    let p = d@ as int;
    let u = decimal64::SCALE_UNIT as int;
    let q = p / u;
    vstd::arithmetic::div_mod::lemma_fundamental_div_mod(p, u);
    assert(-128 <= q < 128);
    assert(q == d.stored_scale());
}

/// The raw integers of numbers of one scale compare as the numbers do, and those of
/// the special values as they do among each other and with all numbers.
pub proof fn law_raw_order(a: Decimal64, b: Decimal64)
    requires
        a.wf(),
        b.wf(),
        a.special_value() is Some || b.special_value() is Some || a.stored_scale()
            == b.stored_scale(),
    ensures
        fixed::int_order(a@ as int, b@ as int) == decimal64::order_of(a, b),
{
    if a.special_value() is None {
        law_raw(a);
        decimal64::lemma_packed(a.stored_value(), a.stored_scale());
    }
    if b.special_value() is None {
        law_raw(b);
        decimal64::lemma_packed(b.stored_value(), b.stored_scale());
    }
    if a.special_value() is None && b.special_value() is None {
        let one = digits::pow10(0);
        let x = a.stored_value();
        let y = b.stored_value();
        assert(x * one == x && y * one == y) by (nonlinear_arith)
            requires
                one == 1,
        ;
    }
}

/// Counting in a unit `10^k` times as small gives `10^k` times as many.
pub proof fn lemma_scaled_shift(p: Parts, u: int, k: nat)
    requires
        u <= p.unit(),
    ensures
        p.scaled(u - k) == p.scaled(u) * digits::pow10(k),
{
    let n = digits::number(p.digits);
    let a = digits::pow10((p.unit() - u) as nat);
    let b = digits::pow10(k);
    digits::lemma_pow10_add((p.unit() - u) as nat, k);
    assert((p.unit() - u) as nat + k == (p.unit() - (u - k)) as nat);
    assert(n * (a * b) == (n * a) * b) by (nonlinear_arith);
    assert((-((n * a) as int)) * b == -(((n * a) * b) as int)) by (nonlinear_arith);
}

/// The order of `a * 10^-i` and `b * 10^-j` is the order of the numbers.
pub proof fn lemma_scaled_order(a: int, i: int, b: int, j: int)
    requires
        value::scaled_parts(a, i).wf(),
        value::scaled_parts(b, j).wf(),
    ensures
        ({
            let p = value::scaled_parts(a, i);
            let q = value::scaled_parts(b, j);
            &&& fixed::scaled_order(a, i, b, j) is Less <==> value::parts_lt(p, q)
            &&& fixed::scaled_order(a, i, b, j) is Equal <==> p == q
            &&& fixed::scaled_order(a, i, b, j) is Greater <==> value::parts_lt(q, p)
        }),
{
    let p = value::scaled_parts(a, i);
    let q = value::scaled_parts(b, j);
    let (least, most) = if i < j {
        (i, j)
    } else {
        (j, i)
    };
    let v = if most > 0 {
        -most
    } else {
        0
    };
    lemma_count(a, i, v);
    lemma_count(b, j, v);
    order::lemma_parts_lt_unit(p, q, v);
    order::lemma_parts_lt_unit(q, p, v);
    let e = (-v - most) as nat;
    let c = digits::pow10(e);
    let x = digits::pow10((j - least) as nat);
    let y = digits::pow10((i - least) as nat);
    digits::lemma_pow10_add((j - least) as nat, e);
    digits::lemma_pow10_add((i - least) as nat, e);
    digits::lemma_pow10_pos(e);
    assert((j - least) as nat + e == (-i - v) as nat);
    assert((i - least) as nat + e == (-j - v) as nat);
    assert(a * (x * c) == (a * x) * c) by (nonlinear_arith);
    assert(b * (y * c) == (b * y) * c) by (nonlinear_arith);
    lemma_times_positive(a * x, b * y, c as int);
}

/// A positive factor keeps the order of integers.
proof fn lemma_times_positive(x: int, y: int, c: int)
    requires
        c > 0,
    ensures
        x < y <==> x * c < y * c,
        x == y <==> x * c == y * c,
{
    assert(x < y ==> x * c < y * c) by (nonlinear_arith)
        requires
            c > 0,
    ;
    assert(x > y ==> x * c > y * c) by (nonlinear_arith)
        requires
            c > 0,
    ;
}

/// `a * 10^-i` counted in `10^v`.
pub proof fn lemma_count(a: int, i: int, v: int)
    requires
        v <= -i,
        v <= 0,
    ensures
        v <= value::scaled_parts(a, i).unit(),
        value::scaled_parts(a, i).scaled(v) == a * digits::pow10((-i - v) as nat),
{
    let p = value::scaled_parts(a, i);
    value::law_scaled_parts(a, i);
    let c = digits::pow10((-i - v) as nat);
    if a == 0 {
        assert(digits::number(p.digits) == 0);
        let d = digits::pow10((p.unit() - v) as nat);
        assert(0nat * d == 0) by (nonlinear_arith);
        assert(0 * c == 0) by (nonlinear_arith);
    } else {
        lemma_scaled_shift(p, -i, (-i - v) as nat);
    }
}

/// Comparing two decimals compares their values, whatever their scales; decimals
/// of one value compare equal.
pub proof fn law_order(a: Decimal64, b: Decimal64)
    ensures
        decimal64::order_of(a, b) is Less <==> value::value_lt(a.number(), b.number()),
        decimal64::order_of(a, b) is Equal <==> a.number() == b.number(),
        decimal64::order_of(a, b) is Greater <==> value::value_lt(b.number(), a.number()),
{
    decimal64::lemma_number_wf(a);
    decimal64::lemma_number_wf(b);
    if a.special_value() is None && b.special_value() is None {
        lemma_scaled_order(
            a.stored_value(),
            a.stored_scale(),
            b.stored_value(),
            b.stored_scale(),
        );
    }
}

/// The digits behind the point of the text of `n * 10^-scale` are no more than the
/// scale, and the text counts `n` in units of `10^-scale`.
pub proof fn lemma_scaled_text(n: int, scale: nat)
    requires
        value::scaled_parts(n, scale as int).wf(),
    ensures
        ({
            let s = value::plain_text(value::scaled_parts(n, scale as int));
            &&& rounding_laws::is_plain(s)
            &&& rounding_laws::frac_of(s).len() <= scale
            &&& rounding_laws::rounded_number(s, scale) == (if n < 0 {
                -n
            } else {
                n
            })
            &&& parse::literal_negative(s) == (n < 0)
        }),
{
    let p = value::scaled_parts(n, scale as int);
    let s = value::plain_text(p);
    value::law_scaled_parts(n, scale as int);
    roundtrip::lemma_plain_shape(p);
    roundtrip::law_text_round_trip(Value::Finite(p));
    let f = rounding_laws::frac_of(s);
    text::lemma_point(f);
    if text::point(f) < f.len() {
        assert(text::is_digit(f[text::point(f) as int]));
    }
    assert(f.len() <= scale);
    assert(parse::literal_unit(s) == -(f.len() as int));
    parse::law_literal_value(s, -(scale as int));
    assert((parse::literal_unit(s) + scale) as nat == (scale - f.len()) as nat);
    if n == 0 {
        let d = digits::pow10((p.unit() + scale) as nat);
        assert(digits::number(p.digits) == 0);
        assert(0nat * d == 0) by (nonlinear_arith);
    }
}

/// The text of a decimal, read at its scale, gives the decimal back; so does its
/// conversion to a decimal of any precision and back.
pub proof fn law_text_round_trip(d: Decimal64)
    requires
        d.wf(),
    ensures
        ({
            let scale: int = if d.special_value() is Some {
                0
            } else {
                d.stored_scale()
            };
            decimal64::read(value::value_text(d.number()), None, Some(scale as i32)) matches Some(
                Ok(x),
            ) && x.raw() == d@
        }),
{
    match d.special_value() {
        Some(v) => {
            roundtrip::law_text_round_trip(Value::Special(v));
        },
        None => {
            let n = d.stored_value();
            let sc = d.stored_scale();
            let s = value::value_text(d.number());
            law_raw(d);
            decimal64::lemma_number_wf(d);
            lemma_scaled_text(n, sc as nat);
            law_read_value(s, None, Some(sc as i32));
        },
    }
}

/// The scale that is found for a plain literal is the number of its digits behind the
/// point, where that is allowed, so that it is read without rounding.
pub proof fn law_detected_scale(s: Seq<char>)
    requires
        rounding_laws::is_plain(s),
        rounding_laws::frac_of(s).len() <= decimal64::MAX_DECIMAL64_SCALE,
    ensures
        decimal64::detected_scale(s) == rounding_laws::frac_of(s).len(),
        rounding_laws::rounded_number(s, rounding_laws::frac_of(s).len())
            == parse::literal_number(s),
{
    let t = text::trim(s);
    let run = parse::literal_run(s);
    let f = rounding_laws::frac_of(s);
    rounding_laws::lemma_plain(s);
    text::lemma_point(run);
    text::lemma_point(t);
    if t.len() > 0 && (t[0] == '-' || t[0] == '+') {
        assert(t.drop_first() =~= run);
        assert(text::point(t) == 1 + text::point(run));
        assert(text::after_point(t) =~= f);
    } else {
        assert(t =~= run);
    }
    lemma_digit_run(f);
    let n = parse::literal_number(s);
    let one = digits::pow10(0);
    assert(n * one == n) by (nonlinear_arith)
        requires
            one == 1,
    ;
}

proof fn lemma_digit_run(s: Seq<char>)
    requires
        numeral::is_numeral(s),
    ensures
        decimal64::digit_run(s) == s.len(),
    decreases s.len(),
{
    if s.len() > 0 {
        let t = s.drop_first();
        assert(text::is_digit(s[0]));
        assert forall|i: int| 0 <= i < t.len() implies text::is_digit(#[trigger] t[i]) by {
            assert(text::is_digit(s[i + 1]));
        }
        lemma_digit_run(t);
    }
}

} // verus!
