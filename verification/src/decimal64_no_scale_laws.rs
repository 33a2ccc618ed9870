//! What holds of decimals in 64 bits whose scale is kept elsewhere.
use vstd::prelude::*;

use crate::decimal64;
use crate::decimal64_laws;
use crate::decimal64_no_scale;
use crate::decimal64_no_scale::Decimal64NoScale;
use crate::digits;
use crate::error::ErrorView;
use crate::fixed;
use crate::numeral;
use crate::parse;
use crate::rounding;
use crate::rounding_laws;
use crate::roundtrip;
use crate::text;
use crate::value;
use crate::value::Value;

verus! {

/// The digits behind the point of a plain literal count what rounding leaves of
/// them.
proof fn lemma_fraction_value(w: Seq<char>, f: Seq<char>, scale: nat)
    requires
        numeral::is_numeral(w),
        numeral::is_numeral(f),
    ensures
        decimal64_no_scale::fraction_value(f, scale) matches Some(x) && 0 <= x
            && numeral::text_number(w) * digits::pow10(scale) + x == rounding::rounded(w, f, scale),
{
    rounding_laws::lemma_numeral_bytes(f);
    rounding_laws::lemma_numeral_concat(w, f);
    let x = numeral::text_number(w);
    let z = digits::pow10(scale);
    if f.len() <= scale {
        let k = (scale - f.len()) as nat;
        let y = numeral::text_number(f);
        let p = digits::pow10(f.len());
        let q = digits::pow10(k);
        digits::lemma_pow10_add(f.len(), k);
        assert((x * p + y) * q == x * (p * q) + y * q) by (nonlinear_arith);
        if f.len() == 0 {
            assert(numeral::values(f) =~= Seq::<u8>::empty());
            assert(0nat * q == 0) by (nonlinear_arith);
        } else {
            let pad = decimal64::pad_end(f, scale);
            assert(pad =~= f + text::zeros(k));
            numeral::lemma_values_zeros(k);
            digits::lemma_number_zeros(k);
            rounding_laws::lemma_numeral_concat(f, text::zeros(k));
            fixed::lemma_part_numeral(pad);
        }
    } else {
        rounding_laws::lemma_numeral_take(f, scale as int);
        let cut = f.take(scale as int);
        let rest = f.skip(scale as int);
        let k = (f.len() - scale) as nat;
        let d = digits::pow10(k);
        let c = numeral::text_number(cut);
        let r = numeral::text_number(rest);
        digits::lemma_pow10_add(scale, k);
        assert(x * (z * d) + (c * d + r) == (x * z + c) * d + r) by (nonlinear_arith);
        rounding_laws::lemma_round_div(x * z + c, d, r);
        rounding_laws::lemma_first_digit(rest);
        assert(rest[0] == f[scale as int]);
        assert(text::boundary(f, scale) == Some(scale));
        fixed::lemma_part_numeral(cut);
    }
}

/// Reading a plain literal at a scale from 0 to 18 gives its magnitude as a multiple
/// of `10^-scale`, rounded to the nearest one with a tie away from zero, with the
/// literal's sign; an error where the integer part does not fit 64 bits, and
/// another where the multiple has more than 18 digits.
pub proof fn law_read_value(s: Seq<char>, scale: int)
    requires
        rounding_laws::is_plain(s),
        0 <= scale <= decimal64_no_scale::MAX_DECIMAL64_NO_SCALE_SCALE,
    ensures
        decimal64_no_scale::read(s, scale) == Some(
            if numeral::text_number(rounding_laws::whole_of(s)) > i64::MAX {
                Err(
                    ErrorView::InvalidFormat(
                        "Invalid integer part: "@ + rounding::short(rounding_laws::whole_of(s)),
                    ),
                )
            } else {
                decimal64_no_scale::checked(
                    decimal64::signed(
                        parse::literal_negative(s),
                        rounding_laws::rounded_number(s, scale as nat) as int,
                    ),
                )
            },
        ),
{
    let w = rounding::short(rounding_laws::whole_of(s));
    let f = rounding_laws::frac_of(s);
    let n = scale as nat;
    rounding_laws::lemma_plain(s);
    rounding_laws::lemma_plain_not_special(s);
    rounding_laws::lemma_short(rounding_laws::whole_of(s));
    rounding_laws::lemma_rounded_short(rounding_laws::whole_of(s), f, n);
    lemma_fraction_value(w, f, n);
    fixed::lemma_part_numeral(w);
    assert(text::is_digit(w[0]));
    let x = numeral::text_number(w);
    assert(x * digits::pow10(n) >= 0) by (nonlinear_arith);
}

/// Reading a plain literal at a scale from -18 to -1 rounds its magnitude to the nearest
/// multiple of that power of ten, a tie away from zero, and gives the multiple with the
/// literal's sign; or the error where the multiple has more than 18 digits.
pub proof fn law_read_rounded(s: Seq<char>, scale: int)
    requires
        rounding_laws::is_plain(s),
        -decimal64_no_scale::MAX_DECIMAL64_NO_SCALE_SCALE <= scale < 0,
    ensures
        decimal64_no_scale::read(s, scale) == Some(
            decimal64_no_scale::checked(
                decimal64::signed(
                    parse::literal_negative(s),
                    rounding::round_div(
                        numeral::text_number(rounding_laws::whole_of(s)),
                        digits::pow10((-scale) as nat),
                    ) as int,
                ),
            ),
        ),
{
    let r = (-scale) as nat;
    let w = rounding::short(rounding_laws::whole_of(s));
    rounding_laws::lemma_plain(s);
    rounding_laws::lemma_plain_not_special(s);
    rounding_laws::lemma_short(rounding_laws::whole_of(s));
    fixed::lemma_part_numeral(w);
    let x = numeral::text_number(w) as int;
    let h = 5 * digits::pow10((r - 1) as nat) as int;
    digits::lemma_pow10_pos((r - 1) as nat);
    let unit = 2 * h;
    assert(digits::pow10(r) == unit);
    let q = (x + h) / unit;
    let m = (x + h) % unit;
    vstd::arithmetic::div_mod::lemma_fundamental_div_mod(x + h, unit);
    assert(2 * x + unit == q * (2 * unit) + 2 * m) by (nonlinear_arith)
        requires
            x + h == unit * q + m,
            unit == 2 * h,
    ;
    digits::lemma_div_mod(2 * x + unit, 2 * unit, q, 2 * m);
}

/// The text of a decimal at a scale from 0 to 18, read at that scale, gives the
/// decimal back; that of a special value at any scale.
pub proof fn law_text_round_trip(d: Decimal64NoScale, scale: int)
    requires
        d.special_value() is Some || (decimal64_no_scale::in_range(d@ as int) && 0 <= scale
            <= decimal64_no_scale::MAX_DECIMAL64_NO_SCALE_SCALE),
    ensures
        decimal64_no_scale::read(value::scaled_text(d.number(scale), scale), scale) == Some(
            Ok::<int, ErrorView>(d@ as int),
        ),
{
    match d.special_value() {
        Some(v) => {
            roundtrip::law_text_round_trip(Value::Special(v));
        },
        None => {
            let n = d@ as int;
            let p = value::scaled_parts(n, scale);
            lemma_number_wf(n, scale);
            decimal64_laws::lemma_scaled_text(n, scale as nat);
            let t = value::plain_text(p);
            let s = value::fixed_text(t, scale);
            roundtrip::lemma_scaled_frac(n, scale);
            roundtrip::law_scaled_text_read(Value::Finite(p), scale);
            lemma_padded_plain(n, scale);
            lemma_read_back(s, n, scale);
        },
    }
}

/// A decimal of at most 18 digits has an exponent in range at every scale that is
/// allowed.
pub proof fn lemma_number_wf(n: int, scale: int)
    requires
        decimal64_no_scale::in_range(n),
        -18 <= scale <= 18,
    ensures
        value::scaled_parts(n, scale).wf(),
{
    value::law_scaled_parts(n, scale);
    if n != 0 {
        let m = (if n < 0 { -n } else { n }) as nat;
        numeral::lemma_nat_text_len(m, 18);
        assert(m < digits::pow10(18)) by {
            reveal_with_fuel(digits::pow10, 19);
        }
    }
}

/// The padded text of `n * 10^-scale` is a plain literal with at most `scale` digits
/// behind the point.
proof fn lemma_padded_plain(n: int, scale: int)
    requires
        scale >= 0,
        value::scaled_parts(n, scale).wf(),
    ensures
        ({
            let s = value::fixed_text(value::plain_text(value::scaled_parts(n, scale)), scale);
            &&& rounding_laws::is_plain(s)
            &&& rounding_laws::frac_of(s).len() <= scale
            &&& parse::literal_negative(s) == (n < 0)
        }),
{
    let p = value::scaled_parts(n, scale);
    decimal64_laws::lemma_scaled_text(n, scale as nat);
    if scale > 0 {
        roundtrip::lemma_plain_shape(p);
        let negative = p.negative && p.digits.len() > 0;
        let whole = roundtrip::plain_whole(p);
        let frac = roundtrip::plain_frac(p);
        roundtrip::lemma_padded_literal(negative, whole, frac, scale);
        let k = (scale - frac.len()) as nat;
        let more = frac + text::zeros(k);
        assert forall|i: int| 0 <= i < more.len() implies text::is_digit(#[trigger] more[i]) by {
            if i < frac.len() {
                assert(text::is_digit(frac[i]));
            }
        }
        roundtrip::lemma_plain_literal(negative, whole, more, true);
        rounding_laws::lemma_no_point(more);
    }
}

/// A plain literal that denotes `n * 10^-scale` is read as `n`.
proof fn lemma_read_back(s: Seq<char>, n: int, scale: int)
    requires
        0 <= scale <= 18,
        decimal64_no_scale::in_range(n),
        rounding_laws::is_plain(s),
        rounding_laws::frac_of(s).len() <= scale,
        parse::literal_negative(s) == (n < 0),
        parse::parse_text(s) == Ok::<value::Parts, ErrorView>(value::scaled_parts(n, scale)),
    ensures
        decimal64_no_scale::read(s, scale) == Some(
            Ok::<int, ErrorView>(n),
        ),
{
    let p = value::scaled_parts(n, scale);
    let f = rounding_laws::frac_of(s);
    value::law_scaled_parts(n, scale);
    assert(parse::literal_unit(s) == -(f.len() as int));
    parse::law_literal_value(s, -scale);
    assert((parse::literal_unit(s) + scale) as nat == (scale - f.len()) as nat);
    if n == 0 {
        let d = digits::pow10((p.unit() + scale) as nat);
        assert(digits::number(p.digits) == 0);
        assert(0nat * d == 0) by (nonlinear_arith);
    }
    let all = rounding_laws::rounded_number(s, scale as nat);
    assert(all == (if n < 0 { -n } else { n }));
    rounding_laws::lemma_plain(s);
    rounding_laws::lemma_rounded_integer(
        rounding_laws::whole_of(s),
        rounding_laws::frac_of(s),
        scale as nat,
    );
    law_read_value(s, scale);
}

/// The text of a decimal at a scale from -18 to -1, read at that scale, gives the
/// decimal back.
pub proof fn law_text_round_trip_left(d: Decimal64NoScale, scale: int)
    requires
        -decimal64_no_scale::MAX_DECIMAL64_NO_SCALE_SCALE <= scale < 0,
        d.special_value() is None,
        decimal64_no_scale::in_range(d@ as int),
    ensures
        decimal64_no_scale::read(value::scaled_text(d.number(scale), scale), scale) == Some(
            Ok::<int, ErrorView>(d@ as int),
        ),
{
    let n = d@ as int;
    let r = (-scale) as nat;
    let unit = digits::pow10(r);
    let m = (if n < 0 { -n } else { n }) as nat;
    let p = value::scaled_parts(n, scale);
    let s = value::plain_text(p);
    lemma_number_wf(n, scale);
    value::law_scaled_parts(n, scale);
    roundtrip::lemma_plain_shape(p);
    let w = rounding_laws::whole_of(s);
    let f = rounding_laws::frac_of(s);
    rounding_laws::lemma_no_point(f);
    law_read_rounded(s, scale);
    digits::lemma_pow10_pos(r);
    if n == 0 {
        assert(w =~= seq!['0']);
        assert(numeral::values(w) =~= digits::zero_digits(1));
        digits::lemma_number_zeros(1);
        rounding_laws::lemma_round_div_small(0, unit);
    } else {
        assert(f =~= Seq::<char>::empty());
        roundtrip::law_text_round_trip(Value::Finite(p));
        assert(parse::literal_unit(s) == 0);
        parse::law_literal_value(s, 0);
        decimal64_laws::lemma_scaled_shift(p, r as int, r);
        let one = digits::pow10(0);
        let total = parse::literal_number(s);
        assert(total * one == total) by (nonlinear_arith)
            requires
                one == 1,
        ;
        assert(n * unit == (if n < 0 { -((m * unit) as int) } else { (m * unit) as int }))
            by (nonlinear_arith)
            requires
                m == (if n < 0 { -n } else { n }),
        ;
        assert(total == m * unit);
        assert(w + f =~= w);
        assert(numeral::text_number(w) == m * unit);
        assert(m * unit + 0 == m * unit);
        rounding_laws::lemma_round_div(m, unit, 0);
    }
}

/// The conversion of a decimal at a scale from -18 to 18 to one of any precision, read
/// at that scale, gives the decimal back.
pub proof fn law_decimal_round_trip(d: Decimal64NoScale, scale: int)
    requires
        -decimal64_no_scale::MAX_DECIMAL64_NO_SCALE_SCALE <= scale
            <= decimal64_no_scale::MAX_DECIMAL64_NO_SCALE_SCALE,
        d.special_value() is None,
        decimal64_no_scale::in_range(d@ as int),
    ensures
        d.number(scale).wf(),
        decimal64_no_scale::read(value::value_text(d.number(scale)), scale) == Some(
            Ok::<int, ErrorView>(d@ as int),
        ),
{
    let n = d@ as int;
    let p = value::scaled_parts(n, scale);
    lemma_number_wf(n, scale);
    if scale < 0 {
        law_text_round_trip_left(d, scale);
    } else {
        decimal64_laws::lemma_scaled_text(n, scale as nat);
        roundtrip::law_text_round_trip(Value::Finite(p));
        lemma_read_back(value::plain_text(p), n, scale);
    }
}

/// A plain literal that takes at most 18 digits at a scale from 0 to 18 is read, and
/// gives those digits.
pub proof fn law_eighteen_digits(s: Seq<char>, scale: int)
    requires
        rounding_laws::is_plain(s),
        0 <= scale <= decimal64_no_scale::MAX_DECIMAL64_NO_SCALE_SCALE,
        rounding_laws::rounded_number(s, scale as nat) < digits::pow10(
            decimal64_no_scale::MAX_DECIMAL64_NO_SCALE_PRECISION as nat,
        ),
    ensures
        decimal64_no_scale::read(s, scale) == Some(
            Ok::<int, ErrorView>(
                decimal64::signed(
                    parse::literal_negative(s),
                    rounding_laws::rounded_number(s, scale as nat) as int,
                ),
            ),
        ),
{
    assert(digits::pow10(18) == 1_000_000_000_000_000_000) by {
        reveal_with_fuel(digits::pow10, 19);
    }
    rounding_laws::lemma_plain(s);
    rounding_laws::lemma_rounded_integer(
        rounding_laws::whole_of(s),
        rounding_laws::frac_of(s),
        scale as nat,
    );
    law_read_value(s, scale);
}

/// The raw integers of decimals of one scale compare as the numbers do, special
/// values included.
pub proof fn law_raw_order(a: Decimal64NoScale, b: Decimal64NoScale, scale: int)
    ensures
        decimal64_no_scale::raw_order(a, b) == decimal64_no_scale::order_of(a, b, scale, scale),
{
    let one = digits::pow10(0);
    let x = a@ as int;
    let y = b@ as int;
    assert(x * one == x && y * one == y) by (nonlinear_arith)
        requires
            one == 1,
    ;
}

/// Comparing two decimals at their scales compares the values that they stand for.
pub proof fn law_order(a: Decimal64NoScale, b: Decimal64NoScale, i: int, j: int)
    requires
        a.number(i).wf(),
        b.number(j).wf(),
    ensures
        decimal64_no_scale::order_of(a, b, i, j) is Less <==> value::value_lt(
            a.number(i),
            b.number(j),
        ),
        decimal64_no_scale::order_of(a, b, i, j) is Equal <==> a.number(i) == b.number(j),
        decimal64_no_scale::order_of(a, b, i, j) is Greater <==> value::value_lt(
            b.number(j),
            a.number(i),
        ),
{
    if a.special_value() is None && b.special_value() is None {
        decimal64_laws::lemma_scaled_order(a@ as int, i, b@ as int, j);
    }
}

/// The sum of raw integers of one scale stands for the sum of the numbers, counted
/// in any power of ten that divides them all.
pub proof fn law_sum(
    a: Decimal64NoScale,
    b: Decimal64NoScale,
    c: Decimal64NoScale,
    scale: int,
    u: int,
)
    requires
        a.special_value() is None,
        b.special_value() is None,
        c.special_value() is None,
        c@ == a@ + b@,
        u <= -scale,
        u <= 0,
    ensures
        a.number(scale)->Finite_0.scaled(u) + b.number(scale)->Finite_0.scaled(u) == c.number(
            scale,
        )->Finite_0.scaled(u),
{
    decimal64_laws::lemma_count(a@ as int, scale, u);
    decimal64_laws::lemma_count(b@ as int, scale, u);
    decimal64_laws::lemma_count(c@ as int, scale, u);
    let p = digits::pow10((-scale - u) as nat);
    let x = a@ as int;
    let y = b@ as int;
    assert((x + y) * p == x * p + y * p) by (nonlinear_arith);
}

} // verus!
