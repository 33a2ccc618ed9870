//! What cutting a decimal to a precision and a scale does to its number.
use vstd::prelude::*;

use crate::digits;
use crate::error::ErrorView;
use crate::numeral;
use crate::parse;
use crate::rounding;
use crate::roundtrip;
use crate::special;
use crate::text;
use crate::value;
use crate::value::Parts;
use crate::value::Value;

verus! {

/// A literal without an exponent: a sign or none, digits, and at most one point.
pub open spec fn is_plain(s: Seq<char>) -> bool {
    let frac = text::after_point(parse::literal_run(s));
    parse::literal_tail(s).len() == 0 && text::point(frac) == frac.len()
}

/// The digits of a literal before its point.
pub open spec fn whole_of(s: Seq<char>) -> Seq<char> {
    text::before_point(parse::literal_run(s))
}

/// The digits of a literal behind its point.
pub open spec fn frac_of(s: Seq<char>) -> Seq<char> {
    text::after_point(parse::literal_run(s))
}

/// The magnitude of a plain literal as a multiple of `10^-scale`, rounded to the
/// nearest one, a tie away from zero.
pub open spec fn rounded_number(s: Seq<char>, scale: nat) -> nat {
    rounding::rounded(whole_of(s), frac_of(s), scale)
}

// ==================== Numerals ====================

/// In a numeral bytes are characters.
pub proof fn lemma_numeral_bytes(s: Seq<char>)
    requires
        numeral::is_numeral(s),
    ensures
        text::byte_len(s) == s.len(),
        forall|n: nat| n <= s.len() ==> #[trigger] text::boundary(s, n) == Some(n),
{
    assert forall|i: int| 0 <= i < s.len() implies (#[trigger] s[i] as u32) < 0x80 by {
        assert(text::is_digit(s[i]));
    }
    text::lemma_ascii(s);
}

pub proof fn lemma_numeral_take(s: Seq<char>, k: int)
    requires
        numeral::is_numeral(s),
        0 <= k <= s.len(),
    ensures
        numeral::is_numeral(s.take(k)),
        numeral::is_numeral(s.skip(k)),
        numeral::text_number(s) == numeral::text_number(s.take(k)) * digits::pow10(
            (s.len() - k) as nat,
        ) + numeral::text_number(s.skip(k)),
        numeral::text_number(s.skip(k)) < digits::pow10((s.len() - k) as nat),
{
    assert forall|i: int| 0 <= i < k implies text::is_digit(#[trigger] s.take(k)[i]) by {
        assert(text::is_digit(s[i]));
    }
    assert forall|i: int| 0 <= i < s.len() - k implies text::is_digit(#[trigger] s.skip(k)[i]) by {
        assert(text::is_digit(s[k + i]));
    }
    assert(s =~= s.take(k) + s.skip(k));
    lemma_numeral_concat(s.take(k), s.skip(k));
}

pub proof fn lemma_numeral_concat(a: Seq<char>, b: Seq<char>)
    requires
        numeral::is_numeral(a),
        numeral::is_numeral(b),
    ensures
        numeral::is_numeral(a + b),
        numeral::text_number(a + b) == numeral::text_number(a) * digits::pow10(b.len())
            + numeral::text_number(b),
        numeral::text_number(b) < digits::pow10(b.len()),
{
    assert forall|i: int| 0 <= i < (a + b).len() implies text::is_digit(#[trigger] (a + b)[i]) by {
        if i < a.len() {
            assert(text::is_digit(a[i]));
        } else {
            assert(text::is_digit(b[i - a.len()]));
        }
    }
    numeral::lemma_values_concat(a, b);
    numeral::lemma_values(a);
    numeral::lemma_values(b);
    digits::lemma_number_concat(numeral::values(a), numeral::values(b));
    digits::lemma_number_bound(numeral::values(b));
}

/// A numeral reaches half of its power of ten exactly where it starts with a five
/// or more.
pub proof fn lemma_first_digit(d: Seq<char>)
    requires
        numeral::is_numeral(d),
        d.len() > 0,
    ensures
        2 * numeral::text_number(d) >= digits::pow10(d.len()) <==> d[0] >= '5',
{
    let vs = numeral::values(d);
    numeral::lemma_values(d);
    let h = digits::pow10((d.len() - 1) as nat);
    assert(digits::pow10(d.len()) == 10 * h);
    digits::lemma_number_first(vs);
    let rest = vs.drop_first();
    assert(digits::all_digits(rest)) by {
        assert forall|i: int| 0 <= i < rest.len() implies #[trigger] rest[i] <= 9 by {
            assert(vs[i + 1] <= 9);
        }
    }
    digits::lemma_number_bound(rest);
    let x = vs[0] as nat;
    assert(text::is_digit(d[0]));
    assert(x == text::digit_value(d[0]));
    if x >= 5 {
        assert(x * h >= 5 * h) by (nonlinear_arith)
            requires
                x >= 5,
        ;
    } else {
        assert(x * h <= 4 * h) by (nonlinear_arith)
            requires
                x <= 4,
        ;
    }
}

/// Rounding `t * d + r` by `d` gives `t`, and one more from the half on.
pub proof fn lemma_round_div(t: nat, d: nat, r: nat)
    requires
        r < d,
    ensures
        rounding::round_div(t * d + r, d) == (if 2 * r >= d {
            t + 1
        } else {
            t
        }),
{
    let x = (2 * (t * d + r) + d) as int;
    let e = (2 * d) as int;
    if 2 * r >= d {
        let rem = 2 * r - d;
        assert(x == (t + 1) * e + rem) by (nonlinear_arith)
            requires
                x == 2 * (t * d + r) + d,
                e == 2 * d,
                rem == 2 * r - d,
        ;
        digits::lemma_div_mod(x, e, (t + 1) as int, rem);
    } else {
        let rem = (2 * r + d) as int;
        assert(x == t * e + rem) by (nonlinear_arith)
            requires
                x == 2 * (t * d + r) + d,
                e == 2 * d,
                rem == 2 * r + d,
        ;
        digits::lemma_div_mod(x, e, t as int, rem);
    }
}

// ==================== Plain literals ====================

/// Both sides of a plain literal are numerals, and it is all digits and its point but
/// for a sign.
pub proof fn lemma_plain(s: Seq<char>)
    requires
        is_plain(s),
    ensures
        numeral::is_numeral(whole_of(s)),
        numeral::is_numeral(frac_of(s)),
        parse::unsigned_text(text::trim(s)) == parse::literal_run(s),
        rounding::positional(s) == Ok::<(Seq<char>, Seq<char>), ErrorView>(
            (whole_of(s), frac_of(s)),
        ),
{
    let t = text::trim(s);
    let body = parse::unsigned_text(t);
    parse::lemma_run(body);
    assert(body.skip(parse::run_len(body) as int).len() == 0);
    assert(parse::literal_run(s) =~= body);
    parse::lemma_literal_numerals(s);
    if body.len() > 0 {
        assert(text::is_digit(body[0]) || body[0] == '.');
    }
    assert(text::skip_signs(body) == body);
    if t.len() > 0 && (t[0] == '-' || t[0] == '+') {
        assert(t.drop_first() =~= body);
    } else {
        assert(t =~= body);
    }
}

/// Both sides of a literal in positional notation are numerals.
pub proof fn lemma_positional(s: Seq<char>)
    requires
        parse::literal_exponent(s) is Ok,
        rounding::positional(s) is Ok,
    ensures
        numeral::is_numeral((rounding::positional(s)->Ok_0).0),
        numeral::is_numeral((rounding::positional(s)->Ok_0).1),
{
    if parse::literal_tail(s).len() == 0 {
        text::lemma_point(frac_of(s));
        lemma_plain(s);
    }
    parse::lemma_literal_numerals(s);
    parse::lemma_parse_wf(s);
    if let Ok(p) = parse::parse_text(s) {
        roundtrip::lemma_plain_shape(p);
    }
}

/// A plain literal names no special value.
pub proof fn lemma_plain_not_special(s: Seq<char>)
    requires
        is_plain(s),
    ensures
        special::special_of_text(s) is None,
{
    let t = text::trim(s);
    let l = text::lower_text(t);
    let body = parse::unsigned_text(t);
    parse::lemma_run(body);
    assert(body.skip(parse::run_len(body) as int).len() == 0);
    if body.len() > 0 {
        assert(text::is_digit(body[0]) || body[0] == '.');
        if t.len() == body.len() {
            assert(t[0] == body[0]);
            assert(l[0] == body[0]);
        } else {
            assert(l[0] == t[0]);
            assert(t[1] == body[0]);
            assert(l[1] == body[0]);
        }
    }
    reveal_strlit("infinity");
    reveal_strlit("inf");
    reveal_strlit("+infinity");
    reveal_strlit("+inf");
    reveal_strlit("-infinity");
    reveal_strlit("-inf");
    reveal_strlit("nan");
    reveal_strlit("-nan");
    reveal_strlit("+nan");
    assert("infinity"@.len() > 1 && "inf"@.len() > 1 && "+infinity"@.len() > 1 && "+inf"@.len()
        > 1 && "-infinity"@.len() > 1 && "-inf"@.len() > 1 && "nan"@.len() > 1 && "-nan"@.len() > 1
        && "+nan"@.len() > 1);
    assert(l.len() == t.len());
    assert("infinity"@[0] == 'i' && "infinity"@[1] == 'n');
    assert("inf"@[0] == 'i' && "inf"@[1] == 'n');
    assert("+infinity"@[0] == '+' && "+infinity"@[1] == 'i');
    assert("+inf"@[0] == '+' && "+inf"@[1] == 'i');
    assert("-infinity"@[0] == '-' && "-infinity"@[1] == 'i');
    assert("-inf"@[0] == '-' && "-inf"@[1] == 'i');
    assert("nan"@[0] == 'n' && "nan"@[1] == 'a');
    assert("-nan"@[0] == '-' && "-nan"@[1] == 'n');
    assert("+nan"@[0] == '+' && "+nan"@[1] == 'n');
}

/// Leading zeros do not change a number.
pub proof fn lemma_short(w: Seq<char>)
    requires
        numeral::is_numeral(w),
    ensures
        numeral::is_numeral(rounding::short(w)),
        rounding::short(w).len() > 0,
        numeral::text_number(rounding::short(w)) == numeral::text_number(w),
{
    numeral::lemma_skip_zeros(w);
    let k = text::skip_zeros(w);
    if k.len() == 0 {
        assert(numeral::values(k) =~= Seq::<u8>::empty());
        assert(numeral::values(seq!['0']) =~= digits::zero_digits(1));
        digits::lemma_number_zeros(1);
    }
}

/// Leading zeros do not change a rounded number.
pub proof fn lemma_rounded_short(w: Seq<char>, f: Seq<char>, scale: nat)
    requires
        numeral::is_numeral(w),
        numeral::is_numeral(f),
    ensures
        rounding::rounded(rounding::short(w), f, scale) == rounding::rounded(w, f, scale),
{
    lemma_short(w);
    lemma_numeral_concat(w, f);
    lemma_numeral_concat(rounding::short(w), f);
}

/// Rounding a fraction keeps a numeral on both sides and gives the nearest
/// multiple.
pub proof fn lemma_round_right(w: Seq<char>, f: Seq<char>, scale: nat)
    requires
        numeral::is_numeral(w),
        numeral::is_numeral(f),
    ensures
        rounding::round_right(w, f, scale) matches Some((w2, f2)) && ({
            &&& numeral::is_numeral(w2)
            &&& w.len() > 0 ==> w2.len() > 0
            &&& numeral::text_number(w) <= numeral::text_number(w2)
            &&& numeral::is_numeral(f2)
            &&& f2.len() == (if f.len() <= scale {
                f.len()
            } else {
                scale
            })
            &&& numeral::text_number(w2) * digits::pow10(scale) + numeral::text_number(f2)
                * digits::pow10((scale - f2.len()) as nat) == rounding::rounded(w, f, scale)
        }),
{
    lemma_numeral_bytes(f);
    lemma_numeral_concat(w, f);
    let x = numeral::text_number(w);
    if f.len() <= scale {
        let y = numeral::text_number(f);
        let p = digits::pow10(f.len());
        let q = digits::pow10((scale - f.len()) as nat);
        digits::lemma_pow10_add(f.len(), (scale - f.len()) as nat);
        assert((x * p + y) * q == x * (p * q) + y * q) by (nonlinear_arith);
    } else {
        lemma_numeral_take(f, scale as int);
        let cut = f.take(scale as int);
        let rest = f.skip(scale as int);
        let k = (f.len() - scale) as nat;
        let d = digits::pow10(k);
        let c = numeral::text_number(cut);
        let r = numeral::text_number(rest);
        let z = digits::pow10(scale);
        digits::lemma_pow10_add(scale, k);
        assert(x * (z * d) + (c * d + r) == (x * z + c) * d + r) by (nonlinear_arith);
        lemma_round_div(x * z + c, d, r);
        lemma_first_digit(rest);
        assert(rest[0] == f[scale as int]);
        assert(text::boundary(f, scale) == Some(scale));
        assert(digits::pow10(0) == 1);
        assert(c * 1 == c && (c + 1) * 1 == c + 1);
        if rounding::rounds_up(f[scale as int]) {
            numeral::lemma_increment(cut);
            numeral::lemma_increment(w);
            let up = numeral::increment(cut)->0;
            lemma_numeral_bytes(up);
            numeral::lemma_values_zeros(scale);
            digits::lemma_number_zeros(scale);
            if up.len() == cut.len() + 1 {
                lemma_power_numeral(scale);
                assert(c + 1 == z);
                assert((x + 1) * z == x * z + z) by (nonlinear_arith);
                assert(0nat * digits::pow10(0) == 0);
            }
        }
    }
}

/// The integer part of a number is not rounded down.
pub proof fn lemma_rounded_integer(w: Seq<char>, f: Seq<char>, scale: nat)
    requires
        numeral::is_numeral(w),
        numeral::is_numeral(f),
    ensures
        numeral::text_number(w) <= rounding::rounded(w, f, scale),
{
    lemma_round_right(w, f, scale);
    digits::lemma_pow10_pos(scale);
    let (w2, _) = rounding::round_right(w, f, scale)->0;
    let x = numeral::text_number(w);
    let y = numeral::text_number(w2);
    let z = digits::pow10(scale);
    assert(x <= y * z) by (nonlinear_arith)
        requires
            x <= y,
            z >= 1,
    ;
}

/// A one and zeros write a power of ten.
proof fn lemma_power_numeral(n: nat)
    ensures
        numeral::is_numeral(seq!['1'] + text::zeros(n)),
        numeral::text_number(seq!['1'] + text::zeros(n)) == digits::pow10(n),
{
    numeral::lemma_values_zeros(n);
    digits::lemma_number_zeros(n);
    let one = seq!['1'];
    assert(numeral::is_numeral(one));
    lemma_numeral_concat(one, text::zeros(n));
    let e = Seq::<char>::empty();
    assert(one =~= e.push('1'));
    numeral::lemma_values_push(e, '1');
    assert(numeral::values(e) =~= Seq::<u8>::empty());
    assert(1nat * digits::pow10(n) == digits::pow10(n)) by (nonlinear_arith);
}

/// The last `n` digits of a numeral write its number modulo `10^n`.
pub proof fn lemma_last_digits(w: Seq<char>, n: nat)
    requires
        numeral::is_numeral(w),
        w.len() > 0,
        n > 0,
    ensures
        rounding::last_bytes(w, n) matches Some(l) && ({
            &&& numeral::is_numeral(l)
            &&& 0 < l.len() <= n
            &&& exists|a: nat|
                numeral::text_number(w) == #[trigger] (a * digits::pow10(n)) + numeral::text_number(
                    l,
                ) && numeral::text_number(l) < digits::pow10(n)
        }),
{
    lemma_numeral_bytes(w);
    if w.len() <= n {
        numeral::lemma_values(w);
        digits::lemma_number_bound(numeral::values(w));
        digits::lemma_pow10_mono(w.len(), n);
        assert(numeral::text_number(w) == 0nat * digits::pow10(n) + numeral::text_number(w))
            by (nonlinear_arith);
    } else {
        let k = w.len() - n;
        lemma_numeral_take(w, k);
        let a = numeral::text_number(w.take(k));
        assert(numeral::text_number(w) == a * digits::pow10(n) + numeral::text_number(w.skip(k)));
    }
}

/// A text of integer and fraction digits, with or without a sign, is a plain
/// literal of those digits.
proof fn lemma_joined(negative: bool, w: Seq<char>, f: Seq<char>)
    requires
        numeral::is_numeral(w),
        w.len() > 0,
        numeral::is_numeral(f),
    ensures
        ({
            let out = rounding::with_sign(negative, rounding::join(w, f));
            &&& is_plain(out)
            &&& special::special_of_text(out) is None
            &&& whole_of(out) == w
            &&& frac_of(out) == text::drop_zeros(f)
            &&& frac_of(out).len() <= f.len()
            &&& parse::literal_negative(out) ==> negative
            &&& numeral::text_number(w) > 0 || numeral::text_number(f) > 0
                ==> parse::literal_negative(out) == negative
            &&& numeral::text_number(f) == numeral::text_number(frac_of(out)) * digits::pow10(
                (f.len() - frac_of(out).len()) as nat,
            )
        }),
{
    let d = text::drop_zeros(f);
    lemma_drop_zeros_number(f);
    let joined = rounding::join(w, f);
    let pointed = d.len() > 0;
    let neg = negative && joined != seq!['0'];
    let out = rounding::with_sign(negative, joined);
    roundtrip::lemma_plain_literal(neg, w, d, pointed);
    assert(out =~= roundtrip::literal_text(neg, w, d, pointed));
    lemma_no_point(d);
    lemma_joined_zero(w, f);
}

/// A numeral has no point.
pub proof fn lemma_no_point(d: Seq<char>)
    requires
        numeral::is_numeral(d),
    ensures
        text::point(d) == d.len(),
{
    text::lemma_point(d);
    if text::point(d) < d.len() {
        assert(text::is_digit(d[text::point(d) as int]));
    }
}

/// Trailing zeros of a numeral multiply it by a power of ten.
proof fn lemma_drop_zeros_number(f: Seq<char>)
    requires
        numeral::is_numeral(f),
    ensures
        numeral::is_numeral(text::drop_zeros(f)),
        text::drop_zeros(f).len() <= f.len(),
        numeral::text_number(f) == numeral::text_number(text::drop_zeros(f)) * digits::pow10(
            (f.len() - text::drop_zeros(f).len()) as nat,
        ),
{
    numeral::lemma_drop_zeros(f);
    numeral::lemma_values(f);
    digits::lemma_strip_trailing(numeral::values(f));
}

/// Where the joined text is a single zero, both sides are zero.
proof fn lemma_joined_zero(w: Seq<char>, f: Seq<char>)
    requires
        numeral::is_numeral(w),
        w.len() > 0,
        numeral::is_numeral(f),
    ensures
        rounding::join(w, f) == seq!['0'] ==> numeral::text_number(w) == 0
            && numeral::text_number(f) == 0,
{
    let d = text::drop_zeros(f);
    lemma_drop_zeros_number(f);
    if rounding::join(w, f) == seq!['0'] {
        assert(rounding::join(w, f).len() == 1);
        assert(d.len() == 0);
        assert(numeral::values(w) =~= digits::zero_digits(1));
        digits::lemma_number_zeros(1);
        assert(numeral::values(d) =~= Seq::<u8>::empty());
        assert(0nat * digits::pow10(f.len()) == 0) by (nonlinear_arith);
    }
}

// ==================== Laws ====================

/// A plain literal, and any other that denotes a number in range, can be cut to every
/// precision and scale.
pub proof fn law_literal_can_be_cut(s: Seq<char>, precision: Option<u32>, scale: Option<i32>)
    requires
        is_plain(s) || parse::parse_text(s) is Ok,
    ensures
        rounding::truncate_text(s, precision, scale) matches Some(Ok(_)),
{
    if is_plain(s) {
        lemma_plain(s);
    }
    let sc = scale.unwrap_or(0);
    if sc >= 0 {
        law_round_to_scale(s, precision, scale);
    } else {
        law_round_to_power(s, precision, sc);
    }
}

/// A literal with an exponent is cut as the number that it denotes: as the text of that
/// number without an exponent.
pub proof fn law_exponent_is_read_first(
    s: Seq<char>,
    precision: Option<u32>,
    scale: Option<i32>,
)
    requires
        parse::literal_exponent(s) matches Ok(shift) && shift != 0,
        parse::parse_text(s) is Ok,
    ensures
        rounding::truncate_text(s, precision, scale) == rounding::truncate_text(
            value::plain_text(parse::parse_text(s)->Ok_0),
            precision,
            scale,
        ),
{
    let p = parse::parse_text(s)->Ok_0;
    let t = value::plain_text(p);
    parse::lemma_parse_wf(s);
    roundtrip::lemma_plain_shape(p);
    lemma_no_point(roundtrip::plain_frac(p));
    lemma_plain(t);
    if p.digits.len() == 0 {
        let w = roundtrip::plain_whole(p);
        let f = roundtrip::plain_frac(p);
        let sc = scale.unwrap_or(0) as int;
        lemma_zero_cut(w, f, precision, sc);
    }
}

/// Zero is cut to a single zero.
proof fn lemma_zero_cut(w: Seq<char>, f: Seq<char>, precision: Option<u32>, scale: int)
    requires
        w == seq!['0'],
        f.len() == 0,
    ensures
        rounding::cut_text(true, w, f, precision, scale) == Some(seq!['0']),
        rounding::cut_text(false, w, f, precision, scale) == Some(seq!['0']),
{
    reveal_with_fuel(text::skip_zeros, 2);
    assert(text::skip_zeros(w) =~= Seq::<char>::empty());
    assert(rounding::short(w) == seq!['0']);
    if scale < 0 {
        let r = (-scale) as nat;
        assert(numeral::values(seq!['0']) =~= digits::zero_digits(1));
        digits::lemma_number_zeros(1);
        digits::lemma_pow10_pos(r);
        lemma_numeral_bytes(seq!['0']);
        assert(rounding::round_left(seq!['0'], precision, r) == Some(seq!['0']));
    } else {
        assert(text::drop_zeros(f) == f);
        lemma_numeral_bytes(seq!['0']);
        lemma_numeral_bytes(f);
        assert(rounding::round_right(seq!['0'], f, scale as nat) == Some((seq!['0'], f)));
        assert(rounding::limit_integer(seq!['0'], precision, scale as nat) == Some(seq!['0']));
    }
}

/// Cutting a literal to `scale` digits behind the point rounds its magnitude to the
/// nearest multiple of `10^-scale`, a tie away from zero, keeps its sign, and a
/// precision keeps the last digits of it.
pub proof fn law_round_to_scale(s: Seq<char>, precision: Option<u32>, scale: Option<i32>)
    requires
        parse::literal_exponent(s) is Ok,
        rounding::positional(s) is Ok,
        scale.unwrap_or(0) >= 0,
    ensures
        rounding::truncate_text(s, precision, scale) matches Some(Ok(out)) && is_plain(out)
            && special::special_of_text(out) is None && frac_of(out).len() <= scale.unwrap_or(0)
            && ({
            let n = scale.unwrap_or(0) as nat;
            let (whole, frac) = rounding::positional(s)->Ok_0;
            let left = rounding::kept(rounding::rounded(whole, frac, n), precision, n);
            &&& rounded_number(out, n) == left
            &&& left > 0 ==> parse::literal_negative(out) == parse::literal_negative(s)
        }),
{
    let n = scale.unwrap_or(0) as nat;
    let (whole, frac) = rounding::positional(s)->Ok_0;
    let w0 = rounding::short(whole);
    lemma_positional(s);
    lemma_short(whole);
    lemma_rounded_short(whole, frac, n);
    lemma_round_right(w0, frac, n);
    let (w, f) = rounding::round_right(w0, frac, n)->0;
    lemma_limit_integer(w, f, precision, n);
    let last = rounding::limit_integer(w, precision, n)->0;
    lemma_recount(parse::literal_negative(s), last, f, n);
}

/// A fraction of at most `n` digits, counted in `10^-n`, is below `10^n`.
pub proof fn lemma_fraction_bound(f: Seq<char>, n: nat)
    requires
        numeral::is_numeral(f),
        f.len() <= n,
    ensures
        numeral::text_number(f) * digits::pow10((n - f.len()) as nat) < digits::pow10(n),
{
    numeral::lemma_values(f);
    digits::lemma_number_bound(numeral::values(f));
    digits::lemma_pow10_add(f.len(), (n - f.len()) as nat);
    digits::lemma_pow10_pos((n - f.len()) as nat);
    let a = numeral::text_number(f);
    let b = digits::pow10(f.len());
    let c = digits::pow10((n - f.len()) as nat);
    assert(a * c < b * c) by (nonlinear_arith)
        requires
            a < b,
            c > 0,
    ;
}

/// Limiting the integer keeps the last digits of the number.
pub proof fn lemma_limit_integer(w: Seq<char>, f: Seq<char>, precision: Option<u32>, n: nat)
    requires
        numeral::is_numeral(w),
        w.len() > 0,
        numeral::is_numeral(f),
        f.len() <= n,
    ensures
        ({
            let z = digits::pow10(n);
            let y = numeral::text_number(f) * digits::pow10((n - f.len()) as nat);
            let all = numeral::text_number(w) * z + y;
            rounding::limit_integer(w, precision, n) matches Some(last) && numeral::is_numeral(last)
                && last.len() > 0 && numeral::text_number(last) * z + y == rounding::kept(
                all,
                precision,
                n,
            )
        }),
{
    let z = digits::pow10(n);
    let y = numeral::text_number(f) * digits::pow10((n - f.len()) as nat);
    let x = numeral::text_number(w);
    let all = x * z + y;
    lemma_fraction_bound(f, n);
    if let Some(p) = precision {
        let m = rounding::integer_digits(p, n);
        if m == 0 {
            assert(numeral::values(seq!['0']) =~= digits::zero_digits(1));
            digits::lemma_number_zeros(1);
            digits::lemma_div_mod(all as int, z as int, x as int, y as int);
            assert(0nat * z == 0) by (nonlinear_arith);
        } else {
            lemma_last_digits(w, m);
            let l = numeral::text_number(rounding::limit_integer(w, precision, n)->0);
            let pm = digits::pow10(m);
            let a = choose|a: nat| x == #[trigger] (a * pm) + l && l < pm;
            digits::lemma_pow10_add(m, n);
            assert(x * z + y == a * (pm * z) + (l * z + y)) by (nonlinear_arith)
                requires
                    x == a * pm + l,
            ;
            assert(l * z + y < pm * z) by (nonlinear_arith)
                requires
                    l + 1 <= pm,
                    y < z,
            ;
            digits::lemma_div_mod(all as int, (pm * z) as int, a as int, (l * z + y) as int);
        }
    }
}

/// The joined text counts what its integer and its fraction count.
proof fn lemma_recount(negative: bool, last: Seq<char>, f: Seq<char>, n: nat)
    requires
        numeral::is_numeral(last),
        last.len() > 0,
        numeral::is_numeral(f),
        f.len() <= n,
    ensures
        ({
            let out = rounding::with_sign(negative, rounding::join(last, f));
            let kept = numeral::text_number(last) * digits::pow10(n) + numeral::text_number(f)
                * digits::pow10((n - f.len()) as nat);
            &&& is_plain(out)
            &&& special::special_of_text(out) is None
            &&& frac_of(out).len() <= n
            &&& rounded_number(out, n) == kept
            &&& kept > 0 ==> parse::literal_negative(out) == negative
        }),
{
    lemma_joined(negative, last, f);
    let out = rounding::with_sign(negative, rounding::join(last, f));
    let d = frac_of(out);
    let l = numeral::text_number(last);
    let z = digits::pow10(n);
    lemma_plain(out);
    lemma_numeral_concat(last, d);
    let dn = numeral::text_number(d);
    let g = digits::pow10((n - d.len()) as nat);
    let h = digits::pow10(d.len());
    digits::lemma_pow10_add(d.len(), (n - d.len()) as nat);
    assert((l * h + dn) * g == l * (h * g) + dn * g) by (nonlinear_arith);
    let k1 = (f.len() - d.len()) as nat;
    let k2 = (n - f.len()) as nat;
    digits::lemma_pow10_add(k1, k2);
    assert(k1 + k2 == (n - d.len()) as nat);
    let p1 = digits::pow10(k1);
    let p2 = digits::pow10(k2);
    assert((dn * p1) * p2 == dn * (p1 * p2)) by (nonlinear_arith);
    if l == 0 && numeral::text_number(f) == 0 {
        assert(0nat * z == 0) by (nonlinear_arith);
        assert(0nat * p2 == 0) by (nonlinear_arith);
    }
}

/// The multiple of a power of ten, with the last digits that a precision keeps; a
/// precision of zero keeps all.
pub open spec fn kept_multiple(all: nat, precision: Option<u32>) -> nat {
    if precision == Some(0u32) {
        all
    } else {
        rounding::kept(all, precision, 0)
    }
}

/// Cutting a literal to a negative scale rounds its magnitude to the nearest multiple of
/// that power of ten, a tie away from zero, keeps its sign, and a precision keeps the
/// last digits of the multiple.
pub proof fn law_round_to_power(s: Seq<char>, precision: Option<u32>, scale: i32)
    requires
        parse::literal_exponent(s) is Ok,
        rounding::positional(s) is Ok,
        scale < 0,
    ensures
        rounding::truncate_text(s, precision, Some(scale)) matches Some(Ok(out)) && is_plain(out)
            && special::special_of_text(out) is None && frac_of(out).len() == 0 && ({
            let unit = digits::pow10((-scale) as nat);
            let whole = (rounding::positional(s)->Ok_0).0;
            let left = kept_multiple(
                rounding::round_div(numeral::text_number(whole), unit),
                precision,
            );
            &&& parse::literal_number(out) == left * unit
            &&& left > 0 ==> parse::literal_negative(out) == parse::literal_negative(s)
        }),
{
    let r = (-scale) as nat;
    let unit = digits::pow10(r);
    let w0 = (rounding::positional(s)->Ok_0).0;
    let w = rounding::short(w0);
    let none = Seq::<char>::empty();
    let negative = parse::literal_negative(s);
    digits::lemma_pow10_pos(r);
    lemma_positional(s);
    lemma_short(w0);
    lemma_round_left(w, precision, r);
    let rounded = rounding::round_left(w, precision, r)->0;
    let left = kept_multiple(rounding::round_div(numeral::text_number(w), unit), precision);
    assert(numeral::values(none) =~= Seq::<u8>::empty());
    lemma_joined(negative, rounded, none);
    assert(text::drop_zeros(none) =~= none);
    assert(rounding::join(rounded, none) == rounded);
    let out = rounding::with_sign(negative, rounded);
    assert(frac_of(out) =~= none);
    assert(whole_of(out) + frac_of(out) =~= rounded);
    if left > 0 {
        assert(left * unit > 0) by (nonlinear_arith)
            requires
                left > 0,
                unit > 0,
        ;
    }
}

/// Without its last digits, rounded, a numeral counts the nearest multiple.
pub proof fn lemma_round_off(w: Seq<char>, r: nat)
    requires
        numeral::is_numeral(w),
        0 < r < w.len(),
    ensures
        rounding::round_off(w, r) matches Some(kept) && numeral::is_numeral(kept) && kept.len() > 0
            && numeral::text_number(kept) == rounding::round_div(
            numeral::text_number(w),
            digits::pow10(r),
        ),
{
    let k = w.len() - r;
    lemma_numeral_bytes(w);
    lemma_numeral_take(w, k);
    let head = w.take(k);
    let rest = w.skip(k);
    digits::lemma_pow10_pos(r);
    lemma_round_div(numeral::text_number(head), digits::pow10(r), numeral::text_number(rest));
    lemma_first_digit(rest);
    assert(rest[0] == w[k]);
    numeral::lemma_increment(head);
}

/// A numeral of at most `r` digits rounds to one or no multiple of `10^r`.
pub proof fn lemma_round_short(w: Seq<char>, r: nat)
    requires
        numeral::is_numeral(w),
        0 < w.len() <= r,
    ensures
        rounding::round_div(numeral::text_number(w), digits::pow10(r)) == (
        if rounding::reaches_half(w, r) {
            1nat
        } else {
            0
        }),
{
    numeral::lemma_values(w);
    digits::lemma_number_bound(numeral::values(w));
    digits::lemma_pow10_mono(w.len(), r);
    assert(text::is_digit(w[0]));
    lemma_round_div_small(numeral::text_number(w), digits::pow10(r));
}

/// One or no multiple is kept by every precision.
pub proof fn lemma_kept_small(all: nat, precision: Option<u32>)
    requires
        all <= 1,
    ensures
        kept_multiple(all, precision) == all,
{
    if let Some(p) = precision {
        if p > 0 {
            let q = digits::pow10(p as nat);
            digits::lemma_pow10_strict(0, p as nat);
            assert(digits::pow10(0) == 1);
            assert(0nat * q == 0) by (nonlinear_arith);
            digits::lemma_div_mod(all as int, q as int, 0, all as int);
        }
    }
}

/// Rounding a numeral to a power of ten counts the nearest multiple.
pub proof fn lemma_round_left(w: Seq<char>, precision: Option<u32>, r: nat)
    requires
        numeral::is_numeral(w),
        w.len() > 0,
        r > 0,
    ensures
        ({
            let unit = digits::pow10(r);
            rounding::round_left(w, precision, r) matches Some(out) && numeral::is_numeral(out)
                && out.len() > 0 && numeral::text_number(out) == kept_multiple(
                rounding::round_div(numeral::text_number(w), unit),
                precision,
            ) * unit
        }),
{
    let unit = digits::pow10(r);
    lemma_numeral_bytes(w);
    if w.len() > r {
        lemma_round_off(w, r);
        let head = rounding::round_off(w, r)->0;
        lemma_limit_significant(head, precision);
        let last = rounding::limit_significant(head, precision)->0;
        numeral::lemma_values_zeros(r);
        digits::lemma_number_zeros(r);
        lemma_numeral_concat(last, text::zeros(r));
    } else {
        lemma_round_short(w, r);
        lemma_kept_small(rounding::round_div(numeral::text_number(w), unit), precision);
        if rounding::reaches_half(w, r) {
            lemma_power_numeral(r);
            assert(1nat * unit == unit) by (nonlinear_arith);
        } else {
            assert(numeral::values(seq!['0']) =~= digits::zero_digits(1));
            digits::lemma_number_zeros(1);
            assert(0nat * unit == 0) by (nonlinear_arith);
        }
    }
}

/// The number that a cut literal denotes is the rounded one, with the sign of the
/// literal.
pub proof fn law_cut_value(s: Seq<char>, precision: Option<u32>, scale: Option<i32>)
    requires
        parse::literal_exponent(s) is Ok,
        rounding::positional(s) is Ok,
        scale.unwrap_or(0) >= 0,
    ensures
        ({
            let n = scale.unwrap_or(0) as nat;
            let (whole, frac) = rounding::positional(s)->Ok_0;
            let left = rounding::kept(rounding::rounded(whole, frac, n), precision, n);
            rounding::truncate_text(s, precision, scale) matches Some(Ok(out)) && (
            parse::parse_value(out) matches Ok(v) ==> v matches Value::Finite(q) && q.scaled(-(n as int)) == (
            if parse::literal_negative(s) {
                -(left as int)
            } else {
                left as int
            }))
        }),
{
    law_round_to_scale(s, precision, scale);
    let n = scale.unwrap_or(0) as nat;
    if let Some(p) = precision {
        digits::lemma_pow10_pos(rounding::kept_digits(p, n));
    }
    let out = rounding::truncate_text(s, precision, scale)->0->Ok_0;
    if let Ok(q) = parse::parse_text(out) {
        let f = frac_of(out).len();
        parse::lemma_literal_unit(out);
        parse::law_literal_value(out, -(n as int));
        assert(parse::literal_unit(out) == -(f as int));
        assert((parse::literal_unit(out) + n) as nat == (n - f) as nat);
    }
}

/// The integer that a literal cut to a negative scale denotes is the rounded one, with
/// the sign of the literal.
pub proof fn law_cut_value_left(s: Seq<char>, precision: Option<u32>, scale: i32)
    requires
        parse::literal_exponent(s) is Ok,
        rounding::positional(s) is Ok,
        scale < 0,
    ensures
        ({
            let unit = digits::pow10((-scale) as nat);
            let whole = (rounding::positional(s)->Ok_0).0;
            let left = kept_multiple(
                rounding::round_div(numeral::text_number(whole), unit),
                precision,
            );
            rounding::truncate_text(s, precision, Some(scale)) matches Some(Ok(out)) && (
            parse::parse_value(out) matches Ok(v) ==> v matches Value::Finite(q) && q.scaled(0)
                == (if parse::literal_negative(s) {
                -((left * unit) as int)
            } else {
                (left * unit) as int
            }))
        }),
{
    law_round_to_power(s, precision, scale);
    let unit = digits::pow10((-scale) as nat);
    let whole = (rounding::positional(s)->Ok_0).0;
    let left = kept_multiple(rounding::round_div(numeral::text_number(whole), unit), precision);
    if let Some(p) = precision {
        digits::lemma_pow10_pos(rounding::kept_digits(p, 0));
    }
    assert(left == 0 ==> left * unit == 0) by (nonlinear_arith);
    let out = rounding::truncate_text(s, precision, Some(scale))->0->Ok_0;
    if let Ok(q) = parse::parse_text(out) {
        parse::lemma_literal_unit(out);
        assert(parse::literal_unit(out) == 0);
        parse::law_literal_value(out, 0);
        let n = parse::literal_number(out);
        let one = digits::pow10(0);
        assert(n * one == n) by (nonlinear_arith)
            requires
                one == 1,
        ;
    }
}

/// Rounding to a power of ten above one goes by the integer part: the digits behind the
/// point make no difference.
pub proof fn law_integer_decides(whole: Seq<char>, frac: Seq<char>, r: nat)
    requires
        numeral::is_numeral(whole),
        numeral::is_numeral(frac),
        r > 0,
    ensures
        rounding::round_div(numeral::text_number(whole), digits::pow10(r)) == rounding::round_div(
            numeral::text_number(whole + frac),
            digits::pow10(r + frac.len()),
        ),
{
    let w = numeral::text_number(whole) as int;
    let f = numeral::text_number(frac) as int;
    let k = frac.len();
    lemma_numeral_concat(whole, frac);
    let p = digits::pow10(k) as int;
    let h = 5 * digits::pow10((r - 1) as nat) as int;
    let u = 2 * h;
    digits::lemma_pow10_add(r, k);
    digits::lemma_pow10_pos(k);
    digits::lemma_pow10_pos((r - 1) as nat);
    assert(digits::pow10(r) == u);
    let q = (w + h) / u;
    let m = (w + h) % u;
    vstd::arithmetic::div_mod::lemma_fundamental_div_mod(w + h, u);
    assert(2 * w + u == q * (2 * u) + 2 * m) by (nonlinear_arith)
        requires
            w + h == u * q + m,
            u == 2 * h,
    ;
    digits::lemma_div_mod(2 * w + u, 2 * u, q, 2 * m);
    assert(2 * (w * p + f) + u * p == q * (2 * (u * p)) + 2 * (p * m + f)) by (nonlinear_arith)
        requires
            w + h == u * q + m,
            u == 2 * h,
    ;
    assert(0 <= 2 * (p * m + f) < 2 * (u * p)) by (nonlinear_arith)
        requires
            0 <= m < u,
            0 <= f < p,
    ;
    digits::lemma_div_mod(2 * (w * p + f) + u * p, 2 * (u * p), q, 2 * (p * m + f));
}

/// Below `d` there is one or no multiple of it to round to.
pub proof fn lemma_round_div_small(x: nat, d: nat)
    requires
        x < d,
    ensures
        rounding::round_div(x, d) == (if 2 * x >= d {
            1nat
        } else {
            0
        }),
{
    assert(0nat * d + x == x) by (nonlinear_arith);
    lemma_round_div(0, d, x);
}

/// The last digits that a precision keeps of a numeral.
pub proof fn lemma_limit_significant(w: Seq<char>, precision: Option<u32>)
    requires
        numeral::is_numeral(w),
        w.len() > 0,
    ensures
        rounding::limit_significant(w, precision) matches Some(last) && numeral::is_numeral(last)
            && last.len() > 0 && numeral::text_number(last) == kept_multiple(
            numeral::text_number(w),
            precision,
        ),
{
    if let Some(p) = precision {
        if p > 0 {
            let n = p as nat;
            let pn = digits::pow10(n);
            let x = numeral::text_number(w);
            lemma_last_digits(w, n);
            numeral::lemma_skip_zeros(w);
            let sig = text::skip_zeros(w);
            lemma_numeral_bytes(sig);
            if sig.len() > n {
                let l = numeral::text_number(rounding::last_bytes(w, n)->0);
                let a = choose|a: nat| x == #[trigger] (a * pn) + l && l < pn;
                digits::lemma_div_mod(x as int, pn as int, a as int, l as int);
            } else {
                numeral::lemma_values(sig);
                digits::lemma_number_bound(numeral::values(sig));
                digits::lemma_pow10_mono(sig.len(), n);
                assert(0nat * pn + x == x) by (nonlinear_arith);
                digits::lemma_div_mod(x as int, pn as int, 0, x as int);
            }
        }
    }
}

/// The text is a literal that counts `n` in units of `10^-scale`, with exactly `scale`
/// digits behind its point, and a minus sign where `negative` says so and it is not zero.
pub open spec fn shown_as(t: Seq<char>, negative: bool, n: nat, scale: int) -> bool {
    &&& is_plain(t)
    &&& special::special_of_text(t) is None
    &&& text::after_point(t).len() == scale
    &&& frac_of(t).len() == scale
    &&& parse::literal_number(t) == n
    &&& parse::literal_negative(t) == (negative && n > 0)
}

/// The text of a number at a positive scale has exactly that many digits behind its
/// point. It counts the number in units of that scale, rounded to the nearest one with a
/// tie away from zero, and has its sign unless that is zero.
pub proof fn law_scaled_text(p: Parts, scale: int)
    requires
        p.wf(),
        scale > 0,
    ensures
        ({
            let t = value::scaled_text(Value::Finite(p), scale);
            let n = rounding::rounded(
                roundtrip::plain_whole(p),
                roundtrip::plain_frac(p),
                scale as nat,
            );
            shown_as(t, p.negative, n, scale)
        }),
{
    let w = roundtrip::plain_whole(p);
    let f = roundtrip::plain_frac(p);
    let negative = p.negative && p.digits.len() > 0;
    roundtrip::lemma_plain_shape(p);
    lemma_number_not_zero(p);
    if f.len() <= scale {
        lemma_filled_number(negative, w, f, scale);
    } else {
        lemma_cut_number(negative, w, f, scale);
    }
}

/// The digits of a number other than zero count more than zero.
proof fn lemma_number_not_zero(p: Parts)
    requires
        p.wf(),
    ensures
        p.digits.len() > 0 ==> numeral::text_number(
            roundtrip::plain_whole(p) + roundtrip::plain_frac(p),
        ) > 0,
        p.digits.len() == 0 ==> !p.negative,
{
    roundtrip::law_text_round_trip(Value::Finite(p));
    roundtrip::lemma_plain_shape(p);
    let all = roundtrip::plain_whole(p) + roundtrip::plain_frac(p);
    lemma_numeral_concat(roundtrip::plain_whole(p), roundtrip::plain_frac(p));
    numeral::lemma_values(all);
    digits::lemma_strip_leading(numeral::values(all));
}

/// A literal filled with zeros counts its digits in the smaller unit.
proof fn lemma_filled_number(negative: bool, w: Seq<char>, f: Seq<char>, scale: int)
    requires
        numeral::is_numeral(w),
        w.len() > 0,
        numeral::is_numeral(f),
        scale > 0,
        f.len() <= scale,
        negative ==> numeral::text_number(w + f) > 0,
    ensures
        ({
            let t = value::fixed_text(
                roundtrip::literal_text(negative, w, f, f.len() > 0),
                scale,
            );
            let n = rounding::rounded(w, f, scale as nat);
            shown_as(t, negative, n, scale)
        }),
{
    let z = text::zeros((scale - f.len()) as nat);
    roundtrip::lemma_padded_literal(negative, w, f, scale);
    numeral::lemma_values_zeros(z.len());
    digits::lemma_number_zeros(z.len());
    lemma_numeral_concat(f, z);
    lemma_numeral_concat(w, f);
    lemma_numeral_concat(w + f, z);
    assert(w + (f + z) =~= (w + f) + z);
    let x = numeral::text_number(w + f);
    let q = digits::pow10(z.len());
    digits::lemma_pow10_pos(z.len());
    assert(x > 0 ==> x * q > 0) by (nonlinear_arith)
        requires
            q > 0,
    ;
    lemma_plain_shown(negative, w, f + z);
}

/// A literal with a longer fraction counts the nearest multiple.
proof fn lemma_cut_number(negative: bool, w: Seq<char>, f: Seq<char>, scale: int)
    requires
        numeral::is_numeral(w),
        w.len() > 0,
        numeral::is_numeral(f),
        scale > 0,
        f.len() > scale,
    ensures
        ({
            let t = value::fixed_text(
                roundtrip::literal_text(negative, w, f, f.len() > 0),
                scale,
            );
            let n = rounding::rounded(w, f, scale as nat);
            shown_as(t, negative, n, scale)
        }),
{
    let k = scale as nat;
    roundtrip::lemma_literal_point(negative, w, f, true);
    lemma_round_right(w, f, k);
    let (w2, f2) = rounding::round_right(w, f, k)->0;
    lemma_numeral_concat(w2, f2);
    let y = numeral::text_number(f2);
    let one = digits::pow10(0);
    assert(y * one == y) by (nonlinear_arith)
        requires
            one == 1,
    ;
    let shown = negative && numeral::text_number(w2 + f2) > 0;
    let t = value::fixed_text(roundtrip::literal_text(negative, w, f, true), scale);
    assert(t =~= roundtrip::literal_text(shown, w2, f2, true));
    lemma_plain_shown(shown, w2, f2);
}

/// Digits around a point are a plain literal.
proof fn lemma_plain_shown(negative: bool, w: Seq<char>, f: Seq<char>)
    requires
        numeral::is_numeral(w),
        w.len() > 0,
        numeral::is_numeral(f),
    ensures
        ({
            let t = roundtrip::literal_text(negative, w, f, true);
            &&& is_plain(t)
            &&& special::special_of_text(t) is None
            &&& text::after_point(t) == f
            &&& frac_of(t) == f
            &&& whole_of(t) == w
            &&& parse::literal_negative(t) == negative
        }),
{
    roundtrip::lemma_plain_literal(negative, w, f, true);
    roundtrip::lemma_literal_point(negative, w, f, true);
    lemma_no_point(f);
}

} // verus!
