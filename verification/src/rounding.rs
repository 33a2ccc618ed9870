//! Decimal text cut to a precision and a scale.
//!
//! A positive scale keeps that many digits behind the point, a negative one rounds
//! to a power of ten. Rounding goes by the first digit that is left out: from five
//! on, the last one that is kept goes up. A precision keeps the last digits.
use vstd::prelude::*;

use crate::digits;
use crate::error::DecimalError;
use crate::error::ErrorView;
use crate::notation;
use crate::numeral;
use crate::parse;
use crate::rounding_laws;
use crate::roundtrip;
use crate::special;
use crate::text;
use crate::value::Parts;

verus! {

// ==================== Rounded numbers ====================

/// `n / d` rounded to the nearest integer, a tie up.
pub open spec fn round_div(n: nat, d: nat) -> nat {
    ((2 * n + d) / (2 * d)) as nat
}

/// The number with the digits `whole` before and `frac` behind the point as a multiple
/// of `10^-scale`, rounded to the nearest one, a tie away from zero.
pub open spec fn rounded(whole: Seq<char>, frac: Seq<char>, scale: nat) -> nat {
    let all = numeral::text_number(whole + frac);
    if frac.len() <= scale {
        all * digits::pow10((scale - frac.len()) as nat)
    } else {
        round_div(all, digits::pow10((frac.len() - scale) as nat))
    }
}

/// The number of last digits that a precision keeps of a number with `scale` digits
/// behind the point: all of those, and no others where they exceed the precision.
pub open spec fn kept_digits(p: u32, scale: nat) -> nat {
    if p > scale {
        p as nat
    } else {
        scale
    }
}

/// The last digits that a precision keeps of a number with `scale` digits behind the
/// point.
pub open spec fn kept(all: nat, precision: Option<u32>, scale: nat) -> nat {
    match precision {
        None => all,
        Some(p) => all % digits::pow10(kept_digits(p, scale)),
    }
}

// ==================== What the text is ====================

/// `s`, or a zero where it is empty.
pub open spec fn at_least_zero(s: Seq<char>) -> Seq<char> {
    if s.len() == 0 {
        seq!['0']
    } else {
        s
    }
}

/// The text without leading zeros, but for a single zero.
pub open spec fn short(whole: Seq<char>) -> Seq<char> {
    at_least_zero(text::skip_zeros(whole))
}

/// Whether leaving out text that starts with `c` rounds up.
pub open spec fn rounds_up(c: char) -> bool {
    c >= '5'
}

/// The character at `i`, or a zero behind the end.
pub open spec fn char_or_zero(s: Seq<char>, i: int) -> char {
    if 0 <= i < s.len() {
        s[i]
    } else {
        '0'
    }
}

/// `s`, with one added to it where `up` says so.
pub open spec fn maybe_increment(s: Seq<char>, up: bool) -> Option<Seq<char>> {
    if up {
        numeral::increment(s)
    } else {
        Some(s)
    }
}

/// The last `n` bytes of the text, all of it where it has no more.
pub open spec fn last_bytes(s: Seq<char>, n: nat) -> Option<Seq<char>> {
    if text::byte_len(s) <= n {
        Some(s)
    } else {
        match text::boundary(s, (text::byte_len(s) - n) as nat) {
            Some(k) => Some(s.skip(k as int)),
            None => None,
        }
    }
}

/// A minus sign before the text of a negative number; zero has none.
pub open spec fn with_sign(negative: bool, s: Seq<char>) -> Seq<char> {
    if negative && s != seq!['0'] {
        seq!['-'] + s
    } else {
        s
    }
}

/// An integer of at most `r` digits reaches half of `10^r`.
pub open spec fn reaches_half(whole: Seq<char>, r: nat) -> bool {
    numeral::unsigned_value(whole) matches Some(n) && 2 * n >= digits::pow10(r)
}

/// The integer `whole`, longer than `r`, without its last `r` digits, rounded.
pub open spec fn round_off(whole: Seq<char>, r: nat) -> Option<Seq<char>> {
    match text::boundary(whole, (text::byte_len(whole) - r) as nat) {
        None => None,
        Some(k) => maybe_increment(whole.take(k as int), rounds_up(char_or_zero(whole, k as int))),
    }
}

/// The last `p` digits where more are significant; no limit without a precision
/// or for the precision zero.
pub open spec fn limit_significant(s: Seq<char>, precision: Option<u32>) -> Option<Seq<char>> {
    match precision {
        Some(p) => if text::byte_len(text::skip_zeros(s)) > p && p > 0 {
            last_bytes(s, p as nat)
        } else {
            Some(s)
        },
        None => Some(s),
    }
}

/// The integer `whole` rounded to a multiple of `10^r`.
pub open spec fn round_left(whole: Seq<char>, precision: Option<u32>, r: nat) -> Option<Seq<char>> {
    if text::byte_len(whole) <= r {
        Some(
            if reaches_half(whole, r) {
                seq!['1'] + text::zeros(r)
            } else {
                seq!['0']
            },
        )
    } else {
        match round_off(whole, r) {
            None => None,
            Some(kept) => match limit_significant(kept, precision) {
                None => None,
                Some(last) => Some(last + text::zeros(r)),
            },
        }
    }
}

/// Both sides of the point, the fraction rounded to `scale` digits.
pub open spec fn round_right(whole: Seq<char>, frac: Seq<char>, scale: nat) -> Option<
    (Seq<char>, Seq<char>),
> {
    if text::byte_len(frac) <= scale {
        Some((whole, frac))
    } else {
        match text::boundary(frac, scale) {
            None => None,
            Some(k) => round_fraction(
                whole,
                frac.take(k as int),
                scale,
                rounds_up(char_or_zero(frac, scale as int)),
            ),
        }
    }
}

/// Both sides of the point once the fraction is cut to `scale` digits: a carry
/// out of the fraction goes to the integer.
pub open spec fn round_fraction(whole: Seq<char>, cut: Seq<char>, scale: nat, up: bool) -> Option<
    (Seq<char>, Seq<char>),
> {
    if !up {
        Some((whole, cut))
    } else {
        match numeral::increment(cut) {
            None => None,
            Some(rounded) => if scale == 0 || text::byte_len(rounded) > scale {
                match numeral::increment(whole) {
                    None => None,
                    Some(next) => Some((next, text::zeros(scale))),
                }
            } else {
                Some((whole, rounded))
            },
        }
    }
}

/// The number of integer digits that a precision leaves beside `scale` digits.
pub open spec fn integer_digits(p: u32, scale: nat) -> nat {
    if p > scale {
        (p - scale) as nat
    } else {
        0
    }
}

/// The last digits of the integer that the precision leaves room for.
pub open spec fn limit_integer(whole: Seq<char>, precision: Option<u32>, scale: nat) -> Option<
    Seq<char>,
> {
    match precision {
        None => Some(whole),
        Some(p) => if integer_digits(p, scale) == 0 {
            Some(seq!['0'])
        } else {
            last_bytes(whole, integer_digits(p, scale))
        },
    }
}

/// Integer and fraction with a point between them, without trailing zeros.
pub open spec fn join(whole: Seq<char>, frac: Seq<char>) -> Seq<char> {
    let f = text::drop_zeros(frac);
    if f.len() == 0 {
        whole
    } else {
        whole + seq!['.'] + f
    }
}

/// The number with the given text before and behind the point, cut to a precision and a
/// scale. `None` where a character that rounding would count up is no digit, or where a
/// cut would fall inside a character.
pub open spec fn cut_text(
    negative: bool,
    whole: Seq<char>,
    frac: Seq<char>,
    precision: Option<u32>,
    scale: int,
) -> Option<Seq<char>> {
    if scale < 0 {
        match round_left(short(whole), precision, (-scale) as nat) {
            None => None,
            Some(r) => Some(with_sign(negative, r)),
        }
    } else {
        match round_right(short(whole), frac, scale as nat) {
            None => None,
            Some((w, f)) => match limit_integer(w, precision, scale as nat) {
                None => None,
                Some(last) => Some(with_sign(negative, join(last, f))),
            },
        }
    }
}

/// The text is a literal with an exponent.
pub open spec fn has_exponent(s: Seq<char>) -> bool {
    parse::literal_tail(s).len() > 0 && (parse::literal_exponent(s) is Ok
        || parse::literal_exponent(s) == Err::<int, ErrorView>(ErrorView::PrecisionOverflow))
}

/// The text before and behind the point. The exponent of a literal is worked in, an error
/// where it is out of range; other text is taken as it is, without any signs before it.
pub open spec fn positional(s: Seq<char>) -> Result<(Seq<char>, Seq<char>), ErrorView> {
    let body = text::skip_signs(text::trim(s));
    if !has_exponent(s) {
        Ok((text::before_point(body), text::after_point(body)))
    } else {
        match parse::literal_exponent(s) {
            Err(e) => Err(e),
            Ok(shift) => if shift == 0 {
                Ok(
                    (
                        text::before_point(parse::literal_run(s)),
                        text::after_point(parse::literal_run(s)),
                    ),
                )
            } else {
                match parse::parse_text(s) {
                    Err(e) => Err(e),
                    Ok(p) => Ok((roundtrip::plain_whole(p), roundtrip::plain_frac(p))),
                }
            },
        }
    }
}

/// The text of a decimal cut to a precision and a scale. `None` where a character that
/// rounding would count up is no digit, or where a cut would fall inside a character.
pub open spec fn truncate_text(s: Seq<char>, precision: Option<u32>, scale: Option<i32>) -> Option<
    Result<Seq<char>, ErrorView>,
> {
    match positional(s) {
        Err(e) => Some(Err(e)),
        Ok((whole, frac)) => match cut_text(
            parse::literal_negative(s),
            whole,
            frac,
            precision,
            scale.unwrap_or(0) as int,
        ) {
            None => None,
            Some(t) => Some(Ok(t)),
        },
    }
}

/// The encoding of a decimal cut to a precision and a scale. Special values have
/// neither.
pub open spec fn constrained_bytes(
    s: Seq<char>,
    precision: Option<u32>,
    scale: Option<i32>,
) -> Result<Seq<u8>, ErrorView> {
    match special::special_of_text(s) {
        Some(v) => Ok(special::special_bytes(v)),
        None => match truncate_text(s, precision, scale)->0 {
            Err(e) => Err(e),
            Ok(t) => parse::encoded_text(t),
        },
    }
}

/// The text can be cut to the precision and the scale.
pub open spec fn can_constrain(s: Seq<char>, precision: Option<u32>, scale: Option<i32>) -> bool {
    special::special_of_text(s) is Some || truncate_text(s, precision, scale) is Some
}

// ==================== Cutting ====================

/// One added to a numeral.
pub fn add_one_to_integer(s: &str) -> (r: String)
    requires
        numeral::increment(s@) is Some,
    ensures
        Some(r@) == numeral::increment(s@),
{
    let v: Vec<char> = text::chars_of(s);
    let t: Vec<char> = numeral::incremented(&v).unwrap();
    text::string_of(&t)
}

/// One added to the last digit, with a carry where it is a nine.
pub fn round_up(s: &str) -> (r: String)
    requires
        numeral::increment(s@) is Some,
    ensures
        Some(r@) == numeral::increment(s@),
{
    add_one_to_integer(s)
}

/// A copy of the characters.
fn copied(v: &[char]) -> (r: Vec<char>)
    ensures
        r@ == v@,
{
    let t: Vec<char> = text::copy_range(v, 0, v.len());
    assert(t@ =~= v@);
    t
}

/// A single zero.
fn zero_chars() -> (r: Vec<char>)
    ensures
        r@ == seq!['0'],
{
    let mut zero: Vec<char> = Vec::new();
    zero.push('0');
    assert(zero@ =~= seq!['0']);
    zero
}

/// The text without leading zeros, but for a single zero.
pub fn short_chars(whole: &[char]) -> (r: Vec<char>)
    ensures
        r@ == short(whole@),
{
    let w: Vec<char> = text::without_leading_zeros(whole);
    if w.len() == 0 {
        zero_chars()
    } else {
        w
    }
}

/// The character at `i`, or a zero behind the end.
pub fn char_at_or_zero(v: &[char], i: usize) -> (r: char)
    ensures
        r == char_or_zero(v@, i as int),
{
    if i < v.len() {
        v[i]
    } else {
        '0'
    }
}

/// `v`, with one added to it where `up` says so.
fn maybe_incremented(v: &[char], up: bool) -> (r: Option<Vec<char>>)
    ensures
        match r {
            Some(t) => maybe_increment(v@, up) == Some(t@),
            None => maybe_increment(v@, up) is None,
        },
{
    if up {
        numeral::incremented(v)
    } else {
        Some(copied(v))
    }
}

/// The last `n` bytes of `v`, all of it where it has no more.
pub fn last_chars(v: &[char], n: usize) -> (r: Option<Vec<char>>)
    ensures
        match r {
            Some(t) => last_bytes(v@, n as nat) == Some(t@),
            None => last_bytes(v@, n as nat) is None,
        },
{
    if !text::longer_than(v, n) {
        return Some(copied(v));
    }
    match text::back_index(v, n) {
        None => None,
        Some(k) => {
            let t: Vec<char> = text::copy_range(v, k, v.len());
            assert(t@ =~= v@.skip(k as int));
            Some(t)
        },
    }
}

/// A numeral of at most `r` digits reaches half of `10^r` exactly where it has
/// `r` digits and starts with a five or more.
proof fn lemma_half(d: Seq<char>, r: nat)
    requires
        numeral::is_numeral(d),
        d.len() <= r,
        r > 0,
    ensures
        2 * numeral::text_number(d) >= digits::pow10(r) <==> d.len() == r && d[0] >= '5',
{
    if d.len() < r {
        numeral::lemma_values(d);
        digits::lemma_number_bound(numeral::values(d));
        digits::lemma_pow10_strict(d.len(), r);
    } else {
        rounding_laws::lemma_first_digit(d);
    }
}

/// Whether an integer of at most `r` bytes reaches half of `10^r`.
pub fn at_least_half(whole: &[char], r: usize) -> (up: bool)
    requires
        text::byte_len(whole@) <= r,
        r > 0,
    ensures
        up == reaches_half(whole@, r as nat),
{
    proof {
        text::lemma_byte_len_bound(whole@);
    }
    if numeral::read_unsigned(whole).is_none() {
        return false;
    }
    let start: usize = if whole.len() > 0 && whole[0] == '+' {
        1
    } else {
        0
    };
    let t: Vec<char> = text::copy_range(whole, start, whole.len());
    assert(t@ =~= whole@.skip(start as int));
    if start == 0 {
        assert(t@ =~= whole@);
    }
    let d: Vec<char> = text::without_leading_zeros(&t);
    proof {
        numeral::lemma_skip_zeros(t@);
        lemma_half(d@, r as nat);
    }
    d.len() == r && d[0] >= '5'
}

/// The integer `whole`, longer than `r`, without its last `r` digits, rounded.
pub fn rounded_off(whole: &[char], r: usize) -> (kept: Option<Vec<char>>)
    requires
        text::byte_len(whole@) > r,
    ensures
        match kept {
            Some(t) => round_off(whole@, r as nat) == Some(t@),
            None => round_off(whole@, r as nat) is None,
        },
{
    match text::back_index(whole, r) {
        None => None,
        Some(k) => {
            let head: Vec<char> = text::copy_range(whole, 0, k);
            assert(head@ =~= whole@.take(k as int));
            maybe_incremented(&head, char_at_or_zero(whole, k) >= '5')
        },
    }
}

/// The last digits of `v` where more are significant than the precision says.
pub fn limited_significant(v: &[char], precision: Option<u32>) -> (r: Option<Vec<char>>)
    ensures
        match r {
            Some(t) => limit_significant(v@, precision) == Some(t@),
            None => limit_significant(v@, precision) is None,
        },
{
    if let Some(p) = precision {
        let significant: Vec<char> = text::without_leading_zeros(v);
        if p > 0 && text::longer_than(&significant, p as usize) {
            return last_chars(v, p as usize);
        }
    }
    Some(copied(v))
}

/// The integer `whole` rounded to a multiple of `10^r`.
fn rounded_left(whole: &[char], precision: Option<u32>, r: usize) -> (text: Option<Vec<char>>)
    requires
        r > 0,
    ensures
        match text {
            Some(t) => round_left(whole@, precision, r as nat) == Some(t@),
            None => round_left(whole@, precision, r as nat) is None,
        },
{
    if !text::longer_than(whole, r) {
        let mut out: Vec<char> = Vec::new();
        if at_least_half(whole, r) {
            out.push('1');
            text::append_zeros(&mut out, r);
            assert(out@ =~= seq!['1'] + text::zeros(r as nat));
        } else {
            return Some(zero_chars());
        }
        return Some(out);
    }
    match rounded_off(whole, r) {
        None => None,
        Some(kept) => match limited_significant(&kept, precision) {
            None => None,
            Some(last) => {
                let mut out: Vec<char> = last;
                text::append_zeros(&mut out, r);
                Some(out)
            },
        },
    }
}

/// Both sides of the point once the fraction is cut to `scale` digits.
fn rounded_fraction(whole: &[char], cut: &[char], scale: usize, up: bool) -> (r: Option<
    (Vec<char>, Vec<char>),
>)
    ensures
        match r {
            Some((w, f)) => round_fraction(whole@, cut@, scale as nat, up) == Some((w@, f@)),
            None => round_fraction(whole@, cut@, scale as nat, up) is None,
        },
{
    if up {
        match numeral::incremented(cut) {
            None => {
                return None;
            },
            Some(rounded) => {
                if scale == 0 || text::longer_than(&rounded, scale) {
                    return match numeral::incremented(whole) {
                        None => None,
                        Some(next) => {
                            let mut f: Vec<char> = Vec::new();
                            text::append_zeros(&mut f, scale);
                            assert(f@ =~= text::zeros(scale as nat));
                            Some((next, f))
                        },
                    };
                }
                return Some((copied(whole), rounded));
            },
        }
    }
    Some((copied(whole), copied(cut)))
}

/// Both sides of the point, the fraction rounded to `scale` digits.
pub fn rounded_right(whole: &[char], frac: &[char], scale: usize) -> (r: Option<
    (Vec<char>, Vec<char>),
>)
    ensures
        match r {
            Some((w, f)) => round_right(whole@, frac@, scale as nat) == Some((w@, f@)),
            None => round_right(whole@, frac@, scale as nat) is None,
        },
{
    if !text::longer_than(frac, scale) {
        return Some((copied(whole), copied(frac)));
    }
    match text::boundary_index(frac, scale) {
        None => None,
        Some(k) => {
            let cut: Vec<char> = text::copy_range(frac, 0, k);
            assert(cut@ =~= frac@.take(k as int));
            rounded_fraction(whole, &cut, scale, char_at_or_zero(frac, scale) >= '5')
        },
    }
}

/// The last digits of the integer that the precision leaves room for.
pub fn limited_integer(whole: Vec<char>, precision: Option<u32>, scale: usize) -> (r: Option<
    Vec<char>,
>)
    ensures
        match r {
            Some(t) => limit_integer(whole@, precision, scale as nat) == Some(t@),
            None => limit_integer(whole@, precision, scale as nat) is None,
        },
{
    match precision {
        None => Some(whole),
        Some(p) => {
            if p as usize > scale {
                last_chars(&whole, p as usize - scale)
            } else {
                Some(zero_chars())
            }
        },
    }
}

/// A minus sign before the text of a negative number; zero has none.
fn signed_string(negative: bool, v: &[char]) -> (r: String)
    ensures
        r@ == with_sign(negative, v@),
{
    let mut out: Vec<char> = Vec::new();
    if negative && !(v.len() == 1 && v[0] == '0') {
        assert(v@ != seq!['0']) by {
            if v@ == seq!['0'] {
                assert(v@.len() == 1 && v@[0] == '0');
            }
        }
        out.push('-');
    } else if negative {
        assert(v@ =~= seq!['0']);
    }
    text::append_all(&mut out, v);
    assert(out@ =~= with_sign(negative, v@));
    text::string_of(&out)
}

/// Whether the text starts with a minus sign, and the text before and behind its point,
/// an exponent worked in.
fn read_positional(value: &str) -> (r: Result<(bool, Vec<char>, Vec<char>), DecimalError>)
    ensures
        match r {
            Ok((negative, whole, frac)) => negative == parse::literal_negative(value@)
                && positional(value@) == Ok::<(Seq<char>, Seq<char>), ErrorView>((whole@, frac@)),
            Err(e) => positional(value@) == Err::<(Seq<char>, Seq<char>), ErrorView>(e@),
        },
{
    let (negative, whole, frac, shift) = match parse::read_literal(value) {
        Err(DecimalError::PrecisionOverflow) => {
            return Err(DecimalError::PrecisionOverflow);
        },
        Err(_) => {
            let v: Vec<char> = text::chars_of(value);
            let t: Vec<char> = text::trimmed(&v);
            let negative: bool = t.len() > 0 && t[0] == '-';
            let body: Vec<char> = text::without_signs(&t);
            let (whole, frac) = text::split_point(&body);
            return Ok((negative, whole, frac));
        },
        Ok(parts) => parts,
    };
    if shift == 0 {
        proof {
            if parse::literal_tail(value@).len() == 0 {
                text::lemma_point(text::after_point(parse::literal_run(value@)));
                rounding_laws::lemma_plain(value@);
            }
        }
        return Ok((negative, whole, frac));
    }
    proof {
        parse::lemma_literal_numerals(value@);
        parse::lemma_parse_wf(value@);
    }
    let (_, ds, exponent) = match parse::assemble_parts(negative, &whole, &frac, shift) {
        Err(e) => {
            return Err(e);
        },
        Ok(parts) => parts,
    };
    proof {
        let p = parse::parse_text(value@)->Ok_0;
        let q = Parts { negative: false, digits: p.digits, exponent: p.exponent };
        roundtrip::lemma_plain_shape(q);
        roundtrip::lemma_split_literal(
            roundtrip::plain_whole(q),
            roundtrip::plain_frac(q),
            roundtrip::plain_frac(q).len() > 0,
        );
    }
    let t: Vec<char> = notation::plain_chars(false, &ds, exponent as i64);
    let (w, f) = text::split_point(&t);
    Ok((negative, w, f))
}

/// The text of a decimal cut to a precision and a scale; `None` where that would
/// count up a character that is no digit, or cut inside a character.
pub fn try_truncate_decimal(value: &str, precision: Option<u32>, scale: Option<i32>) -> (r: Option<
    Result<String, DecimalError>,
>)
    ensures
        match r {
            None => truncate_text(value@, precision, scale) is None,
            Some(Ok(t)) => truncate_text(value@, precision, scale) == Some(
                Ok::<Seq<char>, ErrorView>(t@),
            ),
            Some(Err(e)) => truncate_text(value@, precision, scale) == Some(
                Err::<Seq<char>, ErrorView>(e@),
            ),
        },
{
    let (negative, before, frac) = match read_positional(value) {
        Err(e) => {
            return Some(Err(e));
        },
        Ok(parts) => parts,
    };
    let whole: Vec<char> = short_chars(&before);
    let sc: i32 = match scale {
        Some(sc) => sc,
        None => 0,
    };
    if sc < 0 {
        return match rounded_left(&whole, precision, (-(sc as i64)) as usize) {
            None => None,
            Some(out) => Some(Ok(signed_string(negative, &out))),
        };
    }
    let (w, f) = match rounded_right(&whole, &frac, sc as usize) {
        None => {
            return None;
        },
        Some(parts) => parts,
    };
    match limited_integer(w, precision, sc as usize) {
        None => None,
        Some(last) => {
            let f: Vec<char> = text::without_trailing_zeros(&f);
            let mut out: Vec<char> = last;
            if f.len() > 0 {
                out.push('.');
                text::append_all(&mut out, &f);
                assert(out@ =~= last@ + seq!['.'] + f@);
            }
            Some(Ok(signed_string(negative, &out)))
        },
    }
}

/// The text of a decimal cut to a precision and a scale.
///
/// The characters that rounding counts up must be digits, and no cut may fall
/// inside a character.
pub fn truncate_decimal(value: &str, precision: Option<u32>, scale: Option<i32>) -> (r: Result<
    String,
    DecimalError,
>)
    requires
        truncate_text(value@, precision, scale) is Some,
    ensures
        match r {
            Ok(t) => truncate_text(value@, precision, scale) == Some(
                Ok::<Seq<char>, ErrorView>(t@),
            ),
            Err(e) => truncate_text(value@, precision, scale) == Some(
                Err::<Seq<char>, ErrorView>(e@),
            ),
        },
{
    try_truncate_decimal(value, precision, scale).unwrap()
}

/// Encodes a decimal cut to a precision and a scale. Special values are encoded as
/// they are.
pub fn encode_decimal_with_constraints(
    value: &str,
    precision: Option<u32>,
    scale: Option<i32>,
) -> (r: Result<Vec<u8>, DecimalError>)
    requires
        can_constrain(value@, precision, scale),
    ensures
        match r {
            Ok(b) => constrained_bytes(value@, precision, scale) == Ok::<Seq<u8>, ErrorView>(b@),
            Err(e) => constrained_bytes(value@, precision, scale) == Err::<Seq<u8>, ErrorView>(e@),
        },
{
    if special::parse_special_value(value).is_some() {
        return parse::encode_decimal(value);
    }
    match truncate_decimal(value, precision, scale) {
        Err(e) => Err(e),
        Ok(t) => parse::encode_decimal(t.as_str()),
    }
}

} // verus!
