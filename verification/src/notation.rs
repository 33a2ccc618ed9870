//! Numbers as text in positional notation.
use vstd::prelude::*;

use crate::digits;
use crate::encoding;
use crate::error::DecimalError;
use crate::numeral;
use crate::parse;
use crate::rounding;
use crate::rounding_laws;
use crate::roundtrip;
use crate::special;
use crate::text;
use crate::value;
use crate::value::Parts;
use crate::value::Value;

verus! {

/// Appends digits.
fn append_digits(out: &mut Vec<char>, ds: &[u8], lo: usize, hi: usize)
    requires
        digits::all_digits(ds@),
        lo <= hi <= ds@.len(),
    ensures
        final(out)@ == old(out)@ + numeral::numeral(ds@).subrange(lo as int, hi as int),
{
    let ghost before = out@;
    let mut i: usize = lo;
    while i < hi
        invariant
            lo <= i <= hi <= ds@.len(),
            digits::all_digits(ds@),
            out@ == before + numeral::numeral(ds@).subrange(lo as int, i as int),
        decreases hi - i,
    {
        assert(ds@[i as int] <= 9);
        out.push(text::char_of_digit(ds[i]));
        i += 1;
    }
}

/// The number `0.ds * 10^exponent` in positional notation, as characters.
pub fn plain_chars(is_negative: bool, ds: &[u8], exponent: i64) -> (r: Vec<char>)
    requires
        digits::all_digits(ds@),
        -0xFFFF_FFFF <= exponent <= 0xFFFF_FFFF,
    ensures
        r@ == value::plain_text(
            (Parts { negative: is_negative, digits: ds@, exponent: exponent as int }),
        ),
{
    let ghost p = Parts { negative: is_negative, digits: ds@, exponent: exponent as int };
    let ghost t = numeral::numeral(ds@);
    let n: usize = ds.len();
    let mut out: Vec<char> = Vec::new();
    if n == 0 {
        out.push('0');
        assert(out@ =~= seq!['0']);
        return out;
    }
    if is_negative {
        out.push('-');
    }
    if exponent <= 0 {
        out.push('0');
        out.push('.');
        text::append_zeros(&mut out, (-exponent) as usize);
        append_digits(&mut out, ds, 0, n);
    } else if exponent as usize >= n {
        append_digits(&mut out, ds, 0, n);
        text::append_zeros(&mut out, exponent as usize - n);
    } else {
        append_digits(&mut out, ds, 0, exponent as usize);
        out.push('.');
        append_digits(&mut out, ds, exponent as usize, n);
    }
    assert(t.subrange(0, n as int) =~= t);
    assert(out@ =~= value::plain_text(p));
    out
}

/// The number `0.ds * 10^exponent` in positional notation.
pub fn format_decimal(is_negative: bool, ds: &[u8], exponent: i32) -> (r: Result<
    String,
    DecimalError,
>)
    requires
        digits::all_digits(ds@),
    ensures
        r matches Ok(s) && s@ == value::plain_text(
            (Parts { negative: is_negative, digits: ds@, exponent: exponent as int }),
        ),
{
    let out: Vec<char> = plain_chars(is_negative, ds, exponent as i64);
    Ok(text::string_of(&out))
}

/// The number `n * 10^-scale` in positional notation, as characters.
pub fn scaled_chars(n: i64, scale: i32) -> (r: Vec<char>)
    ensures
        r@ == value::plain_text(value::scaled_parts(n as int, scale as int)),
{
    let m: u128 = if n < 0 {
        (-(n as i128)) as u128
    } else {
        n as u128
    };
    let mut ds: Vec<u8> = Vec::new();
    if n == 0 {
        return plain_chars(false, ds.as_slice(), 0);
    }
    let t: Vec<char> = numeral::nat_chars(m);
    proof {
        numeral::lemma_nat_text(m as nat);
        numeral::lemma_nat_text_len(m as nat, 20);
        assert(m < digits::pow10(20)) by {
            reveal_with_fuel(digits::pow10, 21);
        }
        value::law_scaled_parts(n as int, scale as int);
    }
    ds = numeral::digit_values(&t);
    let ghost vs = ds@;
    while ds.len() > 0 && ds[ds.len() - 1] == 0
        invariant
            digits::strip_trailing(ds@) == digits::strip_trailing(vs),
        decreases ds@.len(),
    {
        let _last: Option<u8> = ds.pop();
    }
    plain_chars(n < 0, ds.as_slice(), t.len() as i64 - scale as i64)
}

/// The value that the bytes encode, as text.
pub fn decode_to_string(bytes: &[u8]) -> (r: Result<String, DecimalError>)
    ensures
        match r {
            Ok(s) => encoding::decode(bytes@) matches Some(v) && s@ == value::value_text(v),
            Err(e) => encoding::decode(bytes@) is None && e is InvalidEncoding,
        },
{
    if let Some(v) = special::decode_special_value(bytes) {
        return Ok(special::special_string(v));
    }
    let mut ds: Vec<u8> = Vec::new();
    match encoding::decode_parts_into(bytes, &mut ds) {
        Err(e) => Err(e),
        Ok(None) => Err(DecimalError::InvalidEncoding),
        Ok(Some((is_negative, exponent))) => {
            proof {
                encoding::lemma_decoded_digits(bytes@);
            }
            format_decimal(is_negative, &ds, exponent)
        },
    }
}

/// The value that the bytes encode, as text with exactly `scale` digits behind the
/// point. Special values have no digits, and a scale of zero or less changes nothing.
pub fn decode_to_string_with_scale(bytes: &[u8], scale: i32) -> (r: Result<String, DecimalError>)
    ensures
        match r {
            Ok(s) => encoding::decode(bytes@) matches Some(v) && s@ == value::scaled_text(
                v,
                scale as int,
            ),
            Err(e) => encoding::decode(bytes@) is None && e is InvalidEncoding,
        },
{
    let s: String = match decode_to_string(bytes) {
        Err(e) => {
            return Err(e);
        },
        Ok(s) => s,
    };
    if special::decode_special_value(bytes).is_some() {
        return Ok(s);
    }
    let v: Vec<char> = text::chars_of(s.as_str());
    proof {
        encoding::lemma_decoded_digits(bytes@);
        if let Some(Value::Finite(p)) = encoding::decode(bytes@) {
            lemma_text_numerals(p);
        }
    }
    let out: Vec<char> = fixed_chars(v, scale);
    Ok(text::string_of(&out))
}

/// The text of a number is numerals on both sides of its point.
pub proof fn lemma_text_numerals(p: Parts)
    requires
        digits::all_digits(p.digits),
    ensures
        ({
            let body = parse::unsigned_text(value::plain_text(p));
            numeral::is_numeral(text::before_point(body)) && numeral::is_numeral(
                text::after_point(body),
            )
        }),
{
    roundtrip::lemma_plain_shape(p);
    roundtrip::lemma_literal_point(
        p.negative && p.digits.len() > 0,
        roundtrip::plain_whole(p),
        roundtrip::plain_frac(p),
        roundtrip::plain_frac(p).len() > 0,
    );
}

/// Whether a numeral writes a number other than zero.
fn nonzero(v: &[char]) -> (r: bool)
    requires
        numeral::is_numeral(v@),
    ensures
        r == (numeral::text_number(v@) > 0),
{
    let t: Vec<char> = text::without_leading_zeros(v);
    proof {
        numeral::lemma_skip_zeros(v@);
        digits::lemma_strip_leading(numeral::values(v@));
    }
    t.len() > 0
}

/// The literal `v` rounded to `scale` digits behind its point.
fn rounded_chars(v: &[char], scale: usize) -> (r: Vec<char>)
    requires
        numeral::is_numeral(text::before_point(parse::unsigned_text(v@))),
        numeral::is_numeral(text::after_point(parse::unsigned_text(v@))),
    ensures
        r@ == value::rounded_text(v@, scale as nat),
{
    let negative: bool = v.len() > 0 && v[0] == '-';
    let start: usize = if v.len() > 0 && (v[0] == '-' || v[0] == '+') {
        1
    } else {
        0
    };
    let body: Vec<char> = text::copy_range(v, start, v.len());
    assert(body@ =~= parse::unsigned_text(v@));
    let (whole, frac) = text::split_point(&body);
    proof {
        rounding_laws::lemma_round_right(whole@, frac@, scale as nat);
    }
    let (w, f) = rounding::rounded_right(&whole, &frac, scale).unwrap();
    let mut all: Vec<char> = text::copy_range(&w, 0, w.len());
    text::append_all(&mut all, &f);
    assert(all@ =~= w@ + f@);
    proof {
        rounding_laws::lemma_numeral_concat(w@, f@);
    }
    let mut out: Vec<char> = Vec::new();
    if negative && nonzero(&all) {
        out.push('-');
    }
    text::append_all(&mut out, &w);
    out.push('.');
    text::append_all(&mut out, &f);
    assert(out@ =~= value::rounded_text(v@, scale as nat));
    out
}

/// The literal `v` with exactly `scale` digits behind its point, where that is positive.
pub fn fixed_chars(v: Vec<char>, scale: i32) -> (r: Vec<char>)
    requires
        numeral::is_numeral(text::before_point(parse::unsigned_text(v@))),
        numeral::is_numeral(text::after_point(parse::unsigned_text(v@))),
    ensures
        r@ == value::fixed_text(v@, scale as int),
{
    if scale <= 0 {
        return v;
    }
    let want: usize = scale as usize;
    let n: usize = v.len();
    let p: usize = text::point_index(&v);
    if p < n && n - p - 1 > want {
        return rounded_chars(&v, want);
    }
    let mut out: Vec<char> = v;
    if p == n {
        out.push('.');
        text::append_zeros(&mut out, want);
        assert(out@ =~= v@ + seq!['.'] + text::zeros(want as nat));
    } else {
        text::append_zeros(&mut out, want - (n - p - 1));
    }
    out
}

} // verus!
