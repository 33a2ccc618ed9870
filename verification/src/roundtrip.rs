//! What is written is read back: values through their encodings, and values
//! through their texts.
use vstd::prelude::*;

use crate::digits;
use crate::encoding;
use crate::error::ErrorView;
use crate::numeral;
use crate::parse;
use crate::special;
use crate::special::SpecialValue;
use crate::text;
use crate::value;
use crate::value::Parts;
use crate::value::Value;

verus! {

// ==================== Bytes ====================

/// The exponent is read back from its bytes, whatever follows.
proof fn lemma_exponent_read(e: int, negative: bool, rest: Seq<u8>)
    requires
        value::MIN_EXPONENT <= e <= value::MAX_EXPONENT,
    ensures
        encoding::exponent_of(encoding::exponent_bytes(e, negative) + rest, negative) == Some(
            (e, encoding::exponent_bytes(e, negative).len()),
        ),
{
    let b = encoding::exponent_bytes(e, negative);
    let plain = encoding::exponent_bytes(e, false);
    let c = if negative {
        encoding::invert(b + rest)
    } else {
        b + rest
    };
    assert forall|i: int| 0 <= i < plain.len() implies c[i] == plain[i] by {}
}

/// The digits are read back from packed pairs, with the pad behind an odd number
/// of them.
proof fn lemma_unpack_pack(ds: Seq<u8>, pad: u8)
    requires
        digits::all_digits(ds),
        pad <= 9,
    ensures
        encoding::unpack(encoding::pack(ds, pad)) == (if ds.len() % 2 == 0 {
            ds
        } else {
            ds.push(pad)
        }),
{
    let b = encoding::pack(ds, pad);
    let u = encoding::unpack(b);
    let want = if ds.len() % 2 == 0 {
        ds
    } else {
        ds.push(pad)
    };
    assert(u.len() == want.len());
    assert forall|i: int| 0 <= i < u.len() implies u[i] == want[i] by {
        let k = i / 2;
        assert(ds[2 * k] <= 9);
        if 2 * k + 1 < ds.len() {
            assert(ds[2 * k + 1] <= 9);
        }
    }
    assert(u =~= want);
}

proof fn lemma_strip_padded(ds: Seq<u8>, n: nat)
    requires
        ds.len() == 0 || ds.last() != 0,
    ensures
        digits::strip_trailing(ds + digits::zero_digits(n)) == ds,
    decreases n,
{
    let s = ds + digits::zero_digits(n);
    if n == 0 {
        assert(s =~= ds);
    } else {
        assert(s.last() == 0);
        assert(s.drop_last() =~= ds + digits::zero_digits((n - 1) as nat));
        lemma_strip_padded(ds, (n - 1) as nat);
    }
}

proof fn lemma_strip_front(ds: Seq<u8>, n: nat)
    requires
        ds.len() == 0 || ds[0] != 0,
    ensures
        digits::strip_leading(digits::zero_digits(n) + ds) == ds,
    decreases n,
{
    let s = digits::zero_digits(n) + ds;
    if n == 0 {
        assert(s =~= ds);
    } else {
        assert(s[0] == 0);
        assert(s.drop_first() =~= digits::zero_digits((n - 1) as nat) + ds);
        lemma_strip_front(ds, (n - 1) as nat);
    }
}

/// Digits, with or without one zero behind them, are kept.
proof fn lemma_keep_padded(ds: Seq<u8>, raw: Seq<u8>)
    requires
        ds.len() > 0,
        ds.last() != 0,
        raw == ds || raw == ds.push(0),
    ensures
        encoding::keep_one(raw) == ds,
{
    let n: nat = if raw == ds {
        0
    } else {
        1
    };
    assert(raw =~= ds + digits::zero_digits(n));
    lemma_strip_padded(ds, n);
}

/// The mantissa is read back from its bytes.
proof fn lemma_mantissa_read(ds: Seq<u8>, negative: bool)
    requires
        ds.len() > 0,
        digits::all_digits(ds),
        ds.last() != 0,
    ensures
        encoding::mantissa_digits(encoding::mantissa_bytes(ds, negative), negative) == Some(ds),
{
    let m = encoding::mantissa_bytes(ds, negative);
    let raw = encoding::raw_digits(m, negative);
    if negative {
        let cs = encoding::complement(ds);
        assert forall|i: int| 0 <= i < ds.len() implies #[trigger] cs[i] == 9 - ds[i] by {
            assert(ds[i] <= 9);
        }
        assert(digits::all_digits(cs));
        lemma_unpack_pack(cs, 9);
        assert(m.drop_last() =~= encoding::pack(cs, 9));
        let us = encoding::unpack(m.drop_last());
        if ds.len() % 2 == 0 {
            assert(raw =~= ds);
        } else {
            assert forall|i: int| 0 <= i < raw.len() implies raw[i] == ds.push(0)[i] by {
                if i < ds.len() {
                    assert(us[i] == cs[i]);
                } else {
                    assert(us[i] == 9);
                }
            }
            assert(raw =~= ds.push(0));
        }
    } else {
        lemma_unpack_pack(ds, 0);
    }
    lemma_keep_padded(ds, raw);
    assert(digits::all_digits(raw)) by {
        assert forall|i: int| 0 <= i < raw.len() implies #[trigger] raw[i] <= 9 by {
            if i < ds.len() {
                assert(ds[i] <= 9);
                assert(raw[i] == ds[i]);
            }
        }
    }
}

/// The digits of a negative mantissa in the older layout are read back.
proof fn lemma_legacy_mantissa_read(ds: Seq<u8>)
    requires
        ds.len() > 0,
        digits::all_digits(ds),
        ds.last() != 0,
    ensures
        encoding::mantissa_digits(encoding::legacy_mantissa_bytes(ds, true), true) == Some(ds),
        encoding::legacy_mantissa_bytes(ds, true).len() > 0,
        encoding::legacy_mantissa_bytes(ds, true).last() != encoding::TERMINATOR,
{
    let p = encoding::pack(ds, 0);
    let m = encoding::legacy_mantissa_bytes(ds, true);
    let k = p.len() - 1;
    assert(ds[2 * k] <= 9);
    if 2 * k + 1 < ds.len() {
        assert(ds[2 * k + 1] <= 9);
        assert(2 * k + 1 == ds.len() - 1);
    } else {
        assert(2 * k == ds.len() - 1);
    }
    assert(p[k] != 0);
    assert(m[k] != 255);
    assert(encoding::invert(m) =~= p);
    let raw = encoding::raw_digits(m, true);
    lemma_unpack_pack(ds, 0);
    lemma_keep_padded(ds, raw);
    assert(digits::all_digits(raw)) by {
        assert forall|i: int| 0 <= i < raw.len() implies #[trigger] raw[i] <= 9 by {
            if i < ds.len() {
                assert(ds[i] <= 9);
                assert(raw[i] == ds[i]);
            }
        }
    }
}

/// The parts of the encoding of a nonzero number.
pub proof fn lemma_encoded_parts(p: Parts, m: Seq<u8>)
    requires
        p.wf(),
        p.digits.len() > 0,
        m.len() > 0,
    ensures
        ({
            let e = encoding::exponent_bytes(p.exponent, p.negative);
            let b = seq![encoding::sign_byte(p.negative)] + e + m;
            &&& special::special_of_bytes(b) is None
            &&& b[0] == encoding::sign_byte(p.negative)
            &&& encoding::exponent_of(b.skip(1), p.negative) == Some((p.exponent, e.len()))
            &&& encoding::front(b) == seq![encoding::sign_byte(p.negative)] + e
            &&& encoding::mantissa(b) == m
            &&& b.skip(1 + e.len() as int) == m
        }),
{
    let e = encoding::exponent_bytes(p.exponent, p.negative);
    let s = seq![encoding::sign_byte(p.negative)];
    let b = s + e + m;
    assert(b.len() > 3);
    assert(b.skip(1) =~= e + m);
    lemma_exponent_read(p.exponent, p.negative, m);
    assert(b.skip(1 + e.len() as int) =~= m);
    assert(b.take(1 + e.len() as int) =~= s + e);
}

/// Decoding gives back what was encoded.
pub proof fn law_decode_encode(v: Value)
    requires
        v.wf(),
    ensures
        encoding::decode(encoding::encode(v)) == Some(v),
{
    match v {
        Value::Special(s) => {
            let b = encoding::encode(v);
            assert(b[2] == (match s {
                SpecialValue::NegInfinity => 0x00u8,
                SpecialValue::Infinity => 0xFEu8,
                SpecialValue::NaN => 0xFFu8,
            }));
        },
        Value::Finite(p) => {
            if p.digits.len() > 0 {
                let m = encoding::mantissa_bytes(p.digits, p.negative);
                assert(m.len() > 0);
                lemma_encoded_parts(p, m);
                lemma_mantissa_read(p.digits, p.negative);
                assert(encoding::decode(encoding::encode(v))->0->Finite_0 =~= p);
            }
        },
    }
}

/// The encoding of a text decodes to the value that the text is read as, and a text that
/// is refused has none.
pub proof fn law_encoded_text(s: Seq<char>)
    ensures
        match parse::parse_value(s) {
            Ok(v) => parse::encoded_text(s) matches Ok(b) && b == encoding::encode(v)
                && encoding::decode(b) == Some(v),
            Err(e) => parse::encoded_text(s) == Err::<Seq<u8>, ErrorView>(e),
        },
{
    parse::lemma_parse_wf(s);
    if let Ok(v) = parse::parse_value(s) {
        law_decode_encode(v);
    }
}

/// Writing a value in the older layout and reading that back gives its encoding;
/// in both layouts the bytes decode to the value.
pub proof fn law_legacy_round_trip(v: Value)
    requires
        v.wf(),
    ensures
        encoding::legacy_bytes(encoding::encode(v)) matches Ok(b) && encoding::decode(b) == Some(v)
            && encoding::canonical_bytes(b) == Ok::<Seq<u8>, ErrorView>(encoding::encode(v)),
        encoding::canonical_bytes(encoding::encode(v)) == Ok::<Seq<u8>, ErrorView>(
            encoding::encode(v),
        ),
{
    law_decode_encode(v);
    let a = encoding::encode(v);
    if let Value::Finite(p) = v {
        if p.digits.len() > 0 {
            let m = encoding::mantissa_bytes(p.digits, p.negative);
            assert(m.len() > 0);
            lemma_encoded_parts(p, m);
            lemma_mantissa_read(p.digits, p.negative);
            if p.negative {
                assert(m.last() == encoding::TERMINATOR);
                let l = encoding::legacy_mantissa_bytes(p.digits, true);
                lemma_legacy_mantissa_read(p.digits);
                lemma_encoded_parts(p, l);
                let b = encoding::legacy_bytes(a)->Ok_0;
                assert(b == seq![encoding::sign_byte(true)] + encoding::exponent_bytes(
                    p.exponent,
                    true,
                ) + l);
                assert(encoding::decode(b)->0->Finite_0 =~= p);
            }
        }
    }
}

/// Bytes put into the current layout still decode to the same value.
pub proof fn law_canonical_decode(b: Seq<u8>)
    ensures
        encoding::canonical_bytes(b) matches Ok(c) ==> encoding::decode(c) == encoding::decode(b),
{
    if encoding::decode(b) is Some && encoding::is_negative_number(b) && !(encoding::mantissa(
        b,
    ).len() > 0 && encoding::mantissa(b).last() == encoding::TERMINATOR) {
        let c = encoding::canonical_bytes(b)->Ok_0;
        let m = encoding::mantissa(b);
        let (e, k) = encoding::exponent_of(b.skip(1), true)->0;
        let ds = encoding::mantissa_digits(m, true)->0;
        let n = encoding::mantissa_bytes(ds, true);
        encoding::lemma_decoded_digits(b);
        assert(c[0] == b[0]);
        assert(c.len() > 3);
        let bs = b.skip(1);
        let cs = c.skip(1);
        assert forall|i: int| 0 <= i < k implies cs[i] == bs[i] by {}
        assert(forall|i: int| 0 <= i < k ==> encoding::invert(cs)[i] == encoding::invert(bs)[i]);
        assert(encoding::exponent_of(cs, true) == Some((e, k)));
        assert(c.skip(1 + k as int) =~= n);
        if m.len() == 0 {
            assert(encoding::raw_digits(m, true) =~= Seq::<u8>::empty());
            assert(ds =~= Seq::<u8>::empty());
            assert(n.drop_last() =~= Seq::<u8>::empty());
            assert(encoding::raw_digits(n, true) =~= Seq::<u8>::empty());
            assert(encoding::mantissa_digits(n, true) == Some(ds));
        } else {
            let raw = encoding::raw_digits(m, true);
            let last = m.last();
            assert(encoding::invert(m)[m.len() - 1] == 255 - last);
            assert(raw[raw.len() - 1] != 0 || raw[raw.len() - 2] != 0);
            digits::lemma_strip_trailing(raw);
            let t = digits::strip_trailing(raw);
            if t.len() == 0 {
                assert(raw =~= digits::zero_digits(raw.len()));
                assert(false);
            }
            lemma_mantissa_read(ds, true);
        }
    }
}

/// The number of bytes of an encoding: a sign byte, two or six bytes of exponent,
/// a byte for two digits, and one more for a negative number; three for a special
/// value and one for zero.
pub proof fn law_encoded_len(v: Value)
    requires
        v.wf(),
    ensures
        encoding::encode(v).len() == (match v {
            Value::Special(_) => 3,
            Value::Finite(p) => if p.digits.len() == 0 {
                1
            } else {
                1 + (if p.exponent <= encoding::MAX_INLINE_EXPONENT {
                    2int
                } else {
                    6
                }) + (p.digits.len() + 1) / 2 + (if p.negative {
                    1int
                } else {
                    0
                })
            },
        }),
{
}

// ==================== Texts ====================

proof fn lemma_trim_none(s: Seq<char>)
    requires
        s.len() > 0,
        !text::is_space(s[0]),
        !text::is_space(s.last()),
    ensures
        text::trim(s) == s,
{
}

proof fn lemma_point_at(a: Seq<char>, b: Seq<char>)
    requires
        forall|i: int| 0 <= i < a.len() ==> a[i] != '.',
    ensures
        text::point(a + seq!['.'] + b) == a.len(),
        text::point(a) == a.len(),
{
    text::lemma_point(a + seq!['.'] + b);
    text::lemma_point(a);
    let s = a + seq!['.'] + b;
    assert(s[a.len() as int] == '.');
    let p = text::point(s);
    if p < a.len() {
        assert(s[p as int] == a[p as int]);
    }
}

proof fn lemma_full_run(s: Seq<char>)
    requires
        forall|i: int| 0 <= i < s.len() ==> text::is_digit(#[trigger] s[i]) || s[i] == '.',
    ensures
        parse::run_len(s) == s.len(),
{
    parse::lemma_run(s);
}

/// A text that starts with a digit, or with a minus sign and a digit, names no
/// special value.
pub proof fn lemma_no_special(t: Seq<char>)
    requires
        t.len() > 0,
        !text::is_space(t.last()),
        text::is_digit(t[0]) || (t[0] == '-' && t.len() > 1 && text::is_digit(t[1])),
    ensures
        special::special_of_text(t) is None,
        text::trim(t) == t,
{
    lemma_trim_none(t);
    let l = text::lower_text(t);
    assert(l[0] == t[0]);
    reveal_strlit("infinity");
    reveal_strlit("inf");
    reveal_strlit("+infinity");
    reveal_strlit("+inf");
    reveal_strlit("-infinity");
    reveal_strlit("-inf");
    reveal_strlit("nan");
    reveal_strlit("-nan");
    reveal_strlit("+nan");
    if t[0] == '-' {
        assert(l[1] == t[1]);
        assert("-infinity"@[1] == 'i');
        assert("-inf"@[1] == 'i');
        assert("-nan"@[1] == 'n');
    }
    assert("infinity"@[0] == 'i');
    assert("inf"@[0] == 'i');
    assert("+infinity"@[0] == '+');
    assert("+inf"@[0] == '+');
    assert("-infinity"@[0] == '-');
    assert("-inf"@[0] == '-');
    assert("nan"@[0] == 'n');
    assert("-nan"@[0] == '-');
    assert("+nan"@[0] == '+');
}

/// The text of a special value names it.
proof fn lemma_special_named(v: SpecialValue)
    ensures
        special::special_of_text(special::special_text(v)) == Some(v),
{
    reveal_strlit("infinity");
    reveal_strlit("inf");
    reveal_strlit("+infinity");
    reveal_strlit("+inf");
    reveal_strlit("-infinity");
    reveal_strlit("-inf");
    reveal_strlit("nan");
    reveal_strlit("-nan");
    reveal_strlit("+nan");
    reveal_strlit("Infinity");
    reveal_strlit("-Infinity");
    reveal_strlit("NaN");
    let s = special::special_text(v);
    lemma_trim_none(s);
    let l = text::lower_text(s);
    match v {
        SpecialValue::Infinity => {
            assert(l =~= "infinity"@);
        },
        SpecialValue::NegInfinity => {
            assert(l =~= "-infinity"@);
            assert("infinity"@[0] != '-');
            assert("inf"@[0] != '-');
            assert("+infinity"@[0] != '-');
            assert("+inf"@[0] != '-');
        },
        SpecialValue::NaN => {
            assert(l =~= "nan"@);
            assert("infinity"@[0] != 'n');
            assert("inf"@[0] != 'n');
            assert("+infinity"@[0] != 'n');
            assert("+inf"@[0] != 'n');
            assert("-infinity"@[0] != 'n');
            assert("-inf"@[0] != 'n');
        },
    }
}

/// A sign or none, digits, and where `pointed` says so a point and more digits.
pub open spec fn literal_text(
    negative: bool,
    whole: Seq<char>,
    frac: Seq<char>,
    pointed: bool,
) -> Seq<char> {
    let sign: Seq<char> = if negative {
        seq!['-']
    } else {
        Seq::empty()
    };
    if pointed {
        sign + whole + seq!['.'] + frac
    } else {
        sign + whole
    }
}

/// A literal of a numeral, or of two around a point, is read as those numerals.
pub proof fn lemma_plain_literal(negative: bool, whole: Seq<char>, frac: Seq<char>, pointed: bool)
    requires
        whole.len() > 0,
        numeral::is_numeral(whole),
        numeral::is_numeral(frac),
        !pointed ==> frac.len() == 0,
    ensures
        ({
            let s = literal_text(negative, whole, frac, pointed);
            &&& special::special_of_text(s) is None
            &&& parse::literal_negative(s) == negative
            &&& parse::literal_tail(s).len() == 0
            &&& text::before_point(parse::literal_run(s)) == whole
            &&& text::after_point(parse::literal_run(s)) == frac
            &&& parse::parse_text(s) == parse::assemble(negative, whole, frac, 0)
        }),
{
    let run = literal_text(false, whole, frac, pointed);
    let s = literal_text(negative, whole, frac, pointed);
    let sign: Seq<char> = if negative {
        seq!['-']
    } else {
        Seq::empty()
    };
    assert(s =~= sign + run);
    assert(text::is_digit(whole[0]));
    assert(run[0] == whole[0]);
    assert forall|i: int| 0 <= i < run.len() implies text::is_digit(#[trigger] run[i]) || run[i]
        == '.' by {
        if i < whole.len() {
            assert(run[i] == whole[i]);
        } else if i > whole.len() {
            assert(run[i] == frac[i - whole.len() - 1]);
        }
    }
    assert(s.last() == run[run.len() - 1]);
    assert(s[0] == if negative { '-' } else { run[0] });
    if negative {
        assert(s[1] == run[0]);
    }
    lemma_no_special(s);
    assert(parse::unsigned_text(s) =~= run);
    lemma_full_run(run);
    assert(parse::literal_run(s) =~= run);
    assert(parse::literal_tail(s) =~= Seq::<char>::empty());
    lemma_split_literal(whole, frac, pointed);
}

/// A literal without a sign is split at its point.
pub proof fn lemma_split_literal(whole: Seq<char>, frac: Seq<char>, pointed: bool)
    requires
        numeral::is_numeral(whole),
        numeral::is_numeral(frac),
        !pointed ==> frac.len() == 0,
    ensures
        ({
            let run = literal_text(false, whole, frac, pointed);
            &&& text::before_point(run) == whole
            &&& text::after_point(run) == frac
            &&& text::point(frac) == frac.len()
        }),
{
    let run = literal_text(false, whole, frac, pointed);
    if pointed {
        assert(run =~= whole + seq!['.'] + frac);
    } else {
        assert(run =~= whole);
    }
    lemma_point_at(whole, frac);
    assert(text::before_point(run) =~= whole);
    assert(text::after_point(run) =~= frac);
    text::lemma_point(frac);
    let p = text::point(frac);
    if p < frac.len() {
        assert(text::is_digit(frac[p as int]));
        assert(false);
    }
}

/// The digits of a number's text before the point.
pub open spec fn plain_whole(p: Parts) -> Seq<char> {
    let t = numeral::numeral(p.digits);
    if p.digits.len() == 0 || p.exponent <= 0 {
        seq!['0']
    } else if p.exponent >= p.digits.len() {
        t + text::zeros((p.exponent - p.digits.len()) as nat)
    } else {
        t.take(p.exponent)
    }
}

/// The digits of a number's text behind the point.
pub open spec fn plain_frac(p: Parts) -> Seq<char> {
    let t = numeral::numeral(p.digits);
    if p.digits.len() == 0 || p.exponent >= p.digits.len() {
        Seq::empty()
    } else if p.exponent <= 0 {
        text::zeros((-p.exponent) as nat) + t
    } else {
        t.skip(p.exponent)
    }
}

/// The text of a number is a literal of its digits around the point.
pub proof fn lemma_plain_shape(p: Parts)
    requires
        digits::all_digits(p.digits),
    ensures
        ({
            let s = value::plain_text(p);
            &&& s == literal_text(
                p.negative && p.digits.len() > 0,
                plain_whole(p),
                plain_frac(p),
                plain_frac(p).len() > 0,
            )
            &&& numeral::is_numeral(plain_whole(p))
            &&& numeral::is_numeral(plain_frac(p))
            &&& plain_whole(p).len() > 0
            &&& special::special_of_text(s) is None
            &&& parse::literal_negative(s) == (p.negative && p.digits.len() > 0)
            &&& parse::literal_tail(s).len() == 0
            &&& text::before_point(parse::literal_run(s)) == plain_whole(p)
            &&& text::after_point(parse::literal_run(s)) == plain_frac(p)
            &&& parse::parse_text(s) == parse::assemble(
                p.negative && p.digits.len() > 0,
                plain_whole(p),
                plain_frac(p),
                0,
            )
        }),
{
    let t = numeral::numeral(p.digits);
    let whole = plain_whole(p);
    let frac = plain_frac(p);
    let negative = p.negative && p.digits.len() > 0;
    let pointed = frac.len() > 0;
    numeral::lemma_numeral(p.digits);
    assert forall|i: int| 0 <= i < whole.len() implies text::is_digit(#[trigger] whole[i]) by {
        if p.digits.len() > 0 && p.exponent > 0 && i < t.len() {
            assert(text::is_digit(t[i]));
        }
    }
    assert forall|i: int| 0 <= i < frac.len() implies text::is_digit(#[trigger] frac[i]) by {
        if p.exponent > 0 {
            assert(text::is_digit(t[p.exponent + i]));
        } else if i >= -p.exponent {
            assert(text::is_digit(t[i + p.exponent]));
        }
    }
    lemma_plain_literal(negative, whole, frac, pointed);
    assert(value::plain_text(p) =~= literal_text(negative, whole, frac, pointed));
}

/// The text of a number is read as the number.
proof fn lemma_plain_text_read(p: Parts)
    requires
        p.wf(),
    ensures
        special::special_of_text(value::plain_text(p)) is None,
        parse::parse_text(value::plain_text(p)) == Ok::<Parts, ErrorView>(p),
{
    let t = numeral::numeral(p.digits);
    let all = plain_whole(p) + plain_frac(p);
    lemma_plain_shape(p);
    numeral::lemma_numeral(p.digits);
    if p.digits.len() == 0 {
        assert(all =~= seq!['0']);
        assert(numeral::values(all) =~= digits::zero_digits(1) + Seq::<u8>::empty());
        lemma_strip_front(Seq::<u8>::empty(), 1);
    } else if p.exponent >= p.digits.len() {
        let k = (p.exponent - p.digits.len()) as nat;
        assert(all =~= t + text::zeros(k));
        numeral::lemma_values_zeros(k);
        numeral::lemma_values_concat(t, text::zeros(k));
        let ds = p.digits + digits::zero_digits(k);
        assert(ds[0] == p.digits[0]);
        lemma_strip_padded(p.digits, k);
    } else if p.exponent <= 0 {
        let k = (1 - p.exponent) as nat;
        numeral::lemma_values_zeros(k);
        assert(all =~= text::zeros(k) + t);
        numeral::lemma_values_concat(text::zeros(k), t);
        lemma_strip_front(p.digits, k);
        lemma_strip_padded(p.digits, 0);
        assert(p.digits + digits::zero_digits(0) =~= p.digits);
    } else {
        assert(all =~= t);
        lemma_strip_padded(p.digits, 0);
        assert(p.digits + digits::zero_digits(0) =~= p.digits);
    }
}

/// Reading the text of a value gives the value back.
pub proof fn law_text_round_trip(v: Value)
    requires
        v.wf(),
    ensures
        parse::parse_value(value::value_text(v)) == Ok::<Value, ErrorView>(v),
{
    match v {
        Value::Special(s) => {
            lemma_special_named(s);
        },
        Value::Finite(p) => {
            lemma_plain_text_read(p);
        },
    }
}

/// Zeros behind the digits of a fraction do not change the number.
proof fn lemma_assemble_padded(negative: bool, whole: Seq<char>, frac: Seq<char>, k: nat)
    ensures
        parse::assemble(negative, whole, frac + text::zeros(k), 0) == parse::assemble(
            negative,
            whole,
            frac,
            0,
        ),
{
    let ds = numeral::values(whole + frac);
    let z = digits::zero_digits(k);
    assert(whole + (frac + text::zeros(k)) =~= (whole + frac) + text::zeros(k));
    numeral::lemma_values_concat(whole + frac, text::zeros(k));
    numeral::lemma_values_zeros(k);
    let lead = digits::strip_leading(ds);
    digits::lemma_strip_leading(ds);
    let m = (ds.len() - lead.len()) as nat;
    if lead.len() == 0 {
        assert(ds + z =~= digits::zero_digits(m + k) + Seq::<u8>::empty());
        lemma_strip_front(Seq::<u8>::empty(), m + k);
    } else {
        assert(ds + z =~= digits::zero_digits(m) + (lead + z));
        assert((lead + z)[0] == lead[0]);
        lemma_strip_front(lead + z, m);
        digits::lemma_strip_trailing(lead);
        let core = digits::strip_trailing(lead);
        let e = (lead.len() - core.len()) as nat;
        assert(lead + z =~= core + digits::zero_digits(e + k));
        lemma_strip_padded(core, e + k);
        lemma_strip_padded(core, e);
    }
}

/// A literal has its fraction behind its point, and is its digits but for its sign.
pub proof fn lemma_literal_point(negative: bool, whole: Seq<char>, frac: Seq<char>, pointed: bool)
    requires
        numeral::is_numeral(whole),
        whole.len() > 0,
        numeral::is_numeral(frac),
        !pointed ==> frac.len() == 0,
    ensures
        ({
            let t = literal_text(negative, whole, frac, pointed);
            &&& pointed == (text::point(t) < t.len())
            &&& text::after_point(t) == frac
            &&& (t[0] == '-') == negative
            &&& text::before_point(parse::unsigned_text(t)) == whole
            &&& text::after_point(parse::unsigned_text(t)) == frac
        }),
{
    let t = literal_text(negative, whole, frac, pointed);
    let front = literal_text(negative, whole, Seq::empty(), false);
    let n: int = if negative {
        1
    } else {
        0
    };
    assert forall|i: int| 0 <= i < front.len() implies front[i] != '.' by {
        if i >= n {
            assert(front[i] == whole[i - n]);
            assert(text::is_digit(whole[i - n]));
        }
    }
    assert(text::is_digit(whole[0]));
    assert(t[n] == whole[0]);
    lemma_point_at(front, frac);
    if pointed {
        assert(t =~= front + seq!['.'] + frac);
    } else {
        assert(t =~= front);
    }
    assert(text::after_point(t) =~= frac);
    assert(parse::unsigned_text(t) =~= literal_text(false, whole, frac, pointed));
    lemma_split_literal(whole, frac, pointed);
}

/// Zeros behind the point of a literal come behind its fraction.
pub proof fn lemma_padded_literal(negative: bool, whole: Seq<char>, frac: Seq<char>, scale: int)
    requires
        numeral::is_numeral(whole),
        whole.len() > 0,
        numeral::is_numeral(frac),
        scale > 0,
        frac.len() <= scale,
    ensures
        value::fixed_text(literal_text(negative, whole, frac, frac.len() > 0), scale)
            == literal_text(
            negative,
            whole,
            frac + text::zeros((scale - frac.len()) as nat),
            true,
        ),
{
    let t = literal_text(negative, whole, frac, frac.len() > 0);
    let more = frac + text::zeros((scale - frac.len()) as nat);
    lemma_literal_point(negative, whole, frac, frac.len() > 0);
    text::lemma_point(t);
    assert(value::fixed_text(t, scale) =~= literal_text(negative, whole, more, true));
}

/// Digits added behind the point do not change the value that a text is read as. The
/// number must have no more than `scale` digits there, unless that is zero or less.
pub proof fn law_scaled_text_read(v: Value, scale: int)
    requires
        v.wf(),
        v matches Value::Finite(p) ==> scale <= 0 || plain_frac(p).len() <= scale,
    ensures
        parse::parse_value(value::scaled_text(v, scale)) == Ok::<Value, ErrorView>(v),
{
    law_text_round_trip(v);
    if let Value::Finite(p) = v {
        if scale > 0 {
            lemma_plain_shape(p);
            let whole = plain_whole(p);
            let frac = plain_frac(p);
            let negative = p.negative && p.digits.len() > 0;
            lemma_padded_literal(negative, whole, frac, scale);
            let k = (scale - frac.len()) as nat;
            let more = frac + text::zeros(k);
            assert forall|i: int| 0 <= i < more.len() implies text::is_digit(#[trigger] more[i]) by {
                if i < frac.len() {
                    assert(text::is_digit(frac[i]));
                }
            }
            lemma_plain_literal(negative, whole, more, true);
            lemma_assemble_padded(negative, whole, frac, k);
        }
    }
}

/// The text of `n * 10^-scale` has no more digits behind the point than the scale says.
pub proof fn lemma_scaled_frac(n: int, scale: int)
    ensures
        plain_frac(value::scaled_parts(n, scale)).len() <= (if scale > 0 {
            scale
        } else {
            0
        }),
{
    value::law_scaled_parts(n, scale);
}

} // verus!
