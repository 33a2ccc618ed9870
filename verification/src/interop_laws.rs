//! What the conversions to and from the decimals of other crates hand over.
use vstd::prelude::*;

use crate::digits;
use crate::error::ErrorView;
use crate::fixed_laws;
use crate::interop;
use crate::interop::RustDecimalParts;
use crate::literal;
use crate::literal::Literal;
use crate::numeral;
use crate::rounding;
use crate::rounding_laws;
use crate::roundtrip;
use crate::special::SpecialValue;
use crate::value;
use crate::value::Parts;
use crate::value::Value;

verus! {

/// The text that is handed over for any digits and exponent is the literal of their number,
/// with no needless zero at its front.
pub proof fn law_short_text(p: Parts) -> (l: Literal)
    requires
        digits::all_digits(p.digits),
    ensures
        l.wf(),
        l.exponent is None,
        l.text() == interop::short_value_text(Value::Finite(p)),
        l.whole.len() > 0,
        l.whole.len() > 1 ==> l.whole[0] != '0',
        l.point == (l.frac.len() > 0),
        l.sign == (if p.negative && p.digits.len() > 0 {
            Some(true)
        } else {
            None
        }),
        p.digits.len() > 0 ==> l.unit() == (if p.unit() > 0 {
            0
        } else {
            p.unit()
        }),
        p.digits.len() == 0 ==> l.unit() == 0 && l.number() == 0,
        forall|v: int|
            v <= l.unit() && v <= p.unit() ==> #[trigger] p.scaled(v) == literal::with_sign(
                p.negative,
                l.number() * digits::pow10((l.unit() - v) as nat),
            ),
{
    let m = fixed_laws::law_any_text(p);
    let none: Option<literal::Exponent> = None;
    let w = rounding::short(m.whole);
    rounding_laws::lemma_short(m.whole);
    numeral::lemma_skip_zeros(m.whole);
    rounding_laws::lemma_numeral_concat(m.whole, m.frac);
    rounding_laws::lemma_numeral_concat(w, m.frac);
    let l = Literal { sign: m.sign, whole: w, point: m.point, frac: m.frac, exponent: none };
    roundtrip::lemma_plain_shape(p);
    interop::lemma_short_literal(
        p.negative && p.digits.len() > 0,
        m.whole,
        m.frac,
        m.frac.len() > 0,
    );
    assert(l.text() =~= roundtrip::literal_text(
        p.negative && p.digits.len() > 0,
        w,
        m.frac,
        m.frac.len() > 0,
    ));
    l
}

/// The texts that are handed over for the special values are their names.
pub proof fn law_short_special(v: SpecialValue)
    ensures
        interop::short_value_text(Value::Special(v)) == value::value_text(Value::Special(v)),
        interop::is_special_name(interop::short_value_text(Value::Special(v))),
{
}

/// A literal without an exponent and with a digit is the text of a number, and fits where its
/// digits are at most `2^96 - 1` and no more than 28 of them stand behind the point. What is
/// read then is those digits, with the sign, and how many of them stand there.
pub proof fn law_fits(l: Literal, reading: Option<(i128, u32)>)
    requires
        l.wf(),
        l.exponent is None,
        l.whole.len() > 0 || l.frac.len() > 0,
    ensures
        interop::is_number_text(l.text()),
        interop::fits_rust_decimal(l.text()) <==> l.number() <= 79_228_162_514_264_337_593_543_950_335
            && l.frac.len() <= 28,
        interop::reads_digits(reading, l.text()) <==> (reading matches Some((m, s)) && m
            == literal::with_sign(l.minus(), l.number()) && s == l.frac.len()),
        interop::starts_short(l.text()) <==> l.whole.len() <= 1 || l.whole[0] != '0',
{
    let e = Seq::<char>::empty();
    assert(e + l.text() + e =~= l.text());
    literal::lemma_literal(e, l, e);
}

/// What is read from the text of a number digit by digit is its digits, its sign unless it is
/// zero, and how many digits stand behind the point.
pub proof fn law_big_reading(l: Literal, reading: Option<(bool, Vec<u8>, i64)>)
    requires
        l.wf(),
        l.exponent is None,
    ensures
        interop::reads_big_digits(reading, l.text()) <==> (reading matches Some((negative, ds, s))
            && digits::all_digits(ds@) && digits::number(ds@) == l.number() && negative == (
        l.minus() && l.number() > 0) && s == l.frac.len()),
{
    let e = Seq::<char>::empty();
    assert(e + l.text() + e =~= l.text());
    literal::lemma_literal(e, l, e);
}

/// The parts of digits at a scale are those of the number that they write, or an overflow
/// where its first digit is out of range.
pub proof fn law_big_number(negative: bool, ds: Seq<u8>, scale: int, k: nat)
    requires
        digits::all_digits(ds),
        literal::takes_digits(digits::number(ds), k),
    ensures
        match interop::big_number(negative, ds, scale) {
            Ok(p) => literal::reads_as(
                Ok::<Value, ErrorView>(Value::Finite(p)),
                negative,
                digits::number(ds),
                -scale,
                k,
            ),
            Err(e) => literal::reads_as(
                Err::<Value, ErrorView>(e),
                negative,
                digits::number(ds),
                -scale,
                k,
            ),
        },
{
    let t = numeral::numeral(ds);
    let none = Seq::<char>::empty();
    numeral::lemma_numeral(ds);
    assert(t + none =~= t);
    literal::lemma_assembled(negative, t, none, -scale, k);
}

/// A value of 96 bits and a scale of at most 28 is kept.
pub proof fn law_rust_range(x: RustDecimalParts)
    ensures
        x.wf() <==> -79_228_162_514_264_337_593_543_950_335 <= x.mantissa
            <= 79_228_162_514_264_337_593_543_950_335 && x.scale <= 28,
{
}

} // verus!
