//! Decimal literals: an optional sign, digits with an optional decimal point, and
//! an optional exponent.
use vstd::prelude::*;
use vstd::string::StringExecFns;

use crate::digits;
use crate::encoding;
use crate::error::DecimalError;
use crate::error::ErrorView;
use crate::error::invalid_format;
use crate::numeral;
use crate::special;
use crate::text;
use crate::value;
use crate::value::Parts;
use crate::value::Value;

verus! {

// ==================== What a literal means ====================

/// The text behind a sign, or all of it where there is none.
pub open spec fn unsigned_text(t: Seq<char>) -> Seq<char> {
    if t.len() > 0 && (t[0] == '-' || t[0] == '+') {
        t.skip(1)
    } else {
        t
    }
}

/// The length of the run of digits and points at the front of the text.
pub open spec fn run_len(s: Seq<char>) -> nat
    decreases s.len(),
{
    if s.len() > 0 && (text::is_digit(s[0]) || s[0] == '.') {
        1 + run_len(s.drop_first())
    } else {
        0
    }
}

/// The run of digits and points of a literal.
pub open spec fn literal_run(s: Seq<char>) -> Seq<char> {
    let body = unsigned_text(text::trim(s));
    body.take(run_len(body) as int)
}

/// What stands behind the run of digits and points of a literal.
pub open spec fn literal_tail(s: Seq<char>) -> Seq<char> {
    let body = unsigned_text(text::trim(s));
    body.skip(run_len(body) as int)
}

/// Whether the literal has a minus sign.
pub open spec fn literal_negative(s: Seq<char>) -> bool {
    let t = text::trim(s);
    t.len() > 0 && t[0] == '-'
}

/// The exponent that a literal ends with; zero where it ends with its digits.
pub open spec fn tail_exponent(tail: Seq<char>) -> Result<int, ErrorView> {
    if tail.len() == 0 {
        Ok(0)
    } else if tail[0] != 'e' && tail[0] != 'E' {
        Err(ErrorView::InvalidFormat("Invalid character: "@.push(tail[0])))
    } else if tail.len() == 1 {
        Err(ErrorView::InvalidFormat("Missing exponent after 'e'"@))
    } else {
        match numeral::signed_value(tail.skip(1)) {
            None => Err(ErrorView::InvalidFormat("Invalid exponent: "@ + tail.skip(1))),
            Some(n) => if i32::MIN <= n <= i32::MAX {
                Ok(n)
            } else {
                Err(ErrorView::PrecisionOverflow)
            },
        }
    }
}

/// The number with the digits `whole` before and `frac` behind the point, times
/// `10^shift`, in normalized parts.
pub open spec fn assemble(
    negative: bool,
    whole: Seq<char>,
    frac: Seq<char>,
    shift: int,
) -> Result<Parts, ErrorView> {
    let ds = numeral::values(whole + frac);
    let lead = digits::strip_leading(ds);
    let exponent = whole.len() - (ds.len() - lead.len()) + shift;
    if lead.len() == 0 {
        Ok(value::zero_parts())
    } else if value::MIN_EXPONENT <= exponent <= value::MAX_EXPONENT {
        Ok(Parts { negative, digits: digits::strip_trailing(lead), exponent })
    } else {
        Err(ErrorView::PrecisionOverflow)
    }
}

/// The exponent of a literal; an error where the text is no literal.
pub open spec fn literal_exponent(s: Seq<char>) -> Result<int, ErrorView> {
    let frac = text::after_point(literal_run(s));
    if text::point(frac) < frac.len() {
        Err(ErrorView::InvalidFormat("Multiple decimal points"@))
    } else {
        tail_exponent(literal_tail(s))
    }
}

/// The number that a literal denotes. White space around it does not count, and
/// a literal without any digit is zero.
pub open spec fn parse_text(s: Seq<char>) -> Result<Parts, ErrorView> {
    match literal_exponent(s) {
        Err(e) => Err(e),
        Ok(shift) => assemble(
            literal_negative(s),
            text::before_point(literal_run(s)),
            text::after_point(literal_run(s)),
            shift,
        ),
    }
}

/// The value that a text names or denotes.
pub open spec fn parse_value(s: Seq<char>) -> Result<Value, ErrorView> {
    match special::special_of_text(s) {
        Some(v) => Ok(Value::Special(v)),
        None => match parse_text(s) {
            Ok(p) => Ok(Value::Finite(p)),
            Err(e) => Err(e),
        },
    }
}

/// The encoding of the value that a text names or denotes.
pub open spec fn encoded_text(s: Seq<char>) -> Result<Seq<u8>, ErrorView> {
    match parse_value(s) {
        Ok(v) => Ok(encoding::encode(v)),
        Err(e) => Err(e),
    }
}

// ==================== Lemmas ====================

pub proof fn lemma_run(s: Seq<char>)
    ensures
        run_len(s) <= s.len(),
        forall|i: int|
            0 <= i < run_len(s) ==> text::is_digit(#[trigger] s[i]) || s[i] == '.',
        run_len(s) < s.len() ==> !text::is_digit(s[run_len(s) as int]) && s[run_len(s) as int]
            != '.',
    decreases s.len(),
{
    if s.len() > 0 && (text::is_digit(s[0]) || s[0] == '.') {
        let t = s.drop_first();
        lemma_run(t);
        assert forall|i: int| 0 <= i < run_len(s) implies text::is_digit(#[trigger] s[i]) || s[i]
            == '.' by {
            if i > 0 {
                assert(t[i - 1] == s[i]);
            }
        }
        if run_len(s) < s.len() {
            assert(t[run_len(t) as int] == s[run_len(s) as int]);
        }
    }
}

/// Both sides of the only point of a run are numerals.
pub proof fn lemma_run_numerals(run: Seq<char>)
    requires
        forall|i: int| 0 <= i < run.len() ==> text::is_digit(#[trigger] run[i]) || run[i] == '.',
        text::point(text::after_point(run)) == text::after_point(run).len(),
    ensures
        numeral::is_numeral(text::before_point(run)),
        numeral::is_numeral(text::after_point(run)),
        numeral::is_numeral(text::before_point(run) + text::after_point(run)),
{
    let whole = text::before_point(run);
    let frac = text::after_point(run);
    text::lemma_point(run);
    text::lemma_point(frac);
    assert forall|i: int| 0 <= i < whole.len() implies text::is_digit(#[trigger] whole[i]) by {
        assert(whole[i] == run[i]);
    }
    assert forall|i: int| 0 <= i < frac.len() implies text::is_digit(#[trigger] frac[i]) by {
        assert(frac[i] == run[text::point(run) + 1 + i]);
    }
}

/// The parts of a numeral are normalized.
pub proof fn lemma_assemble(negative: bool, whole: Seq<char>, frac: Seq<char>, shift: int)
    requires
        numeral::is_numeral(whole + frac),
    ensures
        assemble(negative, whole, frac, shift) matches Ok(p) ==> p.wf(),
{
    let ds = numeral::values(whole + frac);
    numeral::lemma_values(whole + frac);
    digits::lemma_strip_leading(ds);
    let lead = digits::strip_leading(ds);
    digits::lemma_strip_trailing(lead);
    if lead.len() > 0 {
        digits::lemma_number_lower(lead);
        digits::lemma_pow10_pos((lead.len() - 1) as nat);
        if digits::strip_trailing(lead).len() == 0 {
            assert(lead =~= digits::zero_digits(lead.len()));
        }
    }
}

/// Both sides of the point of a literal are numerals.
pub proof fn lemma_literal_numerals(s: Seq<char>)
    requires
        text::point(text::after_point(literal_run(s))) == text::after_point(literal_run(s)).len()
            || literal_exponent(s) is Ok,
    ensures
        numeral::is_numeral(text::before_point(literal_run(s))),
        numeral::is_numeral(text::after_point(literal_run(s))),
        numeral::is_numeral(
            text::before_point(literal_run(s)) + text::after_point(literal_run(s)),
        ),
{
    let body = unsigned_text(text::trim(s));
    let run = literal_run(s);
    lemma_run(body);
    text::lemma_point(text::after_point(run));
    assert forall|i: int| 0 <= i < run.len() implies text::is_digit(#[trigger] run[i]) || run[i]
        == '.' by {
        assert(run[i] == body[i]);
    }
    lemma_run_numerals(run);
}

/// What a literal denotes is normalized.
pub proof fn lemma_parse_wf(s: Seq<char>)
    ensures
        parse_text(s) matches Ok(p) ==> p.wf(),
        parse_value(s) matches Ok(v) ==> v.wf(),
{
    if let Ok(shift) = literal_exponent(s) {
        lemma_literal_numerals(s);
        lemma_assemble(
            literal_negative(s),
            text::before_point(literal_run(s)),
            text::after_point(literal_run(s)),
            shift,
        );
    }
}

/// The power of ten that the last digit of a literal counts.
pub open spec fn literal_unit(s: Seq<char>) -> int {
    tail_exponent(literal_tail(s))->Ok_0 - text::after_point(literal_run(s)).len()
}

/// The number that the digits of a literal write without its point.
pub open spec fn literal_number(s: Seq<char>) -> nat {
    numeral::text_number(text::before_point(literal_run(s)) + text::after_point(literal_run(s)))
}

/// The last digit of the parts is no later than that of the literal.
pub proof fn lemma_literal_unit(s: Seq<char>)
    requires
        parse_text(s) is Ok,
    ensures
        (parse_text(s)->Ok_0) == value::zero_parts() || literal_unit(s) <= (parse_text(
            s,
        )->Ok_0).unit(),
{
    let run = literal_run(s);
    let ds = numeral::values(text::before_point(run) + text::after_point(run));
    text::lemma_point(run);
    digits::lemma_strip_leading(ds);
    digits::lemma_strip_trailing(digits::strip_leading(ds));
}

/// Reading a literal keeps its number: what the digits write without the point,
/// times the power of ten of the last digit.
pub proof fn law_literal_value(s: Seq<char>, u: int)
    requires
        parse_text(s) is Ok,
        u <= literal_unit(s),
        u <= (parse_text(s)->Ok_0).unit(),
    ensures
        (parse_text(s)->Ok_0).scaled(u) == ({
            let m = literal_number(s) * digits::pow10((literal_unit(s) - u) as nat);
            if literal_negative(s) {
                -(m as int)
            } else {
                m as int
            }
        }),
{
    let p = parse_text(s)->Ok_0;
    let whole = text::before_point(literal_run(s));
    let frac = text::after_point(literal_run(s));
    let ds = numeral::values(whole + frac);
    let lead = digits::strip_leading(ds);
    digits::lemma_strip_leading(ds);
    digits::lemma_strip_trailing(lead);
    if lead.len() == 0 {
        assert(digits::number(p.digits) == 0);
        let x = digits::pow10((p.unit() - u) as nat);
        let y = digits::pow10((literal_unit(s) - u) as nat);
        assert(0nat * x == 0) by (nonlinear_arith);
        assert(0nat * y == 0) by (nonlinear_arith);
    } else {
        let k = (lead.len() - p.digits.len()) as nat;
        text::lemma_point(literal_run(s));
        assert(p.unit() - u == k + (literal_unit(s) - u));
        digits::lemma_pow10_add(k, (literal_unit(s) - u) as nat);
        let n = digits::number(p.digits);
        let a = digits::pow10(k);
        let b = digits::pow10((literal_unit(s) - u) as nat);
        assert((n * a) * b == n * (a * b)) by (nonlinear_arith);
    }
}

// ==================== Reading ====================

/// The exponent that a literal ends with.
fn parse_tail(tail: &[char]) -> (r: Result<i32, DecimalError>)
    ensures
        match r {
            Ok(n) => tail_exponent(tail@) == Ok::<int, ErrorView>(n as int),
            Err(e) => tail_exponent(tail@) == Err::<int, ErrorView>(e@),
        },
{
    if tail.len() == 0 {
        return Ok(0);
    }
    if tail[0] != 'e' && tail[0] != 'E' {
        let mut m: String = "Invalid character: ".to_owned();
        m.push(tail[0]);
        return Err(DecimalError::InvalidFormat(m));
    }
    if tail.len() == 1 {
        return Err(invalid_format("Missing exponent after 'e'"));
    }
    let x: Vec<char> = text::copy_range(tail, 1, tail.len());
    assert(x@ =~= tail@.skip(1));
    match numeral::read_signed(&x) {
        None => {
            let mut m: String = "Invalid exponent: ".to_owned();
            let s: String = text::string_of(&x);
            m.append(s.as_str());
            Err(DecimalError::InvalidFormat(m))
        },
        Some(n) => {
            if n < i32::MIN as i128 || n > i32::MAX as i128 {
                Err(DecimalError::PrecisionOverflow)
            } else {
                Ok(n as i32)
            }
        },
    }
}

/// The number with the digits `whole` before and `frac` behind the point, times
/// `10^shift`.
pub fn assemble_parts(negative: bool, whole: &[char], frac: &[char], shift: i32) -> (r: Result<
    (bool, Vec<u8>, i32),
    DecimalError,
>)
    requires
        numeral::is_numeral(whole@ + frac@),
    ensures
        match r {
            Ok((neg, ds, exponent)) => assemble(negative, whole@, frac@, shift as int) == Ok::<
                Parts,
                ErrorView,
            >((Parts { negative: neg, digits: ds@, exponent: exponent as int })),
            Err(e) => assemble(negative, whole@, frac@, shift as int) == Err::<Parts, ErrorView>(
                e@,
            ),
        },
{
    let mut all: Vec<char> = text::copy_range(whole, 0, whole.len());
    assert(all@ =~= whole@);
    text::append_all(&mut all, frac);
    let ds: Vec<u8> = numeral::digit_values(&all);
    let n: usize = ds.len();
    let mut lo: usize = 0;
    assert(ds@.skip(0) =~= ds@);
    while lo < n && ds[lo] == 0
        invariant
            lo <= n == ds@.len(),
            digits::strip_leading(ds@) == digits::strip_leading(ds@.skip(lo as int)),
        decreases n - lo,
    {
        assert(ds@.skip(lo as int).drop_first() =~= ds@.skip(lo + 1));
        lo += 1;
    }
    let ghost lead = ds@.skip(lo as int);
    assert(digits::strip_leading(ds@) == lead);
    if lo == n {
        return Ok((false, Vec::new(), 0));
    }
    let mut hi: usize = n;
    assert(ds@.subrange(lo as int, n as int) =~= lead);
    while hi > lo && ds[hi - 1] == 0
        invariant
            lo <= hi <= n == ds@.len(),
            digits::strip_trailing(lead) == digits::strip_trailing(
                ds@.subrange(lo as int, hi as int),
            ),
        decreases hi,
    {
        assert(ds@.subrange(lo as int, hi as int).drop_last() =~= ds@.subrange(
            lo as int,
            hi - 1,
        ));
        hi -= 1;
    }
    let exponent: i128 = whole.len() as i128 - lo as i128 + shift as i128;
    if exponent < value::MIN_EXPONENT as i128 || exponent > value::MAX_EXPONENT as i128 {
        return Err(DecimalError::PrecisionOverflow);
    }
    let mut out: Vec<u8> = Vec::new();
    let mut i: usize = lo;
    while i < hi
        invariant
            lo <= i <= hi <= ds@.len(),
            out@ == ds@.subrange(lo as int, i as int),
        decreases hi - i,
    {
        out.push(ds[i]);
        i += 1;
    }
    Ok((negative, out, exponent as i32))
}

/// Splits a literal: its sign, the digits before and behind its point, and its
/// exponent.
pub fn read_literal(value: &str) -> (r: Result<(bool, Vec<char>, Vec<char>, i32), DecimalError>)
    ensures
        match r {
            Ok((negative, whole, frac, shift)) => literal_exponent(value@) == Ok::<int, ErrorView>(
                shift as int,
            ) && negative == literal_negative(value@) && whole@ == text::before_point(
                literal_run(value@),
            ) && frac@ == text::after_point(literal_run(value@)) && numeral::is_numeral(whole@)
                && numeral::is_numeral(frac@),
            Err(e) => literal_exponent(value@) == Err::<int, ErrorView>(e@),
        },
{
    let v: Vec<char> = text::chars_of(value);
    let t: Vec<char> = text::trimmed(&v);
    let negative: bool = t.len() > 0 && t[0] == '-';
    let start: usize = if t.len() > 0 && (t[0] == '-' || t[0] == '+') {
        1
    } else {
        0
    };
    let body: Vec<char> = text::copy_range(&t, start, t.len());
    assert(body@ =~= unsigned_text(t@));
    let n: usize = body.len();
    let mut k: usize = 0;
    assert(body@.skip(0) =~= body@);
    while k < n && (text::digit(body[k]) || body[k] == '.')
        invariant
            k <= n == body@.len(),
            run_len(body@) == k + run_len(body@.skip(k as int)),
        decreases n - k,
    {
        assert(body@.skip(k as int).drop_first() =~= body@.skip(k + 1));
        k += 1;
    }
    let run: Vec<char> = text::copy_range(&body, 0, k);
    assert(run@ =~= literal_run(value@));
    let tail: Vec<char> = text::copy_range(&body, k, n);
    assert(tail@ =~= literal_tail(value@));
    let (whole, frac) = text::split_point(&run);
    if text::point_index(&frac) < frac.len() {
        return Err(invalid_format("Multiple decimal points"));
    }
    let shift: i32 = match parse_tail(&tail) {
        Err(e) => {
            return Err(e);
        },
        Ok(n) => n,
    };
    proof {
        lemma_literal_numerals(value@);
    }
    Ok((negative, whole, frac, shift))
}

/// Reads a literal: its sign, its digits without leading and trailing zeros, and
/// its exponent.
pub fn parse_decimal(value: &str) -> (r: Result<(bool, Vec<u8>, i32), DecimalError>)
    ensures
        match r {
            Ok((negative, ds, exponent)) => parse_text(value@) == Ok::<Parts, ErrorView>(
                (Parts { negative, digits: ds@, exponent: exponent as int }),
            ),
            Err(e) => parse_text(value@) == Err::<Parts, ErrorView>(e@),
        },
{
    let (negative, whole, frac, shift) = match read_literal(value) {
        Err(e) => {
            return Err(e);
        },
        Ok(parts) => parts,
    };
    proof {
        lemma_literal_numerals(value@);
    }
    assemble_parts(negative, &whole, &frac, shift)
}

/// Encodes the number or the special value that a text denotes.
pub fn encode_decimal(value: &str) -> (r: Result<Vec<u8>, DecimalError>)
    ensures
        match r {
            Ok(b) => encoded_text(value@) == Ok::<Seq<u8>, ErrorView>(b@),
            Err(e) => encoded_text(value@) == Err::<Seq<u8>, ErrorView>(e@),
        },
{
    if let Some(v) = special::parse_special_value(value) {
        return Ok(special::encode_special_value(v));
    }
    let (negative, ds, exponent) = match parse_decimal(value) {
        Err(e) => {
            return Err(e);
        },
        Ok(p) => p,
    };
    proof {
        lemma_parse_wf(value@);
    }
    let mut out: Vec<u8> = Vec::new();
    if ds.len() == 0 {
        out.push(encoding::SIGN_ZERO);
        assert(out@ =~= seq![encoding::SIGN_ZERO]);
        return Ok(out);
    }
    out.push(
        if negative {
            encoding::SIGN_NEGATIVE
        } else {
            encoding::SIGN_POSITIVE
        },
    );
    encoding::encode_exponent(&mut out, exponent, negative);
    encoding::encode_mantissa(&mut out, &ds, negative);
    assert(out@ =~= encoding::encode_parts(
        Parts { negative, digits: ds@, exponent: exponent as int },
    ));
    Ok(out)
}

} // verus!