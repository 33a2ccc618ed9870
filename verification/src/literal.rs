//! Literals as they are written, and what reading them gives: the number that the digits
//! write, in the power of ten that the point and the exponent give it.
use vstd::prelude::*;

use crate::digits;
use crate::error::ErrorView;
use crate::numeral;
use crate::parse;
use crate::special;
use crate::special::SpecialValue;
use crate::text;
use crate::value::Value;

verus! {

/// The exponent of a literal as it is written: the letter, a sign or none, and digits.
pub struct Exponent {
    pub letter: char,
    pub sign: Option<bool>,
    pub digits: Seq<char>,
}

/// A literal as it is written: a sign or none (`true` for minus), digits, a point and
/// digits or none, and an exponent or none.
pub struct Literal {
    pub sign: Option<bool>,
    pub whole: Seq<char>,
    pub point: bool,
    pub frac: Seq<char>,
    pub exponent: Option<Exponent>,
}

/// A sign as it is written.
pub open spec fn sign_text(sign: Option<bool>) -> Seq<char> {
    match sign {
        None => Seq::empty(),
        Some(minus) => if minus {
            seq!['-']
        } else {
            seq!['+']
        },
    }
}

/// `n`, or `-n` behind a minus sign.
pub open spec fn with_sign(minus: bool, n: nat) -> int {
    if minus {
        -(n as int)
    } else {
        n as int
    }
}

impl Exponent {
    /// The letter is an `e` in either case, and there are digits.
    pub open spec fn wf(self) -> bool {
        (self.letter == 'e' || self.letter == 'E') && self.digits.len() > 0 && numeral::is_numeral(
            self.digits,
        )
    }

    /// The exponent as it is written.
    pub open spec fn text(self) -> Seq<char> {
        seq![self.letter] + (sign_text(self.sign) + self.digits)
    }

    /// The exponent as an integer.
    pub open spec fn number(self) -> int {
        with_sign(self.sign == Some(true), numeral::text_number(self.digits))
    }
}

impl Literal {
    /// The digits are digits, and none stand behind a point that is not there.
    pub open spec fn wf(self) -> bool {
        &&& numeral::is_numeral(self.whole)
        &&& numeral::is_numeral(self.frac)
        &&& !self.point ==> self.frac.len() == 0
        &&& self.exponent matches Some(e) ==> e.wf()
    }

    /// The digits and the point.
    pub open spec fn run(self) -> Seq<char> {
        if self.point {
            self.whole + seq!['.'] + self.frac
        } else {
            self.whole
        }
    }

    /// What stands behind the digits.
    pub open spec fn tail(self) -> Seq<char> {
        match self.exponent {
            None => Seq::empty(),
            Some(e) => e.text(),
        }
    }

    /// The literal as it is written.
    pub open spec fn text(self) -> Seq<char> {
        sign_text(self.sign) + (self.run() + self.tail())
    }

    /// There is a minus sign.
    pub open spec fn minus(self) -> bool {
        self.sign == Some(true)
    }

    /// The number that the digits write without the point.
    pub open spec fn number(self) -> nat {
        numeral::text_number(self.whole + self.frac)
    }

    /// The exponent, zero where there is none.
    pub open spec fn shift(self) -> int {
        match self.exponent {
            None => 0,
            Some(e) => e.number(),
        }
    }

    /// The power of ten that the last digit counts.
    pub open spec fn unit(self) -> int {
        self.shift() - self.frac.len()
    }
}

/// Every character is white space.
pub open spec fn blank(s: Seq<char>) -> bool {
    forall|i: int| 0 <= i < s.len() ==> text::is_space(#[trigger] s[i])
}

/// `n` takes `k` digits: none for zero.
pub open spec fn takes_digits(n: nat, k: nat) -> bool {
    if n == 0 {
        k == 0
    } else {
        k > 0 && digits::pow10((k - 1) as nat) <= n < digits::pow10(k)
    }
}

/// The value is the number `n * 10^unit`, with a minus sign where `minus` says so: it
/// counts `n * 10^(unit - u)` in units of `10^u`, for every `u` that divides both.
pub open spec fn denotes(v: Value, minus: bool, n: nat, unit: int) -> bool {
    v matches Value::Finite(p) && p.wf() && (if n == 0 {
        p.digits.len() == 0 && !p.negative
    } else {
        p.digits.len() > 0 && unit <= p.unit() && p.negative == minus && forall|u: int|
            u <= unit ==> #[trigger] p.scaled(u) == with_sign(
                minus,
                n * digits::pow10((unit - u) as nat),
            )
    })
}

/// The number `n * 10^unit`, where its first digit stands from 131072 places before the
/// point to 16383 places behind it; the error where it does not.
pub open spec fn reads_as(
    r: Result<Value, ErrorView>,
    minus: bool,
    n: nat,
    unit: int,
    k: nat,
) -> bool {
    if n == 0 || -16383 <= k + unit <= 131072 {
        r matches Ok(v) && denotes(v, minus, n, unit)
    } else {
        r == Err::<Value, ErrorView>(ErrorView::PrecisionOverflow)
    }
}

// ==================== White space ====================

proof fn lemma_trim_start(a: Seq<char>, t: Seq<char>)
    requires
        blank(a),
        t.len() == 0 || !text::is_space(t[0]),
    ensures
        text::trim_start(a + t) == t,
    decreases a.len(),
{
    if a.len() == 0 {
        assert(a + t =~= t);
    } else {
        assert(text::is_space(a[0]));
        assert((a + t)[0] == a[0]);
        assert((a + t).drop_first() =~= a.drop_first() + t);
        assert forall|i: int| 0 <= i < a.drop_first().len() implies text::is_space(
            #[trigger] a.drop_first()[i],
        ) by {
            assert(text::is_space(a[i + 1]));
        }
        lemma_trim_start(a.drop_first(), t);
    }
}

proof fn lemma_trim_end(t: Seq<char>, c: Seq<char>)
    requires
        blank(c),
        t.len() == 0 || !text::is_space(t.last()),
    ensures
        text::trim_end(t + c) == t,
    decreases c.len(),
{
    if c.len() == 0 {
        assert(t + c =~= t);
    } else {
        assert(text::is_space(c[c.len() - 1]));
        assert((t + c).last() == c.last());
        assert((t + c).drop_last() =~= t + c.drop_last());
        assert forall|i: int| 0 <= i < c.drop_last().len() implies text::is_space(
            #[trigger] c.drop_last()[i],
        ) by {
            assert(text::is_space(c[i]));
        }
        lemma_trim_end(t, c.drop_last());
    }
}

/// White space around a text that has none at its ends is all that trimming removes.
pub proof fn law_trim(a: Seq<char>, t: Seq<char>, c: Seq<char>)
    requires
        blank(a),
        blank(c),
        t.len() > 0 ==> !text::is_space(t[0]) && !text::is_space(t.last()),
    ensures
        text::trim(a + t + c) == t,
{
    if t.len() > 0 {
        assert(a + t + c =~= a + (t + c));
        assert((t + c)[0] == t[0]);
        lemma_trim_start(a, t + c);
        lemma_trim_end(t, c);
    } else {
        let b = a + c;
        assert(a + t + c =~= b + t);
        assert forall|i: int| 0 <= i < b.len() implies text::is_space(#[trigger] b[i]) by {
            if i < a.len() {
                assert(text::is_space(a[i]));
            } else {
                assert(text::is_space(c[i - a.len()]));
            }
        }
        lemma_trim_start(b, t);
    }
}

/// White space is tabs, line ends and separators: the characters that Unicode names so.
pub proof fn law_white_space(c: char)
    ensures
        text::is_space(c) <==> ({
            let n = c as u32;
            9 <= n <= 13 || n == 32 || n == 133 || n == 160 || n == 5760 || 8192 <= n <= 8202 || n
                == 8232 || n == 8233 || n == 8239 || n == 8287 || n == 12288
        }),
{
}

// ==================== Where the pieces are ====================

/// The text in front of a character that ends it is found as the run.
proof fn lemma_run_of(run: Seq<char>, tail: Seq<char>)
    requires
        forall|i: int| 0 <= i < run.len() ==> text::is_digit(#[trigger] run[i]) || run[i] == '.',
        tail.len() > 0 ==> !text::is_digit(tail[0]) && tail[0] != '.',
    ensures
        parse::run_len(run + tail) == run.len(),
{
    let s = run + tail;
    let k = parse::run_len(s);
    parse::lemma_run(s);
    if k < run.len() {
        assert(s[k as int] == run[k as int]);
    } else if k > run.len() {
        assert(s[run.len() as int] == tail[0]);
    }
}

/// The pieces of a text that starts as a literal does, with any tail behind its digits.
pub proof fn lemma_pieces(
    a: Seq<char>,
    sign: Option<bool>,
    run: Seq<char>,
    tail: Seq<char>,
    c: Seq<char>,
)
    requires
        blank(a),
        blank(c),
        forall|i: int| 0 <= i < run.len() ==> text::is_digit(#[trigger] run[i]) || run[i] == '.',
        tail.len() > 0 ==> !text::is_digit(tail[0]) && tail[0] != '.' && !text::is_space(
            tail.last(),
        ),
        run.len() == 0 && tail.len() > 0 ==> !text::is_space(tail[0]) && (sign is None ==> tail[0]
            != '-' && tail[0] != '+'),
    ensures
        ({
            let t = sign_text(sign) + (run + tail);
            let s = a + t + c;
            &&& text::trim(s) == t
            &&& parse::literal_negative(s) == (sign == Some(true))
            &&& parse::unsigned_text(t) == run + tail
            &&& parse::literal_run(s) == run
            &&& parse::literal_tail(s) == tail
        }),
{
    let g = sign_text(sign);
    let body = run + tail;
    let t = g + body;
    let s = a + t + c;
    if run.len() > 0 {
        assert(text::is_digit(run[0]) || run[0] == '.');
        assert(text::is_digit(run[run.len() - 1]) || run[run.len() - 1] == '.');
        assert(body[0] == run[0]);
    } else if tail.len() > 0 {
        assert(body[0] == tail[0]);
    }
    if body.len() > 0 {
        assert(t.last() == body.last());
        assert(body.last() == if tail.len() > 0 {
            tail.last()
        } else {
            run.last()
        });
        assert(t[g.len() as int] == body[0]);
    }
    law_trim(a, t, c);
    assert(parse::unsigned_text(t) =~= body);
    lemma_run_of(run, tail);
    assert(body.take(run.len() as int) =~= run);
    assert(body.skip(run.len() as int) =~= tail);
}

/// A text names no special value where its first character, but for a sign, is neither
/// an `i` nor an `n`.
#[verifier::rlimit(40)]
pub proof fn lemma_no_name(s: Seq<char>)
    requires
        ({
            let body = parse::unsigned_text(text::trim(s));
            body.len() > 0 ==> text::lower(body[0]) != 'i' && text::lower(body[0]) != 'n'
        }),
    ensures
        special::special_of_text(s) is None,
{
    let t = text::trim(s);
    let l = text::lower_text(t);
    let body = parse::unsigned_text(t);
    assert(l.len() == t.len());
    if body.len() > 0 {
        if t.len() == body.len() {
            assert(l[0] == text::lower(body[0]));
        } else {
            assert(t[1] == body[0]);
            assert(l[1] == text::lower(body[0]));
            assert(l[0] == t[0]);
        }
    }
    reveal_strlit("infinity");
    reveal_strlit("inf");
    reveal_strlit("+infinity");
    reveal_strlit("+inf");
    reveal_strlit("-infinity");
    reveal_strlit("-inf");
    reveal_strlit("nan");
    reveal_strlit("-nan");
    reveal_strlit("+nan");
    assert("infinity"@.len() > 1 && "inf"@.len() > 1 && "+infinity"@.len() > 1 && "+inf"@.len()
        > 1 && "-infinity"@.len() > 1 && "-inf"@.len() > 1 && "nan"@.len() > 1 && "-nan"@.len() > 1
        && "+nan"@.len() > 1);
    assert("infinity"@[0] == 'i' && "inf"@[0] == 'i' && "nan"@[0] == 'n');
    assert("+infinity"@[0] == '+' && "+infinity"@[1] == 'i');
    assert("+inf"@[0] == '+' && "+inf"@[1] == 'i');
    assert("-infinity"@[0] == '-' && "-infinity"@[1] == 'i');
    assert("-inf"@[0] == '-' && "-inf"@[1] == 'i');
    assert("-nan"@[0] == '-' && "-nan"@[1] == 'n');
    assert("+nan"@[0] == '+' && "+nan"@[1] == 'n');
}

/// An integer is read from its digits behind a sign or none.
pub proof fn lemma_signed(sign: Option<bool>, ds: Seq<char>)
    requires
        numeral::is_numeral(ds),
        ds.len() > 0,
    ensures
        numeral::signed_value(sign_text(sign) + ds) == Some(
            with_sign(sign == Some(true), numeral::text_number(ds)),
        ),
{
    let s = sign_text(sign) + ds;
    assert(text::is_digit(ds[0]));
    match sign {
        None => {
            assert(s =~= ds);
        },
        Some(_) => {
            assert(s.skip(1) =~= ds);
        },
    }
}

/// The digits of a literal and its point, and where the point is.
pub proof fn lemma_digits_and_point(l: Literal)
    requires
        l.wf(),
    ensures
        forall|i: int|
            0 <= i < l.run().len() ==> text::is_digit(#[trigger] l.run()[i]) || l.run()[i] == '.',
        text::before_point(l.run()) == l.whole,
        text::after_point(l.run()) == l.frac,
        text::point(l.frac) == l.frac.len(),
{
    let run = l.run();
    assert forall|i: int| 0 <= i < run.len() implies text::is_digit(#[trigger] run[i]) || run[i]
        == '.' by {
        if i < l.whole.len() {
            assert(run[i] == l.whole[i]);
        } else if i > l.whole.len() {
            assert(run[i] == l.frac[i - l.whole.len() - 1]);
        }
    }
    text::lemma_point(run);
    let p = text::point(run);
    if l.point {
        assert(run[l.whole.len() as int] == '.');
        if p < l.whole.len() {
            assert(text::is_digit(l.whole[p as int]));
            assert(run[p as int] == l.whole[p as int]);
        }
    } else if p < run.len() {
        assert(text::is_digit(l.whole[p as int]));
    }
    assert(p == l.whole.len());
    assert(text::before_point(run) =~= l.whole);
    assert(text::after_point(run) =~= l.frac);
    text::lemma_point(l.frac);
    if text::point(l.frac) < l.frac.len() {
        assert(text::is_digit(l.frac[text::point(l.frac) as int]));
    }
}

/// The pieces of a literal, and its exponent.
#[verifier::rlimit(40)]
pub proof fn lemma_literal(a: Seq<char>, l: Literal, c: Seq<char>)
    requires
        blank(a),
        blank(c),
        l.wf(),
    ensures
        ({
            let s = a + l.text() + c;
            &&& text::trim(s) == l.text()
            &&& special::special_of_text(s) is None
            &&& parse::literal_negative(s) == l.minus()
            &&& parse::unsigned_text(l.text()) == l.run() + l.tail()
            &&& parse::literal_run(s) == l.run()
            &&& parse::literal_tail(s) == l.tail()
            &&& text::before_point(l.run()) == l.whole
            &&& text::after_point(l.run()) == l.frac
            &&& text::point(l.frac) == l.frac.len()
            &&& parse::literal_exponent(s) == (if -0x8000_0000 <= l.shift() <= 0x7FFF_FFFF {
                Ok::<int, ErrorView>(l.shift())
            } else {
                Err(ErrorView::PrecisionOverflow)
            })
        }),
{
    let s = a + l.text() + c;
    let run = l.run();
    let tail = l.tail();
    lemma_digits_and_point(l);
    if let Some(e) = l.exponent {
        assert(tail[0] == e.letter);
        assert(tail.last() == e.digits.last());
        assert(text::is_digit(e.digits[e.digits.len() - 1]));
        assert(tail.skip(1) =~= sign_text(e.sign) + e.digits);
        lemma_signed(e.sign, e.digits);
    }
    lemma_pieces(a, l.sign, run, tail, c);
    let body = run + tail;
    if body.len() > 0 {
        if run.len() > 0 {
            assert(body[0] == run[0]);
        } else {
            assert(body[0] == tail[0]);
        }
    }
    lemma_no_name(s);
}

// ==================== The number of a literal ====================

/// The parts that digits are assembled to are those of the number that they write.
#[verifier::rlimit(40)]
pub proof fn lemma_assembled(minus: bool, w: Seq<char>, f: Seq<char>, shift: int, k: nat)
    requires
        numeral::is_numeral(w),
        numeral::is_numeral(f),
        takes_digits(numeral::text_number(w + f), k),
    ensures
        ({
            let n = numeral::text_number(w + f);
            match parse::assemble(minus, w, f, shift) {
                Ok(p) => reads_as(
                    Ok::<Value, ErrorView>(Value::Finite(p)),
                    minus,
                    n,
                    shift - f.len(),
                    k,
                ),
                Err(e) => reads_as(Err::<Value, ErrorView>(e), minus, n, shift - f.len(), k),
            }
        }),
{
    let all = w + f;
    let n = numeral::text_number(all);
    let unit = shift - f.len();
    let ds = numeral::values(all);
    let lead = digits::strip_leading(ds);
    let core = digits::strip_trailing(lead);
    assert forall|i: int| 0 <= i < all.len() implies text::is_digit(#[trigger] all[i]) by {
        if i < w.len() {
            assert(text::is_digit(w[i]));
        } else {
            assert(text::is_digit(f[i - w.len()]));
        }
    }
    numeral::lemma_values(all);
    digits::lemma_strip_leading(ds);
    digits::lemma_strip_trailing(lead);
    parse::lemma_assemble(minus, w, f, shift);
    if lead.len() > 0 {
        lemma_digit_count(lead, k);
        let e = (lead.len() - core.len()) as nat;
        if let Ok(p) = parse::assemble(minus, w, f, shift) {
            let m = digits::number(core);
            assert(p.unit() == unit + e);
            assert(p.digits == core);
            assert(core.len() > 0) by {
                if core.len() == 0 {
                    assert(lead[0] == digits::zero_digits(lead.len())[0]);
                }
            }
            assert forall|u: int| u <= unit implies #[trigger] p.scaled(u) == with_sign(
                minus,
                n * digits::pow10((unit - u) as nat),
            ) by {
                let x = digits::pow10(e);
                let y = digits::pow10((unit - u) as nat);
                digits::lemma_pow10_add(e, (unit - u) as nat);
                assert(e + (unit - u) as nat == (p.unit() - u) as nat);
                assert((m * x) * y == m * (x * y)) by (nonlinear_arith);
            }
        }
    }
}

/// Digits without a leading zero take as many digits as there are.
proof fn lemma_digit_count(ds: Seq<u8>, k: nat)
    requires
        digits::all_digits(ds),
        ds.len() > 0,
        ds[0] != 0,
        takes_digits(digits::number(ds), k),
    ensures
        k == ds.len(),
{
    digits::lemma_number_lower(ds);
    digits::lemma_number_bound(ds);
    digits::lemma_pow10_pos((ds.len() - 1) as nat);
    if k < ds.len() {
        digits::lemma_pow10_mono(k, (ds.len() - 1) as nat);
    } else if k > ds.len() {
        digits::lemma_pow10_mono(ds.len(), (k - 1) as nat);
    }
}

/// Reading a literal, with white space around it or none, gives the number that its digits
/// write, in the power of ten that its point and its exponent give it, with its sign. It
/// is an overflow where the first digit is out of range, and also where the exponent is
/// beyond 32 bits.
pub proof fn law_literal_number(a: Seq<char>, l: Literal, c: Seq<char>, k: nat)
    requires
        blank(a),
        blank(c),
        l.wf(),
        takes_digits(l.number(), k),
    ensures
        if -0x8000_0000 <= l.shift() <= 0x7FFF_FFFF {
            reads_as(parse::parse_value(a + l.text() + c), l.minus(), l.number(), l.unit(), k)
        } else {
            parse::parse_value(a + l.text() + c) == Err::<Value, ErrorView>(
                ErrorView::PrecisionOverflow,
            )
        },
{
    lemma_literal(a, l, c);
    lemma_assembled(l.minus(), l.whole, l.frac, l.shift(), k);
}

/// The text of an integer behind an `e`, also with a plus sign before a natural number, is
/// the exponent of the literal.
pub proof fn law_exponent(a: Seq<char>, l: Literal, c: Seq<char>, n: int, letter: char, k: nat)
    requires
        blank(a),
        blank(c),
        l.wf(),
        l.exponent is None,
        letter == 'e' || letter == 'E',
        -0x8000_0000 <= n <= 0x7FFF_FFFF,
        takes_digits(l.number(), k),
    ensures
        reads_as(
            parse::parse_value(a + (l.text() + (seq![letter] + numeral::int_text(n))) + c),
            l.minus(),
            l.number(),
            n - l.frac.len(),
            k,
        ),
        n >= 0 ==> reads_as(
            parse::parse_value(
                a + (l.text() + (seq![letter] + (seq!['+'] + numeral::int_text(n)))) + c,
            ),
            l.minus(),
            l.number(),
            n - l.frac.len(),
            k,
        ),
{
    let ds = numeral::nat_text((if n < 0 { -n } else { n }) as nat);
    numeral::lemma_nat_text((if n < 0 { -n } else { n }) as nat);
    let none: Option<bool> = None;
    let sign = if n < 0 {
        Some(true)
    } else {
        none
    };
    let e = Exponent { letter, sign, digits: ds };
    let m = Literal {
        sign: l.sign,
        whole: l.whole,
        point: l.point,
        frac: l.frac,
        exponent: Some(e),
    };
    assert(m.text() =~= l.text() + (seq![letter] + numeral::int_text(n)));
    law_literal_number(a, m, c, k);
    if n >= 0 {
        let e2 = Exponent { letter, sign: Some(false), digits: ds };
        let m2 = Literal {
            sign: l.sign,
            whole: l.whole,
            point: l.point,
            frac: l.frac,
            exponent: Some(e2),
        };
        assert(m2.text() =~= l.text() + (seq![letter] + (seq!['+'] + numeral::int_text(n))));
        law_literal_number(a, m2, c, k);
    }
}

// ==================== Texts that are no literals ====================

/// The text is an integer: digits behind a sign or none.
pub open spec fn is_integer(t: Seq<char>) -> bool {
    let ds = if t.len() > 0 && (t[0] == '-' || t[0] == '+') {
        t.skip(1)
    } else {
        t
    };
    ds.len() > 0 && numeral::is_numeral(ds)
}

/// A text is refused for the first character behind its digits that is no `e`.
pub proof fn law_character_refused(a: Seq<char>, l: Literal, x: char, rest: Seq<char>, c: Seq<char>)
    requires
        blank(a),
        blank(c),
        l.wf(),
        l.exponent is None,
        !text::is_digit(x) && x != '.' && x != 'e' && x != 'E' && !text::is_space(x),
        rest.len() > 0 ==> !text::is_space(rest.last()),
        l.run().len() == 0 ==> text::lower(x) != 'i' && text::lower(x) != 'n' && (l.sign is None
            ==> x != '-' && x != '+'),
    ensures
        parse::parse_value(a + (l.text() + (seq![x] + rest)) + c) == Err::<Value, ErrorView>(
            ErrorView::InvalidFormat("Invalid character: "@.push(x)),
        ),
{
    lemma_tail(a, l, seq![x] + rest, c);
}

/// The pieces of a literal with another tail behind its digits.
#[verifier::rlimit(40)]
proof fn lemma_tail(a: Seq<char>, l: Literal, tail: Seq<char>, c: Seq<char>)
    requires
        blank(a),
        blank(c),
        l.wf(),
        l.exponent is None,
        tail.len() > 0,
        !text::is_digit(tail[0]) && tail[0] != '.',
        !text::is_space(tail.last()),
        l.run().len() == 0 ==> !text::is_space(tail[0]) && text::lower(tail[0]) != 'i'
            && text::lower(tail[0]) != 'n' && (l.sign is None ==> tail[0] != '-' && tail[0] != '+'),
    ensures
        ({
            let s = a + (l.text() + tail) + c;
            &&& special::special_of_text(s) is None
            &&& parse::literal_exponent(s) == parse::tail_exponent(tail)
        }),
{
    let s = a + (l.text() + tail) + c;
    let run = l.run();
    lemma_digits_and_point(l);
    lemma_with_tail(l, tail);
    lemma_pieces(a, l.sign, run, tail, c);
    let body = run + tail;
    if run.len() > 0 {
        assert(body[0] == run[0]);
    } else {
        assert(body[0] == tail[0]);
    }
    lemma_no_name(s);
}

/// A literal with more behind its digits.
proof fn lemma_with_tail(l: Literal, tail: Seq<char>)
    requires
        l.exponent is None,
    ensures
        l.text() + tail == sign_text(l.sign) + (l.run() + tail),
{
    assert(l.text() + tail =~= sign_text(l.sign) + (l.run() + tail));
}

/// A literal that ends with the letter of an exponent is refused.
pub proof fn law_missing_exponent(a: Seq<char>, l: Literal, letter: char, c: Seq<char>)
    requires
        blank(a),
        blank(c),
        l.wf(),
        l.exponent is None,
        letter == 'e' || letter == 'E',
    ensures
        parse::parse_value(a + l.text().push(letter) + c) == Err::<Value, ErrorView>(
            ErrorView::InvalidFormat("Missing exponent after 'e'"@),
        ),
{
    assert(l.text().push(letter) =~= l.text() + seq![letter]);
    lemma_tail(a, l, seq![letter], c);
}

/// A literal whose exponent is no integer is refused.
pub proof fn law_exponent_refused(
    a: Seq<char>,
    l: Literal,
    letter: char,
    t: Seq<char>,
    c: Seq<char>,
)
    requires
        blank(a),
        blank(c),
        l.wf(),
        l.exponent is None,
        letter == 'e' || letter == 'E',
        t.len() > 0,
        !text::is_space(t.last()),
        !is_integer(t),
    ensures
        parse::parse_value(a + (l.text() + (seq![letter] + t)) + c) == Err::<Value, ErrorView>(
            ErrorView::InvalidFormat("Invalid exponent: "@ + t),
        ),
{
    let tail = seq![letter] + t;
    lemma_tail(a, l, tail, c);
    assert(tail.skip(1) =~= t);
}

/// A text with two points among its first digits is refused, whatever follows.
#[verifier::rlimit(40)]
pub proof fn law_second_point_refused(
    a: Seq<char>,
    l: Literal,
    more: Seq<char>,
    tail: Seq<char>,
    c: Seq<char>,
)
    requires
        blank(a),
        blank(c),
        l.wf(),
        l.exponent is None,
        l.point,
        forall|i: int| 0 <= i < more.len() ==> text::is_digit(#[trigger] more[i]) || more[i] == '.',
        tail.len() > 0 ==> !text::is_digit(tail[0]) && tail[0] != '.' && !text::is_space(
            tail.last(),
        ),
    ensures
        parse::parse_value(a + (l.text() + (seq!['.'] + (more + tail))) + c) == Err::<
            Value,
            ErrorView,
        >(ErrorView::InvalidFormat("Multiple decimal points"@)),
{
    let s = a + (l.text() + (seq!['.'] + (more + tail))) + c;
    let run = l.run() + (seq!['.'] + more);
    lemma_two_points(l, more);
    lemma_with_tail(l, seq!['.'] + (more + tail));
    lemma_pieces(a, l.sign, run, tail, c);
    assert(l.run() + (seq!['.'] + (more + tail)) =~= run + tail);
    assert((run + tail)[0] == run[0]);
    lemma_no_name(s);
}

/// Digits with two points.
proof fn lemma_two_points(l: Literal, more: Seq<char>)
    requires
        l.wf(),
        l.point,
        forall|i: int| 0 <= i < more.len() ==> text::is_digit(#[trigger] more[i]) || more[i] == '.',
    ensures
        ({
            let run = l.run() + (seq!['.'] + more);
            let frac = text::after_point(run);
            &&& run.len() > 0
            &&& forall|i: int|
                0 <= i < run.len() ==> text::is_digit(#[trigger] run[i]) || run[i] == '.'
            &&& text::point(frac) < frac.len()
        }),
{
    let run = l.run() + (seq!['.'] + more);
    lemma_digits_and_point(l);
    assert forall|i: int| 0 <= i < run.len() implies text::is_digit(#[trigger] run[i]) || run[i]
        == '.' by {
        let n = l.run().len();
        if i < n {
            assert(run[i] == l.run()[i]);
        } else if i > n {
            assert(run[i] == more[i - n - 1]);
        }
    }
    text::lemma_point(run);
    let p = text::point(run);
    assert(run[l.whole.len() as int] == '.');
    if p < l.whole.len() {
        assert(text::is_digit(l.whole[p as int]));
        assert(run[p as int] == l.whole[p as int]);
    }
    let frac = text::after_point(run);
    assert(frac =~= l.frac + (seq!['.'] + more));
    text::lemma_point(frac);
    assert(frac[l.frac.len() as int] == '.');
}

// ==================== Special names ====================

/// The text is the name, in any case of letters.
pub open spec fn is_name(t: Seq<char>, name: Seq<char>) -> bool {
    t.len() == name.len() && forall|i: int|
        0 <= i < t.len() ==> #[trigger] t[i] == name[i] || ('a' <= name[i] <= 'z' && t[i] as u32 + 32
            == name[i] as u32)
}

proof fn lemma_name(t: Seq<char>, name: Seq<char>)
    requires
        forall|i: int| 0 <= i < name.len() ==> !('A' <= #[trigger] name[i] <= 'Z'),
    ensures
        text::lower_text(t) == name <==> is_name(t, name),
{
    let l = text::lower_text(t);
    assert(l.len() == t.len());
    if l == name {
        assert forall|i: int| 0 <= i < t.len() implies #[trigger] t[i] == name[i] || ('a' <= name[i]
            <= 'z' && t[i] as u32 + 32 == name[i] as u32) by {
            assert(l[i] == text::lower(t[i]));
        }
    }
    if is_name(t, name) {
        assert forall|i: int| 0 <= i < t.len() implies l[i] == name[i] by {
            assert(t[i] == name[i] || ('a' <= name[i] <= 'z' && t[i] as u32 + 32 == name[i] as u32));
            assert(l[i] == text::lower(t[i]));
        }
        assert(l =~= name);
    }
}

/// The special values are read from their names in any case of letters, with white space
/// around them or none, and from no other text.
#[verifier::rlimit(40)]
pub proof fn law_special_name(s: Seq<char>)
    ensures
        parse::parse_value(s) == Ok::<Value, ErrorView>(
            Value::Special(SpecialValue::Infinity),
        ) <==> ({
            let t = text::trim(s);
            is_name(t, "infinity"@) || is_name(t, "inf"@) || is_name(t, "+infinity"@) || is_name(
                t,
                "+inf"@,
            )
        }),
        parse::parse_value(s) == Ok::<Value, ErrorView>(
            Value::Special(SpecialValue::NegInfinity),
        ) <==> ({
            let t = text::trim(s);
            is_name(t, "-infinity"@) || is_name(t, "-inf"@)
        }),
        parse::parse_value(s) == Ok::<Value, ErrorView>(Value::Special(SpecialValue::NaN)) <==> ({
            let t = text::trim(s);
            is_name(t, "nan"@) || is_name(t, "+nan"@) || is_name(t, "-nan"@)
        }),
        special::special_of_text(s) matches Some(v) ==> parse::parse_value(s) == Ok::<
            Value,
            ErrorView,
        >(Value::Special(v)),
        parse::parse_value(s) matches Ok(Value::Special(v)) ==> special::special_of_text(s) == Some(
            v,
        ),
{
    let t = text::trim(s);
    reveal_strlit("infinity");
    reveal_strlit("inf");
    reveal_strlit("+infinity");
    reveal_strlit("+inf");
    reveal_strlit("-infinity");
    reveal_strlit("-inf");
    reveal_strlit("nan");
    reveal_strlit("-nan");
    reveal_strlit("+nan");
    lemma_name(t, "infinity"@);
    lemma_name(t, "inf"@);
    lemma_name(t, "+infinity"@);
    lemma_name(t, "+inf"@);
    lemma_name(t, "-infinity"@);
    lemma_name(t, "-inf"@);
    lemma_name(t, "nan"@);
    lemma_name(t, "+nan"@);
    lemma_name(t, "-nan"@);
    assert("infinity"@[0] == 'i' && "inf"@[0] == 'i' && "nan"@[0] == 'n' && "+infinity"@[0] == '+'
        && "+inf"@[0] == '+' && "-infinity"@[0] == '-' && "-inf"@[0] == '-' && "-nan"@[0] == '-'
        && "+nan"@[0] == '+');
    assert("+infinity"@[1] == 'i' && "+inf"@[1] == 'i' && "-infinity"@[1] == 'i' && "-inf"@[1]
        == 'i' && "-nan"@[1] == 'n' && "+nan"@[1] == 'n');
}

} // verus!
