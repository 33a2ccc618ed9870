//! Decimal numerals: the notation of integers, reading it back, and adding one
//! to it.
use vstd::prelude::*;

use crate::digits;
use crate::text;

verus! {

/// Every character is an ASCII digit.
pub open spec fn is_numeral(s: Seq<char>) -> bool {
    forall|i: int| 0 <= i < s.len() ==> text::is_digit(#[trigger] s[i])
}

/// The digit values of a numeral.
pub open spec fn values(s: Seq<char>) -> Seq<u8> {
    s.map_values(|c: char| text::digit_value(c))
}

/// The numeral with the given digit values.
pub open spec fn numeral(ds: Seq<u8>) -> Seq<char> {
    ds.map_values(|d: u8| text::digit_char(d))
}

/// The number that a numeral denotes.
pub open spec fn text_number(s: Seq<char>) -> nat {
    digits::number(values(s))
}

/// The shortest numeral of a natural number.
pub open spec fn nat_text(n: nat) -> Seq<char>
    decreases n,
{
    if n < 10 {
        seq![text::digit_char(n as u8)]
    } else {
        nat_text(n / 10).push(text::digit_char((n % 10) as u8))
    }
}

/// The shortest numeral of an integer, with a `-` before a negative one.
pub open spec fn int_text(n: int) -> Seq<char> {
    if n < 0 {
        seq!['-'] + nat_text((-n) as nat)
    } else {
        nat_text(n as nat)
    }
}

/// The natural number written as digits, with a `+` before them or without.
pub open spec fn unsigned_value(s: Seq<char>) -> Option<nat> {
    let t = if s.len() > 0 && s[0] == '+' {
        s.skip(1)
    } else {
        s
    };
    if t.len() > 0 && is_numeral(t) {
        Some(text_number(t))
    } else {
        None
    }
}

/// The integer written as digits, with a sign before them or without.
pub open spec fn signed_value(s: Seq<char>) -> Option<int> {
    if s.len() > 0 && s[0] == '-' {
        if s.len() > 1 && is_numeral(s.skip(1)) {
            Some(-(text_number(s.skip(1)) as int))
        } else {
            None
        }
    } else {
        match unsigned_value(s) {
            Some(n) => Some(n as int),
            None => None,
        }
    }
}

/// The numeral of the next greater number: trailing nines become zeros and the
/// digit before them goes up by one, or a one comes before them. `None` where
/// that digit is no digit.
pub open spec fn increment(s: Seq<char>) -> Option<Seq<char>>
    decreases s.len(),
{
    if s.len() == 0 {
        Some(seq!['1'])
    } else if s.last() == '9' {
        match increment(s.drop_last()) {
            Some(t) => Some(t.push('0')),
            None => None,
        }
    } else if text::is_digit(s.last()) {
        Some(s.drop_last().push(text::digit_char((text::digit_value(s.last()) + 1) as u8)))
    } else {
        None
    }
}

// ==================== Lemmas ====================

pub proof fn lemma_values(s: Seq<char>)
    requires
        is_numeral(s),
    ensures
        digits::all_digits(values(s)),
        values(s).len() == s.len(),
        numeral(values(s)) == s,
{
    assert forall|i: int| 0 <= i < s.len() implies #[trigger] values(s)[i] <= 9 by {
        assert(text::is_digit(s[i]));
    }
    assert forall|i: int| 0 <= i < s.len() implies numeral(values(s))[i] == s[i] by {
        assert(text::is_digit(s[i]));
    }
    assert(numeral(values(s)) =~= s);
}

pub proof fn lemma_numeral(ds: Seq<u8>)
    requires
        digits::all_digits(ds),
    ensures
        is_numeral(numeral(ds)),
        numeral(ds).len() == ds.len(),
        values(numeral(ds)) == ds,
{
    assert forall|i: int| 0 <= i < ds.len() implies text::is_digit(#[trigger] numeral(ds)[i]) by {
        assert(ds[i] <= 9);
    }
    assert forall|i: int| 0 <= i < ds.len() implies values(numeral(ds))[i] == ds[i] by {
        assert(ds[i] <= 9);
    }
    assert(values(numeral(ds)) =~= ds);
}

pub proof fn lemma_values_push(s: Seq<char>, c: char)
    ensures
        values(s.push(c)) == values(s).push(text::digit_value(c)),
        text_number(s.push(c)) == text_number(s) * 10 + text::digit_value(c) as nat,
{
    assert(values(s.push(c)) =~= values(s).push(text::digit_value(c)));
    digits::lemma_number_push(values(s), text::digit_value(c));
}

pub proof fn lemma_values_concat(a: Seq<char>, b: Seq<char>)
    ensures
        values(a + b) == values(a) + values(b),
{
    assert(values(a + b) =~= values(a) + values(b));
}

pub proof fn lemma_values_zeros(n: nat)
    ensures
        values(text::zeros(n)) == digits::zero_digits(n),
        numeral(digits::zero_digits(n)) == text::zeros(n),
        is_numeral(text::zeros(n)),
{
    assert(values(text::zeros(n)) =~= digits::zero_digits(n));
    assert(numeral(digits::zero_digits(n)) =~= text::zeros(n));
}

/// The numeral of `n` is read back as `n`, has no sign, and has a leading zero
/// only for zero.
pub proof fn lemma_nat_text(n: nat)
    ensures
        nat_text(n).len() > 0,
        is_numeral(nat_text(n)),
        text_number(nat_text(n)) == n,
        n > 0 ==> nat_text(n)[0] != '0',
    decreases n,
{
    let e = Seq::<char>::empty();
    if n < 10 {
        assert(nat_text(n) =~= e.push(text::digit_char(n as u8)));
        lemma_values_push(e, text::digit_char(n as u8));
        assert(values(e) =~= Seq::<u8>::empty());
    } else {
        let m = n / 10;
        lemma_nat_text(m);
        let c = text::digit_char((n % 10) as u8);
        lemma_values_push(nat_text(m), c);
        assert(nat_text(n)[0] == nat_text(m)[0]);
    }
}

/// A number below `10^k` takes at most `k` digits.
pub proof fn lemma_nat_text_len(n: nat, k: nat)
    requires
        n > 0,
    ensures
        n < digits::pow10(k) ==> nat_text(n).len() <= k,
{
    let t = nat_text(n);
    lemma_nat_text(n);
    lemma_values(t);
    let vs = values(t);
    assert(text::is_digit(t[0]));
    assert(vs[0] != 0);
    digits::lemma_number_lower(vs);
    if t.len() > k {
        digits::lemma_pow10_mono(k, (t.len() - 1) as nat);
    }
}

/// Adding one to a numeral gives a numeral of the next number. It grows by one
/// digit exactly where all digits are nines.
pub proof fn lemma_increment(s: Seq<char>)
    requires
        is_numeral(s),
    ensures
        increment(s) matches Some(t) && is_numeral(t) && text_number(t) == text_number(s) + 1 && (
        t.len() == s.len() || (t.len() == s.len() + 1 && t == seq!['1'] + text::zeros(s.len()))),
    decreases s.len(),
{
    let e = Seq::<char>::empty();
    if s.len() == 0 {
        assert(seq!['1'] =~= e.push('1'));
        lemma_values_push(e, '1');
        assert(values(e) =~= Seq::<u8>::empty());
        assert(values(s) =~= Seq::<u8>::empty());
        assert(seq!['1'] + text::zeros(0) =~= seq!['1']);
    } else {
        let r = s.drop_last();
        let c = s.last();
        assert(s == r.push(c));
        assert(is_numeral(r)) by {
            assert forall|i: int| 0 <= i < r.len() implies text::is_digit(#[trigger] r[i]) by {
                assert(r[i] == s[i]);
            }
        }
        assert(text::is_digit(s[s.len() - 1]));
        lemma_values_push(r, c);
        if c == '9' {
            lemma_increment(r);
            let t = increment(r)->0;
            lemma_values_push(t, '0');
            if t.len() == r.len() + 1 {
                assert(t.push('0') =~= seq!['1'] + text::zeros(s.len()));
            }
        } else {
            lemma_values_push(r, text::digit_char((text::digit_value(c) + 1) as u8));
        }
    }
}

/// A numeral without leading zeros takes as few digits as its number needs.
pub proof fn lemma_skip_zeros(s: Seq<char>)
    ensures
        text::skip_zeros(s).len() <= s.len(),
        s == text::zeros((s.len() - text::skip_zeros(s).len()) as nat) + text::skip_zeros(s),
        text::skip_zeros(s) == s.skip(s.len() - text::skip_zeros(s).len()),
        text::skip_zeros(s).len() > 0 ==> text::skip_zeros(s)[0] != '0',
        is_numeral(s) ==> is_numeral(text::skip_zeros(s)) && text_number(text::skip_zeros(s))
            == text_number(s) && values(text::skip_zeros(s)) == digits::strip_leading(values(s)),
    decreases s.len(),
{
    if s.len() > 0 && s[0] == '0' {
        let t = s.drop_first();
        lemma_skip_zeros(t);
        let k = (t.len() - text::skip_zeros(t).len()) as nat;
        assert(text::zeros(k + 1) =~= seq!['0'] + text::zeros(k));
        assert(s =~= seq!['0'] + t);
        assert(s =~= text::zeros(k + 1) + text::skip_zeros(s));
        if is_numeral(s) {
            assert forall|i: int| 0 <= i < t.len() implies text::is_digit(#[trigger] t[i]) by {
                assert(t[i] == s[i + 1]);
            }
            assert(values(t) =~= values(s).drop_first());
            assert(values(s)[0] == 0);
            digits::lemma_strip_leading(values(s));
            digits::lemma_strip_leading(values(t));
        }
    } else {
        assert(text::zeros(0) + s =~= s);
        assert(s.skip(0) =~= s);
        if is_numeral(s) && s.len() > 0 {
            assert(text::is_digit(s[0]));
            assert(values(s)[0] != 0);
        }
    }
}

pub proof fn lemma_drop_zeros(s: Seq<char>)
    ensures
        text::drop_zeros(s).len() <= s.len(),
        s == text::drop_zeros(s) + text::zeros((s.len() - text::drop_zeros(s).len()) as nat),
        text::drop_zeros(s) == s.take(text::drop_zeros(s).len() as int),
        text::drop_zeros(s).len() > 0 ==> text::drop_zeros(s).last() != '0',
        is_numeral(s) ==> is_numeral(text::drop_zeros(s)) && values(text::drop_zeros(s))
            == digits::strip_trailing(values(s)),
    decreases s.len(),
{
    if s.len() > 0 && s.last() == '0' {
        let t = s.drop_last();
        lemma_drop_zeros(t);
        let k = (t.len() - text::drop_zeros(t).len()) as nat;
        assert(text::zeros(k + 1) =~= text::zeros(k).push('0'));
        assert(s =~= t.push('0'));
        assert(s =~= text::drop_zeros(s) + text::zeros(k + 1));
        if is_numeral(s) {
            assert forall|i: int| 0 <= i < t.len() implies text::is_digit(#[trigger] t[i]) by {
                assert(t[i] == s[i]);
            }
            assert(values(t) =~= values(s).drop_last());
            assert(values(s).last() == 0);
        }
    } else {
        assert(s + text::zeros(0) =~= s);
        assert(s.take(s.len() as int) =~= s);
        if is_numeral(s) && s.len() > 0 {
            assert(text::is_digit(s[s.len() - 1]));
            assert(values(s).last() != 0);
        }
    }
}

// ==================== Executable ====================

/// A bound above every number that a fixed-width decimal holds.
pub const CAP: u128 = 10_000_000_000_000_000_000_000_000_000_000_000_000;

/// `n`, or the bound where `n` is greater.
pub open spec fn capped(n: nat) -> nat {
    if n > CAP {
        CAP as nat
    } else {
        n
    }
}

/// `n`, or the bound of its sign where it lies beyond.
pub open spec fn clamped(n: int) -> int {
    if n < 0 {
        -(capped((-n) as nat) as int)
    } else {
        capped(n as nat) as int
    }
}

/// The number of a numeral, at most the bound; `None` for other text.
pub fn read_digits(v: &[char]) -> (r: Option<u128>)
    ensures
        match r {
            Some(n) => v@.len() > 0 && is_numeral(v@) && n == capped(text_number(v@)),
            None => v@.len() == 0 || !is_numeral(v@),
        },
{
    if v.len() == 0 {
        return None;
    }
    let mut n: u128 = 0;
    let mut i: usize = 0;
    proof {
        assert(v@.take(0) =~= Seq::<char>::empty());
        assert(values(v@.take(0)) =~= Seq::<u8>::empty());
    }
    while i < v.len()
        invariant
            i <= v@.len(),
            is_numeral(v@.take(i as int)),
            n == capped(text_number(v@.take(i as int))),
        decreases v@.len() - i,
    {
        if !text::digit(v[i]) {
            return None;
        }
        let ghost p = v@.take(i as int);
        proof {
            assert(v@.take(i + 1) =~= p.push(v@[i as int]));
            lemma_values_push(p, v@[i as int]);
            assert forall|j: int| 0 <= j < i + 1 implies text::is_digit(
                #[trigger] v@.take(i + 1)[j],
            ) by {
                if j < i {
                    assert(p[j] == v@.take(i + 1)[j]);
                }
            }
        }
        let next: u128 = n * 10 + text::value_of_digit(v[i]) as u128;
        n = if next > CAP {
            CAP
        } else {
            next
        };
        i += 1;
    }
    assert(v@.take(i as int) =~= v@);
    Some(n)
}

/// The natural number that `v` writes, at most the bound.
pub fn read_unsigned(v: &[char]) -> (r: Option<u128>)
    ensures
        match r {
            Some(n) => unsigned_value(v@) matches Some(m) && n == capped(m),
            None => unsigned_value(v@) is None,
        },
{
    if v.len() > 0 && v[0] == '+' {
        let w: Vec<char> = text::copy_range(v, 1, v.len());
        assert(w@ =~= v@.skip(1));
        read_digits(&w)
    } else {
        read_digits(v)
    }
}

/// The integer that `v` writes, clamped to the bound.
pub fn read_signed(v: &[char]) -> (r: Option<i128>)
    ensures
        match r {
            Some(n) => signed_value(v@) matches Some(m) && n == clamped(m),
            None => signed_value(v@) is None,
        },
{
    if v.len() > 0 && v[0] == '-' {
        let w: Vec<char> = text::copy_range(v, 1, v.len());
        assert(w@ =~= v@.skip(1));
        match read_digits(&w) {
            Some(n) => Some(-(n as i128)),
            None => None,
        }
    } else {
        match read_unsigned(v) {
            Some(n) => Some(n as i128),
            None => None,
        }
    }
}

/// Appends the numeral of `n`.
pub fn append_nat(out: &mut Vec<char>, n: u128)
    ensures
        final(out)@ == old(out)@ + nat_text(n as nat),
    decreases n,
{
    if n >= 10 {
        append_nat(out, n / 10);
    }
    out.push(text::char_of_digit((n % 10) as u8));
}

/// Appends the numeral of `n`, with a `-` where it is negative.
pub fn append_int(out: &mut Vec<char>, n: i128)
    ensures
        final(out)@ == old(out)@ + int_text(n as int),
{
    if n < 0 {
        out.push('-');
        append_nat(out, (-(n + 1)) as u128 + 1);
    } else {
        append_nat(out, n as u128);
    }
}

/// The numeral of `n` as characters.
pub fn nat_chars(n: u128) -> (r: Vec<char>)
    ensures
        r@ == nat_text(n as nat),
{
    let mut out: Vec<char> = Vec::new();
    append_nat(&mut out, n);
    out
}

/// The numeral of `n` as a string.
pub fn int_string(n: i128) -> (r: String)
    ensures
        r@ == int_text(n as int),
{
    let mut out: Vec<char> = Vec::new();
    append_int(&mut out, n);
    text::string_of(&out)
}

/// `v` with one added to it; `None` where a character in the way is no digit.
pub fn incremented(v: &[char]) -> (r: Option<Vec<char>>)
    ensures
        match r {
            Some(t) => increment(v@) == Some(t@),
            None => increment(v@) is None,
        },
{
    let n: usize = v.len();
    let mut i: usize = n;
    proof {
        assert(v@.take(n as int) =~= v@);
        if let Some(t) = increment(v@) {
            assert(t + text::zeros(0) =~= t);
        }
    }
    while i > 0 && v[i - 1] == '9'
        invariant
            i <= n == v@.len(),
            increment(v@) is Some <==> increment(v@.take(i as int)) is Some,
            increment(v@.take(i as int)) matches Some(t) ==> increment(v@) == Some(
                t + text::zeros((n - i) as nat),
            ),
        decreases i,
    {
        proof {
            let p = v@.take(i as int);
            assert(p.drop_last() =~= v@.take(i - 1));
            if let Some(t) = increment(v@.take(i - 1)) {
                assert(t.push('0') + text::zeros((n - i) as nat) =~= t + text::zeros(
                    (n - i + 1) as nat,
                ));
            }
        }
        i -= 1;
    }
    let mut out: Vec<char> = Vec::new();
    if i == 0 {
        assert(v@.take(0) =~= Seq::<char>::empty());
        out.push('1');
        assert(out@ =~= seq!['1']);
    } else {
        let c: char = v[i - 1];
        let ghost p = v@.take(i as int);
        assert(p.last() == c);
        if !text::digit(c) {
            return None;
        }
        let head: Vec<char> = text::copy_range(v, 0, i - 1);
        assert(head@ =~= p.drop_last());
        text::append_all(&mut out, &head);
        out.push(text::char_of_digit(text::value_of_digit(c) + 1));
    }
    text::append_zeros(&mut out, n - i);
    Some(out)
}

/// The digit values of a numeral.
pub fn digit_values(v: &[char]) -> (r: Vec<u8>)
    requires
        is_numeral(v@),
    ensures
        r@ == values(v@),
{
    let mut out: Vec<u8> = Vec::new();
    let mut i: usize = 0;
    while i < v.len()
        invariant
            i <= v@.len(),
            is_numeral(v@),
            out@ == values(v@.take(i as int)),
        decreases v@.len() - i,
    {
        assert(text::is_digit(v@[i as int]));
        out.push(text::value_of_digit(v[i]));
        assert(out@ =~= values(v@.take(i + 1)));
        i += 1;
    }
    assert(v@.take(i as int) =~= v@);
    out
}

} // verus!
