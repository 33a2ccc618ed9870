//! Text as sequences of characters: trimming, splitting, and byte lengths.
use vstd::prelude::*;

verus! {

/// `String::push` appends the character to the string.
pub assume_specification[ String::push ](s: &mut String, c: char)
    ensures
        final(s)@ == old(s)@.push(c),
;

// ==================== Characters ====================

/// The characters with the Unicode property `White_Space`.
pub open spec fn is_space(c: char) -> bool {
    ||| '\u{9}' <= c <= '\u{d}'
    ||| c == '\u{20}'
    ||| c == '\u{85}'
    ||| c == '\u{a0}'
    ||| c == '\u{1680}'
    ||| '\u{2000}' <= c <= '\u{200a}'
    ||| c == '\u{2028}'
    ||| c == '\u{2029}'
    ||| c == '\u{202f}'
    ||| c == '\u{205f}'
    ||| c == '\u{3000}'
}

/// The ASCII decimal digits.
pub open spec fn is_digit(c: char) -> bool {
    '0' <= c <= '9'
}

/// The value of an ASCII digit.
pub open spec fn digit_value(c: char) -> u8 {
    (c as u32 - '0' as u32) as u8
}

/// The ASCII digit with the value `d`.
pub open spec fn digit_char(d: u8) -> char {
    ('0' as u32 + d as u32) as char
}

/// The lower case of an ASCII letter; any other character is itself.
pub open spec fn lower(c: char) -> char {
    if 'A' <= c <= 'Z' {
        (c as u32 + 32) as char
    } else {
        c
    }
}

/// The number of bytes that a character takes in UTF-8.
pub open spec fn width(c: char) -> nat {
    if (c as u32) < 0x80 {
        1
    } else if (c as u32) < 0x800 {
        2
    } else if (c as u32) < 0x1_0000 {
        3
    } else {
        4
    }
}

/// Whether this is white space.
pub fn space(c: char) -> (r: bool)
    ensures
        r == is_space(c),
{
    ('\u{9}' <= c && c <= '\u{d}') || c == '\u{20}' || c == '\u{85}' || c == '\u{a0}' || c
        == '\u{1680}' || ('\u{2000}' <= c && c <= '\u{200a}') || c == '\u{2028}' || c == '\u{2029}'
        || c == '\u{202f}' || c == '\u{205f}' || c == '\u{3000}'
}

/// Whether this is an ASCII digit.
pub fn digit(c: char) -> (r: bool)
    ensures
        r == is_digit(c),
{
    '0' <= c && c <= '9'
}

/// The value of an ASCII digit.
pub fn value_of_digit(c: char) -> (r: u8)
    requires
        is_digit(c),
    ensures
        r == digit_value(c),
        r <= 9,
{
    (c as u32 - '0' as u32) as u8
}

/// The ASCII digit with the value `d`.
pub fn char_of_digit(d: u8) -> (r: char)
    requires
        d <= 9,
    ensures
        r == digit_char(d),
        is_digit(r),
        digit_value(r) == d,
{
    (48 + d) as char
}

/// The lower case of an ASCII letter; any other character is itself.
pub fn lower_char(c: char) -> (r: char)
    ensures
        r == lower(c),
{
    if 'A' <= c && c <= 'Z' {
        ((c as u32 + 32) as u8) as char
    } else {
        c
    }
}

/// The number of bytes that a character takes in UTF-8.
pub fn width_of(c: char) -> (r: usize)
    ensures
        r == width(c),
{
    let code: u32 = c as u32;
    if code < 0x80 {
        1
    } else if code < 0x800 {
        2
    } else if code < 0x1_0000 {
        3
    } else {
        4
    }
}

// ==================== Strings and characters ====================

/// The characters of a string, in order.
pub fn chars_of(s: &str) -> (r: Vec<char>)
    ensures
        r@ == s@,
{
    let mut out: Vec<char> = Vec::new();
    for c in it: s.chars()
        invariant
            out@.len() == it.index(),
            it.seq() == s@,
            out@ == s@.take(it.index() as int),
    {
        out.push(c);
    }
    out
}

/// The string made of the given characters.
pub fn string_of(v: &[char]) -> (r: String)
    ensures
        r@ == v@,
{
    let mut out: String = String::new();
    let mut i: usize = 0;
    while i < v.len()
        invariant
            i <= v@.len(),
            out@ == v@.take(i as int),
        decreases v@.len() - i,
    {
        out.push(v[i]);
        i += 1;
    }
    out
}

/// Whether the characters are those of `s`.
pub fn same_text(v: &[char], s: &str) -> (r: bool)
    ensures
        r == (v@ == s@),
{
    let w: Vec<char> = chars_of(s);
    if v.len() != w.len() {
        return false;
    }
    let mut i: usize = 0;
    while i < v.len()
        invariant
            i <= v@.len(),
            v@.len() == w@.len(),
            w@ == s@,
            v@.take(i as int) == w@.take(i as int),
        decreases v@.len() - i,
    {
        if v[i] != w[i] {
            assert(v@[i as int] != s@[i as int]);
            return false;
        }
        assert(v@.take(i + 1) == v@.take(i as int).push(v@[i as int]));
        assert(w@.take(i + 1) == w@.take(i as int).push(w@[i as int]));
        i += 1;
    }
    assert(v@.take(i as int) == v@);
    assert(w@.take(i as int) == w@);
    true
}

/// The characters from `lo` up to, not including, `hi`.
pub fn copy_range(v: &[char], lo: usize, hi: usize) -> (r: Vec<char>)
    requires
        lo <= hi <= v@.len(),
    ensures
        r@ == v@.subrange(lo as int, hi as int),
{
    let mut out: Vec<char> = Vec::new();
    let mut i: usize = lo;
    while i < hi
        invariant
            lo <= i <= hi <= v@.len(),
            out@ == v@.subrange(lo as int, i as int),
        decreases hi - i,
    {
        out.push(v[i]);
        i += 1;
    }
    out
}

/// Appends the characters of `v` to `out`.
pub fn append_all(out: &mut Vec<char>, v: &[char])
    ensures
        final(out)@ == old(out)@ + v@,
{
    let ghost before = out@;
    let mut i: usize = 0;
    while i < v.len()
        invariant
            i <= v@.len(),
            out@ == before + v@.take(i as int),
        decreases v@.len() - i,
    {
        out.push(v[i]);
        i += 1;
    }
    assert(v@.take(i as int) == v@);
}

/// `n` zero digits as text.
pub open spec fn zeros(n: nat) -> Seq<char> {
    Seq::new(n, |i: int| '0')
}

/// Appends `n` zero digits to `out`.
pub fn append_zeros(out: &mut Vec<char>, n: usize)
    ensures
        final(out)@ == old(out)@ + zeros(n as nat),
{
    let ghost before = out@;
    let mut i: usize = 0;
    while i < n
        invariant
            i <= n,
            out@ == before + zeros(i as nat),
        decreases n - i,
    {
        out.push('0');
        assert(zeros((i + 1) as nat) == zeros(i as nat).push('0'));
        i += 1;
    }
}

// ==================== Trimming ====================

/// The text without its leading white space.
pub open spec fn trim_start(s: Seq<char>) -> Seq<char>
    decreases s.len(),
{
    if s.len() > 0 && is_space(s[0]) {
        trim_start(s.drop_first())
    } else {
        s
    }
}

/// The text without its trailing white space.
pub open spec fn trim_end(s: Seq<char>) -> Seq<char>
    decreases s.len(),
{
    if s.len() > 0 && is_space(s.last()) {
        trim_end(s.drop_last())
    } else {
        s
    }
}

/// The text without white space around it.
pub open spec fn trim(s: Seq<char>) -> Seq<char> {
    trim_end(trim_start(s))
}

/// The text without its leading `-` and `+` signs.
pub open spec fn skip_signs(s: Seq<char>) -> Seq<char>
    decreases s.len(),
{
    if s.len() > 0 && (s[0] == '-' || s[0] == '+') {
        skip_signs(s.drop_first())
    } else {
        s
    }
}

/// The text without its leading `0` digits.
pub open spec fn skip_zeros(s: Seq<char>) -> Seq<char>
    decreases s.len(),
{
    if s.len() > 0 && s[0] == '0' {
        skip_zeros(s.drop_first())
    } else {
        s
    }
}

/// The text without its trailing `0` digits.
pub open spec fn drop_zeros(s: Seq<char>) -> Seq<char>
    decreases s.len(),
{
    if s.len() > 0 && s.last() == '0' {
        drop_zeros(s.drop_last())
    } else {
        s
    }
}

/// The text in ASCII lower case.
pub open spec fn lower_text(s: Seq<char>) -> Seq<char> {
    s.map_values(|c: char| lower(c))
}

/// The characters of `v` without white space around them.
pub fn trimmed(v: &[char]) -> (r: Vec<char>)
    ensures
        r@ == trim(v@),
{
    let n: usize = v.len();
    let mut lo: usize = 0;
    assert(v@.skip(0) == v@);
    while lo < n && space(v[lo])
        invariant
            lo <= n == v@.len(),
            trim_start(v@) == trim_start(v@.skip(lo as int)),
        decreases n - lo,
    {
        assert(v@.skip(lo as int).drop_first() == v@.skip(lo + 1));
        lo += 1;
    }
    let ghost t = v@.skip(lo as int);
    assert(trim_start(v@) == t);
    let mut hi: usize = n;
    assert(v@.subrange(lo as int, n as int) == t);
    while lo < hi && space(v[hi - 1])
        invariant
            lo <= hi <= n == v@.len(),
            trim_end(t) == trim_end(v@.subrange(lo as int, hi as int)),
        decreases hi,
    {
        assert(v@.subrange(lo as int, hi as int).drop_last() == v@.subrange(lo as int, hi - 1));
        hi -= 1;
    }
    copy_range(v, lo, hi)
}

/// The characters of `v` without leading signs.
pub fn without_signs(v: &[char]) -> (r: Vec<char>)
    ensures
        r@ == skip_signs(v@),
{
    let n: usize = v.len();
    let mut lo: usize = 0;
    assert(v@.skip(0) == v@);
    while lo < n && (v[lo] == '-' || v[lo] == '+')
        invariant
            lo <= n == v@.len(),
            skip_signs(v@) == skip_signs(v@.skip(lo as int)),
        decreases n - lo,
    {
        assert(v@.skip(lo as int).drop_first() == v@.skip(lo + 1));
        lo += 1;
    }
    copy_range(v, lo, n)
}

/// The characters of `v` without leading zeros.
pub fn without_leading_zeros(v: &[char]) -> (r: Vec<char>)
    ensures
        r@ == skip_zeros(v@),
{
    let n: usize = v.len();
    let mut lo: usize = 0;
    assert(v@.skip(0) == v@);
    while lo < n && v[lo] == '0'
        invariant
            lo <= n == v@.len(),
            skip_zeros(v@) == skip_zeros(v@.skip(lo as int)),
        decreases n - lo,
    {
        assert(v@.skip(lo as int).drop_first() == v@.skip(lo + 1));
        lo += 1;
    }
    copy_range(v, lo, n)
}

/// The characters of `v` without trailing zeros.
pub fn without_trailing_zeros(v: &[char]) -> (r: Vec<char>)
    ensures
        r@ == drop_zeros(v@),
{
    let mut hi: usize = v.len();
    assert(v@.take(hi as int) == v@);
    while hi > 0 && v[hi - 1] == '0'
        invariant
            hi <= v@.len(),
            drop_zeros(v@) == drop_zeros(v@.take(hi as int)),
        decreases hi,
    {
        assert(v@.take(hi as int).drop_last() == v@.take(hi - 1));
        hi -= 1;
    }
    copy_range(v, 0, hi)
}

/// The characters of `v` in ASCII lower case.
pub fn lowered(v: &[char]) -> (r: Vec<char>)
    ensures
        r@ == lower_text(v@),
{
    let mut out: Vec<char> = Vec::new();
    let mut i: usize = 0;
    while i < v.len()
        invariant
            i <= v@.len(),
            out@ == lower_text(v@.take(i as int)),
        decreases v@.len() - i,
    {
        out.push(lower_char(v[i]));
        i += 1;
    }
    assert(v@.take(i as int) == v@);
    out
}

// ==================== Splitting ====================

/// The index of the first decimal point, or the length where there is none.
pub open spec fn point(s: Seq<char>) -> nat
    decreases s.len(),
{
    if s.len() == 0 || s[0] == '.' {
        0
    } else {
        1 + point(s.drop_first())
    }
}

/// What stands before the first decimal point.
pub open spec fn before_point(s: Seq<char>) -> Seq<char> {
    s.take(point(s) as int)
}

/// What stands behind the first decimal point; nothing where there is none.
pub open spec fn after_point(s: Seq<char>) -> Seq<char> {
    if point(s) < s.len() {
        s.skip(point(s) as int + 1)
    } else {
        Seq::empty()
    }
}

pub proof fn lemma_point(s: Seq<char>)
    ensures
        point(s) <= s.len(),
        point(s) < s.len() ==> s[point(s) as int] == '.',
        forall|i: int| 0 <= i < point(s) ==> s[i] != '.',
    decreases s.len(),
{
    if s.len() > 0 && s[0] != '.' {
        let t = s.drop_first();
        lemma_point(t);
        assert forall|i: int| 0 <= i < point(s) implies s[i] != '.' by {
            if i > 0 {
                assert(t[i - 1] == s[i]);
            }
        }
    }
}

/// The index of the first decimal point in `v`, or its length.
pub fn point_index(v: &[char]) -> (r: usize)
    ensures
        r == point(v@),
        r <= v@.len(),
{
    let n: usize = v.len();
    let mut i: usize = 0;
    assert(v@.skip(0) == v@);
    while i < n && v[i] != '.'
        invariant
            i <= n == v@.len(),
            point(v@) == i + point(v@.skip(i as int)),
        decreases n - i,
    {
        assert(v@.skip(i as int).drop_first() == v@.skip(i + 1));
        i += 1;
    }
    i
}

/// `v` split at its first decimal point.
pub fn split_point(v: &[char]) -> (r: (Vec<char>, Vec<char>))
    ensures
        r.0@ == before_point(v@),
        r.1@ == after_point(v@),
{
    let p: usize = point_index(v);
    let n: usize = v.len();
    let whole: Vec<char> = copy_range(v, 0, p);
    let frac: Vec<char> = if p < n {
        copy_range(v, p + 1, n)
    } else {
        Vec::new()
    };
    (whole, frac)
}

// ==================== Byte lengths ====================

/// The length of the text in UTF-8.
pub open spec fn byte_len(s: Seq<char>) -> nat
    decreases s.len(),
{
    if s.len() == 0 {
        0
    } else {
        width(s[0]) + byte_len(s.drop_first())
    }
}

/// The number of characters in the first `n` bytes of the text; `None` where
/// byte `n` is not a character boundary.
pub open spec fn boundary(s: Seq<char>, n: nat) -> Option<nat>
    decreases s.len(),
{
    if n == 0 {
        Some(0)
    } else if s.len() == 0 || width(s[0]) > n {
        None
    } else {
        match boundary(s.drop_first(), (n - width(s[0])) as nat) {
            Some(k) => Some(k + 1),
            None => None,
        }
    }
}

pub proof fn lemma_byte_len_bound(s: Seq<char>)
    ensures
        s.len() <= byte_len(s) <= 4 * s.len(),
    decreases s.len(),
{
    if s.len() > 0 {
        lemma_byte_len_bound(s.drop_first());
    }
}

pub proof fn lemma_byte_len_push(s: Seq<char>, c: char)
    ensures
        byte_len(s.push(c)) == byte_len(s) + width(c),
    decreases s.len(),
{
    if s.len() == 0 {
        assert(s.push(c).drop_first() == Seq::<char>::empty());
        assert(byte_len(s.push(c).drop_first()) == 0);
    } else {
        assert(s.push(c).drop_first() == s.drop_first().push(c));
        lemma_byte_len_push(s.drop_first(), c);
    }
}

pub proof fn lemma_boundary(s: Seq<char>, n: nat)
    ensures
        boundary(s, n) matches Some(k) ==> k <= s.len() && byte_len(s.take(k as int)) == n && k
            <= n,
    decreases s.len(),
{
    if n == 0 {
        assert(s.take(0) == Seq::<char>::empty());
    } else if s.len() > 0 && width(s[0]) <= n {
        let t = s.drop_first();
        let m = (n - width(s[0])) as nat;
        lemma_boundary(t, m);
        if let Some(k) = boundary(t, m) {
            assert(s.take((k + 1) as int).drop_first() == t.take(k as int));
            assert(s.take((k + 1) as int)[0] == s[0]);
        }
    }
}

/// In ASCII text a byte offset is a character offset.
pub proof fn lemma_ascii(s: Seq<char>)
    requires
        forall|i: int| 0 <= i < s.len() ==> (#[trigger] s[i] as u32) < 0x80,
    ensures
        byte_len(s) == s.len(),
        forall|n: nat| n <= s.len() ==> #[trigger] boundary(s, n) == Some(n),
    decreases s.len(),
{
    if s.len() > 0 {
        let t = s.drop_first();
        assert forall|i: int| 0 <= i < t.len() implies (#[trigger] t[i] as u32) < 0x80 by {
            assert(t[i] == s[i + 1]);
        }
        lemma_ascii(t);
        assert forall|n: nat| n <= s.len() implies #[trigger] boundary(s, n) == Some(n) by {
            if n > 0 {
                assert(boundary(t, (n - 1) as nat) == Some((n - 1) as nat));
            }
        }
    }
}

/// Whether `v` takes more than `n` bytes in UTF-8.
pub fn longer_than(v: &[char], n: usize) -> (r: bool)
    ensures
        r == (byte_len(v@) > n),
{
    let mut left: usize = n;
    let mut i: usize = 0;
    assert(v@.skip(0) == v@);
    while i < v.len()
        invariant
            i <= v@.len(),
            left <= n,
            byte_len(v@) == (n - left) + byte_len(v@.skip(i as int)),
        decreases v@.len() - i,
    {
        let w: usize = width_of(v[i]);
        assert(v@.skip(i as int).drop_first() == v@.skip(i + 1));
        if w > left {
            return true;
        }
        left -= w;
        i += 1;
    }
    false
}

/// The number of characters in the first `n` bytes of `v`.
pub fn boundary_index(v: &[char], n: usize) -> (r: Option<usize>)
    ensures
        match r {
            Some(k) => boundary(v@, n as nat) == Some(k as nat) && k <= v@.len(),
            None => boundary(v@, n as nat) is None,
        },
{
    let mut left: usize = n;
    let mut i: usize = 0;
    assert(v@.skip(0) == v@);
    while left > 0
        invariant
            i <= v@.len(),
            left <= n,
            boundary(v@, n as nat) is Some <==> boundary(v@.skip(i as int), left as nat) is Some,
            boundary(v@.skip(i as int), left as nat) matches Some(k) ==> boundary(v@, n as nat)
                == Some((k + i) as nat),
        decreases left,
    {
        if i == v.len() {
            return None;
        }
        let w: usize = width_of(v[i]);
        assert(v@.skip(i as int)[0] == v@[i as int]);
        if w > left {
            return None;
        }
        assert(v@.skip(i as int).drop_first() == v@.skip(i + 1));
        left -= w;
        i += 1;
    }
    Some(i)
}

pub proof fn lemma_byte_len_concat(a: Seq<char>, b: Seq<char>)
    ensures
        byte_len(a + b) == byte_len(a) + byte_len(b),
    decreases a.len(),
{
    if a.len() == 0 {
        assert(a + b =~= b);
    } else {
        assert((a + b).drop_first() =~= a.drop_first() + b);
        assert((a + b)[0] == a[0]);
        lemma_byte_len_concat(a.drop_first(), b);
    }
}

/// A front of `k` characters ends at the byte that its length says.
pub proof fn lemma_boundary_take(s: Seq<char>, k: nat)
    requires
        k <= s.len(),
    ensures
        boundary(s, byte_len(s.take(k as int))) == Some(k),
    decreases k,
{
    if k == 0 {
        assert(s.take(0) =~= Seq::<char>::empty());
    } else {
        let t = s.drop_first();
        assert(s.take(k as int).drop_first() =~= t.take(k - 1));
        assert(s.take(k as int)[0] == s[0]);
        lemma_boundary_take(t, (k - 1) as nat);
    }
}

/// The number of characters before the last `n` bytes of `v`.
pub fn back_index(v: &[char], n: usize) -> (r: Option<usize>)
    requires
        byte_len(v@) >= n,
    ensures
        match r {
            Some(k) => boundary(v@, (byte_len(v@) - n) as nat) == Some(k as nat) && k <= v@.len(),
            None => boundary(v@, (byte_len(v@) - n) as nat) is None,
        },
{
    let mut left: usize = n;
    let mut i: usize = v.len();
    proof {
        assert(v@.take(i as int) =~= v@);
    }
    let ghost at = (byte_len(v@) - n) as nat;
    while left > 0
        invariant
            i <= v@.len(),
            left <= n,
            at == byte_len(v@) - n,
            byte_len(v@.take(i as int)) == at + left,
        decreases left,
    {
        if i == 0 {
            assert(v@.take(0) =~= Seq::<char>::empty());
            return None;
        }
        let w: usize = width_of(v[i - 1]);
        proof {
            let p = v@.take(i - 1);
            assert(v@.take(i as int) =~= p.push(v@[i - 1]));
            lemma_byte_len_push(p, v@[i - 1]);
        }
        if w > left {
            proof {
                lemma_boundary(v@, at);
                if let Some(k) = boundary(v@, at) {
                    if k <= i - 1 {
                        lemma_byte_len_mono(v@, k, (i - 1) as nat);
                    } else {
                        lemma_byte_len_mono(v@, i as nat, k);
                    }
                    assert(false);
                }
            }
            return None;
        }
        left -= w;
        i -= 1;
    }
    proof {
        lemma_boundary_take(v@, i as nat);
    }
    Some(i)
}

/// Longer fronts take more bytes.
pub proof fn lemma_byte_len_mono(s: Seq<char>, i: nat, j: nat)
    requires
        i <= j <= s.len(),
    ensures
        byte_len(s.take(i as int)) + (j - i) <= byte_len(s.take(j as int)),
{
    let a = s.take(i as int);
    let b = s.subrange(i as int, j as int);
    assert(s.take(j as int) =~= a + b);
    lemma_byte_len_concat(a, b);
    lemma_byte_len_bound(b);
}

} // verus!
