//! The byte encoding of decimals, whose byte order is the order of the values.
//!
//! A number is a sign byte, the exponent, and the mantissa:
//!
//! - The sign byte is `0x00` for a negative number, `0x80` for zero, which has no
//!   further bytes, and `0xFF` for a positive number.
//! - An exponent up to 49148 takes two bytes, biased by 16384. A greater one is
//!   the marker `0xFFFD` and four bytes. Negative numbers hold these bytes
//!   inverted.
//! - The mantissa holds two digits per byte, the last one padded with a zero.
//!   Negative numbers hold the nine's complement of each digit and end with the
//!   byte `0xFF`.
//!
//! An older layout of negative mantissas, inverted digit pairs without an end
//! byte, is read as well.
use vstd::prelude::*;

use crate::digits;
use crate::error::DecimalError;
use crate::error::ErrorView;
use crate::special;
use crate::value;
use crate::value::Parts;
use crate::value::Value;

verus! {

/// The sign byte of negative numbers.
pub const SIGN_NEGATIVE: u8 = 0x00;

/// The sign byte of zero.
pub const SIGN_ZERO: u8 = 0x80;

/// The sign byte of positive numbers.
pub const SIGN_POSITIVE: u8 = 0xFF;

/// What is added to an exponent of two bytes.
pub const EXPONENT_BIAS: i32 = 16384;

/// The greatest exponent that two bytes hold.
pub const MAX_INLINE_EXPONENT: i32 = 49148;

/// What stands in the place of a two-byte exponent before a longer one.
pub const ESCAPE_MARKER: u16 = 0xFFFD;

/// The byte behind a negative mantissa.
pub const TERMINATOR: u8 = 0xFF;

// ==================== What the bytes are ====================

/// Every byte subtracted from 255.
pub open spec fn invert(b: Seq<u8>) -> Seq<u8> {
    b.map_values(|x: u8| (255 - x) as u8)
}

/// `n` as two bytes, most significant first.
pub open spec fn two_bytes(n: int) -> Seq<u8> {
    seq![(n / 256) as u8, (n % 256) as u8]
}

/// `n` as four bytes, most significant first.
pub open spec fn four_bytes(n: int) -> Seq<u8> {
    two_bytes(n / 65536) + two_bytes(n % 65536)
}

/// The bytes of an exponent.
pub open spec fn exponent_bytes(exponent: int, negative: bool) -> Seq<u8> {
    let plain = if exponent <= MAX_INLINE_EXPONENT {
        two_bytes(exponent + EXPONENT_BIAS)
    } else {
        two_bytes(ESCAPE_MARKER as int) + four_bytes(exponent)
    };
    if negative {
        invert(plain)
    } else {
        plain
    }
}

/// Two digits per byte, with `pad` behind an odd number of digits.
pub open spec fn pack(ds: Seq<u8>, pad: u8) -> Seq<u8> {
    Seq::new(
        (ds.len() + 1) / 2,
        |i: int|
            {
                let low = if 2 * i + 1 < ds.len() {
                    ds[2 * i + 1]
                } else {
                    pad
                };
                (ds[2 * i] * 16 + low) as u8
            },
    )
}

/// The halves of every byte, the high one first.
pub open spec fn unpack(b: Seq<u8>) -> Seq<u8> {
    Seq::new(
        2 * b.len(),
        |i: int|
            if i % 2 == 0 {
                b[i / 2] / 16
            } else {
                b[i / 2] % 16
            },
    )
}

/// The nine's complement of a digit; what is no digit stays as it is.
pub open spec fn nine_minus(d: u8) -> u8 {
    if d <= 9 {
        (9 - d) as u8
    } else {
        d
    }
}

/// The nine's complement of every digit.
pub open spec fn complement(ds: Seq<u8>) -> Seq<u8> {
    ds.map_values(|d: u8| nine_minus(d))
}

/// The bytes of a mantissa.
pub open spec fn mantissa_bytes(ds: Seq<u8>, negative: bool) -> Seq<u8> {
    if negative {
        pack(complement(ds), 9).push(TERMINATOR)
    } else {
        pack(ds, 0)
    }
}

/// The bytes of a mantissa in the older layout.
pub open spec fn legacy_mantissa_bytes(ds: Seq<u8>, negative: bool) -> Seq<u8> {
    if negative {
        invert(pack(ds, 0))
    } else {
        pack(ds, 0)
    }
}

/// The sign byte of a nonzero number.
pub open spec fn sign_byte(negative: bool) -> u8 {
    if negative {
        SIGN_NEGATIVE
    } else {
        SIGN_POSITIVE
    }
}

/// The encoding of a finite number.
pub open spec fn encode_parts(p: Parts) -> Seq<u8> {
    if p.digits.len() == 0 {
        seq![SIGN_ZERO]
    } else {
        seq![sign_byte(p.negative)] + exponent_bytes(p.exponent, p.negative) + mantissa_bytes(
            p.digits,
            p.negative,
        )
    }
}

/// The encoding of a value.
pub open spec fn encode(v: Value) -> Seq<u8> {
    match v {
        Value::Special(s) => special::special_bytes(s),
        Value::Finite(p) => encode_parts(p),
    }
}

/// The exponent at the front of the bytes behind the sign byte, with the number
/// of bytes that it takes. Reserved, truncated and out of range ones are none,
/// and so is an exponent in four bytes that two could hold.
pub open spec fn exponent_of(b: Seq<u8>, negative: bool) -> Option<(int, nat)> {
    let c = if negative {
        invert(b)
    } else {
        b
    };
    let head = c[0] * 256 + c[1];
    let tail = c[2] * 16777216 + c[3] * 65536 + c[4] * 256 + c[5];
    if b.len() < 2 || head == 0 || head > ESCAPE_MARKER {
        None
    } else if head < ESCAPE_MARKER {
        Some((head - EXPONENT_BIAS, 2))
    } else if b.len() >= 6 && MAX_INLINE_EXPONENT < tail <= value::MAX_EXPONENT {
        Some((tail, 6))
    } else {
        None
    }
}

/// The halves of the mantissa's bytes as digits. A negative mantissa is in the
/// current layout exactly where it ends with the end byte.
pub open spec fn raw_digits(m: Seq<u8>, negative: bool) -> Seq<u8> {
    if !negative {
        unpack(m)
    } else if m.len() > 0 && m.last() == TERMINATOR {
        complement(unpack(m.drop_last()))
    } else {
        unpack(invert(m))
    }
}

/// The digits without trailing zeros, but for a single one.
pub open spec fn keep_one(ds: Seq<u8>) -> Seq<u8> {
    let t = digits::strip_trailing(ds);
    if t.len() == 0 {
        ds.take(if ds.len() > 0 { 1 } else { 0 })
    } else {
        t
    }
}

/// The longest front of whole pairs that are all digits.
pub open spec fn digit_pairs(ds: Seq<u8>) -> Seq<u8>
    decreases ds.len(),
{
    if ds.len() >= 2 && ds[0] <= 9 && ds[1] <= 9 {
        ds.take(2) + digit_pairs(ds.skip(2))
    } else {
        Seq::empty()
    }
}

/// The digits of a mantissa.
pub open spec fn mantissa_digits(m: Seq<u8>, negative: bool) -> Option<Seq<u8>> {
    let ds = raw_digits(m, negative);
    if digits::all_digits(ds) {
        Some(keep_one(ds))
    } else {
        None
    }
}

/// The value that the bytes encode.
pub open spec fn decode(b: Seq<u8>) -> Option<Value> {
    if b.len() == 0 {
        None
    } else if special::special_of_bytes(b) is Some {
        Some(Value::Special(special::special_of_bytes(b)->0))
    } else if b[0] == SIGN_ZERO {
        Some(Value::Finite(value::zero_parts()))
    } else if b[0] != SIGN_NEGATIVE && b[0] != SIGN_POSITIVE {
        None
    } else {
        let negative = b[0] == SIGN_NEGATIVE;
        match exponent_of(b.skip(1), negative) {
            None => None,
            Some((exponent, k)) => match mantissa_digits(b.skip(1 + k as int), negative) {
                None => None,
                Some(ds) => Some(Value::Finite(Parts { negative, digits: ds, exponent })),
            },
        }
    }
}

/// What a digit buffer holds once the bytes were found not to decode: the digits
/// before the first bad pair where the exponent was read, and else what it held.
pub open spec fn buffer_on_failure(b: Seq<u8>, before: Seq<u8>) -> Seq<u8> {
    if b.len() > 0 && (b[0] == SIGN_NEGATIVE || b[0] == SIGN_POSITIVE) {
        match exponent_of(b.skip(1), b[0] == SIGN_NEGATIVE) {
            None => before,
            Some((_, k)) => digit_pairs(raw_digits(b.skip(1 + k as int), b[0] == SIGN_NEGATIVE)),
        }
    } else {
        before
    }
}

/// The bytes are a negative number.
pub open spec fn is_negative_number(b: Seq<u8>) -> bool {
    decode(b) is Some && b[0] == SIGN_NEGATIVE && special::special_of_bytes(b) is None
}

/// The sign byte and the exponent of an encoded nonzero number.
pub open spec fn front(b: Seq<u8>) -> Seq<u8> {
    b.take(1 + (exponent_of(b.skip(1), b[0] == SIGN_NEGATIVE)->0).1 as int)
}

/// The mantissa of an encoded nonzero number.
pub open spec fn mantissa(b: Seq<u8>) -> Seq<u8> {
    b.skip(1 + (exponent_of(b.skip(1), b[0] == SIGN_NEGATIVE)->0).1 as int)
}

/// The bytes with a negative mantissa of the older layout put into the current
/// one.
pub open spec fn canonical_bytes(b: Seq<u8>) -> Result<Seq<u8>, ErrorView> {
    if decode(b) is None {
        Err(ErrorView::InvalidEncoding)
    } else if is_negative_number(b) && !(mantissa(b).len() > 0 && mantissa(b).last()
        == TERMINATOR) {
        Ok(front(b) + mantissa_bytes(mantissa_digits(mantissa(b), true)->0, true))
    } else {
        Ok(b)
    }
}

/// The bytes with a negative mantissa put into the older layout.
pub open spec fn legacy_bytes(b: Seq<u8>) -> Result<Seq<u8>, ErrorView> {
    if decode(b) is None {
        Err(ErrorView::InvalidEncoding)
    } else if is_negative_number(b) {
        Ok(front(b) + legacy_mantissa_bytes(mantissa_digits(mantissa(b), true)->0, true))
    } else {
        Ok(b)
    }
}

// ==================== Writing ====================

/// Appends the bytes of an exponent.
pub fn encode_exponent(result: &mut Vec<u8>, exponent: i32, is_negative: bool)
    requires
        value::MIN_EXPONENT <= exponent <= value::MAX_EXPONENT,
    ensures
        final(result)@ == old(result)@ + exponent_bytes(exponent as int, is_negative),
{
    let ghost before = result@;
    if exponent <= MAX_INLINE_EXPONENT {
        let n: u32 = (exponent + EXPONENT_BIAS) as u32;
        push_byte(result, (n / 256) as u8, is_negative);
        push_byte(result, (n % 256) as u8, is_negative);
    } else {
        let n: u32 = exponent as u32;
        push_byte(result, 0xFF, is_negative);
        push_byte(result, 0xFD, is_negative);
        push_byte(result, (n / 16777216) as u8, is_negative);
        push_byte(result, (n / 65536 % 256) as u8, is_negative);
        push_byte(result, (n / 256 % 256) as u8, is_negative);
        push_byte(result, (n % 256) as u8, is_negative);
    }
    assert(result@ =~= before + exponent_bytes(exponent as int, is_negative));
}

/// Appends a byte, inverted where `inverted` says so.
fn push_byte(result: &mut Vec<u8>, byte: u8, inverted: bool)
    ensures
        final(result)@ == old(result)@.push(
            if inverted {
                (255 - byte) as u8
            } else {
                byte
            },
        ),
{
    result.push(
        if inverted {
            255 - byte
        } else {
            byte
        },
    );
}

/// Appends the bytes of a mantissa.
pub fn encode_mantissa(result: &mut Vec<u8>, ds: &[u8], is_negative: bool)
    requires
        digits::all_digits(ds@),
    ensures
        final(result)@ == old(result)@ + mantissa_bytes(ds@, is_negative),
{
    let ghost before = result@;
    let ghost src = if is_negative {
        complement(ds@)
    } else {
        ds@
    };
    let ghost pad: u8 = if is_negative {
        9
    } else {
        0
    };
    let ghost packed = pack(src, pad);
    let n: usize = ds.len();
    let count: usize = n / 2 + n % 2;
    let mut i: usize = 0;
    while i < count
        invariant
            i <= count,
            count == n / 2 + n % 2,
            n == ds@.len(),
            digits::all_digits(ds@),
            src == (if is_negative {
                complement(ds@)
            } else {
                ds@
            }),
            pad == (if is_negative {
                9u8
            } else {
                0u8
            }),
            packed == pack(src, pad),
            result@ == before + packed.take(i as int),
        decreases count - i,
    {
        let high: u8 = ds[2 * i];
        assert(high <= 9);
        let low: u8 = if n - 2 * i > 1 {
            ds[2 * i + 1]
        } else {
            0
        };
        assert(low <= 9);
        let byte: u8 = if is_negative {
            (9 - high) * 16 + (9 - low)
        } else {
            high * 16 + low
        };
        assert(byte == packed[i as int]);
        result.push(byte);
        i += 1;
    }
    assert(packed.take(packed.len() as int) =~= packed);
    if is_negative {
        result.push(TERMINATOR);
    }
    assert(result@ =~= before + mantissa_bytes(ds@, is_negative));
}

// ==================== Reading ====================

proof fn lemma_keep_one(ds: Seq<u8>)
    requires
        digits::all_digits(ds),
    ensures
        digits::all_digits(keep_one(ds)),
{
    digits::lemma_strip_trailing(ds);
    let t = digits::strip_trailing(ds);
    if t.len() == 0 {
        let n: int = if ds.len() > 0 { 1 } else { 0 };
        assert forall|i: int| 0 <= i < n implies #[trigger] ds.take(n)[i] <= 9 by {
            assert(ds[i] <= 9);
        }
    }
}

/// What decodes to digits holds only digits.
pub proof fn lemma_decoded_digits(b: Seq<u8>)
    ensures
        decode(b) matches Some(Value::Finite(p)) ==> digits::all_digits(p.digits),
{
    if decode(b) is Some && b[0] != SIGN_ZERO {
        let negative = b[0] == SIGN_NEGATIVE;
        if let Some((e, k)) = exponent_of(b.skip(1), negative) {
            let ds = raw_digits(b.skip(1 + k as int), negative);
            if digits::all_digits(ds) {
                lemma_keep_one(ds);
            }
        }
    }
}

proof fn lemma_digit_pairs(ds: Seq<u8>, n: nat)
    requires
        2 * n + 2 <= ds.len(),
        digits::all_digits(ds.take(2 * n as int)),
        ds[2 * n as int] > 9 || ds[2 * n as int + 1] > 9,
    ensures
        digit_pairs(ds) == ds.take(2 * n as int),
    decreases n,
{
    let head = ds.take(2 * n as int);
    if n == 0 {
        assert(head =~= Seq::<u8>::empty());
    } else {
        assert(head[0] <= 9 && head[1] <= 9);
        let t = ds.skip(2);
        let m = (n - 1) as nat;
        assert(t.take(2 * m as int) =~= head.skip(2));
        assert forall|i: int| 0 <= i < 2 * m implies #[trigger] t.take(2 * m as int)[i] <= 9 by {
            assert(head[i + 2] <= 9);
        }
        lemma_digit_pairs(t, m);
        assert(ds.take(2) + t.take(2 * m as int) =~= head);
    }
}

/// Reads the exponent at the front of the bytes behind the sign byte. Gives it
/// with the number of bytes that it takes.
pub fn decode_exponent(bytes: &[u8], is_negative: bool) -> (r: Result<(i32, usize), DecimalError>)
    ensures
        match r {
            Ok((exponent, k)) => exponent_of(bytes@, is_negative) == Some(
                (exponent as int, k as nat),
            ) && k <= bytes@.len(),
            Err(e) => exponent_of(bytes@, is_negative) is None && e is InvalidEncoding,
        },
{
    if bytes.len() < 2 {
        return Err(DecimalError::InvalidEncoding);
    }
    let head: u32 = plain_byte(bytes, 0, is_negative) * 256 + plain_byte(bytes, 1, is_negative);
    if head == 0 || head > ESCAPE_MARKER as u32 {
        return Err(DecimalError::InvalidEncoding);
    }
    if head < ESCAPE_MARKER as u32 {
        return Ok((head as i32 - EXPONENT_BIAS, 2));
    }
    if bytes.len() < 6 {
        return Err(DecimalError::InvalidEncoding);
    }
    let tail: u32 = plain_byte(bytes, 2, is_negative) * 16777216 + plain_byte(
        bytes,
        3,
        is_negative,
    ) * 65536 + plain_byte(bytes, 4, is_negative) * 256 + plain_byte(bytes, 5, is_negative);
    if tail > MAX_INLINE_EXPONENT as u32 && tail <= value::MAX_EXPONENT as u32 {
        Ok((tail as i32, 6))
    } else {
        Err(DecimalError::InvalidEncoding)
    }
}

/// A byte with the inversion of negative numbers taken back.
fn plain_byte(bytes: &[u8], i: usize, is_negative: bool) -> (r: u32)
    requires
        i < bytes@.len(),
    ensures
        r == (if is_negative {
            invert(bytes@)
        } else {
            bytes@
        })[i as int],
        r <= 255,
{
    if is_negative {
        255 - bytes[i] as u32
    } else {
        bytes[i] as u32
    }
}

/// Reads the digits of a mantissa into `ds`, whose contents they replace. Where a
/// byte does not hold two digits, `ds` holds the digits before it.
pub fn decode_mantissa_into(bytes: &[u8], is_negative: bool, ds: &mut Vec<u8>) -> (r: Result<
    (),
    DecimalError,
>)
    ensures
        match r {
            Ok(_) => mantissa_digits(bytes@, is_negative) == Some(final(ds)@),
            Err(e) => mantissa_digits(bytes@, is_negative) is None && e is InvalidEncoding
                && final(ds)@ == digit_pairs(raw_digits(bytes@, is_negative)),
        },
{
    ds.clear();
    let n: usize = bytes.len();
    let current: bool = is_negative && n > 0 && bytes[n - 1] == TERMINATOR;
    let count: usize = if current {
        n - 1
    } else {
        n
    };
    let ghost raw = raw_digits(bytes@, is_negative);
    assert(raw.len() == 2 * count);
    let mut i: usize = 0;
    while i < count
        invariant
            i <= count <= n == bytes@.len(),
            current == (is_negative && n > 0 && bytes@[n - 1] == TERMINATOR),
            count == (if current {
                n - 1
            } else {
                n as int
            }),
            raw == raw_digits(bytes@, is_negative),
            raw.len() == 2 * count,
            ds@ == raw.take(2 * i as int),
            digits::all_digits(ds@),
        decreases count - i,
    {
        let byte: u8 = if is_negative && !current {
            255 - bytes[i]
        } else {
            bytes[i]
        };
        let mut high: u8 = byte / 16;
        let mut low: u8 = byte % 16;
        if current {
            high = nine_minus_digit(high);
            low = nine_minus_digit(low);
        }
        assert(high == raw[2 * i as int]);
        assert(low == raw[2 * i as int + 1]);
        if high > 9 || low > 9 {
            proof {
                lemma_digit_pairs(raw, i as nat);
            }
            return Err(DecimalError::InvalidEncoding);
        }
        ds.push(high);
        ds.push(low);
        assert(ds@ =~= raw.take(2 * (i + 1) as int));
        i += 1;
    }
    assert(ds@ =~= raw);
    proof {
        digits::lemma_strip_trailing(raw);
    }
    while ds.len() > 1 && ds[ds.len() - 1] == 0
        invariant
            digits::strip_trailing(ds@) == digits::strip_trailing(raw),
            raw.len() > 0 <==> ds@.len() > 0,
            ds@.len() <= raw.len(),
            ds@ == raw.take(ds@.len() as int),
        decreases ds@.len(),
    {
        assert(ds@.drop_last() =~= raw.take(ds@.len() - 1));
        let _last: Option<u8> = ds.pop();
    }
    proof {
        reveal_with_fuel(digits::strip_trailing, 2);
        digits::lemma_strip_trailing(raw);
        assert(ds@ =~= keep_one(raw));
    }
    Ok(())
}

fn nine_minus_digit(d: u8) -> (r: u8)
    ensures
        r == nine_minus(d),
{
    if d <= 9 {
        9 - d
    } else {
        d
    }
}

/// Reads the digits of a mantissa.
pub fn decode_mantissa(bytes: &[u8], is_negative: bool) -> (r: Result<Vec<u8>, DecimalError>)
    ensures
        match r {
            Ok(ds) => mantissa_digits(bytes@, is_negative) == Some(ds@),
            Err(e) => mantissa_digits(bytes@, is_negative) is None && e is InvalidEncoding,
        },
{
    let mut ds: Vec<u8> = Vec::new();
    match decode_mantissa_into(bytes, is_negative, &mut ds) {
        Ok(_) => Ok(ds),
        Err(e) => Err(e),
    }
}

/// Reads a finite number's parts: gives its sign and exponent, and puts its digits
/// into `ds`, whose contents they replace. The number is
/// `0.digits * 10^exponent`; zero has no digits and the exponent 0. Gives `None`
/// for a special value and leaves `ds` alone.
pub fn decode_parts_into(bytes: &[u8], ds: &mut Vec<u8>) -> (r: Result<
    Option<(bool, i32)>,
    DecimalError,
>)
    ensures
        match r {
            Ok(None) => decode(bytes@) matches Some(Value::Special(_)) && final(ds)@ == old(ds)@,
            Ok(Some((negative, exponent))) => decode(bytes@) == Some(
                Value::Finite(
                    (Parts { negative, digits: final(ds)@, exponent: exponent as int }),
                ),
            ),
            Err(e) => decode(bytes@) is None && e is InvalidEncoding && final(ds)@
                == buffer_on_failure(bytes@, old(ds)@),
        },
{
    if bytes.len() == 0 {
        return Err(DecimalError::InvalidEncoding);
    }
    if special::decode_special_value(bytes).is_some() {
        return Ok(None);
    }
    let sign: u8 = bytes[0];
    if sign == SIGN_ZERO {
        ds.clear();
        assert(ds@ =~= Seq::<u8>::empty());
        return Ok(Some((false, 0)));
    }
    if sign != SIGN_NEGATIVE && sign != SIGN_POSITIVE {
        return Err(DecimalError::InvalidEncoding);
    }
    let is_negative: bool = sign == SIGN_NEGATIVE;
    let rest: &[u8] = vstd::slice::slice_subrange(bytes, 1, bytes.len());
    assert(rest@ =~= bytes@.skip(1));
    match decode_exponent(rest, is_negative) {
        Err(e) => Err(e),
        Ok((exponent, k)) => {
            let m: &[u8] = vstd::slice::slice_subrange(bytes, 1 + k, bytes.len());
            assert(m@ =~= bytes@.skip(1 + k as int));
            match decode_mantissa_into(m, is_negative, ds) {
                Err(e) => Err(e),
                Ok(_) => Ok(Some((is_negative, exponent))),
            }
        },
    }
}

/// Copies the bytes.
fn copy_bytes(bytes: &[u8]) -> (r: Vec<u8>)
    ensures
        r@ == bytes@,
{
    let mut out: Vec<u8> = Vec::new();
    append_bytes(&mut out, bytes, bytes.len());
    assert(bytes@.take(bytes@.len() as int) =~= bytes@);
    out
}

/// Appends the first `n` of the bytes.
fn append_bytes(out: &mut Vec<u8>, bytes: &[u8], n: usize)
    requires
        n <= bytes@.len(),
    ensures
        final(out)@ == old(out)@ + bytes@.take(n as int),
{
    let ghost before = out@;
    let mut i: usize = 0;
    while i < n
        invariant
            i <= n <= bytes@.len(),
            out@ == before + bytes@.take(i as int),
        decreases n - i,
    {
        out.push(bytes[i]);
        i += 1;
    }
}

/// The bytes of a negative number with its mantissa in one layout or the other.
fn rewrite_negative(bytes: &[u8], legacy: bool) -> (r: Result<Vec<u8>, DecimalError>)
    requires
        bytes@.len() > 0,
        bytes@[0] == SIGN_NEGATIVE,
        special::special_of_bytes(bytes@) is None,
    ensures
        match r {
            Ok(b) => decode(bytes@) is Some && b@ == front(bytes@) + ({
                let ds = mantissa_digits(mantissa(bytes@), true)->0;
                if legacy {
                    legacy_mantissa_bytes(ds, true)
                } else {
                    mantissa_bytes(ds, true)
                }
            }),
            Err(e) => decode(bytes@) is None && e is InvalidEncoding,
        },
{
    let rest: &[u8] = vstd::slice::slice_subrange(bytes, 1, bytes.len());
    assert(rest@ =~= bytes@.skip(1));
    let k: usize = match decode_exponent(rest, true) {
        Err(e) => {
            return Err(e);
        },
        Ok((_, k)) => k,
    };
    let m: &[u8] = vstd::slice::slice_subrange(bytes, 1 + k, bytes.len());
    assert(m@ =~= mantissa(bytes@));
    let ds: Vec<u8> = match decode_mantissa(m, true) {
        Err(e) => {
            return Err(e);
        },
        Ok(ds) => ds,
    };
    proof {
        lemma_keep_one(raw_digits(m@, true));
    }
    let mut out: Vec<u8> = Vec::new();
    append_bytes(&mut out, bytes, 1 + k);
    if legacy {
        let mut plain: Vec<u8> = Vec::new();
        encode_mantissa(&mut plain, &ds, false);
        let mut i: usize = 0;
        let ghost before = out@;
        while i < plain.len()
            invariant
                i <= plain@.len(),
                out@ == before + invert(plain@).take(i as int),
            decreases plain@.len() - i,
        {
            out.push(255 - plain[i]);
            i += 1;
        }
        assert(plain@ =~= pack(ds@, 0));
        assert(out@ =~= before + legacy_mantissa_bytes(ds@, true));
    } else {
        encode_mantissa(&mut out, &ds, true);
    }
    assert(out@ =~= front(bytes@) + (if legacy {
        legacy_mantissa_bytes(ds@, true)
    } else {
        mantissa_bytes(ds@, true)
    }));
    Ok(out)
}

/// The bytes with a negative mantissa of the older layout put into the current
/// one; all other bytes as they are.
pub fn canonicalize(bytes: &[u8]) -> (r: Result<Vec<u8>, DecimalError>)
    ensures
        match r {
            Ok(b) => canonical_bytes(bytes@) == Ok::<Seq<u8>, ErrorView>(b@),
            Err(e) => canonical_bytes(bytes@) == Err::<Seq<u8>, ErrorView>(e@),
        },
{
    let mut ds: Vec<u8> = Vec::new();
    match decode_parts_into(bytes, &mut ds) {
        Err(e) => Err(e),
        Ok(None) => Ok(copy_bytes(bytes)),
        Ok(Some(_)) => {
            if bytes[0] == SIGN_NEGATIVE && !ends_with_terminator(bytes) {
                rewrite_negative(bytes, false)
            } else {
                Ok(copy_bytes(bytes))
            }
        },
    }
}

/// Whether the mantissa of an encoded negative number ends with the end byte.
fn ends_with_terminator(bytes: &[u8]) -> (r: bool)
    requires
        is_negative_number(bytes@),
    ensures
        r == (mantissa(bytes@).len() > 0 && mantissa(bytes@).last() == TERMINATOR),
{
    let rest: &[u8] = vstd::slice::slice_subrange(bytes, 1, bytes.len());
    assert(rest@ =~= bytes@.skip(1));
    match decode_exponent(rest, true) {
        Err(_) => false,
        Ok((_, k)) => bytes.len() > 1 + k && bytes[bytes.len() - 1] == TERMINATOR,
    }
}

/// The bytes with a negative mantissa put into the older layout; all other bytes
/// as they are.
pub fn to_legacy_encoding(bytes: &[u8]) -> (r: Result<Vec<u8>, DecimalError>)
    ensures
        match r {
            Ok(b) => legacy_bytes(bytes@) == Ok::<Seq<u8>, ErrorView>(b@),
            Err(e) => legacy_bytes(bytes@) == Err::<Seq<u8>, ErrorView>(e@),
        },
{
    let mut ds: Vec<u8> = Vec::new();
    match decode_parts_into(bytes, &mut ds) {
        Err(e) => Err(e),
        Ok(None) => Ok(copy_bytes(bytes)),
        Ok(Some(_)) => {
            if bytes[0] == SIGN_NEGATIVE {
                rewrite_negative(bytes, true)
            } else {
                Ok(copy_bytes(bytes))
            }
        },
    }
}

} // verus!
