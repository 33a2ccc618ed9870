//! The encodings byte by byte: what stands where in the bytes of a value, which bytes are
//! accepted, and how byte sequences and values are ordered.
use vstd::prelude::*;

use crate::digits;
use crate::encoding;
use crate::error::ErrorView;
use crate::order;
use crate::order::Order;
use crate::roundtrip;
use crate::special;
use crate::special::SpecialValue;
use crate::value;
use crate::value::Parts;
use crate::value::Value;

verus! {

/// The byte at `i`, with the inversion behind a zero byte taken back.
pub open spec fn plain(b: Seq<u8>, i: int) -> int {
    if b[0] == 0 {
        255 - b[i]
    } else {
        b[i] as int
    }
}

/// The first two bytes behind the sign byte.
pub open spec fn head(b: Seq<u8>) -> int {
    plain(b, 1) * 256 + plain(b, 2)
}

/// The four bytes behind those.
pub open spec fn long_exponent(b: Seq<u8>) -> int {
    ((plain(b, 3) * 256 + plain(b, 4)) * 256 + plain(b, 5)) * 256 + plain(b, 6)
}

/// A sign byte of 0 or 255 and an exponent: two bytes from 1 to 65532, or 65533 and four
/// bytes from 49149 to 131072.
pub open spec fn starts_number(b: Seq<u8>) -> bool {
    &&& b.len() >= 3
    &&& b[0] == 0 || b[0] == 255
    &&& 0 < head(b) < 65533 || (head(b) == 65533 && b.len() >= 7 && 49148 < long_exponent(b)
        <= 131072)
}

/// The exponent: two bytes hold it with 16384 added to it.
pub open spec fn exponent(b: Seq<u8>) -> int {
    if head(b) < 65533 {
        head(b) - 16384
    } else {
        long_exponent(b)
    }
}

/// Where the digits start.
pub open spec fn start(b: Seq<u8>) -> int {
    if head(b) < 65533 {
        3
    } else {
        7
    }
}

/// The digits of a negative number are followed by a byte of 255.
pub open spec fn ended(b: Seq<u8>) -> bool {
    b[0] == 0 && b.len() > start(b) && b.last() == 255
}

/// The number of halves of the bytes that hold digits.
pub open spec fn halves(b: Seq<u8>) -> int {
    2 * (b.len() - start(b) - (if ended(b) {
        1int
    } else {
        0
    }))
}

/// The digit in a half of a byte: as it is for a positive number, taken from nine for a
/// negative one that has its end byte, and from the inverted byte for one that has none.
pub open spec fn half(b: Seq<u8>, j: int) -> int {
    let at = b[start(b) + j / 2] as int;
    let x = if b[0] == 0 && !ended(b) {
        255 - at
    } else {
        at
    };
    let h = if j % 2 == 0 {
        x / 16
    } else {
        x % 16
    };
    if ended(b) {
        9 - h
    } else {
        h
    }
}

/// There is a digit in that half.
pub open spec fn digit_at(b: Seq<u8>, j: int) -> bool {
    0 <= half(b, j) <= 9
}

/// The bytes of a number other than zero.
pub open spec fn is_number(b: Seq<u8>) -> bool {
    starts_number(b) && forall|j: int| 0 <= j < halves(b) ==> #[trigger] digit_at(b, j)
}

/// The bytes hold these digits, and zeros behind them, which are left out but for one digit.
pub open spec fn holds(b: Seq<u8>, ds: Seq<u8>) -> bool {
    &&& ds.len() <= halves(b)
    &&& forall|j: int| 0 <= j < ds.len() ==> #[trigger] ds[j] == half(b, j)
    &&& forall|j: int| ds.len() <= j < halves(b) ==> #[trigger] half(b, j) == 0
    &&& ds.len() > 1 ==> ds.last() != 0
    &&& halves(b) > 0 ==> ds.len() > 0
}

/// The three bytes of a special value.
pub open spec fn special_bytes_of(v: SpecialValue) -> Seq<u8> {
    match v {
        SpecialValue::NegInfinity => seq![0u8, 0u8, 0u8],
        SpecialValue::Infinity => seq![255u8, 255u8, 254u8],
        SpecialValue::NaN => seq![255u8, 255u8, 255u8],
    }
}

// ==================== Reading ====================

/// What the exponent and the halves of the bytes are read as.
#[verifier::rlimit(40)]
proof fn lemma_raw(b: Seq<u8>)
    requires
        b.len() > 0,
        b[0] == 0 || b[0] == 255,
    ensures
        match encoding::exponent_of(b.skip(1), b[0] == 0) {
            None => !starts_number(b),
            Some((e, k)) => starts_number(b) && e == exponent(b) && 1 + k == start(b) && ({
                let raw = encoding::raw_digits(b.skip(1 + k as int), b[0] == 0);
                &&& raw.len() == halves(b)
                &&& forall|j: int|
                    0 <= j < raw.len() ==> (#[trigger] raw[j] <= 9 <==> digit_at(b, j)) && (raw[j]
                        <= 9 ==> raw[j] == half(b, j))
            }),
        },
{
    let negative = b[0] == 0;
    let rest = b.skip(1);
    let c = if negative {
        encoding::invert(rest)
    } else {
        rest
    };
    assert forall|i: int| 1 <= i < b.len() implies c[i - 1] == #[trigger] plain(b, i) by {}
    if b.len() >= 3 {
        assert(c[0] == plain(b, 1) && c[1] == plain(b, 2));
    }
    if b.len() >= 7 {
        assert(c[2] == plain(b, 3) && c[3] == plain(b, 4) && c[4] == plain(b, 5) && c[5] == plain(
            b,
            6,
        ));
    }
    if let Some((e, k)) = encoding::exponent_of(rest, negative) {
        let m = b.skip(1 + k as int);
        let raw = encoding::raw_digits(m, negative);
        assert forall|j: int| 0 <= j < raw.len() implies (#[trigger] raw[j] <= 9 <==> digit_at(b, j))
            && (raw[j] <= 9 ==> raw[j] == half(b, j)) by {
            assert(m[j / 2] == b[start(b) + j / 2]);
        }
    }
}

/// Bytes decode to a special value, to zero or to a number exactly where they are its bytes,
/// and the parts of the number are those that stand in them.
#[verifier::rlimit(40)]
pub proof fn law_decode(b: Seq<u8>)
    ensures
        match encoding::decode(b) {
            None => b.len() == 0 || (b[0] != 128 && !is_number(b) && forall|v: SpecialValue|
                b != #[trigger] special_bytes_of(v)),
            Some(Value::Special(v)) => b == special_bytes_of(v),
            Some(Value::Finite(p)) => b.len() > 0 && (if b[0] == 128 {
                p.digits.len() == 0 && !p.negative && p.exponent == 0
            } else {
                is_number(b) && p.negative == (b[0] == 0) && p.exponent == exponent(b) && holds(
                    b,
                    p.digits,
                )
            }),
        },
{
    if b.len() > 0 {
        assert forall|v: SpecialValue| #[trigger]
            special_bytes_of(v) == special::special_bytes(v) by {}
        if b[0] == 0 || b[0] == 255 {
            lemma_raw(b);
            if let Some((e, k)) = encoding::exponent_of(b.skip(1), b[0] == 0) {
                let raw = encoding::raw_digits(b.skip(1 + k as int), b[0] == 0);
                let t = digits::strip_trailing(raw);
                digits::lemma_strip_trailing(raw);
                if digits::all_digits(raw) {
                    assert forall|j: int| 0 <= j < halves(b) implies #[trigger] digit_at(b, j) by {
                        assert(raw[j] <= 9);
                    }
                    let ds = encoding::keep_one(raw);
                    assert forall|j: int| ds.len() <= j < halves(b) implies #[trigger] half(b, j)
                        == 0 by {
                        assert(raw[j] == digits::zero_digits((raw.len() - t.len()) as nat)[j
                            - t.len()]);
                        assert(raw[j] <= 9);
                    }
                    assert forall|j: int| 0 <= j < ds.len() implies #[trigger] ds[j] == half(
                        b,
                        j,
                    ) by {
                        assert(raw[j] <= 9);
                        assert(ds[j] == raw[j]);
                    }
                } else {
                    let j = choose|j: int| 0 <= j < raw.len() && !(#[trigger] raw[j] <= 9);
                    assert(!digit_at(b, j));
                }
            }
        } else if special::special_of_bytes(b) is Some {
            assert(b[0] == 0 || b[0] == 255);
        }
    }
}

/// What a buffer holds where its bytes were refused: the pairs of digits before the first
/// pair that is none, where the exponent was read, and else what it held before.
pub proof fn law_buffer(b: Seq<u8>, before: Seq<u8>)
    requires
        encoding::decode(b) is None,
    ensures
        ({
            let r = encoding::buffer_on_failure(b, before);
            if starts_number(b) {
                &&& r.len() % 2 == 0
                &&& r.len() + 2 <= halves(b)
                &&& forall|j: int| 0 <= j < r.len() ==> #[trigger] r[j] <= 9 && r[j] == half(b, j)
                &&& !digit_at(b, r.len() as int) || !digit_at(b, r.len() as int + 1)
            } else {
                r == before
            }
        }),
{
    if b.len() > 0 && (b[0] == 0 || b[0] == 255) {
        lemma_raw(b);
        if let Some((e, k)) = encoding::exponent_of(b.skip(1), b[0] == 0) {
            let raw = encoding::raw_digits(b.skip(1 + k as int), b[0] == 0);
            lemma_pairs(raw);
            let r = encoding::digit_pairs(raw);
            assert forall|j: int| 0 <= j < r.len() implies #[trigger] r[j] <= 9 && r[j] == half(
                b,
                j,
            ) by {
                assert(r[j] == raw[j]);
            }
            if r.len() == raw.len() {
                assert(digits::all_digits(raw)) by {
                    assert(r =~= raw);
                }
                assert(false);
            }
        }
    }
}

proof fn lemma_pairs(ds: Seq<u8>)
    requires
        ds.len() % 2 == 0,
    ensures
        ({
            let r = encoding::digit_pairs(ds);
            &&& r.len() % 2 == 0
            &&& r.len() <= ds.len()
            &&& forall|j: int| 0 <= j < r.len() ==> #[trigger] r[j] == ds[j] && r[j] <= 9
            &&& r.len() < ds.len() ==> ds[r.len() as int] > 9 || ds[r.len() as int + 1] > 9
        }),
    decreases ds.len(),
{
    let r = encoding::digit_pairs(ds);
    if ds.len() >= 2 && ds[0] <= 9 && ds[1] <= 9 {
        let t = ds.skip(2);
        lemma_pairs(t);
        let s = encoding::digit_pairs(t);
        assert forall|j: int| 0 <= j < r.len() implies #[trigger] r[j] == ds[j] && r[j] <= 9 by {
            if j >= 2 {
                assert(r[j] == s[j - 2]);
            }
        }
    }
}

// ==================== Writing ====================

/// The bytes of a number other than zero: a sign byte of 255 or 0, the exponent, in two bytes
/// where it is at most 49148, and two digits to a byte, with a zero behind an odd number of
/// them. Those of a negative number end with a byte of 255. Zero is a single byte of 128.
#[verifier::rlimit(40)]
pub proof fn law_encode(p: Parts)
    requires
        p.wf(),
    ensures
        ({
            let b = encoding::encode(Value::Finite(p));
            let n = p.digits.len() as int;
            if n == 0 {
                b == seq![128u8]
            } else {
                &&& is_number(b)
                &&& b[0] == (if p.negative {
                    0u8
                } else {
                    255u8
                })
                &&& head(b) < 65533 <==> p.exponent <= 49148
                &&& exponent(b) == p.exponent
                &&& ended(b) == p.negative
                &&& halves(b) == n + n % 2
                &&& forall|j: int| 0 <= j < n ==> half(b, j) == #[trigger] p.digits[j]
                &&& n % 2 == 1 ==> half(b, n) == 0
            }
        }),
{
    let v = Value::Finite(p);
    let b = encoding::encode(v);
    let n = p.digits.len() as int;
    roundtrip::law_decode_encode(v);
    if n > 0 {
        lemma_shape(p);
        law_decode(b);
        lemma_written(b, p);
    }
}

/// Bytes that hold the parts of a number, and no more of them than those take.
proof fn lemma_written(b: Seq<u8>, p: Parts)
    requires
        is_number(b),
        p.digits.len() > 0,
        exponent(b) == p.exponent,
        holds(b, p.digits),
        b[0] == (if p.negative {
            0u8
        } else {
            255u8
        }),
        b.len() == start(b) + (p.digits.len() + 1) / 2 + (if p.negative {
            1int
        } else {
            0
        }),
        p.negative ==> b.last() == 255,
    ensures
        head(b) < 65533 <==> p.exponent <= 49148,
        ended(b) == p.negative,
        halves(b) == p.digits.len() + p.digits.len() % 2,
        forall|j: int| 0 <= j < p.digits.len() ==> half(b, j) == #[trigger] p.digits[j],
        p.digits.len() % 2 == 1 ==> half(b, p.digits.len() as int) == 0,
{
}

/// The length and the ends of the bytes of a number other than zero.
#[verifier::rlimit(40)]
proof fn lemma_shape(p: Parts)
    requires
        p.wf(),
        p.digits.len() > 0,
    ensures
        ({
            let b = encoding::encode(Value::Finite(p));
            let n = p.digits.len() as int;
            &&& b[0] == (if p.negative {
                0u8
            } else {
                255u8
            })
            &&& b.len() == start(b) + (n + 1) / 2 + (if p.negative {
                1int
            } else {
                0
            })
            &&& p.negative ==> b.last() == 255
        }),
{
    let b = encoding::encode(Value::Finite(p));
    let n = p.digits.len() as int;
    let e = encoding::exponent_bytes(p.exponent, p.negative);
    let m = encoding::mantissa_bytes(p.digits, p.negative);
    assert(m.len() == (n + 1) / 2 + (if p.negative {
        1int
    } else {
        0
    }));
    assert(p.negative ==> m.last() == 255);
    roundtrip::lemma_encoded_parts(p, m);
    assert(b == seq![encoding::sign_byte(p.negative)] + e + m);
    assert(b.last() == m.last());
    lemma_raw(b);
}

/// The bytes of any digits: two to a byte, with a zero behind an odd number of them. For a
/// negative number each is taken from nine, and a byte of 255 follows.
pub proof fn law_mantissa(ds: Seq<u8>, negative: bool)
    requires
        digits::all_digits(ds),
    ensures
        ({
            let m = encoding::mantissa_bytes(ds, negative);
            let k = (ds.len() + 1) / 2;
            &&& m.len() == (if negative {
                k + 1
            } else {
                k
            })
            &&& negative ==> m.last() == 255
            &&& forall|i: int|
                0 <= i < k ==> #[trigger] m[i] == ({
                    let high = ds[2 * i];
                    let low = if 2 * i + 1 < ds.len() {
                        ds[2 * i + 1]
                    } else {
                        0
                    };
                    if negative {
                        (9 - high) * 16 + (9 - low)
                    } else {
                        high * 16 + low
                    }
                })
        }),
{
    let m = encoding::mantissa_bytes(ds, negative);
    assert forall|i: int| 0 <= i < (ds.len() + 1) / 2 implies #[trigger] m[i] == ({
        let high = ds[2 * i];
        let low = if 2 * i + 1 < ds.len() {
            ds[2 * i + 1]
        } else {
            0
        };
        if negative {
            (9 - high) * 16 + (9 - low)
        } else {
            high * 16 + low
        }
    }) by {
        assert(ds[2 * i] <= 9);
        if 2 * i + 1 < ds.len() {
            assert(ds[2 * i + 1] <= 9);
        }
    }
}

/// The special values have three bytes each.
pub proof fn law_encode_special(v: SpecialValue)
    ensures
        encoding::encode(Value::Special(v)) == special_bytes_of(v),
        special::special_of_bytes(special_bytes_of(v)) == Some(v),
{
    roundtrip::law_decode_encode(Value::Special(v));
    assert(special_bytes_of(v) =~= special::special_bytes(v));
    assert(special_bytes_of(v)[2] == (match v {
        SpecialValue::NegInfinity => 0u8,
        SpecialValue::Infinity => 254u8,
        SpecialValue::NaN => 255u8,
    }));
}

// ==================== The two layouts ====================

/// Bringing bytes into the current layout changes only those of a negative number that has
/// no end byte: it keeps their sign, exponent and digits and adds the end byte. Bytes that
/// do not decode are refused.
#[verifier::rlimit(40)]
pub proof fn law_canonical(b: Seq<u8>)
    ensures
        match encoding::canonical_bytes(b) {
            Err(e) => encoding::decode(b) is None && e == ErrorView::InvalidEncoding,
            Ok(c) => if is_number(b) && b[0] == 0 && !ended(b) {
                &&& encoding::decode(b) matches Some(Value::Finite(p)) && halves(c)
                    == p.digits.len() + p.digits.len() % 2
                &&& encoding::decode(c) == encoding::decode(b)
                &&& c.take(start(b)) == b.take(start(b))
                &&& ended(c)
            } else {
                encoding::decode(b) is Some && c == b
            },
        },
{
    law_decode(b);
    roundtrip::law_canonical_decode(b);
    if b.len() > 0 && (b[0] == 0 || b[0] == 255) {
        lemma_raw(b);
        if let Some((e, k)) = encoding::exponent_of(b.skip(1), b[0] == 0) {
            let m = b.skip(1 + k as int);
            if m.len() > 0 {
                assert(m.last() == b.last());
            }
            if is_number(b) && b[0] == 0 && !ended(b) {
                assert forall|v: SpecialValue| b != #[trigger] special_bytes_of(v) by {
                    assert(special_bytes_of(v).len() == 3);
                    if b == special_bytes_of(v) {
                        assert(b[1] == special_bytes_of(v)[1] && b[2] == special_bytes_of(v)[2]);
                    }
                }
                assert(encoding::decode(b) is Some);
                assert(encoding::is_negative_number(b));
                let c = encoding::canonical_bytes(b)->Ok_0;
                let ds = encoding::mantissa_digits(m, true)->0;
                let n = encoding::mantissa_bytes(ds, true);
                assert(c =~= b.take(start(b)) + n);
                assert(c.take(start(b)) =~= b.take(start(b)));
                assert(c[0] == b[0] && c[1] == b[1] && c[2] == b[2]);
                assert(c.last() == n.last());
            }
        }
    }
}

/// Bringing bytes into the older layout changes only those of a negative number: it keeps
/// their sign and exponent, and two digits to a byte follow, inverted and without an end
/// byte. Bytes that do not decode are refused.
#[verifier::rlimit(40)]
pub proof fn law_legacy(b: Seq<u8>)
    ensures
        match encoding::legacy_bytes(b) {
            Err(e) => encoding::decode(b) is None && e == ErrorView::InvalidEncoding,
            Ok(c) => if is_number(b) && b[0] == 0 {
                encoding::decode(b) matches Some(Value::Finite(p)) && ({
                    let n = p.digits.len() as int;
                    let s = start(b);
                    &&& c.take(s) == b.take(s)
                    &&& c.len() == s + (n + 1) / 2
                    &&& forall|i: int|
                        0 <= i < (n + 1) / 2 ==> 255 - #[trigger] c[s + i] == p.digits[2 * i] * 16
                            + (if 2 * i + 1 < n {
                            p.digits[2 * i + 1] as int
                        } else {
                            0
                        })
                })
            } else {
                encoding::decode(b) is Some && c == b
            },
        },
{
    law_decode(b);
    encoding::lemma_decoded_digits(b);
    if b.len() > 0 && (b[0] == 0 || b[0] == 255) {
        lemma_raw(b);
        if let Some((e, k)) = encoding::exponent_of(b.skip(1), b[0] == 0) {
            let m = b.skip(1 + k as int);
            if is_number(b) && b[0] == 0 {
                assert forall|v: SpecialValue| b != #[trigger] special_bytes_of(v) by {
                    assert(special_bytes_of(v).len() == 3);
                    if b == special_bytes_of(v) {
                        assert(b[1] == special_bytes_of(v)[1] && b[2] == special_bytes_of(v)[2]);
                    }
                }
                assert(encoding::decode(b) is Some);
                assert(encoding::is_negative_number(b));
                let c = encoding::legacy_bytes(b)->Ok_0;
                let ds = encoding::mantissa_digits(m, true)->0;
                let l = encoding::legacy_mantissa_bytes(ds, true);
                let s = start(b);
                assert(c =~= b.take(s) + l);
                assert(c.take(s) =~= b.take(s));
                assert forall|i: int| 0 <= i < (ds.len() + 1) / 2 implies 255 - #[trigger] c[s + i]
                    == ds[2 * i] * 16 + (if 2 * i + 1 < ds.len() {
                    ds[2 * i + 1] as int
                } else {
                    0
                }) by {
                    assert(c[s + i] == l[i]);
                    assert(ds[2 * i] <= 9);
                    if 2 * i + 1 < ds.len() {
                        assert(ds[2 * i + 1] <= 9);
                    }
                }
            }
        }
    }
}

// ==================== Order ====================

/// Byte sequences are ordered by the first byte in which they differ, and the front of a
/// longer one comes before it.
pub proof fn law_bytes_order(a: Seq<u8>, b: Seq<u8>, i: int)
    requires
        0 <= i <= a.len(),
        i <= b.len(),
        forall|j: int| 0 <= j < i ==> a[j] == b[j],
        i < a.len() && i < b.len() ==> a[i] != b[i],
    ensures
        i < a.len() && i < b.len() ==> order::bytes_order(a, b) == (if a[i] < b[i] {
            Order::Less
        } else {
            Order::Greater
        }),
        i == a.len() && i < b.len() ==> order::bytes_order(a, b) == Order::Less,
        i < a.len() && i == b.len() ==> order::bytes_order(a, b) == Order::Greater,
        i == a.len() && i == b.len() ==> order::bytes_order(a, b) == Order::Equal,
{
    order::lemma_bytes_lt_irreflexive(a);
    order::lemma_bytes_lt_irreflexive(b);
    order::lemma_bytes_lt_asymmetric(a, b);
    if i == a.len() && i == b.len() {
        assert(a =~= b);
    } else if i < b.len() && (i == a.len() || a[i] < b[i]) {
        assert(order::first_lesser_at(a, b, i));
    } else {
        assert(order::first_lesser_at(b, a, i));
    }
}

/// The order of values: negative infinity, then the numbers by how often any unit that
/// divides both goes into them, then positive infinity, then NaN.
pub proof fn law_value_order(v: Value, w: Value, u: int)
    requires
        v.wf(),
        w.wf(),
        v matches Value::Finite(p) ==> u <= p.unit(),
        w matches Value::Finite(q) ==> u <= q.unit(),
    ensures
        match (v, w) {
            (Value::Finite(p), Value::Finite(q)) => (value::value_lt(v, w) <==> p.scaled(u)
                < q.scaled(u)) && (v == w <==> p.scaled(u) == q.scaled(u)),
            (Value::Finite(_), Value::Special(s)) => value::value_lt(v, w) == (s
                != SpecialValue::NegInfinity),
            (Value::Special(s), Value::Finite(_)) => value::value_lt(v, w) == (s
                == SpecialValue::NegInfinity),
            (Value::Special(s), Value::Special(t)) => value::value_lt(v, w) == (s != t && (s
                == SpecialValue::NegInfinity || t == SpecialValue::NaN)),
        },
{
    if let (Value::Finite(p), Value::Finite(q)) = (v, w) {
        order::lemma_parts_lt_unit(p, q, u);
    }
}

/// A number is normalized where its first and last digits are not zero and its exponent lies
/// from -16383 to 131072; zero has no digits, no sign and no exponent.
pub proof fn law_normalized(p: Parts)
    ensures
        p.wf() <==> if p.digits.len() == 0 {
            !p.negative && p.exponent == 0
        } else {
            p.digits[0] != 0 && p.digits[p.digits.len() - 1] != 0 && -16383 <= p.exponent <= 131072
                && forall|i: int| 0 <= i < p.digits.len() ==> #[trigger] p.digits[i] < 10
        },
{
    if p.digits.len() == 0 && !p.negative && p.exponent == 0 {
        assert(p =~= value::zero_parts());
    }
    if p.digits.len() > 0 && p.wf() {
        assert forall|i: int| 0 <= i < p.digits.len() implies #[trigger] p.digits[i] < 10 by {
            assert(p.digits[i] <= 9);
        }
    }
}

} // verus!
