//! The order of byte sequences, and why the encoding keeps the order of values.
use vstd::prelude::*;

use crate::digits;
use crate::encoding;
use crate::special;
use crate::special::SpecialValue;
use crate::value;
use crate::value::Parts;
use crate::value::Value;

verus! {

/// `a` and `b` agree before `i`, and at `i` either `a` has ended and `b` has not
/// or `a` has the lesser byte.
pub open spec fn first_lesser_at(a: Seq<u8>, b: Seq<u8>, i: int) -> bool {
    &&& 0 <= i <= a.len()
    &&& i < b.len()
    &&& forall|j: int| 0 <= j < i ==> a[j] == b[j]
    &&& (i == a.len() || a[i] < b[i])
}

/// The lexicographic order of byte sequences.
pub open spec fn bytes_lt(a: Seq<u8>, b: Seq<u8>) -> bool {
    exists|i: int| first_lesser_at(a, b, i)
}

/// How two byte sequences compare.
pub enum Order {
    Less,
    Equal,
    Greater,
}

/// The order that the byte sequences are in.
pub open spec fn bytes_order(a: Seq<u8>, b: Seq<u8>) -> Order {
    if a == b {
        Order::Equal
    } else if bytes_lt(a, b) {
        Order::Less
    } else {
        Order::Greater
    }
}

// ==================== Lexicographic order ====================

pub proof fn lemma_bytes_lt_irreflexive(a: Seq<u8>)
    ensures
        !bytes_lt(a, a),
{
}

pub proof fn lemma_bytes_lt_asymmetric(a: Seq<u8>, b: Seq<u8>)
    ensures
        !(bytes_lt(a, b) && bytes_lt(b, a)),
{
    if bytes_lt(a, b) && bytes_lt(b, a) {
        let i = choose|i: int| first_lesser_at(a, b, i);
        let j = choose|j: int| first_lesser_at(b, a, j);
        if i < j {
            assert(b[i] == a[i]);
        } else if j < i {
            assert(a[j] == b[j]);
        }
        assert(false);
    }
}

pub proof fn lemma_bytes_lt_transitive(a: Seq<u8>, b: Seq<u8>, c: Seq<u8>)
    requires
        bytes_lt(a, b),
        bytes_lt(b, c),
    ensures
        bytes_lt(a, c),
{
    let i = choose|i: int| first_lesser_at(a, b, i);
    let j = choose|j: int| first_lesser_at(b, c, j);
    let k = if i < j {
        i
    } else {
        j
    };
    assert forall|m: int| 0 <= m < k implies a[m] == c[m] by {
        assert(a[m] == b[m]);
        assert(b[m] == c[m]);
    }
    if i < j {
        assert(b[i] == c[i]);
    } else if j < i {
        assert(a[j] == b[j]);
    }
    assert(first_lesser_at(a, c, k));
}

/// Two byte sequences are equal or one is less than the other.
pub proof fn lemma_bytes_lt_total(a: Seq<u8>, b: Seq<u8>)
    ensures
        a == b || bytes_lt(a, b) || bytes_lt(b, a),
{
    lemma_first_difference(a, b, 0);
}

proof fn lemma_first_difference(a: Seq<u8>, b: Seq<u8>, i: int)
    requires
        0 <= i <= a.len(),
        i <= b.len(),
        forall|j: int| 0 <= j < i ==> a[j] == b[j],
    ensures
        a == b || bytes_lt(a, b) || bytes_lt(b, a),
    decreases a.len() - i,
{
    if i == a.len() || i == b.len() {
        if a.len() == b.len() {
            assert(a =~= b);
        } else if i == a.len() {
            assert(first_lesser_at(a, b, i));
        } else {
            assert(first_lesser_at(b, a, i));
        }
    } else if a[i] == b[i] {
        lemma_first_difference(a, b, i + 1);
    } else if a[i] < b[i] {
        assert(first_lesser_at(a, b, i));
    } else {
        assert(first_lesser_at(b, a, i));
    }
}

/// A difference inside `a` and `b` decides whatever follows.
proof fn lemma_decided(a: Seq<u8>, x: Seq<u8>, b: Seq<u8>, y: Seq<u8>, i: int)
    requires
        first_lesser_at(a, b, i),
        i < a.len(),
    ensures
        bytes_lt(a + x, b + y),
{
    assert(first_lesser_at(a + x, b + y, i)) by {
        assert forall|j: int| 0 <= j < i implies (a + x)[j] == (b + y)[j] by {
            assert(a[j] == b[j]);
        }
    }
}

/// Equal fronts do not count.
proof fn lemma_common_front(c: Seq<u8>, a: Seq<u8>, b: Seq<u8>)
    requires
        bytes_lt(a, b),
    ensures
        bytes_lt(c + a, c + b),
{
    let i = choose|i: int| first_lesser_at(a, b, i);
    assert(first_lesser_at(c + a, c + b, c.len() + i)) by {
        assert forall|j: int| 0 <= j < c.len() + i implies (c + a)[j] == (c + b)[j] by {
            if j >= c.len() {
                assert(a[j - c.len()] == b[j - c.len()]);
            }
        }
    }
}

// ==================== Magnitudes ====================

/// The magnitude `0.a * 10^e` is less than `0.b * 10^f`, by exponent and then by
/// digits.
pub open spec fn magnitude_lt(a: Seq<u8>, e: int, b: Seq<u8>, f: int) -> bool {
    e < f || (e == f && bytes_lt(a, b))
}

/// Normalized digits.
pub open spec fn normal(ds: Seq<u8>) -> bool {
    ds.len() > 0 && digits::all_digits(ds) && ds[0] != 0 && ds.last() != 0
}

proof fn lemma_all_digits_skip(ds: Seq<u8>, i: int)
    requires
        digits::all_digits(ds),
        0 <= i <= ds.len(),
    ensures
        digits::all_digits(ds.skip(i)),
{
    assert forall|j: int| 0 <= j < ds.len() - i implies #[trigger] ds.skip(i)[j] <= 9 by {
        assert(ds[i + j] <= 9);
    }
}

/// `number(ds) * 10^(k - len)` split at digit `i`.
proof fn lemma_split(ds: Seq<u8>, i: int, k: nat)
    requires
        0 <= i <= ds.len() <= k,
    ensures
        digits::number(ds) * digits::pow10((k - ds.len()) as nat) == digits::number(ds.take(i))
            * digits::pow10((k - i) as nat) + digits::number(ds.skip(i)) * digits::pow10(
            (k - ds.len()) as nat,
        ),
{
    let n = ds.len();
    let c = ds.take(i);
    let t = ds.skip(i);
    assert(ds =~= c + t);
    digits::lemma_number_concat(c, t);
    digits::lemma_pow10_add((n - i) as nat, (k - n) as nat);
    let x = digits::number(c);
    let y = digits::number(t);
    let p = digits::pow10((n - i) as nat);
    let q = digits::pow10((k - n) as nat);
    assert(((n - i) as nat) + ((k - n) as nat) == (k - i) as nat);
    assert((x * p + y) * q == x * (p * q) + y * q) by (nonlinear_arith);
}

/// Digits below a power of ten, scaled.
proof fn lemma_scaled_bound(ds: Seq<u8>, k: nat)
    requires
        digits::all_digits(ds),
        ds.len() <= k,
    ensures
        digits::number(ds) * digits::pow10((k - ds.len()) as nat) < digits::pow10(k),
{
    let n = ds.len();
    digits::lemma_number_bound(ds);
    digits::lemma_pow10_add(n, (k - n) as nat);
    digits::lemma_pow10_pos((k - n) as nat);
    let x = digits::number(ds);
    let p = digits::pow10(n);
    let q = digits::pow10((k - n) as nat);
    assert(x * q < p * q) by (nonlinear_arith)
        requires
            x < p,
            q > 0,
    ;
}

/// Digits with a nonzero first one, scaled.
proof fn lemma_scaled_lower(ds: Seq<u8>, k: nat)
    requires
        ds.len() > 0,
        ds[0] != 0,
        ds.len() <= k,
    ensures
        digits::number(ds) * digits::pow10((k - ds.len()) as nat) >= digits::pow10(
            (k - 1) as nat,
        ),
{
    let n = ds.len();
    digits::lemma_number_lower(ds);
    digits::lemma_pow10_add((n - 1) as nat, (k - n) as nat);
    let x = digits::number(ds);
    let p = digits::pow10((n - 1) as nat);
    let q = digits::pow10((k - n) as nat);
    assert(((n - 1) as nat) + ((k - n) as nat) == (k - 1) as nat);
    assert(x * q >= p * q) by (nonlinear_arith)
        requires
            x >= p,
            q >= 0,
    ;
}

/// The order of digits is the order of the numbers, brought to the same length.
proof fn lemma_digits_order(a: Seq<u8>, b: Seq<u8>, k: nat)
    requires
        normal(a),
        normal(b),
        a.len() <= k,
        b.len() <= k,
        bytes_lt(a, b),
    ensures
        digits::number(a) * digits::pow10((k - a.len()) as nat) < digits::number(b)
            * digits::pow10((k - b.len()) as nat),
{
    let i = choose|i: int| first_lesser_at(a, b, i);
    lemma_split(a, i, k);
    lemma_split(b, i, k);
    assert(a.take(i) =~= b.take(i));
    let s = a.skip(i);
    let t = b.skip(i);
    lemma_all_digits_skip(a, i);
    lemma_all_digits_skip(b, i);
    let p = digits::pow10((k - a.len()) as nat);
    let q = digits::pow10((k - b.len()) as nat);
    digits::lemma_pow10_pos((k - b.len()) as nat);
    let y = digits::number(t);
    if i == a.len() {
        assert(s =~= Seq::<u8>::empty());
        assert(digits::number(s) == 0);
        assert(0nat * p == 0) by (nonlinear_arith);
        assert(t.last() == b.last());
        digits::lemma_number_last_nonzero(t);
        assert(y * q > 0) by (nonlinear_arith)
            requires
                y > 0,
                q > 0,
        ;
    } else {
        let m = (k - i) as nat;
        assert((m - s.len()) as nat == (k - a.len()) as nat);
        assert((m - t.len()) as nat == (k - b.len()) as nat);
        lemma_split(s, 1, m);
        lemma_split(t, 1, m);
        let s1 = s.skip(1);
        let t1 = t.skip(1);
        lemma_all_digits_skip(s, 1);
        let m1 = (m - 1) as nat;
        lemma_scaled_bound(s1, m1);
        assert((m1 - s1.len()) as nat == (m - s.len()) as nat);
        assert(s.take(1) =~= seq![a[i]]);
        assert(t.take(1) =~= seq![b[i]]);
        lemma_one_digit(a[i]);
        lemma_one_digit(b[i]);
        let w = digits::pow10(m1);
        let x0 = a[i] as nat;
        let y0 = b[i] as nat;
        assert((x0 + 1) * w <= y0 * w) by (nonlinear_arith)
            requires
                x0 + 1 <= y0,
        ;
        assert((x0 + 1) * w == x0 * w + w) by (nonlinear_arith);
        let z = digits::number(t1);
        assert(z * q >= 0) by (nonlinear_arith);
    }
}

proof fn lemma_one_digit(d: u8)
    ensures
        digits::number(seq![d]) == d as nat,
{
    assert(seq![d].drop_last() =~= Seq::<u8>::empty());
    assert(digits::number(Seq::<u8>::empty()) == 0);
}

/// The order of magnitudes by exponent and digits is their order as numbers.
proof fn lemma_magnitude_order(a: Seq<u8>, e: int, b: Seq<u8>, f: int, u: int)
    requires
        normal(a),
        normal(b),
        u <= e - a.len(),
        u <= f - b.len(),
        magnitude_lt(a, e, b, f),
    ensures
        digits::number(a) * digits::pow10((e - a.len() - u) as nat) < digits::number(b)
            * digits::pow10((f - b.len() - u) as nat),
{
    let k = (e - u) as nat;
    let l = (f - u) as nat;
    assert((k - a.len()) as nat == (e - a.len() - u) as nat);
    assert((l - b.len()) as nat == (f - b.len() - u) as nat);
    if e < f {
        lemma_scaled_bound(a, k);
        lemma_scaled_lower(b, l);
        digits::lemma_pow10_mono(k, (l - 1) as nat);
    } else {
        lemma_digits_order(a, b, k);
    }
}

/// A nonzero magnitude is positive.
proof fn lemma_magnitude_positive(a: Seq<u8>, n: nat)
    requires
        normal(a),
    ensures
        digits::number(a) * digits::pow10(n) > 0,
{
    digits::lemma_number_last_nonzero(a);
    digits::lemma_pow10_pos(n);
    let x = digits::number(a);
    let p = digits::pow10(n);
    assert(x * p > 0) by (nonlinear_arith)
        requires
            x > 0,
            p > 0,
    ;
}

// ==================== Exponents ====================

/// Exponent bytes in order, and inverted ones in reverse, decided at once.
proof fn lemma_exponent_order(e: int, f: int)
    requires
        value::MIN_EXPONENT <= e < f <= value::MAX_EXPONENT,
    ensures
        exists|i: int|
            first_lesser_at(encoding::exponent_bytes(e, false), encoding::exponent_bytes(f, false), i)
                && i < encoding::exponent_bytes(e, false).len(),
        exists|i: int|
            first_lesser_at(encoding::exponent_bytes(f, true), encoding::exponent_bytes(e, true), i)
                && i < encoding::exponent_bytes(f, true).len(),
{
    let a = encoding::exponent_bytes(e, false);
    let b = encoding::exponent_bytes(f, false);
    let i: int = if a[0] != b[0] {
        0
    } else if a[1] != b[1] {
        1
    } else if a[2] != b[2] {
        2
    } else if a[3] != b[3] {
        3
    } else if a[4] != b[4] {
        4
    } else {
        5
    };
    assert(first_lesser_at(a, b, i) && i < a.len());
    let c = encoding::exponent_bytes(e, true);
    let d = encoding::exponent_bytes(f, true);
    assert forall|j: int| 0 <= j < a.len() implies c[j] == 255 - a[j] by {}
    assert forall|j: int| 0 <= j < b.len() implies d[j] == 255 - b[j] by {}
    assert(first_lesser_at(d, c, i) && i < d.len());
}

// ==================== Mantissas ====================

/// The order of digits is the order of the packed bytes.
proof fn lemma_pack_order(a: Seq<u8>, b: Seq<u8>)
    requires
        normal(a),
        normal(b),
        bytes_lt(a, b),
    ensures
        bytes_lt(encoding::mantissa_bytes(a, false), encoding::mantissa_bytes(b, false)),
{
    let i = choose|i: int| first_lesser_at(a, b, i);
    let x = encoding::mantissa_bytes(a, false);
    let y = encoding::mantissa_bytes(b, false);
    let j = i / 2;
    assert forall|k: int| 0 <= k < j implies x[k] == y[k] by {
        assert(a[2 * k] == b[2 * k]);
        assert(a[2 * k + 1] == b[2 * k + 1]);
    }
    if i < a.len() {
        assert(a[i] <= 9 && b[i] <= 9);
        if i % 2 == 0 {
            if i + 1 < a.len() {
                assert(a[i + 1] <= 9);
            }
            if i + 1 < b.len() {
                assert(b[i + 1] <= 9);
            }
        } else {
            assert(a[i - 1] == b[i - 1]);
            assert(a[i - 1] <= 9);
        }
        assert(first_lesser_at(x, y, j));
    } else if i % 2 == 0 {
        assert(first_lesser_at(x, y, j));
    } else {
        assert(a[i - 1] == b[i - 1]);
        assert(a[i - 1] <= 9 && b[i] <= 9);
        if b[i] > 0 {
            assert(first_lesser_at(x, y, j));
        } else {
            assert(first_lesser_at(x, y, j + 1));
        }
    }
}

/// The order of digits is the reverse order of the bytes of negative mantissas.
proof fn lemma_pack_order_negative(a: Seq<u8>, b: Seq<u8>)
    requires
        normal(a),
        normal(b),
        bytes_lt(a, b),
    ensures
        bytes_lt(encoding::mantissa_bytes(b, true), encoding::mantissa_bytes(a, true)),
{
    let i = choose|i: int| first_lesser_at(a, b, i);
    let x = encoding::mantissa_bytes(a, true);
    let y = encoding::mantissa_bytes(b, true);
    let ca = encoding::complement(a);
    let cb = encoding::complement(b);
    let j = i / 2;
    assert forall|k: int| 0 <= k < a.len() implies ca[k] == 9 - a[k] by {
        assert(a[k] <= 9);
    }
    assert forall|k: int| 0 <= k < b.len() implies cb[k] == 9 - b[k] by {
        assert(b[k] <= 9);
    }
    assert forall|k: int| 0 <= k < j implies x[k] == y[k] by {
        assert(a[2 * k] == b[2 * k]);
        assert(a[2 * k + 1] == b[2 * k + 1]);
    }
    if i < a.len() {
        assert(a[i] <= 9 && b[i] <= 9);
        if i % 2 == 0 {
            if i + 1 < a.len() {
                assert(a[i + 1] <= 9);
            }
            if i + 1 < b.len() {
                assert(b[i + 1] <= 9);
            }
        } else {
            assert(a[i - 1] == b[i - 1]);
            assert(a[i - 1] <= 9);
        }
        assert(first_lesser_at(y, x, j));
    } else if i % 2 == 0 {
        assert(b[i] <= 9);
        if i + 1 < b.len() {
            assert(b[i + 1] <= 9);
        }
        assert(first_lesser_at(y, x, j));
    } else {
        assert(a[i - 1] == b[i - 1]);
        assert(a[i - 1] <= 9 && b[i] <= 9);
        if b[i] > 0 {
            assert(first_lesser_at(y, x, j));
        } else {
            assert(b[i + 1] <= 9);
            if i + 2 < b.len() {
                assert(b[i + 2] <= 9);
            }
            assert(first_lesser_at(y, x, j + 1));
        }
    }
}

// ==================== Numbers ====================

/// The order by sign, exponent and digits.
spec fn structural_lt(p: Parts, q: Parts) -> bool {
    if p.digits.len() == 0 {
        q.digits.len() > 0 && !q.negative
    } else if q.digits.len() == 0 {
        p.negative
    } else if p.negative != q.negative {
        p.negative
    } else if p.negative {
        magnitude_lt(q.digits, q.exponent, p.digits, p.exponent)
    } else {
        magnitude_lt(p.digits, p.exponent, q.digits, q.exponent)
    }
}

proof fn lemma_structural_total(p: Parts, q: Parts)
    requires
        p.wf(),
        q.wf(),
    ensures
        p == q || structural_lt(p, q) || structural_lt(q, p),
{
    lemma_bytes_lt_total(p.digits, q.digits);
    if p.digits == q.digits && p.exponent == q.exponent && p.negative == q.negative {
        assert(p =~= q);
    }
}

/// The structural order is the order of the numbers.
proof fn lemma_structural_numeric(p: Parts, q: Parts, u: int)
    requires
        p.wf(),
        q.wf(),
        u <= p.unit(),
        u <= q.unit(),
        structural_lt(p, q),
    ensures
        p.scaled(u) < q.scaled(u),
{
    let np = digits::pow10((p.unit() - u) as nat);
    let nq = digits::pow10((q.unit() - u) as nat);
    if p.digits.len() == 0 {
        assert(digits::number(p.digits) == 0);
        assert(0nat * np == 0) by (nonlinear_arith);
    } else {
        lemma_magnitude_positive(p.digits, (p.unit() - u) as nat);
    }
    if q.digits.len() == 0 {
        assert(digits::number(q.digits) == 0);
        assert(0nat * nq == 0) by (nonlinear_arith);
    } else {
        lemma_magnitude_positive(q.digits, (q.unit() - u) as nat);
    }
    if p.digits.len() > 0 && q.digits.len() > 0 && p.negative == q.negative {
        if p.negative {
            lemma_magnitude_order(q.digits, q.exponent, p.digits, p.exponent, u);
        } else {
            lemma_magnitude_order(p.digits, p.exponent, q.digits, q.exponent, u);
        }
    }
}

/// The structural order is the order of the encodings.
proof fn lemma_structural_bytes(p: Parts, q: Parts)
    requires
        p.wf(),
        q.wf(),
        structural_lt(p, q),
    ensures
        bytes_lt(encoding::encode_parts(p), encoding::encode_parts(q)),
{
    let a = encoding::encode_parts(p);
    let b = encoding::encode_parts(q);
    if p.digits.len() == 0 || q.digits.len() == 0 || p.negative != q.negative {
        assert(first_lesser_at(a, b, 0));
    } else {
        let neg = p.negative;
        let s = seq![encoding::sign_byte(neg)];
        let ep = encoding::exponent_bytes(p.exponent, neg);
        let eq = encoding::exponent_bytes(q.exponent, neg);
        let mp = encoding::mantissa_bytes(p.digits, neg);
        let mq = encoding::mantissa_bytes(q.digits, neg);
        assert(a =~= s + (ep + mp));
        assert(b =~= s + (eq + mq));
        if p.exponent != q.exponent {
            if neg {
                lemma_exponent_order(q.exponent, p.exponent);
            } else {
                lemma_exponent_order(p.exponent, q.exponent);
            }
            let i = choose|i: int| first_lesser_at(ep, eq, i) && i < ep.len();
            lemma_decided(ep, mp, eq, mq, i);
        } else {
            if neg {
                lemma_pack_order_negative(q.digits, p.digits);
            } else {
                lemma_pack_order(p.digits, q.digits);
            }
            lemma_common_front(ep, mp, mq);
        }
        lemma_common_front(s, ep + mp, eq + mq);
    }
}

/// Two normalized numbers are the same parts, or one is less than the other.
pub proof fn lemma_parts_total(p: Parts, q: Parts)
    requires
        p.wf(),
        q.wf(),
    ensures
        p == q || value::parts_lt(p, q) || value::parts_lt(q, p),
        !(value::parts_lt(p, q) && value::parts_lt(q, p)),
        value::parts_lt(p, q) <==> bytes_lt(encoding::encode_parts(p), encoding::encode_parts(q)),
{
    let u = if p.unit() < q.unit() {
        p.unit()
    } else {
        q.unit()
    };
    let a = encoding::encode_parts(p);
    let b = encoding::encode_parts(q);
    lemma_structural_total(p, q);
    lemma_bytes_lt_irreflexive(a);
    lemma_bytes_lt_asymmetric(a, b);
    if structural_lt(p, q) {
        lemma_structural_numeric(p, q, u);
        lemma_structural_bytes(p, q);
    }
    if structural_lt(q, p) {
        lemma_structural_numeric(q, p, u);
        lemma_structural_bytes(q, p);
    }
}

/// The order of numbers does not depend on the power of ten that they are
/// counted in.
pub proof fn lemma_parts_lt_unit(p: Parts, q: Parts, u: int)
    requires
        p.wf(),
        q.wf(),
        u <= p.unit(),
        u <= q.unit(),
    ensures
        value::parts_lt(p, q) <==> p.scaled(u) < q.scaled(u),
        p == q <==> p.scaled(u) == q.scaled(u),
{
    lemma_structural_total(p, q);
    let v = if p.unit() < q.unit() {
        p.unit()
    } else {
        q.unit()
    };
    if structural_lt(p, q) {
        lemma_structural_numeric(p, q, u);
        lemma_structural_numeric(p, q, v);
    }
    if structural_lt(q, p) {
        lemma_structural_numeric(q, p, u);
        lemma_structural_numeric(q, p, v);
    }
}

/// The encoding of a special value lies on its side of every number's.
proof fn lemma_special_bytes(p: Parts)
    requires
        p.wf(),
    ensures
        bytes_lt(special::special_bytes(SpecialValue::NegInfinity), encoding::encode_parts(p)),
        bytes_lt(encoding::encode_parts(p), special::special_bytes(SpecialValue::Infinity)),
        bytes_lt(encoding::encode_parts(p), special::special_bytes(SpecialValue::NaN)),
{
    let a = encoding::encode_parts(p);
    let lo = special::special_bytes(SpecialValue::NegInfinity);
    let hi = special::special_bytes(SpecialValue::Infinity);
    let nan = special::special_bytes(SpecialValue::NaN);
    if p.digits.len() == 0 {
        assert(first_lesser_at(lo, a, 0));
        assert(first_lesser_at(a, hi, 0));
        assert(first_lesser_at(a, nan, 0));
    } else {
        let e = encoding::exponent_bytes(p.exponent, p.negative);
        assert(a[1] == e[0]);
        assert(a[2] == e[1]);
        if p.negative {
            assert(first_lesser_at(a, hi, 0));
            assert(first_lesser_at(a, nan, 0));
            if a[1] > 0 {
                assert(first_lesser_at(lo, a, 1));
            } else {
                assert(first_lesser_at(lo, a, 2));
            }
        } else {
            assert(first_lesser_at(lo, a, 0));
            if a[1] < 0xFF {
                assert(first_lesser_at(a, hi, 1));
                assert(first_lesser_at(a, nan, 1));
            } else {
                assert(first_lesser_at(a, hi, 2));
                assert(first_lesser_at(a, nan, 2));
            }
        }
    }
}

/// Comparing encodings byte by byte compares the values: the encoding of `v`
/// comes before that of `w` exactly where `v` is less than `w`, and the encodings
/// are equal exactly where the values are.
pub proof fn law_byte_order(v: Value, w: Value)
    requires
        v.wf(),
        w.wf(),
    ensures
        bytes_lt(encoding::encode(v), encoding::encode(w)) <==> value::value_lt(v, w),
        encoding::encode(v) == encoding::encode(w) <==> v == w,
        v == w || value::value_lt(v, w) || value::value_lt(w, v),
{
    let a = encoding::encode(v);
    let b = encoding::encode(w);
    lemma_bytes_lt_irreflexive(a);
    lemma_bytes_lt_asymmetric(a, b);
    match (v, w) {
        (Value::Finite(p), Value::Finite(q)) => {
            lemma_parts_total(p, q);
            lemma_parts_total(q, p);
        },
        (Value::Finite(p), Value::Special(_)) => {
            lemma_special_bytes(p);
        },
        (Value::Special(_), Value::Finite(q)) => {
            lemma_special_bytes(q);
        },
        (Value::Special(s), Value::Special(t)) => {
            let lo = special::special_bytes(SpecialValue::NegInfinity);
            let hi = special::special_bytes(SpecialValue::Infinity);
            let nan = special::special_bytes(SpecialValue::NaN);
            assert(first_lesser_at(lo, hi, 0));
            assert(first_lesser_at(lo, nan, 0));
            assert(first_lesser_at(hi, nan, 2));
            assert(a[0] == (if s is NegInfinity { 0x00u8 } else { 0xFFu8 }));
            assert(b[0] == (if t is NegInfinity { 0x00u8 } else { 0xFFu8 }));
        },
    }
}

// ==================== Comparing ====================

/// Compares two byte sequences.
pub fn compare_bytes(a: &[u8], b: &[u8]) -> (r: Order)
    ensures
        r == bytes_order(a@, b@),
{
    let n: usize = if a.len() < b.len() {
        a.len()
    } else {
        b.len()
    };
    proof {
        lemma_bytes_lt_irreflexive(a@);
        lemma_bytes_lt_asymmetric(a@, b@);
    }
    let mut i: usize = 0;
    while i < n
        invariant
            i <= n,
            n <= a@.len(),
            n <= b@.len(),
            forall|j: int| 0 <= j < i ==> a@[j] == b@[j],
            !(bytes_lt(a@, b@) && bytes_lt(b@, a@)),
            !bytes_lt(a@, a@),
        decreases n - i,
    {
        if a[i] < b[i] {
            assert(first_lesser_at(a@, b@, i as int));
            return Order::Less;
        }
        if a[i] > b[i] {
            assert(first_lesser_at(b@, a@, i as int));
            return Order::Greater;
        }
        i += 1;
    }
    if a.len() < b.len() {
        assert(first_lesser_at(a@, b@, i as int));
        Order::Less
    } else if a.len() > b.len() {
        assert(first_lesser_at(b@, a@, i as int));
        Order::Greater
    } else {
        assert(a@ =~= b@);
        Order::Equal
    }
}

} // verus!
