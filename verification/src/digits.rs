//! Decimal digit sequences and the numbers they stand for.
//!
//! A digit sequence is written most significant digit first, one digit (0 to 9)
//! per element.
use vstd::prelude::*;

verus! {

/// Ten to the power `n`.
pub open spec fn pow10(n: nat) -> nat
    decreases n,
{
    if n == 0 {
        1
    } else {
        10 * pow10((n - 1) as nat)
    }
}

/// Every element is a decimal digit.
pub open spec fn all_digits(ds: Seq<u8>) -> bool {
    forall|i: int| 0 <= i < ds.len() ==> #[trigger] ds[i] <= 9
}

/// The number that a digit sequence denotes; the empty sequence denotes zero.
pub open spec fn number(ds: Seq<u8>) -> nat
    decreases ds.len(),
{
    if ds.len() == 0 {
        0
    } else {
        number(ds.drop_last()) * 10 + ds.last() as nat
    }
}

/// `n` zero digits.
pub open spec fn zero_digits(n: nat) -> Seq<u8> {
    Seq::new(n, |i: int| 0u8)
}

/// The sequence without its leading zeros.
pub open spec fn strip_leading(ds: Seq<u8>) -> Seq<u8>
    decreases ds.len(),
{
    if ds.len() > 0 && ds[0] == 0 {
        strip_leading(ds.drop_first())
    } else {
        ds
    }
}

/// The sequence without its trailing zeros.
pub open spec fn strip_trailing(ds: Seq<u8>) -> Seq<u8>
    decreases ds.len(),
{
    if ds.len() > 0 && ds.last() == 0 {
        strip_trailing(ds.drop_last())
    } else {
        ds
    }
}

pub proof fn lemma_pow10_pos(n: nat)
    ensures
        pow10(n) >= 1,
    decreases n,
{
    if n > 0 {
        lemma_pow10_pos((n - 1) as nat);
    }
}

pub proof fn lemma_pow10_add(a: nat, b: nat)
    ensures
        pow10(a + b) == pow10(a) * pow10(b),
    decreases a,
{
    if a == 0 {
        assert(pow10(0) * pow10(b) == pow10(b)) by (nonlinear_arith)
            requires
                pow10(0) == 1,
        ;
    } else {
        let a1 = (a - 1) as nat;
        lemma_pow10_add(a1, b);
        assert((a + b - 1) as nat == a1 + b);
        let x = pow10(a1);
        let y = pow10(b);
        assert(10 * (x * y) == (10 * x) * y) by (nonlinear_arith);
    }
}

pub proof fn lemma_pow10_mono(a: nat, b: nat)
    requires
        a <= b,
    ensures
        pow10(a) <= pow10(b),
    decreases b,
{
    if a < b {
        lemma_pow10_mono(a, (b - 1) as nat);
        lemma_pow10_pos((b - 1) as nat);
    }
}

/// A greater power of ten is at least ten times as great.
pub proof fn lemma_pow10_strict(a: nat, b: nat)
    requires
        a < b,
    ensures
        pow10(a) < pow10(b),
        10 * pow10(a) <= pow10(b),
{
    lemma_pow10_mono(a, (b - 1) as nat);
    lemma_pow10_pos((b - 1) as nat);
}

/// Forty digits hold every 128-bit integer.
pub proof fn lemma_u128_digits()
    ensures
        u128::MAX < pow10(40),
{
    reveal_with_fuel(pow10, 41);
}

pub proof fn lemma_number_push(ds: Seq<u8>, d: u8)
    ensures
        number(ds.push(d)) == number(ds) * 10 + d as nat,
{
    assert(ds.push(d).drop_last() == ds);
}

/// A digit sequence denotes the sum of what its two halves denote, the first
/// scaled by the length of the second.
pub proof fn lemma_number_concat(a: Seq<u8>, b: Seq<u8>)
    ensures
        number(a + b) == number(a) * pow10(b.len()) + number(b),
    decreases b.len(),
{
    if b.len() == 0 {
        assert(a + b == a);
        assert(number(a) * pow10(0) == number(a)) by (nonlinear_arith)
            requires
                pow10(0) == 1,
        ;
    } else {
        let b1 = b.drop_last();
        lemma_number_concat(a, b1);
        assert((a + b).drop_last() == a + b1);
        assert((a + b).last() == b.last());
        let x = number(a);
        let p = pow10(b1.len());
        assert(pow10(b.len()) == 10 * p);
        assert((x * p + number(b1)) * 10 + b.last() as nat == x * (10 * p) + (number(b1) * 10
            + b.last() as nat)) by (nonlinear_arith);
    }
}

pub proof fn lemma_number_bound(ds: Seq<u8>)
    requires
        all_digits(ds),
    ensures
        number(ds) < pow10(ds.len()),
    decreases ds.len(),
{
    if ds.len() > 0 {
        let d1 = ds.drop_last();
        assert(all_digits(d1)) by {
            assert forall|i: int| 0 <= i < d1.len() implies #[trigger] d1[i] <= 9 by {
                assert(d1[i] == ds[i]);
            }
        }
        lemma_number_bound(d1);
        assert(ds.last() <= 9);
    }
}

pub proof fn lemma_number_zeros(n: nat)
    ensures
        number(zero_digits(n)) == 0,
    decreases n,
{
    if n > 0 {
        assert(zero_digits(n).drop_last() == zero_digits((n - 1) as nat));
        lemma_number_zeros((n - 1) as nat);
    }
}

pub proof fn lemma_number_first(ds: Seq<u8>)
    requires
        ds.len() > 0,
    ensures
        number(ds) == ds[0] as nat * pow10((ds.len() - 1) as nat) + number(ds.drop_first()),
{
    let h = seq![ds[0]];
    assert(ds == h + ds.drop_first());
    lemma_number_concat(h, ds.drop_first());
    assert(h.drop_last() == Seq::<u8>::empty());
    assert(number(Seq::<u8>::empty()) == 0);
    assert(number(h) == ds[0] as nat);
}

/// A nonzero first digit bounds the number from below.
pub proof fn lemma_number_lower(ds: Seq<u8>)
    requires
        ds.len() > 0,
        ds[0] != 0,
    ensures
        number(ds) >= pow10((ds.len() - 1) as nat),
{
    lemma_number_first(ds);
    let p = pow10((ds.len() - 1) as nat);
    let d = ds[0] as nat;
    assert(d * p >= p) by (nonlinear_arith)
        requires
            d >= 1,
    ;
}

pub proof fn lemma_number_last_nonzero(ds: Seq<u8>)
    requires
        ds.len() > 0,
        ds.last() != 0,
    ensures
        number(ds) > 0,
{
}

/// Stripping leading zeros removes a run of zeros, leaves what follows, and does
/// not change the number.
pub proof fn lemma_strip_leading(ds: Seq<u8>)
    ensures
        strip_leading(ds).len() <= ds.len(),
        ds == zero_digits((ds.len() - strip_leading(ds).len()) as nat) + strip_leading(ds),
        strip_leading(ds) == ds.skip(ds.len() - strip_leading(ds).len()),
        strip_leading(ds).len() > 0 ==> strip_leading(ds)[0] != 0,
        number(strip_leading(ds)) == number(ds),
        all_digits(ds) ==> all_digits(strip_leading(ds)),
        strip_leading(ds).len() == 0 <==> number(ds) == 0,
        strip_leading(ds).len() > 0 ==> strip_leading(ds).last() == ds.last(),
    decreases ds.len(),
{
    if ds.len() > 0 && ds[0] == 0 {
        let t = ds.drop_first();
        lemma_strip_leading(t);
        let k = (t.len() - strip_leading(t).len()) as nat;
        assert(zero_digits(k + 1) == seq![0u8] + zero_digits(k));
        assert(ds == seq![0u8] + t);
        assert(ds == zero_digits(k + 1) + strip_leading(ds));
        lemma_number_first(ds);
        assert(0nat * pow10((ds.len() - 1) as nat) == 0) by (nonlinear_arith);
    } else {
        assert(zero_digits(0) + ds == ds);
        assert(ds.skip(0) == ds);
        if ds.len() > 0 {
            lemma_number_lower(ds);
            lemma_pow10_pos((ds.len() - 1) as nat);
        }
    }
}

/// Stripping trailing zeros removes a run of zeros at the end and divides the
/// number by the matching power of ten.
pub proof fn lemma_strip_trailing(ds: Seq<u8>)
    ensures
        strip_trailing(ds).len() <= ds.len(),
        ds == strip_trailing(ds) + zero_digits((ds.len() - strip_trailing(ds).len()) as nat),
        strip_trailing(ds) == ds.take(strip_trailing(ds).len() as int),
        strip_trailing(ds).len() > 0 ==> strip_trailing(ds).last() != 0,
        strip_trailing(ds).len() > 0 ==> strip_trailing(ds)[0] == ds[0],
        number(ds) == number(strip_trailing(ds)) * pow10(
            (ds.len() - strip_trailing(ds).len()) as nat,
        ),
        all_digits(ds) ==> all_digits(strip_trailing(ds)),
    decreases ds.len(),
{
    if ds.len() > 0 && ds.last() == 0 {
        let t = ds.drop_last();
        lemma_strip_trailing(t);
        let k = (t.len() - strip_trailing(t).len()) as nat;
        assert(zero_digits(k + 1) == zero_digits(k).push(0u8));
        assert(ds == t.push(0u8));
        assert(ds == strip_trailing(ds) + zero_digits(k + 1));
        let x = number(strip_trailing(t));
        let p = pow10(k);
        assert((x * p) * 10 == x * (10 * p)) by (nonlinear_arith);
    } else {
        assert(ds + zero_digits(0) == ds);
        assert(ds.take(ds.len() as int) == ds);
        assert(number(ds) * pow10(0) == number(ds)) by (nonlinear_arith)
            requires
                pow10(0) == 1,
        ;
    }
}

/// Dividing `q * d + r` by `d` gives `q` and leaves `r`.
pub proof fn lemma_div_mod(x: int, d: int, q: int, r: int)
    requires
        d > 0,
        0 <= r < d,
        x == q * d + r,
    ensures
        x / d == q,
        x % d == r,
{
    vstd::arithmetic::div_mod::lemma_fundamental_div_mod_converse(x, d, q, r);
}

} // verus!
