//! What the 64-bit decimals share: the integers that they are read from, the bytes of
//! 64-bit integers, and their order at a scale.
use vstd::prelude::*;
use vstd::string::StringExecFns;

use crate::digits;
use crate::error::DecimalError;
use crate::error::ErrorView;
use crate::numeral;
use crate::order::Order;
use crate::text;

verus! {

/// The number of values of 64 bits.
pub open spec fn two_64() -> int {
    0x1_0000_0000_0000_0000
}

/// The integer that the text writes, with a sign or without; zero where it writes none.
pub open spec fn part_value(s: Seq<char>) -> int {
    numeral::signed_value(s).unwrap_or(0)
}

/// Reads the integer that the text writes, clamped to the bound; zero where it writes none.
pub fn read_part(v: &[char]) -> (r: i128)
    ensures
        r == numeral::clamped(part_value(v@)),
{
    match numeral::read_signed(v) {
        Some(n) => n,
        None => 0,
    }
}

/// An integer has no more digits than the text that writes it.
pub proof fn lemma_part_bound(s: Seq<char>)
    ensures
        -(digits::pow10(s.len()) as int) < part_value(s) < digits::pow10(s.len()),
{
    digits::lemma_pow10_pos(s.len());
    if numeral::signed_value(s) is Some {
        let t = if s[0] == '-' || s[0] == '+' {
            s.skip(1)
        } else {
            s
        };
        assert(numeral::is_numeral(t));
        numeral::lemma_values(t);
        digits::lemma_number_bound(numeral::values(t));
        digits::lemma_pow10_mono(t.len(), s.len());
    }
}

/// A numeral is read as its number.
pub proof fn lemma_part_numeral(s: Seq<char>)
    requires
        numeral::is_numeral(s),
    ensures
        part_value(s) == numeral::text_number(s),
{
    if s.len() > 0 {
        assert(text::is_digit(s[0]));
    } else {
        assert(numeral::values(s) =~= Seq::<u8>::empty());
    }
}

/// An `InvalidFormat` error whose message ends with a part of the text.
pub fn part_error(message: &str, part: &[char]) -> (r: DecimalError)
    ensures
        r@ == ErrorView::InvalidFormat(message@ + part@),
{
    let mut m: String = message.to_owned();
    let p: String = text::string_of(part);
    m.append(p.as_str());
    DecimalError::InvalidFormat(m)
}

/// The eight bytes of a signed 64-bit integer in two's complement, most
/// significant first.
pub open spec fn be_bytes(n: int) -> Seq<u8> {
    let u = if n < 0 {
        n + two_64()
    } else {
        n
    };
    seq![
        (u / 0x100_0000_0000_0000) as u8,
        (u / 0x1_0000_0000_0000 % 256) as u8,
        (u / 0x100_0000_0000 % 256) as u8,
        (u / 0x1_0000_0000 % 256) as u8,
        (u / 0x100_0000 % 256) as u8,
        (u / 0x1_0000 % 256) as u8,
        (u / 0x100 % 256) as u8,
        (u % 256) as u8,
    ]
}

/// The signed 64-bit integer with the given eight bytes.
pub open spec fn of_be_bytes(b: Seq<u8>) -> int {
    let u = b[0] * 0x100_0000_0000_0000 + b[1] * 0x1_0000_0000_0000 + b[2] * 0x100_0000_0000 + b[3]
        * 0x1_0000_0000 + b[4] * 0x100_0000 + b[5] * 0x1_0000 + b[6] * 0x100 + b[7];
    if u >= 0x8000_0000_0000_0000 {
        u - two_64()
    } else {
        u
    }
}

/// Dividing by 256 step by step.
proof fn lemma_steps(u: int)
    requires
        0 <= u,
    ensures
        u / 0x1_0000 == u / 0x100 / 0x100,
        u / 0x100_0000 == u / 0x1_0000 / 0x100,
        u / 0x1_0000_0000 == u / 0x100_0000 / 0x100,
        u / 0x100_0000_0000 == u / 0x1_0000_0000 / 0x100,
        u / 0x1_0000_0000_0000 == u / 0x100_0000_0000 / 0x100,
        u / 0x100_0000_0000_0000 == u / 0x1_0000_0000_0000 / 0x100,
{
    vstd::arithmetic::div_mod::lemma_div_denominator(u, 0x100, 0x100);
    vstd::arithmetic::div_mod::lemma_div_denominator(u, 0x1_0000, 0x100);
    vstd::arithmetic::div_mod::lemma_div_denominator(u, 0x100_0000, 0x100);
    vstd::arithmetic::div_mod::lemma_div_denominator(u, 0x1_0000_0000, 0x100);
    vstd::arithmetic::div_mod::lemma_div_denominator(u, 0x100_0000_0000, 0x100);
    vstd::arithmetic::div_mod::lemma_div_denominator(u, 0x1_0000_0000_0000, 0x100);
}

/// An integer is read back from its eight bytes.
pub proof fn law_be_round_trip(n: i64)
    ensures
        of_be_bytes(be_bytes(n as int)) == n,
{
    let u = if n < 0 {
        n + two_64()
    } else {
        n as int
    };
    lemma_steps(u);
    let b = be_bytes(n as int);
    let u1 = u / 0x100;
    let u2 = u1 / 0x100;
    let u3 = u2 / 0x100;
    let u4 = u3 / 0x100;
    let u5 = u4 / 0x100;
    let u6 = u5 / 0x100;
    let u7 = u6 / 0x100;
    assert(b[0] == u7 && b[1] == u6 % 256 && b[2] == u5 % 256 && b[3] == u4 % 256);
    assert(b[4] == u3 % 256 && b[5] == u2 % 256 && b[6] == u1 % 256 && b[7] == u % 256);
    assert(u6 == 256 * b[0] + b[1]);
    assert(u5 == 256 * u6 + b[2]);
    assert(u4 == 256 * u5 + b[3]);
    assert(u3 == 256 * u4 + b[4]);
    assert(u2 == 256 * u3 + b[5]);
    assert(u1 == 256 * u2 + b[6]);
    assert(u == 256 * u1 + b[7]);
}

/// Eight bytes are the bytes of the integer that they hold.
pub proof fn law_be_bytes_of(b: Seq<u8>)
    requires
        b.len() == 8,
    ensures
        be_bytes(of_be_bytes(b)) == b,
{
    let u6 = 256 * b[0] + b[1];
    let u5 = 256 * u6 + b[2];
    let u4 = 256 * u5 + b[3];
    let u3 = 256 * u4 + b[4];
    let u2 = 256 * u3 + b[5];
    let u1 = 256 * u2 + b[6];
    let u = 256 * u1 + b[7];
    lemma_steps(u);
    assert(u / 256 == u1 && u % 256 == b[7]);
    assert(u1 / 256 == u2 && u1 % 256 == b[6]);
    assert(u2 / 256 == u3 && u2 % 256 == b[5]);
    assert(u3 / 256 == u4 && u3 % 256 == b[4]);
    assert(u4 / 256 == u5 && u4 % 256 == b[3]);
    assert(u5 / 256 == u6 && u5 % 256 == b[2]);
    assert(u6 / 256 == b[0] && u6 % 256 == b[1]);
    assert(be_bytes(of_be_bytes(b)) =~= b);
}

/// The eight bytes of `n`.
pub fn bytes_of(n: i64) -> (r: [u8; 8])
    ensures
        r@ == be_bytes(n as int),
{
    let u: u128 = if n < 0 {
        (n as i128 + 0x1_0000_0000_0000_0000) as u128
    } else {
        n as u128
    };
    let r: [u8; 8] = [
        (u / 0x100_0000_0000_0000) as u8,
        (u / 0x1_0000_0000_0000 % 256) as u8,
        (u / 0x100_0000_0000 % 256) as u8,
        (u / 0x1_0000_0000 % 256) as u8,
        (u / 0x100_0000 % 256) as u8,
        (u / 0x1_0000 % 256) as u8,
        (u / 0x100 % 256) as u8,
        (u % 256) as u8,
    ];
    assert(r@ =~= be_bytes(n as int));
    r
}

/// The integer with the given bytes.
pub fn of_bytes(b: [u8; 8]) -> (r: i64)
    ensures
        r == of_be_bytes(b@),
{
    let u: i128 = b[0] as i128 * 0x100_0000_0000_0000 + b[1] as i128 * 0x1_0000_0000_0000 + b[2] as
        i128 * 0x100_0000_0000 + b[3] as i128 * 0x1_0000_0000 + b[4] as i128 * 0x100_0000
        + b[5] as i128 * 0x1_0000 + b[6] as i128 * 0x100 + b[7] as i128;
    if u >= 0x8000_0000_0000_0000 {
        (u - 0x1_0000_0000_0000_0000) as i64
    } else {
        u as i64
    }
}

/// Ten to the power `n`.
pub fn power_of_ten(n: usize) -> (r: i128)
    requires
        n <= 36,
    ensures
        r == digits::pow10(n as nat),
        1 <= r <= 1_000_000_000_000_000_000_000_000_000_000_000_000,
        n <= 18 ==> r <= 1_000_000_000_000_000_000,
{
    proof {
        digits::lemma_pow10_mono(n as nat, 36);
        if n <= 18 {
            digits::lemma_pow10_mono(n as nat, 18);
        }
        reveal_with_fuel(digits::pow10, 37);
    }
    let mut r: i128 = 1;
    let mut i: usize = 0;
    while i < n
        invariant
            i <= n <= 36,
            r == digits::pow10(i as nat),
            digits::pow10(n as nat) <= 1_000_000_000_000_000_000_000_000_000_000_000_000,
        decreases n - i,
    {
        proof {
            digits::lemma_pow10_mono((i + 1) as nat, n as nat);
        }
        r = r * 10;
        i += 1;
    }
    proof {
        digits::lemma_pow10_pos(n as nat);
    }
    r
}

/// `n * 10^k` where `n` is zero or `k` at most 19; beyond that it is out of every
/// 64-bit range.
pub fn times_power(n: i64, k: usize) -> (r: Option<i128>)
    ensures
        match r {
            Some(x) => x == n * digits::pow10(k as nat) && -i128::MAX <= x && (k <= 19 || n == 0),
            None => n * digits::pow10(k as nat) > i64::MAX + 1_000_000_000_000_000_000 || n
                * digits::pow10(k as nat) < i64::MIN - 1_000_000_000_000_000_000,
        },
{
    let ghost p = digits::pow10(k as nat);
    if n == 0 {
        assert(0 * p == 0) by (nonlinear_arith);
        return Some(0);
    }
    if k > 19 {
        proof {
            digits::lemma_pow10_mono(20, k as nat);
            assert(digits::pow10(20) == 100_000_000_000_000_000_000) by {
                reveal_with_fuel(digits::pow10, 21);
            }
            if n > 0 {
                assert(n * p >= p) by (nonlinear_arith)
                    requires
                        n >= 1,
                        p >= 0,
                ;
            } else {
                assert(n * p <= -p) by (nonlinear_arith)
                    requires
                        n <= -1,
                        p >= 0,
                ;
            }
        }
        return None;
    }
    let q: i128 = power_of_ten(k);
    proof {
        digits::lemma_pow10_mono(k as nat, 19);
        assert(digits::pow10(19) == 10_000_000_000_000_000_000) by {
            reveal_with_fuel(digits::pow10, 20);
        }
        assert(-170_000_000_000_000_000_000_000_000_000_000_000_000 <= n * q
            <= 170_000_000_000_000_000_000_000_000_000_000_000_000) by (nonlinear_arith)
            requires
                1 <= q <= 10_000_000_000_000_000_000,
                -0x8000_0000_0000_0000 <= n <= 0x7FFF_FFFF_FFFF_FFFF,
        ;
    }
    Some(n as i128 * q)
}

/// The order of two integers.
pub open spec fn int_order(a: int, b: int) -> Order {
    if a < b {
        Order::Less
    } else if a > b {
        Order::Greater
    } else {
        Order::Equal
    }
}

/// The order of `a * 10^-i` and `b * 10^-j`.
pub open spec fn scaled_order(a: int, i: int, b: int, j: int) -> Order {
    let least = if i < j {
        i
    } else {
        j
    };
    int_order(a * digits::pow10((j - least) as nat), b * digits::pow10((i - least) as nat))
}

/// Compares two integers.
pub fn order_ints(a: i128, b: i128) -> (r: Order)
    ensures
        r == int_order(a as int, b as int),
{
    if a < b {
        Order::Less
    } else if a > b {
        Order::Greater
    } else {
        Order::Equal
    }
}

/// Compares `a * 10^k` and `b`.
fn order_shifted(a: i64, k: i64, b: i64) -> (r: Order)
    requires
        k >= 0,
    ensures
        r == int_order(a * digits::pow10(k as nat), b as int),
{
    let n: usize = if k > 20 {
        20
    } else {
        k as usize
    };
    match times_power(a, n) {
        Some(x) => {
            if k > 20 {
                proof {
                    lemma_zero_times(a as int, k as nat);
                }
            }
            order_ints(x, b as i128)
        },
        None => {
            proof {
                lemma_times_mono(a as int, n as nat, k as nat);
            }
            order_ints(a as i128, 0)
        },
    }
}

proof fn lemma_zero_times(a: int, k: nat)
    ensures
        a == 0 ==> a * digits::pow10(k) == 0 && a * digits::pow10(20) == 0,
{
    let p = digits::pow10(k);
    let q = digits::pow10(20);
    assert(0 * p == 0 && 0 * q == 0) by (nonlinear_arith);
}

/// Greater powers of ten take an integer further from zero.
proof fn lemma_times_mono(a: int, n: nat, k: nat)
    requires
        n <= k,
    ensures
        a > 0 ==> a * digits::pow10(k) >= a * digits::pow10(n) > 0,
        a < 0 ==> a * digits::pow10(k) <= a * digits::pow10(n) < 0,
        a == 0 ==> a * digits::pow10(n) == 0,
{
    digits::lemma_pow10_mono(n, k);
    digits::lemma_pow10_pos(n);
    let p = digits::pow10(n);
    let q = digits::pow10(k);
    assert(a > 0 ==> a * q >= a * p && a * p > 0) by (nonlinear_arith)
        requires
            q >= p,
            p >= 1,
    ;
    assert(a < 0 ==> a * q <= a * p && a * p < 0) by (nonlinear_arith)
        requires
            q >= p,
            p >= 1,
    ;
    assert(a == 0 ==> a * p == 0) by (nonlinear_arith);
}

/// Compares `a * 10^-i` and `b * 10^-j`.
pub fn order_scaled(a: i64, i: i32, b: i64, j: i32) -> (r: Order)
    ensures
        r == scaled_order(a as int, i as int, b as int, j as int),
{
    proof {
        let one = digits::pow10(0);
        assert(a * one == a && b * one == b) by (nonlinear_arith)
            requires
                one == 1,
        ;
    }
    if i <= j {
        order_shifted(a, j as i64 - i as i64, b)
    } else {
        match order_shifted(b, i as i64 - j as i64, a) {
            Order::Less => Order::Greater,
            Order::Equal => Order::Equal,
            Order::Greater => Order::Less,
        }
    }
}

} // verus!
