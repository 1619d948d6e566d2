//! Integer intrinsics: pure two's-complement arithmetic, bit operations and
//! comparisons on 64-bit values.

use vstd::prelude::*;
use crate::value::{bits_of, from_bits, signed_of, to_bits};

verus! {

/// The value of `x` modulo two to the sixty-fourth, as a signed number.
pub open spec fn wrap(x: int) -> i64 {
    signed_of((x % 0x1_0000_0000_0000_0000) as u64)
}

/// Two's-complement addition.
pub fn add_int(a: i64, b: i64) -> (r: i64)
    ensures
        r == wrap(a + b),
{
    a.wrapping_add(b)
}

/// Two's-complement subtraction.
pub fn sub_int(a: i64, b: i64) -> (r: i64)
    ensures
        r == wrap(a - b),
{
    a.wrapping_sub(b)
}

/// Two's-complement multiplication.
pub fn mul_int(a: i64, b: i64) -> (r: i64)
    ensures
        r == wrap(a * b),
{
    a.wrapping_mul(b)
}

/// Signed less-than.
pub fn slt_int(a: i64, b: i64) -> (r: bool)
    ensures
        r == (a < b),
{
    a < b
}

/// Signed less-than-or-equal.
pub fn sle_int(a: i64, b: i64) -> (r: bool)
    ensures
        r == (a <= b),
{
    a <= b
}

/// Equality.
pub fn eq_int(a: i64, b: i64) -> (r: bool)
    ensures
        r == (a == b),
{
    a == b
}

/// Bitwise and.
pub fn and_int(a: i64, b: i64) -> (r: i64)
    ensures
        r == a & b,
{
    a & b
}

/// Bitwise or.
pub fn or_int(a: i64, b: i64) -> (r: i64)
    ensures
        r == a | b,
{
    a | b
}

/// Bitwise exclusive or.
pub fn xor_int(a: i64, b: i64) -> (r: i64)
    ensures
        r == a ^ b,
{
    a ^ b
}

/// The left shift; a count of at least the width gives zero.
pub open spec fn shl(a: i64, b: i64) -> i64 {
    if 0 <= b < 64 {
        signed_of(bits_of(a) << bits_of(b))
    } else {
        0
    }
}

/// Left shift.
pub fn shl_int(a: i64, b: i64) -> (r: i64)
    ensures
        r == shl(a, b),
{
    if 0 <= b && b < 64 {
        from_bits(to_bits(a) << to_bits(b))
    } else {
        0
    }
}

/// The right shift that fills with the sign; a count of at least the width gives
/// the sign alone.
pub open spec fn ashr(a: i64, b: i64) -> i64 {
    if 0 <= b < 64 {
        a >> b
    } else if a < 0 {
        -1i64
    } else {
        0
    }
}

/// Right shift, filling with the sign.
pub fn ashr_int(a: i64, b: i64) -> (r: i64)
    ensures
        r == ashr(a, b),
{
    if 0 <= b && b < 64 {
        a >> b
    } else if a < 0 {
        -1
    } else {
        0
    }
}

/// The right shift that fills with zeros; a count of at least the width gives zero.
pub open spec fn lshr(a: i64, b: i64) -> i64 {
    if 0 <= b < 64 {
        signed_of(bits_of(a) >> bits_of(b))
    } else {
        0
    }
}

/// Right shift, filling with zeros.
pub fn lshr_int(a: i64, b: i64) -> (r: i64)
    ensures
        r == lshr(a, b),
{
    if 0 <= b && b < 64 {
        from_bits(to_bits(a) >> to_bits(b))
    } else {
        0
    }
}

/// The magnitude of `a`.
pub open spec fn magnitude(a: int) -> int {
    if a < 0 {
        -a
    } else {
        a
    }
}

/// The quotient rounded toward zero; `None` for a zero divisor and for the one
/// quotient that does not fit.
pub open spec fn sdiv(a: i64, b: i64) -> Option<i64> {
    if b == 0 || (a == i64::MIN && b == -1) {
        None
    } else {
        let q = magnitude(a as int) / magnitude(b as int);
        Some(
            (if (a < 0) == (b < 0) {
                q
            } else {
                -q
            }) as i64,
        )
    }
}

/// Truncating division.
pub fn checked_sdiv_int(a: i64, b: i64) -> (r: Option<i64>)
    ensures
        r == sdiv(a, b),
{
    if b == 0 || (a == i64::MIN && b == -1) {
        return None;
    }
    let x: u128 = if a < 0 {
        (-(a as i128)) as u128
    } else {
        a as u128
    };
    let y: u128 = if b < 0 {
        (-(b as i128)) as u128
    } else {
        b as u128
    };
    let q: u128 = x / y;
    assert(q <= x) by (nonlinear_arith)
        requires
            q == x / y,
            y >= 1,
    ;
    if (a < 0) == (b < 0) {
        proof {
            lemma_quotient_fits(a, b, q as int);
        }
        Some(q as i64)
    } else {
        Some((-(q as i128)) as i64)
    }
}

proof fn lemma_quotient_fits(a: i64, b: i64, q: int)
    requires
        b != 0,
        !(a == i64::MIN && b == -1),
        (a < 0) == (b < 0),
        q == magnitude(a as int) / magnitude(b as int),
    ensures
        q <= i64::MAX,
{
    if a == i64::MIN {
        assert(magnitude(b as int) >= 2);
        assert(q <= 0x4000_0000_0000_0000) by (nonlinear_arith)
            requires
                q == 0x8000_0000_0000_0000int / magnitude(b as int),
                magnitude(b as int) >= 2,
        ;
    } else {
        assert(q <= magnitude(a as int)) by (nonlinear_arith)
            requires
                q == magnitude(a as int) / magnitude(b as int),
                magnitude(b as int) >= 1,
                magnitude(a as int) >= 0,
        ;
    }
}

/// The remainder with the sign of the dividend; `None` for a zero divisor.
pub open spec fn srem(a: i64, b: i64) -> Option<i64> {
    if b == 0 {
        None
    } else {
        let m = magnitude(a as int) % magnitude(b as int);
        Some(
            (if a < 0 {
                -m
            } else {
                m
            }) as i64,
        )
    }
}

/// Remainder of the truncating division.
pub fn checked_srem_int(a: i64, b: i64) -> (r: Option<i64>)
    ensures
        r == srem(a, b),
{
    if b == 0 {
        return None;
    }
    let x: u128 = if a < 0 {
        (-(a as i128)) as u128
    } else {
        a as u128
    };
    let y: u128 = if b < 0 {
        (-(b as i128)) as u128
    } else {
        b as u128
    };
    let m: u128 = x % y;
    if a < 0 {
        Some((-(m as i128)) as i64)
    } else {
        Some(m as i64)
    }
}

/// Wrapping addition and subtraction undo each other.
pub proof fn law_sub_undoes_add(a: i64, b: i64)
    ensures
        wrap(wrap(a + b) - b) == a,
{
}

/// A quotient and its remainder rebuild the dividend, and the remainder is smaller
/// than the divisor.
pub proof fn law_division(a: i64, b: i64)
    requires
        b != 0,
        !(a == i64::MIN && b == -1),
    ensures
        sdiv(a, b)->Some_0 * b + srem(a, b)->Some_0 == a,
        magnitude(srem(a, b)->Some_0 as int) < magnitude(b as int),
{
    let x = magnitude(a as int);
    let y = magnitude(b as int);
    let q = x / y;
    let m = x % y;
    vstd::arithmetic::div_mod::lemma_fundamental_div_mod(x, y);
    assert(0 <= q <= x) by (nonlinear_arith)
        requires
            q == x / y,
            y >= 1,
            x >= 0,
    ;
    if (a < 0) == (b < 0) {
        lemma_quotient_fits(a, b, q);
    }
    assert((-q) * (-y) == q * y) by (nonlinear_arith);
    assert((-q) * y == -(q * y)) by (nonlinear_arith);
    assert(q * (-y) == -(q * y)) by (nonlinear_arith);
    assert(y * q == q * y) by (nonlinear_arith);
}

/// A shift to the left doubles, modulo two to the sixty-fourth, as often as it counts; by
/// the width or more, or by a negative count, it leaves zero.
pub proof fn law_left_shift_doubles(a: i64, k: i64)
    ensures
        shl(a, 0) == a,
        0 <= k < 63 ==> shl(a, (k + 1) as i64) == wrap(2 * shl(a, k)),
        k < 0 || k >= 64 ==> shl(a, k) == 0,
{
    let b = bits_of(a);
    assert(b << 0u64 == b) by (bit_vector);
    if 0 <= k < 63 {
        let n = k as u64;
        let m = (n + 1) as u64;
        assert((b << m) == ((b << n) * 2) % 0x1_0000_0000_0000_0000) by (bit_vector)
            requires
                n < 63,
                m == n + 1,
        ;
        let c = b << n;
        assert((2 * signed_of(c)) % 0x1_0000_0000_0000_0000 == (c * 2) % 0x1_0000_0000_0000_0000);
    }
}

/// A shift to the right halves as often as it counts. With the sign it rounds down, and by
/// the width or more, or by a negative count, it leaves the sign alone; without the sign
/// it halves the unsigned pattern, and leaves zero then.
pub proof fn law_right_shifts_halve(a: i64, k: i64)
    ensures
        ashr(a, 0) == a,
        lshr(a, 0) == a,
        0 <= k < 63 ==> 2 * ashr(a, (k + 1) as i64) <= ashr(a, k) <= 2 * ashr(a, (k + 1) as i64) + 1,
        0 <= k < 63 ==> bits_of(lshr(a, (k + 1) as i64)) == bits_of(lshr(a, k)) / 2,
        k < 0 || k >= 64 ==> lshr(a, k) == 0 && ashr(a, k) == if a < 0 {
            -1int
        } else {
            0
        },
{
    let b = bits_of(a);
    assert(b >> 0u64 == b) by (bit_vector);
    assert(a >> 0u64 == a) by (bit_vector);
    if 0 <= k < 63 {
        let n = k as u64;
        let m = (n + 1) as u64;
        assert((b >> m) == (b >> n) / 2) by (bit_vector)
            requires
                n < 63,
                m == n + 1,
        ;
        assert((a >> m) * 2 <= (a >> n) && (a >> n) <= (a >> m) * 2 + 1) by (bit_vector)
            requires
                n < 63,
                m == n + 1,
        ;
    }
}

} // verus!
