//! Rounding to nearest, ties to even, stated over natural numbers, and the
//! pattern that a rounded magnitude is encoded as.

use crate::dyadic::{lemma_pow2_div_split, lemma_pow2_mul_cancel, lemma_split_compare};
use vstd::arithmetic::div_mod::{lemma_div_nonincreasing, lemma_fundamental_div_mod};
use vstd::arithmetic::power2::{lemma2_to64, lemma_pow2_adds, lemma_pow2_pos, pow2};
use vstd::prelude::*;

verus! {

/// `m / 2^k` rounded to the nearest whole number; where `m` lies halfway
/// between two, to the even one.
pub open spec fn round_half_even(m: nat, k: nat) -> nat {
    let q = m / pow2(k);
    let r = m % pow2(k);
    if 2 * r > pow2(k) || (2 * r == pow2(k) && q % 2 == 1) {
        q + 1
    } else {
        q
    }
}

/// How many low bits of `m` a 24-bit significand has no room for.
pub open spec fn excess_bits(m: nat) -> nat
    decreases m,
{
    if m < 0x100_0000 {
        0
    } else {
        1 + excess_bits(m / 2)
    }
}

/// The pattern, sign bit clear, of the binary32 value nearest to `m` units
/// of 2^-149, ties going to the even fraction.
///
/// With `k` excess bits the significand is `m / 2^k` rounded, and the
/// pattern is that significand added to `k` in the exponent's place: the
/// implicit bit of a normal significand then counts the exponent field up
/// from `k` to `k + 1`, and a significand that rounding took up to 2^24
/// counts it up once more and leaves the fraction zero. What would reach
/// the exponent 255 is infinity.
pub open spec fn nearest_pattern(m: nat) -> nat {
    let k = excess_bits(m);
    let p = k * 0x80_0000 + round_half_even(m, k);
    if p >= 0x7F80_0000 {
        0x7F80_0000
    } else {
        p
    }
}

/// Rounding does not see a common factor `2^c` of the number and the unit.
pub proof fn lemma_round_scaled(x: nat, c: nat, k: nat)
    ensures
        round_half_even(x * pow2(c), k + c) == round_half_even(x, k),
{
    lemma_pow2_mul_cancel(x, c, k);
    lemma_pow2_adds(c, k);
    lemma_pow2_pos(c);
    let r = x % pow2(k);
    let scaled = pow2(c) * r;
    assert(2 * scaled == pow2(c) * (2 * r)) by (nonlinear_arith)
        requires
            scaled == pow2(c) * r,
    ;
    lemma_split_compare(pow2(c) as int, (2 * r) as int, pow2(k) as int, 0);
}

/// The number of excess bits is the one shift that leaves a significand of
/// 24 bits with its top bit set, or no shift where the number is below 2^24.
pub proof fn lemma_excess_bits_unique(m: nat, k: nat)
    requires
        m / pow2(k) < 0x100_0000,
        k == 0 || m / pow2(k) >= 0x80_0000,
    ensures
        excess_bits(m) == k,
    decreases k,
{
    lemma2_to64();
    if k > 0 {
        let rest = (k - 1) as nat;
        lemma_pow2_div_split(m, 1, rest);
        assert(1 + rest == k);
        lemma_pow2_pos(rest);
        lemma_div_nonincreasing((m / 2) as int, pow2(rest) as int);
        lemma_excess_bits_unique(m / 2, rest);
    } else {
        assert(m / pow2(0) == m / 1);
    }
}

/// With its excess bits divided away a number is a significand of 24 bits
/// with the top bit set; with none to divide away it is below 2^24.
pub proof fn lemma_excess_bits_bounds(m: nat)
    ensures
        m / pow2(excess_bits(m)) < 0x100_0000,
        excess_bits(m) > 0 ==> m / pow2(excess_bits(m)) >= 0x80_0000,
    decreases m,
{
    lemma2_to64();
    if m < 0x100_0000 {
        assert(m / pow2(0) == m / 1);
    } else {
        let rest = excess_bits(m / 2);
        lemma_excess_bits_bounds(m / 2);
        lemma_pow2_div_split(m, 1, rest);
        if rest == 0 {
            assert((m / 2) / pow2(0) == (m / 2) / 1);
        }
    }
}

/// The rounded quotient is the quotient or the next number up. Taken back
/// to the scale of `m` it is no more than half a unit `2^k` away from `m`,
/// and where it is exactly half a unit away it is even.
pub proof fn lemma_round_error(m: nat, k: nat)
    ensures
        m / pow2(k) <= round_half_even(m, k) <= m / pow2(k) + 1,
        2 * (round_half_even(m, k) * pow2(k) - m) <= pow2(k),
        2 * (m - round_half_even(m, k) * pow2(k)) <= pow2(k),
        2 * (round_half_even(m, k) * pow2(k) - m) == pow2(k) || 2 * (m - round_half_even(m, k)
            * pow2(k)) == pow2(k) ==> round_half_even(m, k) % 2 == 0,
{
    let unit = pow2(k);
    let q = m / unit;
    let r = m % unit;
    lemma_pow2_pos(k);
    lemma_fundamental_div_mod(m as int, unit as int);
    assert(q * unit == unit * q && (q + 1) * unit == unit * q + unit) by (nonlinear_arith);
}

} // verus!
