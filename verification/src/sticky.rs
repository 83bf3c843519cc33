//! The right shift that keeps a sticky bit, and what a number that went
//! through it still tells of the exact one.

use crate::dyadic::{
    lemma_pow2_div_split, lemma_pow2_mul_cancel, lemma_product_zero, lemma_split_compare,
};
use crate::rounding::round_half_even;
use vstd::arithmetic::div_mod::{lemma_fundamental_div_mod, lemma_fundamental_div_mod_converse};
use vstd::arithmetic::power2::{lemma2_to64, lemma_pow2_adds, lemma_pow2_pos, lemma_pow2_unfold, pow2};
use vstd::prelude::*;

verus! {

/// `x / 2^d` with a sticky lowest bit: the quotient, made odd where the
/// division left a remainder. An odd result thus says "a little more than
/// the even number below", an even result is exact.
pub open spec fn sticky_shr(x: nat, d: nat) -> nat {
    let q = x / pow2(d);
    if x % pow2(d) != 0 && q % 2 == 0 {
        q + 1
    } else {
        q
    }
}

/// `s` stands for `x / 2^j` with its low `t` bits blurred: above them the two
/// agree bit for bit, and below them `s` is zero exactly where `x` is.
pub open spec fn tracks(s: nat, x: nat, j: nat, t: nat) -> bool {
    &&& s / pow2(t) == x / pow2(j + t)
    &&& (s % pow2(t) == 0 <==> x % pow2(j + t) == 0)
}

/// What tracks `x` tracks `x * 2^c` as well, `c` places further up.
pub proof fn lemma_tracks_scaled(s: nat, x: nat, j: nat, t: nat, c: nat)
    requires
        tracks(s, x, j, t),
    ensures
        tracks(s, x * pow2(c), j + c, t),
{
    lemma_pow2_mul_cancel(x, c, j + t);
    lemma_pow2_pos(c);
    assert(j + c + t == j + t + c);
    lemma_product_zero(pow2(c), x % pow2(j + t));
}

/// Shifting left by `c` moves the blurred bits up by `c` and brings the
/// number `c` places closer to what it tracks.
pub proof fn lemma_tracks_shifted_left(s: nat, x: nat, j: nat, t: nat, c: nat)
    requires
        tracks(s, x, j, t),
        c <= j,
    ensures
        tracks(s * pow2(c), x, (j - c) as nat, t + c),
{
    lemma_pow2_mul_cancel(s, c, t);
    lemma_pow2_pos(c);
    assert((j - c) + (t + c) == j + t);
    lemma_product_zero(pow2(c), s % pow2(t));
}

/// A sticky shift right by one place takes the number one place further
/// from what it tracks and blurs no more than one bit.
pub proof fn lemma_tracks_shifted_right(s: nat, x: nat, j: nat)
    requires
        tracks(s, x, j, 1),
    ensures
        tracks(sticky_shr(s, 1), x, j + 1, 1),
{
    lemma2_to64();
    lemma_pow2_div_split(x, j + 1, 1);
    lemma_pow2_pos(j + 1);
    let high = x / pow2(j + 1);
    let bit = high % 2;
    assert(pow2(j + 1) * bit == if bit == 0 { 0 } else { pow2(j + 1) as int }) by (nonlinear_arith)
        requires
            bit == 0 || bit == 1,
    ;
    assert(j + 1 + 1 == j + 2);
}

/// Rounding at a place above the blurred bits gives what rounding the
/// tracked number itself gives, and the same quotient before rounding.
pub proof fn lemma_round_tracked(s: nat, x: nat, j: nat, t: nat, k: nat)
    requires
        tracks(s, x, j, t),
        k > t,
    ensures
        s / pow2(k) == x / pow2(j + k),
        round_half_even(s, k) == round_half_even(x, j + k),
{
    let c = (k - t) as nat;
    assert(t + c == k && j + t + c == j + k);
    lemma_round_split(s, t, c);
    lemma_round_split(x, j + t, c);
}

/// Rounding at place `t + c`, told from the quotient by `2^t` and from
/// whether that division left a remainder.
proof fn lemma_round_split(s: nat, t: nat, c: nat)
    requires
        c > 0,
    ensures
        s / pow2(t + c) == (s / pow2(t)) / pow2(c),
        round_half_even(s, t + c) == ({
            let q = (s / pow2(t)) / pow2(c);
            let u = (s / pow2(t)) % pow2(c);
            let half = pow2((c - 1) as nat);
            if u > half || (u == half && (s % pow2(t) != 0 || q % 2 == 1)) {
                q + 1
            } else {
                q
            }
        }),
{
    let half = pow2((c - 1) as nat) as int;
    let unit = pow2(t) as int;
    let u = ((s / pow2(t)) % pow2(c)) as int;
    let l = (s % pow2(t)) as int;
    let r = (s % pow2(t + c)) as int;
    lemma_pow2_unfold(c);
    lemma_pow2_div_split(s, t, c);
    lemma_pow2_adds(t, c);
    lemma_pow2_pos(t);
    lemma_pow2_pos(c);
    assert(r == unit * u + l);
    assert(pow2(t + c) == 2 * (unit * half)) by (nonlinear_arith)
        requires
            pow2(t + c) == unit * pow2(c),
            pow2(c) == 2 * half,
    ;
    lemma_split_compare(unit, u, half, l);
}

/// Adding a sticky-shifted number to an even one: the sum tracks the exact
/// sum, taken `d` places further down, with one blurred bit.
pub proof fn lemma_sum_tracks(a: nat, b: nat, d: nat)
    requires
        a % 2 == 0,
    ensures
        tracks(a + sticky_shr(b, d), a * pow2(d) + b, d, 1),
{
    let unit = pow2(d);
    let bq = b / unit;
    let r = b % unit;
    let x = a * unit + b;
    lemma_pow2_pos(d);
    lemma2_to64();
    lemma_fundamental_div_mod(b as int, unit as int);
    assert(x == (a + bq) * unit + r) by (nonlinear_arith)
        requires
            x == a * unit + b,
            b == unit * bq + r,
    ;
    lemma_fundamental_div_mod_converse(x as int, unit as int, (a + bq) as int, r as int);
    lemma_pow2_div_split(x, d, 1);
    let bit = (a + bq) % 2;
    assert(unit * bit == if bit == 0 { 0 } else { unit as int }) by (nonlinear_arith)
        requires
            bit == 0 || bit == 1,
    ;
}

/// Subtracting a sticky-shifted number from an even one that is not smaller:
/// the difference tracks the exact difference in the same way.
pub proof fn lemma_difference_tracks(a: nat, b: nat, d: nat)
    requires
        a % 2 == 0,
        b <= a * pow2(d),
    ensures
        sticky_shr(b, d) <= a,
        tracks((a - sticky_shr(b, d)) as nat, (a * pow2(d) - b) as nat, d, 1),
{
    let unit = pow2(d);
    let bq = b / unit;
    let r = b % unit;
    let x = (a * unit - b) as nat;
    lemma_pow2_pos(d);
    lemma2_to64();
    lemma_fundamental_div_mod(b as int, unit as int);
    if r == 0 {
        assert(bq <= a && x == (a - bq) * unit) by (nonlinear_arith)
            requires
                x == a * unit - b,
                b == unit * bq,
                b <= a * unit,
                unit > 0,
        ;
        lemma_fundamental_div_mod_converse(x as int, unit as int, a - bq, 0);
    } else {
        assert(bq < a && x == (a - bq - 1) * unit + (unit - r)) by (nonlinear_arith)
            requires
                x == a * unit - b,
                b == unit * bq + r,
                b <= a * unit,
                0 < r < unit,
        ;
        lemma_fundamental_div_mod_converse(x as int, unit as int, a - bq - 1, unit - r);
    }
    lemma_pow2_div_split(x, d, 1);
    let bit = (x / unit) % 2;
    assert(unit * bit == if bit == 0 { 0 } else { unit as int }) by (nonlinear_arith)
        requires
            bit == 0 || bit == 1,
    ;
}

} // verus!
