//! Laws of the addition, stated over the patterns of the operands, and what
//! the pattern that rounding picks stands for.

use crate::add::{round_to_bits, sum_of};
use crate::float32::{
    abs_of, exp_of, frac_of, is_finite, is_infinite, is_nan, is_zero, lemma_fields_make_pattern,
    magnitude_of, scale_of, sign_of, significand_of, value_of, Float32, INFINITY, SIGN_BIT,
};
use crate::rounding::{
    excess_bits, lemma_excess_bits_bounds, lemma_excess_bits_unique, lemma_round_error,
    nearest_pattern, round_half_even,
};
use vstd::arithmetic::div_mod::{lemma_fundamental_div_mod, lemma_fundamental_div_mod_converse};
use vstd::arithmetic::power2::{
    lemma2_to64, lemma_pow2_pos, lemma_pow2_strictly_increases, lemma_pow2_unfold, pow2,
};
use vstd::prelude::*;

verus! {

/// Addition does not depend on the order of its operands, with one
/// exception: of two zeros the second is handed back, so two zeros of
/// opposite sign give the sign of the second.
pub proof fn lemma_add_commutes(a: Float32, b: Float32)
    requires
        !(is_zero(a@) && is_zero(b@) && a@ != b@),
    ensures
        sum_of(a@, b@) == sum_of(b@, a@),
{
    lemma_fields_make_pattern(a@);
    lemma_fields_make_pattern(b@);
}

/// Positive zero is neutral on either side of any value that is not a NaN,
/// but for negative zero on the left, which positive zero replaces.
pub proof fn lemma_add_zero(a: Float32)
    ensures
        !is_nan(a@) ==> sum_of(0, a@) == a@,
        !is_nan(a@) && a@ != SIGN_BIT ==> sum_of(a@, 0) == a@,
{
    lemma_fields_make_pattern(a@);
}

/// The pattern that rounding picks, unless it is infinity, stands for the
/// rounded significand at the scale of the number that was rounded.
pub proof fn lemma_nearest_value(m: nat)
    requires
        nearest_pattern(m) < INFINITY,
    ensures
        is_finite(nearest_pattern(m) as u32),
        sign_of(nearest_pattern(m) as u32) == 0,
        magnitude_of(nearest_pattern(m) as u32) == round_half_even(m, excess_bits(m)) * pow2(
            excess_bits(m),
        ),
{
    let k = excess_bits(m);
    let rounded = round_half_even(m, k);
    let p = (k * 0x80_0000 + rounded) as u32;
    lemma2_to64();
    lemma_excess_bits_bounds(m);
    lemma_round_error(m, k);
    lemma_pow2_pos(k);
    if k == 0 {
        assert(m / pow2(0) == m / 1 && m % pow2(0) == m % 1);
        assert(rounded == m);
        assert(magnitude_of(p) == significand_of(p) * pow2(0));
        assert(significand_of(p) * 1 == m);
    } else if rounded < 0x100_0000 {
        assert(exp_of(p) == k + 1);
        assert(significand_of(p) == rounded);
    } else {
        assert(exp_of(p) == k + 2);
        assert(significand_of(p) == 0x80_0000);
        lemma_pow2_unfold(k + 1);
        assert(0x80_0000 * (2 * pow2(k)) == 0x100_0000 * pow2(k));
    }
}

/// A magnitude that a finite pattern stands for rounds to that pattern:
/// rounding changes nothing that is representable.
pub proof fn lemma_nearest_exact(p: u32)
    requires
        p < INFINITY,
    ensures
        nearest_pattern(magnitude_of(p)) == p,
{
    let sig = significand_of(p);
    let k = (scale_of(p) - 1) as nat;
    let m = magnitude_of(p);
    lemma2_to64();
    lemma_fields_make_pattern(p);
    lemma_pow2_pos(k);
    lemma_fundamental_div_mod_converse(m as int, pow2(k) as int, sig as int, 0);
    lemma_excess_bits_unique(m, k);
}

/// The smallest magnitude that rounds to infinity: halfway between the
/// largest finite value, 2^128 - 2^104, and 2^128.
pub open spec fn overflow_threshold() -> nat {
    0x1FF_FFFF * pow2(252)
}

/// Rounding gives infinity from the overflow threshold on, and a finite
/// pattern below it.
pub proof fn lemma_nearest_overflow(m: nat)
    ensures
        nearest_pattern(m) == INFINITY <==> m >= overflow_threshold(),
{
    let k = excess_bits(m);
    let unit = pow2(k);
    let q = m / unit;
    let r = m % unit;
    let low = pow2(252);
    lemma2_to64();
    lemma_excess_bits_bounds(m);
    lemma_round_error(m, k);
    lemma_pow2_pos(k);
    lemma_pow2_pos(252);
    lemma_pow2_unfold(253);
    lemma_pow2_unfold(254);
    lemma_fundamental_div_mod(m as int, unit as int);
    let rounded = round_half_even(m, k);
    let threshold = 0x1FF_FFFF * low;
    if k < 253 {
        if k < 252 {
            lemma_pow2_strictly_increases(k, 252);
        }
        assert(unit * q + r < 0x100_0000 * low) by (nonlinear_arith)
            requires
                q < 0x100_0000,
                r < unit,
                0 < unit <= low,
        ;
        assert(m < threshold);
        assert(k * 0x80_0000 + rounded < 0x7F80_0000);
    } else if k > 253 {
        if k > 254 {
            lemma_pow2_strictly_increases(254, k);
        }
        assert(unit * q >= 0x80_0000 * (4 * low)) by (nonlinear_arith)
            requires
                q >= 0x80_0000,
                unit >= 4 * low,
        ;
        assert(m >= threshold);
        assert(k * 0x80_0000 + rounded >= 0x7F80_0000);
    } else {
        let product = low * q;
        assert(unit * q == 2 * product) by (nonlinear_arith)
            requires
                unit == 2 * low,
                product == low * q,
        ;
        assert(m == 2 * product + r);
        if q == 0xFF_FFFF {
            assert(product == 0xFF_FFFF * low) by (nonlinear_arith)
                requires
                    product == low * q,
                    q == 0xFF_FFFF,
            ;
            assert(m >= threshold <==> r >= low);
            assert(rounded == q + 1 <==> r >= low);
        } else {
            assert(product <= 0xFF_FFFE * low) by (nonlinear_arith)
                requires
                    product == low * q,
                    q <= 0xFF_FFFE,
                    low > 0,
            ;
            assert(m < threshold);
            assert(rounded < 0x100_0000);
        }
    }
}

/// Where the exact sum of two finite values, neither of them zero, is the
/// value of a finite pattern, that pattern is their sum. Of the two zeros it
/// is the positive one.
pub proof fn lemma_add_exact(a: Float32, b: Float32, c: Float32)
    requires
        is_finite(a@) && !is_zero(a@),
        is_finite(b@) && !is_zero(b@),
        is_finite(c@) && c@ != SIGN_BIT,
        value_of(c@) == value_of(a@) + value_of(b@),
    ensures
        sum_of(a@, b@) == c@,
{
    lemma_fields_make_pattern(c@);
    lemma_nearest_exact(abs_of(c@));
    assert(exp_of(abs_of(c@)) == exp_of(c@) && frac_of(abs_of(c@)) == frac_of(c@));
    assert(magnitude_of(abs_of(c@)) == magnitude_of(c@));
    if sign_of(c@) == 1 {
        lemma_pow2_pos((scale_of(c@) - 1) as nat);
        assert(magnitude_of(c@) > 0) by (nonlinear_arith)
            requires
                magnitude_of(c@) == significand_of(c@) * pow2((scale_of(c@) - 1) as nat),
                significand_of(c@) > 0,
                pow2((scale_of(c@) - 1) as nat) > 0,
        ;
    }
}

/// The size of an exact sum.
pub open spec fn exact_size(a: u32, b: u32) -> nat {
    if value_of(a) + value_of(b) >= 0 {
        (value_of(a) + value_of(b)) as nat
    } else {
        (-(value_of(a) + value_of(b))) as nat
    }
}

/// The sum of two finite values, neither of them zero, unless it is
/// infinite, has the sign of the exact sum and lies within half a unit in
/// the last place of it: the unit being 2^k where the exact sum has k
/// excess bits. It lies exactly half a unit away only with an even
/// fraction.
pub proof fn lemma_add_nearest(a: Float32, b: Float32)
    requires
        is_finite(a@) && !is_zero(a@),
        is_finite(b@) && !is_zero(b@),
        !is_infinite(sum_of(a@, b@)),
    ensures
        is_finite(sum_of(a@, b@)),
        sign_of(sum_of(a@, b@)) == (if value_of(a@) + value_of(b@) < 0 { 1u32 } else { 0u32 }),
        2 * (magnitude_of(sum_of(a@, b@)) - exact_size(a@, b@)) <= pow2(
            excess_bits(exact_size(a@, b@)),
        ),
        2 * (exact_size(a@, b@) - magnitude_of(sum_of(a@, b@))) <= pow2(
            excess_bits(exact_size(a@, b@)),
        ),
        2 * (magnitude_of(sum_of(a@, b@)) - exact_size(a@, b@)) == pow2(
            excess_bits(exact_size(a@, b@)),
        ) || 2 * (exact_size(a@, b@) - magnitude_of(sum_of(a@, b@))) == pow2(
            excess_bits(exact_size(a@, b@)),
        ) ==> frac_of(sum_of(a@, b@)) % 2 == 0,
{
    let m = exact_size(a@, b@);
    let k = excess_bits(m);
    let p = nearest_pattern(m) as u32;
    let r = sum_of(a@, b@);
    lemma_fields_make_pattern(r);
    lemma_fields_make_pattern(p);
    assert(r == p || r == 0x8000_0000 + p);
    assert(exp_of(r) == exp_of(p) && frac_of(r) == frac_of(p));
    assert(magnitude_of(r) == magnitude_of(p));
    lemma_nearest_value(m);
    lemma_round_error(m, k);
    // the fraction is even where the rounded significand is
    lemma2_to64();
    lemma_excess_bits_bounds(m);
    if k == 0 {
        assert(m / pow2(0) == m / 1 && m % pow2(0) == m % 1);
    }
}

} // verus!
