//! Division by powers of two: how quotients and remainders split and scale.

use vstd::arithmetic::div_mod::{
    lemma_div_denominator, lemma_div_multiples_vanish_quotient, lemma_mod_breakdown,
    lemma_truncate_middle,
};
use vstd::arithmetic::mul::lemma_mul_is_commutative;
use vstd::arithmetic::power2::{lemma_pow2_adds, lemma_pow2_pos, pow2};
use vstd::prelude::*;

verus! {

/// Dividing by `2^(a+b)` is dividing by `2^a` and then by `2^b`, for the
/// quotient and for the remainder.
pub proof fn lemma_pow2_div_split(x: nat, a: nat, b: nat)
    ensures
        x / pow2(a + b) == (x / pow2(a)) / pow2(b),
        x % pow2(a + b) == pow2(a) * ((x / pow2(a)) % pow2(b)) + x % pow2(a),
{
    lemma_pow2_adds(a, b);
    lemma_pow2_pos(a);
    lemma_pow2_pos(b);
    lemma_div_denominator(x as int, pow2(a) as int, pow2(b) as int);
    lemma_mod_breakdown(x as int, pow2(a) as int, pow2(b) as int);
}

/// A factor `2^c` in the dividend cancels against the same factor in the
/// divisor.
pub proof fn lemma_pow2_mul_cancel(x: nat, c: nat, k: nat)
    ensures
        (x * pow2(c)) / pow2(k + c) == x / pow2(k),
        (x * pow2(c)) % pow2(k + c) == pow2(c) * (x % pow2(k)),
{
    lemma_pow2_adds(c, k);
    lemma_pow2_pos(c);
    lemma_pow2_pos(k);
    assert(pow2(k + c) == pow2(c) * pow2(k));
    lemma_mul_is_commutative(x as int, pow2(c) as int);
    lemma_div_multiples_vanish_quotient(pow2(c) as int, x as int, pow2(k) as int);
    lemma_truncate_middle(x as int, pow2(c) as int, pow2(k) as int);
}

/// Comparing `unit * u + l` with `unit * h`, where `l` is less than `unit`,
/// is comparing `u` with `h` first and `l` with zero second.
pub proof fn lemma_split_compare(unit: int, u: int, h: int, l: int)
    by (nonlinear_arith)
    requires
        unit > 0,
        0 <= l < unit,
    ensures
        (unit * u + l > unit * h) <==> (u > h || (u == h && l > 0)),
        (unit * u + l == unit * h) <==> (u == h && l == 0),
{
    if u > h {
        assert(unit * u >= unit * h + unit) by {
            assert(unit * (u - h) >= unit);
        }
    } else if u < h {
        assert(unit * u + unit <= unit * h) by {
            assert(unit * (h - u) >= unit);
        }
    }
}

/// A product with a positive factor is zero exactly where the other factor is.
pub proof fn lemma_product_zero(unit: nat, u: nat)
    by (nonlinear_arith)
    requires
        unit > 0,
    ensures
        unit * u == 0 <==> u == 0,
{
}

} // verus!
