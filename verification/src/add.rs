//! Addition of two binary32 values on their bit fields: decode, dispatch the
//! special values, align, combine, normalize, round, encode.

use crate::float32::{
    is_finite, is_infinite, is_nan, is_zero, lemma_fields_make_pattern, lemma_round_trip,
    scale_of, sign_of, significand_of, value_of, Float32, QUIET_NAN,
};
use crate::dyadic::{lemma_pow2_mul_cancel, lemma_product_zero};
use crate::rounding::{
    excess_bits, lemma_excess_bits_unique, lemma_round_scaled, nearest_pattern, round_half_even,
};
use crate::sticky::{
    lemma_difference_tracks, lemma_round_tracked, lemma_sum_tracks, lemma_tracks_scaled,
    lemma_tracks_shifted_left, lemma_tracks_shifted_right, sticky_shr, tracks,
};
use vstd::arithmetic::div_mod::{
    lemma_basic_div, lemma_div_is_ordered_by_denominator, lemma_fundamental_div_mod,
    lemma_small_mod,
};
use vstd::arithmetic::mul::lemma_mul_is_commutative;
use vstd::arithmetic::power2::{
    lemma2_to64, lemma2_to64_rest, lemma_pow2_adds, lemma_pow2_pos,
    lemma_pow2_strictly_increases, lemma_pow2_unfold, pow2,
};
use vstd::bits::{
    lemma_u64_low_bits_mask_is_mod, lemma_u64_pow2_no_overflow, lemma_u64_shl_is_mul,
    lemma_u64_shr_is_div, low_bits_mask,
};
use core::ops::Add;
use vstd::prelude::*;
use vstd::std_specs::ops::AddSpecImpl;

verus! {

/// Significands are shifted left by this many places before they are
/// aligned, so that the bits an alignment shifts out are kept below the
/// place where the result is rounded. A significand of 24 bits, these 32
/// places and one carry bit make 57 bits, which a `u64` holds.
pub const GUARD_BITS: u64 = 32;

/// The significand of a value: its fraction, with bit 23 set if the value
/// is normal.
fn significand(x: Float32) -> (s: u64)
    ensures
        s == significand_of(x@),
{
    let frac = x.frac() as u64;
    if x.exp() > 0 {
        assert(frac | 0x80_0000 == 0x80_0000 + frac) by (bit_vector)
            requires
                frac < 0x80_0000,
        ;
        frac | 0x80_0000
    } else {
        frac
    }
}

/// The exponent that scales the significand: the exponent field, or 1 for
/// a subnormal value or zero.
fn scale(x: Float32) -> (e: u64)
    ensures
        e == scale_of(x@),
{
    let e = x.exp() as u64;
    if e > 0 {
        e
    } else {
        1
    }
}

/// Shifts `x` right by `n` places and ORs every bit that left `x` into the
/// lowest bit of the result.
fn shift_right_sticky(x: u64, n: u64) -> (r: u64)
    ensures
        r == sticky_shr(x as nat, n as nat),
{
    if n >= 64 {
        proof {
            lemma2_to64_rest();
            if n > 64 {
                lemma_pow2_strictly_increases(64, n as nat);
            }
            lemma_basic_div(x as int, pow2(n as nat) as int);
            lemma_small_mod(x as nat, pow2(n as nat));
        }
        if x != 0 {
            1
        } else {
            0
        }
    } else {
        proof {
            lemma_u64_pow2_no_overflow(n as nat);
            lemma_u64_shr_is_div(x, n);
            lemma_u64_shl_is_mul(1, n);
            lemma_u64_low_bits_mask_is_mod(x, n as nat);
        }
        let kept = x >> n;
        let mask = (1u64 << n) - 1;
        let lost = x & mask;
        proof {
            assert(mask == low_bits_mask(n as nat));
            assert(kept | 1 == if kept % 2 == 0 { kept + 1 } else { kept as int }) by (bit_vector);
        }
        if lost != 0 {
            kept | 1
        } else {
            kept
        }
    }
}

/// A pattern without sign that has reached the exponent 255 stands for
/// infinity, whatever its fraction.
pub open spec fn saturated(p: nat) -> nat {
    if p >= 0x7F80_0000 {
        0x7F80_0000
    } else {
        p
    }
}

/// Brings the leading bit of a significand to bit 55, where the implicit bit
/// of a normal number stands above the guard bits, and moves the exponent
/// along. A carry into bit 56 is shifted back with a sticky bit. Leading
/// zeros are shifted out as far as the exponent allows: at the exponent 1
/// the significand stays as it is, and the number is subnormal.
fn normalize(sig: u64, exp: u64) -> (r: (u64, u64))
    requires
        0 < sig < 0x200_0000_0000_0000,
        1 <= exp <= 254,
    ensures
        r.0 < 0x100_0000_0000_0000,
        r.0 >= 0x80_0000_0000_0000 || r.1 == 1,
        1 <= r.1 <= 255,
        sig >= 0x100_0000_0000_0000 ==> r.0 == sticky_shr(sig as nat, 1) && r.1 == exp + 1,
        sig < 0x100_0000_0000_0000 ==> r.1 <= exp && r.0 == sig * pow2((exp - r.1) as nat),
{
    if sig >= 0x100_0000_0000_0000 {
        proof {
            lemma2_to64();
        }
        (shift_right_sticky(sig, 1), exp + 1)
    } else {
        let mut s = sig;
        let mut e = exp;
        proof {
            lemma2_to64();
            assert(sig * pow2(0) == sig) by (nonlinear_arith)
                requires
                    pow2(0) == 1,
            ;
        }
        while s < 0x80_0000_0000_0000 && e > 1
            invariant
                0 < s < 0x100_0000_0000_0000,
                1 <= e <= exp,
                s == sig * pow2((exp - e) as nat),
            decreases e,
        {
            proof {
                let n = (exp - e) as nat;
                lemma_pow2_unfold(n + 1);
                assert(sig * (2 * pow2(n)) == 2 * (sig * pow2(n))) by (nonlinear_arith);
                assert(s << 1 == 2 * s) by (bit_vector)
                    requires
                        s < 0x80_0000_0000_0000,
                ;
            }
            s = s << 1;
            e = e - 1;
        }
        (s, e)
    }
}

/// Rounds a normalized significand to nearest, ties to even, at the guard
/// width, and encodes sign, exponent and fraction. A carry out of the
/// rounded significand moves the exponent up once more; an exponent that
/// reaches 255 gives infinity; a significand below 2^23, which normalizing
/// leaves only at the exponent 1, is encoded as subnormal.
fn round_pack(sign: u32, exp: u64, sig: u64) -> (r: Float32)
    requires
        sign <= 1,
        1 <= exp <= 255,
        sig < 0x100_0000_0000_0000,
        sig >= 0x80_0000_0000_0000 || exp == 1,
    ensures
        r@ == sign * 0x8000_0000 + saturated(
            ((exp - 1) * 0x80_0000 + round_half_even(sig as nat, GUARD_BITS as nat)) as nat,
        ),
{
    let kept = sig >> 32;
    let guard = (sig >> 31) & 1;
    let round = (sig >> 30) & 1;
    let sticky: u64 = if sig & 0x3FFF_FFFF != 0 { 1 } else { 0 };
    let up = guard & (round | sticky | (kept & 1));
    proof {
        lemma2_to64();
        let rem = sig % 0x1_0000_0000;
        assert(kept == sig / 0x1_0000_0000 && up <= 1 && (up == 1 <==> (2 * rem > 0x1_0000_0000 || (2
            * rem == 0x1_0000_0000 && kept % 2 == 1)))) by (bit_vector)
            requires
                kept == sig >> 32,
                rem == sig % 0x1_0000_0000,
                up == ((sig >> 31) & 1) & (((sig >> 30) & 1) | sticky | (kept & 1)),
                sticky == (if sig & 0x3FFF_FFFF != 0 { 1u64 } else { 0u64 }),
        ;
        assert(kept + up == round_half_even(sig as nat, 32));
    }
    let rounded = kept + up;
    let mut significand = rounded;
    let mut exponent = exp;
    if rounded >> 24 == 1 {
        significand = rounded >> 1;
        exponent = exponent + 1;
    }
    proof {
        assert((rounded >> 24 == 1 <==> rounded == 0x100_0000) && (rounded == 0x100_0000 ==> rounded
            >> 1 == 0x80_0000)) by (bit_vector)
            requires
                rounded <= 0x100_0000,
        ;
        assert(significand & 0x7F_FFFF == significand % 0x80_0000) by (bit_vector);
    }
    if exponent >= 255 {
        Float32::from_parts(sign, 255, 0)
    } else {
        let field = if significand >= 0x80_0000 { exponent } else { 0 };
        Float32::from_parts(sign, field as u32, (significand & 0x7F_FFFF) as u32)
    }
}

/// A magnitude with its sign: negative where the sign bit is 1.
pub open spec fn signed(sign: u32, magnitude: nat) -> int {
    if sign == 1 {
        -(magnitude as int)
    } else {
        magnitude as int
    }
}

/// The pattern of the binary32 value nearest to `v` units of 2^-149, ties
/// going to the even fraction. Zero is positive zero.
pub open spec fn round_to_bits(v: int) -> u32 {
    if v >= 0 {
        nearest_pattern(v as nat) as u32
    } else {
        (0x8000_0000 + nearest_pattern((-v) as nat)) as u32
    }
}

/// What aligning and combining two significands keeps of the exact result.
///
/// The larger operand is `sig_hi * 2^(exp_hi - 1)`, the smaller one
/// `sig_lo * 2^(exp_lo - 1)`. With both significands shifted left by the
/// guard width and the smaller one then shifted right, sticky, by the
/// difference of the exponents, their sum or difference tracks the exact
/// sum or difference at the larger exponent, with one blurred bit.
proof fn lemma_aligned(sig_hi: nat, exp_hi: nat, sig_lo: nat, exp_lo: nat, same: bool)
    requires
        0 < sig_hi < 0x100_0000,
        0 < sig_lo < 0x100_0000,
        1 <= exp_lo <= exp_hi,
        exp_hi > 1 ==> sig_hi >= 0x80_0000,
        exp_hi == exp_lo ==> sig_hi >= sig_lo,
    ensures
        ({
            let high = sig_hi * 0x1_0000_0000;
            let low = sticky_shr(sig_lo * 0x1_0000_0000, (exp_hi - exp_lo) as nat);
            let big = sig_hi * pow2((exp_hi - 1) as nat);
            let small = sig_lo * pow2((exp_lo - 1) as nat);
            let sum = if same { (high + low) as int } else { high - low };
            let exact = if same { (big + small) as int } else { big - small };
            &&& low <= high
            &&& small <= big
            &&& tracks(sum as nat, (exact * pow2(32)) as nat, (exp_hi - 1) as nat, 1)
            &&& sum != 0 ==> sum >= 0x8000_0000
        }),
{
    let d = (exp_hi - exp_lo) as nat;
    let guard: nat = 0x1_0000_0000;
    let high = sig_hi * guard;
    let full = sig_lo * guard;
    let low = sticky_shr(full, d);
    let pd = pow2(d);
    let pl = pow2((exp_lo - 1) as nat);
    let ph = pow2((exp_hi - 1) as nat);
    let big = sig_hi * ph;
    let small = sig_lo * pl;
    lemma2_to64();
    lemma_pow2_pos(d);
    lemma_pow2_pos((exp_lo - 1) as nat);
    lemma_pow2_adds(d, (exp_lo - 1) as nat);
    assert(d + (exp_lo - 1) == exp_hi - 1);
    assert(ph == pd * pl);
    // the smaller significand is not above the larger one at its place
    if d > 0 {
        lemma_pow2_strictly_increases(0, d);
    }
    assert(sig_lo <= sig_hi * pd) by (nonlinear_arith)
        requires
            pd >= 1,
            pd == 1 ==> sig_hi >= sig_lo,
            pd > 1 ==> sig_hi >= 0x80_0000,
            sig_lo < 0x100_0000,
    ;
    assert(full <= high * pd && small <= big) by (nonlinear_arith)
        requires
            sig_lo <= sig_hi * pd,
            full == sig_lo * guard,
            high == sig_hi * guard,
            small == sig_lo * pl,
            big == sig_hi * ph,
            ph == pd * pl,
            pl > 0,
    ;
    assert(high % 2 == 0);
    lemma_difference_tracks(high, full, d);
    let sum = if same { high + low } else { (high - low) as nat };
    let exact = if same { big + small } else { (big - small) as nat };
    let aligned = if same { high * pd + full } else { (high * pd - full) as nat };
    if same {
        lemma_sum_tracks(high, full, d);
    }
    lemma_tracks_scaled(sum, aligned, d, 1, (exp_lo - 1) as nat);
    assert(aligned * pl == exact * pow2(32)) by (nonlinear_arith)
        requires
            aligned == (if same { (high * pd + full) as int } else { high * pd - full }),
            exact == (if same { (big + small) as int } else { big - small }),
            full == sig_lo * guard,
            high == sig_hi * guard,
            small == sig_lo * pl,
            big == sig_hi * ph,
            ph == pd * pl,
            pow2(32) == guard,
    ;
    // what is left of a difference is at least one unit of the last exact place
    if !same && sum != 0 {
        if d == 0 {
            assert(full / 1 == full && full % 1 == 0);
        } else if d == 1 {
            assert(full / 2 == sig_lo * 0x8000_0000 && full % 2 == 0);
        } else {
            if d > 2 {
                lemma_pow2_strictly_increases(2, d);
            }
            lemma_div_is_ordered_by_denominator(full as int, 4, pd as int);
        }
    }
}

/// A normalized significand that tracks the exact magnitude `m` stands at
/// the exponent that `m` itself calls for, and rounds as `m` does.
proof fn lemma_normalized(m: nat, sig: nat, exp: nat, t: nat)
    requires
        tracks(sig, m * pow2(32), (exp - 1) as nat, t),
        t < 32,
        exp >= 1,
        sig < 0x100_0000_0000_0000,
        sig >= 0x80_0000_0000_0000 || exp == 1,
    ensures
        excess_bits(m) == exp - 1,
        round_half_even(sig, 32) == round_half_even(m, (exp - 1) as nat),
{
    let k = (exp - 1) as nat;
    lemma2_to64();
    lemma_round_tracked(sig, m * pow2(32), k, t, 32);
    lemma_round_scaled(m, 32, k);
    lemma_pow2_mul_cancel(m, 32, k);
    assert(sig / 0x1_0000_0000 == m / pow2(k));
    lemma_excess_bits_unique(m, k);
}

/// Adds two magnitudes with their signs, the first not smaller than the
/// second: aligns the significands on the larger exponent, adds or
/// subtracts them, and rounds the result to a value.
fn combine(sign_hi: u32, sig_hi: u64, exp_hi: u64, sign_lo: u32, sig_lo: u64, exp_lo: u64) -> (r:
    Float32)
    requires
        sign_hi <= 1,
        sign_lo <= 1,
        0 < sig_hi < 0x100_0000,
        0 < sig_lo < 0x100_0000,
        1 <= exp_lo <= exp_hi <= 254,
        exp_hi > 1 ==> sig_hi >= 0x80_0000,
        exp_hi == exp_lo ==> sig_hi >= sig_lo,
    ensures
        r@ == round_to_bits(
            signed(sign_hi, sig_hi as nat * pow2((exp_hi - 1) as nat)) + signed(
                sign_lo,
                sig_lo as nat * pow2((exp_lo - 1) as nat),
            ),
        ),
{
    let ghost same = sign_hi == sign_lo;
    let ghost big = sig_hi as nat * pow2((exp_hi - 1) as nat);
    let ghost small = sig_lo as nat * pow2((exp_lo - 1) as nat);
    let ghost exact = if same { big + small } else { (big - small) as nat };
    proof {
        lemma_aligned(sig_hi as nat, exp_hi as nat, sig_lo as nat, exp_lo as nat, same);
        assert(sig_hi << 32 == sig_hi * 0x1_0000_0000 && sig_lo << 32 == sig_lo * 0x1_0000_0000)
            by (bit_vector)
            requires
                sig_hi < 0x100_0000,
                sig_lo < 0x100_0000,
        ;
    }
    let high = sig_hi << GUARD_BITS;
    let low = shift_right_sticky(sig_lo << GUARD_BITS, exp_hi - exp_lo);
    let sum = if sign_hi == sign_lo {
        high + low
    } else {
        high - low
    };
    proof {
        lemma_exact_zero(sum as nat, exact, exp_hi as nat);
    }
    if sum == 0 {
        proof {
            lemma_nearest_zero();
        }
        return Float32::from_bits(0);
    }
    let (sig, exp) = normalize(sum, exp_hi);
    proof {
        lemma2_to64();
        let j = (exp_hi - 1) as nat;
        if sum >= 0x100_0000_0000_0000 {
            lemma_tracks_shifted_right(sum as nat, exact * pow2(32), j);
            lemma_normalized(exact, sig as nat, exp as nat, 1);
        } else {
            let c = (exp_hi - exp) as nat;
            lemma_tracks_shifted_left(sum as nat, exact * pow2(32), j, 1, c);
            if c >= 25 {
                if c > 25 {
                    lemma_pow2_strictly_increases(25, c);
                }
                assert(sum * pow2(c) >= 0x100_0000_0000_0000) by (nonlinear_arith)
                    requires
                        sum >= 0x8000_0000,
                        pow2(c) >= 0x200_0000,
                ;
            }
            lemma_normalized(exact, sig as nat, exp as nat, 1 + c);
        }
    }
    round_pack(sign_hi, exp, sig)
}

/// A number that tracks another is zero exactly where the other is.
proof fn lemma_exact_zero(sum: nat, exact: nat, exp: nat)
    requires
        exp >= 1,
        tracks(sum, exact * pow2(32), (exp - 1) as nat, 1),
    ensures
        sum == 0 <==> exact == 0,
{
    let x = exact * pow2(32);
    let unit = pow2(exp);
    lemma2_to64();
    lemma_pow2_pos(exp);
    lemma_pow2_pos(32);
    assert((exp - 1) as nat + 1 == exp);
    lemma_fundamental_div_mod(x as int, unit as int);
    lemma_product_zero(pow2(32), exact);
    lemma_mul_is_commutative(exact as int, pow2(32) as int);
    if x == 0 {
        lemma_basic_div(0, unit as int);
        lemma_small_mod(0, unit);
    } else if x / unit == 0 {
        assert(unit * 0 == 0);
    }
}

/// Zero rounds to the pattern of positive zero.
proof fn lemma_nearest_zero()
    ensures
        round_to_bits(0) == 0,
{
    lemma2_to64();
    assert(excess_bits(0) == 0);
    assert(0nat / 1 == 0 && 0nat % 1 == 0);
}

/// Adds two finite values, neither of them zero: orders them by magnitude,
/// exponent first and significand second, and combines them.
fn add_finite(a: Float32, b: Float32) -> (r: Float32)
    requires
        is_finite(a@),
        is_finite(b@),
        !is_zero(a@),
        !is_zero(b@),
    ensures
        r@ == round_to_bits(value_of(a@) + value_of(b@)),
{
    let sig_a = significand(a);
    let exp_a = scale(a);
    let sig_b = significand(b);
    let exp_b = scale(b);
    proof {
        lemma_fields_make_pattern(a@);
        lemma_fields_make_pattern(b@);
    }
    if exp_a > exp_b || (exp_a == exp_b && sig_a >= sig_b) {
        combine(a.sign(), sig_a, exp_a, b.sign(), sig_b, exp_b)
    } else {
        combine(b.sign(), sig_b, exp_b, a.sign(), sig_a, exp_a)
    }
}

/// The pattern of the sum of the values with the patterns `a` and `b`.
///
/// A NaN operand gives the canonical quiet NaN, and so do two infinities of
/// opposite sign. An infinity otherwise gives itself. A zero gives the
/// other operand as it is. Two finite values that are not zero give their
/// exact sum rounded to nearest, ties to even: infinity where that is out of
/// range, positive zero where they cancel.
pub open spec fn sum_of(a: u32, b: u32) -> u32 {
    if is_nan(a) || is_nan(b) {
        QUIET_NAN
    } else if is_infinite(a) && is_infinite(b) && sign_of(a) != sign_of(b) {
        QUIET_NAN
    } else if is_infinite(a) {
        a
    } else if is_infinite(b) {
        b
    } else if is_zero(a) {
        b
    } else if is_zero(b) {
        a
    } else {
        round_to_bits(value_of(a) + value_of(b))
    }
}

impl Add for Float32 {
    type Output = Float32;

    /// The sum of two values, correctly rounded.
    fn add(self, rhs: Float32) -> (r: Float32)
        ensures
            r@ == sum_of(self@, rhs@),
    {
        let r = if self.is_nan() || rhs.is_nan() {
            Float32::from_bits(QUIET_NAN)
        } else if self.is_infinite() {
            if rhs.is_infinite() && self.sign() != rhs.sign() {
                Float32::from_bits(QUIET_NAN)
            } else {
                self
            }
        } else if rhs.is_infinite() {
            rhs
        } else if self.is_zero() {
            rhs
        } else if rhs.is_zero() {
            self
        } else {
            add_finite(self, rhs)
        };
        proof {
            lemma_round_trip(r, r);
        }
        r
    }
}

impl AddSpecImpl for Float32 {
    open spec fn obeys_add_spec() -> bool {
        true
    }

    open spec fn add_req(self, rhs: Float32) -> bool {
        true
    }

    open spec fn add_spec(self, rhs: Float32) -> Float32 {
        Float32::with_bits(sum_of(self@, rhs@))
    }
}

} // verus!
