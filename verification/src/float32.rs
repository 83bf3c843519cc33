//! The binary32 value type: a 32-bit pattern, its three fields, and the number
//! that the pattern stands for.

use vstd::arithmetic::power2::pow2;
use vstd::prelude::*;

verus! {

/// Pattern of the canonical quiet NaN: exponent all ones, top fraction bit set.
pub const QUIET_NAN: u32 = 0x7FC0_0000;

/// Pattern of positive infinity: exponent all ones, fraction zero.
pub const INFINITY: u32 = 0x7F80_0000;

/// The sign bit as a pattern; also the pattern of negative zero.
pub const SIGN_BIT: u32 = 0x8000_0000;

/// The sign field of a pattern: bit 31.
pub open spec fn sign_of(bits: u32) -> u32 {
    bits / 0x8000_0000
}

/// The biased exponent field of a pattern: bits 30..23.
pub open spec fn exp_of(bits: u32) -> u32 {
    (bits / 0x80_0000) % 0x100
}

/// The fraction field of a pattern: bits 22..0.
pub open spec fn frac_of(bits: u32) -> u32 {
    bits % 0x80_0000
}

/// The pattern made of three fields, each within its width.
pub open spec fn pack(sign: u32, exp: u32, frac: u32) -> int {
    sign * 0x8000_0000 + exp * 0x80_0000 + frac
}

/// The pattern without its sign bit.
pub open spec fn abs_of(bits: u32) -> u32 {
    bits % 0x8000_0000
}

/// Exponent all ones and a fraction that is not zero.
pub open spec fn is_nan(bits: u32) -> bool {
    exp_of(bits) == 255 && frac_of(bits) != 0
}

/// Exponent all ones and fraction zero.
pub open spec fn is_infinite(bits: u32) -> bool {
    exp_of(bits) == 255 && frac_of(bits) == 0
}

/// Exponent and fraction both zero, whatever the sign.
pub open spec fn is_zero(bits: u32) -> bool {
    exp_of(bits) == 0 && frac_of(bits) == 0
}

/// Neither infinite nor NaN.
pub open spec fn is_finite(bits: u32) -> bool {
    exp_of(bits) < 255
}

/// The fraction with the implicit leading bit in front of it: that bit is 1
/// for a normal number and 0 for a subnormal one or zero.
pub open spec fn significand_of(bits: u32) -> nat {
    if exp_of(bits) > 0 {
        (0x80_0000 + frac_of(bits)) as nat
    } else {
        frac_of(bits) as nat
    }
}

/// The exponent that the significand is scaled by. A subnormal number is
/// scaled as the smallest normal numbers are, so the field values 0 and 1
/// both give 1.
pub open spec fn scale_of(bits: u32) -> nat {
    if exp_of(bits) > 0 {
        exp_of(bits) as nat
    } else {
        1
    }
}

/// The size of a finite value, counted in units of 2^-149, the smallest
/// subnormal number. Every finite binary32 value is a whole number of them.
pub open spec fn magnitude_of(bits: u32) -> nat
    recommends
        is_finite(bits),
{
    significand_of(bits) * pow2((scale_of(bits) - 1) as nat)
}

/// The finite value itself in units of 2^-149, with its sign.
pub open spec fn value_of(bits: u32) -> int
    recommends
        is_finite(bits),
{
    if sign_of(bits) == 1 {
        -(magnitude_of(bits) as int)
    } else {
        magnitude_of(bits) as int
    }
}

/// A binary32 floating-point value, held as its raw 32-bit pattern.
///
/// Bit 31 is the sign, bits 30..23 the biased exponent and bits 22..0 the
/// fraction. Every pattern is a value, so there is nothing to validate.
#[derive(Clone, Copy, Debug)]
pub struct Float32(u32);

impl View for Float32 {
    type V = u32;

    /// The raw pattern.
    closed spec fn view(&self) -> u32 {
        self.0
    }
}

impl Float32 {
    /// The value with the given raw pattern, as specifications name it.
    pub closed spec fn with_bits(bits: u32) -> Float32 {
        Float32(bits)
    }

    /// The value with the given raw pattern.
    pub fn from_bits(bits: u32) -> (v: Float32)
        ensures
            v@ == bits,
            v == Float32::with_bits(bits),
    {
        Float32(bits)
    }

    /// The value with the given fields. Of each argument only the bits that
    /// its field has room for are used: 1 of `sign`, 8 of `exp`, 23 of `frac`.
    pub fn from_parts(sign: u32, exp: u32, frac: u32) -> (v: Float32)
        ensures
            v@ == pack(sign % 2, exp % 0x100, frac % 0x80_0000),
            sign_of(v@) == sign % 2,
            exp_of(v@) == exp % 0x100,
            frac_of(v@) == frac % 0x80_0000,
    {
        let bits = ((sign & 1) << 31) | ((exp & 0xFF) << 23) | (frac & 0x7F_FFFF);
        assert(bits == (sign % 2) * 0x8000_0000 + (exp % 0x100) * 0x80_0000 + frac % 0x80_0000)
            by (bit_vector)
            requires
                bits == ((sign & 1) << 31) | ((exp & 0xFF) << 23) | (frac & 0x7F_FFFF),
        ;
        Float32(bits)
    }

    /// The raw pattern of the value.
    pub fn raw(self) -> (bits: u32)
        ensures
            bits == self@,
    {
        self.0
    }

    /// The sign field: 0 for positive, 1 for negative.
    pub fn sign(self) -> (s: u32)
        ensures
            s == sign_of(self@),
    {
        let bits = self.0;
        assert(bits >> 31 == bits / 0x8000_0000) by (bit_vector);
        bits >> 31
    }

    /// The biased exponent field.
    pub fn exp(self) -> (e: u32)
        ensures
            e == exp_of(self@),
    {
        let bits = self.0;
        assert((bits >> 23) & 0xFF == (bits / 0x80_0000) % 0x100) by (bit_vector);
        (bits >> 23) & 0xFF
    }

    /// The fraction field.
    pub fn frac(self) -> (f: u32)
        ensures
            f == frac_of(self@),
    {
        let bits = self.0;
        assert(bits & 0x7F_FFFF == bits % 0x80_0000) by (bit_vector);
        bits & 0x7F_FFFF
    }

    /// Whether the value is a NaN.
    pub fn is_nan(self) -> (b: bool)
        ensures
            b == is_nan(self@),
    {
        self.exp() == 255 && self.frac() != 0
    }

    /// Whether the value is positive or negative infinity.
    pub fn is_infinite(self) -> (b: bool)
        ensures
            b == is_infinite(self@),
    {
        self.exp() == 255 && self.frac() == 0
    }

    /// Whether the value is positive or negative zero.
    pub fn is_zero(self) -> (b: bool)
        ensures
            b == is_zero(self@),
    {
        self.exp() == 0 && self.frac() == 0
    }
}

/// A pattern is the sum of its three fields, each at its place: decoding
/// loses nothing.
pub proof fn lemma_fields_make_pattern(bits: u32)
    ensures
        pack(sign_of(bits), exp_of(bits), frac_of(bits)) == bits,
        sign_of(bits) <= 1,
        exp_of(bits) <= 255,
        frac_of(bits) < 0x80_0000,
{
}

/// Two values with the same raw pattern are the same value: building a value
/// from the raw pattern of another gives that other value back.
pub proof fn lemma_round_trip(v: Float32, w: Float32)
    requires
        w@ == v@,
    ensures
        w == v,
        Float32::with_bits(v@) == v,
{
}

/// The value named by a pattern has that pattern.
pub proof fn lemma_with_bits(bits: u32)
    ensures
        Float32::with_bits(bits)@ == bits,
{
}

} // verus!
