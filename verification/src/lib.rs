//! IEEE-754 binary32 addition carried out on the bit fields of the operands.
//!
//! [`Float32`] holds a value as its 32-bit pattern. Its `+` decodes both
//! operands, deals with NaN, infinity and zero, aligns the significands with
//! guard bits and a sticky bit, adds or subtracts them, normalizes, rounds to
//! nearest with ties to even, and encodes the result. The contract of `+`
//! states the result as the exact sum of the two values, rounded.

pub mod add;
pub mod dyadic;
pub mod float32;
pub mod laws;
pub mod rounding;
pub mod sticky;

pub use float32::Float32;
