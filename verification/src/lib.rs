//! Arbitrary-precision binary floating point, built on a fixed-width
//! multi-word unsigned integer.
//!
//! The crate has two layers. `BigInt` is a little-endian array of 64-bit
//! words with overflow-aware arithmetic, shifts, masking and bit queries;
//! every operation carries a contract over the integer value the words
//! denote. `Float` is a software IEEE-754-style value with configurable
//! exponent and mantissa widths; its mantissa is a `BigInt`, stored with an
//! explicit leading bit, and one normalization routine performs rounding,
//! overflow and underflow handling for construction and casting alike.

pub mod bigint;
pub mod cast;
pub mod compact;
pub mod float;
pub mod laws;
pub mod utils;

pub use bigint::BigInt;
pub use float::Category;
pub use float::Float;
pub use float::LossFraction;
pub use float::RoundingMode;

use vstd::prelude::*;

verus! {

/// Half precision: 5 exponent bits, 10 mantissa bits.
pub type FP16 = Float<5, 10>;

/// Single precision: 8 exponent bits, 23 mantissa bits.
pub type FP32 = Float<8, 23>;

/// Double precision: 11 exponent bits, 52 mantissa bits.
pub type FP64 = Float<11, 52>;

/// Quadruple precision: 15 exponent bits, 112 mantissa bits.
pub type FP128 = Float<15, 112>;

/// Octuple precision: 19 exponent bits, 236 mantissa bits.
pub type FP256 = Float<19, 236>;

} // verus!
