//! Bit-exact reimplementation of the 48-bit linear-congruential pseudorandom
//! number generator popularised by `java.util.Random`, together with the
//! integer kernel of the classic digit-by-digit square root on IEEE-754
//! double-precision bit patterns.
//!
//! Everything here is integer arithmetic: floating-point values enter and
//! leave as their 64-bit IEEE-754 bit patterns, so every operation can be
//! specified and verified exactly.

pub mod bits;
pub mod period;
pub mod rng;
pub mod sqrt;

pub use bits::from_parts;
pub use bits::parts;
pub use rng::Random;
pub use sqrt::sqrt_bits;
