//! Arbitrary-precision unsigned integers stored as little-endian 32-bit limbs.

pub mod bigint;
pub mod decimal;
pub mod laws;
pub mod limbs;

pub use bigint::{BigInt, ParseError};
