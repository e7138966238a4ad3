//! Arbitrary-precision non-negative integers, stored as little-endian
//! sequences of 64-bit digits kept in canonical form (no trailing zero
//! digit; the empty sequence is zero), with verified schoolbook
//! comparison, addition, subtraction and multiplication, and a decimal
//! rendering.

pub mod arith;
pub mod bigint;
pub mod decimal;
pub mod digits;
pub mod laws;

pub use crate::arith::Comparison;
pub use crate::bigint::BigInt;
pub use crate::bigint::BigIntError;
