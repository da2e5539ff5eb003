//! Fixed-width signed arithmetic built only from 16-bit signed operations: shift
//! primitives, limb vectors with schoolbook multiplication and normalized long
//! division, two 32-bit wide integers on those limbs, and a fixed-point number with
//! sixteen fractional bits on top of them.
pub mod fixed;
pub mod int30;
pub mod int32;
pub mod limbs;
pub mod shift;
