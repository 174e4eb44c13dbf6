//! Fixed-word-width multi-precision unsigned integer arithmetic: carry-aware
//! addition and subtraction, recursive double-width multiplication, multi-word
//! bit shifts, bitwise logic, lexicographic comparison, restoring long
//! division, and bias-free bounded random sampling, composed behind a
//! 512-bit integer type.

pub mod limbs;
pub mod arithmetic;
pub mod random;
pub mod u512;
pub mod laws;
