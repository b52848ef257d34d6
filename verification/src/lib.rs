//! Deterministic fixed-point decimal arithmetic.
//!
//! A `Decimal` is a 128-bit unsigned magnitude together with a scale (the
//! count of implied decimal places) and a sign flag.  Every operation is
//! exact integer arithmetic on the magnitude; transcendental operations
//! (square root, logarithms, powers) are integer-only iterations with a
//! bounded, input-independent step count.

pub mod math;

pub mod uint;

pub mod decimal;
