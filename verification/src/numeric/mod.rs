//! Double-precision numbers on integers.
//!
//! Prices, sizes, probabilities and thresholds are IEEE 754 binary64 values. Here such a value is
//! its 64-bit pattern, and the arithmetic on it is integer arithmetic that is proved to round as
//! the standard says: to the nearest representable value, ties to even.

pub mod accuracy;
pub mod big;
pub mod binary64;
pub mod decimal;
pub mod decimal_laws;
pub mod laws;
pub mod order;
pub mod rounding;
