//! Binary floating point, on bits.
//!
//! [`single::Single`] and [`double::Double`] are the 32-bit and the 64-bit format of
//! IEEE 754. Every operation is stated over the reals: its result is the number of the
//! format that is [nearest](format::Format::nearest) to the exact one, the even one of
//! two that are equally near.

pub mod close;
pub mod double;
pub mod error;
pub mod format;
pub mod laws;
pub mod near;
pub mod number;
pub mod round;
pub mod single;
