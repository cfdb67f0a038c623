//! Distortion by round-off: a sample is multiplied and shifted up, then shifted down and divided
//! again, all in single precision; what the rounding on the way took off the sample is the
//! effect.
//!
//! The library works on the bit patterns of IEEE 754 singles and states what it computes over
//! the exact numbers that the patterns stand for, so that every rounding is accounted for.

pub mod algebra;
pub mod arith;
pub mod display;
pub mod laws;
pub mod params;
pub mod process;
pub mod rounding;
pub mod single;
pub mod transform;
pub mod value;

pub use params::{Parameters, Snapshot};
pub use process::{Buffer, Hardbit};
pub use single::Single;
pub use transform::{distort, lerp, wet};
pub use value::Value;
