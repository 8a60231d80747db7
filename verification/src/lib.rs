//! A curve-agnostic scalar type: elements of `Z/nZ` for an elliptic curve's
//! group order `n`, with validated construction, constant-time-style modular
//! arithmetic, and lossless byte encoding, built on a fixed-width
//! little-endian limb vector.

pub mod limb;
pub mod scalar;

pub use limb::{bytes_be_value, bytes_le_value, limbs_value};
pub use scalar::{Curve, Error, ScalarCore};
