//! Arbitrary-precision unsigned arithmetic on little-endian limb sequences
//! in a configurable base.

pub mod algorithms;
pub mod base_ops;
pub mod bint;
pub mod conversions;
pub mod division;
pub mod errors;
pub mod kernel;
pub mod laws;
pub mod model;
pub mod utils;

use vstd::prelude::*;

verus! {

/// One digit of a multi-limb number.
pub type IntLimb = u64;

} // verus!
