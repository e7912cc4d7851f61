//! The tree under its short name.
use vstd::prelude::*;

pub use crate::tree::HilbertRTreeI32;

verus! {

/// The `i32` tree.
pub type AABBI32 = HilbertRTreeI32;

} // verus!
