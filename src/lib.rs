//! Hilbert-ordered packed R-tree over axis-aligned boxes with integer coordinates.
use vstd::prelude::*;

pub mod bytes;
pub mod frame;
pub mod geometry;
pub mod hilbert;
pub mod image;
pub mod layout;
pub mod levels;
pub mod order;
pub mod query;
pub mod sort;
pub mod traversal;
pub mod tree;
pub mod prelude;

pub use geometry::BoxI32;
pub use query::Query;
pub use image::LoadError;
pub use tree::{HilbertRTreeI32, QueryError};

verus! {

/// Sum of two unsigned integers.
pub fn add(left: u64, right: u64) -> (r: u64)
    requires
        left + right <= u64::MAX,
    ensures
        r == left + right,
{
    left + right
}

} // verus!
