//! The predicates of the window, point and containment queries: one test for leaves, and
//! one for parents that decides whether to descend.
use vstd::prelude::*;
use crate::geometry::{contains_box, contains_point, intersects, is_valid, BoxI32};

verus! {

/// What a search looks for.
#[derive(Clone, Copy, Debug)]
pub enum Query {
    /// Boxes that overlap the window, edges included.
    Intersecting(BoxI32),
    /// Boxes that hold the point, boundary included.
    Point(i32, i32),
    /// Boxes that contain the window.
    Containing(BoxI32),
    /// Boxes that lie inside the window.
    ContainedWithin(BoxI32),
}

/// A leaf box answers the query.
pub open spec fn leaf_match(q: Query, b: BoxI32) -> bool {
    match q {
        Query::Intersecting(w) => intersects(b, w),
        Query::Point(x, y) => contains_point(b, x, y),
        Query::Containing(w) => contains_box(b, w),
        Query::ContainedWithin(w) => contains_box(w, b),
    }
}

/// A parent box may have a leaf below it that answers the query.
pub open spec fn node_match(q: Query, b: BoxI32) -> bool {
    match q {
        Query::ContainedWithin(w) => intersects(b, w),
        _ => leaf_match(q, b),
    }
}

/// Pruning by `node_match` loses no answer: a parent that contains a matching leaf passes.
pub proof fn lemma_prune_keeps_matches(q: Query, parent: BoxI32, leaf: BoxI32)
    requires
        is_valid(leaf),
        contains_box(parent, leaf),
        leaf_match(q, leaf),
    ensures
        node_match(q, parent),
{
}

/// The leaf test.
pub fn leaf_test(q: &Query, b: &BoxI32) -> (r: bool)
    ensures
        r == leaf_match(*q, *b),
{
    match q {
        Query::Intersecting(w) => !(w.max_x < b.min_x || w.max_y < b.min_y || w.min_x > b.max_x
            || w.min_y > b.max_y),
        Query::Point(x, y) => b.min_x <= *x && *x <= b.max_x && b.min_y <= *y && *y <= b.max_y,
        Query::Containing(w) => b.min_x <= w.min_x && b.min_y <= w.min_y && w.max_x <= b.max_x
            && w.max_y <= b.max_y,
        Query::ContainedWithin(w) => w.min_x <= b.min_x && w.min_y <= b.min_y && b.max_x
            <= w.max_x && b.max_y <= w.max_y,
    }
}

/// The descend test.
pub fn node_test(q: &Query, b: &BoxI32) -> (r: bool)
    ensures
        r == node_match(*q, *b),
{
    match q {
        Query::ContainedWithin(w) => !(w.max_x < b.min_x || w.max_y < b.min_y || w.min_x > b.max_x
            || w.min_y > b.max_y),
        _ => leaf_test(q, b),
    }
}

} // verus!
