//! Axis-aligned boxes with `i32` coordinates and the predicates that queries test.
use vstd::prelude::*;

verus! {

/// A box `(min_x, min_y, max_x, max_y)`; a point is a box with `min == max`.
#[derive(Clone, Copy, Debug, PartialEq, Eq, Structural)]
pub struct BoxI32 {
    pub min_x: i32,
    pub min_y: i32,
    pub max_x: i32,
    pub max_y: i32,
}

/// The box that contains nothing: the neutral element of `merge`.
pub open spec fn empty_box() -> BoxI32 {
    BoxI32 { min_x: i32::MAX, min_y: i32::MAX, max_x: i32::MIN, max_y: i32::MIN }
}

pub open spec fn min_i32(a: i32, b: i32) -> i32 {
    if a <= b { a } else { b }
}

pub open spec fn max_i32(a: i32, b: i32) -> i32 {
    if a >= b { a } else { b }
}

/// Component-wise union of two boxes.
pub open spec fn merge(a: BoxI32, b: BoxI32) -> BoxI32 {
    BoxI32 {
        min_x: min_i32(a.min_x, b.min_x),
        min_y: min_i32(a.min_y, b.min_y),
        max_x: max_i32(a.max_x, b.max_x),
        max_y: max_i32(a.max_y, b.max_y),
    }
}

/// The bounding box of a sequence of boxes (`empty_box()` for none).
pub open spec fn mbr_of(s: Seq<BoxI32>) -> BoxI32
    decreases s.len(),
{
    if s.len() == 0 {
        empty_box()
    } else {
        merge(mbr_of(s.drop_last()), s.last())
    }
}

/// `max >= min` on both axes.
pub open spec fn is_valid(b: BoxI32) -> bool {
    b.min_x <= b.max_x && b.min_y <= b.max_y
}

/// `outer` contains `inner` (boundaries included).
pub open spec fn contains_box(outer: BoxI32, inner: BoxI32) -> bool {
    outer.min_x <= inner.min_x && outer.min_y <= inner.min_y && inner.max_x <= outer.max_x
        && inner.max_y <= outer.max_y
}

/// The two boxes overlap; touching edges count.
pub open spec fn intersects(b: BoxI32, w: BoxI32) -> bool {
    !(w.max_x < b.min_x || w.max_y < b.min_y || w.min_x > b.max_x || w.min_y > b.max_y)
}

/// Point `(x, y)` lies in `b`, boundary included.
pub open spec fn contains_point(b: BoxI32, x: i32, y: i32) -> bool {
    b.min_x <= x && x <= b.max_x && b.min_y <= y && y <= b.max_y
}

impl BoxI32 {
    pub fn new(min_x: i32, min_y: i32, max_x: i32, max_y: i32) -> (r: BoxI32)
        ensures
            r == (BoxI32 { min_x, min_y, max_x, max_y }),
    {
        BoxI32 { min_x, min_y, max_x, max_y }
    }
}

/// The box that contains nothing.
pub fn empty() -> (r: BoxI32)
    ensures
        r == empty_box(),
{
    BoxI32 { min_x: i32::MAX, min_y: i32::MAX, max_x: i32::MIN, max_y: i32::MIN }
}

/// Component-wise union of two boxes.
pub fn union(a: &BoxI32, b: &BoxI32) -> (r: BoxI32)
    ensures
        r == merge(*a, *b),
{
    BoxI32 {
        min_x: if a.min_x <= b.min_x { a.min_x } else { b.min_x },
        min_y: if a.min_y <= b.min_y { a.min_y } else { b.min_y },
        max_x: if a.max_x >= b.max_x { a.max_x } else { b.max_x },
        max_y: if a.max_y >= b.max_y { a.max_y } else { b.max_y },
    }
}

/// The bounding box of every element of a sequence contains that element.
pub proof fn lemma_mbr_contains(s: Seq<BoxI32>, i: int)
    requires
        0 <= i < s.len(),
    ensures
        contains_box(mbr_of(s), s[i]),
    decreases s.len(),
{
    if i < s.len() - 1 {
        lemma_mbr_contains(s.drop_last(), i);
    }
}

proof fn lemma_product_bound(w: int, h: int, b: int)
    requires
        -b <= w <= b,
        -b <= h <= b,
    ensures
        -(b * b) <= w * h <= b * b,
{
    if w >= 0 && h >= 0 {
        assert(w * h <= b * b) by (nonlinear_arith) requires 0 <= w <= b, 0 <= h <= b;
        assert(w * h >= 0) by (nonlinear_arith) requires 0 <= w, 0 <= h;
    } else if w < 0 && h < 0 {
        assert((-w) * (-h) <= b * b) by (nonlinear_arith) requires 0 <= -w <= b, 0 <= -h <= b;
        assert(w * h == (-w) * (-h)) by (nonlinear_arith);
        assert(w * h >= 0) by (nonlinear_arith) requires w < 0, h < 0;
    } else if w < 0 {
        assert((-w) * h <= b * b) by (nonlinear_arith) requires 0 <= -w <= b, 0 <= h <= b;
        assert(w * h == -((-w) * h)) by (nonlinear_arith);
        assert(w * h <= 0) by (nonlinear_arith) requires w < 0, h >= 0;
    } else {
        assert(w * (-h) <= b * b) by (nonlinear_arith) requires 0 <= w <= b, 0 <= -h <= b;
        assert(w * h == -(w * (-h))) by (nonlinear_arith);
        assert(w * h <= 0) by (nonlinear_arith) requires w >= 0, h < 0;
    }
}

/// Signed area of the box `(min_x, min_y, max_x, max_y)`.
pub fn area(min_x: i32, min_y: i32, max_x: i32, max_y: i32) -> (r: i128)
    ensures
        r == (max_x - min_x) * (max_y - min_y),
        -0x1_0000_0000_0000_0000 <= r <= 0x1_0000_0000_0000_0000,
{
    let w: i128 = max_x as i128 - min_x as i128;
    let h: i128 = max_y as i128 - min_y as i128;
    proof {
        lemma_product_bound(w as int, h as int, 0x1_0000_0000);
    }
    w * h
}

} // verus!
