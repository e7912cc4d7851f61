//! The layout of a built tree as sequences: level ends, boxes and indices, the relation
//! of each parent to its children, and what follows from it about ancestors.
use vstd::prelude::*;
use crate::geometry::{BoxI32, contains_box, empty, lemma_mbr_contains, mbr_of, union};
use crate::order::leaf_key;
use crate::levels::{ceil_div, level_count, level_start, level_step, levels_ok};
use crate::tree::MAX_ITEMS;

verus! {

/// First child of the node at position `p` of level `i >= 1`.
pub open spec fn first_child(lb: Seq<usize>, i: int, p: int) -> int {
    level_start(lb, i - 1) + (p - level_start(lb, i)) * 16
}

/// End of the children of a node whose first child is `first` on level `i - 1`.
pub open spec fn child_end(lb: Seq<usize>, i: int, first: int) -> int {
    if first + 16 <= lb[i - 1] {
        first + 16
    } else {
        lb[i - 1] as int
    }
}

/// Ancestor on level `i` of leaf position `q`.
pub open spec fn ancestor(lb: Seq<usize>, q: int, i: int) -> int
    decreases i,
{
    if i <= 0 {
        q
    } else {
        level_start(lb, i) + (ancestor(lb, q, i - 1) - level_start(lb, i - 1)) / 16
    }
}

/// First position of the sibling group of position `a` on level `i`.
pub open spec fn group_start(lb: Seq<usize>, i: int, a: int) -> int {
    level_start(lb, i) + ((a - level_start(lb, i)) / 16) * 16
}

/// The parent at position `p` of level `i` points at its children and bounds them exactly.
pub open spec fn node_ok(lb: Seq<usize>, bs: Seq<BoxI32>, ix: Seq<u32>, i: int, p: int) -> bool {
    let first = first_child(lb, i, p);
    &&& level_start(lb, i - 1) <= first < lb[i - 1]
    &&& ix[p] as int == 4 * first
    &&& bs[p] == mbr_of(bs.subrange(first, child_end(lb, i, first)))
}

/// Every parent on levels `[1, upto)` is laid out as `node_ok` says.
pub open spec fn parents_ok(lb: Seq<usize>, bs: Seq<BoxI32>, ix: Seq<u32>, upto: int) -> bool {
    forall|i: int, p: int|
        1 <= i < upto && level_start(lb, i) <= p < lb[i] ==> #[trigger] node_ok(lb, bs, ix, i, p)
}

/// The leaves `[0, n)` hold the items, each once, with their ids.
pub open spec fn leaves_ok(bs: Seq<BoxI32>, ix: Seq<u32>, items: Seq<BoxI32>) -> bool {
    let n = items.len();
    &&& forall|q: int|
        0 <= q < n ==> (#[trigger] ix[q] as int) < n && items[ix[q] as int] == bs[q]
    &&& forall|q1: int, q2: int|
        0 <= q1 < n && 0 <= q2 < n && q1 != q2 ==> #[trigger] ix[q1] != #[trigger] ix[q2]
}

/// The layout of a built tree over `items`, with level ends `lb`, boxes `bs` and
/// indices `ix`.
pub open spec fn layout_ok(lb: Seq<usize>, bs: Seq<BoxI32>, ix: Seq<u32>, items: Seq<BoxI32>) -> bool {
    let n = items.len();
    let total = lb.last();
    &&& levels_ok(lb, n as int, 16)
    &&& total <= 3 * n
    &&& bs.len() == total
    &&& ix.len() == total
    &&& leaves_ok(bs, ix, items)
    &&& parents_ok(lb, bs, ix, lb.len() as int)
}

/// `k` groups of 16 are the fewest that cover `count` nodes.
pub(crate) proof fn lemma_group_count(count: int, k: int)
    requires
        count >= 1,
        16 * k >= count,
        16 * (k - 1) < count,
    ensures
        k == crate::levels::ceil_div(count, 16),
{
    let r = count + 15 - 16 * k;
    vstd::arithmetic::div_mod::lemma_fundamental_div_mod_converse(count + 15, 16, k, r);
}

/// Appends every parent level above the leaves `[0, lb[0])`: each parent bounds its group
/// of up to 16 consecutive children and points at the first of them.
pub(crate) fn write_parent_levels(lb: &Vec<usize>, boxes: &mut Vec<BoxI32>, indices: &mut Vec<u32>)
    requires
        levels_ok(lb@, lb@[0] as int, 16),
        lb@.last() <= 3 * lb@[0],
        lb@[0] <= MAX_ITEMS,
        old(boxes)@.len() == lb@[0],
        old(indices)@.len() == lb@[0],
    ensures
        final(boxes)@.len() == lb@.last(),
        final(indices)@.len() == lb@.last(),
        final(boxes)@.subrange(0, lb@[0] as int) == old(boxes)@,
        final(indices)@.subrange(0, lb@[0] as int) == old(indices)@,
        parents_ok(lb@, final(boxes)@, final(indices)@, lb@.len() as int),
{
    let ghost n = lb@[0] as int;
    let ghost boxes0 = boxes@;
    let ghost indices0 = indices@;
    let mut level: usize = 1;
    while level < lb.len()
        invariant
            levels_ok(lb@, n, 16),
            lb@.last() <= 3 * n,
            n <= MAX_ITEMS,
            1 <= level <= lb@.len(),
            boxes@.len() == lb@[level - 1],
            indices@.len() == lb@[level - 1],
            lb@[level - 1] >= n,
            boxes@.subrange(0, n) == boxes0,
            indices@.subrange(0, n) == indices0,
            parents_ok(lb@, boxes@, indices@, level as int),
        decreases lb@.len() - level,
    {
        let child_start: usize = if level == 1 { 0 } else { lb[level - 2] };
        let child_stop: usize = lb[level - 1];
        let mut first: usize = child_start;
        let ghost mut k: int = 0;
        proof {
            assert(level_step(lb@, level as int, 16));
            assert(level_start(lb@, level - 1) == child_start);
            assert(lb@[level as int] <= lb@.last()) by {
                lemma_levels_increasing(lb@, n, level as int, lb@.len() - 1);
            }
        }
        while first < child_stop
            invariant
                levels_ok(lb@, n, 16),
                lb@.last() <= 3 * n,
                n <= MAX_ITEMS,
                1 <= level < lb@.len(),
                child_start == level_start(lb@, level - 1),
                child_stop == lb@[level - 1],
                lb@[level as int] <= lb@.last(),
                level_step(lb@, level as int, 16),
                k >= 0,
                first == child_start + 16 * k,
                k == 0 || 16 * (k - 1) < child_stop - child_start,
                first < child_stop + 16,
                lb@[level - 1] >= n,
                boxes@.len() == lb@[level - 1] + k,
                indices@.len() == lb@[level - 1] + k,
                boxes@.subrange(0, n) == boxes0,
                indices@.subrange(0, n) == indices0,
                parents_ok(lb@, boxes@, indices@, level as int),
                forall|p: int|
                    level_start(lb@, level as int) <= p < boxes@.len() ==> #[trigger] node_ok(
                        lb@,
                        boxes@,
                        indices@,
                        level as int,
                        p,
                    ),
            decreases child_stop + 16 - first,
        {
            let end: usize = if first + 16 <= child_stop { first + 16 } else { child_stop };
            let mut nb = empty();
            let mut c: usize = first;
            while c < end
                invariant
                    first <= c <= end,
                    end <= boxes@.len(),
                    nb == mbr_of(boxes@.subrange(first as int, c as int)),
                decreases end - c,
            {
                proof {
                    assert(boxes@.subrange(first as int, c + 1).drop_last() =~= boxes@.subrange(
                        first as int,
                        c as int,
                    ));
                }
                nb = union(&nb, &boxes[c]);
                c = c + 1;
            }
            let ghost old_boxes = boxes@;
            let ghost old_indices = indices@;
            let ghost p = boxes@.len() as int;
            boxes.push(nb);
            indices.push((first * 4) as u32);
            proof {
                assert(boxes@.subrange(0, n) =~= boxes0) by {
                    assert(boxes@.subrange(0, n) =~= old_boxes.subrange(0, n));
                }
                assert(indices@.subrange(0, n) =~= indices0) by {
                    assert(indices@.subrange(0, n) =~= old_indices.subrange(0, n));
                }
                assert forall|i: int, q: int|
                    1 <= i <= level && level_start(lb@, i) <= q && ((i < level && q < lb@[i]) || (i
                        == level && q < boxes@.len())) implies #[trigger] node_ok(
                    lb@,
                    boxes@,
                    indices@,
                    i,
                    q,
                ) by {
                    if i < level {
                        lemma_levels_increasing(lb@, n, i, level - 1);
                    }
                    if q < p {
                        assert(node_ok(lb@, old_boxes, old_indices, i, q));
                        let f = first_child(lb@, i, q);
                        assert(boxes@.subrange(f, child_end(lb@, i, f)) =~= old_boxes.subrange(
                            f,
                            child_end(lb@, i, f),
                        ));
                    } else {
                        assert(i == level);
                        assert(first_child(lb@, i, q) == first);
                        assert(child_end(lb@, i, first as int) == end);
                        assert(boxes@.subrange(first as int, end as int) =~= old_boxes.subrange(
                            first as int,
                            end as int,
                        ));
                    }
                }
            }
            first = first + 16;
            proof {
                k = k + 1;
            }
        }
        proof {
            lemma_group_count(child_stop - child_start, k);
            assert(level_count(lb@, level - 1) == child_stop - child_start);
        }
        proof {
            assert(lb@[level as int] >= n) by {
                lemma_levels_increasing(lb@, n, 0, level as int);
            }
        }
        level = level + 1;
    }
}

/// Level ends grow with the level.
pub(crate) proof fn lemma_levels_increasing(lb: Seq<usize>, n: int, i: int, j: int)
    requires
        levels_ok(lb, n, 16),
        0 <= i <= j < lb.len(),
    ensures
        lb[i] <= lb[j],
    decreases j - i,
{
    if i < j {
        lemma_levels_increasing(lb, n, i + 1, j);
        assert(level_step(lb, i + 1, 16));
    }
}

/// Leaves of a tree over at most 16 items keep insertion order; larger trees order them
/// by `leaf_key`.
pub open spec fn leaf_order_ok(ix: Seq<u32>, items: Seq<BoxI32>, bounds: BoxI32) -> bool {
    let n = items.len() as int;
    if n <= 16 {
        forall|q: int| 0 <= q < n ==> #[trigger] ix[q] == q
    } else {
        forall|p1: int, p2: int|
            0 <= p1 < p2 < n ==> leaf_key(items, bounds, #[trigger] ix[p1] as int) < leaf_key(
                items,
                bounds,
                #[trigger] ix[p2] as int,
            )
    }
}

/// The level ends of a tree depend on its leaf count alone.
pub proof fn lemma_levels_unique(lb1: Seq<usize>, lb2: Seq<usize>, n: int)
    requires
        levels_ok(lb1, n, 16),
        levels_ok(lb2, n, 16),
    ensures
        lb1 == lb2,
{
    assert forall|i: int| 0 <= i < lb1.len() && i < lb2.len() implies lb1[i] == lb2[i] by {
        lemma_levels_prefix(lb1, lb2, n, i);
    }
    if lb1.len() < lb2.len() {
        let i = lb1.len() - 1;
        lemma_levels_prefix(lb1, lb2, n, i);
        lemma_levels_prefix(lb1, lb2, n, i - 1);
        assert(level_count(lb2, i) > 1);
    } else if lb2.len() < lb1.len() {
        let i = lb2.len() - 1;
        lemma_levels_prefix(lb1, lb2, n, i);
        lemma_levels_prefix(lb1, lb2, n, i - 1);
        assert(level_count(lb1, i) > 1);
    }
    assert(lb1 =~= lb2);
}

pub(crate) proof fn lemma_levels_prefix(lb1: Seq<usize>, lb2: Seq<usize>, n: int, i: int)
    requires
        levels_ok(lb1, n, 16),
        levels_ok(lb2, n, 16),
        0 <= i < lb1.len(),
        i < lb2.len(),
    ensures
        lb1[i] == lb2[i],
        level_count(lb1, i) == level_count(lb2, i),
    decreases i,
{
    if i > 0 {
        lemma_levels_prefix(lb1, lb2, n, i - 1);
        assert(level_step(lb1, i, 16));
        assert(level_step(lb2, i, 16));
    }
}

/// Two leaf orders that both sort the same ids by the same key agree up to position `p`.
pub(crate) proof fn lemma_leaf_order_unique(
    ix1: Seq<u32>,
    ix2: Seq<u32>,
    items: Seq<BoxI32>,
    bounds: BoxI32,
    s1: Seq<int>,
    s2: Seq<int>,
    p: int,
)
    requires
        items.len() > 16,
        0 <= p < items.len(),
        ix1.len() >= items.len(),
        ix2.len() >= items.len(),
        leaf_order_ok(ix1, items, bounds),
        leaf_order_ok(ix2, items, bounds),
        forall|q: int| 0 <= q < items.len() ==> (#[trigger] ix2[q] as int) < items.len(),
        forall|q: int| 0 <= q < items.len() ==> (#[trigger] ix1[q] as int) < items.len(),
        forall|id: int|
            0 <= id < items.len() ==> 0 <= #[trigger] s1[id] < items.len() && ix1[s1[id]] == id,
        forall|id: int|
            0 <= id < items.len() ==> 0 <= #[trigger] s2[id] < items.len() && ix2[s2[id]] == id,
    ensures
        forall|q: int| 0 <= q <= p ==> #[trigger] ix1[q] == ix2[q],
    decreases p,
{
    if p > 0 {
        lemma_leaf_order_unique(ix1, ix2, items, bounds, s1, s2, p - 1);
    }
    let a = ix1[p];
    let b = ix2[p];
    if a != b {
        let n = items.len() as int;
        // `a` sits in the second order at some position other than `p`
        let pa = s2[a as int];
        if pa < p {
            assert(ix1[pa] == ix2[pa]);
            assert(leaf_key(items, bounds, ix1[pa] as int) < leaf_key(items, bounds, ix1[p] as int));
        } else {
            assert(pa > p);
            // `b` sits in the first order after `p` as well
            let pb = s1[b as int];
            if pb < p {
                assert(ix1[pb] == ix2[pb]);
                assert(leaf_key(items, bounds, ix2[pb] as int) < leaf_key(items, bounds, ix2[p] as int));
            } else {
                assert(pb != p);
                assert(leaf_key(items, bounds, ix1[p] as int) < leaf_key(items, bounds, ix1[pb] as int));
                assert(leaf_key(items, bounds, ix2[p] as int) < leaf_key(items, bounds, ix2[pa] as int));
                assert(ix1[pb] == b);
                assert(ix2[pa] == a);
            }
        }
    }
}

/// Finds the level of a parent position `m`.
pub(crate) proof fn lemma_find_level(lb: Seq<usize>, n: int, m: int, i: int) -> (j: int)
    requires
        levels_ok(lb, n, 16),
        1 <= i < lb.len(),
        level_start(lb, i) <= m < lb.last(),
    ensures
        1 <= j < lb.len(),
        level_start(lb, j) <= m < lb[j],
    decreases lb.len() - i,
{
    if m < lb[i] {
        i
    } else {
        lemma_find_level(lb, n, m, i + 1)
    }
}

/// Two layouts over the same items with the same level ends and leaf order agree on
/// their first `m` positions.
pub(crate) proof fn lemma_layout_prefix(
    lb: Seq<usize>,
    bs1: Seq<BoxI32>,
    ix1: Seq<u32>,
    bs2: Seq<BoxI32>,
    ix2: Seq<u32>,
    items: Seq<BoxI32>,
    m: int,
)
    requires
        layout_ok(lb, bs1, ix1, items),
        layout_ok(lb, bs2, ix2, items),
        forall|q: int| 0 <= q < items.len() ==> #[trigger] ix1[q] == ix2[q],
        0 <= m <= lb.last(),
    ensures
        bs1.subrange(0, m) == bs2.subrange(0, m),
        ix1.subrange(0, m) == ix2.subrange(0, m),
    decreases m,
{
    let n = items.len() as int;
    if m > 0 {
        lemma_layout_prefix(lb, bs1, ix1, bs2, ix2, items, m - 1);
        let p = m - 1;
        if p < n {
            assert(ix1[p] == ix2[p]);
            assert(bs1[p] == items[ix1[p] as int]);
            assert(bs2[p] == items[ix2[p] as int]);
        } else {
            let i = lemma_find_level(lb, n, p, 1);
            assert(node_ok(lb, bs1, ix1, i, p));
            assert(node_ok(lb, bs2, ix2, i, p));
            let f = first_child(lb, i, p);
            let e = child_end(lb, i, f);
            lemma_levels_increasing(lb, n, i - 1, lb.len() - 1);
            assert(e <= p);
            assert(bs1.subrange(f, e) =~= bs1.subrange(0, m - 1).subrange(f, e));
            assert(bs2.subrange(f, e) =~= bs2.subrange(0, m - 1).subrange(f, e));
        }
        assert(bs1.subrange(0, m) =~= bs1.subrange(0, m - 1).push(bs1[p]));
        assert(bs2.subrange(0, m) =~= bs2.subrange(0, m - 1).push(bs2[p]));
        assert(ix1.subrange(0, m) =~= ix1.subrange(0, m - 1).push(ix1[p]));
        assert(ix2.subrange(0, m) =~= ix2.subrange(0, m - 1).push(ix2[p]));
    }
}

/// `g` starts a group of up to 16 siblings on level `i`.
pub open spec fn group_ok(lb: Seq<usize>, i: int, g: int) -> bool {
    &&& level_start(lb, i) <= g < lb[i]
    &&& (g - level_start(lb, i)) % 16 == 0
}

/// Facts of division by 16 that the traversal needs.
pub(crate) proof fn lemma_div16(x: int)
    requires
        x >= 0,
    ensures
        (x / 16) * 16 <= x < (x / 16) * 16 + 16,
        ((x / 16) * 16) % 16 == 0,
        (x / 16) * 16 == 16 * (x / 16),
{
    vstd::arithmetic::div_mod::lemma_fundamental_div_mod(x, 16);
    vstd::arithmetic::div_mod::lemma_mod_multiples_basic(x / 16, 16);
}

/// The ancestor of a leaf on level `i` lies on level `i`.
pub proof fn lemma_ancestor_in_level(lb: Seq<usize>, n: int, q: int, i: int)
    requires
        levels_ok(lb, n, 16),
        0 <= q < n,
        0 <= i < lb.len(),
    ensures
        level_start(lb, i) <= ancestor(lb, q, i) < lb[i],
    decreases i,
{
    if i > 0 {
        lemma_ancestor_in_level(lb, n, q, i - 1);
        assert(level_step(lb, i, 16));
        let x = ancestor(lb, q, i - 1) - level_start(lb, i - 1);
        let c = level_count(lb, i - 1);
        vstd::arithmetic::div_mod::lemma_fundamental_div_mod(x, 16);
        vstd::arithmetic::div_mod::lemma_fundamental_div_mod(c + 15, 16);
        assert(x / 16 < (c + 15) / 16) by (nonlinear_arith)
            requires
                0 <= x < c,
                x == 16 * (x / 16) + x % 16,
                0 <= x % 16 < 16,
                c + 15 == 16 * ((c + 15) / 16) + (c + 15) % 16,
                0 <= (c + 15) % 16 < 16,
        ;
    }
}

/// Every leaf has the root as its ancestor on the top level.
pub proof fn lemma_ancestor_root(lb: Seq<usize>, n: int, q: int)
    requires
        levels_ok(lb, n, 16),
        0 <= q < n,
    ensures
        ancestor(lb, q, lb.len() - 1) == lb.last() - 1,
        group_start(lb, lb.len() - 1, lb.last() - 1) == lb.last() - 1,
{
    lemma_ancestor_in_level(lb, n, q, lb.len() - 1);
}

/// A position lies in the group that `group_start` names.
pub proof fn lemma_group_start(lb: Seq<usize>, i: int, a: int)
    requires
        level_start(lb, i) <= a < lb[i],
    ensures
        group_ok(lb, i, group_start(lb, i, a)),
        group_start(lb, i, a) <= a < group_start(lb, i, a) + 16,
{
    lemma_div16(a - level_start(lb, i));
}

/// The parent of the ancestor on level `i - 1` points at that ancestor's group, which
/// holds it.
pub proof fn lemma_parent_child(lb: Seq<usize>, n: int, q: int, i: int)
    requires
        levels_ok(lb, n, 16),
        0 <= q < n,
        1 <= i < lb.len(),
    ensures
        first_child(lb, i, ancestor(lb, q, i)) == group_start(lb, i - 1, ancestor(lb, q, i - 1)),
        first_child(lb, i, ancestor(lb, q, i)) <= ancestor(lb, q, i - 1) < child_end(
            lb,
            i,
            first_child(lb, i, ancestor(lb, q, i)),
        ),
{
    lemma_ancestor_in_level(lb, n, q, i - 1);
    lemma_div16(ancestor(lb, q, i - 1) - level_start(lb, i - 1));
}

/// Each node's box contains the box of every leaf below it.
pub proof fn lemma_ancestor_contains(
    lb: Seq<usize>,
    bs: Seq<BoxI32>,
    ix: Seq<u32>,
    items: Seq<BoxI32>,
    q: int,
    i: int,
)
    requires
        layout_ok(lb, bs, ix, items),
        0 <= q < items.len(),
        0 <= i < lb.len(),
    ensures
        contains_box(bs[ancestor(lb, q, i)], bs[q]),
    decreases i,
{
    let n = items.len() as int;
    if i > 0 {
        lemma_ancestor_contains(lb, bs, ix, items, q, i - 1);
        lemma_ancestor_in_level(lb, n, q, i);
        lemma_parent_child(lb, n, q, i);
        let a = ancestor(lb, q, i);
        let c = ancestor(lb, q, i - 1);
        assert(node_ok(lb, bs, ix, i, a));
        let f = first_child(lb, i, a);
        let e = child_end(lb, i, f);
        lemma_levels_increasing(lb, n, i - 1, lb.len() - 1);
        lemma_mbr_contains(bs.subrange(f, e), c - f);
    }
}

} // verus!
