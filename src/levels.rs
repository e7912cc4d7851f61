//! Level layout of a packed tree: leaves first, then each parent level, up to one root.
use vstd::prelude::*;

verus! {

/// Bytes of the fixed header of the packed buffer.
pub const HEADER_SIZE: usize = 8;

/// `a / b` rounded up.
pub open spec fn ceil_div(a: int, b: int) -> int {
    (a + b - 1) / b
}

/// First position of level `i`.
pub open spec fn level_start(lb: Seq<usize>, i: int) -> int {
    if i == 0 {
        0
    } else {
        lb[i - 1] as int
    }
}

/// Number of nodes on level `i`.
pub open spec fn level_count(lb: Seq<usize>, i: int) -> int {
    lb[i] - level_start(lb, i)
}

/// Level `i` of `lb` has `ceil(count / b)` nodes for the `count` nodes of level `i - 1`.
pub open spec fn level_step(lb: Seq<usize>, i: int, b: int) -> bool {
    lb[i] == lb[i - 1] + ceil_div(level_count(lb, i - 1), b)
}

/// `lb` holds the exclusive end of each level of a tree over `n` leaves with fanout `b`:
/// level `0` ends at `n`, each next level has `ceil(count / b)` nodes, and the levels stop
/// at the first one with a single node.
pub open spec fn levels_ok(lb: Seq<usize>, n: int, b: int) -> bool {
    &&& n >= 1
    &&& lb.len() >= 2
    &&& lb[0] == n
    &&& forall|i: int| 1 <= i < lb.len() ==> #[trigger] level_step(lb, i, b)
    &&& forall|i: int| 1 <= i < lb.len() - 1 ==> #[trigger] level_count(lb, i) > 1
    &&& level_count(lb, lb.len() - 1) == 1
}

/// Nodes above a level of `count` nodes, up to and including the root.
pub open spec fn nodes_above(count: int, b: int) -> int
    decreases count,
    via nodes_above_decreases
{
    let c = ceil_div(count, b);
    if count <= 1 || b < 2 || c <= 1 {
        c
    } else {
        c + nodes_above(c, b)
    }
}

#[via_fn]
proof fn nodes_above_decreases(count: int, b: int) {
    if !(count <= 1 || b < 2 || ceil_div(count, b) <= 1) {
        lemma_ceil_div_step(count, b);
    }
}

/// Total number of nodes of a tree over `n` leaves with fanout `b`.
pub open spec fn total_nodes_of(n: int, b: int) -> int {
    if n <= 0 {
        0
    } else {
        n + nodes_above(n, b)
    }
}

/// One step up a level shrinks it, and not too fast for the node total to stay small.
pub proof fn lemma_ceil_div_step(c: int, b: int)
    requires
        c >= 2,
        b >= 2,
    ensures
        1 <= ceil_div(c, b) < c,
        3 * ceil_div(c, b) <= 2 * c,
{
    let q = (c + b - 1) / b;
    vstd::arithmetic::div_mod::lemma_fundamental_div_mod(c + b - 1, b);
    let r = (c + b - 1) % b;
    assert(q * b + r == c + b - 1);
    assert(0 <= r < b);
    assert(q >= 1) by (nonlinear_arith)
        requires q * b + r == c + b - 1, 0 <= r < b, c >= 2, b >= 2;
    assert((q - 1) * b <= c - 1) by (nonlinear_arith)
        requires q * b + r == c + b - 1, 0 <= r;
    assert((q - 1) * 2 <= (q - 1) * b) by (nonlinear_arith)
        requires q >= 1, b >= 2;
}

/// What one step of the level loop keeps: the node bound and the remaining total.
proof fn lemma_level_step(total: int, count: int, b: int, n: int, t: int)
    requires
        count >= 1,
        b >= 2,
        total + 2 * count <= 3 * n,
        total + nodes_above(count, b) == t,
    ensures
        ceil_div(count, b) >= 1,
        ceil_div(count, b) > 1 ==> ceil_div(count, b) < count,
        ceil_div(count, b) <= 1 ==> total + ceil_div(count, b) == t && total + 1 <= 3 * n,
        ceil_div(count, b) > 1 ==> total + ceil_div(count, b) + 2 * ceil_div(count, b) <= 3 * n
            && total + ceil_div(count, b) + nodes_above(ceil_div(count, b), b) == t,
{
    if count >= 2 {
        lemma_ceil_div_step(count, b);
    } else {
        lemma_ceil_div_pos(count, b);
    }
}

/// A level of `count >= 1` nodes has at least one parent.
pub proof fn lemma_ceil_div_pos(c: int, b: int)
    requires
        c >= 1,
        b >= 2,
    ensures
        ceil_div(c, b) >= 1,
        c == 1 ==> ceil_div(c, b) == 1,
{
    assert((c + b - 1) / b >= 1) by (nonlinear_arith)
        requires c >= 1, b >= 2;
    if c == 1 {
        vstd::arithmetic::div_mod::lemma_div_basics(b);
    }
}

/// `a / b` rounded up.
pub fn div_ceil(a: usize, b: usize) -> (r: usize)
    requires
        b >= 1,
    ensures
        r == ceil_div(a as int, b as int),
{
    let q = a / b;
    let r = a % b;
    proof {
        vstd::arithmetic::div_mod::lemma_fundamental_div_mod(a as int, b as int);
        vstd::arithmetic::div_mod::lemma_fundamental_div_mod(a + b - 1, b as int);
        assert(q + (if r == 0 { 0int } else { 1int }) == (a + b - 1) / (b as int)) by (nonlinear_arith)
            requires
                a == b * q + r,
                0 <= r < b,
                a + b - 1 == b * ((a + b - 1) / (b as int)) + (a + b - 1) % (b as int),
                0 <= (a + b - 1) % (b as int) < b,
        ;
        assert(q <= a) by (nonlinear_arith) requires a == b * q + r, b >= 1, r >= 0, q >= 0;
        if q == a {
            assert(r == 0) by (nonlinear_arith) requires a == b * q + r, b >= 1, r >= 0, q == a;
        }
    }
    if r == 0 { q } else { q + 1 }
}

/// Exclusive end of each level of a tree over `num_items >= 1` leaves with fanout
/// `node_size`; the last entry is the total number of nodes.
pub fn compute_level_bounds(num_items: usize, node_size: usize) -> (lb: Vec<usize>)
    requires
        num_items >= 1,
        node_size >= 2,
        3 * num_items <= usize::MAX,
    ensures
        levels_ok(lb@, num_items as int, node_size as int),
        lb@.last() == total_nodes_of(num_items as int, node_size as int),
        lb@.last() <= 3 * num_items,
{
    let mut lb: Vec<usize> = Vec::new();
    let mut count: usize = num_items;
    let mut total: usize = num_items;
    lb.push(total);
    let ghost b = node_size as int;
    loop
        invariant_except_break
            total + 2 * count <= 3 * num_items,
            total + nodes_above(count as int, b) == total_nodes_of(num_items as int, b),
            forall|i: int| 1 <= i < lb@.len() ==> #[trigger] level_count(lb@, i) > 1,
        invariant
            lb@.len() >= 1,
            lb@[0] == num_items,
            b == node_size,
            b >= 2,
            count >= 1,
            total == lb@.last(),
            count == level_count(lb@, lb@.len() - 1),
            3 * num_items <= usize::MAX,
            forall|i: int| 1 <= i < lb@.len() ==> #[trigger] level_step(lb@, i, b),
        ensures
            levels_ok(lb@, num_items as int, b),
            lb@.last() == total_nodes_of(num_items as int, b),
            lb@.last() <= 3 * num_items,
        decreases count,
    {
        let ghost old_lb = lb@;
        let ghost old_count = count as int;
        proof {
            lemma_level_step(total as int, count as int, b, num_items as int, total_nodes_of(num_items as int, b));
        }
        count = div_ceil(count, node_size);
        total = total + count;
        lb.push(total);
        proof {
            assert(lb@.drop_last() == old_lb);
            assert(level_count(lb@, lb@.len() - 1) == count);
            assert forall|i: int| 1 <= i < lb@.len() implies #[trigger] level_step(lb@, i, b) by {
                if i < lb@.len() - 1 {
                    assert(lb@[i] == old_lb[i]);
                    assert(level_count(lb@, i - 1) == level_count(old_lb, i - 1));
                    assert(level_step(old_lb, i, b));
                } else {
                    assert(level_count(lb@, i - 1) == old_count);
                }
            }
            assert forall|i: int| 1 <= i < lb@.len() - 1 implies #[trigger] level_count(lb@, i)
                > 1 by {
                assert(level_count(lb@, i) == level_count(old_lb, i));
            }
        }
        if count <= 1 {
            break;
        }
    }
    lb
}

/// Exact number of nodes of a tree over `num_items` leaves with fanout `node_size`.
pub fn calculate_exact_total_nodes(num_items: usize, node_size: usize) -> (r: usize)
    requires
        node_size >= 2,
        3 * num_items <= usize::MAX,
    ensures
        r == total_nodes_of(num_items as int, node_size as int),
{
    if num_items == 0 {
        return 0;
    }
    let lb = compute_level_bounds(num_items, node_size);
    lb[lb.len() - 1]
}

/// An upper estimate of the node count, `n * b / (b - 1) + 1`, cheap to compute.
pub fn estimate_total_nodes(num_items: usize, node_size: usize) -> (r: usize)
    requires
        node_size >= 2,
        num_items * node_size < usize::MAX,
    ensures
        num_items == 0 ==> r == 0,
        num_items > 0 ==> r == (num_items * node_size) / (node_size - 1) + 1,
{
    if num_items == 0 {
        return 0;
    }
    proof {
        let p = num_items * node_size;
        vstd::arithmetic::div_mod::lemma_div_is_ordered_by_denominator(p as int, 1, (node_size - 1) as int);
        vstd::arithmetic::div_mod::lemma_div_basics(p as int);
    }
    (num_items * node_size) / (node_size - 1) + 1
}

/// Bytes of a packed buffer sized by `estimate_total_nodes`, for boxes of `box_bytes`
/// bytes and 4-byte indices.
pub fn estimate_buffer_size(num_items: usize, node_size: usize, box_bytes: usize) -> (r: usize)
    requires
        node_size >= 2,
        num_items * node_size < usize::MAX,
        HEADER_SIZE + ((num_items * node_size) / (node_size - 1) + 1) * (box_bytes + 4) <= usize::MAX,
    ensures
        r == HEADER_SIZE + (if num_items == 0 {
            0
        } else {
            (num_items * node_size) / (node_size - 1) + 1
        }) * (box_bytes + 4),
{
    let nodes = estimate_total_nodes(num_items, node_size);
    proof {
        let m = (num_items * node_size) / (node_size - 1) + 1;
        vstd::arithmetic::div_mod::lemma_div_pos_is_pos((num_items * node_size) as int, (node_size - 1) as int);
        assert(box_bytes + 4 <= m * (box_bytes + 4)) by (nonlinear_arith)
            requires m >= 1, box_bytes >= 0;
        assert(nodes * (box_bytes + 4) <= ((num_items * node_size) / (node_size - 1) + 1) * (
        box_bytes + 4)) by (nonlinear_arith)
            requires nodes <= (num_items * node_size) / (node_size - 1) + 1, box_bytes + 4 >= 0;
    }
    HEADER_SIZE + nodes * (box_bytes + 4)
}

} // verus!
