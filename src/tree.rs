//! The packed Hilbert R-tree over `i32` boxes.
//!
//! Positions `[0, n)` hold the leaves in Hilbert order and positions `[n, total)` the
//! parent levels, written bottom-up. Boxes and indices are kept in two parallel arrays;
//! for a leaf the index is the item's insertion id, for a parent it is the position of its
//! first child shifted left by two.
use vstd::prelude::*;
use crate::layout::{
    ancestor,
    first_child,
    group_ok,
    group_start,
    layout_ok,
    leaf_order_ok,
    leaves_ok,
    lemma_ancestor_contains,
    lemma_ancestor_in_level,
    lemma_ancestor_root,
    lemma_group_start,
    lemma_layout_prefix,
    lemma_leaf_order_unique,
    lemma_levels_increasing,
    lemma_levels_unique,
    lemma_parent_child,
    node_ok,
    write_parent_levels,
};
use crate::traversal::{
    handled,
    increasing,
    lemma_increasing_len,
    lemma_increasing_member,
    matching,
};
use crate::frame::{encode_frame, SavedParts, MAGIC};
use crate::image::{
    LoadError,
    VERSION_I32,
    bytes_equal,
    image_of,
    lemma_leaf_bytes,
    lemma_level_counts,
    lemma_read_back,
    levels_to_u32,
    levels_u32,
    packed_bytes,
    packed_le,
};
use crate::geometry::{BoxI32, area, contains_box, empty, is_valid, mbr_of, union};
use crate::bytes::{box_le, lemma_lengths, push_box, read_u32, u32_at, u32_le, u32s_le};
use crate::order::{leaf_key, leaf_order};
use crate::query::{Query, leaf_match, leaf_test, lemma_prune_keeps_matches, node_test};
use crate::levels::{compute_level_bounds, lemma_ceil_div_pos, level_count, level_start, level_step};

verus! {

/// Children per parent node.
pub const DEFAULT_NODE_SIZE: usize = 16;

/// Most items a tree holds: every position, shifted left by two, fits an index slot.
pub const MAX_ITEMS: usize = 0x1000_0000;

/// A Hilbert R-tree over `i32` boxes: fill it with `add`, then `build` it once and query.
pub struct HilbertRTreeI32 {
    boxes: Vec<BoxI32>,
    indices: Vec<u32>,
    level_bounds: Vec<usize>,
    num_items: usize,
    bounds: BoxI32,
    total_nodes: usize,
    /// The boxes added so far, by insertion id.
    items: Ghost<Seq<BoxI32>>,
    /// For each insertion id, the leaf position that holds it once built.
    slot: Ghost<Seq<int>>,
}

/// Why a query on an item could not run.
#[derive(Clone, Copy, Debug, PartialEq, Eq, Structural)]
pub enum QueryError {
    /// The id names no item: it is not below the number of items.
    ItemOutOfRange { item_id: usize, num_items: usize },
}

/// An element-by-element copy of `v`.
fn copy_vec<T: Copy>(v: &Vec<T>) -> (r: Vec<T>)
    ensures
        r@ == v@,
{
    let mut r: Vec<T> = Vec::with_capacity(v.len());
    let mut i: usize = 0;
    while i < v.len()
        invariant
            i <= v.len(),
            r@ == v@.subrange(0, i as int),
        decreases v.len() - i,
    {
        r.push(v[i]);
        i = i + 1;
        assert(r@ =~= v@.subrange(0, i as int));
    }
    assert(r@ =~= v@);
    r
}

impl Clone for HilbertRTreeI32 {
    /// A tree with the same items and layout.
    fn clone(&self) -> (r: Self)
        ensures
            self.wf() ==> r.wf(),
            r.items() == self.items(),
            r.level_seq() == self.level_seq(),
            r.box_seq() == self.box_seq(),
            r.index_seq() == self.index_seq(),
            r.bounds_spec() == self.bounds_spec(),
    {
        HilbertRTreeI32 {
            boxes: copy_vec(&self.boxes),
            indices: copy_vec(&self.indices),
            level_bounds: copy_vec(&self.level_bounds),
            num_items: self.num_items,
            bounds: self.bounds,
            total_nodes: self.total_nodes,
            items: Ghost(self.items@),
            slot: Ghost(self.slot@),
        }
    }
}

impl Default for HilbertRTreeI32 {
    /// An empty tree.
    fn default() -> (r: Self)
        ensures
            r.wf(),
            r.items() == Seq::<BoxI32>::empty(),
            !r.built(),
    {
        Self::new()
    }
}

impl HilbertRTreeI32 {
    /// The boxes added, by insertion id.
    pub closed spec fn items(&self) -> Seq<BoxI32> {
        self.items@
    }

    /// Whether `build` has laid out the tree.
    pub closed spec fn built(&self) -> bool {
        self.level_bounds@.len() > 0
    }

    pub closed spec fn level_seq(&self) -> Seq<usize> {
        self.level_bounds@
    }

    pub closed spec fn box_seq(&self) -> Seq<BoxI32> {
        self.boxes@
    }

    pub closed spec fn index_seq(&self) -> Seq<u32> {
        self.indices@
    }

    /// The global bounding box of the items.
    pub closed spec fn bounds_spec(&self) -> BoxI32 {
        self.bounds
    }

    /// The layout of a built tree.
    pub open spec fn layout_ok(&self) -> bool {
        layout_ok(self.level_seq(), self.box_seq(), self.index_seq(), self.items())
    }

    /// Each item has a leaf position holding it.
    pub closed spec fn slots_ok(&self) -> bool {
        let n = self.items().len();
        forall|id: int|
            0 <= id < n ==> 0 <= #[trigger] self.slot@[id] < n && self.index_seq()[self.slot@[id]] == id
    }

    /// The invariant of every tree.
    pub open spec fn wf(&self) -> bool {
        &&& self.wf_fields()
        &&& self.items().len() <= MAX_ITEMS
        &&& forall|i: int| 0 <= i < self.items().len() ==> is_valid(#[trigger] self.items()[i])
        &&& self.bounds_spec() == mbr_of(self.items())
        &&& if self.built() {
            self.layout_ok() && self.slots_ok() && leaf_order_ok(self.index_seq(), self.items(), self.bounds_spec())
        } else {
            self.box_seq() == self.items()
        }
    }

    pub closed spec fn wf_fields(&self) -> bool {
        &&& self.num_items == self.items@.len()
        &&& self.level_bounds@.len() > 0 ==> self.total_nodes == self.level_bounds@.last()
        &&& self.slot@.len() == self.items@.len()
    }

    /// Number of items added.
    pub open spec fn len_spec(&self) -> nat {
        self.items().len()
    }

    /// Creates an empty tree.
    pub fn new() -> (r: Self)
        ensures
            r.wf(),
            r.items() == Seq::<BoxI32>::empty(),
            !r.built(),
    {
        Self::with_capacity(0)
    }

    /// Creates an empty tree with room reserved for `capacity` boxes.
    pub fn with_capacity(capacity: usize) -> (r: Self)
        ensures
            r.wf(),
            r.items() == Seq::<BoxI32>::empty(),
            !r.built(),
    {
        let boxes: Vec<BoxI32> = Vec::with_capacity(capacity);
        let r = HilbertRTreeI32 {
            boxes,
            indices: Vec::new(),
            level_bounds: Vec::new(),
            num_items: 0,
            bounds: empty(),
            total_nodes: 0,
            items: Ghost(Seq::empty()),
            slot: Ghost(Seq::empty()),
        };
        assert(r.boxes@ == Seq::<BoxI32>::empty());
        r
    }

    /// Whether `build` has laid out the tree; `add` is for trees not yet built.
    pub fn is_built(&self) -> (r: bool)
        requires
            self.wf(),
        ensures
            r == self.built(),
    {
        self.level_bounds.len() > 0
    }

    /// Appends the box `(min_x, min_y, max_x, max_y)`; its id is the number of boxes
    /// added before it.
    pub fn add(&mut self, min_x: i32, min_y: i32, max_x: i32, max_y: i32)
        requires
            old(self).wf(),
            !old(self).built(),
            old(self).len_spec() < MAX_ITEMS,
            min_x <= max_x,
            min_y <= max_y,
        ensures
            final(self).wf(),
            !final(self).built(),
            final(self).items() == old(self).items().push(BoxI32 { min_x, min_y, max_x, max_y }),
    {
        let b = BoxI32::new(min_x, min_y, max_x, max_y);
        self.boxes.push(b);
        self.bounds = union(&self.bounds, &b);
        self.num_items = self.num_items + 1;
        self.items = Ghost(self.items@.push(b));
        self.slot = Ghost(self.slot@.push(0));
        assert(self.items@.drop_last() =~= old(self).items@);
    }

    /// Appends the point `(x, y)`, stored as a box with `min == max`.
    pub fn add_point(&mut self, x: i32, y: i32)
        requires
            old(self).wf(),
            !old(self).built(),
            old(self).len_spec() < MAX_ITEMS,
        ensures
            final(self).wf(),
            !final(self).built(),
            final(self).items() == old(self).items().push(BoxI32 { min_x: x, min_y: y, max_x: x, max_y: y }),
    {
        self.add(x, y, x, y);
    }

    /// Lays the tree out: leaves in Hilbert order (in insertion order when at most 16),
    /// then each parent level bottom-up. Only the first call on a tree with items does
    /// anything.
    pub fn build(&mut self)
        requires
            old(self).wf(),
        ensures
            final(self).wf(),
            final(self).items() == old(self).items(),
            final(self).built() == (old(self).built() || old(self).len_spec() > 0),
            old(self).built() ==> final(self).level_seq() == old(self).level_seq()
                && final(self).box_seq() == old(self).box_seq() && final(self).index_seq()
                == old(self).index_seq(),
            !old(self).built() && old(self).len_spec() > 16 ==> forall|p1: int, p2: int|
                0 <= p1 < p2 < old(self).len_spec() ==> leaf_key(
                    old(self).items(),
                    old(self).bounds_spec(),
                    #[trigger] final(self).index_seq()[p1] as int,
                ) < leaf_key(
                    old(self).items(),
                    old(self).bounds_spec(),
                    #[trigger] final(self).index_seq()[p2] as int,
                ),
            !old(self).built() && 0 < old(self).len_spec() <= 16 ==> final(self).level_seq()
                == seq![old(self).len_spec() as usize, (old(self).len_spec() + 1) as usize]
                && (forall|q: int|
                0 <= q < old(self).len_spec() ==> #[trigger] final(self).index_seq()[q] == q)
                && final(self).box_seq()[old(self).len_spec() as int] == old(self).bounds_spec(),
    {
        if self.level_bounds.len() > 0 || self.num_items == 0 {
            return;
        }
        let n = self.num_items;
        let lb = compute_level_bounds(n, DEFAULT_NODE_SIZE);
        let total = lb[lb.len() - 1];
        let mut boxes: Vec<BoxI32> = Vec::with_capacity(total);
        let mut indices: Vec<u32> = Vec::with_capacity(total);
        let ghost items = self.items@;
        let ghost mut slot: Seq<int>;
        if n <= DEFAULT_NODE_SIZE {
            let mut q: usize = 0;
            while q < n
                invariant
                    q <= n,
                    n == items.len(),
                    n <= MAX_ITEMS,
                    self.boxes@ == items,
                    boxes@ == items.subrange(0, q as int),
                    indices@.len() == q,
                    forall|j: int| 0 <= j < q ==> #[trigger] indices@[j] == j,
                decreases n - q,
            {
                boxes.push(self.boxes[q]);
                indices.push(q as u32);
                q = q + 1;
                assert(boxes@ =~= items.subrange(0, q as int));
            }
            proof {
                slot = Seq::new(n as nat, |id: int| id);
                assert(boxes@ =~= items);
            }
        } else {
            let ids = leaf_order(&self.boxes, self.bounds);
            let mut q: usize = 0;
            while q < n
                invariant
                    q <= n,
                    n == items.len(),
                    n <= MAX_ITEMS,
                    self.boxes@ == items,
                    ids@.len() == n,
                    forall|p: int| 0 <= p < n ==> (#[trigger] ids@[p] as int) < n,
                    boxes@.len() == q,
                    indices@.len() == q,
                    forall|j: int| 0 <= j < q ==> #[trigger] indices@[j] == ids@[j] && boxes@[j]
                        == items[ids@[j] as int],
                decreases n - q,
            {
                let id = ids[q];
                let ghost old_boxes = boxes@;
                let ghost old_indices = indices@;
                boxes.push(self.boxes[id as usize]);
                indices.push(id);
                proof {
                    assert forall|j: int| 0 <= j < q + 1 implies #[trigger] indices@[j] == ids@[j]
                        && boxes@[j] == items[ids@[j] as int] by {
                        if j < q {
                            assert(indices@[j] == old_indices[j]);
                            assert(boxes@[j] == old_boxes[j]);
                        }
                    }
                }
                q = q + 1;
            }
            proof {
                slot = Seq::new(
                    n as nat,
                    |id: int| choose|p: int| 0 <= p < n && ids@[p] == id as u32,
                );
                assert forall|id: int| 0 <= id < n implies 0 <= #[trigger] slot[id] < n
                    && indices@[slot[id]] == id by {
                    assert(ids@.contains(id as u32));
                }
                assert forall|p1: int, p2: int| 0 <= p1 < p2 < n implies leaf_key(
                    items,
                    self.bounds,
                    #[trigger] indices@[p1] as int,
                ) < leaf_key(items, self.bounds, #[trigger] indices@[p2] as int) by {
                    assert(indices@[p1] == ids@[p1]);
                    assert(indices@[p2] == ids@[p2]);
                }
                assert forall|q1: int, q2: int|
                    0 <= q1 < n && 0 <= q2 < n && q1 != q2 implies #[trigger] indices@[q1]
                    != #[trigger] indices@[q2] by {
                    if q1 < q2 {
                        assert(leaf_key(items, self.bounds, ids@[q1] as int) < leaf_key(items, self.bounds, ids@[q2] as int));
                    } else {
                        assert(leaf_key(items, self.bounds, ids@[q2] as int) < leaf_key(items, self.bounds, ids@[q1] as int));
                    }
                }
            }
        }
        let ghost leaf_boxes = boxes@;
        let ghost leaf_indices = indices@;
        write_parent_levels(&lb, &mut boxes, &mut indices);
        proof {
            lemma_levels_increasing(lb@, n as int, 0, lb@.len() - 1);
            assert forall|q: int| 0 <= q < n implies boxes@[q] == leaf_boxes[q] && indices@[q]
                == leaf_indices[q] by {
                assert(boxes@.subrange(0, n as int)[q] == boxes@[q]);
                assert(indices@.subrange(0, n as int)[q] == indices@[q]);
            }
            assert(leaves_ok(boxes@, indices@, items)) by {
                assert forall|q: int| 0 <= q < n implies (#[trigger] indices@[q] as int) < n
                    && items[indices@[q] as int] == boxes@[q] by {
                    assert(indices@[q] == leaf_indices[q]);
                }
                assert forall|q1: int, q2: int|
                    0 <= q1 < n && 0 <= q2 < n && q1 != q2 implies #[trigger] indices@[q1]
                    != #[trigger] indices@[q2] by {
                    assert(indices@[q1] == leaf_indices[q1]);
                    assert(indices@[q2] == leaf_indices[q2]);
                }
            }
            assert(layout_ok(lb@, boxes@, indices@, items));
            assert forall|id: int| 0 <= id < n implies 0 <= #[trigger] slot[id] < n
                && indices@[slot[id]] == id by {
                assert(indices@[slot[id]] == leaf_indices[slot[id]]);
            }
            if n > 16 {
                assert forall|p1: int, p2: int| 0 <= p1 < p2 < n implies leaf_key(
                    items,
                    self.bounds,
                    #[trigger] indices@[p1] as int,
                ) < leaf_key(items, self.bounds, #[trigger] indices@[p2] as int) by {
                    assert(indices@[p1] == leaf_indices[p1]);
                    assert(indices@[p2] == leaf_indices[p2]);
                }
            }
            if n <= 16 {
                assert forall|q: int| 0 <= q < n implies #[trigger] indices@[q] == q by {
                    assert(indices@[q] == leaf_indices[q]);
                }
                crate::levels::lemma_ceil_div_pos(n as int, 16);
                assert(level_step(lb@, 1, 16));
                if lb@.len() > 2 {
                    assert(level_count(lb@, 1) > 1);
                }
                assert(lb@ =~= seq![n, (n + 1) as usize]);
                assert(node_ok(lb@, boxes@, indices@, 1, n as int));
                assert(boxes@.subrange(0, n as int) =~= items);
            }
        }
        self.boxes = boxes;
        self.indices = indices;
        self.level_bounds = lb;
        self.total_nodes = total;
        self.slot = Ghost(slot);
    }

    /// Ids of the items that answer `query` on the built tree; none before `build`.
    pub open spec fn hits(&self, query: Query) -> Set<usize> {
        if self.built() {
            Set::new(
                |id: usize| (id as int) < self.len_spec() && leaf_match(query, self.items()[id as int]),
            )
        } else {
            Set::empty()
        }
    }

    /// Reports every answer to `query`, each once, by the search from the root.
    fn collect(&self, query: &Query, results: &mut Vec<usize>)
        requires
            self.wf(),
        ensures
            final(results)@.no_duplicates(),
            final(results)@.to_set() == self.hits(*query),
    {
        self.search(query, usize::MAX, results);
        proof {
            self.lemma_results_are_hits(*query, results@);
        }
    }

    /// Results that are sound, duplicate-free and complete are exactly the hits.
    proof fn lemma_results_are_hits(&self, query: Query, r: Seq<usize>)
        requires
            forall|j: int|
                0 <= j < r.len() ==> (#[trigger] r[j] as int) < self.len_spec() && leaf_match(
                    query,
                    self.items()[r[j] as int],
                ),
            self.built() ==> forall|id: int|
                0 <= id < self.len_spec() && leaf_match(query, #[trigger] self.items()[id])
                    ==> r.contains(id as usize),
            !self.built() ==> r.len() == 0,
        ensures
            r.to_set() == self.hits(query),
    {
        assert forall|id: usize| #[trigger] r.to_set().contains(id) <==> self.hits(query).contains(id) by {
            if r.to_set().contains(id) {
                assert(r.contains(id));
                let j = choose|j: int| 0 <= j < r.len() && r[j] == id;
                assert(r[j] == id);
            }
            if self.hits(query).contains(id) {
                assert(self.items()[id as int] == self.items()[id as int]);
            }
        }
        assert(r.to_set() =~= self.hits(query));
    }

    /// Reports every answer to `query`, each once, by testing each leaf in turn.
    fn scan_leaves(&self, query: &Query, results: &mut Vec<usize>)
        requires
            self.wf(),
            self.built(),
        ensures
            final(results)@.no_duplicates(),
            final(results)@.to_set() == self.hits(*query),
    {
        results.clear();
        let n = self.num_items;
        let ghost bs = self.boxes@;
        let ghost ix = self.indices@;
        let ghost items = self.items@;
        let ghost mut emitted: Seq<int> = Seq::empty();
        let mut pos: usize = 0;
        while pos < n
            invariant
                self.wf(),
                self.built(),
                bs == self.boxes@,
                ix == self.indices@,
                items == self.items@,
                n == items.len(),
                layout_ok(self.level_bounds@, bs, ix, items),
                pos <= n,
                results@.len() == emitted.len(),
                forall|j: int|
                    0 <= j < emitted.len() ==> 0 <= #[trigger] emitted[j] < pos && results@[j]
                        == ix[emitted[j]] as usize && leaf_match(*query, bs[emitted[j]]),
                results@.no_duplicates(),
                forall|q: int| 0 <= q < pos && leaf_match(*query, #[trigger] bs[q]) ==> results@.contains(ix[q] as usize),
            decreases n - pos,
        {
            proof {
                crate::tree::lemma_levels_increasing(self.level_bounds@, n as int, 0, self.level_bounds@.len() - 1);
            }
            let b = self.boxes[pos];
            if leaf_test(query, &b) {
                let ghost old_results = results@;
                let id = self.indices[pos];
                results.push(id as usize);
                proof {
                    broadcast use vstd::seq_lib::lemma_seq_contains_after_push;
                    assert forall|j: int| 0 <= j < old_results.len() implies old_results[j] != id as usize by {
                        assert(emitted[j] != pos);
                    }
                    emitted = emitted.push(pos as int);
                    assert forall|a: int, c: int| 0 <= a < c < results@.len() implies results@[a] != results@[c] by {
                        if c < old_results.len() {
                            assert(old_results[a] != old_results[c]);
                        }
                    }
                    assert(results@.last() == ix[pos as int] as usize);
                }
            }
            pos = pos + 1;
        }
        proof {
            assert forall|j: int| 0 <= j < results@.len() implies (#[trigger] results@[j] as int)
                < n && leaf_match(*query, items[results@[j] as int]) by {
                assert(ix[emitted[j]] < n);
            }
            assert forall|id: int| 0 <= id < n && leaf_match(*query, #[trigger] items[id]) implies results@.contains(id as usize) by {
                let q = self.slot@[id];
                assert(leaf_match(*query, bs[q]));
            }
            self.lemma_results_are_hits(*query, results@);
        }
    }

    /// Ids of the boxes that overlap the window `(min_x, min_y, max_x, max_y)`; touching
    /// edges count. Windows that cover more than half the area of the global bounds are
    /// answered by a scan of the leaves, others by the search from the root.
    pub fn query_intersecting(
        &self,
        min_x: i32,
        min_y: i32,
        max_x: i32,
        max_y: i32,
        results: &mut Vec<usize>,
    )
        requires
            self.wf(),
        ensures
            final(results)@.no_duplicates(),
            final(results)@.to_set() == self.hits(
                Query::Intersecting(BoxI32 { min_x, min_y, max_x, max_y }),
            ),
    {
        let query = Query::Intersecting(BoxI32::new(min_x, min_y, max_x, max_y));
        if self.level_bounds.len() > 0 {
            let query_area = area(min_x, min_y, max_x, max_y);
            let bounds_area = area(self.bounds.min_x, self.bounds.min_y, self.bounds.max_x, self.bounds.max_y);
            if 2 * query_area > bounds_area {
                self.scan_leaves(&query, results);
                return;
            }
        }
        self.collect(&query, results);
    }

    /// Ids of at most `k` boxes that overlap the window; all of them when fewer than `k`
    /// are returned.
    pub fn query_intersecting_k(
        &self,
        min_x: i32,
        min_y: i32,
        max_x: i32,
        max_y: i32,
        k: usize,
        results: &mut Vec<usize>,
    )
        requires
            self.wf(),
        ensures
            final(results)@.no_duplicates(),
            final(results)@.len() <= k,
            final(results)@.to_set().subset_of(
                self.hits(Query::Intersecting(BoxI32 { min_x, min_y, max_x, max_y })),
            ),
            final(results)@.len() < k ==> final(results)@.to_set() == self.hits(
                Query::Intersecting(BoxI32 { min_x, min_y, max_x, max_y }),
            ),
    {
        let query = Query::Intersecting(BoxI32::new(min_x, min_y, max_x, max_y));
        self.search(&query, k, results);
        proof {
            if results@.len() < k {
                self.lemma_results_are_hits(query, results@);
            }
            assert forall|id: usize| #[trigger] results@.to_set().contains(id) implies self.hits(query).contains(id) by {
                assert(results@.contains(id));
                let j = choose|j: int| 0 <= j < results@.len() && results@[j] == id;
                assert(results@[j] == id);
            }
        }
    }

    /// Ids of the boxes that hold the point `(x, y)`, boundary included.
    pub fn query_point(&self, x: i32, y: i32, results: &mut Vec<usize>)
        requires
            self.wf(),
        ensures
            final(results)@.no_duplicates(),
            final(results)@.to_set() == self.hits(Query::Point(x, y)),
    {
        self.collect(&Query::Point(x, y), results);
    }

    /// Ids of the boxes that contain the window `(min_x, min_y, max_x, max_y)`.
    pub fn query_contain(
        &self,
        min_x: i32,
        min_y: i32,
        max_x: i32,
        max_y: i32,
        results: &mut Vec<usize>,
    )
        requires
            self.wf(),
        ensures
            final(results)@.no_duplicates(),
            final(results)@.to_set() == self.hits(
                Query::Containing(BoxI32 { min_x, min_y, max_x, max_y }),
            ),
    {
        self.collect(&Query::Containing(BoxI32::new(min_x, min_y, max_x, max_y)), results);
    }

    /// Ids of the boxes that lie inside the window `(min_x, min_y, max_x, max_y)`.
    pub fn query_contained_within(
        &self,
        min_x: i32,
        min_y: i32,
        max_x: i32,
        max_y: i32,
        results: &mut Vec<usize>,
    )
        requires
            self.wf(),
        ensures
            final(results)@.no_duplicates(),
            final(results)@.to_set() == self.hits(
                Query::ContainedWithin(BoxI32 { min_x, min_y, max_x, max_y }),
            ),
    {
        self.collect(&Query::ContainedWithin(BoxI32::new(min_x, min_y, max_x, max_y)), results);
    }

    /// The leaf ids of a built tree are `0, ..., n - 1`, each exactly once.
    pub proof fn lemma_leaf_ids_permutation(&self)
        requires
            self.wf(),
            self.built(),
        ensures
            self.index_seq().subrange(0, self.len_spec() as int).no_duplicates(),
            self.index_seq().subrange(0, self.len_spec() as int).to_set() == Set::new(
                |v: u32| (v as int) < self.len_spec(),
            ),
    {
        let n = self.len_spec() as int;
        let ids = self.index_seq().subrange(0, n);
        lemma_levels_increasing(self.level_seq(), n, 0, self.level_seq().len() - 1);
        assert forall|a: int, c: int| 0 <= a < c < ids.len() implies ids[a] != ids[c] by {
            assert(self.index_seq()[a] != self.index_seq()[c]);
        }
        assert forall|v: u32| #[trigger] ids.to_set().contains(v) <==> (v as int) < n by {
            if ids.to_set().contains(v) {
                assert(ids.contains(v));
                let j = choose|j: int| 0 <= j < ids.len() && ids[j] == v;
                assert(self.index_seq()[j] == v);
            }
            if (v as int) < n {
                let q = self.slot@[v as int];
                assert(ids[q] == v);
                assert(ids.contains(v));
            }
        }
        assert(ids.to_set() =~= Set::new(|v: u32| (v as int) < n));
    }

    /// Every parent's box contains the box of each leaf below it: the node on level `i`
    /// above leaf position `q` bounds that leaf.
    pub proof fn lemma_parent_contains_leaf(&self, q: int, i: int)
        requires
            self.wf(),
            self.built(),
            0 <= q < self.len_spec(),
            0 <= i < self.level_seq().len(),
        ensures
            level_start(self.level_seq(), i) <= ancestor(self.level_seq(), q, i) < self.level_seq()[i],
            contains_box(self.box_seq()[ancestor(self.level_seq(), q, i)], self.box_seq()[q]),
    {
        lemma_ancestor_in_level(self.level_seq(), self.len_spec() as int, q, i);
        lemma_ancestor_contains(self.level_seq(), self.box_seq(), self.index_seq(), self.items(), q, i);
    }

    /// Trees built from the same boxes added in another order answer every query alike:
    /// where `perm` sends each id of `self` to the id of the same box in `other`, `id`
    /// answers a query in `self` exactly when `perm[id]` answers it in `other`.
    pub proof fn lemma_same_boxes_same_answers(&self, other: &Self, perm: Seq<usize>, query: Query)
        requires
            self.wf(),
            other.wf(),
            self.built(),
            other.built(),
            self.len_spec() == other.len_spec(),
            perm.len() == self.len_spec(),
            forall|id: int|
                0 <= id < perm.len() ==> (#[trigger] perm[id] as int) < other.len_spec()
                    && other.items()[perm[id] as int] == self.items()[id],
        ensures
            forall|id: int|
                0 <= id < self.len_spec() ==> (#[trigger] self.hits(query).contains(id as usize)
                    <==> other.hits(query).contains(perm[id])),
    {
    }

    /// `build` is deterministic: two built trees over the same boxes, added in the same
    /// order, have the same level ends, boxes and indices, and byte-identical saved forms.
    pub proof fn lemma_build_deterministic(&self, other: &Self)
        requires
            self.wf(),
            other.wf(),
            self.built(),
            other.built(),
            self.items() == other.items(),
        ensures
            self.level_seq() == other.level_seq(),
            self.box_seq() == other.box_seq(),
            self.index_seq() == other.index_seq(),
            self.image() == other.image(),
    {
        let n = self.len_spec() as int;
        let items = self.items();
        lemma_levels_unique(self.level_seq(), other.level_seq(), n);
        let lb = self.level_seq();
        lemma_levels_increasing(lb, n, 0, lb.len() - 1);
        if n > 16 {
            lemma_leaf_order_unique(
                self.index_seq(),
                other.index_seq(),
                items,
                self.bounds_spec(),
                self.slot@,
                other.slot@,
                n - 1,
            );
        }
        lemma_layout_prefix(
            lb,
            self.box_seq(),
            self.index_seq(),
            other.box_seq(),
            other.index_seq(),
            items,
            lb.last() as int,
        );
        assert(self.box_seq() =~= self.box_seq().subrange(0, lb.last() as int));
        assert(other.box_seq() =~= other.box_seq().subrange(0, lb.last() as int));
        assert(self.index_seq() =~= self.index_seq().subrange(0, lb.last() as int));
        assert(other.index_seq() =~= other.index_seq().subrange(0, lb.last() as int));
    }

    /// The box of item `item_id` as `(min_x, min_y, max_x, max_y)`, or `None` when no
    /// item has that id. After `build` the leaves are scanned for the id.
    pub fn get(&self, item_id: usize) -> (r: Option<(i32, i32, i32, i32)>)
        requires
            self.wf(),
        ensures
            item_id < self.len_spec() ==> r == Some(
                (
                    self.items()[item_id as int].min_x,
                    self.items()[item_id as int].min_y,
                    self.items()[item_id as int].max_x,
                    self.items()[item_id as int].max_y,
                ),
            ),
            item_id >= self.len_spec() ==> r.is_none(),
    {
        if item_id >= self.num_items {
            return None;
        }
        if self.level_bounds.len() == 0 {
            let b = self.boxes[item_id];
            return Some((b.min_x, b.min_y, b.max_x, b.max_y));
        }
        let mut pos: usize = 0;
        while pos < self.num_items
            invariant
                self.wf(),
                self.built(),
                item_id < self.len_spec(),
                pos <= self.num_items,
                self.num_items == self.len_spec(),
                forall|q: int| 0 <= q < pos ==> self.indices@[q] != item_id as u32,
            decreases self.num_items - pos,
        {
            proof {
                lemma_levels_increasing(self.level_seq(), self.len_spec() as int, 0, self.level_seq().len() - 1);
            }
            if self.indices[pos] as usize == item_id {
                let b = self.boxes[pos];
                return Some((b.min_x, b.min_y, b.max_x, b.max_y));
            }
            pos = pos + 1;
        }
        proof {
            let q = self.slot@[item_id as int];
            assert(self.indices@[q] == item_id as u32);
        }
        None
    }

    /// Ids of the other items whose boxes overlap the box of item `item_id`; an error
    /// when no item has that id.
    pub fn query_intersecting_id(&self, item_id: usize, results: &mut Vec<usize>) -> (r: Result<(), QueryError>)
        requires
            self.wf(),
        ensures
            item_id >= self.len_spec() <==> r == Err::<(), QueryError>(
                QueryError::ItemOutOfRange { item_id, num_items: self.len_spec() as usize },
            ),
            r.is_ok() ==> final(results)@.no_duplicates() && final(results)@.to_set() == self.hits(
                Query::Intersecting(self.items()[item_id as int]),
            ).remove(item_id),
    {
        let found = self.get(item_id);
        match found {
            None => Err(QueryError::ItemOutOfRange { item_id, num_items: self.num_items }),
            Some((min_x, min_y, max_x, max_y)) => {
                let mut all: Vec<usize> = Vec::new();
                self.query_intersecting(min_x, min_y, max_x, max_y, &mut all);
                results.clear();
                let mut i: usize = 0;
                while i < all.len()
                    invariant
                        i <= all@.len(),
                        all@.no_duplicates(),
                        results@.no_duplicates(),
                        forall|x: usize| #[trigger] results@.contains(x) <==> (x != item_id && exists|j: int| 0 <= j < i && all@[j] == x),
                    decreases all@.len() - i,
                {
                    let x = all[i];
                    if x != item_id {
                        proof {
                            assert(!results@.contains(x)) by {
                                if results@.contains(x) {
                                    let j = choose|j: int| 0 <= j < i && all@[j] == x;
                                    assert(all@[j] == all@[i as int]);
                                }
                            }
                        }
                        let ghost old_results = results@;
                        results.push(x);
                        proof {
                            assert forall|a: int, c: int| 0 <= a < c < results@.len() implies results@[a] != results@[c] by {
                                if c == results@.len() - 1 {
                                    assert(old_results.contains(old_results[a]));
                                } else {
                                    assert(old_results[a] != old_results[c]);
                                }
                            }
                        }
                    }
                    proof {
                        broadcast use vstd::seq_lib::lemma_seq_contains_after_push;
                        assert forall|y: usize| #[trigger] results@.contains(y) <==> (y != item_id && exists|j: int| 0 <= j < i + 1 && all@[j] == y) by {
                            if y != item_id && all@[i as int] == y {
                                assert(results@.contains(y));
                            }
                        }
                    }
                    i = i + 1;
                }
                proof {
                    let w = Query::Intersecting(self.items()[item_id as int]);
                    assert forall|y: usize| #[trigger] results@.to_set().contains(y) <==> self.hits(w).remove(item_id).contains(y) by {
                        if results@.to_set().contains(y) {
                            assert(results@.contains(y));
                            let j = choose|j: int| 0 <= j < all@.len() && all@[j] == y;
                            assert(all@.to_set().contains(y));
                        }
                        if self.hits(w).remove(item_id).contains(y) {
                            assert(all@.to_set().contains(y));
                            assert(all@.contains(y));
                            let j = choose|j: int| 0 <= j < all@.len() && all@[j] == y;
                            assert(results@.contains(y));
                        }
                    }
                    assert(results@.to_set() =~= self.hits(w).remove(item_id));
                }
                Ok(())
            },
        }
    }

    /// The saved form of this tree.
    pub open spec fn image(&self) -> Seq<u8> {
        image_of(self.len_spec(), self.level_seq(), self.box_seq(), self.index_seq(), self.bounds_spec())
    }

    /// The saved form fits the format: its packed buffer's length fits 32 bits.
    pub open spec fn image_fits(&self) -> bool {
        8 + 20 * self.box_seq().len() <= u32::MAX
    }

    /// The saved form of a built tree, or `None` for a tree not built or too large for the
    /// format's 32-bit lengths.
    pub fn to_bytes(&self) -> (r: Option<Vec<u8>>)
        requires
            self.wf(),
        ensures
            (self.built() && self.image_fits()) ==> r.is_some() && r.unwrap()@ == self.image(),
            !(self.built() && self.image_fits()) ==> r.is_none(),
    {
        if self.level_bounds.len() == 0 {
            return None;
        }
        let total = self.boxes.len();
        if total > 214_748_364 {
            return None;
        }
        let levels = levels_to_u32(&self.level_bounds);
        let packed = packed_bytes(self.num_items as u32, &self.boxes, &self.indices);
        let mut bounds: Vec<u8> = Vec::new();
        push_box(&mut bounds, &self.bounds);
        proof {
            lemma_lengths(self.boxes@, self.indices@);
            lemma_levels_increasing(self.level_seq(), self.len_spec() as int, 0, self.level_seq().len() - 1);
            lemma_level_counts(self.level_seq(), self.len_spec() as int, self.level_seq().len() - 1);
            assert(bounds@ =~= box_le(self.bounds));
        }
        let parts = SavedParts {
            node_size: 16,
            num_items: self.num_items as u32,
            total_nodes: total as u32,
            level_bounds: levels,
            bounds,
            data: packed,
        };
        let out = encode_frame(VERSION_I32, &parts);
        proof {
            assert(self.num_items == self.len_spec());
            assert(out@ == self.image());
        }
        Some(out)
    }

    /// The header fields of the saved form, and where its packed buffer starts.
    pub proof fn lemma_image_header(&self)
        requires
            self.wf(),
            self.built(),
            self.image_fits(),
        ensures
            ({
                let img = self.image();
                let n = self.len_spec() as int;
                let t = self.box_seq().len() as int;
                let l = self.level_seq().len() as int;
                let d = 38 + 4 * l;
                let packed = packed_le(self.len_spec(), self.box_seq(), self.index_seq());
                &&& 1 <= n <= t
                &&& l <= t
                &&& packed.len() == 8 + 20 * t
                &&& img.len() == d + 8 + 20 * t
                &&& img[0] == MAGIC
                &&& img[1] == VERSION_I32
                &&& u32_at(img, 2) == 16
                &&& u32_at(img, 6) == n
                &&& u32_at(img, 10) == t
                &&& u32_at(img, 14) == l
                &&& img.subrange(d, img.len() as int) == packed
            }),
    {
        let img = self.image();
        let n = self.len_spec() as int;
        let lb = self.level_seq();
        let bs = self.box_seq();
        let ix = self.index_seq();
        let t = bs.len() as int;
        let l = lb.len() as int;
        let d = 38 + 4 * l;
        lemma_levels_increasing(lb, n, 0, l - 1);
        lemma_level_counts(lb, n, l - 1);
        lemma_lengths(bs, ix);
        lemma_lengths(Seq::empty(), levels_u32(lb));
        let packed = packed_le(self.len_spec(), bs, ix);
        let head = seq![MAGIC, VERSION_I32] + u32_le(16) + u32_le(n as u32) + u32_le(t as u32) + u32_le(l as u32);
        let front = head + u32s_le(levels_u32(lb)) + box_le(self.bounds_spec()) + u32_le(packed.len() as u32);
        assert(head.len() == 18);
        assert(front.len() == d);
        assert(img == front + packed);
        assert(img.subrange(d, img.len() as int) =~= packed);
        assert forall|j: int| 0 <= j < 4 implies #[trigger] img[2 + j] == u32_le(16)[j] by {
            assert(img[2 + j] == head[2 + j]);
        }
        assert forall|j: int| 0 <= j < 4 implies #[trigger] img[6 + j] == u32_le(n as u32)[j] by {
            assert(img[6 + j] == head[6 + j]);
        }
        assert forall|j: int| 0 <= j < 4 implies #[trigger] img[10 + j] == u32_le(t as u32)[j] by {
            assert(img[10 + j] == head[10 + j]);
        }
        assert forall|j: int| 0 <= j < 4 implies #[trigger] img[14 + j] == u32_le(l as u32)[j] by {
            assert(img[14 + j] == head[14 + j]);
        }
        assert(img[0] == head[0]);
        assert(img[1] == head[1]);
        lemma_read_back(img, 2, 16);
        lemma_read_back(img, 6, n as u32);
        lemma_read_back(img, 10, t as u32);
        lemma_read_back(img, 14, l as u32);
    }

    /// The id and box of leaf `q` read back from the saved form.
    pub proof fn lemma_image_leaf(&self, q: int)
        requires
            self.wf(),
            self.built(),
            self.image_fits(),
            0 <= q < self.len_spec(),
        ensures
            ({
                let img = self.image();
                let t = self.box_seq().len() as int;
                let d = 38 + 4 * self.level_seq().len();
                let b = self.box_seq()[q];
                &&& u32_at(img, d + 8 + 16 * t + 4 * q) == self.index_seq()[q]
                &&& (u32_at(img, d + 8 + 16 * q) as i32) == b.min_x
                &&& (u32_at(img, d + 8 + 16 * q + 4) as i32) == b.min_y
                &&& (u32_at(img, d + 8 + 16 * q + 8) as i32) == b.max_x
                &&& (u32_at(img, d + 8 + 16 * q + 12) as i32) == b.max_y
            }),
    {
        self.lemma_image_header();
        let d = 38 + 4 * self.level_seq().len() as int;
        lemma_leaf_bytes(self.image(), d, self.len_spec(), self.box_seq(), self.index_seq(), q);
    }

    /// Saving and loading keeps the tree: two built trees with the same saved form hold
    /// the same items, so they give the same answer to every query. `from_bytes` returns a
    /// tree whose saved form is its input, and succeeds on the output of `to_bytes`.
    pub proof fn lemma_round_trip(&self, other: &Self, query: Query)
        requires
            self.wf(),
            other.wf(),
            self.built(),
            other.built(),
            self.image_fits(),
            other.image_fits(),
            self.image() == other.image(),
        ensures
            self.items() == other.items(),
            self.hits(query) == other.hits(query),
    {
        self.lemma_image_header();
        other.lemma_image_header();
        let n = self.len_spec() as int;
        assert(other.len_spec() == n);
        assert forall|id: int| 0 <= id < n implies #[trigger] self.items()[id] == other.items()[id] by {
            let q = self.slot@[id];
            self.lemma_image_leaf(q);
            other.lemma_image_leaf(q);
            assert(other.index_seq()[q] == self.index_seq()[q]);
            assert(other.box_seq()[q] == self.box_seq()[q]);
        }
        assert(self.items() =~= other.items());
        assert(self.hits(query) =~= other.hits(query));
    }

    /// Loads a tree from its saved form. The leaves' ids and boxes are read, the tree is
    /// built again from them, and it is returned only if its saved form is exactly `bytes`.
    /// A wrong magic or version byte gives `InvalidData` before anything else is read.
    pub fn from_bytes(bytes: &Vec<u8>) -> (r: Result<Self, LoadError>)
        ensures
            r is Ok ==> r->Ok_0.wf() && r->Ok_0.built() && r->Ok_0.image() == bytes@,
            r == Err::<Self, LoadError>(LoadError::InvalidData) <==> (bytes@.len() >= 2 && (bytes@[0]
                != MAGIC || bytes@[1] != VERSION_I32)),
            (exists|t: Self| t.wf() && t.built() && t.image_fits() && #[trigger] t.image() == bytes@)
                ==> r is Ok,
    {
        let ghost src = choose|t: Self| t.wf() && t.built() && t.image_fits() && #[trigger] t.image() == bytes@;
        let ghost is_img = src.wf() && src.built() && src.image_fits() && src.image() == bytes@;
        proof {
            if is_img {
                src.lemma_image_header();
            }
        }
        let len = bytes.len();
        if len < 2 {
            return Err(LoadError::Malformed);
        }
        if bytes[0] != MAGIC || bytes[1] != VERSION_I32 {
            return Err(LoadError::InvalidData);
        }
        if len < 18 {
            return Err(LoadError::Malformed);
        }
        let fanout = read_u32(bytes, 2);
        let n32 = read_u32(bytes, 6);
        let t32 = read_u32(bytes, 10);
        let l32 = read_u32(bytes, 14);
        if fanout != 16 || n32 == 0 || n32 as usize > MAX_ITEMS || t32 < n32 {
            return Err(LoadError::Malformed);
        }
        let need: u64 = 46 + 4 * (l32 as u64) + 20 * (t32 as u64);
        if need != len as u64 {
            return Err(LoadError::Malformed);
        }
        let n = n32 as usize;
        let total = t32 as usize;
        let d: usize = 38 + 4 * (l32 as usize);
        let mut items: Vec<BoxI32> = Vec::with_capacity(n);
        let mut i: usize = 0;
        while i < n
            invariant
                i <= n,
                items@.len() == i,
                forall|j: int| 0 <= j < i ==> is_valid(#[trigger] items@[j]),
            decreases n - i,
        {
            items.push(BoxI32::new(0, 0, 0, 0));
            i = i + 1;
        }
        let mut q: usize = 0;
        while q < n
            invariant
                bytes@.len() == len,
                len == d + 8 + 20 * total,
                1 <= n <= total,
                n <= MAX_ITEMS,
                q <= n,
                items@.len() == n,
                forall|j: int| 0 <= j < n ==> is_valid(#[trigger] items@[j]),
                bytes@[0] == MAGIC && bytes@[1] == VERSION_I32,
                (exists|t: Self| t.wf() && t.built() && t.image_fits() && #[trigger] t.image() == bytes@) ==> is_img,
                is_img == (src.wf() && src.built() && src.image_fits() && src.image() == bytes@),
                is_img ==> src.len_spec() == n && src.box_seq().len() == total && d == 38 + 4
                    * src.level_seq().len(),
                is_img ==> forall|j: int|
                    0 <= j < q ==> items@[#[trigger] src.index_seq()[j] as int] == src.box_seq()[j],
            decreases n - q,
        {
            let id = read_u32(bytes, d + 8 + 16 * total + 4 * q) as usize;
            proof {
                if is_img {
                    src.lemma_image_leaf(q as int);
                    lemma_levels_increasing(src.level_seq(), n as int, 0, src.level_seq().len() - 1);
                }
            }
            if id >= n {
                return Err(LoadError::Malformed);
            }
            let off = d + 8 + 16 * q;
            let b = BoxI32::new(
                read_u32(bytes, off) as i32,
                read_u32(bytes, off + 4) as i32,
                read_u32(bytes, off + 8) as i32,
                read_u32(bytes, off + 12) as i32,
            );
            if !(b.min_x <= b.max_x && b.min_y <= b.max_y) {
                proof {
                    if is_img {
                        assert(b == src.box_seq()[q as int]);
                        assert(src.items()[src.index_seq()[q as int] as int] == b);
                    }
                }
                return Err(LoadError::Malformed);
            }
            let ghost old_items = items@;
            items.set(id, b);
            proof {
                if is_img {
                    assert(b == src.box_seq()[q as int]);
                    assert forall|j: int| 0 <= j < q + 1 implies items@[#[trigger] src.index_seq()[j] as int] == src.box_seq()[j] by {
                        if j < q {
                            assert(src.index_seq()[j] != src.index_seq()[q as int]);
                        }
                    }
                }
            }
            q = q + 1;
        }
        let mut tree = Self::with_capacity(n);
        let mut k: usize = 0;
        while k < n
            invariant
                k <= n,
                n <= MAX_ITEMS,
                items@.len() == n,
                forall|j: int| 0 <= j < n ==> is_valid(#[trigger] items@[j]),
                tree.wf(),
                !tree.built(),
                tree.items() == items@.subrange(0, k as int),
            decreases n - k,
        {
            let b = items[k];
            tree.add(b.min_x, b.min_y, b.max_x, b.max_y);
            k = k + 1;
            assert(tree.items() =~= items@.subrange(0, k as int));
        }
        assert(items@.subrange(0, n as int) =~= items@);
        tree.build();
        proof {
            if is_img {
                assert forall|id: int| 0 <= id < n implies #[trigger] items@[id] == src.items()[id] by {
                    let p = src.slot@[id];
                    assert(items@[src.index_seq()[p] as int] == src.box_seq()[p]);
                }
                assert(items@ =~= src.items());
                tree.lemma_build_deterministic(&src);
            }
        }
        match tree.to_bytes() {
            Some(img) => {
                if bytes_equal(&img, bytes) {
                    Ok(tree)
                } else {
                    Err(LoadError::Malformed)
                }
            },
            None => Err(LoadError::Malformed),
        }
    }

    /// Breadth-first search from the root: descends into each parent whose box passes
    /// the query's descend test and reports the id of each leaf that passes the leaf test,
    /// stopping once `k` ids are reported. `results` is cleared first; an unbuilt tree
    /// reports nothing.
    pub fn search(&self, query: &Query, k: usize, results: &mut Vec<usize>)
        requires
            self.wf(),
        ensures
            final(results)@.no_duplicates(),
            final(results)@.len() <= k,
            forall|j: int|
                0 <= j < final(results)@.len() ==> (#[trigger] final(results)@[j] as int)
                    < self.len_spec() && leaf_match(*query, self.items()[final(results)@[j] as int]),
            self.built() && final(results)@.len() < k ==> forall|id: int|
                0 <= id < self.len_spec() && leaf_match(*query, #[trigger] self.items()[id])
                    ==> final(results)@.contains(id as usize),
            !self.built() ==> final(results)@.len() == 0,
            final(results)@.len() <= self.len_spec(),
    {
        results.clear();
        if self.level_bounds.len() == 0 || k == 0 {
            return;
        }
        let ghost lb = self.level_bounds@;
        let ghost bs = self.boxes@;
        let ghost ix = self.indices@;
        let ghost items = self.items@;
        let ghost n = items.len() as int;
        let ghost mut emitted: Seq<int> = Seq::empty();
        let mut level: usize = self.level_bounds.len() - 1;
        let mut frontier: Vec<usize> = Vec::new();
        frontier.push(self.total_nodes - 1);
        proof {
            lemma_levels_increasing(lb, n, 0, lb.len() - 1);
            assert forall|q: int| #[trigger] matching(bs, *query, n, q) implies frontier@.contains(
                group_start(lb, level as int, ancestor(lb, q, level as int)) as usize,
            ) by {
                lemma_ancestor_root(lb, n, q);
                assert(frontier@[0] == self.total_nodes - 1);
            }
            assert((lb.last() - 1 - level_start(lb, level as int)) % 16 == 0);
        }
        loop
            invariant
                self.wf(),
                self.built(),
                lb == self.level_bounds@,
                bs == self.boxes@,
                ix == self.indices@,
                items == self.items@,
                n == items.len(),
                layout_ok(lb, bs, ix, items),
                level < lb.len(),
                1 <= k,
                increasing(frontier@),
                forall|j: int| 0 <= j < frontier@.len() ==> #[trigger] group_ok(lb, level as int, frontier@[j] as int),
                forall|q: int| #[trigger] matching(bs, *query, n, q) ==> frontier@.contains(
                    group_start(lb, level as int, ancestor(lb, q, level as int)) as usize,
                ),
                results@.len() == 0,
                emitted.len() == 0,
            decreases level,
        {
            let level_end = self.level_bounds[level];
            let mut next: Vec<usize> = Vec::new();
            let mut fi: usize = 0;
            let ghost mut done: int = level_start(lb, level as int);
            proof {
                lemma_levels_increasing(lb, n, level as int, lb.len() - 1);
                if level > 0 {
                    lemma_levels_increasing(lb, n, level - 1, level as int);
                }
                if frontier@.len() > 0 {
                    assert(group_ok(lb, level as int, frontier@[0] as int));
                }
                assert forall|q: int| #[trigger] matching(bs, *query, n, q) && ancestor(lb, q, level as int) < done implies handled(lb, ix, level as int, next@, results@, q) by {
                    lemma_ancestor_in_level(lb, n, q, level as int);
                }
            }
            while fi < frontier.len()
                invariant
                    self.wf(),
                    self.built(),
                    lb == self.level_bounds@,
                    bs == self.boxes@,
                    ix == self.indices@,
                    items == self.items@,
                    n == items.len(),
                    layout_ok(lb, bs, ix, items),
                    level < lb.len(),
                    level_end == lb[level as int],
                    lb[level as int] <= lb.last(),
                    1 <= k,
                    increasing(frontier@),
                    forall|j: int| 0 <= j < frontier@.len() ==> #[trigger] group_ok(lb, level as int, frontier@[j] as int),
                    forall|q: int| #[trigger] matching(bs, *query, n, q) ==> frontier@.contains(
                        group_start(lb, level as int, ancestor(lb, q, level as int)) as usize,
                    ),
                    fi <= frontier@.len(),
                    level_start(lb, level as int) <= done <= lb[level as int],
                    fi < frontier@.len() ==> done <= frontier@[fi as int],
                    forall|q: int| #[trigger] matching(bs, *query, n, q) && (fi == frontier@.len() || group_start(lb, level as int, ancestor(lb, q, level as int)) < frontier@[fi as int]) ==> ancestor(lb, q, level as int) < done,
                    forall|q: int| #[trigger] matching(bs, *query, n, q) && ancestor(lb, q, level as int) < done ==> handled(lb, ix, level as int, next@, results@, q),
                    increasing(next@),
                    level > 0 ==> forall|j: int| 0 <= j < next@.len() ==> #[trigger] group_ok(lb, level - 1, next@[j] as int),
                    level > 0 && next@.len() > 0 ==> next@.last() < first_child(lb, level as int, done),
                    level > 0 ==> results@.len() == 0,
                    results@.len() == emitted.len(),
                    results@.len() < k,
                    forall|j: int|
                        0 <= j < emitted.len() ==> 0 <= #[trigger] emitted[j] < done && emitted[j] < n && results@[j]
                            == ix[emitted[j]] as usize && leaf_match(*query, bs[emitted[j]]),
                    results@.no_duplicates(),
                    forall|a: int, c: int| 0 <= a < c < emitted.len() ==> emitted[a] < emitted[c],
                decreases frontier@.len() - fi,
            {
                let g = frontier[fi];
                proof {
                    assert(group_ok(lb, level as int, g as int));
                }
                let end: usize = if g + 16 <= level_end { g + 16 } else { level_end };
                let mut pos: usize = g;
                proof {
                    assert(group_ok(lb, level as int, g as int));
                    if fi + 1 < frontier@.len() {
                        assert(group_ok(lb, level as int, frontier@[fi + 1] as int));
                        assert(frontier@[fi as int] < frontier@[fi + 1]);
                        assert(end <= frontier@[fi + 1]);
                    }
                }
                while pos < end
                    invariant
                        self.wf(),
                        self.built(),
                        lb == self.level_bounds@,
                        bs == self.boxes@,
                        ix == self.indices@,
                        items == self.items@,
                        n == items.len(),
                        layout_ok(lb, bs, ix, items),
                        level < lb.len(),
                        1 <= k,
                        group_ok(lb, level as int, g as int),
                        lb[level as int] <= lb.last(),
                        end == (if g + 16 <= lb[level as int] { g + 16 } else { lb[level as int] as int }),
                        done <= g <= pos <= end,
                        forall|q: int| #[trigger] matching(bs, *query, n, q) && (ancestor(lb, q, level as int) < done || (group_start(lb, level as int, ancestor(lb, q, level as int)) == g && ancestor(lb, q, level as int) < pos)) ==> handled(lb, ix, level as int, next@, results@, q),
                        increasing(next@),
                        level > 0 ==> forall|j: int| 0 <= j < next@.len() ==> #[trigger] group_ok(lb, level - 1, next@[j] as int),
                        level > 0 && next@.len() > 0 ==> next@.last() < first_child(lb, level as int, pos as int),
                        level > 0 ==> results@.len() == 0,
                        results@.len() == emitted.len(),
                        results@.len() < k,
                        forall|j: int|
                            0 <= j < emitted.len() ==> 0 <= #[trigger] emitted[j] < pos && emitted[j] < n && results@[j]
                                == ix[emitted[j]] as usize && leaf_match(*query, bs[emitted[j]]),
                        results@.no_duplicates(),
                        forall|a: int, c: int| 0 <= a < c < emitted.len() ==> emitted[a] < emitted[c],
                    decreases end - pos,
                {
                    let b = self.boxes[pos];
                    let ghost old_next = next@;
                    let ghost old_results = results@;
                    if level == 0 {
                        if leaf_test(query, &b) {
                            let id = self.indices[pos];
                            results.push(id as usize);
                            proof {
                                assert(lb[0] == n);
                                assert forall|j: int| 0 <= j < old_results.len() implies old_results[j] != id as usize by {
                                    assert(emitted[j] != pos);
                                }
                                emitted = emitted.push(pos as int);
                                assert forall|a: int, c: int| 0 <= a < c < results@.len() implies results@[a] != results@[c] by {
                                    if c < old_results.len() {
                                        assert(old_results[a] != old_results[c]);
                                    }
                                }
                            }
                            if results.len() >= k {
                                proof {
                                    lemma_increasing_len(emitted, n);
                                    assert forall|j: int| 0 <= j < results@.len() implies (#[trigger] results@[j] as int)
                                        < n && leaf_match(*query, items[results@[j] as int]) by {
                                        assert(ix[emitted[j]] < n);
                                    }
                                }
                                return;
                            }
                        }
                    } else {
                        if node_test(query, &b) {
                            let v = self.indices[pos];
                            proof {
                                assert(node_ok(lb, bs, ix, level as int, pos as int));
                                assert((v >> 2u32) == v / 4) by (bit_vector);
                            }
                            let child = (v >> 2u32) as usize;
                            next.push(child);
                            proof {
                                assert(child == first_child(lb, level as int, pos as int));
                                let f = first_child(lb, level as int, pos as int);
                                vstd::arithmetic::div_mod::lemma_mod_multiples_basic(pos - level_start(lb, level as int), 16);
                                assert(group_ok(lb, level - 1, f));
                                assert forall|a: int, c: int| 0 <= a < c < next@.len() implies next@[a] < next@[c] by {
                                    if c < old_next.len() {
                                        assert(old_next[a] < old_next[c]);
                                    } else if a < old_next.len() - 1 {
                                        assert(old_next[a] < old_next.last());
                                    }
                                }
                            }
                        }
                    }
                    proof {
                        broadcast use vstd::seq_lib::lemma_seq_contains_after_push;
                        assert forall|q: int| #[trigger] matching(bs, *query, n, q) && (ancestor(lb, q, level as int) < done || (group_start(lb, level as int, ancestor(lb, q, level as int)) == g && ancestor(lb, q, level as int) < pos + 1)) implies handled(lb, ix, level as int, next@, results@, q) by {
                            let a = ancestor(lb, q, level as int);
                            if a == pos {
                                lemma_ancestor_contains(lb, bs, ix, items, q, level as int);
                                assert(is_valid(items[ix[q] as int]));
                                lemma_prune_keeps_matches(*query, bs[pos as int], bs[q]);
                                if level > 0 {
                                    lemma_parent_child(lb, n, q, level as int);
                                    assert(next@.last() == first_child(lb, level as int, pos as int));
                                } else {
                                    assert(results@.last() == ix[q] as usize);
                                }
                            } else {
                                assert(handled(lb, ix, level as int, old_next, old_results, q));
                            }
                        }
                    }
                    pos = pos + 1;
                }
                proof {
                    broadcast use vstd::seq_lib::lemma_seq_contains_after_push;
                    let old_done = done;
                    assert forall|q: int| #[trigger] matching(bs, *query, n, q) && ancestor(lb, q, level as int) < end implies handled(lb, ix, level as int, next@, results@, q) by {
                        let a = ancestor(lb, q, level as int);
                        let gs = group_start(lb, level as int, a);
                        lemma_ancestor_in_level(lb, n, q, level as int);
                        lemma_group_start(lb, level as int, a);
                        if a >= old_done {
                            if fi + 1 < frontier@.len() {
                                assert(group_ok(lb, level as int, frontier@[fi + 1] as int));
                            }
                            lemma_increasing_member(frontier@, fi as int, gs as usize);
                            if gs != g {
                                assert(gs < frontier@[fi as int]);
                            }
                        }
                    }
                    assert forall|q: int| #[trigger] matching(bs, *query, n, q) && (fi + 1 == frontier@.len() || group_start(lb, level as int, ancestor(lb, q, level as int)) < frontier@[fi + 1]) implies ancestor(lb, q, level as int) < end by {
                        let a = ancestor(lb, q, level as int);
                        let gs = group_start(lb, level as int, a);
                        lemma_ancestor_in_level(lb, n, q, level as int);
                        lemma_group_start(lb, level as int, a);
                        lemma_increasing_member(frontier@, fi as int, gs as usize);
                    }
                    done = end as int;
                    if fi + 1 < frontier@.len() {
                        assert(group_ok(lb, level as int, frontier@[fi + 1] as int));
                        assert(frontier@[fi as int] < frontier@[fi + 1]);
                    }
                }
                fi = fi + 1;
            }
            if level == 0 {
                proof {
                    lemma_increasing_len(emitted, n);
                    assert forall|j: int| 0 <= j < results@.len() implies (#[trigger] results@[j] as int)
                        < n && leaf_match(*query, items[results@[j] as int]) by {
                        assert(ix[emitted[j]] < n);
                    }
                    assert forall|id: int| 0 <= id < n && leaf_match(*query, #[trigger] items[id]) implies results@.contains(id as usize) by {
                        let q = self.slot@[id];
                        assert(matching(bs, *query, n, q));
                    }
                }
                return;
            }
            proof {
                assert forall|q: int| #[trigger] matching(bs, *query, n, q) implies next@.contains(
                    group_start(lb, level - 1, ancestor(lb, q, level - 1)) as usize,
                ) by {
                    assert(handled(lb, ix, level as int, next@, results@, q));
                }
            }
            frontier = next;
            level = level - 1;
        }
    }

    /// Number of boxes added.
    pub fn len(&self) -> (r: usize)
        requires
            self.wf(),
        ensures
            r == self.len_spec(),
    {
        self.num_items
    }

    /// Whether no box was added.
    pub fn is_empty(&self) -> (r: bool)
        requires
            self.wf(),
        ensures
            r == (self.len_spec() == 0),
    {
        self.num_items == 0
    }
}

} // verus!
