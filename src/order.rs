//! The Hilbert order of the leaves: each box is keyed by the curve index of the lattice
//! cell of its center, ties broken by insertion id.
use vstd::prelude::*;
use crate::geometry::BoxI32;
use crate::hilbert::{hilbert_code, hilbert_xy_to_index};
use crate::sort::{sort_keys, sorted};

verus! {

/// Lattice cell, on one axis, of the center `(lo + hi) / 2` of a box inside the global
/// range `[bmin, bmax]`: `floor((center - bmin) * 65535 / (bmax - bmin))`, clamped to
/// `[0, 65534]`; `0` when the range is a single value.
pub open spec fn lattice_spec(lo: i32, hi: i32, bmin: i32, bmax: i32) -> u32 {
    if bmax <= bmin {
        0
    } else {
        let num = lo + hi - 2 * bmin;
        if num <= 0 {
            0
        } else {
            let v = num * 65535 / (2 * (bmax - bmin));
            if v > 65534 {
                65534
            } else {
                v as u32
            }
        }
    }
}

/// Hilbert index of the lattice cell of the center of `b`.
pub open spec fn cell_code(b: BoxI32, bounds: BoxI32) -> u32 {
    hilbert_code(
        lattice_spec(b.min_x, b.max_x, bounds.min_x, bounds.max_x),
        lattice_spec(b.min_y, b.max_y, bounds.min_y, bounds.max_y),
    )
}

/// Sort key of item `id`: its cell's Hilbert index, then its id.
pub open spec fn leaf_key(items: Seq<BoxI32>, bounds: BoxI32, id: int) -> int {
    cell_code(items[id], bounds) as int * 0x1_0000_0000 + id
}

/// The lattice cell of a box center on one axis.
pub fn lattice_coord(lo: i32, hi: i32, bmin: i32, bmax: i32) -> (r: u32)
    ensures
        r == lattice_spec(lo, hi, bmin, bmax),
        r <= 65534,
{
    if bmax <= bmin {
        return 0;
    }
    let num: i64 = lo as i64 + hi as i64 - 2 * (bmin as i64);
    if num <= 0 {
        return 0;
    }
    let den: i64 = 2 * (bmax as i64 - bmin as i64);
    let n: u64 = num as u64;
    let d: u64 = den as u64;
    proof {
        assert(n * 65535 <= 0x2_0000_0000 * 65535) by (nonlinear_arith)
            requires n <= 0x2_0000_0000;
    }
    let v: u64 = n * 65535 / d;
    if v > 65534 {
        65534
    } else {
        v as u32
    }
}

/// Item ids in the order of their keys: `ids[p]` is the item at leaf position `p`.
pub fn leaf_order(items: &Vec<BoxI32>, bounds: BoxI32) -> (ids: Vec<u32>)
    requires
        items.len() < 0x1_0000_0000,
    ensures
        ids@.len() == items@.len(),
        forall|p: int| 0 <= p < ids@.len() ==> (#[trigger] ids@[p] as int) < items@.len(),
        forall|p1: int, p2: int|
            0 <= p1 < p2 < ids@.len() ==> leaf_key(items@, bounds, #[trigger] ids@[p1] as int)
                < leaf_key(items@, bounds, #[trigger] ids@[p2] as int),
        forall|id: int| 0 <= id < items@.len() ==> #[trigger] ids@.contains(id as u32),
{
    let n = items.len();
    let mut keys: Vec<u64> = Vec::with_capacity(n);
    let mut i: usize = 0;
    while i < n
        invariant
            i <= n,
            n == items@.len(),
            n < 0x1_0000_0000,
            keys@.len() == i,
            forall|j: int| 0 <= j < i ==> #[trigger] keys@[j] as int == leaf_key(items@, bounds, j),
        decreases n - i,
    {
        let b = items[i];
        let cx = lattice_coord(b.min_x, b.max_x, bounds.min_x, bounds.max_x);
        let cy = lattice_coord(b.min_y, b.max_y, bounds.min_y, bounds.max_y);
        let code = hilbert_xy_to_index(cx, cy);
        proof {
            assert(code as int * 0x1_0000_0000 + i <= 0xFFFF_FFFF * 0x1_0000_0000 + 0xFFFF_FFFF)
                by (nonlinear_arith)
                requires code <= 0xFFFF_FFFF, i <= 0xFFFF_FFFF;
        }
        keys.push(code as u64 * 0x1_0000_0000 + i as u64);
        i = i + 1;
    }
    let sorted_keys = sort_keys(&keys);
    proof {
        broadcast use vstd::seq_lib::group_to_multiset_ensures;
        // keys are distinct, so the sorted keys are too
        assert forall|a: int, b: int| 0 <= a < b < keys@.len() implies keys@[a] != keys@[b] by {
            key_id(keys@[a] as int, cell_code(items@[a], bounds) as int, a);
            key_id(keys@[b] as int, cell_code(items@[b], bounds) as int, b);
        }
        assert(keys@.no_duplicates());
        keys@.to_multiset_ensures();
        sorted_keys@.to_multiset_ensures();
        keys@.lemma_multiset_has_no_duplicates();
        sorted_keys@.lemma_multiset_has_no_duplicates_conv();
    }
    let mut ids: Vec<u32> = Vec::with_capacity(n);
    let mut p: usize = 0;
    while p < n
        invariant
            p <= n,
            n == items@.len(),
            n == keys@.len(),
            n < 0x1_0000_0000,
            sorted_keys@.len() == n,
            sorted(sorted_keys@),
            sorted_keys@.no_duplicates(),
            sorted_keys@.to_multiset() == keys@.to_multiset(),
            forall|j: int| 0 <= j < n ==> #[trigger] keys@[j] as int == leaf_key(items@, bounds, j),
            ids@.len() == p,
            forall|j: int| 0 <= j < p ==> (#[trigger] ids@[j] as int) < n && sorted_keys@[j] as int
                == leaf_key(items@, bounds, ids@[j] as int),
        decreases n - p,
    {
        let k = sorted_keys[p];
        proof {
            broadcast use vstd::seq_lib::group_to_multiset_ensures;
            keys@.to_multiset_ensures();
            sorted_keys@.to_multiset_ensures();
            assert(sorted_keys@[p as int] == k);
            assert(sorted_keys@.contains(k));
            assert(sorted_keys@.to_multiset().count(k) > 0);
            assert(keys@.to_multiset().count(k) > 0);
            assert(keys@.contains(k));
            let j = choose|j: int| 0 <= j < keys@.len() && keys@[j] == k;
            key_id(k as int, cell_code(items@[j], bounds) as int, j);
        }
        let id = (k % 0x1_0000_0000) as u32;
        ids.push(id);
        p = p + 1;
    }
    proof {
        assert forall|p1: int, p2: int| 0 <= p1 < p2 < ids@.len() implies leaf_key(
            items@,
            bounds,
            #[trigger] ids@[p1] as int,
        ) < leaf_key(items@, bounds, #[trigger] ids@[p2] as int) by {
            assert(sorted_keys@[p1] != sorted_keys@[p2]);
        }
        assert forall|id: int| 0 <= id < items@.len() implies #[trigger] ids@.contains(id as u32) by {
            broadcast use vstd::seq_lib::group_to_multiset_ensures;
            let k = keys@[id];
            keys@.to_multiset_ensures();
            sorted_keys@.to_multiset_ensures();
            assert(keys@[id] == k);
            assert(keys@.contains(k));
            assert(keys@.to_multiset().count(k) > 0);
            assert(sorted_keys@.to_multiset().count(k) > 0);
            assert(sorted_keys@.contains(k));
            let p = choose|p: int| 0 <= p < sorted_keys@.len() && sorted_keys@[p] == k;
            key_id(k as int, cell_code(items@[id], bounds) as int, id);
            key_id(k as int, cell_code(items@[ids@[p] as int], bounds) as int, ids@[p] as int);
            assert(ids@[p] == id as u32);
        }
    }
    ids
}

/// A key `c * 2^32 + id` gives back its id as the remainder.
proof fn key_id(k: int, c: int, id: int)
    requires
        0 <= id < 0x1_0000_0000,
        k == c * 0x1_0000_0000 + id,
    ensures
        k % 0x1_0000_0000 == id,
{
    vstd::arithmetic::div_mod::lemma_fundamental_div_mod_converse(k, 0x1_0000_0000, c, id);
}

} // verus!
