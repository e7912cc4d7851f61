//! The saved form of a tree: a fixed header, the level ends, the global bounds and the
//! packed buffer of boxes and indices, all little-endian.
use vstd::prelude::*;
use crate::frame::{frame_of, MAGIC};
use crate::geometry::BoxI32;
use crate::bytes::{
    box_le,
    boxes_le,
    lemma_boxes_index,
    lemma_lengths,
    lemma_u32_round_trip,
    lemma_u32s_index,
    push_boxes,
    push_u32,
    push_u32s,
    u32_at,
    u32_le,
    u32s_le,
};
use crate::levels::{lemma_ceil_div_pos, level_count, level_step, levels_ok};

verus! {

/// Format version and coordinate type of a saved `i32` tree; `f64` trees use `0x01`.
pub const VERSION_I32: u8 = 0x02;

/// The packed buffer: an 8-byte header (magic, version, fanout 16 as `u16`, item count),
/// every box, then every index.
pub open spec fn packed_le(n: nat, bs: Seq<BoxI32>, ix: Seq<u32>) -> Seq<u8> {
    seq![MAGIC, VERSION_I32, 16u8, 0u8] + u32_le(n as u32) + boxes_le(bs) + u32s_le(ix)
}

/// The level ends as `u32`.
pub open spec fn levels_u32(lb: Seq<usize>) -> Seq<u32> {
    lb.map_values(|v: usize| v as u32)
}

/// The saved form of a tree: the file frame with version `VERSION_I32`, fanout 16, the
/// level ends, the global bounds as sixteen bytes, and the packed buffer.
pub open spec fn image_of(n: nat, lb: Seq<usize>, bs: Seq<BoxI32>, ix: Seq<u32>, bounds: BoxI32) -> Seq<u8> {
    frame_of(VERSION_I32, 16, n as u32, bs.len() as u32, levels_u32(lb), box_le(bounds), packed_le(n, bs, ix))
}

/// The level ends as `u32`.
pub(crate) fn levels_to_u32(lb: &Vec<usize>) -> (r: Vec<u32>)
    ensures
        r@ == levels_u32(lb@),
{
    let mut levels: Vec<u32> = Vec::with_capacity(lb.len());
    let mut i: usize = 0;
    while i < lb.len()
        invariant
            i <= lb@.len(),
            levels@ == levels_u32(lb@).subrange(0, i as int),
        decreases lb@.len() - i,
    {
        levels.push(lb[i] as u32);
        i = i + 1;
        assert(levels@ =~= levels_u32(lb@).subrange(0, i as int));
    }
    assert(levels@ =~= levels_u32(lb@));
    levels
}

/// The packed buffer of `n` items with boxes `bs` and indices `ix`.
pub(crate) fn packed_bytes(n: u32, bs: &Vec<BoxI32>, ix: &Vec<u32>) -> (r: Vec<u8>)
    ensures
        r@ == packed_le(n as nat, bs@, ix@),
{
    let mut packed: Vec<u8> = Vec::new();
    packed.push(MAGIC);
    packed.push(VERSION_I32);
    packed.push(16u8);
    packed.push(0u8);
    push_u32(&mut packed, n);
    push_boxes(&mut packed, bs);
    push_u32s(&mut packed, ix);
    assert(packed@ =~= packed_le(n as nat, bs@, ix@));
    packed
}

/// Why saved bytes could not be loaded.
#[derive(Clone, Copy, Debug, PartialEq, Eq, Structural)]
pub enum LoadError {
    /// The magic or version byte is wrong: not a saved `i32` tree.
    InvalidData,
    /// The bytes are cut short, inconsistent, or not the saved form of a built tree.
    Malformed,
}

/// The four bytes at `off` are the encoding of `v`, so they read back as `v`.
pub(crate) proof fn lemma_read_back(s: Seq<u8>, off: int, v: u32)
    requires
        0 <= off,
        off + 4 <= s.len(),
        forall|j: int| 0 <= j < 4 ==> #[trigger] s[off + j] == u32_le(v)[j],
    ensures
        u32_at(s, off) == v,
{
    assert(s[off + 0] == u32_le(v)[0]);
    assert(s[off + 1] == u32_le(v)[1]);
    assert(s[off + 2] == u32_le(v)[2]);
    assert(s[off + 3] == u32_le(v)[3]);
    lemma_u32_round_trip(v);
}

/// Each level has a node, so there are no more levels than nodes above the leaves plus one.
pub(crate) proof fn lemma_level_counts(lb: Seq<usize>, n: int, i: int)
    requires
        levels_ok(lb, n, 16),
        0 <= i < lb.len(),
    ensures
        level_count(lb, i) >= 1,
        lb[i] >= n + i,
    decreases i,
{
    if i > 0 {
        lemma_level_counts(lb, n, i - 1);
        assert(level_step(lb, i, 16));
        crate::levels::lemma_ceil_div_pos(level_count(lb, i - 1), 16);
    }
}

/// Reading the four bytes of an `i32` back gives the `i32`.
pub(crate) proof fn lemma_coord_back(img: Seq<u8>, off: int, v: i32)
    requires
        0 <= off,
        off + 4 <= img.len(),
        forall|j: int| 0 <= j < 4 ==> #[trigger] img[off + j] == box_le_part(v)[j],
    ensures
        (u32_at(img, off) as i32) == v,
{
    lemma_read_back(img, off, v as u32);
    assert(((v as u32) as i32) == v) by (bit_vector);
}

/// The four bytes of an `i32` coordinate.
pub open spec fn box_le_part(v: i32) -> Seq<u8> {
    u32_le(v as u32)
}

/// The id and box of leaf `q` read back from a packed buffer that starts at `d`.
pub(crate) proof fn lemma_leaf_bytes(img: Seq<u8>, d: int, n: nat, bs: Seq<BoxI32>, ix: Seq<u32>, q: int)
    requires
        0 <= d,
        d <= img.len(),
        bs.len() == ix.len(),
        0 <= q < bs.len(),
        img.subrange(d, img.len() as int) == packed_le(n, bs, ix),
    ensures
        ({
            let t = bs.len() as int;
            let b = bs[q];
            &&& u32_at(img, d + 8 + 16 * t + 4 * q) == ix[q]
            &&& (u32_at(img, d + 8 + 16 * q) as i32) == b.min_x
            &&& (u32_at(img, d + 8 + 16 * q + 4) as i32) == b.min_y
            &&& (u32_at(img, d + 8 + 16 * q + 8) as i32) == b.max_x
            &&& (u32_at(img, d + 8 + 16 * q + 12) as i32) == b.max_y
        }),
{
    let packed = packed_le(n, bs, ix);
    let t = bs.len() as int;
    lemma_lengths(bs, ix);
    let pre = seq![MAGIC, VERSION_I32, 16u8, 0u8] + u32_le(n as u32);
    assert(pre.len() == 8);
    assert(packed == pre + boxes_le(bs) + u32s_le(ix));
    assert(img.subrange(d, img.len() as int).len() == img.len() - d);
    assert(img.len() == d + 8 + 20 * t);
    assert forall|k: int| 0 <= k < packed.len() implies #[trigger] img[d + k] == packed[k] by {
        assert(img.subrange(d, img.len() as int)[k] == img[d + k]);
    }
    assert forall|j: int| 0 <= j < 4 implies #[trigger] img[d + 8 + 16 * t + 4 * q + j] == u32_le(ix[q])[j] by {
        lemma_u32s_index(ix, q, j);
        assert(img[d + (8 + 16 * t + 4 * q + j)] == packed[8 + 16 * t + 4 * q + j]);
    }
    lemma_read_back(img, d + 8 + 16 * t + 4 * q, ix[q]);
    let b = bs[q];
    assert forall|j: int| 0 <= j < 16 implies #[trigger] img[d + 8 + 16 * q + j] == box_le(b)[j] by {
        lemma_boxes_index(bs, q, j);
        assert(img[d + (8 + 16 * q + j)] == packed[8 + 16 * q + j]);
    }
    assert forall|j: int| 0 <= j < 4 implies #[trigger] img[d + 8 + 16 * q + j] == box_le_part(b.min_x)[j] by {
        assert(img[d + 8 + 16 * q + j] == box_le(b)[j]);
    }
    assert forall|j: int| 0 <= j < 4 implies #[trigger] img[d + 8 + 16 * q + 4 + j] == box_le_part(b.min_y)[j] by {
        assert(img[d + 8 + 16 * q + (4 + j)] == box_le(b)[4 + j]);
    }
    assert forall|j: int| 0 <= j < 4 implies #[trigger] img[d + 8 + 16 * q + 8 + j] == box_le_part(b.max_x)[j] by {
        assert(img[d + 8 + 16 * q + (8 + j)] == box_le(b)[8 + j]);
    }
    assert forall|j: int| 0 <= j < 4 implies #[trigger] img[d + 8 + 16 * q + 12 + j] == box_le_part(b.max_y)[j] by {
        assert(img[d + 8 + 16 * q + (12 + j)] == box_le(b)[12 + j]);
    }
    lemma_coord_back(img, d + 8 + 16 * q, b.min_x);
    lemma_coord_back(img, d + 8 + 16 * q + 4, b.min_y);
    lemma_coord_back(img, d + 8 + 16 * q + 8, b.max_x);
    lemma_coord_back(img, d + 8 + 16 * q + 12, b.max_y);
}

/// Whether two byte sequences are equal.
pub(crate) fn bytes_equal(a: &Vec<u8>, b: &Vec<u8>) -> (r: bool)
    ensures
        r == (a@ == b@),
{
    if a.len() != b.len() {
        return false;
    }
    let mut i: usize = 0;
    while i < a.len()
        invariant
            a@.len() == b@.len(),
            i <= a@.len(),
            forall|j: int| 0 <= j < i ==> a@[j] == b@[j],
        decreases a@.len() - i,
    {
        if a[i] != b[i] {
            return false;
        }
        i = i + 1;
    }
    assert(a@ =~= b@);
    true
}

} // verus!
