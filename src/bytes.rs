//! Little-endian byte encodings of the integers and boxes of the file format.
use vstd::prelude::*;
use crate::geometry::BoxI32;

verus! {

/// The four little-endian bytes of `v`.
pub open spec fn u32_le(v: u32) -> Seq<u8> {
    seq![
        (v & 0xFFu32) as u8,
        ((v >> 8u32) & 0xFFu32) as u8,
        ((v >> 16u32) & 0xFFu32) as u8,
        ((v >> 24u32) & 0xFFu32) as u8,
    ]
}

/// The value of four little-endian bytes.
pub open spec fn u32_of(b0: u8, b1: u8, b2: u8, b3: u8) -> u32 {
    (b0 as u32) | ((b1 as u32) << 8u32) | ((b2 as u32) << 16u32) | ((b3 as u32) << 24u32)
}

/// The value of the four bytes of `s` at `off`.
pub open spec fn u32_at(s: Seq<u8>, off: int) -> u32 {
    u32_of(s[off], s[off + 1], s[off + 2], s[off + 3])
}

/// The four little-endian two's-complement bytes of `v`.
pub open spec fn i32_le(v: i32) -> Seq<u8> {
    u32_le(v as u32)
}

/// The sixteen bytes of a box: `min_x, min_y, max_x, max_y`.
pub open spec fn box_le(b: BoxI32) -> Seq<u8> {
    i32_le(b.min_x) + i32_le(b.min_y) + i32_le(b.max_x) + i32_le(b.max_y)
}

/// The bytes of a sequence of boxes, one after another.
pub open spec fn boxes_le(s: Seq<BoxI32>) -> Seq<u8>
    decreases s.len(),
{
    if s.len() == 0 {
        Seq::empty()
    } else {
        boxes_le(s.drop_last()) + box_le(s.last())
    }
}

/// The bytes of a sequence of `u32`, one after another.
pub open spec fn u32s_le(s: Seq<u32>) -> Seq<u8>
    decreases s.len(),
{
    if s.len() == 0 {
        Seq::empty()
    } else {
        u32s_le(s.drop_last()) + u32_le(s.last())
    }
}

/// Four bytes read back give the value written.
pub proof fn lemma_u32_round_trip(v: u32)
    ensures
        u32_at(u32_le(v), 0) == v,
{
    let b = u32_le(v);
    assert(u32_of(
        (v & 0xFFu32) as u8,
        ((v >> 8u32) & 0xFFu32) as u8,
        ((v >> 16u32) & 0xFFu32) as u8,
        ((v >> 24u32) & 0xFFu32) as u8,
    ) == v) by (bit_vector);
}

/// An `i32` read back through its `u32` bits is the value written.
pub proof fn lemma_i32_round_trip(v: i32)
    ensures
        (u32_at(i32_le(v), 0) as i32) == v,
{
    lemma_u32_round_trip(v as u32);
    assert(((v as u32) as i32) == v) by (bit_vector);
}

/// Lengths of the encodings.
pub proof fn lemma_lengths(bs: Seq<BoxI32>, us: Seq<u32>)
    ensures
        boxes_le(bs).len() == 16 * bs.len(),
        u32s_le(us).len() == 4 * us.len(),
    decreases bs.len() + us.len(),
{
    if bs.len() > 0 {
        lemma_lengths(bs.drop_last(), us);
    }
    if us.len() > 0 {
        lemma_lengths(bs, us.drop_last());
    }
}

/// Byte `16 i + j` of a box sequence is byte `j` of box `i`.
pub proof fn lemma_boxes_index(s: Seq<BoxI32>, i: int, j: int)
    requires
        0 <= i < s.len(),
        0 <= j < 16,
    ensures
        boxes_le(s)[16 * i + j] == box_le(s[i])[j],
    decreases s.len(),
{
    lemma_lengths(s.drop_last(), Seq::empty());
    if i < s.len() - 1 {
        lemma_boxes_index(s.drop_last(), i, j);
    }
}

/// Byte `4 i + j` of a `u32` sequence is byte `j` of entry `i`.
pub proof fn lemma_u32s_index(s: Seq<u32>, i: int, j: int)
    requires
        0 <= i < s.len(),
        0 <= j < 4,
    ensures
        u32s_le(s)[4 * i + j] == u32_le(s[i])[j],
    decreases s.len(),
{
    lemma_lengths(Seq::empty(), s.drop_last());
    if i < s.len() - 1 {
        lemma_u32s_index(s.drop_last(), i, j);
    }
}

/// Appends the four little-endian bytes of `v`.
pub fn push_u32(out: &mut Vec<u8>, v: u32)
    ensures
        final(out)@ == old(out)@ + u32_le(v),
{
    out.push((v & 0xFF) as u8);
    out.push(((v >> 8u32) & 0xFF) as u8);
    out.push(((v >> 16u32) & 0xFF) as u8);
    out.push(((v >> 24u32) & 0xFF) as u8);
    assert(final(out)@ =~= old(out)@ + u32_le(v));
}

/// Appends the sixteen bytes of a box.
pub fn push_box(out: &mut Vec<u8>, b: &BoxI32)
    ensures
        final(out)@ == old(out)@ + box_le(*b),
{
    push_u32(out, b.min_x as u32);
    push_u32(out, b.min_y as u32);
    push_u32(out, b.max_x as u32);
    push_u32(out, b.max_y as u32);
    assert(final(out)@ =~= old(out)@ + box_le(*b));
}

/// Appends the bytes of each box in turn.
pub fn push_boxes(out: &mut Vec<u8>, bs: &Vec<BoxI32>)
    ensures
        final(out)@ == old(out)@ + boxes_le(bs@),
{
    let mut i: usize = 0;
    while i < bs.len()
        invariant
            i <= bs@.len(),
            out@ == old(out)@ + boxes_le(bs@.subrange(0, i as int)),
        decreases bs@.len() - i,
    {
        push_box(out, &bs[i]);
        proof {
            assert(bs@.subrange(0, i + 1).drop_last() =~= bs@.subrange(0, i as int));
        }
        i = i + 1;
        assert(out@ =~= old(out)@ + boxes_le(bs@.subrange(0, i as int)));
    }
    assert(bs@.subrange(0, bs@.len() as int) =~= bs@);
}

/// Appends the bytes of each `u32` in turn.
pub fn push_u32s(out: &mut Vec<u8>, us: &Vec<u32>)
    ensures
        final(out)@ == old(out)@ + u32s_le(us@),
{
    let mut i: usize = 0;
    while i < us.len()
        invariant
            i <= us@.len(),
            out@ == old(out)@ + u32s_le(us@.subrange(0, i as int)),
        decreases us@.len() - i,
    {
        push_u32(out, us[i]);
        proof {
            assert(us@.subrange(0, i + 1).drop_last() =~= us@.subrange(0, i as int));
        }
        i = i + 1;
        assert(out@ =~= old(out)@ + u32s_le(us@.subrange(0, i as int)));
    }
    assert(us@.subrange(0, us@.len() as int) =~= us@);
}

/// The `u32` stored at `off`.
pub fn read_u32(bytes: &Vec<u8>, off: usize) -> (r: u32)
    requires
        off + 4 <= bytes@.len(),
    ensures
        r == u32_at(bytes@, off as int),
{
    let _len = bytes.len();
    (bytes[off] as u32) | ((bytes[off + 1] as u32) << 8u32) | ((bytes[off + 2] as u32) << 16u32) | ((
    bytes[off + 3] as u32) << 24u32)
}

} // verus!
