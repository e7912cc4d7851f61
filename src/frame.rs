//! The layout of a saved tree file: magic, version, fanout, item count, node count, the
//! level ends, the global bounds as raw coordinate bytes, then the length and bytes of the
//! packed buffer; all integers are little-endian `u32`.
use vstd::prelude::*;
use crate::bytes::{
    lemma_lengths,
    lemma_u32s_index,
    push_u32,
    push_u32s,
    read_u32,
    u32_at,
    u32_le,
    u32s_le,
};
use crate::image::lemma_read_back;

verus! {

/// First byte of every saved tree and of its packed buffer.
pub const MAGIC: u8 = 0xFB;

/// The fields of a saved tree; the bounds are kept as the bytes of their coordinates.
pub struct SavedParts {
    pub node_size: u32,
    pub num_items: u32,
    pub total_nodes: u32,
    pub level_bounds: Vec<u32>,
    pub bounds: Vec<u8>,
    pub data: Vec<u8>,
}

/// Why a saved tree file could not be read.
#[derive(Clone, Copy, Debug, PartialEq, Eq, Structural)]
pub enum FrameError {
    /// The magic or version byte is wrong.
    InvalidData,
    /// The bytes end before the fields they announce.
    Truncated,
}

/// The bytes of a saved tree with the given fields.
pub open spec fn frame_of(
    version: u8,
    node_size: u32,
    num_items: u32,
    total_nodes: u32,
    level_bounds: Seq<u32>,
    bounds: Seq<u8>,
    data: Seq<u8>,
) -> Seq<u8> {
    seq![MAGIC, version] + u32_le(node_size) + u32_le(num_items) + u32_le(total_nodes) + u32_le(
        level_bounds.len() as u32,
    ) + u32s_le(level_bounds) + bounds + u32_le(data.len() as u32) + data
}

impl SavedParts {
    /// The bytes of this file.
    pub open spec fn frame(&self, version: u8) -> Seq<u8> {
        frame_of(
            version,
            self.node_size,
            self.num_items,
            self.total_nodes,
            self.level_bounds@,
            self.bounds@,
            self.data@,
        )
    }
}

/// `p` is the start of `s`.
pub open spec fn is_prefix(p: Seq<u8>, s: Seq<u8>) -> bool {
    p.len() <= s.len() && s.subrange(0, p.len() as int) == p
}

/// Writes the fields of a saved tree.
pub fn encode_frame(version: u8, parts: &SavedParts) -> (r: Vec<u8>)
    requires
        parts.level_bounds@.len() <= u32::MAX,
        parts.data@.len() <= u32::MAX,
    ensures
        r@ == parts.frame(version),
{
    let mut out: Vec<u8> = Vec::new();
    out.push(MAGIC);
    out.push(version);
    push_u32(&mut out, parts.node_size);
    push_u32(&mut out, parts.num_items);
    push_u32(&mut out, parts.total_nodes);
    push_u32(&mut out, parts.level_bounds.len() as u32);
    push_u32s(&mut out, &parts.level_bounds);
    append_bytes(&mut out, &parts.bounds);
    push_u32(&mut out, parts.data.len() as u32);
    append_bytes(&mut out, &parts.data);
    assert(out@ =~= parts.frame(version));
    out
}

/// Appends every byte of `b`.
fn append_bytes(out: &mut Vec<u8>, b: &Vec<u8>)
    ensures
        final(out)@ == old(out)@ + b@,
{
    let mut i: usize = 0;
    while i < b.len()
        invariant
            i <= b@.len(),
            out@ == old(out)@ + b@.subrange(0, i as int),
        decreases b@.len() - i,
    {
        out.push(b[i]);
        i = i + 1;
        assert(out@ =~= old(out)@ + b@.subrange(0, i as int));
    }
    assert(b@.subrange(0, b@.len() as int) =~= b@);
}

/// The bytes `s[from..from + len]`.
fn copy_range(s: &Vec<u8>, from: usize, len: usize) -> (r: Vec<u8>)
    requires
        from + len <= s@.len(),
    ensures
        r@ == s@.subrange(from as int, from + len),
{
    let _total = s.len();
    let mut r: Vec<u8> = Vec::with_capacity(len);
    let mut i: usize = 0;
    while i < len
        invariant
            from + len <= s@.len(),
            s@.len() <= usize::MAX,
            i <= len,
            r@ == s@.subrange(from as int, from + i),
        decreases len - i,
    {
        r.push(s[from + i]);
        i = i + 1;
        assert(r@ =~= s@.subrange(from as int, from + i));
    }
    r
}

/// Reads the fields of a saved tree whose version byte is `version` and whose bounds take
/// `bounds_len` bytes. A wrong magic byte, or else a wrong version byte, gives
/// `InvalidData`; bytes that end early give `Truncated`. Bytes after the packed buffer
/// are not read.
pub fn decode_frame(bytes: &Vec<u8>, version: u8, bounds_len: usize) -> (r: Result<SavedParts, FrameError>)
    ensures
        r is Ok ==> r->Ok_0.bounds@.len() == bounds_len && is_prefix(r->Ok_0.frame(version), bytes@),
        r == Err::<SavedParts, FrameError>(FrameError::InvalidData) <==> ((bytes@.len() >= 1
            && bytes@[0] != MAGIC) || (bytes@.len() >= 2 && bytes@[0] == MAGIC && bytes@[1]
            != version)),
        forall|ns: u32, n: u32, t: u32, lb: Seq<u32>, bd: Seq<u8>, data: Seq<u8>|
            bd.len() == bounds_len && lb.len() <= u32::MAX && data.len() <= u32::MAX && #[trigger] is_prefix(
                frame_of(version, ns, n, t, lb, bd, data),
                bytes@,
            ) ==> r is Ok && r->Ok_0.node_size == ns && r->Ok_0.num_items == n && r->Ok_0.total_nodes
                == t && r->Ok_0.level_bounds@ == lb && r->Ok_0.bounds@ == bd && r->Ok_0.data@ == data,
{
    proof {
        lemma_frame_shape(bytes@, version, bounds_len as int);
    }
    let len = bytes.len();
    if len >= 1 && bytes[0] != MAGIC {
        return Err(FrameError::InvalidData);
    }
    if len >= 2 && bytes[1] != version {
        return Err(FrameError::InvalidData);
    }
    if len < 18 {
        return Err(FrameError::Truncated);
    }
    let node_size = read_u32(bytes, 2);
    let num_items = read_u32(bytes, 6);
    let total_nodes = read_u32(bytes, 10);
    let count = read_u32(bytes, 14) as usize;
    if count > (len - 18) / 4 {
        return Err(FrameError::Truncated);
    }
    let mut level_bounds: Vec<u32> = Vec::with_capacity(count);
    let mut i: usize = 0;
    while i < count
        invariant
            bytes@.len() == len,
            18 + 4 * count <= len,
            i <= count,
            level_bounds@.len() == i,
            forall|j: int| 0 <= j < i ==> #[trigger] level_bounds@[j] == u32_at(bytes@, 18 + 4 * j),
        decreases count - i,
    {
        level_bounds.push(read_u32(bytes, 18 + 4 * i));
        i = i + 1;
    }
    let at = 18 + 4 * count;
    if bounds_len > len - at || 4 > len - at - bounds_len {
        return Err(FrameError::Truncated);
    }
    let bounds = copy_range(bytes, at, bounds_len);
    let data_len = read_u32(bytes, at + bounds_len) as usize;
    let start = at + bounds_len + 4;
    if data_len > len - start {
        return Err(FrameError::Truncated);
    }
    let data = copy_range(bytes, start, data_len);
    proof {
        lemma_decoded(bytes@, version, node_size, num_items, total_nodes, level_bounds@, bounds@, data@);
    }
    Ok(SavedParts { node_size, num_items, total_nodes, level_bounds, bounds, data })
}

/// The four bytes at `off` are those of the value read there.
proof fn lemma_u32_bytes(s: Seq<u8>, off: int)
    requires
        0 <= off,
        off + 4 <= s.len(),
    ensures
        s.subrange(off, off + 4) == u32_le(u32_at(s, off)),
{
    let (b0, b1, b2, b3) = (s[off], s[off + 1], s[off + 2], s[off + 3]);
    let v = u32_at(s, off);
    assert(((v & 0xFFu32) as u8) == b0 && (((v >> 8u32) & 0xFFu32) as u8) == b1 && (((v >> 16u32)
        & 0xFFu32) as u8) == b2 && (((v >> 24u32) & 0xFFu32) as u8) == b3) by (bit_vector)
        requires
            v == ((b0 as u32) | ((b1 as u32) << 8u32) | ((b2 as u32) << 16u32) | ((b3 as u32) << 24u32)),
    ;
    assert(s.subrange(off, off + 4) =~= u32_le(v));
}

/// Every frame at the start of `bytes` has the length its stored counts announce.
proof fn lemma_frame_shape(bytes: Seq<u8>, version: u8, bounds_len: int)
    ensures
        forall|ns: u32, n: u32, t: u32, lb: Seq<u32>, bd: Seq<u8>, data: Seq<u8>|
            bd.len() == bounds_len && lb.len() <= u32::MAX && data.len() <= u32::MAX && #[trigger] is_prefix(
                frame_of(version, ns, n, t, lb, bd, data),
                bytes,
            ) ==> {
                &&& bytes[0] == MAGIC
                &&& bytes[1] == version
                &&& bytes.len() >= 22 + 4 * lb.len() + bounds_len + data.len()
                &&& u32_at(bytes, 14) == lb.len()
                &&& u32_at(bytes, 18 + 4 * lb.len() + bounds_len) == data.len()
            },
{
    assert forall|ns: u32, n: u32, t: u32, lb: Seq<u32>, bd: Seq<u8>, data: Seq<u8>|
        bd.len() == bounds_len && lb.len() <= u32::MAX && data.len() <= u32::MAX && #[trigger] is_prefix(
            frame_of(version, ns, n, t, lb, bd, data),
            bytes,
        ) implies {
            &&& bytes[0] == MAGIC
            &&& bytes[1] == version
            &&& bytes.len() >= 22 + 4 * lb.len() + bounds_len + data.len()
            &&& u32_at(bytes, 14) == lb.len()
            &&& u32_at(bytes, 18 + 4 * lb.len() + bounds_len) == data.len()
        } by {
        lemma_frame_facts(bytes, version, ns, n, t, lb, bd, data);
    }
}

/// The fields read from `bytes` form a frame at its start, and any frame there has them.
proof fn lemma_decoded(
    bytes: Seq<u8>,
    version: u8,
    ns: u32,
    n: u32,
    t: u32,
    lbv: Seq<u32>,
    bdv: Seq<u8>,
    datav: Seq<u8>,
)
    requires
        bytes.len() >= 22 + 4 * lbv.len() + bdv.len() + datav.len(),
        lbv.len() <= u32::MAX,
        datav.len() <= u32::MAX,
        bytes[0] == MAGIC,
        bytes[1] == version,
        u32_at(bytes, 2) == ns,
        u32_at(bytes, 6) == n,
        u32_at(bytes, 10) == t,
        u32_at(bytes, 14) == lbv.len(),
        forall|j: int| 0 <= j < lbv.len() ==> #[trigger] lbv[j] == u32_at(bytes, 18 + 4 * j),
        bdv == bytes.subrange(18 + 4 * lbv.len() as int, 18 + 4 * lbv.len() + bdv.len() as int),
        u32_at(bytes, 18 + 4 * lbv.len() + bdv.len() as int) == datav.len(),
        datav == bytes.subrange(
            22 + 4 * lbv.len() + bdv.len() as int,
            22 + 4 * lbv.len() + bdv.len() + datav.len() as int,
        ),
    ensures
        is_prefix(frame_of(version, ns, n, t, lbv, bdv, datav), bytes),
        forall|ns2: u32, n2: u32, t2: u32, lb: Seq<u32>, bd: Seq<u8>, data: Seq<u8>|
            bd.len() == bdv.len() && lb.len() <= u32::MAX && data.len() <= u32::MAX && #[trigger] is_prefix(
                frame_of(version, ns2, n2, t2, lb, bd, data),
                bytes,
            ) ==> ns2 == ns && n2 == n && t2 == t && lb == lbv && bd == bdv && data == datav,
{
    let l = lbv.len() as int;
    let at = 18 + 4 * l;
    lemma_lengths(Seq::empty(), lbv);
    assert forall|j: int| 0 <= j < l implies #[trigger] u32s_le(lbv).subrange(4 * j, 4 * j + 4) == bytes.subrange(18 + 4 * j, 18 + 4 * j + 4) by {
        let v = lbv[j];
        assert forall|k: int| 0 <= k < 4 implies u32s_le(lbv)[4 * j + k] == u32_le(v)[k] by {
            lemma_u32s_index(lbv, j, k);
        }
        lemma_u32_bytes(bytes, 18 + 4 * j);
        assert(u32s_le(lbv).subrange(4 * j, 4 * j + 4) =~= u32_le(v));
    }
    lemma_u32_bytes(bytes, 2);
    lemma_u32_bytes(bytes, 6);
    lemma_u32_bytes(bytes, 10);
    lemma_u32_bytes(bytes, 14);
    lemma_u32_bytes(bytes, at + bdv.len());
    let f = frame_of(version, ns, n, t, lbv, bdv, datav);
    assert(f.len() == 22 + 4 * l + bdv.len() + datav.len());
    assert forall|k: int| 0 <= k < f.len() implies #[trigger] f[k] == bytes[k] by {
        if 18 <= k < at {
            let j = (k - 18) / 4;
            assert(u32s_le(lbv).subrange(4 * j, 4 * j + 4)[k - 18 - 4 * j] == bytes.subrange(
                18 + 4 * j,
                18 + 4 * j + 4,
            )[k - 18 - 4 * j]);
        }
    }
    assert(bytes.subrange(0, f.len() as int) =~= f);
    assert forall|ns2: u32, n2: u32, t2: u32, lb: Seq<u32>, bd: Seq<u8>, data: Seq<u8>|
        bd.len() == bdv.len() && lb.len() <= u32::MAX && data.len() <= u32::MAX && #[trigger] is_prefix(
            frame_of(version, ns2, n2, t2, lb, bd, data),
            bytes,
        ) implies ns2 == ns && n2 == n && t2 == t && lb == lbv && bd == bdv && data == datav by {
        lemma_frame_facts(bytes, version, ns2, n2, t2, lb, bd, data);
        assert(lb =~= lbv);
    }
}

/// What a frame at the start of `bytes` fixes: its length and where each field is read.
proof fn lemma_frame_facts(
    bytes: Seq<u8>,
    version: u8,
    ns: u32,
    n: u32,
    t: u32,
    lb: Seq<u32>,
    bd: Seq<u8>,
    data: Seq<u8>,
)
    requires
        lb.len() <= u32::MAX,
        data.len() <= u32::MAX,
        is_prefix(frame_of(version, ns, n, t, lb, bd, data), bytes),
    ensures
        frame_of(version, ns, n, t, lb, bd, data).len() == 22 + 4 * lb.len() + bd.len() + data.len(),
        bytes[0] == MAGIC,
        bytes[1] == version,
        u32_at(bytes, 2) == ns,
        u32_at(bytes, 6) == n,
        u32_at(bytes, 10) == t,
        u32_at(bytes, 14) == lb.len(),
        forall|j: int| 0 <= j < lb.len() ==> #[trigger] u32_at(bytes, 18 + 4 * j) == lb[j],
        bytes.subrange(18 + 4 * lb.len() as int, 18 + 4 * lb.len() + bd.len() as int) == bd,
        u32_at(bytes, 18 + 4 * lb.len() + bd.len() as int) == data.len(),
        bytes.subrange(22 + 4 * lb.len() + bd.len() as int, 22 + 4 * lb.len() + bd.len() + data.len() as int)
            == data,
{
    let f = frame_of(version, ns, n, t, lb, bd, data);
    lemma_lengths(Seq::empty(), lb);
    let l = lb.len() as int;
    let at = 18 + 4 * l;
    let ds = at + bd.len() as int + 4;
    assert(f.len() == 22 + 4 * l + bd.len() + data.len());
    assert forall|k: int| 0 <= k < f.len() implies #[trigger] bytes[k] == f[k] by {
        assert(bytes.subrange(0, f.len() as int)[k] == bytes[k]);
    }
    assert forall|j: int| 0 <= j < 4 implies #[trigger] bytes[2 + j] == u32_le(ns)[j] by {
        assert(bytes[2 + j] == f[2 + j]);
    }
    assert forall|j: int| 0 <= j < 4 implies #[trigger] bytes[6 + j] == u32_le(n)[j] by {
        assert(bytes[6 + j] == f[6 + j]);
    }
    assert forall|j: int| 0 <= j < 4 implies #[trigger] bytes[10 + j] == u32_le(t)[j] by {
        assert(bytes[10 + j] == f[10 + j]);
    }
    assert forall|j: int| 0 <= j < 4 implies #[trigger] bytes[14 + j] == u32_le(l as u32)[j] by {
        assert(bytes[14 + j] == f[14 + j]);
    }
    assert(bytes[0] == f[0]);
    assert(bytes[1] == f[1]);
    lemma_read_back(bytes, 2, ns);
    lemma_read_back(bytes, 6, n);
    lemma_read_back(bytes, 10, t);
    lemma_read_back(bytes, 14, l as u32);
    assert forall|j: int| 0 <= j < l implies #[trigger] u32_at(bytes, 18 + 4 * j) == lb[j] by {
        assert forall|k: int| 0 <= k < 4 implies #[trigger] bytes[18 + 4 * j + k] == u32_le(lb[j])[k] by {
            lemma_u32s_index(lb, j, k);
            assert(bytes[18 + 4 * j + k] == f[18 + 4 * j + k]);
        }
        lemma_read_back(bytes, 18 + 4 * j, lb[j]);
    }
    assert(bytes.subrange(at, at + bd.len()) =~= bd) by {
        assert forall|k: int| 0 <= k < bd.len() implies bytes.subrange(at, at + bd.len())[k] == bd[k] by {
            assert(bytes[at + k] == f[at + k]);
        }
    }
    assert forall|j: int| 0 <= j < 4 implies #[trigger] bytes[at + bd.len() + j] == u32_le(data.len() as u32)[j] by {
        assert(bytes[at + bd.len() + j] == f[at + bd.len() + j]);
    }
    lemma_read_back(bytes, at + bd.len(), data.len() as u32);
    assert(bytes.subrange(ds, ds + data.len()) =~= data) by {
        assert forall|k: int| 0 <= k < data.len() implies bytes.subrange(ds, ds + data.len())[k] == data[k] by {
            assert(bytes[ds + k] == f[ds + k]);
        }
    }
}

} // verus!
