//! Hilbert curve encoding of cells of the 65536 x 65536 lattice.
use vstd::prelude::*;

verus! {

/// The low 16 bits of `x` spread to the even bit positions.
pub open spec fn spread_spec(x: u32) -> u32 {
    let x1 = (x | (x << 8u32)) & 0x00FF00FFu32;
    let x2 = (x1 | (x1 << 4u32)) & 0x0F0F0F0Fu32;
    let x3 = (x2 | (x2 << 2u32)) & 0x33333333u32;
    (x3 | (x3 << 1u32)) & 0x55555555u32
}

/// Bit `i` of `x`.
pub open spec fn bit(x: u32, i: u32) -> u32 {
    (x >> i) & 1u32
}

/// Spreads the 16 low bits of `x` so that bit `i` lands on bit `2 i`; odd bits are zero.
pub fn interleave(x: u32) -> (r: u32)
    requires
        x < 0x10000,
    ensures
        r == spread_spec(x),
        forall|i: u32| i < 16 ==> #[trigger] bit(r, (2 * i) as u32) == bit(x, i),
        forall|i: u32| i < 16 ==> #[trigger] bit(r, (2 * i + 1) as u32) == 0,
{
    let mut v = x;
    v = (v | (v << 8u32)) & 0x00FF00FFu32;
    v = (v | (v << 4u32)) & 0x0F0F0F0Fu32;
    v = (v | (v << 2u32)) & 0x33333333u32;
    v = (v | (v << 1u32)) & 0x55555555u32;
    proof {
        assert(forall|i: u32| i < 16 ==> #[trigger] bit(spread_spec(x), (2 * i) as u32) == bit(x, i)) by (bit_vector)
            requires x < 0x10000u32;
        assert(forall|i: u32| i < 16 ==> #[trigger] bit(spread_spec(x), (2 * i + 1) as u32) == 0) by (bit_vector)
            requires x < 0x10000u32;
    }
    v
}

/// Hilbert curve index of lattice cell `(x, y)`, by the branchless prefix-scan derivation:
/// four rounds on the paired masks `a, b, c, d`, then the index bits recovered by
/// interleaving.
pub open spec fn hilbert_code(x: u32, y: u32) -> u32 {
    let a0 = x ^ y;
    let b0 = 0xFFFFu32 ^ a0;
    let c0 = 0xFFFFu32 ^ (x | y);
    let d0 = x & (y ^ 0xFFFFu32);
    let a1 = a0 | (b0 >> 1u32);
    let b1 = (a0 >> 1u32) ^ a0;
    let c1 = ((c0 >> 1u32) ^ (b0 & (d0 >> 1u32))) ^ c0;
    let d1 = ((a0 & (c0 >> 1u32)) ^ (d0 >> 1u32)) ^ d0;
    let a2 = (a1 & (a1 >> 2u32)) ^ (b1 & (b1 >> 2u32));
    let b2 = (a1 & (b1 >> 2u32)) ^ (b1 & ((a1 ^ b1) >> 2u32));
    let c2 = c1 ^ ((a1 & (c1 >> 2u32)) ^ (b1 & (d1 >> 2u32)));
    let d2 = d1 ^ ((b1 & (c1 >> 2u32)) ^ ((a1 ^ b1) & (d1 >> 2u32)));
    let a3 = (a2 & (a2 >> 4u32)) ^ (b2 & (b2 >> 4u32));
    let b3 = (a2 & (b2 >> 4u32)) ^ (b2 & ((a2 ^ b2) >> 4u32));
    let c3 = c2 ^ ((a2 & (c2 >> 4u32)) ^ (b2 & (d2 >> 4u32)));
    let d3 = d2 ^ ((b2 & (c2 >> 4u32)) ^ ((a2 ^ b2) & (d2 >> 4u32)));
    let c4 = c3 ^ ((a3 & (c3 >> 8u32)) ^ (b3 & (d3 >> 8u32)));
    let d4 = d3 ^ ((b3 & (c3 >> 8u32)) ^ ((a3 ^ b3) & (d3 >> 8u32)));
    let a5 = c4 ^ (c4 >> 1u32);
    let b5 = d4 ^ (d4 >> 1u32);
    let i0 = x ^ y;
    let i1 = b5 | (0xFFFFu32 ^ (i0 | a5));
    (spread_spec(i1 & 0xFFFFu32) << 1u32) | spread_spec(i0)
}

/// Index of cell `(x, y)` along the Hilbert curve of order 16.
pub fn hilbert_xy_to_index(x: u32, y: u32) -> (r: u32)
    requires
        x < 0x10000,
        y < 0x10000,
    ensures
        r == hilbert_code(x, y),
{
    let mut a = x ^ y;
    let mut b = 0xFFFFu32 ^ a;
    let mut c = 0xFFFFu32 ^ (x | y);
    let mut d = x & (y ^ 0xFFFFu32);
    let mut a_next = a | (b >> 1u32);
    let mut b_next = (a >> 1u32) ^ a;
    let mut c_next = ((c >> 1u32) ^ (b & (d >> 1u32))) ^ c;
    let mut d_next = ((a & (c >> 1u32)) ^ (d >> 1u32)) ^ d;

    a = a_next;
    b = b_next;
    c = c_next;
    d = d_next;
    a_next = (a & (a >> 2u32)) ^ (b & (b >> 2u32));
    b_next = (a & (b >> 2u32)) ^ (b & ((a ^ b) >> 2u32));
    c_next = c_next ^ ((a & (c >> 2u32)) ^ (b & (d >> 2u32)));
    d_next = d_next ^ ((b & (c >> 2u32)) ^ ((a ^ b) & (d >> 2u32)));

    a = a_next;
    b = b_next;
    c = c_next;
    d = d_next;
    a_next = (a & (a >> 4u32)) ^ (b & (b >> 4u32));
    b_next = (a & (b >> 4u32)) ^ (b & ((a ^ b) >> 4u32));
    c_next = c_next ^ ((a & (c >> 4u32)) ^ (b & (d >> 4u32)));
    d_next = d_next ^ ((b & (c >> 4u32)) ^ ((a ^ b) & (d >> 4u32)));

    // final round: only the c and d masks are needed
    a = a_next;
    b = b_next;
    c = c_next;
    d = d_next;
    c_next = c_next ^ ((a & (c >> 8u32)) ^ (b & (d >> 8u32)));
    d_next = d_next ^ ((b & (c >> 8u32)) ^ ((a ^ b) & (d >> 8u32)));

    // undo the prefix scan
    a = c_next ^ (c_next >> 1u32);
    b = d_next ^ (d_next >> 1u32);

    let i0 = x ^ y;
    let i1 = b | (0xFFFFu32 ^ (i0 | a));
    proof {
        assert((x ^ y) < 0x10000u32) by (bit_vector)
            requires x < 0x10000u32, y < 0x10000u32;
        assert((i1 & 0xFFFFu32) < 0x10000u32) by (bit_vector);
    }
    (interleave(i1 & 0xFFFFu32) << 1u32) | interleave(i0)
}

} // verus!
