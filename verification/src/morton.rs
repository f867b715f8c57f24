//! Morton (Z-order) indexing for the 16×16×16 sub-chunk.
//!
//! Each coordinate is 4 bits (`0..=15`); the interleaved index is 12 bits
//! (`0..=4095`). The interleave order is `x` in bit 0, `y` in bit 1, `z` in
//! bit 2, repeating.

use vstd::prelude::*;

verus! {

/// Places the low four bits of `v` at bit positions 0, 3, 6 and 9.
pub open spec fn spread4(v: u16) -> u16 {
    (v & 1) | ((v & 2) << 2u16) | ((v & 4) << 4u16) | ((v & 8) << 6u16)
}

/// Gathers the bits at positions 0, 3, 6 and 9 back into the low four bits.
pub open spec fn gather4(v: u16) -> u16 {
    (v & 1) | ((v >> 2u16) & 2) | ((v >> 4u16) & 4) | ((v >> 6u16) & 8)
}

/// The Morton index of `(x, y, z)`, using the low nibble of each coordinate.
pub open spec fn morton_spec(x: u8, y: u8, z: u8) -> u16 {
    spread4((x & 15) as u16) | (spread4((y & 15) as u16) << 1u16) | (spread4((z & 15) as u16) << 2u16)
}

/// The coordinates encoded by a Morton index (only its low 12 bits count).
pub open spec fn morton_decode_spec(index: u16) -> (u8, u8, u8) {
    (gather4(index) as u8, gather4(index >> 1u16) as u8, gather4(index >> 2u16) as u8)
}

/// Spread the low 4 bits of `v` so bit `i` lands at position `3·i`.
fn part_1_by_2(v: u16) -> (r: u16)
    ensures
        r == spread4(v & 15),
        r < 0x1000,
{
    let mut x = v & 0x000f;
    x = (x | (x << 8u16)) & 0x100f;
    x = (x | (x << 4u16)) & 0x10c3;
    x = (x | (x << 2u16)) & 0x1249;
    assert(x == spread4(v & 15) && x < 0x1000) by (bit_vector)
        requires
            x == ((((((v & 0x000f) | ((v & 0x000f) << 8u16)) & 0x100f) | (((((v & 0x000f) | ((v & 0x000f) << 8u16)) & 0x100f)) << 4u16)) & 0x10c3) | ((((((v & 0x000f) | ((v & 0x000f) << 8u16)) & 0x100f) | (((((v & 0x000f) | ((v & 0x000f) << 8u16)) & 0x100f)) << 4u16)) & 0x10c3) << 2u16)) & 0x1249,
    ;
    x
}

/// Inverse of [`part_1_by_2`]: gather bits at positions `3·i` back into the low 4.
fn compact_1_by_2(v: u16) -> (r: u16)
    ensures
        r == gather4(v),
        r < 16,
{
    let mut x = v & 0x1249;
    x = (x | (x >> 2u16)) & 0x10c3;
    x = (x | (x >> 4u16)) & 0x100f;
    x = (x | (x >> 8u16)) & 0x000f;
    assert(x == gather4(v) && x < 16) by (bit_vector)
        requires
            x == ((((((v & 0x1249) | ((v & 0x1249) >> 2u16)) & 0x10c3) | (((((v & 0x1249) | ((v & 0x1249) >> 2u16)) & 0x10c3)) >> 4u16)) & 0x100f) | ((((((v & 0x1249) | ((v & 0x1249) >> 2u16)) & 0x10c3) | (((((v & 0x1249) | ((v & 0x1249) >> 2u16)) & 0x10c3)) >> 4u16)) & 0x100f) >> 8u16)) & 0x000f,
    ;
    x
}

/// Encode a `(x, y, z)` position inside a sub-chunk (each `0..=15`) into a
/// 12-bit Morton index (`0..=4095`). Higher coordinate bits are ignored.
pub fn morton_encode_16(x: u8, y: u8, z: u8) -> (r: u16)
    ensures
        r == morton_spec(x, y, z),
        r < 4096,
{
    let px = part_1_by_2(x as u16);
    let py = part_1_by_2(y as u16);
    let pz = part_1_by_2(z as u16);
    assert((x as u16) & 15 == (x & 15) as u16) by (bit_vector);
    assert((y as u16) & 15 == (y & 15) as u16) by (bit_vector);
    assert((z as u16) & 15 == (z & 15) as u16) by (bit_vector);
    let r = px | (py << 1u16) | (pz << 2u16);
    assert(r < 4096) by (bit_vector)
        requires
            px < 0x1000 && py < 0x1000 && pz < 0x1000,
            px == spread4(x as u16 & 15),
            py == spread4(y as u16 & 15),
            pz == spread4(z as u16 & 15),
            r == px | (py << 1u16) | (pz << 2u16),
    ;
    r
}

/// Decode a 12-bit Morton index back into its `(x, y, z)` position.
pub fn morton_decode_16(index: u16) -> (r: (u8, u8, u8))
    ensures
        r == morton_decode_spec(index),
        r.0 < 16 && r.1 < 16 && r.2 < 16,
{
    let x = compact_1_by_2(index) as u8;
    let y = compact_1_by_2(index >> 1u16) as u8;
    let z = compact_1_by_2(index >> 2u16) as u8;
    (x, y, z)
}

/// Decoding an encoded position gives the position back: every in-range
/// `(x, y, z)` survives the round trip.
pub proof fn lemma_morton_decode_encode(x: u8, y: u8, z: u8)
    requires
        x < 16,
        y < 16,
        z < 16,
    ensures
        morton_decode_spec(morton_spec(x, y, z)) == (x, y, z),
        morton_spec(x, y, z) < 4096,
{
    let m = morton_spec(x, y, z);
    assert(gather4(m) as u8 == x && gather4(m >> 1u16) as u8 == y && gather4(m >> 2u16) as u8 == z
        && m < 4096) by (bit_vector)
        requires
            x < 16 && y < 16 && z < 16,
            m == spread4((x & 15) as u16) | (spread4((y & 15) as u16) << 1u16) | (spread4((z & 15) as u16) << 2u16),
    ;
}

/// Encoding a decoded index gives the index back: the map is a bijection
/// between `0..4096` and the 16³ positions.
pub proof fn lemma_morton_encode_decode(index: u16)
    requires
        index < 4096,
    ensures
        morton_spec(morton_decode_spec(index).0, morton_decode_spec(index).1, morton_decode_spec(index).2) == index,
{
    let d = morton_decode_spec(index);
    let (x, y, z) = (d.0, d.1, d.2);
    assert(spread4((x & 15) as u16) | (spread4((y & 15) as u16) << 1u16) | (spread4((z & 15) as u16) << 2u16) == index) by (bit_vector)
        requires
            index < 4096,
            x == gather4(index) as u8,
            y == gather4(index >> 1u16) as u8,
            z == gather4(index >> 2u16) as u8,
    ;
}

} // verus!
