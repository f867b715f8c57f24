//! The AVX-Cell — a 4×4×2 = 32-block box of `u16` payloads (64 bytes).

use vstd::prelude::*;

verus! {

/// 4×4×2 block of `BlockStateId` payloads.
#[derive(Clone, Copy, Debug, PartialEq, Eq)]
pub struct AvxCell {
    blocks: [u16; 32],
}

/// Row-major local index of `(x, y, z)` within a cell.
pub open spec fn cell_index(x: int, y: int, z: int) -> int {
    (z * 2 + y) * 4 + x
}

impl AvxCell {
    /// Blocks along X within a cell.
    pub const DIM_X: usize = 4;
    /// Blocks along Y within a cell.
    pub const DIM_Y: usize = 2;
    /// Blocks along Z within a cell.
    pub const DIM_Z: usize = 4;
    /// Total blocks in a cell.
    pub const LEN: usize = 32;

    /// The 32 payloads in local-index order.
    pub closed spec fn payloads(&self) -> Seq<u16> {
        self.blocks@
    }

    /// A cell holds one payload per lane, 32 lanes.
    pub proof fn lemma_lanes(&self)
        ensures
            self.payloads().len() == 32,
    {
    }

    /// A write at one coordinate is read back there and leaves every other
    /// coordinate's payload as it was.
    pub proof fn lemma_set_get(
        before: &Self,
        after: &Self,
        x: int,
        y: int,
        z: int,
        value: u16,
        x2: int,
        y2: int,
        z2: int,
    )
        requires
            0 <= x < 4 && 0 <= y < 2 && 0 <= z < 4,
            0 <= x2 < 4 && 0 <= y2 < 2 && 0 <= z2 < 4,
            after.payloads() == before.payloads().update(cell_index(x, y, z), value),
        ensures
            after.payloads()[cell_index(x2, y2, z2)] == if x2 == x && y2 == y && z2 == z {
                value
            } else {
                before.payloads()[cell_index(x2, y2, z2)]
            },
    {
        before.lemma_lanes();
        lemma_cell_index_bijective(x, y, z, x2, y2, z2);
    }

    /// A cell full of the given raw payload.
    pub fn filled(value: u16) -> (c: Self)
        ensures
            c.payloads() == Seq::new(32, |_i: int| value),
    {
        let c = AvxCell { blocks: [value; 32] };
        assert(c.payloads() =~= Seq::new(32, |_i: int| value));
        c
    }

    /// An all-zero (air) cell.
    pub fn empty() -> (c: Self)
        ensures
            c.payloads() == Seq::new(32, |_i: int| 0u16),
    {
        Self::filled(0)
    }

    /// Local index of `(x, y, z)` within the cell (`x<4, y<2, z<4`).
    pub fn local_index(x: usize, y: usize, z: usize) -> (i: usize)
        requires
            x < 4,
            y < 2,
            z < 4,
        ensures
            i == cell_index(x as int, y as int, z as int),
            i < 32,
    {
        (z * 2 + y) * 4 + x
    }

    /// Read a block payload by local coordinate.
    pub fn get(&self, x: usize, y: usize, z: usize) -> (v: u16)
        requires
            x < 4,
            y < 2,
            z < 4,
        ensures
            v == self.payloads()[cell_index(x as int, y as int, z as int)],
    {
        self.blocks[Self::local_index(x, y, z)]
    }

    /// Write a block payload by local coordinate; every other payload is kept.
    pub fn set(&mut self, x: usize, y: usize, z: usize, value: u16)
        requires
            x < 4,
            y < 2,
            z < 4,
        ensures
            final(self).payloads() == old(self).payloads().update(cell_index(x as int, y as int, z as int), value),
    {
        let i = Self::local_index(x, y, z);
        self.blocks[i] = value;
    }

    /// The raw payload array.
    pub fn as_slice(&self) -> (r: &[u16; 32])
        ensures
            r@ == self.payloads(),
    {
        &self.blocks
    }
}

impl Default for AvxCell {
    fn default() -> (c: Self)
        ensures
            c.payloads() == Seq::new(32, |_i: int| 0u16),
    {
        Self::empty()
    }
}

/// The local index map is a bijection from the 4×2×4 box onto `0..32`.
pub proof fn lemma_cell_index_bijective(x1: int, y1: int, z1: int, x2: int, y2: int, z2: int)
    requires
        0 <= x1 < 4 && 0 <= y1 < 2 && 0 <= z1 < 4,
        0 <= x2 < 4 && 0 <= y2 < 2 && 0 <= z2 < 4,
    ensures
        0 <= cell_index(x1, y1, z1) < 32,
        cell_index(x1, y1, z1) == cell_index(x2, y2, z2) ==> (x1 == x2 && y1 == y2 && z1 == z2),
{
}

/// Every lane index is some cell's: `local_index` maps the 4×2×4 cell onto
/// `0..32`, so with [`lemma_cell_index_bijective`] it is a bijection.
pub proof fn lemma_cell_index_onto(i: int)
    requires
        0 <= i < 32,
    ensures
        0 <= i % 4 < 4 && 0 <= (i / 4) % 2 < 2 && 0 <= i / 8 < 4,
        cell_index(i % 4, (i / 4) % 2, i / 8) == i,
{
    assert(cell_index(i % 4, (i / 4) % 2, i / 8) == i) by (nonlinear_arith)
        requires
            0 <= i < 32,
    ;
}

} // verus!
