//! The 16×16×16 Sub-Chunk: palette-compressed block ids plus
//! Structure-of-Arrays bit masks, all addressed in Morton (Z-order).

use vstd::prelude::*;
use crate::block::{BlockProperties, BlockStateId};
use crate::morton::{morton_encode_16, morton_spec};
use crate::palette::Palette;

verus! {

/// Edge length of a sub-chunk.
pub const DIM: usize = 16;
/// Blocks in a sub-chunk (`16³`).
pub const VOLUME: usize = 4096;
/// `u64` words needed for one 4096-bit SoA mask.
pub const MASK_WORDS: usize = 64;

/// Bit `i` of `w`.
pub open spec fn bit_of(w: u64, i: int) -> bool {
    (w >> (i as u64)) & 1 == 1
}

/// Number of set bits among the low `n` bits of `w`.
pub open spec fn word_ones(w: u64, n: int) -> int
    decreases n,
{
    if n <= 0 {
        0
    } else {
        word_ones(w, n - 1) + if bit_of(w, n - 1) { 1int } else { 0int }
    }
}

/// Number of `true` values among the first `n` entries of `s`.
pub open spec fn seq_ones(s: Seq<bool>, n: int) -> int
    decreases n,
{
    if n <= 0 {
        0
    } else {
        seq_ones(s, n - 1) + if s[n - 1] { 1int } else { 0int }
    }
}

/// The Morton index of local `(x, y, z)` as an integer.
pub open spec fn morton_of(x: int, y: int, z: int) -> int {
    morton_spec(x as u8, y as u8, z as u8) as int
}

/// Counts the set bits of `w`, one bit at a time.
pub(crate) fn count_ones_u64(w: u64) -> (r: u32)
    ensures
        r as int == word_ones(w, 64),
{
    let mut n: u32 = 0;
    let mut i: u64 = 0;
    while i < 64
        invariant
            i <= 64,
            n as int == word_ones(w, i as int),
            n <= i,
        decreases 64 - i,
    {
        if (w >> i) & 1 == 1 {
            n += 1;
        }
        i += 1;
    }
    n
}

proof fn lemma_bit_update(w: u64, b: u64, j: u64)
    by (bit_vector)
    requires
        b < 64,
        j < 64,
    ensures
        ((w | (1u64 << b)) >> j) & 1 == 1 <==> (j == b || (w >> j) & 1 == 1),
        ((w & !(1u64 << b)) >> j) & 1 == 1 <==> (j != b && (w >> j) & 1 == 1),
{
}

proof fn lemma_index_split(m: u16)
    by (bit_vector)
    requires
        m < 4096,
    ensures
        (m >> 6u16) as u64 == (m as u64) / 64,
        (m & 63u16) as u64 == (m as u64) % 64,
{
}

/// One Structure-of-Arrays property mask over a sub-chunk: 4096 bits,
/// indexed by Morton position; word `m>>6`, bit `m&63`.
#[derive(Clone, PartialEq, Eq, Debug)]
pub struct Mask(pub [u64; 64]);

impl Mask {
    /// The 4096 bits of the mask, by Morton index.
    pub open spec fn view(&self) -> Seq<bool> {
        Seq::new(4096, |m: int| bit_of(self.0@[m / 64], m % 64))
    }

    /// Number of set bits, as a mathematical count.
    pub open spec fn spec_count(&self) -> int {
        seq_ones(self.view(), 4096)
    }

    /// An all-zero mask.
    pub fn zeroed() -> (r: Self)
        ensures
            r.view() == Seq::new(4096, |_m: int| false),
    {
        let r = Mask([0u64; 64]);
        proof {
            assert forall|m: int| 0 <= m < 4096 implies !r.view()[m] by {
                let s = (m % 64) as u64;
                assert((0u64 >> s) & 1 == 0) by (bit_vector);
            }
            assert(r.view() =~= Seq::new(4096, |_m: int| false));
        }
        r
    }

    /// Read the bit at Morton index `m`.
    pub fn get(&self, m: u16) -> (r: bool)
        requires
            m < 4096,
        ensures
            r == self.view()[m as int],
    {
        proof {
            lemma_index_split(m);
        }
        let w = self.0[(m >> 6u16) as usize];
        let s = (m & 63u16) as u64;
        assert(((w >> s) & 1 != 0) == ((w >> s) & 1 == 1)) by (bit_vector);
        (w >> s) & 1 != 0
    }

    /// Write the bit at Morton index `m`; all other bits are kept.
    pub fn set(&mut self, m: u16, value: bool)
        requires
            m < 4096,
        ensures
            final(self).view() == old(self).view().update(m as int, value),
    {
        proof {
            lemma_index_split(m);
        }
        let wi = (m >> 6u16) as usize;
        let b = (m & 63u16) as u64;
        let bit = 1u64 << b;
        let w = self.0[wi];
        if value {
            self.0[wi] = w | bit;
        } else {
            self.0[wi] = w & !bit;
        }
        proof {
            assert forall|k: int| 0 <= k < 4096 implies self.view()[k] == old(self).view().update(m as int, value)[k] by {
                let j = (k % 64) as u64;
                lemma_bit_update(w, b, j);
                if k / 64 != wi as int {
                    assert(self.0@[k / 64] == old(self).0@[k / 64]);
                }
            }
            assert(self.view() =~= old(self).view().update(m as int, value));
        }
    }

    /// Number of set bits.
    pub fn count(&self) -> (r: u32)
        ensures
            r as int == self.spec_count(),
    {
        let mut acc: u32 = 0;
        let mut k: usize = 0;
        while k < 64
            invariant
                k <= 64,
                acc as int == seq_ones(self.view(), 64 * k as int),
                acc as int <= 64 * k as int,
            decreases 64 - k,
        {
            let c = count_ones_u64(self.0[k]);
            proof {
                lemma_seq_ones_word(self, k as int, 64);
                lemma_word_ones_bound(self.0@[k as int], 64);
            }
            acc = acc + c;
            k += 1;
        }
        acc
    }
}

proof fn lemma_word_ones_bound(w: u64, n: int)
    requires
        0 <= n,
    ensures
        0 <= word_ones(w, n) <= n,
    decreases n,
{
    if n > 0 {
        lemma_word_ones_bound(w, n - 1);
    }
}

proof fn lemma_seq_ones_word(mask: &Mask, k: int, j: int)
    requires
        0 <= k < 64,
        0 <= j <= 64,
    ensures
        seq_ones(mask.view(), 64 * k + j) == seq_ones(mask.view(), 64 * k) + word_ones(mask.0@[k], j),
    decreases j,
{
    if j > 0 {
        lemma_seq_ones_word(mask, k, j - 1);
        let m = 64 * k + j - 1;
        assert(m / 64 == k);
        assert(m % 64 == j - 1);
    }
}

/// Counting is monotone in the prefix length and bounded by it.
proof fn lemma_seq_ones_bound(s: Seq<bool>, n: int)
    requires
        0 <= n,
    ensures
        0 <= seq_ones(s, n) <= n,
    decreases n,
{
    if n > 0 {
        lemma_seq_ones_bound(s, n - 1);
    }
}

/// Two sequences that agree on a prefix have the same count on it.
proof fn lemma_seq_ones_ext(a: Seq<bool>, b: Seq<bool>, n: int)
    requires
        0 <= n,
        forall|i: int| 0 <= i < n ==> a[i] == b[i],
    ensures
        seq_ones(a, n) == seq_ones(b, n),
    decreases n,
{
    if n > 0 {
        lemma_seq_ones_ext(a, b, n - 1);
    }
}

/// A sequence with no `true` values counts zero.
proof fn lemma_seq_ones_zero(s: Seq<bool>, n: int)
    requires
        0 <= n,
        forall|i: int| 0 <= i < n ==> !s[i],
    ensures
        seq_ones(s, n) == 0,
    decreases n,
{
    if n > 0 {
        lemma_seq_ones_zero(s, n - 1);
    }
}

/// The count is zero exactly when no entry is `true`.
pub proof fn lemma_seq_ones_zero_iff(s: Seq<bool>, n: int)
    requires
        0 <= n <= s.len(),
    ensures
        seq_ones(s, n) == 0 <==> forall|i: int| 0 <= i < n ==> !s[i],
    decreases n,
{
    if n > 0 {
        lemma_seq_ones_zero_iff(s, n - 1);
        lemma_seq_ones_bound(s, n - 1);
    }
}

/// A 16×16×16 volume of blocks in the engine's SoA memory layout.
#[derive(Debug, Clone)]
pub struct SubChunk {
    palette: Palette,
    solid: Mask,
    collision: Mask,
    redstone: Mask,
}

impl SubChunk {
    /// Well-formedness: a 4096-position palette and masks that agree with
    /// the per-block properties.
    pub closed spec fn wf(&self) -> bool {
        &&& self.palette.wf()
        &&& self.palette.spec_len() == 4096
        &&& forall|m: int| 0 <= m < 4096 ==> #[trigger] self.solid.view()[m] == self.palette.block_props()[m].solid
        &&& forall|m: int| 0 <= m < 4096 ==> #[trigger] self.collision.view()[m] == self.palette.block_props()[m].collision
        &&& forall|m: int| 0 <= m < 4096 ==> #[trigger] self.redstone.view()[m] == self.palette.block_props()[m].redstone
    }

    /// The palette behind this sub-chunk.
    pub closed spec fn spec_palette(&self) -> Palette {
        self.palette
    }

    /// The block state at every Morton position.
    pub open spec fn blocks(&self) -> Seq<BlockStateId> {
        self.spec_palette().blocks()
    }

    /// The block properties at every Morton position.
    pub open spec fn props(&self) -> Seq<BlockProperties> {
        self.spec_palette().block_props()
    }

    /// The block at local `(x, y, z)`.
    pub open spec fn block_at(&self, x: int, y: int, z: int) -> BlockStateId {
        self.blocks()[morton_of(x, y, z)]
    }

    /// The properties of the block at local `(x, y, z)`.
    pub open spec fn props_at(&self, x: int, y: int, z: int) -> BlockProperties {
        self.props()[morton_of(x, y, z)]
    }

    /// The solid mask's bits.
    pub closed spec fn solid_bits(&self) -> Seq<bool> {
        self.solid.view()
    }

    /// The collision mask's bits.
    pub closed spec fn collision_bits(&self) -> Seq<bool> {
        self.collision.view()
    }

    /// The redstone mask's bits.
    pub closed spec fn redstone_bits(&self) -> Seq<bool> {
        self.redstone.view()
    }

    /// Number of solid blocks.
    pub open spec fn solid_count(&self) -> int {
        seq_ones(self.solid_bits(), 4096)
    }

    /// Whether `(id, props)` may be written: `id` keeps one property set, and
    /// the palette has room for it.
    pub open spec fn can_set(&self, id: BlockStateId, props: BlockProperties) -> bool {
        self.spec_palette().consistent(id, props) && self.spec_palette().can_store(id)
    }

    /// The masks agree with the block properties at every position.
    pub proof fn lemma_masks_match(&self)
        requires
            self.wf(),
        ensures
            self.blocks().len() == 4096,
            self.props().len() == 4096,
            self.spec_palette().wf(),
            self.spec_palette().spec_len() == 4096,
            forall|m: int| 0 <= m < 4096 ==> #[trigger] self.solid_bits()[m] == self.props()[m].solid,
            forall|m: int| 0 <= m < 4096 ==> #[trigger] self.collision_bits()[m] == self.props()[m].collision,
            forall|m: int| 0 <= m < 4096 ==> #[trigger] self.redstone_bits()[m] == self.props()[m].redstone,
    {
    }

    /// An empty (all-air) sub-chunk.
    pub fn new() -> (r: Self)
        ensures
            r.wf(),
            r.blocks() == Seq::new(4096, |_m: int| BlockStateId(0)),
            r.props() == Seq::new(4096, |_m: int| BlockProperties::air_spec()),
            r.spec_palette().entry_seq() == seq![BlockStateId(0)],
            r.spec_palette().prop_seq() == seq![BlockProperties::air_spec()],
            r.spec_palette().spec_bits() == 4,
            r.spec_palette().canonical(),
    {
        let r = Self { palette: Palette::new(4096), solid: Mask::zeroed(), collision: Mask::zeroed(), redstone: Mask::zeroed() };
        r
    }

    /// Morton index of local `(x, y, z)`, each `0..16`.
    pub fn index(x: usize, y: usize, z: usize) -> (m: u16)
        requires
            x < 16,
            y < 16,
            z < 16,
        ensures
            m as int == morton_of(x as int, y as int, z as int),
            m < 4096,
    {
        morton_encode_16(x as u8, y as u8, z as u8)
    }

    /// Read the block state at local `(x, y, z)`.
    pub fn get(&self, x: usize, y: usize, z: usize) -> (r: BlockStateId)
        requires
            self.wf(),
            x < 16,
            y < 16,
            z < 16,
        ensures
            r == self.block_at(x as int, y as int, z as int),
    {
        self.palette.get(Self::index(x, y, z) as usize)
    }

    /// Set the block at local `(x, y, z)` to `id` with the given `props`,
    /// updating every SoA mask accordingly.
    pub fn set(&mut self, x: usize, y: usize, z: usize, id: BlockStateId, props: BlockProperties)
        requires
            old(self).wf(),
            x < 16,
            y < 16,
            z < 16,
            old(self).can_set(id, props),
        ensures
            final(self).wf(),
            final(self).blocks() == old(self).blocks().update(morton_of(x as int, y as int, z as int), id),
            final(self).props() == old(self).props().update(morton_of(x as int, y as int, z as int), props),
            old(self).spec_palette().has_id(id) ==> final(self).spec_palette().entry_seq()
                == old(self).spec_palette().entry_seq() && final(self).spec_palette().prop_seq()
                == old(self).spec_palette().prop_seq(),
            !old(self).spec_palette().has_id(id) ==> final(self).spec_palette().entry_seq()
                == old(self).spec_palette().entry_seq().push(id) && final(self).spec_palette().prop_seq()
                == old(self).spec_palette().prop_seq().push(props),
            old(self).spec_palette().canonical() ==> final(self).spec_palette().canonical(),
    {
        let m = Self::index(x, y, z);
        self.palette.set(m as usize, id, props);
        self.solid.set(m, props.solid);
        self.collision.set(m, props.collision);
        self.redstone.set(m, props.redstone);
    }

    /// The `SolidMask`.
    pub fn solid_mask(&self) -> (r: &Mask)
        ensures
            r.view() == self.solid_bits(),
    {
        &self.solid
    }

    /// The collision mask.
    pub fn collision_mask(&self) -> (r: &Mask)
        ensures
            r.view() == self.collision_bits(),
    {
        &self.collision
    }

    /// The redstone-flags mask.
    pub fn redstone_mask(&self) -> (r: &Mask)
        ensures
            r.view() == self.redstone_bits(),
    {
        &self.redstone
    }

    /// The palette (block ids + packed indices) — used by the serializer.
    pub fn palette(&self) -> (r: &Palette)
        ensures
            *r == self.spec_palette(),
    {
        &self.palette
    }

    /// Whether every block of the sub-chunk is air.
    pub open spec fn all_air(&self) -> bool {
        forall|m: int| 0 <= m < 4096 ==> #[trigger] self.blocks()[m] == BlockStateId(0)
    }

    /// Whether the sub-chunk contains only air.
    pub fn is_empty(&self) -> (r: bool)
        requires
            self.wf(),
        ensures
            r == self.all_air(),
    {
        proof {
            self.lemma_masks_match();
        }
        let mut m: usize = 0;
        while m < 4096
            invariant
                self.wf(),
                self.spec_palette().wf(),
                self.spec_palette().spec_len() == 4096,
                m <= 4096,
                forall|k: int| 0 <= k < m ==> #[trigger] self.blocks()[k] == BlockStateId(0),
            decreases 4096 - m,
        {
            if self.palette.get(m) != BlockStateId(0) {
                assert(!(self.blocks()[m as int] == BlockStateId(0)));
                return false;
            }
            m += 1;
        }
        true
    }

    /// Reassemble a sub-chunk from a palette, recomputing masks from its
    /// per-block properties.
    pub fn from_palette(palette: Palette) -> (r: Self)
        requires
            palette.wf(),
            palette.spec_len() == 4096,
        ensures
            r.wf(),
            r.spec_palette() == palette,
    {
        let mut solid = Mask::zeroed();
        let mut collision = Mask::zeroed();
        let mut redstone = Mask::zeroed();
        let mut m: usize = 0;
        while m < 4096
            invariant
                palette.wf(),
                palette.spec_len() == 4096,
                m <= 4096,
                forall|k: int| 0 <= k < m ==> #[trigger] solid.view()[k] == palette.block_props()[k].solid,
                forall|k: int| 0 <= k < m ==> #[trigger] collision.view()[k] == palette.block_props()[k].collision,
                forall|k: int| 0 <= k < m ==> #[trigger] redstone.view()[k] == palette.block_props()[k].redstone,
            decreases 4096 - m,
        {
            let p = palette.props_at(m);
            solid.set(m as u16, p.solid);
            collision.set(m as u16, p.collision);
            redstone.set(m as u16, p.redstone);
            m += 1;
        }
        Self { palette, solid, collision, redstone }
    }
}

impl Default for SubChunk {
    fn default() -> (r: Self)
        ensures
            r.wf(),
            r.blocks() == Seq::new(4096, |_m: int| BlockStateId(0)),
    {
        Self::new()
    }
}

/// A sub-chunk counts as empty exactly when it has one palette entry and no
/// solid block; the solid count is zero exactly when no position is solid.
pub proof fn lemma_solid_count_zero(sc: &SubChunk)
    requires
        sc.wf(),
    ensures
        sc.solid_count() == 0 <==> forall|m: int| 0 <= m < 4096 ==> !(#[trigger] sc.props()[m]).solid,
{
    sc.lemma_masks_match();
    lemma_seq_ones_zero_iff(sc.solid_bits(), 4096);
    if sc.solid_count() == 0 {
        assert forall|m: int| 0 <= m < 4096 implies !(#[trigger] sc.props()[m]).solid by {
            assert(!sc.solid_bits()[m]);
        }
    } else {
        assert(!forall|m: int| 0 <= m < 4096 ==> !sc.solid_bits()[m]);
        let m = choose|m: int| 0 <= m < 4096 && sc.solid_bits()[m];
        assert(sc.props()[m].solid);
    }
}

} // verus!
