//! Block identity and the per-block flags that feed the SoA masks.

use vstd::prelude::*;

verus! {

/// A global block-state id (a specific block with a specific set of
/// properties). The engine assigns its own dense ids.
#[derive(Debug, Clone, Copy, PartialEq, Eq, Structural, Hash, PartialOrd, Ord)]
pub struct BlockStateId(pub u32);

impl BlockStateId {
    /// `minecraft:air` — the default fill of an empty sub-chunk.
    pub fn air() -> (r: BlockStateId)
        ensures
            r == BlockStateId(0),
    {
        BlockStateId(0)
    }

    /// The raw numeric id.
    pub fn raw(self) -> (r: u32)
        ensures
            r == self.0,
    {
        self.0
    }
}

impl Default for BlockStateId {
    fn default() -> (r: Self)
        ensures
            r == BlockStateId(0),
    {
        BlockStateId(0)
    }
}

/// The boolean properties the SoA bit masks track per block. Air is all false.
#[derive(Debug, Clone, Copy, PartialEq, Eq, Structural)]
pub struct BlockProperties {
    /// Fully opaque cube for occlusion / the solid mask.
    pub solid: bool,
    /// Participates in the collision broad-phase.
    pub collision: bool,
    /// Can carry or interact with redstone power.
    pub redstone: bool,
}

impl BlockProperties {
    /// The properties of air / any non-interactive empty space.
    pub open spec fn air_spec() -> BlockProperties {
        BlockProperties { solid: false, collision: false, redstone: false }
    }

    /// A plain full opaque, collidable, redstone-inert block (stone-like).
    pub open spec fn solid_spec() -> BlockProperties {
        BlockProperties { solid: true, collision: true, redstone: false }
    }

    /// The properties of air / any non-interactive empty space.
    pub fn air() -> (r: BlockProperties)
        ensures
            r == Self::air_spec(),
    {
        BlockProperties { solid: false, collision: false, redstone: false }
    }

    /// A plain full opaque, collidable, redstone-inert block (stone-like).
    pub fn solid() -> (r: BlockProperties)
        ensures
            r == Self::solid_spec(),
    {
        BlockProperties { solid: true, collision: true, redstone: false }
    }
}

impl Default for BlockProperties {
    fn default() -> (r: Self)
        ensures
            r == Self::air_spec(),
    {
        Self::air()
    }
}

} // verus!
