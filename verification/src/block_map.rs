//! Maps Anvil block palette names (`minecraft:stone`, …) to dense engine
//! [`BlockStateId`]s and infers the [`BlockProperties`] that drive the SoA
//! masks.
//!
//! The mapping is stable and deterministic: air-like blocks become air, a
//! small keyword set is flagged as redstone / non-collidable, and everything
//! else is a plain solid block. Unknown names get fresh ids on first sight, so
//! no block is lost.

use vstd::prelude::*;
use crate::block::{BlockProperties, BlockStateId};
use crate::names::{base_chars, base_of, chars_of, contains, ends_with, has, is, ends};
use crate::registry::{lemma_position, lemma_position_range, non_solid_spec, position, redstone_spec};

verus! {

/// Anything that can resolve a block name to an engine id + properties.
pub trait Interner: Sized {
    /// Whether resolving `name` from state `self` may answer `r` and leave
    /// the state `after`; an implementation states its own.
    closed spec fn interns(&self, name: Seq<char>, r: (BlockStateId, BlockProperties), after: Self) -> bool {
        arbitrary()
    }

    /// Resolve (interning on first sight) a block name.
    fn intern(&mut self, name: &str) -> (r: (BlockStateId, BlockProperties))
        ensures
            old(self).interns(name@, r, *final(self)),
    ;
}

/// Whether a base name is one of the air blocks.
pub open spec fn air_like(b: Seq<char>) -> bool {
    b == "air"@ || b == "void_air"@ || b == "cave_air"@
}

/// Properties inferred for a block name during conversion.
pub open spec fn convert_props_spec(name: Seq<char>) -> BlockProperties {
    let b = base_of(name);
    if air_like(b) {
        BlockProperties::air_spec()
    } else {
        let non_solid = non_solid_spec(b) || b == "vine"@;
        BlockProperties {
            solid: !non_solid,
            collision: !non_solid,
            redstone: redstone_spec(b) || b == "target"@ || b == "lightning_rod"@,
        }
    }
}

/// A converted block whose base name holds `rail` (rails of every kind) is
/// passable: neither solid nor colliding, whatever its namespace.
pub proof fn lemma_converted_rails_are_passable(name: Seq<char>)
    requires
        contains(base_of(name), "rail"@),
    ensures
        !convert_props_spec(name).solid,
        !convert_props_spec(name).collision,
{
}

/// Interns block names into dense engine ids and infers their properties.
pub struct BlockRegistry {
    entries: Vec<(String, BlockProperties)>,
}

impl BlockRegistry {
    /// Interned names, id order.
    pub closed spec fn name_seq(&self) -> Seq<Seq<char>> {
        Seq::new(self.entries@.len(), |i: int| self.entries@[i].0@)
    }

    /// Properties, id order.
    pub closed spec fn prop_seq(&self) -> Seq<BlockProperties> {
        Seq::new(self.entries@.len(), |i: int| self.entries@[i].1)
    }

    /// The id of `n`, if it has been interned.
    pub open spec fn lookup(&self, n: Seq<char>) -> Option<BlockStateId> {
        if position(self.name_seq(), n) >= 0 {
            Some(BlockStateId(position(self.name_seq(), n) as u32))
        } else {
            None
        }
    }

    /// A registry pre-seeded with air at id 0.
    pub fn new() -> (r: Self)
        ensures
            r.name_seq() == seq!["minecraft:air"@],
            r.prop_seq() == seq![BlockProperties::air_spec()],
    {
        let mut entries: Vec<(String, BlockProperties)> = Vec::new();
        entries.push(("minecraft:air".to_owned(), BlockProperties::air()));
        let r = Self { entries };
        assert(r.name_seq() =~= seq!["minecraft:air"@]);
        assert(r.prop_seq() =~= seq![BlockProperties::air_spec()]);
        r
    }

    /// Infer properties from a block's base name (namespace stripped).
    pub fn infer_props(name: &str) -> (r: BlockProperties)
        ensures
            r == convert_props_spec(name@),
    {
        let full = chars_of(name);
        let b = base_chars(&full);
        if is(&b, "air") || is(&b, "void_air") || is(&b, "cave_air") {
            return BlockProperties::air();
        }
        // Grass *plants* are matched exactly so solid `grass_block` stays collidable.
        let non_solid = ends(&b, "water") || ends(&b, "lava") || has(&b, "sapling") || has(&b, "torch") || has(
            &b,
            "rail",
        ) || has(&b, "flower") || is(&b, "grass") || is(&b, "tall_grass") || is(&b, "short_grass") || is(
            &b,
            "seagrass",
        ) || is(&b, "fern") || is(&b, "large_fern") || has(&b, "carpet") || is(&b, "vine");
        let redstone = has(&b, "redstone") || has(&b, "repeater") || has(&b, "comparator") || has(&b, "piston")
            || has(&b, "observer") || has(&b, "lever") || has(&b, "button") || has(&b, "pressure_plate") || is(
            &b,
            "target",
        ) || is(&b, "lightning_rod");
        BlockProperties { solid: !non_solid, collision: !non_solid, redstone }
    }

    fn find(&self, name: &str) -> (r: Option<usize>)
        ensures
            r matches Some(i) ==> i as int == position(self.name_seq(), name@),
            r is None ==> position(self.name_seq(), name@) == -1,
    {
        let owned = name.to_owned();
        let mut i: usize = 0;
        while i < self.entries.len()
            invariant
                i <= self.entries@.len(),
                owned@ == name@,
                forall|j: int| 0 <= j < i ==> self.name_seq()[j] != name@,
            decreases self.entries@.len() - i,
        {
            if self.entries[i].0 == owned {
                proof {
                    lemma_position(self.name_seq(), name@, i as int);
                }
                return Some(i);
            }
            i += 1;
        }
        proof {
            lemma_position(self.name_seq(), name@, i as int);
        }
        None
    }

    /// Get (or assign) the engine id and properties for a block name.
    pub fn intern(&mut self, name: &str) -> (r: (BlockStateId, BlockProperties))
        ensures
            old(self).lookup(name@) matches Some(known) ==> r == (known, old(self).prop_seq()[position(
                old(self).name_seq(),
                name@,
            )]) && final(self).name_seq() == old(self).name_seq() && final(self).prop_seq()
                == old(self).prop_seq(),
            old(self).lookup(name@) is None ==> r == (
                BlockStateId(old(self).name_seq().len() as u32),
                convert_props_spec(name@),
            ) && final(self).name_seq() == old(self).name_seq().push(name@) && final(self).prop_seq()
                == old(self).prop_seq().push(convert_props_spec(name@)),
    {
        proof {
            lemma_position_range(self.name_seq(), name@);
        }
        match self.find(name) {
            Some(i) => (BlockStateId(i as u32), self.entries[i].1),
            None => {
                let id = BlockStateId(self.entries.len() as u32);
                let props = Self::infer_props(name);
                self.entries.push((name.to_owned(), props));
                assert(self.name_seq() =~= old(self).name_seq().push(name@));
                assert(self.prop_seq() =~= old(self).prop_seq().push(props));
                (id, props)
            },
        }
    }

    /// Number of distinct block names seen (including air).
    pub fn len(&self) -> (r: usize)
        ensures
            r == self.name_seq().len(),
    {
        self.entries.len()
    }

    /// Whether only the seeded air entry exists.
    pub fn is_empty(&self) -> (r: bool)
        ensures
            r == (self.name_seq().len() <= 1),
    {
        self.entries.len() <= 1
    }

    /// `(name, id)` pairs in id order — the mapping table.
    pub fn mapping(&self) -> (r: Vec<(&str, BlockStateId)>)
        ensures
            r@.len() == self.name_seq().len(),
            forall|i: int|
                0 <= i < r@.len() ==> (#[trigger] r@[i]).0@ == self.name_seq()[i] && r@[i].1 == BlockStateId(
                    i as u32,
                ),
    {
        let mut out: Vec<(&str, BlockStateId)> = Vec::new();
        let mut i: usize = 0;
        while i < self.entries.len()
            invariant
                i <= self.entries@.len(),
                out@.len() == i,
                forall|j: int|
                    0 <= j < i ==> (#[trigger] out@[j]).0@ == self.name_seq()[j] && out@[j].1 == BlockStateId(
                        j as u32,
                    ),
            decreases self.entries@.len() - i,
        {
            out.push((self.entries[i].0.as_str(), BlockStateId(i as u32)));
            i += 1;
        }
        out
    }
}

impl Default for BlockRegistry {
    fn default() -> (r: Self)
        ensures
            r.name_seq() == seq!["minecraft:air"@],
            r.prop_seq() == seq![BlockProperties::air_spec()],
    {
        Self::new()
    }
}

impl Interner for BlockRegistry {
    open spec fn interns(&self, name: Seq<char>, r: (BlockStateId, BlockProperties), after: Self) -> bool {
        &&& self.lookup(name) matches Some(known) ==> r == (known, self.prop_seq()[position(self.name_seq(), name)])
            && after.name_seq() == self.name_seq() && after.prop_seq() == self.prop_seq()
        &&& self.lookup(name) is None ==> r == (BlockStateId(self.name_seq().len() as u32), convert_props_spec(name))
            && after.name_seq() == self.name_seq().push(name) && after.prop_seq() == self.prop_seq().push(
            convert_props_spec(name),
        )
    }

    fn intern(&mut self, name: &str) -> (r: (BlockStateId, BlockProperties))
        ensures
            old(self).lookup(name@) matches Some(known) ==> r == (known, old(self).prop_seq()[position(
                old(self).name_seq(),
                name@,
            )]) && final(self).name_seq() == old(self).name_seq() && final(self).prop_seq()
                == old(self).prop_seq(),
            old(self).lookup(name@) is None ==> r == (
                BlockStateId(old(self).name_seq().len() as u32),
                convert_props_spec(name@),
            ) && final(self).name_seq() == old(self).name_seq().push(name@) && final(self).prop_seq()
                == old(self).prop_seq().push(convert_props_spec(name@)),
    {
        BlockRegistry::intern(self, name)
    }
}

/// Interning only ever appends, so a name keeps its id whatever is interned
/// after it (air, seeded first, keeps id 0).
pub proof fn lemma_ids_are_stable(before: BlockRegistry, after: BlockRegistry, later: Seq<char>, n: Seq<char>)
    requires
        before.lookup(n) is Some,
        after.name_seq() == before.name_seq() || after.name_seq() == before.name_seq().push(later),
    ensures
        after.lookup(n) == before.lookup(n),
{
    lemma_position_range(before.name_seq(), n);
    assert(before.name_seq().push(later).drop_last() =~= before.name_seq());
}

} // verus!
