//! Canonical block registry: dense, stable engine ids for block names, with
//! the properties and block-light emission inferred from each name.

use vstd::prelude::*;
use crate::block::{BlockProperties, BlockStateId};
use crate::names::{base_chars, base_of, chars_of, contains, ends, ends_with, has, is, starts, starts_with};

verus! {

/// The well-known names seeded at ids `0..18`, in id order.
pub open spec fn seed_names() -> Seq<Seq<char>> {
    seq![
        "minecraft:air"@,
        "minecraft:stone"@,
        "minecraft:dirt"@,
        "minecraft:grass_block"@,
        "minecraft:bedrock"@,
        "minecraft:water"@,
        "minecraft:sand"@,
        "minecraft:gravel"@,
        "minecraft:oak_log"@,
        "minecraft:oak_leaves"@,
        "minecraft:redstone_wire"@,
        "minecraft:torch"@,
        "minecraft:glowstone"@,
        "minecraft:cobblestone"@,
        "minecraft:oak_planks"@,
        "minecraft:mossy_cobblestone"@,
        "minecraft:chest"@,
        "minecraft:spawner"@,
    ]
}

/// Properties of a block that neither blocks nor collides nor carries power.
pub open spec fn passive() -> BlockProperties {
    BlockProperties { solid: false, collision: false, redstone: false }
}

/// The properties the seeded blocks carry, in id order.
pub open spec fn seed_props() -> Seq<BlockProperties> {
    let s = BlockProperties::solid_spec();
    seq![
        BlockProperties::air_spec(),
        s,
        s,
        s,
        s,
        passive(),
        s,
        s,
        s,
        BlockProperties { solid: false, collision: true, redstone: false },
        BlockProperties { solid: false, collision: false, redstone: true },
        passive(),
        s,
        s,
        s,
        s,
        BlockProperties { solid: false, collision: true, redstone: false },
        s,
    ]
}

/// Block-light level a block emits, inferred from its base name.
pub open spec fn emission_spec(name: Seq<char>) -> u8 {
    let b = base_of(name);
    if ends_with(b, "lava"@) || b == "glowstone"@ || b == "sea_lantern"@ || b == "jack_o_lantern"@ || b
        == "shroomlight"@ || b == "beacon"@ || b == "conduit"@ || b == "lantern"@ || b == "campfire"@ || b
        == "froglight"@ || ends_with(b, "_froglight"@) || b == "lava_cauldron"@ {
        15
    } else if starts_with(b, "soul_"@) || b == "crying_obsidian"@ {
        10
    } else if b == "end_rod"@ {
        14
    } else if contains(b, "redstone"@) && contains(b, "torch"@) {
        7
    } else if contains(b, "torch"@) {
        14
    } else if b == "fire"@ {
        15
    } else if b == "glow_lichen"@ || b == "sculk_catalyst"@ {
        7
    } else if b == "magma_block"@ {
        3
    } else if b == "brewing_stand"@ || b == "brown_mushroom"@ {
        1
    } else {
        0
    }
}

/// Whether a base name is a fluid / plant / decoration that neither blocks
/// light nor collides.
pub open spec fn non_solid_spec(b: Seq<char>) -> bool {
    ends_with(b, "water"@) || ends_with(b, "lava"@) || contains(b, "sapling"@) || contains(b, "torch"@) || contains(
        b,
        "rail"@,
    ) || contains(b, "flower"@) || b == "grass"@ || b == "tall_grass"@ || b == "short_grass"@ || b == "seagrass"@
        || b == "fern"@ || b == "large_fern"@ || contains(b, "carpet"@)
}

/// Whether a base name belongs to the redstone family.
pub open spec fn redstone_spec(b: Seq<char>) -> bool {
    contains(b, "redstone"@) || contains(b, "repeater"@) || contains(b, "comparator"@) || contains(b, "piston"@)
        || contains(b, "observer"@) || contains(b, "lever"@) || contains(b, "button"@) || contains(
        b,
        "pressure_plate"@,
    )
}

/// Properties inferred for an unknown block name.
pub open spec fn infer_spec(name: Seq<char>) -> BlockProperties {
    let b = base_of(name);
    if b == "air"@ || b == "void_air"@ || b == "cave_air"@ {
        BlockProperties::air_spec()
    } else {
        BlockProperties { solid: !non_solid_spec(b), collision: !non_solid_spec(b), redstone: redstone_spec(b) }
    }
}

/// The full-strength light sources: glowstone, sea lanterns, jack
/// o'lanterns, shroomlights, beacons, conduits, lanterns, campfires,
/// froglights of every colour, lava and lava cauldrons.
pub open spec fn full_strength_source(b: Seq<char>) -> bool {
    ||| b == "glowstone"@
    ||| b == "sea_lantern"@
    ||| b == "jack_o_lantern"@
    ||| b == "shroomlight"@
    ||| b == "beacon"@
    ||| b == "conduit"@
    ||| b == "lantern"@
    ||| b == "campfire"@
    ||| b == "froglight"@
    ||| ends_with(b, "_froglight"@)
    ||| ends_with(b, "lava"@)
    ||| b == "lava_cauldron"@
}

/// A block whose base name is a full-strength light source, in any
/// namespace, emits the full block-light level 15.
pub proof fn lemma_full_strength_sources(name: Seq<char>)
    requires
        full_strength_source(base_of(name)),
    ensures
        emission_spec(name) == 15,
{
}

/// A block whose base name holds `rail` (rails of every kind) is passable:
/// neither solid nor colliding.
pub proof fn lemma_rails_are_passable(name: Seq<char>)
    requires
        contains(base_of(name), "rail"@),
    ensures
        !infer_spec(name).solid,
        !infer_spec(name).collision,
{
}

/// A name whose first character `s` never holds does not occur in `s`.
proof fn lemma_lacks_first(s: Seq<char>, p: Seq<char>)
    requires
        p.len() > 0,
        forall|i: int| 0 <= i < s.len() ==> s[i] != p[0],
    ensures
        !contains(s, p),
{
    if contains(s, p) {
        let i = choose|i: int| 0 <= i && i + p.len() <= s.len() && #[trigger] s.subrange(i, i + p.len()) == p;
        assert(s.subrange(i, i + p.len())[0] == s[i]);
    }
}

/// The base of a name is what follows its last `:`.
proof fn lemma_base_after_colon(p: Seq<char>, q: Seq<char>)
    requires
        forall|i: int| 0 <= i < q.len() ==> q[i] != ':',
    ensures
        base_of(p.push(':') + q) == q,
    decreases q.len(),
{
    let s = p.push(':') + q;
    if q.len() == 0 {
        assert(s =~= p.push(':'));
    } else {
        lemma_base_after_colon(p, q.drop_last());
        assert(s.drop_last() =~= p.push(':') + q.drop_last());
        assert(q.drop_last().push(q.last()) =~= q);
    }
}

/// The fallback block `aether:unknown` is inferred solid.
pub proof fn lemma_unknown_is_solid()
    ensures
        infer_spec("aether:unknown"@) == BlockProperties::solid_spec(),
{
    reveal_strlit("aether:unknown");
    let n = "aether:unknown"@;
    let b = n.subrange(7, 14);
    assert(n =~= n.subrange(0, 6).push(':') + b);
    lemma_base_after_colon(n.subrange(0, 6), b);
    reveal_strlit("air");
    reveal_strlit("void_air");
    reveal_strlit("cave_air");
    reveal_strlit("water");
    reveal_strlit("lava");
    reveal_strlit("observer");
    reveal_strlit("grass");
    reveal_strlit("tall_grass");
    reveal_strlit("short_grass");
    reveal_strlit("seagrass");
    reveal_strlit("fern");
    reveal_strlit("large_fern");
    reveal_strlit("sapling");
    reveal_strlit("torch");
    reveal_strlit("rail");
    reveal_strlit("flower");
    reveal_strlit("carpet");
    reveal_strlit("redstone");
    reveal_strlit("repeater");
    reveal_strlit("comparator");
    reveal_strlit("piston");
    reveal_strlit("lever");
    reveal_strlit("button");
    reveal_strlit("pressure_plate");
    assert(b.len() == 7);
    assert(b[2] == 'k' && b[3] == 'n');
    assert(b.subrange(2, 7)[0] == b[2]);
    assert(b.subrange(3, 7)[0] == b[3]);
    lemma_lacks_first(b, "sapling"@);
    lemma_lacks_first(b, "torch"@);
    lemma_lacks_first(b, "rail"@);
    lemma_lacks_first(b, "flower"@);
    lemma_lacks_first(b, "carpet"@);
    lemma_lacks_first(b, "redstone"@);
    lemma_lacks_first(b, "repeater"@);
    lemma_lacks_first(b, "comparator"@);
    lemma_lacks_first(b, "piston"@);
    lemma_lacks_first(b, "lever"@);
    lemma_lacks_first(b, "button"@);
    lemma_lacks_first(b, "pressure_plate"@);
}

/// Index of the first occurrence of `n` in `s`, or -1.
pub open spec fn position(s: Seq<Seq<char>>, n: Seq<char>) -> int
    decreases s.len(),
{
    if s.len() == 0 {
        -1
    } else if position(s.drop_last(), n) >= 0 {
        position(s.drop_last(), n)
    } else if s.last() == n {
        s.len() - 1
    } else {
        -1
    }
}

pub(crate) proof fn lemma_position(s: Seq<Seq<char>>, n: Seq<char>, k: int)
    requires
        0 <= k <= s.len(),
        forall|j: int| 0 <= j < k ==> s[j] != n,
    ensures
        k < s.len() && s[k] == n ==> position(s, n) == k,
        k == s.len() ==> position(s, n) == -1,
    decreases s.len(),
{
    if s.len() > 0 {
        if k < s.len() {
            if k < s.len() - 1 {
                lemma_position(s.drop_last(), n, k);
            } else {
                lemma_position(s.drop_last(), n, k);
            }
        } else {
            lemma_position(s.drop_last(), n, k - 1);
        }
    }
}

pub(crate) proof fn lemma_position_range(s: Seq<Seq<char>>, n: Seq<char>)
    ensures
        -1 <= position(s, n) < s.len(),
        position(s, n) >= 0 ==> s[position(s, n)] == n,
    decreases s.len(),
{
    if s.len() > 0 {
        lemma_position_range(s.drop_last(), n);
    }
}

/// Maps block names ⇄ dense engine ids and stores per-block properties and
/// the block-light level each block emits (0 for non-emitters).
#[derive(Debug, Clone)]
pub struct BlockRegistry {
    names: Vec<String>,
    props: Vec<BlockProperties>,
    emission: Vec<u8>,
}

impl BlockRegistry {
    /// The parallel tables have one entry per registered name.
    pub closed spec fn wf(&self) -> bool {
        self.names@.len() == self.props@.len() && self.names@.len() == self.emission@.len()
    }

    /// The parallel tables have equal lengths.
    pub proof fn lemma_lens(&self)
        requires
            self.wf(),
        ensures
            self.name_seq().len() == self.prop_seq().len(),
            self.name_seq().len() == self.emission_seq().len(),
    {
    }

    /// Registered names, id order.
    pub closed spec fn name_seq(&self) -> Seq<Seq<char>> {
        Seq::new(self.names@.len(), |i: int| self.names@[i]@)
    }

    /// Registered properties, id order.
    pub closed spec fn prop_seq(&self) -> Seq<BlockProperties> {
        self.props@
    }

    /// Registered emission levels, id order.
    pub closed spec fn emission_seq(&self) -> Seq<u8> {
        self.emission@
    }

    /// Block light emitted by `id` (0 for an unknown id).
    pub open spec fn emission_spec_of(&self, id: BlockStateId) -> u8 {
        if (id.0 as int) < self.emission_seq().len() {
            self.emission_seq()[id.0 as int]
        } else {
            0u8
        }
    }

    /// The id a lookup of `n` finds, if any.
    pub open spec fn lookup(&self, n: Seq<char>) -> Option<BlockStateId> {
        if position(self.name_seq(), n) >= 0 {
            Some(BlockStateId(position(self.name_seq(), n) as u32))
        } else {
            None
        }
    }

    /// Properties of `id` (air's if out of range).
    pub open spec fn props_of_spec(&self, id: BlockStateId) -> BlockProperties {
        if (id.0 as int) < self.prop_seq().len() {
            self.prop_seq()[id.0 as int]
        } else {
            BlockProperties::air_spec()
        }
    }

    fn push_entry(&mut self, name: &str, props: BlockProperties)
        requires
            old(self).wf(),
        ensures
            final(self).wf(),
            final(self).name_seq() == old(self).name_seq().push(name@),
            final(self).prop_seq() == old(self).prop_seq().push(props),
            final(self).emission_seq() == old(self).emission_seq().push(emission_spec(name@)),
    {
        self.names.push(name.to_owned());
        self.props.push(props);
        self.emission.push(Self::infer_emission(name));
        assert(self.name_seq() =~= old(self).name_seq().push(name@));
    }

    /// A registry seeded with the well-known blocks at their fixed ids.
    pub fn new() -> (r: Self)
        ensures
            r.wf(),
            r.name_seq() == seed_names(),
            r.prop_seq() == seed_props(),
            r.emission_seq() == Seq::new(18, |i: int| emission_spec(seed_names()[i])),
    {
        let mut r = Self { names: Vec::new(), props: Vec::new(), emission: Vec::new() };
        let solid = BlockProperties::solid();
        let pass = BlockProperties { solid: false, collision: false, redstone: false };
        r.push_entry("minecraft:air", BlockProperties::air());
        r.push_entry("minecraft:stone", solid);
        r.push_entry("minecraft:dirt", solid);
        r.push_entry("minecraft:grass_block", solid);
        r.push_entry("minecraft:bedrock", solid);
        r.push_entry("minecraft:water", pass);
        r.push_entry("minecraft:sand", solid);
        r.push_entry("minecraft:gravel", solid);
        r.push_entry("minecraft:oak_log", solid);
        r.push_entry("minecraft:oak_leaves", BlockProperties { solid: false, collision: true, redstone: false });
        r.push_entry("minecraft:redstone_wire", BlockProperties { solid: false, collision: false, redstone: true });
        r.push_entry("minecraft:torch", pass);
        r.push_entry("minecraft:glowstone", solid);
        r.push_entry("minecraft:cobblestone", solid);
        r.push_entry("minecraft:oak_planks", solid);
        r.push_entry("minecraft:mossy_cobblestone", solid);
        r.push_entry("minecraft:chest", BlockProperties { solid: false, collision: true, redstone: false });
        r.push_entry("minecraft:spawner", solid);
        assert(r.name_seq() =~= seed_names());
        assert(r.prop_seq() =~= seed_props());
        assert(r.emission_seq() =~= Seq::new(18, |i: int| emission_spec(seed_names()[i])));
        r
    }

    /// Infer the block-light level a block emits from its name. More specific
    /// families (`soul_*`, `redstone_torch`) are checked before the broader
    /// `torch` / `lantern` catches.
    pub fn infer_emission(name: &str) -> (r: u8)
        ensures
            r == emission_spec(name@),
    {
        let full = chars_of(name);
        let b = base_chars(&full);
        if ends(&b, "lava") || is(&b, "glowstone") || is(&b, "sea_lantern") || is(&b, "jack_o_lantern") || is(
            &b,
            "shroomlight",
        ) || is(&b, "beacon") || is(&b, "conduit") || is(&b, "lantern") || is(&b, "campfire") || is(&b, "froglight")
            || ends(&b, "_froglight") || is(&b, "lava_cauldron") {
            return 15;
        }
        if starts(&b, "soul_") || is(&b, "crying_obsidian") {
            return 10;
        }
        if is(&b, "end_rod") {
            return 14;
        }
        if has(&b, "redstone") && has(&b, "torch") {
            return 7;
        }
        if has(&b, "torch") {
            return 14;
        }
        if is(&b, "fire") {
            return 15;
        }
        if is(&b, "glow_lichen") || is(&b, "sculk_catalyst") {
            return 7;
        }
        if is(&b, "magma_block") {
            return 3;
        }
        if is(&b, "brewing_stand") || is(&b, "brown_mushroom") {
            return 1;
        }
        0
    }

    /// Properties inferred for an unknown block name: air-like → air,
    /// fluids/plants → non-solid, the redstone family → redstone, otherwise a
    /// plain solid block.
    pub fn infer(name: &str) -> (r: BlockProperties)
        ensures
            r == infer_spec(name@),
    {
        let full = chars_of(name);
        let b = base_chars(&full);
        if is(&b, "air") || is(&b, "void_air") || is(&b, "cave_air") {
            return BlockProperties::air();
        }
        let non_solid = ends(&b, "water") || ends(&b, "lava") || has(&b, "sapling") || has(&b, "torch") || has(
            &b,
            "rail",
        ) || has(&b, "flower") || is(&b, "grass") || is(&b, "tall_grass") || is(&b, "short_grass") || is(
            &b,
            "seagrass",
        ) || is(&b, "fern") || is(&b, "large_fern") || has(&b, "carpet");
        let redstone = has(&b, "redstone") || has(&b, "repeater") || has(&b, "comparator") || has(&b, "piston")
            || has(&b, "observer") || has(&b, "lever") || has(&b, "button") || has(&b, "pressure_plate");
        BlockProperties { solid: !non_solid, collision: !non_solid, redstone }
    }

    fn find(&self, name: &str) -> (r: Option<usize>)
        requires
            self.wf(),
        ensures
            r matches Some(i) ==> i as int == position(self.name_seq(), name@),
            r is None ==> position(self.name_seq(), name@) == -1,
    {
        let owned = name.to_owned();
        let mut i: usize = 0;
        while i < self.names.len()
            invariant
                i <= self.names@.len(),
                owned@ == name@,
                forall|j: int| 0 <= j < i ==> self.name_seq()[j] != name@,
            decreases self.names@.len() - i,
        {
            if self.names[i] == owned {
                proof {
                    lemma_position(self.name_seq(), name@, i as int);
                }
                return Some(i);
            }
            i += 1;
        }
        proof {
            lemma_position(self.name_seq(), name@, i as int);
        }
        None
    }

    /// Resolve `name` to its id, interning (with inferred properties) if new.
    pub fn intern(&mut self, name: &str) -> (id: BlockStateId)
        requires
            old(self).wf(),
        ensures
            final(self).wf(),
            old(self).lookup(name@) matches Some(known) ==> id == known && *final(self) == *old(self),
            old(self).lookup(name@) is None ==> id == BlockStateId(old(self).name_seq().len() as u32)
                && final(self).name_seq() == old(self).name_seq().push(name@) && final(self).prop_seq()
                == old(self).prop_seq().push(infer_spec(name@)) && final(self).emission_seq()
                == old(self).emission_seq().push(emission_spec(name@)),
    {
        match self.find(name) {
            Some(i) => BlockStateId(i as u32),
            None => {
                let id = BlockStateId(self.names.len() as u32);
                let props = Self::infer(name);
                self.push_entry(name, props);
                id
            },
        }
    }

    /// Interning is idempotent and ids are dense: after `n` is interned as
    /// `id`, looking `n` up gives `id`, which is below the number of names and
    /// names `n`, so interning `n` again gives `id` and changes nothing; every
    /// other name keeps what it looked up to.
    pub proof fn lemma_intern_law(before: &Self, after: &Self, n: Seq<char>, id: BlockStateId, m: Seq<char>)
        requires
            before.wf(),
            before.name_seq().len() <= u32::MAX,
            before.lookup(n) matches Some(known) ==> id == known && *after == *before,
            before.lookup(n) is None ==> id == BlockStateId(before.name_seq().len() as u32) && after.name_seq()
                == before.name_seq().push(n),
        ensures
            after.lookup(n) == Some(id),
            (id.0 as int) < after.name_seq().len(),
            after.name_seq()[id.0 as int] == n,
            m != n ==> after.lookup(m) == before.lookup(m),
    {
        lemma_position_range(before.name_seq(), n);
        lemma_position_range(before.name_seq(), m);
        if before.lookup(n) is None {
            assert(after.name_seq().drop_last() =~= before.name_seq());
            lemma_position_range(after.name_seq(), n);
        }
    }

    /// Resolve `name` to id + properties, interning if new.
    pub fn intern_full(&mut self, name: &str) -> (r: (BlockStateId, BlockProperties))
        requires
            old(self).wf(),
        ensures
            final(self).wf(),
            r.1 == final(self).props_of_spec(r.0),
            old(self).lookup(name@) matches Some(known) ==> r.0 == known && *final(self) == *old(self),
            old(self).lookup(name@) is None ==> r.0 == BlockStateId(old(self).name_seq().len() as u32)
                && final(self).name_seq() == old(self).name_seq().push(name@) && final(self).prop_seq()
                == old(self).prop_seq().push(infer_spec(name@)) && final(self).emission_seq()
                == old(self).emission_seq().push(emission_spec(name@)),
            old(self).lookup(name@) is None && old(self).name_seq().len() < u32::MAX ==> r.1 == infer_spec(name@),
    {
        let id = self.intern(name);
        let p = self.props_of(id);
        (id, p)
    }

    /// Look up an already-known name (no interning).
    pub fn get(&self, name: &str) -> (r: Option<BlockStateId>)
        requires
            self.wf(),
        ensures
            r == self.lookup(name@),
    {
        match self.find(name) {
            Some(i) => Some(BlockStateId(i as u32)),
            None => None,
        }
    }

    /// Name of a block id, if in range.
    pub fn name_of(&self, id: BlockStateId) -> (r: Option<&str>)
        requires
            self.wf(),
        ensures
            (id.0 as int) < self.name_seq().len() ==> (r matches Some(s) && s@ == self.name_seq()[id.0 as int]),
            (id.0 as int) >= self.name_seq().len() ==> r is None,
    {
        let i = id.0 as usize;
        if i < self.names.len() {
            Some(self.names[i].as_str())
        } else {
            None
        }
    }

    /// Properties of a block id (defaults to air's if out of range).
    pub fn props_of(&self, id: BlockStateId) -> (r: BlockProperties)
        requires
            self.wf(),
        ensures
            r == self.props_of_spec(id),
    {
        let i = id.0 as usize;
        if i < self.props.len() {
            self.props[i]
        } else {
            BlockProperties::air()
        }
    }

    /// Block-light level emitted by a block id (`0..=15`; 0 if out of range
    /// or a non-emitter).
    pub fn emission_of(&self, id: BlockStateId) -> (r: u8)
        requires
            self.wf(),
        ensures
            r == (if (id.0 as int) < self.emission_seq().len() { self.emission_seq()[id.0 as int] } else { 0u8 }),
    {
        let i = id.0 as usize;
        if i < self.emission.len() {
            self.emission[i]
        } else {
            0
        }
    }

    /// Number of registered blocks.
    pub fn len(&self) -> (r: usize)
        ensures
            r == self.name_seq().len(),
    {
        self.names.len()
    }

    /// Whether the registry is empty (never true after [`BlockRegistry::new`]).
    pub fn is_empty(&self) -> (r: bool)
        ensures
            r == (self.name_seq().len() == 0),
    {
        self.names.len() == 0
    }
}

impl Default for BlockRegistry {
    fn default() -> (r: Self)
        ensures
            r.wf(),
            r.name_seq() == seed_names(),
            r.prop_seq() == seed_props(),
    {
        Self::new()
    }
}

} // verus!
