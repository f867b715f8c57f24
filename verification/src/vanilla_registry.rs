//! Mapping from vanilla **protocol block-state ids** to engine block ids.
//!
//! Over the network a chunk section identifies blocks by numeric block-state
//! id. Callers register the states they care about by name; anything
//! unregistered falls back to a single interned "unknown" solid block so the
//! world is never left with accidental holes. Vanilla state id `0` is always
//! air.

use vstd::prelude::*;
use crate::block::{BlockProperties, BlockStateId};
use crate::registry::{infer_spec, lemma_position, lemma_position_range, position, seed_names, seed_props, BlockRegistry};
use std::collections::HashMap;

verus! {

broadcast use vstd::std_specs::hash::group_hash_axioms;

/// The fallback name is none of the engine's seeded names.
proof fn lemma_unknown_not_seeded()
    ensures
        position(seed_names(), "aether:unknown"@) == -1,
{
    reveal_strlit("aether:unknown");
    assert("aether:unknown"@[0] == 'a');
    reveal_strlit("minecraft:air");
    assert(seed_names()[0][0] == 'm');
    reveal_strlit("minecraft:stone");
    assert(seed_names()[1][0] == 'm');
    reveal_strlit("minecraft:dirt");
    assert(seed_names()[2][0] == 'm');
    reveal_strlit("minecraft:grass_block");
    assert(seed_names()[3][0] == 'm');
    reveal_strlit("minecraft:bedrock");
    assert(seed_names()[4][0] == 'm');
    reveal_strlit("minecraft:water");
    assert(seed_names()[5][0] == 'm');
    reveal_strlit("minecraft:sand");
    assert(seed_names()[6][0] == 'm');
    reveal_strlit("minecraft:gravel");
    assert(seed_names()[7][0] == 'm');
    reveal_strlit("minecraft:oak_log");
    assert(seed_names()[8][0] == 'm');
    reveal_strlit("minecraft:oak_leaves");
    assert(seed_names()[9][0] == 'm');
    reveal_strlit("minecraft:redstone_wire");
    assert(seed_names()[10][0] == 'm');
    reveal_strlit("minecraft:torch");
    assert(seed_names()[11][0] == 'm');
    reveal_strlit("minecraft:glowstone");
    assert(seed_names()[12][0] == 'm');
    reveal_strlit("minecraft:cobblestone");
    assert(seed_names()[13][0] == 'm');
    reveal_strlit("minecraft:oak_planks");
    assert(seed_names()[14][0] == 'm');
    reveal_strlit("minecraft:mossy_cobblestone");
    assert(seed_names()[15][0] == 'm');
    reveal_strlit("minecraft:chest");
    assert(seed_names()[16][0] == 'm');
    reveal_strlit("minecraft:spawner");
    assert(seed_names()[17][0] == 'm');
    assert forall|j: int| 0 <= j < seed_names().len() implies seed_names()[j] != "aether:unknown"@ by {
        assert(seed_names()[j][0] == 'm');
    }
    lemma_position(seed_names(), "aether:unknown"@, seed_names().len() as int);
}

/// The mapping and engine tables registering `pairs` in turn leaves, from
/// the mapping `entries` over engine names `names` and properties `props`:
/// a known name maps to its engine id, a new one is appended with inferred
/// properties.
pub open spec fn after_registering(
    entries: Map<u32, (BlockStateId, BlockProperties)>,
    names: Seq<Seq<char>>,
    props: Seq<BlockProperties>,
    pairs: Seq<(u32, &str)>,
) -> (Map<u32, (BlockStateId, BlockProperties)>, Seq<Seq<char>>, Seq<BlockProperties>)
    decreases pairs.len(),
{
    if pairs.len() == 0 {
        (entries, names, props)
    } else {
        let prev = after_registering(entries, names, props, pairs.drop_last());
        let s = pairs.last().0;
        let n = pairs.last().1@;
        let k = position(prev.1, n);
        if k >= 0 {
            (prev.0.insert(s, (BlockStateId(k as u32), prev.2[k])), prev.1, prev.2)
        } else {
            (
                prev.0.insert(s, (BlockStateId(prev.1.len() as u32), infer_spec(n))),
                prev.1.push(n),
                prev.2.push(infer_spec(n)),
            )
        }
    }
}

/// Translates vanilla protocol block-state ids to engine ids + properties.
pub struct VanillaRegistry {
    blocks: BlockRegistry,
    map: HashMap<u32, (BlockStateId, BlockProperties)>,
    unknown: (BlockStateId, BlockProperties),
    names: Ghost<Map<u32, Seq<char>>>,
}

/// The names `pairs` register, in order, over the names `m`: a later pair
/// for a state replaces an earlier one.
pub open spec fn named_by(m: Map<u32, Seq<char>>, pairs: Seq<(u32, &str)>) -> Map<u32, Seq<char>>
    decreases pairs.len(),
{
    if pairs.len() == 0 {
        m
    } else {
        named_by(m, pairs.drop_last()).insert(pairs.last().0, pairs.last().1@)
    }
}

/// `(id, props)` is an id of `blocks` with its registered properties.
pub open spec fn registered_in(blocks: BlockRegistry, e: (BlockStateId, BlockProperties)) -> bool {
    (e.0.0 as int) < blocks.prop_seq().len() && e.1 == blocks.prop_seq()[e.0.0 as int]
}

impl VanillaRegistry {
    /// Every mapped entry (and the fallback) is an engine id with the
    /// properties the engine registry holds for it; id 0 is air.
    pub closed spec fn wf(&self) -> bool {
        &&& self.blocks.wf()
        &&& self.blocks.prop_seq().len() >= 1
        &&& self.blocks.prop_seq()[0] == BlockProperties::air_spec()
        &&& registered_in(self.blocks, self.unknown)
        &&& forall|k: u32| #[trigger] self.map@.contains_key(k) ==> registered_in(self.blocks, self.map@[k])
        &&& self.names@.dom() == self.map@.dom()
        &&& forall|k: u32|
            #[trigger] self.map@.contains_key(k) && k != 0 ==> self.blocks.name_seq()[self.map@[k].0.0 as int]
                == self.names@[k]
        &&& self.blocks.name_seq()[self.unknown.0.0 as int] == "aether:unknown"@
    }

    /// The name each registered state was last registered under.
    pub closed spec fn state_names(&self) -> Map<u32, Seq<char>> {
        self.names@
    }

    /// Registered vanilla states and what they map to.
    pub closed spec fn entries(&self) -> Map<u32, (BlockStateId, BlockProperties)> {
        self.map@
    }

    /// What unregistered states map to.
    pub closed spec fn unknown_entry(&self) -> (BlockStateId, BlockProperties) {
        self.unknown
    }

    /// The engine registry behind the mapping.
    pub closed spec fn engine(&self) -> BlockRegistry {
        self.blocks
    }

    /// What `state` resolves to.
    pub open spec fn resolve_spec(&self, state: u32) -> (BlockStateId, BlockProperties) {
        if state == 0 {
            (BlockStateId(0), BlockProperties::air_spec())
        } else if self.entries().contains_key(state) {
            self.entries()[state]
        } else {
            self.unknown_entry()
        }
    }

    /// A registry that knows only air; register the rest with [`Self::register`].
    pub fn new() -> (r: Self)
        ensures
            r.wf(),
            r.entries() == map![0u32 => (BlockStateId(0), BlockProperties::air_spec())],
            r.state_names() == Map::<u32, Seq<char>>::empty().insert(0u32, "minecraft:air"@),
            r.engine().name_seq() == seed_names().push("aether:unknown"@),
            r.engine().prop_seq() == seed_props().push(infer_spec("aether:unknown"@)),
            r.unknown_entry() == (BlockStateId(18), infer_spec("aether:unknown"@)),
            r.unknown_entry() == (BlockStateId(18), BlockProperties::solid_spec()),
    {
        let mut blocks = BlockRegistry::new();
        proof {
            lemma_position_range(blocks.name_seq(), "aether:unknown"@);
            assert(blocks.prop_seq()[0] == BlockProperties::air_spec());
        }
        let ghost seeded = blocks;
        proof {
            lemma_unknown_not_seeded();
            crate::registry::lemma_unknown_is_solid();
        }
        let unknown = blocks.intern_full("aether:unknown");
        proof {
            blocks.lemma_lens();
            seeded.lemma_lens();
            lemma_position_range(seeded.name_seq(), "aether:unknown"@);
        }
        let mut map: HashMap<u32, (BlockStateId, BlockProperties)> = HashMap::new();
        map.insert(0u32, (BlockStateId::air(), BlockProperties::air()));
        let ghost first: Map<u32, Seq<char>> = Map::empty().insert(0u32, "minecraft:air"@);
        let names: Ghost<Map<u32, Seq<char>>> = Ghost(first);
        let r = Self { blocks, map, unknown, names };
        proof {
            assert(r.names@.dom() =~= r.map@.dom());
        }
        assert(r.entries() =~= map![0u32 => (BlockStateId(0), BlockProperties::air_spec())]);
        r
    }

    /// Map vanilla protocol `state_id` to the engine block named `name`
    /// (interning the engine id / inferring properties on first sight).
    pub fn register(&mut self, state_id: u32, name: &str)
        requires
            old(self).wf(),
            old(self).engine().name_seq().len() < u32::MAX,
        ensures
            final(self).wf(),
            final(self).unknown_entry() == old(self).unknown_entry(),
            final(self).state_names() == old(self).state_names().insert(state_id, name@),
            final(self).engine().name_seq().len() <= old(self).engine().name_seq().len() + 1,
            old(self).engine().lookup(name@) is Some ==> final(self).engine().name_seq() == old(self).engine().name_seq()
                && final(self).engine().prop_seq() == old(self).engine().prop_seq(),
            old(self).engine().lookup(name@) is None ==> final(self).engine().name_seq() == old(
                self,
            ).engine().name_seq().push(name@) && final(self).engine().prop_seq() == old(self).engine().prop_seq().push(
                infer_spec(name@),
            ),
            old(self).engine().lookup(name@) matches Some(known) ==> final(self).entries() == old(
                self,
            ).entries().insert(state_id, (known, old(self).engine().props_of_spec(known))),
            old(self).engine().lookup(name@) is None ==> final(self).entries() == old(self).entries().insert(
                state_id,
                (BlockStateId(old(self).engine().name_seq().len() as u32), infer_spec(name@)),
            ),
    {
        let ghost before = self.blocks;
        proof {
            lemma_position_range(before.name_seq(), name@);
        }
        let full = self.blocks.intern_full(name);
        proof {
            before.lemma_lens();
            self.blocks.lemma_lens();
            assert(registered_in(self.blocks, full));
            assert(self.blocks.prop_seq()[0] == BlockProperties::air_spec());
            assert forall|k: u32| #[trigger] self.map@.contains_key(k) implies registered_in(
                self.blocks,
                self.map@[k],
            ) by {
                assert(registered_in(before, self.map@[k]));
            }
            assert(registered_in(before, self.unknown));
        }
        self.map.insert(state_id, full);
        proof {
            self.names@ = self.names@.insert(state_id, name@);
            lemma_position_range(before.name_seq(), name@);
            assert(self.names@.dom() =~= self.map@.dom());
            assert forall|k: u32| #[trigger] self.map@.contains_key(k) && k != 0 implies self.blocks.name_seq()[self.map@[k].0.0 as int]
                == self.names@[k] by {
                if k != state_id {
                    assert(registered_in(before, self.map@[k]));
                }
            }
        }
    }

    /// Bulk-register `(state_id, name)` pairs, in order.
    pub fn register_all(&mut self, pairs: &[(u32, &str)])
        requires
            old(self).wf(),
            old(self).engine().name_seq().len() + pairs@.len() < u32::MAX,
        ensures
            final(self).wf(),
            final(self).unknown_entry() == old(self).unknown_entry(),
            final(self).state_names() == named_by(old(self).state_names(), pairs@),
            (final(self).entries(), final(self).engine().name_seq(), final(self).engine().prop_seq())
                == after_registering(old(self).entries(), old(self).engine().name_seq(), old(self).engine().prop_seq(), pairs@),
            forall|k: u32|
                #[trigger] final(self).entries().contains_key(k) <==> (old(self).entries().contains_key(k)
                    || exists|i: int| 0 <= i < pairs@.len() && pairs@[i].0 == k),
    {
        let mut i: usize = 0;
        while i < pairs.len()
            invariant
                i <= pairs@.len(),
                self.wf(),
                self.engine().name_seq().len() <= old(self).engine().name_seq().len() + i,
                old(self).engine().name_seq().len() + pairs@.len() < u32::MAX,
                self.unknown_entry() == old(self).unknown_entry(),
                self.state_names() == named_by(old(self).state_names(), pairs@.take(i as int)),
                (self.entries(), self.engine().name_seq(), self.engine().prop_seq()) == after_registering(
                    old(self).entries(),
                    old(self).engine().name_seq(),
                    old(self).engine().prop_seq(),
                    pairs@.take(i as int),
                ),
                forall|k: u32|
                    #[trigger] self.entries().contains_key(k) <==> (old(self).entries().contains_key(k) || exists|
                        j: int,
                    | 0 <= j < i && pairs@[j].0 == k),
            decreases pairs@.len() - i,
        {
            let (id, name) = pairs[i];
            let ghost pre = *self;
            proof {
                lemma_position_range(pre.engine().name_seq(), name@);
                pre.engine().lemma_lens();
            }
            self.register(id, name);
            proof {
                assert(pairs@.take(i as int + 1).drop_last() =~= pairs@.take(i as int));
                assert forall|k: u32| #[trigger] self.entries().contains_key(k) <==> (old(
                    self,
                ).entries().contains_key(k) || exists|j: int| 0 <= j < i + 1 && pairs@[j].0 == k) by {
                    if k == id {
                        assert(pairs@[i as int].0 == k);
                    }
                }
            }
            i += 1;
        }
        proof {
            assert(pairs@.take(pairs@.len() as int) =~= pairs@);
        }
    }

    /// Resolve a vanilla `state_id` to an engine id + properties, falling back
    /// to the "unknown" solid block if it was never registered.
    pub fn resolve(&self, state_id: u32) -> (r: (BlockStateId, BlockProperties))
        requires
            self.wf(),
        ensures
            r == self.resolve_spec(state_id),
            registered_in(self.engine(), r),
    {
        if state_id == 0 {
            return (BlockStateId::air(), BlockProperties::air());
        }
        match self.map.get(&state_id) {
            Some(v) => *v,
            None => self.unknown,
        }
    }

    /// What a state resolves to, after any registrations: state 0 is air;
    /// a state last registered under a name resolves to the engine block of
    /// that name, with the properties the engine holds for it; any other
    /// state resolves to the engine's `aether:unknown` block.
    pub proof fn lemma_resolve_law(&self, s: u32)
        requires
            self.wf(),
        ensures
            s == 0 ==> self.resolve_spec(s) == (BlockStateId(0), BlockProperties::air_spec()),
            s != 0 && self.state_names().contains_key(s) ==> self.engine().name_seq()[self.resolve_spec(s).0.0 as int]
                == self.state_names()[s] && self.resolve_spec(s).1 == self.engine().prop_seq()[self.resolve_spec(s).0.0 as int],
            s != 0 && !self.state_names().contains_key(s) ==> self.engine().name_seq()[self.resolve_spec(s).0.0 as int]
                == "aether:unknown"@ && self.resolve_spec(s).1 == self.engine().prop_seq()[self.resolve_spec(s).0.0 as int],
    {
        if s != 0 && self.map@.contains_key(s) {
            assert(registered_in(self.blocks, self.map@[s]));
        }
    }

    /// The engine registry behind this proxy (for name lookups).
    pub fn blocks(&self) -> (r: &BlockRegistry)
        requires
            self.wf(),
        ensures
            *r == self.engine(),
            r.wf(),
    {
        &self.blocks
    }
}

} // verus!
