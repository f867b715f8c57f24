//! Chunk generation producing engine sub-chunks: the column builder every
//! generator writes through, and the superflat generator.
//!
//! A generator returns a [`GeneratedColumn`]: the non-empty vertical
//! sub-chunks for one `(cx, cz)` chunk column, ascending in `cy`.

use vstd::prelude::*;
use crate::block::{BlockProperties, BlockStateId};
use crate::ids;
use crate::registry::BlockRegistry;
use crate::subchunk::SubChunk;

verus! {

/// The generated sub-chunks for one chunk column, keyed by sub-chunk `Y`.
#[derive(Debug)]
pub struct GeneratedColumn {
    /// `(cy, sub-chunk)` pairs, ascending in `cy`; all-air sections are omitted.
    pub sections: Vec<(i8, SubChunk)>,
}

impl Default for GeneratedColumn {
    fn default() -> (r: Self)
        ensures
            r.sections@.len() == 0,
    {
        GeneratedColumn { sections: Vec::new() }
    }
}

/// A source of freshly generated chunk columns.
pub trait ChunkGenerator {
    /// Generate the column at chunk coordinates `(cx, cz)`; every section
    /// handed back is well formed.
    fn generate_column(&self, cx: i32, cz: i32) -> (r: GeneratedColumn)
        ensures
            forall|k: int| 0 <= k < r.sections@.len() ==> (#[trigger] r.sections@[k]).1.wf(),
    ;
}

/// The sub-chunk index of world `y`.
pub open spec fn cy_of(wy: int) -> int {
    wy / 16
}

/// Index of the section `cy` in `s`, or -1.
pub open spec fn section_index(s: Seq<(i8, SubChunk)>, cy: int) -> int
    decreases s.len(),
{
    if s.len() == 0 {
        -1
    } else if section_index(s.drop_last(), cy) >= 0 {
        section_index(s.drop_last(), cy)
    } else if s.last().0 == cy {
        s.len() - 1
    } else {
        -1
    }
}

/// Whether `s` is sorted by strictly ascending `cy`.
pub open spec fn ascending(s: Seq<(i8, SubChunk)>) -> bool {
    forall|a: int, b: int| 0 <= a < b < s.len() ==> (#[trigger] s[a]).0 < (#[trigger] s[b]).0
}

/// Whether every palette entry of `sc` carries the properties `reg` gives
/// its id, with air first.
pub open spec fn palette_follows(sc: SubChunk, reg: BlockRegistry) -> bool {
    let e = sc.spec_palette().entry_seq();
    let p = sc.spec_palette().prop_seq();
    &&& sc.wf()
    &&& e.len() >= 1
    &&& e[0] == BlockStateId(0)
    &&& e.len() == p.len()
    &&& e.no_duplicates()
    &&& forall|k: int| 0 <= k < e.len() ==> #[trigger] p[k] == reg.props_of_spec(e[k])
}

/// Whether writing `id` into `sc` keeps its palette within one sub-chunk's
/// capacity: the id is known, or there is room for it.
pub open spec fn has_room(sc: SubChunk, id: BlockStateId) -> bool {
    sc.spec_palette().has_id(id) || sc.spec_palette().entry_seq().len() < 4096
}

/// Whether every palette entry of every section of `s` is one of `ids`.
pub open spec fn ids_within(s: Seq<(i8, SubChunk)>, ids: Set<BlockStateId>) -> bool {
    forall|k: int, j: int|
        0 <= k < s.len() && 0 <= j < s[k].1.spec_palette().entry_seq().len() ==> ids.contains(
            #[trigger] s[k].1.spec_palette().entry_seq()[j],
        )
}

/// Whether the palettes of `s` draw only on `ids`, a finite set of at most
/// 4096 ids that holds air.
pub open spec fn draws_on(s: Seq<(i8, SubChunk)>, ids: Set<BlockStateId>) -> bool {
    &&& ids_within(s, ids)
    &&& ids.finite()
    &&& ids.len() <= 4096
    &&& ids.contains(BlockStateId(0))
}

/// Sections whose palettes draw on at most 4096 ids have room for any of them.
proof fn lemma_room(s: Seq<(i8, SubChunk)>, reg: BlockRegistry, ids: Set<BlockStateId>, id: BlockStateId)
    requires
        forall|k: int| 0 <= k < s.len() ==> palette_follows(#[trigger] s[k].1, reg),
        ids_within(s, ids),
        ids.finite(),
        ids.len() <= 4096,
        ids.contains(id),
    ensures
        forall|k: int| 0 <= k < s.len() ==> has_room(#[trigger] s[k].1, id),
{
    assert forall|k: int| 0 <= k < s.len() implies has_room(#[trigger] s[k].1, id) by {
        let e = s[k].1.spec_palette().entry_seq();
        assert(palette_follows(s[k].1, reg));
        if !s[k].1.spec_palette().has_id(id) {
            e.unique_seq_to_set();
            let rest = ids.remove(id);
            assert forall|b: BlockStateId| e.to_set().contains(b) implies rest.contains(b) by {
                let j = choose|j: int| 0 <= j < e.len() && e[j] == b;
                assert(ids.contains(s[k].1.spec_palette().entry_seq()[j]));
            }
            vstd::set_lib::lemma_len_subset(e.to_set(), rest);
        }
    }
}

/// Accumulates blocks for a column across sub-chunk boundaries, then emits
/// the non-empty sections. Handles the world-Y → `(cy, local y)` split.
pub struct ColumnBuilder<'a> {
    registry: &'a BlockRegistry,
    sections: Vec<(i8, SubChunk)>,
}

impl<'a> ColumnBuilder<'a> {
    /// Sections ascending by `cy`, palettes following the registry.
    pub closed spec fn wf(&self) -> bool {
        &&& self.registry.wf()
        &&& self.registry.prop_seq().len() >= 1
        &&& self.registry.prop_seq()[0] == BlockProperties::air_spec()
        &&& ascending(self.sections@)
        &&& forall|k: int| 0 <= k < self.sections@.len() ==> palette_follows(#[trigger] self.sections@[k].1, *self.registry)
    }

    /// The sections written so far, ascending by `cy`.
    pub closed spec fn section_seq(&self) -> Seq<(i8, SubChunk)> {
        self.sections@
    }

    /// The registry block properties come from.
    pub closed spec fn registry_of(&self) -> BlockRegistry {
        *self.registry
    }

    /// The block at local column coordinates `(lx, wy, lz)`.
    pub open spec fn block(&self, lx: int, wy: int, lz: int) -> BlockStateId {
        block_in(self.section_seq(), lx, wy, lz)
    }

    /// Whether a write of `id` at world `wy` is taken: sections only go up
    /// to their palette capacity.
    pub open spec fn accepts(&self, wy: int, id: BlockStateId) -> bool {
        let k = section_index(self.section_seq(), cy_of(wy));
        k < 0 || has_room(self.section_seq()[k].1, id)
    }

    /// A builder whose palettes draw on `ids` takes a write of any of them.
    pub proof fn lemma_accepts(&self, ids: Set<BlockStateId>, wy: int, id: BlockStateId)
        requires
            self.wf(),
            draws_on(self.section_seq(), ids),
            ids.contains(id),
        ensures
            self.accepts(wy, id),
    {
        lemma_room(self.sections@, *self.registry, ids, id);
        lemma_section_index_range(self.sections@, cy_of(wy));
    }

    /// A builder writing through `registry`.
    pub fn new(registry: &'a BlockRegistry) -> (r: Self)
        requires
            registry.wf(),
            registry.prop_seq().len() >= 1,
            registry.prop_seq()[0] == BlockProperties::air_spec(),
        ensures
            r.wf(),
            r.section_seq() == Seq::<(i8, SubChunk)>::empty(),
            r.registry_of() == *registry,
    {
        Self { registry, sections: Vec::new() }
    }

    /// Where section `cy` is, or where it would go.
    fn find(&self, cy: i8) -> (r: (usize, bool))
        requires
            self.wf(),
        ensures
            r.0 <= self.section_seq().len(),
            r.1 ==> r.0 < self.section_seq().len() && self.section_seq()[r.0 as int].0 == cy && section_index(
                self.section_seq(),
                cy as int,
            ) == r.0,
            !r.1 ==> section_index(self.section_seq(), cy as int) == -1 && (forall|a: int|
                0 <= a < r.0 ==> (#[trigger] self.section_seq()[a]).0 < cy) && (forall|a: int|
                r.0 <= a < self.section_seq().len() ==> (#[trigger] self.section_seq()[a]).0 > cy),
    {
        let mut i: usize = 0;
        while i < self.sections.len()
            invariant
                i <= self.sections@.len(),
                ascending(self.sections@),
                forall|a: int| 0 <= a < i ==> (#[trigger] self.sections@[a]).0 < cy,
            decreases self.sections@.len() - i,
        {
            if self.sections[i].0 == cy {
                proof {
                    lemma_section_index(self.sections@, cy as int, i as int);
                }
                return (i, true);
            }
            if self.sections[i].0 > cy {
                proof {
                    lemma_section_index(self.sections@, cy as int, self.sections@.len() as int);
                }
                return (i, false);
            }
            i += 1;
        }
        proof {
            lemma_section_index(self.sections@, cy as int, self.sections@.len() as int);
        }
        (i, false)
    }

    /// Set a block at local column coordinates `(lx, world_y, lz)` (`lx, lz`
    /// in `0..16`). Air is a no-op (sections default to air), as is a `y`
    /// whose sub-chunk index does not fit in an `i8`, or a write a full
    /// section palette cannot take.
    pub fn set(&mut self, lx: usize, world_y: i32, lz: usize, id: BlockStateId)
        requires
            old(self).wf(),
            lx < 16,
            lz < 16,
        ensures
            final(self).wf(),
            final(self).registry_of() == old(self).registry_of(),
            (id == BlockStateId(0) || cy_of(world_y as int) < -128 || cy_of(world_y as int) > 127 || !old(
                self,
            ).accepts(world_y as int, id)) ==> final(self).section_seq() == old(self).section_seq(),
            !(id == BlockStateId(0) || cy_of(world_y as int) < -128 || cy_of(world_y as int) > 127 || !old(
                self,
            ).accepts(world_y as int, id)) ==> forall|x: int, y: int, z: int|
                0 <= x < 16 && 0 <= z < 16 ==> #[trigger] final(self).block(x, y, z) == if x == lx && y == world_y
                    && z == lz {
                    id
                } else {
                    old(self).block(x, y, z)
                },
            forall|ids: Set<BlockStateId>|
                #[trigger] ids_within(old(self).section_seq(), ids) && ids.contains(id) && ids.contains(
                    BlockStateId(0),
                ) ==> ids_within(final(self).section_seq(), ids),
    {
        if id == BlockStateId::air() {
            return;
        }
        let wy = world_y as i64;
        let cy64 = if wy >= 0 {
            wy / 16
        } else {
            (wy - 15) / 16
        };
        if cy64 < -128 || cy64 > 127 {
            return;
        }
        let cy = cy64 as i8;
        let ly = (wy - cy64 * 16) as usize;
        assert(cy as int == cy_of(world_y as int) && ly as int == world_y % 16);
        let props = self.registry.props_of(id);
        let (k, found) = self.find(cy);
        let ghost before = self.sections@;
        if found {
            if !(crate::vanilla_section::palette_has(&self.sections[k].1, id)
                || self.sections[k].1.palette().distinct() < 4096) {
                return;
            }
            let mut entry = self.sections.remove(k);
            let ghost sc1 = entry.1;
            proof {
                assert(sc1 == before[k as int].1);
                lemma_write_ok(sc1, *self.registry, id, props);
            }
            entry.1.set(lx, ly, lz, id, props);
            proof {
                lemma_set_follows(sc1, entry.1, *self.registry, id, props);
            }
            self.sections.insert(k, entry);
            proof {
                assert(self.sections@ =~= before.update(k as int, (cy, entry.1)));
                lemma_replace(before, k as int, entry.1, *self.registry, lx as int, ly as int, lz as int, world_y as int, id);
                assert forall|ids: Set<BlockStateId>|
                    #[trigger] ids_within(before, ids) && ids.contains(id) implies ids_within(self.sections@, ids) by {
                    assert forall|a: int, j: int|
                        0 <= a < self.sections@.len() && 0 <= j < self.sections@[a].1.spec_palette().entry_seq().len()
                            implies ids.contains(#[trigger] self.sections@[a].1.spec_palette().entry_seq()[j]) by {
                        if a == k as int && j < sc1.spec_palette().entry_seq().len() {
                            assert(self.sections@[a].1.spec_palette().entry_seq()[j] == before[a].1.spec_palette().entry_seq()[j]);
                        }
                    }
                }
            }
        } else {
            let mut sc = SubChunk::new();
            let ghost sc1 = sc;
            proof {
                assert(sc1.spec_palette().entry_seq()[0] == BlockStateId(0));
                lemma_write_ok(sc1, *self.registry, id, props);
            }
            sc.set(lx, ly, lz, id, props);
            proof {
                lemma_set_follows(sc1, sc, *self.registry, id, props);
            }
            self.sections.insert(k, (cy, sc));
            proof {
                lemma_insert_new(before, k as int, cy, sc, *self.registry, lx as int, ly as int, lz as int, world_y as int, id);
                assert forall|ids: Set<BlockStateId>|
                    #[trigger] ids_within(before, ids) && ids.contains(id) && ids.contains(BlockStateId(0)) implies ids_within(
                        self.sections@,
                        ids,
                    ) by {
                    assert forall|a: int, j: int|
                        0 <= a < self.sections@.len() && 0 <= j < self.sections@[a].1.spec_palette().entry_seq().len()
                            implies ids.contains(#[trigger] self.sections@[a].1.spec_palette().entry_seq()[j]) by {
                        if a < k as int {
                            assert(self.sections@[a] == before[a]);
                        } else if a > k as int {
                            assert(self.sections@[a] == before[a - 1]);
                        }
                    }
                }
            }
        }
    }

    /// Force the block at local column coordinates `(lx, world_y, lz)` to
    /// air, overwriting whatever terrain was there. A section that does not
    /// exist yet is already all air.
    pub fn clear(&mut self, lx: usize, world_y: i32, lz: usize)
        requires
            old(self).wf(),
            lx < 16,
            lz < 16,
        ensures
            final(self).wf(),
            final(self).registry_of() == old(self).registry_of(),
            forall|x: int, y: int, z: int|
                0 <= x < 16 && 0 <= z < 16 ==> #[trigger] final(self).block(x, y, z) == if x == lx && y == world_y
                    && z == lz {
                    BlockStateId(0)
                } else {
                    old(self).block(x, y, z)
                },
            forall|ids: Set<BlockStateId>|
                #[trigger] ids_within(old(self).section_seq(), ids) && ids.contains(BlockStateId(0)) ==> ids_within(
                    final(self).section_seq(),
                    ids,
                ),
    {
        let wy = world_y as i64;
        let cy64 = if wy >= 0 {
            wy / 16
        } else {
            (wy - 15) / 16
        };
        if cy64 < -128 || cy64 > 127 {
            proof {
                lemma_section_index_range(self.sections@, cy_of(world_y as int));
            }
            return;
        }
        let cy = cy64 as i8;
        let ly = (wy - cy64 * 16) as usize;
        assert(cy as int == cy_of(world_y as int) && ly as int == world_y % 16);
        let (k, found) = self.find(cy);
        let ghost before = self.sections@;
        if found {
            let mut entry = self.sections.remove(k);
            let ghost sc1 = entry.1;
            proof {
                assert(sc1 == before[k as int].1);
                lemma_write_ok(sc1, *self.registry, BlockStateId(0), BlockProperties::air_spec());
            }
            entry.1.set(lx, ly, lz, BlockStateId::air(), BlockProperties::air());
            proof {
                lemma_set_follows(sc1, entry.1, *self.registry, BlockStateId(0), BlockProperties::air_spec());
            }
            self.sections.insert(k, entry);
            proof {
                assert(self.sections@ =~= before.update(k as int, (cy, entry.1)));
                lemma_replace(
                    before,
                    k as int,
                    entry.1,
                    *self.registry,
                    lx as int,
                    ly as int,
                    lz as int,
                    world_y as int,
                    BlockStateId(0),
                );
                assert forall|ids: Set<BlockStateId>|
                    #[trigger] ids_within(before, ids) && ids.contains(BlockStateId(0)) implies ids_within(
                        self.sections@,
                        ids,
                    ) by {
                    assert forall|a: int, j: int|
                        0 <= a < self.sections@.len() && 0 <= j < self.sections@[a].1.spec_palette().entry_seq().len()
                            implies ids.contains(#[trigger] self.sections@[a].1.spec_palette().entry_seq()[j]) by {
                        if a == k as int && j < sc1.spec_palette().entry_seq().len() {
                            assert(self.sections@[a].1.spec_palette().entry_seq()[j] == before[a].1.spec_palette().entry_seq()[j]);
                        }
                    }
                }
            }
        } else {
            proof {
                lemma_section_index_range(before, cy as int);
                assert forall|x: int, y: int, z: int|
                    0 <= x < 16 && 0 <= z < 16 implies #[trigger] block_in(before, x, y, z) == if x == lx && y
                    == world_y && z == lz {
                    BlockStateId(0)
                } else {
                    block_in(before, x, y, z)
                } by {}
            }
        }
    }

    /// The non-empty sections, ascending by `cy`.
    pub fn finish(self) -> (r: GeneratedColumn)
        requires
            self.wf(),
        ensures
            r.sections@ == nonempty_sections(self.section_seq()),
            forall|k: int| 0 <= k < r.sections@.len() ==> (#[trigger] r.sections@[k]).1.wf(),
            ascending(r.sections@),
    {
        let ghost all = self.sections@;
        proof {
            lemma_nonempty_props(all);
            assert forall|j: int| 0 <= j < all.len() implies (#[trigger] all[j]).1.wf() by {
                assert(palette_follows(all[j].1, *self.registry));
            }
        }
        let mut sections = self.sections;
        let mut rev: Vec<(i8, SubChunk)> = Vec::new();
        // Walk from the back so each section moves without copying.
        while sections.len() > 0
            invariant
                nonempty_sections(all) == nonempty_sections(sections@) + rev@.reverse(),
                forall|j: int| 0 <= j < sections@.len() ==> (#[trigger] sections@[j]).1.wf(),
            decreases sections@.len(),
        {
            let ghost s0 = sections@;
            let e = sections.pop().unwrap();
            proof {
                assert(s0.drop_last() == sections@);
            }
            if !e.1.is_empty() {
                proof {
                    assert(rev@.push(e).reverse() =~= seq![e] + rev@.reverse());
                }
                rev.push(e);
            }
        }
        let mut out: Vec<(i8, SubChunk)> = Vec::new();
        while rev.len() > 0
            invariant
                nonempty_sections(all) == out@ + rev@.reverse(),
            decreases rev@.len(),
        {
            let ghost r0 = rev@;
            let e = rev.pop().unwrap();
            proof {
                assert(r0.reverse() =~= seq![e] + rev@.reverse());
                assert(out@ + r0.reverse() =~= out@.push(e) + rev@.reverse());
            }
            out.push(e);
        }
        proof {
            assert(out@ =~= nonempty_sections(all));
            assert forall|k: int| 0 <= k < out@.len() implies (#[trigger] out@[k]).1.wf() by {
                let j = choose|j: int| 0 <= j < all.len() && #[trigger] nonempty_sections(all)[k] == all[j];
            }
        }
        GeneratedColumn { sections: out }
    }
}

/// Dropping the empty sections changes no block.
proof fn lemma_nonempty_block(s: Seq<(i8, SubChunk)>, reg: BlockRegistry, x: int, y: int, z: int)
    requires
        ascending(s),
        forall|k: int| 0 <= k < s.len() ==> palette_follows(#[trigger] s[k].1, reg),
        0 <= x < 16,
        0 <= z < 16,
    ensures
        block_in(nonempty_sections(s), x, y, z) == block_in(s, x, y, z),
    decreases s.len(),
{
    if s.len() > 0 {
        let t = s.drop_last();
        let e = s.last();
        let c = cy_of(y);
        assert forall|k: int| 0 <= k < t.len() implies palette_follows(#[trigger] t[k].1, reg) by {
            assert(t[k] == s[k]);
        }
        lemma_nonempty_block(t, reg, x, y, z);
        lemma_section_index_range(t, c);
        lemma_nonempty_props(t);
        let n = nonempty_sections(t);
        lemma_section_index_range(n, c);
        if section_index(t, c) >= 0 {
            let k = section_index(t, c);
            assert(s[k].0 < s[s.len() - 1].0);
        }
        if e.1.all_air() {
            assert(nonempty_sections(s) == n);
            if section_index(t, c) < 0 && e.0 == c {
                assert(palette_follows(s[s.len() - 1].1, reg));
                crate::morton::lemma_morton_decode_encode(x as u8, (y % 16) as u8, z as u8);
                assert(e.1.blocks()[crate::subchunk::morton_of(x, y % 16, z)] == BlockStateId(0));
            }
        } else {
            assert(nonempty_sections(s) == n.push(e));
            assert(n.push(e).drop_last() =~= n);
            if section_index(n, c) >= 0 {
                let k = section_index(n, c);
                let j = choose|j: int| 0 <= j < t.len() && #[trigger] n[k] == t[j];
                assert(s[j].0 < s[s.len() - 1].0);
                assert(n.push(e)[k] == n[k]);
            }
        }
    }
}

/// The block a stack of flat layers leaves at world `y`: the last listed
/// non-air layer spanning `y`, else air.
pub open spec fn flat_block(layers: Seq<FlatLayer>, y: int) -> BlockStateId
    decreases layers.len(),
{
    if layers.len() == 0 {
        BlockStateId(0)
    } else if layers.last().block != BlockStateId(0) && layers.last().y_min <= y <= layers.last().y_max {
        layers.last().block
    } else {
        flat_block(layers.drop_last(), y)
    }
}

/// The column while layer `li` is being written, up to `(lx, y, lz)`.
spec fn flat_partial(
    layers: Seq<FlatLayer>,
    li: int,
    y: int,
    lz: int,
    lx: int,
    xx: int,
    yy: int,
    zz: int,
) -> BlockStateId {
    let l = layers[li];
    if l.block != BlockStateId(0) && l.y_min <= yy && (yy < y || (yy == y && (zz < lz || (zz == lz && xx < lx)))) {
        l.block
    } else {
        flat_block(layers.take(li), yy)
    }
}

/// One layer of a [`FlatGenerator`]: a block id spanning an inclusive Y range.
#[derive(Debug, Clone, Copy)]
pub struct FlatLayer {
    /// Block id to fill.
    pub block: BlockStateId,
    /// Inclusive minimum world Y.
    pub y_min: i32,
    /// Inclusive maximum world Y.
    pub y_max: i32,
}

/// A superflat generator: the same stack of [`FlatLayer`]s in every column.
pub struct FlatGenerator {
    registry: BlockRegistry,
    layers: Vec<FlatLayer>,
}

impl FlatGenerator {
    /// The registry is the engine's seeded one (air first).
    #[verifier::type_invariant]
    spec fn seeded(&self) -> bool {
        &&& self.registry.wf()
        &&& self.registry.prop_seq().len() >= 1
        &&& self.registry.prop_seq()[0] == BlockProperties::air_spec()
    }

    /// The layers, bottom-up as given.
    pub closed spec fn layer_seq(&self) -> Seq<FlatLayer> {
        self.layers@
    }

    /// A classic flat world: bedrock at y=0, dirt 1..=2, grass at y=3.
    pub fn classic() -> (r: Self)
        ensures
            r.layer_seq() == seq![
                FlatLayer { block: BlockStateId(ids::BEDROCK), y_min: 0, y_max: 0 },
                FlatLayer { block: BlockStateId(ids::DIRT), y_min: 1, y_max: 2 },
                FlatLayer { block: BlockStateId(ids::GRASS_BLOCK), y_min: 3, y_max: 3 },
            ],
    {
        let mut layers: Vec<FlatLayer> = Vec::new();
        layers.push(FlatLayer { block: BlockStateId(ids::BEDROCK), y_min: 0, y_max: 0 });
        layers.push(FlatLayer { block: BlockStateId(ids::DIRT), y_min: 1, y_max: 2 });
        layers.push(FlatLayer { block: BlockStateId(ids::GRASS_BLOCK), y_min: 3, y_max: 3 });
        let r = Self::with_layers(layers);
        assert(r.layer_seq() =~= seq![
            FlatLayer { block: BlockStateId(ids::BEDROCK), y_min: 0, y_max: 0 },
            FlatLayer { block: BlockStateId(ids::DIRT), y_min: 1, y_max: 2 },
            FlatLayer { block: BlockStateId(ids::GRASS_BLOCK), y_min: 3, y_max: 3 },
        ]);
        r
    }

    /// A flat generator from explicit layers.
    pub fn with_layers(layers: Vec<FlatLayer>) -> (r: Self)
        ensures
            r.layer_seq() == layers@,
    {
        let registry = BlockRegistry::new();
        proof {
            registry.lemma_lens();
        }
        Self { registry, layers }
    }
}

impl ChunkGenerator for FlatGenerator {
    /// Every layer is written into every `(lx, lz)` of the column, bottom
    /// layer first.
    fn generate_column(&self, _cx: i32, _cz: i32) -> (r: GeneratedColumn)
        ensures
            ascending(r.sections@),
            forall|k: int| 0 <= k < r.sections@.len() ==> (#[trigger] r.sections@[k]).1.wf(),
            self.layer_seq().len() < 4096 ==> forall|x: int, y: int, z: int|
                0 <= x < 16 && 0 <= z < 16 ==> #[trigger] block_in(r.sections@, x, y, z) == if -2048 <= y < 2048 {
                    flat_block(self.layer_seq(), y)
                } else {
                    BlockStateId(0)
                },
    {
        proof {
            use_type_invariant(self);
        }
        let ghost lay = self.layers@;
        let ghost good = lay.len() < 4096;
        let ghost blocks = lay.map_values(|l: FlatLayer| l.block);
        let ghost ids = blocks.to_set().insert(BlockStateId(0));
        proof {
            blocks.lemma_cardinality_of_set();
            vstd::seq_lib::seq_to_set_is_finite(blocks);
            assert forall|j: int| 0 <= j < lay.len() implies ids.contains(#[trigger] lay[j].block) by {
                assert(blocks[j] == lay[j].block);
            }
        }
        let mut b = ColumnBuilder::new(&self.registry);
        let mut li: usize = 0;
        while li < self.layers.len()
            invariant
                b.wf(),
                li <= lay.len(),
                lay == self.layers@,
                ids.finite(),
                ids.contains(BlockStateId(0)),
                good ==> ids.len() <= 4096,
                good == (lay.len() < 4096),
                forall|j: int| 0 <= j < lay.len() ==> ids.contains(#[trigger] lay[j].block),
                ids_within(b.section_seq(), ids),
                good ==> forall|xx: int, yy: int, zz: int|
                    0 <= xx < 16 && 0 <= zz < 16 && -2048 <= yy < 2048 ==> #[trigger] b.block(xx, yy, zz)
                        == flat_block(lay.take(li as int), yy),
            decreases self.layers@.len() - li,
        {
            let layer = self.layers[li];
            let mut y: i64 = layer.y_min as i64;
            while y <= layer.y_max as i64
                invariant
                    b.wf(),
                    li < lay.len(),
                    layer == lay[li as int],
                    layer.y_min <= y,
                    y == layer.y_min || y <= layer.y_max as i64 + 1,
                    ids.finite(),
                    ids.contains(BlockStateId(0)),
                    good ==> ids.len() <= 4096,
                    ids.contains(layer.block),
                    ids_within(b.section_seq(), ids),
                    good ==> forall|xx: int, yy: int, zz: int|
                        0 <= xx < 16 && 0 <= zz < 16 && -2048 <= yy < 2048 ==> #[trigger] b.block(xx, yy, zz)
                            == flat_partial(lay, li as int, y as int, 0, 0, xx, yy, zz),
                decreases layer.y_max as i64 + 1 - y,
            {
                let mut lz: usize = 0;
                while lz < 16
                    invariant
                        b.wf(),
                        lz <= 16,
                        i32::MIN <= y <= i32::MAX,
                        layer.y_min <= y,
                        li < lay.len(),
                        layer == lay[li as int],
                        ids.finite(),
                        ids.contains(BlockStateId(0)),
                        good ==> ids.len() <= 4096,
                        ids.contains(layer.block),
                        ids_within(b.section_seq(), ids),
                        good ==> forall|xx: int, yy: int, zz: int|
                            0 <= xx < 16 && 0 <= zz < 16 && -2048 <= yy < 2048 ==> #[trigger] b.block(xx, yy, zz)
                                == flat_partial(lay, li as int, y as int, lz as int, 0, xx, yy, zz),
                    decreases 16 - lz,
                {
                    let mut lx: usize = 0;
                    while lx < 16
                        invariant
                            b.wf(),
                            lx <= 16,
                            lz < 16,
                            i32::MIN <= y <= i32::MAX,
                            layer.y_min <= y,
                            li < lay.len(),
                            layer == lay[li as int],
                            ids.finite(),
                            ids.contains(BlockStateId(0)),
                            good ==> ids.len() <= 4096,
                            ids.contains(layer.block),
                            ids_within(b.section_seq(), ids),
                            good ==> forall|xx: int, yy: int, zz: int|
                                0 <= xx < 16 && 0 <= zz < 16 && -2048 <= yy < 2048 ==> #[trigger] b.block(xx, yy, zz)
                                    == flat_partial(lay, li as int, y as int, lz as int, lx as int, xx, yy, zz),
                        decreases 16 - lx,
                    {
                        let ghost pre = b;
                        proof {
                            if good {
                                lemma_room(b.section_seq(), b.registry_of(), ids, layer.block);
                                lemma_section_index_range(b.section_seq(), cy_of(y as int));
                            }
                        }
                        b.set(lx, y as i32, lz, layer.block);
                        proof {
                            if good {
                                assert forall|xx: int, yy: int, zz: int|
                                    0 <= xx < 16 && 0 <= zz < 16 && -2048 <= yy < 2048 implies #[trigger] b.block(
                                        xx,
                                        yy,
                                        zz,
                                    ) == flat_partial(lay, li as int, y as int, lz as int, lx as int + 1, xx, yy, zz) by {
                                    if layer.block != BlockStateId(0) && -128 <= cy_of(y as int) <= 127 {
                                        let k = section_index(pre.section_seq(), cy_of(y as int));
                                        if k >= 0 {
                                            assert(has_room(pre.section_seq()[k].1, layer.block));
                                        }
                                        assert(pre.accepts(y as int, layer.block));
                                        assert((y as i32) as int == y as int);
                                        assert(b.block(xx, yy, zz) == if xx == lx as int && yy == y as int && zz
                                            == lz as int {
                                            layer.block
                                        } else {
                                            pre.block(xx, yy, zz)
                                        });
                                    } else {
                                        assert(b.section_seq() == pre.section_seq());
                                        assert(b.block(xx, yy, zz) == pre.block(xx, yy, zz));
                                        assert(layer.block == BlockStateId(0) || yy != y as int);
                                    }
                                    assert(pre.block(xx, yy, zz) == flat_partial(
                                        lay,
                                        li as int,
                                        y as int,
                                        lz as int,
                                        lx as int,
                                        xx,
                                        yy,
                                        zz,
                                    ));
                                }
                            }
                        }
                        lx += 1;
                    }
                    lz += 1;
                }
                y += 1;
            }
            proof {
                assert(lay.take(li as int + 1).drop_last() =~= lay.take(li as int));
            }
            li += 1;
        }
        let ghost fin = b.section_seq();
        let ghost reg = b.registry_of();
        proof {
            assert(lay.take(lay.len() as int) =~= lay);
            assert forall|x: int, y: int, z: int|
                0 <= x < 16 && 0 <= z < 16 && -2048 <= y < 2048 && good implies #[trigger] block_in(fin, x, y, z)
                    == flat_block(lay, y) by {
                assert(b.block(x, y, z) == flat_block(lay.take(lay.len() as int), y));
            }
        }
        let r = b.finish();
        proof {
            assert forall|x: int, y: int, z: int| 0 <= x < 16 && 0 <= z < 16 implies #[trigger] block_in(
                r.sections@,
                x,
                y,
                z,
            ) == (if -2048 <= y < 2048 {
                flat_block(self.layer_seq(), y)
            } else {
                BlockStateId(0)
            }) || !good by {
                if good {
                    lemma_nonempty_block(fin, reg, x, y, z);
                    lemma_section_index_range(r.sections@, cy_of(y));
                }
            }
        }
        r
    }
}

/// Properties of a well-known block id, as the engine's seeded registry has them.
pub fn well_known_props(id: BlockStateId) -> (r: BlockProperties)
    ensures
        r == (if (id.0 as int) < 18 {
            crate::registry::seed_props()[id.0 as int]
        } else {
            BlockProperties::air_spec()
        }),
{
    let reg = BlockRegistry::new();
    proof {
        reg.lemma_lens();
    }
    reg.props_of(id)
}

/// The sections of `s` that hold something other than air, in order.
pub open spec fn nonempty_sections(s: Seq<(i8, SubChunk)>) -> Seq<(i8, SubChunk)>
    decreases s.len(),
{
    if s.len() == 0 {
        Seq::empty()
    } else if s.last().1.all_air() {
        nonempty_sections(s.drop_last())
    } else {
        nonempty_sections(s.drop_last()).push(s.last())
    }
}

proof fn lemma_nonempty_props(s: Seq<(i8, SubChunk)>)
    ensures
        forall|k: int|
            0 <= k < nonempty_sections(s).len() ==> exists|j: int|
                0 <= j < s.len() && #[trigger] nonempty_sections(s)[k] == s[j],
        ascending(s) ==> ascending(nonempty_sections(s)),
    decreases s.len(),
{
    if s.len() > 0 {
        let t = s.drop_last();
        lemma_nonempty_props(t);
        let n = nonempty_sections(t);
        assert forall|k: int| 0 <= k < nonempty_sections(s).len() implies exists|j: int|
            0 <= j < s.len() && #[trigger] nonempty_sections(s)[k] == s[j] by {
            if k < n.len() {
                let j = choose|j: int| 0 <= j < t.len() && n[k] == t[j];
                assert(s[j] == t[j]);
            } else {
                assert(nonempty_sections(s)[k] == s[s.len() - 1]);
            }
        }
        if ascending(s) {
            assert(ascending(t));
            assert forall|a: int, b: int|
                0 <= a < b < nonempty_sections(s).len() implies (#[trigger] nonempty_sections(s)[a]).0
                < (#[trigger] nonempty_sections(s)[b]).0 by {
                if b >= n.len() {
                    let j = choose|j: int| 0 <= j < t.len() && n[a] == t[j];
                    assert(s[j] == t[j]);
                }
            }
        }
    }
}

proof fn lemma_section_index(s: Seq<(i8, SubChunk)>, cy: int, k: int)
    requires
        0 <= k <= s.len(),
        forall|j: int| 0 <= j < k ==> s[j].0 != cy,
        ascending(s),
        k < s.len() ==> s[k].0 >= cy,
    ensures
        k < s.len() && s[k].0 == cy ==> section_index(s, cy) == k,
        (k == s.len() || s[k].0 > cy) ==> section_index(s, cy) == -1,
    decreases s.len(),
{
    if s.len() > 0 {
        if k == s.len() {
            lemma_section_index(s.drop_last(), cy, k - 1);
        } else {
            lemma_section_index(s.drop_last(), cy, k);
        }
    }
}

proof fn lemma_section_index_range(s: Seq<(i8, SubChunk)>, cy: int)
    ensures
        -1 <= section_index(s, cy) < s.len(),
        section_index(s, cy) >= 0 ==> s[section_index(s, cy)].0 == cy,
        (cy < -128 || cy > 127) ==> section_index(s, cy) == -1,
    decreases s.len(),
{
    if s.len() > 0 {
        lemma_section_index_range(s.drop_last(), cy);
    }
}

/// The block at local column coordinates `(lx, wy, lz)` of sections `s`.
pub open spec fn block_in(s: Seq<(i8, SubChunk)>, lx: int, wy: int, lz: int) -> BlockStateId {
    let k = section_index(s, cy_of(wy));
    if k >= 0 {
        s[k].1.block_at(lx, wy % 16, lz)
    } else {
        BlockStateId(0)
    }
}

proof fn lemma_write_ok(sc: SubChunk, reg: BlockRegistry, id: BlockStateId, props: BlockProperties)
    requires
        palette_follows(sc, reg),
        props == reg.props_of_spec(id),
        has_room(sc, id) || id == BlockStateId(0),
    ensures
        sc.can_set(id, props),
{
    if id == BlockStateId(0) {
        assert(sc.spec_palette().entry_seq()[0] == id);
    }
}

proof fn lemma_set_follows(before: SubChunk, after: SubChunk, reg: BlockRegistry, id: BlockStateId, props: BlockProperties)
    requires
        palette_follows(before, reg),
        props == reg.props_of_spec(id),
        after.wf(),
        before.spec_palette().has_id(id) ==> after.spec_palette().entry_seq() == before.spec_palette().entry_seq()
            && after.spec_palette().prop_seq() == before.spec_palette().prop_seq(),
        !before.spec_palette().has_id(id) ==> after.spec_palette().entry_seq()
            == before.spec_palette().entry_seq().push(id) && after.spec_palette().prop_seq()
            == before.spec_palette().prop_seq().push(props),
    ensures
        palette_follows(after, reg),
{
    let e = after.spec_palette().entry_seq();
    let p = after.spec_palette().prop_seq();
    let e0 = before.spec_palette().entry_seq();
    assert forall|k: int| 0 <= k < e.len() implies #[trigger] p[k] == reg.props_of_spec(e[k]) by {
        if k < e0.len() {
            assert(e[k] == e0[k]);
            assert(p[k] == before.spec_palette().prop_seq()[k]);
        }
    }
    if !before.spec_palette().has_id(id) {
        assert forall|a: int, b: int| 0 <= a < e.len() && 0 <= b < e.len() && a != b implies e[a] != e[b] by {
            if a < e0.len() && b < e0.len() {
                assert(e[a] == e0[a] && e[b] == e0[b]);
            } else if a < e0.len() {
                assert(e[a] == e0[a] && e[b] == id);
            } else if b < e0.len() {
                assert(e[b] == e0[b] && e[a] == id);
            }
        }
    }
}

proof fn lemma_index_of(s: Seq<(i8, SubChunk)>, k: int)
    requires
        ascending(s),
        0 <= k < s.len(),
    ensures
        section_index(s, s[k].0 as int) == k,
{
    assert forall|j: int| 0 <= j < k implies s[j].0 != s[k].0 by {
        assert(s[j].0 < s[k].0);
    }
    lemma_section_index(s, s[k].0 as int, k);
}

proof fn lemma_index_absent(s: Seq<(i8, SubChunk)>, c: int)
    requires
        ascending(s),
        forall|j: int| 0 <= j < s.len() ==> s[j].0 != c,
    ensures
        section_index(s, c) == -1,
{
    lemma_section_index(s, c, s.len() as int);
}

/// Writing one block of one section changes that block of the column only.
pub(crate) proof fn lemma_cell_write(sc1: SubChunk, sc2: SubChunk, lx: int, ly: int, lz: int, id: BlockStateId, x: int, y: int, z: int)
    requires
        sc1.wf(),
        0 <= lx < 16,
        0 <= ly < 16,
        0 <= lz < 16,
        0 <= x < 16,
        0 <= y < 16,
        0 <= z < 16,
        sc2.blocks() == sc1.blocks().update(crate::subchunk::morton_of(lx, ly, lz), id),
    ensures
        sc2.block_at(x, y, z) == if x == lx && y == ly && z == lz {
            id
        } else {
            sc1.block_at(x, y, z)
        },
{
    sc1.lemma_masks_match();
    crate::morton::lemma_morton_decode_encode(lx as u8, ly as u8, lz as u8);
    crate::morton::lemma_morton_decode_encode(x as u8, y as u8, z as u8);
}

proof fn lemma_replace(
    before: Seq<(i8, SubChunk)>,
    k: int,
    sc2: SubChunk,
    reg: BlockRegistry,
    lx: int,
    ly: int,
    lz: int,
    wy: int,
    id: BlockStateId,
)
    requires
        ascending(before),
        forall|j: int| 0 <= j < before.len() ==> palette_follows(#[trigger] before[j].1, reg),
        0 <= k < before.len(),
        palette_follows(sc2, reg),
        sc2.blocks() == before[k].1.blocks().update(crate::subchunk::morton_of(lx, ly, lz), id),
        before[k].0 == cy_of(wy),
        ly == wy % 16,
        0 <= lx < 16,
        0 <= lz < 16,
    ensures
        ({
            let after = before.update(k, (before[k].0, sc2));
            &&& ascending(after)
            &&& forall|j: int| 0 <= j < after.len() ==> palette_follows(#[trigger] after[j].1, reg)
            &&& forall|x: int, y: int, z: int|
                0 <= x < 16 && 0 <= z < 16 ==> #[trigger] block_in(after, x, y, z) == if x == lx && y == wy
                    && z == lz {
                    id
                } else {
                    block_in(before, x, y, z)
                }
        }),
{
    let after = before.update(k, (before[k].0, sc2));
    assert forall|a: int, b: int| 0 <= a < b < after.len() implies (#[trigger] after[a]).0 < (#[trigger] after[b]).0 by {
        assert(before[a].0 < before[b].0);
    }
    assert forall|x: int, y: int, z: int|
        0 <= x < 16 && 0 <= z < 16 implies #[trigger] block_in(after, x, y, z) == if x == lx && y == wy && z == lz {
        id
    } else {
        block_in(before, x, y, z)
    } by {
        let c = cy_of(y);
        lemma_section_index_range(before, c);
        lemma_index_of(before, k);
        let i = section_index(before, c);
        if i >= 0 {
            lemma_index_of(before, i);
            lemma_index_of(after, i);
            if i == k {
                assert(y == 16 * cy_of(y) + y % 16);
                assert(wy == 16 * cy_of(wy) + wy % 16);
                lemma_cell_write(before[k].1, sc2, lx, ly, lz, id, x, y % 16, z);
            }
        } else {
            assert forall|j: int| 0 <= j < after.len() implies after[j].0 != c by {
                if after[j].0 == c {
                    lemma_index_of(before, j);
                }
            }
            lemma_index_absent(after, c);
            assert(y != wy);
            assert(block_in(after, x, y, z) == block_in(before, x, y, z));
        }
    }
}

proof fn lemma_insert_new(
    before: Seq<(i8, SubChunk)>,
    k: int,
    cy: i8,
    sc2: SubChunk,
    reg: BlockRegistry,
    lx: int,
    ly: int,
    lz: int,
    wy: int,
    id: BlockStateId,
)
    requires
        ascending(before),
        forall|j: int| 0 <= j < before.len() ==> palette_follows(#[trigger] before[j].1, reg),
        0 <= k <= before.len(),
        forall|a: int| 0 <= a < k ==> (#[trigger] before[a]).0 < cy,
        forall|a: int| k <= a < before.len() ==> (#[trigger] before[a]).0 > cy,
        palette_follows(sc2, reg),
        sc2.blocks() == Seq::new(4096, |_m: int| BlockStateId(0)).update(crate::subchunk::morton_of(lx, ly, lz), id),
        cy == cy_of(wy),
        ly == wy % 16,
        0 <= lx < 16,
        0 <= lz < 16,
    ensures
        ({
            let after = before.insert(k, (cy, sc2));
            &&& ascending(after)
            &&& forall|j: int| 0 <= j < after.len() ==> palette_follows(#[trigger] after[j].1, reg)
            &&& forall|x: int, y: int, z: int|
                0 <= x < 16 && 0 <= z < 16 ==> #[trigger] block_in(after, x, y, z) == if x == lx && y == wy
                    && z == lz {
                    id
                } else {
                    block_in(before, x, y, z)
                }
        }),
{
    let after = before.insert(k, (cy, sc2));
    assert forall|a: int, b: int| 0 <= a < b < after.len() implies (#[trigger] after[a]).0 < (#[trigger] after[b]).0 by {
        if a < k && b < k {
            assert(before[a].0 < before[b].0);
        } else if a < k && b == k {
        } else if a < k {
            assert(before[a].0 < cy && before[b - 1].0 > cy);
        } else if a == k {
            assert(before[b - 1].0 > cy);
        } else {
            assert(before[a - 1].0 < before[b - 1].0);
        }
    }
    assert forall|j: int| 0 <= j < after.len() implies palette_follows(#[trigger] after[j].1, reg) by {
        if j < k {
            assert(after[j] == before[j]);
        } else if j > k {
            assert(after[j] == before[j - 1]);
        }
    }
    assert forall|x: int, y: int, z: int|
        0 <= x < 16 && 0 <= z < 16 implies #[trigger] block_in(after, x, y, z) == if x == lx && y == wy && z == lz {
        id
    } else {
        block_in(before, x, y, z)
    } by {
        let c = cy_of(y);
        lemma_section_index_range(before, c);
        let i = section_index(before, c);
        if c == cy {
            lemma_index_of(after, k);
            assert forall|j: int| 0 <= j < before.len() implies before[j].0 != c by {}
            lemma_index_absent(before, c);
            assert(y == 16 * cy_of(y) + y % 16);
            assert(wy == 16 * cy_of(wy) + wy % 16);
            crate::morton::lemma_morton_decode_encode(lx as u8, ly as u8, lz as u8);
            crate::morton::lemma_morton_decode_encode(x as u8, (y % 16) as u8, z as u8);
            assert(block_in(after, x, y, z) == sc2.block_at(x, y % 16, z));
            assert(block_in(before, x, y, z) == BlockStateId(0));
            let m = crate::subchunk::morton_of(x, y % 16, z);
            let m0 = crate::subchunk::morton_of(lx, ly, lz);
            assert(0 <= m < 4096);
            assert(m == m0 <==> (x == lx && y % 16 == ly && z == lz));
            assert(sc2.block_at(x, y % 16, z) == sc2.blocks()[m]);
            assert(0 <= m0 < 4096);
            assert(sc2.blocks()[m] == if m == m0 { id } else { BlockStateId(0) });
            assert((y % 16 == ly) <==> (y == wy));
            assert(block_in(after, x, y, z) == if x == lx && y == wy && z == lz {
                id
            } else {
                block_in(before, x, y, z)
            });
        } else if i >= 0 {
            lemma_index_of(before, i);
            assert(c != cy_of(wy));
            assert(y != wy);
            if i < k {
                assert(after[i] == before[i]);
                lemma_index_of(after, i);
                assert(section_index(after, c) == i);
            } else {
                assert(after[i + 1] == before[i]);
                lemma_index_of(after, i + 1);
                assert(section_index(after, c) == i + 1);
            }
            assert(block_in(after, x, y, z) == block_in(before, x, y, z));
        } else {
            assert forall|j: int| 0 <= j < after.len() implies after[j].0 != c by {
                if j < k {
                    if after[j].0 == c {
                        lemma_index_of(before, j);
                    }
                } else if j > k {
                    if after[j].0 == c {
                        assert(after[j] == before[j - 1]);
                        lemma_index_of(before, j - 1);
                    }
                }
            }
            lemma_index_absent(after, c);
            assert(y != wy);
            assert(block_in(after, x, y, z) == block_in(before, x, y, z));
        }
    }
}

} // verus!
