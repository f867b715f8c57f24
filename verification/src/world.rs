//! The world facade: block access in world coordinates over a storage
//! backend and a chunk generator, with sub-chunks cached in memory.
//!
//! A chunk column is brought in on first touch: its sub-chunks are loaded
//! from storage, or, when storage holds none of them, generated and saved.
//! Writes go to the cached sub-chunk and are marked dirty until a flush
//! persists them.

use vstd::prelude::*;
use crate::block::{BlockProperties, BlockStateId};
use crate::column_light::{ColumnLight, ColumnMedium};
use crate::light::{in_box, least_lit, LightVolume};
use crate::format::{SubChunkKey, key_bytes, lemma_key_round_trip, subchunk_blob};
use crate::registry::BlockRegistry;
use crate::storage::{KvBackend, StorageError, WorldStorage, zstd_frame};
use crate::subchunk::SubChunk;
use crate::worldgen::ChunkGenerator;

verus! {

/// Lowest sub-chunk index scanned when a column is loaded from storage.
const SCAN_CY_MIN: i8 = -4;

/// Highest sub-chunk index scanned when a column is loaded from storage.
const SCAN_CY_MAX: i8 = 19;

/// Chunk (or section) index of a world coordinate: floor division by 16.
pub open spec fn chunk_of(v: int) -> int {
    v / 16
}

/// Offset of a world coordinate inside its chunk, `0..16`.
pub open spec fn local_of(v: int) -> int {
    v % 16
}

/// Whether world `y` falls in a sub-chunk whose index fits an `i8`.
pub open spec fn y_in_range(y: int) -> bool {
    -128 <= chunk_of(y) <= 127
}

/// The key of the sub-chunk holding world `(x, y, z)` (for `y` in range).
pub open spec fn key_at(x: int, y: int, z: int) -> SubChunkKey {
    SubChunkKey { cx: chunk_of(x) as i32, cy: chunk_of(y) as i8, cz: chunk_of(z) as i32 }
}

/// The sections cached for a list of distinct keys.
pub open spec fn section_map(c: Seq<(SubChunkKey, SubChunk)>) -> Map<SubChunkKey, SubChunk> {
    Map::new(
        |k: SubChunkKey| exists|i: int| 0 <= i < c.len() && c[i].0 == k,
        |k: SubChunkKey| c[choose|i: int| 0 <= i < c.len() && c[i].0 == k].1,
    )
}

spec fn keys_distinct(c: Seq<(SubChunkKey, SubChunk)>) -> bool {
    forall|i: int, j: int| 0 <= i < j < c.len() ==> #[trigger] c[i].0 != #[trigger] c[j].0
}

spec fn distinct<T>(s: Seq<T>) -> bool {
    forall|i: int, j: int| 0 <= i < j < s.len() ==> #[trigger] s[i] != #[trigger] s[j]
}

proof fn lemma_section_at(c: Seq<(SubChunkKey, SubChunk)>, i: int)
    requires
        keys_distinct(c),
        0 <= i < c.len(),
    ensures
        section_map(c).contains_key(c[i].0),
        section_map(c)[c[i].0] == c[i].1,
{
    let j = choose|j: int| 0 <= j < c.len() && c[j].0 == c[i].0;
    assert(0 <= j < c.len() && c[j].0 == c[i].0);
    if j != i {
        if j < i {
            assert(c[j].0 != c[i].0);
        } else {
            assert(c[i].0 != c[j].0);
        }
    }
}

proof fn lemma_section_push(c: Seq<(SubChunkKey, SubChunk)>, k: SubChunkKey, sc: SubChunk)
    requires
        keys_distinct(c),
        forall|i: int| 0 <= i < c.len() ==> c[i].0 != k,
    ensures
        keys_distinct(c.push((k, sc))),
        section_map(c.push((k, sc))) == section_map(c).insert(k, sc),
{
    let n = c.push((k, sc));
    assert forall|q: SubChunkKey| #[trigger] section_map(n).contains_key(q) <==> section_map(c).insert(k, sc).contains_key(q) by {
        if section_map(c).contains_key(q) {
            let j = choose|j: int| 0 <= j < c.len() && c[j].0 == q;
            assert(n[j].0 == q);
        }
        if q == k {
            assert(n[c.len() as int].0 == q);
        }
        if section_map(n).contains_key(q) && q != k {
            let j = choose|j: int| 0 <= j < n.len() && n[j].0 == q;
            assert(c[j].0 == q);
        }
    }
    assert forall|q: SubChunkKey| #[trigger] section_map(n).contains_key(q) implies section_map(n)[q] == section_map(c).insert(
        k,
        sc,
    )[q] by {
        if q == k {
            lemma_section_at(n, c.len() as int);
        } else {
            let j = choose|j: int| 0 <= j < c.len() && c[j].0 == q;
            lemma_section_at(c, j);
            assert(n[j] == c[j]);
            lemma_section_at(n, j);
        }
    }
    assert(section_map(n) =~= section_map(c).insert(k, sc));
}

proof fn lemma_section_update(c: Seq<(SubChunkKey, SubChunk)>, i: int, sc: SubChunk)
    requires
        keys_distinct(c),
        0 <= i < c.len(),
    ensures
        keys_distinct(c.update(i, (c[i].0, sc))),
        section_map(c.update(i, (c[i].0, sc))) == section_map(c).insert(c[i].0, sc),
{
    let k = c[i].0;
    let n = c.update(i, (k, sc));
    assert forall|q: SubChunkKey| #[trigger] section_map(n).contains_key(q) <==> section_map(c).insert(k, sc).contains_key(q) by {
        if section_map(c).contains_key(q) {
            let j = choose|j: int| 0 <= j < c.len() && c[j].0 == q;
            assert(n[j].0 == q);
        }
        if q == k {
            assert(n[i].0 == q);
        }
        if section_map(n).contains_key(q) {
            let j = choose|j: int| 0 <= j < n.len() && n[j].0 == q;
            assert(c[j].0 == q);
        }
    }
    assert forall|q: SubChunkKey| #[trigger] section_map(n).contains_key(q) implies section_map(n)[q] == section_map(c).insert(
        k,
        sc,
    )[q] by {
        if q == k {
            lemma_section_at(n, i);
        } else {
            let j = choose|j: int| 0 <= j < c.len() && c[j].0 == q;
            lemma_section_at(c, j);
            assert(n[j] == c[j]);
            lemma_section_at(n, j);
        }
    }
    assert(section_map(n) =~= section_map(c).insert(k, sc));
}

proof fn lemma_to_set_push<T>(s: Seq<T>, x: T)
    ensures
        s.push(x).to_set() == s.to_set().insert(x),
{
    let n = s.push(x);
    assert forall|y: T| #[trigger] n.to_set().contains(y) <==> s.to_set().insert(x).contains(y) by {
        if s.contains(y) {
            let j = choose|j: int| 0 <= j < s.len() && s[j] == y;
            assert(n[j] == y);
        }
        if n.contains(y) && y != x {
            let j = choose|j: int| 0 <= j < n.len() && n[j] == y;
            assert(s[j] == y);
        }
        if y == x {
            assert(n[s.len() as int] == x);
        }
    }
    assert(n.to_set() =~= s.to_set().insert(x));
}

/// Whether `kb` is the storage key of some sub-chunk of column `(cx, cz)`.
pub open spec fn in_column(kb: Seq<u8>, cx: i32, cz: i32) -> bool {
    exists|cy: i8| kb == key_bytes(SubChunkKey { cx, cy, cz })
}

/// Distinct keys have distinct byte encodings.
proof fn lemma_key_bytes_injective(a: SubChunkKey, b: SubChunkKey)
    requires
        key_bytes(a) == key_bytes(b),
    ensures
        a == b,
{
    lemma_key_round_trip(a);
    lemma_key_round_trip(b);
}

/// `v`'s chunk index and its offset inside the chunk.
fn split(v: i32) -> (r: (i32, usize))
    ensures
        r.0 as int == chunk_of(v as int),
        r.1 as int == local_of(v as int),
        r.1 < 16,
{
    let w = v as i64;
    let q = if w >= 0 {
        w / 16
    } else {
        (w - 15) / 16
    };
    let l = w - q * 16;
    assert(q as int == chunk_of(v as int) && l as int == local_of(v as int));
    (q as i32, l as usize)
}

/// Whether `sc` can take `id` with `props`: the id keeps its properties and
/// the palette has room.
fn section_can_set(sc: &SubChunk, id: BlockStateId, props: BlockProperties) -> (r: bool)
    requires
        sc.wf(),
    ensures
        r == sc.can_set(id, props),
{
    let entries = sc.palette().entries();
    let eprops = sc.palette().entry_props();
    proof {
        sc.lemma_masks_match();
        sc.spec_palette().lemma_wf_facts();
    }
    let mut known = false;
    let mut k: usize = 0;
    while k < entries.len()
        invariant
            k <= entries@.len(),
            entries@ == sc.spec_palette().entry_seq(),
            eprops@ == sc.spec_palette().prop_seq(),
            eprops@.len() == entries@.len(),
            known == (exists|t: int| 0 <= t < k && entries@[t] == id),
            forall|t: int| 0 <= t < k && entries@[t] == id ==> eprops@[t] == props,
        decreases entries@.len() - k,
    {
        if entries[k] == id {
            if eprops[k] != props {
                return false;
            }
            known = true;
        }
        k += 1;
    }
    known || entries.len() < 4096
}

/// The blobs a flush writes for `keys`: each key's storage key mapped to
/// the compressed blob of its cached sub-chunk.
pub open spec fn blobs_for(keys: Seq<SubChunkKey>, secs: Map<SubChunkKey, SubChunk>) -> Map<Seq<u8>, Seq<u8>>
    decreases keys.len(),
{
    if keys.len() == 0 {
        Map::empty()
    } else {
        blobs_for(keys.drop_last(), secs).insert(key_bytes(keys.last()), zstd_frame(subchunk_blob(secs[keys.last()])))
    }
}

proof fn lemma_blobs_for(keys: Seq<SubChunkKey>, secs: Map<SubChunkKey, SubChunk>)
    requires
        distinct(keys),
    ensures
        forall|j: int|
            0 <= j < keys.len() ==> blobs_for(keys, secs).contains_key(key_bytes(#[trigger] keys[j])) && blobs_for(
                keys,
                secs,
            )[key_bytes(keys[j])] == zstd_frame(subchunk_blob(secs[keys[j]])),
        forall|kb: Seq<u8>|
            #[trigger] blobs_for(keys, secs).contains_key(kb) ==> exists|j: int| 0 <= j < keys.len() && kb == key_bytes(keys[j]),
    decreases keys.len(),
{
    if keys.len() > 0 {
        let init = keys.drop_last();
        assert(distinct(init)) by {
            assert forall|i: int, j: int| 0 <= i < j < init.len() implies #[trigger] init[i] != #[trigger] init[j] by {
                assert(init[i] == keys[i] && init[j] == keys[j]);
            }
        }
        lemma_blobs_for(init, secs);
        let last = keys.last();
        assert forall|j: int| 0 <= j < keys.len() - 1 implies key_bytes(#[trigger] keys[j]) != key_bytes(last) by {
            assert(keys[j] == init[j]);
            if key_bytes(keys[j]) == key_bytes(last) {
                lemma_key_bytes_injective(keys[j], last);
                assert(keys[j] != keys[keys.len() - 1]);
            }
        }
        assert forall|j: int| 0 <= j < keys.len() implies blobs_for(keys, secs).contains_key(key_bytes(#[trigger] keys[j]))
            && blobs_for(keys, secs)[key_bytes(keys[j])] == zstd_frame(subchunk_blob(secs[keys[j]])) by {
            if j < keys.len() - 1 {
                assert(keys[j] == init[j]);
            }
        }
        assert forall|kb: Seq<u8>| #[trigger] blobs_for(keys, secs).contains_key(kb) implies exists|j: int|
            0 <= j < keys.len() && kb == key_bytes(keys[j]) by {
            if kb == key_bytes(last) {
                assert(kb == key_bytes(keys[keys.len() - 1]));
            } else {
                assert(blobs_for(init, secs).contains_key(kb));
                let j = choose|j: int| 0 <= j < init.len() && kb == key_bytes(init[j]);
                assert(init[j] == keys[j]);
            }
        }
    }
}

/// Whether an all-air sub-chunk can take `id` with `props`: air keeps its
/// own properties.
pub open spec fn fresh_can_set(id: BlockStateId, props: BlockProperties) -> bool {
    id != BlockStateId(0) || props == BlockProperties::air_spec()
}

/// The column holding world `(x, z)`.
pub open spec fn column_at(x: int, z: int) -> (i32, i32) {
    (chunk_of(x) as i32, chunk_of(z) as i32)
}

/// What physics needs of a world: whether a block cell is solid.
pub trait BlockView {
    /// Whether the unit cube at `(x, y, z)` blocks movement.
    fn is_solid(&self, x: i32, y: i32, z: i32) -> bool;
}

/// A read after a successful write gives back the block written: after
/// `set_block_id` returns `true` the column is loaded and the cached block
/// is `id`, and `get_block` on a loaded column leaves the world as it is and
/// returns the cached block.
pub proof fn lemma_get_after_set<B: KvBackend, G: ChunkGenerator>(
    written: World<B, G>,
    read: World<B, G>,
    x: i32,
    y: i32,
    z: i32,
    id: BlockStateId,
    r: BlockStateId,
)
    requires
        written.block_at_world(x as int, y as int, z as int) == id,
        written.loaded_columns().contains(column_at(x as int, z as int)),
        written.loaded_columns().contains(column_at(x as int, z as int)) ==> read == written,
        r == read.block_at_world(x as int, y as int, z as int),
    ensures
        r == id,
{
}

/// A live world: block access and on-demand generation over a
/// [`KvBackend`] and a [`ChunkGenerator`].
pub struct World<B: KvBackend, G: ChunkGenerator> {
    storage: WorldStorage<B>,
    generator: G,
    registry: BlockRegistry,
    cache: Vec<(SubChunkKey, SubChunk)>,
    dirty: Vec<SubChunkKey>,
    columns: Vec<(i32, i32)>,
}

impl<B: KvBackend, G: ChunkGenerator> World<B, G> {
    /// Well-formedness: distinct cached keys, well-formed sections, dirty
    /// keys that are cached, and every cached section in a loaded column.
    pub closed spec fn wf(&self) -> bool {
        &&& self.registry.wf()
        &&& keys_distinct(self.cache@)
        &&& forall|i: int| 0 <= i < self.cache@.len() ==> (#[trigger] self.cache@[i]).1.wf()
        &&& distinct(self.dirty@)
        &&& forall|i: int| 0 <= i < self.dirty@.len() ==> section_map(self.cache@).contains_key(#[trigger] self.dirty@[i])
        &&& distinct(self.columns@)
        &&& forall|i: int|
            0 <= i < self.cache@.len() ==> self.columns@.contains(((#[trigger] self.cache@[i]).0.cx, self.cache@[i].0.cz))
    }

    /// The cached sub-chunks.
    pub closed spec fn sections(&self) -> Map<SubChunkKey, SubChunk> {
        section_map(self.cache@)
    }

    /// Sub-chunks written since the last flush.
    pub closed spec fn dirty_keys(&self) -> Set<SubChunkKey> {
        self.dirty@.to_set()
    }

    /// Chunk columns brought in so far.
    pub closed spec fn loaded_columns(&self) -> Set<(i32, i32)> {
        self.columns@.to_set()
    }

    /// What the storage backend holds.
    pub closed spec fn stored(&self) -> Map<Seq<u8>, Seq<u8>> {
        self.storage.kv()
    }

    /// The block registry.
    pub closed spec fn spec_registry(&self) -> BlockRegistry {
        self.registry
    }

    /// Whether the storage backend never fails.
    pub closed spec fn backend_infallible(&self) -> bool {
        self.storage.infallible()
    }

    /// What a flush writes: the blob of every dirty sub-chunk under its key.
    pub closed spec fn pending(&self) -> Map<Seq<u8>, Seq<u8>> {
        blobs_for(self.dirty@, self.sections())
    }

    /// The block at world `(x, y, z)` as cached: air where no sub-chunk is
    /// cached or `y` is out of range.
    pub open spec fn block_at_world(&self, x: int, y: int, z: int) -> BlockStateId {
        if y_in_range(y) && self.sections().contains_key(key_at(x, y, z)) {
            self.sections()[key_at(x, y, z)].block_at(local_of(x), local_of(y), local_of(z))
        } else {
            BlockStateId(0)
        }
    }

    /// The properties of the block at world `(x, y, z)` as cached.
    pub open spec fn props_at_world(&self, x: int, y: int, z: int) -> BlockProperties {
        if y_in_range(y) && self.sections().contains_key(key_at(x, y, z)) {
            self.sections()[key_at(x, y, z)].props_at(local_of(x), local_of(y), local_of(z))
        } else {
            BlockProperties::air_spec()
        }
    }

    /// Create a world from a storage backend and a chunk generator.
    pub fn new(backend: B, generator: G) -> (r: Self)
        ensures
            r.wf(),
            r.sections() == Map::<SubChunkKey, SubChunk>::empty(),
            r.dirty_keys() == Set::<SubChunkKey>::empty(),
            r.loaded_columns() == Set::<(i32, i32)>::empty(),
            r.stored() == backend.kv(),
            r.backend_infallible() == backend.infallible(),
            r.spec_registry().wf(),
            r.spec_registry().name_seq() == crate::registry::seed_names(),
            r.spec_registry().prop_seq() == crate::registry::seed_props(),
    {
        let r = World {
            storage: WorldStorage::new(backend),
            generator,
            registry: BlockRegistry::new(),
            cache: Vec::new(),
            dirty: Vec::new(),
            columns: Vec::new(),
        };
        proof {
            assert(r.sections() =~= Map::<SubChunkKey, SubChunk>::empty());
            assert(r.dirty_keys() =~= Set::<SubChunkKey>::empty());
            assert(r.loaded_columns() =~= Set::<(i32, i32)>::empty());
        }
        r
    }

    fn find_section(&self, key: SubChunkKey) -> (r: Option<usize>)
        ensures
            r matches Some(i) ==> i < self.cache@.len() && self.cache@[i as int].0 == key,
            r is None ==> forall|i: int| 0 <= i < self.cache@.len() ==> self.cache@[i].0 != key,
    {
        let mut i: usize = 0;
        while i < self.cache.len()
            invariant
                i <= self.cache@.len(),
                forall|j: int| 0 <= j < i ==> self.cache@[j].0 != key,
            decreases self.cache@.len() - i,
        {
            if self.cache[i].0 == key {
                return Some(i);
            }
            i += 1;
        }
        None
    }

    fn dirty_has(&self, key: SubChunkKey) -> (r: bool)
        ensures
            r == self.dirty@.contains(key),
    {
        let mut i: usize = 0;
        while i < self.dirty.len()
            invariant
                i <= self.dirty@.len(),
                forall|j: int| 0 <= j < i ==> self.dirty@[j] != key,
            decreases self.dirty@.len() - i,
        {
            if self.dirty[i] == key {
                return true;
            }
            i += 1;
        }
        false
    }

    fn column_known(&self, cx: i32, cz: i32) -> (r: bool)
        ensures
            r == self.columns@.contains((cx, cz)),
    {
        let mut i: usize = 0;
        while i < self.columns.len()
            invariant
                i <= self.columns@.len(),
                forall|j: int| 0 <= j < i ==> self.columns@[j] != (cx, cz),
            decreases self.columns@.len() - i,
        {
            let (a, b) = self.columns[i];
            if a == cx && b == cz {
                return true;
            }
            i += 1;
        }
        false
    }

    /// Cache `sc` under `key`, replacing what was cached there.
    fn cache_put(&mut self, key: SubChunkKey, sc: SubChunk)
        requires
            old(self).wf(),
            sc.wf(),
            old(self).columns@.contains((key.cx, key.cz)),
        ensures
            final(self).wf(),
            final(self).sections() == old(self).sections().insert(key, sc),
            final(self).dirty@ == old(self).dirty@,
            final(self).columns@ == old(self).columns@,
            final(self).storage == old(self).storage,
            final(self).registry == old(self).registry,
            final(self).generator == old(self).generator,
    {
        let ghost c = self.cache@;
        match self.find_section(key) {
            Some(i) => {
                self.cache.set(i, (key, sc));
                proof {
                    lemma_section_update(c, i as int, sc);
                }
            },
            None => {
                self.cache.push((key, sc));
                proof {
                    lemma_section_push(c, key, sc);
                }
            },
        }
        proof {
            assert forall|i: int| 0 <= i < self.dirty@.len() implies section_map(self.cache@).contains_key(
                #[trigger] self.dirty@[i],
            ) by {
                assert(section_map(c).contains_key(self.dirty@[i]));
            }
            assert forall|i: int| 0 <= i < self.cache@.len() implies self.columns@.contains(
                ((#[trigger] self.cache@[i]).0.cx, self.cache@[i].0.cz),
            ) by {
                if self.cache@[i].0 != key {
                    assert(self.cache@[i] == c[i]);
                }
            }
        }
    }

    /// Mark the cached `key` dirty.
    fn mark_dirty(&mut self, key: SubChunkKey)
        requires
            old(self).wf(),
            old(self).sections().contains_key(key),
        ensures
            final(self).wf(),
            final(self).dirty@.to_set() == old(self).dirty@.to_set().insert(key),
            final(self).cache@ == old(self).cache@,
            final(self).columns@ == old(self).columns@,
            final(self).storage == old(self).storage,
            final(self).registry == old(self).registry,
            final(self).generator == old(self).generator,
    {
        if !self.dirty_has(key) {
            let ghost d = self.dirty@;
            self.dirty.push(key);
            proof {
                lemma_to_set_push(d, key);
                assert forall|i: int, j: int| 0 <= i < j < self.dirty@.len() implies #[trigger] self.dirty@[i]
                    != #[trigger] self.dirty@[j] by {
                    if j == d.len() {
                        assert(d.contains(self.dirty@[i]) ==> self.dirty@[i] != key);
                        assert(self.dirty@[i] == d[i]);
                    }
                }
            }
        } else {
            proof {
                assert(self.dirty@.to_set() =~= self.dirty@.to_set().insert(key));
            }
        }
    }

    /// Sections and dirty marks outside column `(cx, cz)` are as in `other`,
    /// and so is storage outside the column's keys.
    pub closed spec fn same_outside(&self, other: &Self, cx: i32, cz: i32) -> bool {
        &&& self.backend_infallible() == other.backend_infallible()
        &&& forall|k: SubChunkKey|
            !(k.cx == cx && k.cz == cz) ==> (#[trigger] self.sections().contains_key(k)
                <==> other.sections().contains_key(k))
        &&& forall|k: SubChunkKey|
            !(k.cx == cx && k.cz == cz) && other.sections().contains_key(k) ==> #[trigger] self.sections()[k]
                == other.sections()[k]
        &&& forall|k: SubChunkKey|
            !(k.cx == cx && k.cz == cz) ==> (#[trigger] self.dirty_keys().contains(k) <==> other.dirty_keys().contains(
                k,
            ))
        &&& forall|kb: Seq<u8>|
            !in_column(kb, cx, cz) ==> (#[trigger] self.stored().contains_key(kb) <==> other.stored().contains_key(
                kb,
            ))
        &&& forall|kb: Seq<u8>|
            !in_column(kb, cx, cz) && other.stored().contains_key(kb) ==> #[trigger] self.stored()[kb]
                == other.stored()[kb]
    }

    /// Bring column `(cx, cz)` in on first touch: load its sub-chunks from
    /// storage, or, when storage holds none and no read failed, generate the
    /// column and save it (a sub-chunk whose save fails stays dirty).
    fn ensure_column(&mut self, cx: i32, cz: i32)
        requires
            old(self).wf(),
        ensures
            final(self).wf(),
            final(self).loaded_columns() == old(self).loaded_columns().insert((cx, cz)),
            old(self).loaded_columns().contains((cx, cz)) ==> *final(self) == *old(self),
            final(self).spec_registry() == old(self).spec_registry(),
            old(self).dirty_keys().subset_of(final(self).dirty_keys()),
            final(self).same_outside(old(self), cx, cz),
    {
        if self.column_known(cx, cz) {
            return;
        }
        let ghost start = *self;
        proof {
            assert forall|i: int| 0 <= i < start.cache@.len() implies !((#[trigger] start.cache@[i]).0.cx == cx
                && start.cache@[i].0.cz == cz) by {
                assert(start.columns@.contains((start.cache@[i].0.cx, start.cache@[i].0.cz)));
            }
        }
        let ghost cols = self.columns@;
        self.columns.push((cx, cz));
        proof {
            lemma_to_set_push(cols, (cx, cz));
            assert forall|i: int, j: int| 0 <= i < j < self.columns@.len() implies #[trigger] self.columns@[i]
                != #[trigger] self.columns@[j] by {
                if j == cols.len() {
                    assert(self.columns@[i] == cols[i]);
                }
            }
            assert forall|i: int| 0 <= i < self.cache@.len() implies self.columns@.contains(
                ((#[trigger] self.cache@[i]).0.cx, self.cache@[i].0.cz),
            ) by {
                let j = choose|j: int| 0 <= j < cols.len() && cols[j] == (self.cache@[i].0.cx, self.cache@[i].0.cz);
                assert(self.columns@[j] == cols[j]);
            }
        }
        let mut loaded_any = false;
        let mut read_error = false;
        let mut cy: i8 = SCAN_CY_MIN;
        while cy <= SCAN_CY_MAX
            invariant
                self.wf(),
                self.columns@ == cols.push((cx, cz)),
                self.registry == start.registry,
                self.generator == start.generator,
                self.dirty@ == start.dirty@,
                SCAN_CY_MIN <= cy <= SCAN_CY_MAX + 1,
                forall|i: int|
                    0 <= i < self.cache@.len() && (#[trigger] self.cache@[i]).0.cx == cx && self.cache@[i].0.cz == cz
                        ==> self.cache@[i].0.cy < cy,
                self.same_outside(&start, cx, cz),
            decreases SCAN_CY_MAX + 1 - cy,
        {
            let key = SubChunkKey::new(cx, cy, cz);
            match self.storage.load(key) {
                Ok(Some(sc)) => {
                    let ghost before = *self;
                    proof {
                        assert forall|i: int| 0 <= i < self.cache@.len() implies self.cache@[i].0 != key by {
                            if self.cache@[i].0.cx == cx && self.cache@[i].0.cz == cz {
                                assert(self.cache@[i].0.cy < cy);
                            }
                        }
                    }
                    self.cache.push((key, sc));
                    proof {
                        lemma_section_push(before.cache@, key, sc);
                        assert forall|i: int| 0 <= i < self.dirty@.len() implies section_map(self.cache@).contains_key(
                            #[trigger] self.dirty@[i],
                        ) by {
                            assert(section_map(before.cache@).contains_key(self.dirty@[i]));
                        }
                        assert(self.columns@[cols.len() as int] == (cx, cz));
                        assert forall|i: int| 0 <= i < self.cache@.len() implies self.columns@.contains(
                            ((#[trigger] self.cache@[i]).0.cx, self.cache@[i].0.cz),
                        ) by {
                            if i < before.cache@.len() {
                                assert(self.cache@[i] == before.cache@[i]);
                            }
                        }
                        assert forall|i: int|
                            0 <= i < self.cache@.len() && (#[trigger] self.cache@[i]).0.cx == cx && self.cache@[i].0.cz
                                == cz implies self.cache@[i].0.cy < cy + 1 by {
                            if i < before.cache@.len() {
                                assert(self.cache@[i] == before.cache@[i]);
                            }
                        }
                        assert(self.dirty_keys() == before.dirty_keys());
                        assert(self.sections() == before.sections().insert(key, sc));
                        assert(self.stored() == before.stored());
                        assert forall|k: SubChunkKey| !(k.cx == cx && k.cz == cz) implies k != key by {}
                    }
                    loaded_any = true;
                },
                Ok(None) => {},
                Err(_) => {
                    read_error = true;
                },
            }
            cy += 1;
        }
        if !loaded_any && !read_error {
            let column = self.generator.generate_column(cx, cz);
            let mut secs = column.sections;
            while secs.len() > 0
                invariant
                    self.wf(),
                    self.columns@ == cols.push((cx, cz)),
                    self.registry == start.registry,
                    start.dirty@.to_set().subset_of(self.dirty@.to_set()),
                    forall|k: int| 0 <= k < secs@.len() ==> (#[trigger] secs@[k]).1.wf(),
                    self.same_outside(&start, cx, cz),
                decreases secs@.len(),
            {
                let (scy, sc) = secs.remove(0);
                proof {
                    assert(sc.wf()) by {
                        assert((secs@.len() + 1) > 0);
                    }
                }
                let key = SubChunkKey::new(cx, scy, cz);
                let ghost before = *self;
                let saved = self.storage.save(key, &sc);
                proof {
                    assert(in_column(key_bytes(key), cx, cz));
                }
                proof {
                    assert(self.columns@[cols.len() as int] == (cx, cz));
                }
                let ghost mid = *self;
                self.cache_put(key, sc);
                if saved.is_err() {
                    self.mark_dirty(key);
                }
                proof {
                    assert(self.sections() == mid.sections().insert(key, sc));
                    assert(self.dirty_keys() == mid.dirty_keys() || self.dirty_keys() == mid.dirty_keys().insert(key));
                    assert(self.stored() == mid.stored());
                    assert(mid.stored() == before.stored() || mid.stored() == before.stored().insert(
                        key_bytes(key),
                        zstd_frame(subchunk_blob(sc)),
                    ));
                    assert forall|k: SubChunkKey| !(k.cx == cx && k.cz == cz) implies (#[trigger] self.sections().contains_key(
                        k,
                    ) <==> start.sections().contains_key(k)) && (start.sections().contains_key(k) ==> self.sections()[k]
                        == start.sections()[k]) && (self.dirty_keys().contains(k) <==> start.dirty_keys().contains(k)) by {
                        assert(k != key);
                        assert(before.sections().contains_key(k) <==> start.sections().contains_key(k));
                        assert(before.dirty_keys().contains(k) <==> start.dirty_keys().contains(k));
                        assert(mid.dirty_keys() == before.dirty_keys());
                        if start.sections().contains_key(k) {
                            assert(before.sections()[k] == start.sections()[k]);
                        }
                    }
                    assert forall|kb: Seq<u8>| !in_column(kb, cx, cz) implies (#[trigger] self.stored().contains_key(kb)
                        <==> start.stored().contains_key(kb)) && (start.stored().contains_key(kb) ==> self.stored()[kb]
                        == start.stored()[kb]) by {
                        assert(kb != key_bytes(key));
                        assert(before.stored().contains_key(kb) <==> start.stored().contains_key(kb));
                        if start.stored().contains_key(kb) {
                            assert(before.stored()[kb] == start.stored()[kb]);
                        }
                    }
                }
            }
        }
    }

    fn key_of(x: i32, y: i32, z: i32) -> (r: Option<(SubChunkKey, usize, usize, usize)>)
        ensures
            r is None <==> !y_in_range(y as int),
            r matches Some(t) ==> t.0 == key_at(x as int, y as int, z as int) && t.1 as int == local_of(x as int)
                && t.2 as int == local_of(y as int) && t.3 as int == local_of(z as int) && t.1 < 16 && t.2 < 16
                && t.3 < 16,
    {
        let (cx, lx) = split(x);
        let (cy, ly) = split(y);
        let (cz, lz) = split(z);
        if cy < -128 || cy > 127 {
            return None;
        }
        Some((SubChunkKey::new(cx, cy as i8, cz), lx, ly, lz))
    }

    /// The canonical block registry (name ⇄ id ⇄ properties).
    pub fn registry(&self) -> (r: &BlockRegistry)
        ensures
            *r == self.spec_registry(),
    {
        &self.registry
    }

    /// The block id at world coordinates `(x, y, z)`, air if `y` is out of
    /// range. The column is brought in first.
    pub fn get_block(&mut self, x: i32, y: i32, z: i32) -> (r: BlockStateId)
        requires
            old(self).wf(),
        ensures
            final(self).wf(),
            r == final(self).block_at_world(x as int, y as int, z as int),
            !y_in_range(y as int) ==> *final(self) == *old(self),
            y_in_range(y as int) ==> final(self).loaded_columns() == old(self).loaded_columns().insert(
                column_at(x as int, z as int),
            ),
            old(self).loaded_columns().contains(column_at(x as int, z as int)) ==> *final(self) == *old(self),
            final(self).spec_registry() == old(self).spec_registry(),
            old(self).dirty_keys().subset_of(final(self).dirty_keys()),
            final(self).same_outside(old(self), column_at(x as int, z as int).0, column_at(x as int, z as int).1),
    {
        match Self::key_of(x, y, z) {
            None => BlockStateId::air(),
            Some((key, lx, ly, lz)) => {
                self.ensure_column(key.cx, key.cz);
                match self.find_section(key) {
                    Some(i) => {
                        proof {
                            lemma_section_at(self.cache@, i as int);
                            assert(self.cache@[i as int].1.wf());
                        }
                        self.cache[i].1.get(lx, ly, lz)
                    },
                    None => BlockStateId::air(),
                }
            },
        }
    }

    /// The block name at `(x, y, z)`, if the registry knows its id.
    pub fn get_block_name(&mut self, x: i32, y: i32, z: i32) -> (r: Option<String>)
        requires
            old(self).wf(),
        ensures
            final(self).wf(),
            ({
                let id = final(self).block_at_world(x as int, y as int, z as int);
                &&& (id.0 as int) < final(self).spec_registry().name_seq().len() ==> (r matches Some(s) && s@
                    == final(self).spec_registry().name_seq()[id.0 as int])
                &&& (id.0 as int) >= final(self).spec_registry().name_seq().len() ==> r is None
            }),
            !y_in_range(y as int) ==> *final(self) == *old(self),
            y_in_range(y as int) ==> final(self).loaded_columns() == old(self).loaded_columns().insert(
                column_at(x as int, z as int),
            ),
            old(self).loaded_columns().contains(column_at(x as int, z as int)) ==> *final(self) == *old(self),
            final(self).spec_registry() == old(self).spec_registry(),
            old(self).dirty_keys().subset_of(final(self).dirty_keys()),
            final(self).same_outside(old(self), column_at(x as int, z as int).0, column_at(x as int, z as int).1),
    {
        let id = self.get_block(x, y, z);
        match self.registry.name_of(id) {
            Some(s) => Some(s.to_owned()),
            None => None,
        }
    }

    /// Set the block at `(x, y, z)` to an explicit id and properties,
    /// bringing the column in first. Returns whether the write happened: a
    /// `y` out of range, or a sub-chunk that cannot take the block (the id
    /// already has other properties there, or its palette is full), leaves
    /// the block as it was.
    pub fn set_block_id(&mut self, x: i32, y: i32, z: i32, id: BlockStateId, props: BlockProperties) -> (r: bool)
        requires
            old(self).wf(),
        ensures
            final(self).wf(),
            final(self).spec_registry() == old(self).spec_registry(),
            !y_in_range(y as int) ==> !r && *final(self) == *old(self),
            y_in_range(y as int) ==> final(self).loaded_columns() == old(self).loaded_columns().insert(
                column_at(x as int, z as int),
            ),
            old(self).dirty_keys().subset_of(final(self).dirty_keys()),
            final(self).same_outside(old(self), column_at(x as int, z as int).0, column_at(x as int, z as int).1),
            r ==> final(self).block_at_world(x as int, y as int, z as int) == id && final(self).props_at_world(
                x as int,
                y as int,
                z as int,
            ) == props && final(self).dirty_keys().contains(key_at(x as int, y as int, z as int)),
            y_in_range(y as int) && old(self).loaded_columns().contains(column_at(x as int, z as int)) ==> (r <==> (
            if old(self).sections().contains_key(key_at(x as int, y as int, z as int)) {
                old(self).sections()[key_at(x as int, y as int, z as int)].can_set(id, props)
            } else {
                fresh_can_set(id, props)
            })),
            old(self).loaded_columns().contains(column_at(x as int, z as int)) && !r ==> *final(self) == *old(self),
            old(self).loaded_columns().contains(column_at(x as int, z as int)) && r ==> final(self).dirty_keys()
                == old(self).dirty_keys().insert(key_at(x as int, y as int, z as int)) && final(self).stored()
                == old(self).stored() && final(self).loaded_columns() == old(self).loaded_columns() && (forall|
                a: int,
                b: int,
                c: int,
            |
                i32::MIN <= a <= i32::MAX && i32::MIN <= c <= i32::MAX && !(a == x && b == y && c == z)
                    ==> #[trigger] final(self).block_at_world(a, b, c) == old(self).block_at_world(a, b, c)),
    {
        let (key, lx, ly, lz) = match Self::key_of(x, y, z) {
            None => {
                return false;
            },
            Some(t) => t,
        };
        self.ensure_column(key.cx, key.cz);
        let ghost mid = *self;
        let ghost mut written: SubChunk = arbitrary();
        proof {
            assert(self.loaded_columns().contains((key.cx, key.cz)));
            assert(self.columns@.contains((key.cx, key.cz)));
        }
        match self.find_section(key) {
            Some(i) => {
                proof {
                    lemma_section_at(self.cache@, i as int);
                    assert(self.cache@[i as int].1.wf());
                }
                if !section_can_set(&self.cache[i].1, id, props) {
                    return false;
                }
                let (k, mut sc) = self.cache.remove(i);
                let ghost sc0 = sc;
                sc.set(lx, ly, lz, id, props);
                self.cache.insert(i, (k, sc));
                proof {
                    assert(self.cache@ =~= mid.cache@.update(i as int, (key, sc)));
                    lemma_section_update(mid.cache@, i as int, sc);
                    assert forall|j: int| 0 <= j < self.cache@.len() implies (#[trigger] self.cache@[j]).1.wf() by {
                        if j != i {
                            assert(self.cache@[j] == mid.cache@[j]);
                        }
                    }
                    assert forall|j: int| 0 <= j < self.dirty@.len() implies section_map(self.cache@).contains_key(
                        #[trigger] self.dirty@[j],
                    ) by {
                        assert(section_map(mid.cache@).contains_key(self.dirty@[j]));
                    }
                    assert forall|j: int| 0 <= j < self.cache@.len() implies self.columns@.contains(
                        ((#[trigger] self.cache@[j]).0.cx, self.cache@[j].0.cz),
                    ) by {
                        assert(self.cache@[j].0 == mid.cache@[j].0);
                    }
                    Self::lemma_write_frame(mid, *self, key, sc0, sc, lx as int, ly as int, lz as int, id, props, x as int, y as int, z as int);
                    written = sc;
                }
            },
            None => {
                let mut sc = SubChunk::new();
                let ghost sc0 = sc;
                proof {
                    assert(sc0.spec_palette().entry_seq()[0] == BlockStateId(0));
                    assert(sc0.spec_palette().has_id(id) ==> id == BlockStateId(0));
                    assert(sc0.can_set(id, props) == fresh_can_set(id, props));
                    assert(!self.sections().contains_key(key));
                }
                if !section_can_set(&sc, id, props) {
                    return false;
                }
                sc.set(lx, ly, lz, id, props);
                self.cache_put(key, sc);
                proof {
                    Self::lemma_write_frame(mid, *self, key, sc0, sc, lx as int, ly as int, lz as int, id, props, x as int, y as int, z as int);
                    written = sc;
                }
            },
        }
        proof {
            assert(self.sections() == mid.sections().insert(key, written));
            assert(self.columns@ == mid.columns@);
        }
        let ghost before_mark = *self;
        self.mark_dirty(key);
        proof {
            assert(self.sections() == before_mark.sections());
            assert(self.stored() == mid.stored());
            assert(self.dirty_keys() == mid.dirty_keys().insert(key));
            assert(self.sections() == mid.sections().insert(key, written));
            Self::lemma_same_outside_write(*self, mid, *old(self), key);
            assert(self.loaded_columns() == mid.loaded_columns());
            assert forall|a: int, b: int, c: int|
                i32::MIN <= a <= i32::MAX && i32::MIN <= c <= i32::MAX && !(a == x && b == y && c == z) implies #[trigger] self.block_at_world(
                a,
                b,
                c,
            ) == mid.block_at_world(a, b, c) by {
                assert(before_mark.block_at_world(a, b, c) == mid.block_at_world(a, b, c));
            }
        }
        true
    }

    /// A write of sub-chunk `key` (and its dirty mark) keeps what lies
    /// outside its column.
    proof fn lemma_same_outside_write(w2: Self, w1: Self, w0: Self, key: SubChunkKey)
        requires
            w1.same_outside(&w0, key.cx, key.cz),
            exists|sc: SubChunk| w2.sections() == w1.sections().insert(key, sc),
            w2.dirty_keys() == w1.dirty_keys().insert(key),
            w2.stored() == w1.stored(),
            w2.backend_infallible() == w1.backend_infallible(),
        ensures
            w2.same_outside(&w0, key.cx, key.cz),
    {
        let sc = choose|sc: SubChunk| w2.sections() == w1.sections().insert(key, sc);
        assert forall|k: SubChunkKey| !(k.cx == key.cx && k.cz == key.cz) implies (#[trigger] w2.sections().contains_key(k)
            <==> w0.sections().contains_key(k)) && (w0.sections().contains_key(k) ==> w2.sections()[k] == w0.sections()[k])
            && (w2.dirty_keys().contains(k) <==> w0.dirty_keys().contains(k)) by {
            assert(k != key);
            assert(w1.sections().contains_key(k) <==> w0.sections().contains_key(k));
            assert(w1.dirty_keys().contains(k) <==> w0.dirty_keys().contains(k));
            if w0.sections().contains_key(k) {
                assert(w1.sections()[k] == w0.sections()[k]);
            }
        }
    }

    /// The cached block at every point but `(x, y, z)` is kept by a write of
    /// sub-chunk `key` from `sc0` to `sc1` at local `(lx, ly, lz)`.
    proof fn lemma_write_frame(
        w0: Self,
        w1: Self,
        key: SubChunkKey,
        sc0: SubChunk,
        sc1: SubChunk,
        lx: int,
        ly: int,
        lz: int,
        id: BlockStateId,
        props: BlockProperties,
        x: int,
        y: int,
        z: int,
    )
        requires
            y_in_range(y),
            key == key_at(x, y, z),
            lx == local_of(x),
            ly == local_of(y),
            lz == local_of(z),
            sc0.wf(),
            w0.sections().contains_key(key) ==> w0.sections()[key] == sc0,
            !w0.sections().contains_key(key) ==> sc0.blocks() == Seq::new(4096, |_m: int| BlockStateId(0)),
            sc1.blocks() == sc0.blocks().update(crate::subchunk::morton_of(lx, ly, lz), id),
            sc1.props() == sc0.props().update(crate::subchunk::morton_of(lx, ly, lz), props),
            w1.sections() == w0.sections().insert(key, sc1),
            i32::MIN <= x <= i32::MAX,
            i32::MIN <= z <= i32::MAX,
        ensures
            w1.block_at_world(x, y, z) == id,
            w1.props_at_world(x, y, z) == props,
            forall|a: int, b: int, c: int|
                i32::MIN <= a <= i32::MAX && i32::MIN <= c <= i32::MAX && !(a == x && b == y && c == z)
                    ==> #[trigger] w1.block_at_world(a, b, c) == w0.block_at_world(a, b, c),
    {
        crate::morton::lemma_morton_decode_encode(lx as u8, ly as u8, lz as u8);
        sc0.lemma_masks_match();
        assert forall|a: int, b: int, c: int|
            i32::MIN <= a <= i32::MAX && i32::MIN <= c <= i32::MAX && !(a == x && b == y && c == z) implies #[trigger] w1.block_at_world(
            a,
            b,
            c,
        ) == w0.block_at_world(a, b, c) by {
            if y_in_range(b) && key_at(a, b, c) == key {
                vstd::arithmetic::div_mod::lemma_fundamental_div_mod(a, 16);
                vstd::arithmetic::div_mod::lemma_fundamental_div_mod(b, 16);
                vstd::arithmetic::div_mod::lemma_fundamental_div_mod(c, 16);
                vstd::arithmetic::div_mod::lemma_fundamental_div_mod(x, 16);
                vstd::arithmetic::div_mod::lemma_fundamental_div_mod(y, 16);
                vstd::arithmetic::div_mod::lemma_fundamental_div_mod(z, 16);
                assert(chunk_of(a) == chunk_of(x) && chunk_of(b) == chunk_of(y) && chunk_of(c) == chunk_of(z));
                assert(!(local_of(a) == lx && local_of(b) == ly && local_of(c) == lz));
                crate::worldgen::lemma_cell_write(sc0, sc1, lx, ly, lz, id, local_of(a), local_of(b), local_of(c));
                if !w0.sections().contains_key(key) {
                    crate::morton::lemma_morton_decode_encode(local_of(a) as u8, local_of(b) as u8, local_of(c) as u8);
                }
            }
        }
    }

    /// Set the block at `(x, y, z)` to the registry block `name`, bringing
    /// the column in first. Returns the id written: `None` when the registry
    /// does not know `name` (the world is then untouched) or the sub-chunk
    /// cannot take the block (see [`World::set_block_id`]).
    pub fn set_block(&mut self, x: i32, y: i32, z: i32, name: &str) -> (r: Option<BlockStateId>)
        requires
            old(self).wf(),
        ensures
            final(self).wf(),
            final(self).spec_registry() == old(self).spec_registry(),
            old(self).spec_registry().lookup(name@) is None ==> r is None && *final(self) == *old(self),
            r matches Some(id) ==> old(self).spec_registry().lookup(name@) == Some(id) && final(self).block_at_world(
                x as int,
                y as int,
                z as int,
            ) == id && final(self).props_at_world(x as int, y as int, z as int) == old(
                self,
            ).spec_registry().props_of_spec(id) && final(self).dirty_keys().contains(key_at(x as int, y as int, z as int)),
            old(self).spec_registry().lookup(name@) matches Some(id) ==> (y_in_range(y as int) && old(
                self,
            ).loaded_columns().contains(column_at(x as int, z as int)) ==> (r is Some <==> (
            if old(self).sections().contains_key(key_at(x as int, y as int, z as int)) {
                old(self).sections()[key_at(x as int, y as int, z as int)].can_set(
                    id,
                    old(self).spec_registry().props_of_spec(id),
                )
            } else {
                fresh_can_set(id, old(self).spec_registry().props_of_spec(id))
            }))),
            old(self).dirty_keys().subset_of(final(self).dirty_keys()),
            final(self).same_outside(old(self), column_at(x as int, z as int).0, column_at(x as int, z as int).1),
    {
        let id = match self.registry.get(name) {
            Some(id) => id,
            None => {
                return None;
            },
        };
        let props = self.registry.props_of(id);
        if self.set_block_id(x, y, z, id, props) {
            Some(id)
        } else {
            None
        }
    }

    /// What a flush writes is exactly the blob of each dirty sub-chunk, under
    /// that sub-chunk's storage key.
    pub proof fn lemma_pending(&self)
        requires
            self.wf(),
        ensures
            forall|k: SubChunkKey|
                #[trigger] self.dirty_keys().contains(k) ==> self.pending().contains_key(key_bytes(k))
                    && self.pending()[key_bytes(k)] == zstd_frame(subchunk_blob(self.sections()[k])),
            forall|kb: Seq<u8>|
                #[trigger] self.pending().contains_key(kb) ==> exists|k: SubChunkKey|
                    self.dirty_keys().contains(k) && kb == key_bytes(k),
    {
        lemma_blobs_for(self.dirty@, self.sections());
        assert forall|k: SubChunkKey| #[trigger] self.dirty_keys().contains(k) implies self.pending().contains_key(
            key_bytes(k),
        ) && self.pending()[key_bytes(k)] == zstd_frame(subchunk_blob(self.sections()[k])) by {
            let j = choose|j: int| 0 <= j < self.dirty@.len() && self.dirty@[j] == k;
        }
        assert forall|kb: Seq<u8>| #[trigger] self.pending().contains_key(kb) implies exists|k: SubChunkKey|
            self.dirty_keys().contains(k) && kb == key_bytes(k) by {
            let j = choose|j: int| 0 <= j < self.dirty@.len() && kb == key_bytes(self.dirty@[j]);
            assert(self.dirty_keys().contains(self.dirty@[j]));
        }
    }

    /// Persist every sub-chunk written since the last flush, then flush the
    /// backend. On success nothing is dirty any more and storage holds each
    /// written sub-chunk's blob; on failure the dirty marks stay for a retry.
    pub fn flush(&mut self) -> (r: Result<(), StorageError>)
        requires
            old(self).wf(),
        ensures
            final(self).wf(),
            final(self).sections() == old(self).sections(),
            final(self).loaded_columns() == old(self).loaded_columns(),
            final(self).spec_registry() == old(self).spec_registry(),
            r is Ok ==> final(self).dirty_keys() == Set::<SubChunkKey>::empty() && final(self).stored() == old(
                self,
            ).stored().union_prefer_right(old(self).pending()),
            r is Err ==> final(self).dirty_keys() == old(self).dirty_keys(),
            final(self).backend_infallible() == old(self).backend_infallible(),
            old(self).backend_infallible() ==> r is Ok,
    {
        let ghost start = *self;
        proof {
            assert(start.dirty@.take(0) =~= Seq::<SubChunkKey>::empty());
            assert(start.stored().union_prefer_right(Map::empty()) =~= start.stored());
        }
        let mut i: usize = 0;
        while i < self.dirty.len()
            invariant
                self.wf(),
                start == *old(self),
                i <= self.dirty@.len(),
                self.cache@ == start.cache@,
                self.dirty@ == start.dirty@,
                self.columns@ == start.columns@,
                self.registry == start.registry,
                self.storage.infallible() == start.storage.infallible(),
                self.stored() == start.stored().union_prefer_right(
                    blobs_for(start.dirty@.take(i as int), start.sections()),
                ),
            decreases self.dirty@.len() - i,
        {
            let key = self.dirty[i];
            let ghost before = self.stored();
            match self.find_section(key) {
                Some(j) => {
                    proof {
                        lemma_section_at(self.cache@, j as int);
                        assert(self.cache@[j as int].1.wf());
                    }
                    let res = self.storage.save(key, &self.cache[j].1);
                    if res.is_err() {
                        return res;
                    }
                    proof {
                        let t1 = start.dirty@.take(i as int + 1);
                        assert(t1.drop_last() =~= start.dirty@.take(i as int));
                        assert(t1.last() == key);
                        assert(self.stored() =~= start.stored().union_prefer_right(
                            blobs_for(start.dirty@.take(i as int + 1), start.sections()),
                        ));
                    }
                },
                None => {
                    proof {
                        assert(section_map(self.cache@).contains_key(self.dirty@[i as int]));
                        assert(false);
                    }
                },
            }
            i += 1;
        }
        let fr = self.storage.flush();
        if fr.is_err() {
            return fr;
        }
        self.dirty = Vec::new();
        proof {
            assert(start.dirty@.take(start.dirty@.len() as int) =~= start.dirty@);
            assert(self.dirty_keys() =~= Set::<SubChunkKey>::empty());
        }
        Ok(())
    }

    /// A cheap surface-height hint for `(x, z)`: scan down from the top of
    /// the band a column is loaded from (`y` 319) to its bottom (`y` -64)
    /// for the first non-air block; the bottom when there is none.
    pub fn height_hint(&mut self, x: i32, z: i32) -> (r: i32)
        requires
            old(self).wf(),
        ensures
            final(self).wf(),
            final(self).spec_registry() == old(self).spec_registry(),
            final(self).loaded_columns() == old(self).loaded_columns().insert(column_at(x as int, z as int)),
            old(self).loaded_columns().contains(column_at(x as int, z as int)) ==> *final(self) == *old(self),
            old(self).dirty_keys().subset_of(final(self).dirty_keys()),
            final(self).same_outside(old(self), column_at(x as int, z as int).0, column_at(x as int, z as int).1),
            -64 <= r <= 319,
            forall|y: int| r < y <= 319 ==> #[trigger] final(self).block_at_world(x as int, y, z as int) == BlockStateId(0),
            r > -64 ==> final(self).block_at_world(x as int, r as int, z as int) != BlockStateId(0),
    {
        let top: i32 = SCAN_CY_MAX as i32 * 16 + 15;
        let bottom: i32 = SCAN_CY_MIN as i32 * 16;
        let first = self.get_block(x, top, z);
        if first != BlockStateId::air() {
            return top;
        }
        let mut y: i32 = top - 1;
        while y >= bottom
            invariant
                self.wf(),
                bottom - 1 <= y < top,
                top == 319,
                bottom == -64,
                self.spec_registry() == old(self).spec_registry(),
                self.loaded_columns() == old(self).loaded_columns().insert(column_at(x as int, z as int)),
                old(self).loaded_columns().contains(column_at(x as int, z as int)) ==> *self == *old(self),
                old(self).dirty_keys().subset_of(self.dirty_keys()),
                self.same_outside(old(self), column_at(x as int, z as int).0, column_at(x as int, z as int).1),
                forall|yy: int| y < yy <= 319 ==> #[trigger] self.block_at_world(x as int, yy, z as int) == BlockStateId(0),
            decreases y - bottom + 1,
        {
            let ghost before = *self;
            proof {
                assert(self.loaded_columns().contains(column_at(x as int, z as int)));
            }
            let b = self.get_block(x, y, z);
            proof {
                assert(*self == before);
            }
            if b != BlockStateId::air() {
                return y;
            }
            y -= 1;
        }
        bottom
    }

    /// Whether the block at `(x, y, z)` collides (blocks with the
    /// `collision` property act as solid unit cubes); the column is brought
    /// in first.
    pub fn is_solid(&mut self, x: i32, y: i32, z: i32) -> (r: bool)
        requires
            old(self).wf(),
        ensures
            final(self).wf(),
            r == final(self).props_at_world(x as int, y as int, z as int).collision,
            !y_in_range(y as int) ==> *final(self) == *old(self),
            y_in_range(y as int) ==> final(self).loaded_columns() == old(self).loaded_columns().insert(
                column_at(x as int, z as int),
            ),
            old(self).loaded_columns().contains(column_at(x as int, z as int)) ==> *final(self) == *old(self),
            final(self).spec_registry() == old(self).spec_registry(),
            old(self).dirty_keys().subset_of(final(self).dirty_keys()),
            final(self).same_outside(old(self), column_at(x as int, z as int).0, column_at(x as int, z as int).1),
    {
        match Self::key_of(x, y, z) {
            None => false,
            Some((key, lx, ly, lz)) => {
                self.ensure_column(key.cx, key.cz);
                match self.find_section(key) {
                    Some(i) => {
                        proof {
                            lemma_section_at(self.cache@, i as int);
                            self.cache@[i as int].1.lemma_masks_match();
                        }
                        self.cache[i].1.collision_mask().get(SubChunk::index(lx, ly, lz))
                    },
                    None => false,
                }
            },
        }
    }

    /// The cached block at `(x, y, z)` and whether it is solid, reading the
    /// cache only.
    fn cached_cell(&self, x: i32, y: i32, z: i32) -> (r: (BlockStateId, bool))
        requires
            self.wf(),
        ensures
            r.0 == self.block_at_world(x as int, y as int, z as int),
            r.1 == self.props_at_world(x as int, y as int, z as int).solid,
    {
        match Self::key_of(x, y, z) {
            None => (BlockStateId::air(), false),
            Some((key, lx, ly, lz)) => match self.find_section(key) {
                Some(i) => {
                    proof {
                        lemma_section_at(self.cache@, i as int);
                        self.cache@[i as int].1.lemma_masks_match();
                    }
                    let sc = &self.cache[i].1;
                    (sc.get(lx, ly, lz), sc.solid_mask().get(SubChunk::index(lx, ly, lz)))
                },
                None => (BlockStateId::air(), false),
            },
        }
    }

    /// Light the chunk column `(cx, cz)`: bring it in, snapshot the opacity
    /// (solid blocks) and emission of its band (world `y` -64 to 319), and
    /// flood-fill block and sky light over it. Light does not cross the
    /// column's borders.
    pub fn light_column(&mut self, cx: i32, cz: i32) -> (r: ColumnLight)
        requires
            old(self).wf(),
            -134_217_728 <= cx <= 134_217_727,
            -134_217_728 <= cz <= 134_217_727,
        ensures
            final(self).wf(),
            final(self).spec_registry() == old(self).spec_registry(),
            final(self).loaded_columns() == old(self).loaded_columns().insert((cx, cz)),
            old(self).loaded_columns().contains((cx, cz)) ==> *final(self) == *old(self),
            old(self).dirty_keys().subset_of(final(self).dirty_keys()),
            final(self).same_outside(old(self), cx, cz),
            r.chunk_x() == cx,
            r.chunk_z() == cz,
            r.band_base() == -64,
            r.table().extent() == (16usize, 384usize, 16usize),
            exists|m: LightVolume|
                #![trigger least_lit(&m, false, r.table().block_seq())]
                m.extent() == (16usize, 384usize, 16usize) && (forall|x: int, y: int, z: int|
                    in_box(m.extent(), x, y, z) ==> m.opaque_at(x, y, z) == final(self).props_at_world(
                        cx * 16 + x,
                        y - 64,
                        cz * 16 + z,
                    ).solid && m.emission_at(x, y, z) == final(self).spec_registry().emission_spec_of(
                        final(self).block_at_world(cx * 16 + x, y - 64, cz * 16 + z),
                    )) && least_lit(&m, false, r.table().block_seq()) && least_lit(&m, true, r.table().sky_seq()),
    {
        self.ensure_column(cx, cz);
        let mut m = ColumnMedium::new(16, 384, 16);
        let mut y: usize = 0;
        while y < 384
            invariant
                self.wf(),
                y <= 384,
                -134_217_728 <= cx <= 134_217_727,
                -134_217_728 <= cz <= 134_217_727,
                m.volume_of().extent() == (16usize, 384usize, 16usize),
                forall|x2: int, y2: int, z2: int|
                    in_box(m.volume_of().extent(), x2, y2, z2) && y2 < y ==> m.volume_of().opaque_at(x2, y2, z2)
                        == self.props_at_world(cx * 16 + x2, y2 - 64, cz * 16 + z2).solid && m.volume_of().emission_at(
                        x2,
                        y2,
                        z2,
                    ) == self.spec_registry().emission_spec_of(self.block_at_world(cx * 16 + x2, y2 - 64, cz * 16 + z2)),
            decreases 384 - y,
        {
            let mut z: usize = 0;
            while z < 16
                invariant
                    self.wf(),
                    y < 384,
                    z <= 16,
                    -134_217_728 <= cx <= 134_217_727,
                    -134_217_728 <= cz <= 134_217_727,
                    m.volume_of().extent() == (16usize, 384usize, 16usize),
                    forall|x2: int, y2: int, z2: int|
                        in_box(m.volume_of().extent(), x2, y2, z2) && (y2 < y || (y2 == y && z2 < z))
                            ==> m.volume_of().opaque_at(x2, y2, z2) == self.props_at_world(cx * 16 + x2, y2 - 64, cz * 16 + z2).solid
                            && m.volume_of().emission_at(x2, y2, z2) == self.spec_registry().emission_spec_of(
                            self.block_at_world(cx * 16 + x2, y2 - 64, cz * 16 + z2),
                        ),
                decreases 16 - z,
            {
                let mut x: usize = 0;
                while x < 16
                    invariant
                        self.wf(),
                        y < 384,
                        z < 16,
                        x <= 16,
                        -134_217_728 <= cx <= 134_217_727,
                        -134_217_728 <= cz <= 134_217_727,
                        m.volume_of().extent() == (16usize, 384usize, 16usize),
                        forall|x2: int, y2: int, z2: int|
                            in_box(m.volume_of().extent(), x2, y2, z2) && (y2 < y || (y2 == y && z2 < z) || (y2 == y && z2
                                == z && x2 < x)) ==> m.volume_of().opaque_at(x2, y2, z2) == self.props_at_world(
                                cx * 16 + x2,
                                y2 - 64,
                                cz * 16 + z2,
                            ).solid && m.volume_of().emission_at(x2, y2, z2) == self.spec_registry().emission_spec_of(
                                self.block_at_world(cx * 16 + x2, y2 - 64, cz * 16 + z2),
                            ),
                    decreases 16 - x,
                {
                    let wx = cx * 16 + x as i32;
                    let wy = y as i32 - 64;
                    let wz = cz * 16 + z as i32;
                    let (id, solid) = self.cached_cell(wx, wy, wz);
                    let emission = self.registry.emission_of(id);
                    m.set(x, y, z, solid, emission);
                    x += 1;
                }
                z += 1;
            }
            y += 1;
        }
        let r = ColumnLight::new(cx, cz, -64, &m);
        proof {
            assert(least_lit(&m.volume_of(), false, r.table().block_seq()));
        }
        r
    }

    /// The number of sub-chunks cached.
    pub fn resident_sections(&self) -> (r: usize)
        requires
            self.wf(),
        ensures
            r == self.sections().dom().len(),
    {
        proof {
            let ks = self.cache@.map_values(|e: (SubChunkKey, SubChunk)| e.0);
            assert(ks.no_duplicates()) by {
                assert forall|i: int, j: int| 0 <= i < ks.len() && 0 <= j < ks.len() && i != j implies ks[i] != ks[j] by {
                    if i < j {
                        assert(self.cache@[i].0 != self.cache@[j].0);
                    } else {
                        assert(self.cache@[j].0 != self.cache@[i].0);
                    }
                }
            }
            ks.unique_seq_to_set();
            assert forall|k: SubChunkKey| #[trigger] self.sections().dom().contains(k) <==> ks.to_set().contains(k) by {
                if self.sections().dom().contains(k) {
                    let i = choose|i: int| 0 <= i < self.cache@.len() && self.cache@[i].0 == k;
                    assert(ks[i] == k);
                }
                if ks.to_set().contains(k) {
                    let i = choose|i: int| 0 <= i < ks.len() && ks[i] == k;
                    assert(self.cache@[i].0 == k);
                }
            }
            assert(self.sections().dom() =~= ks.to_set());
        }
        self.cache.len()
    }
}

} // verus!
