//! The block-entity arena: heavy per-block objects (chests, furnaces,
//! spawners, signs) live outside the dense block arrays, in a slot arena
//! addressed by the block's Morton position (`0..4096`). A free list reuses
//! slots as block entities come and go, so churn does not fragment the arena.

use vstd::prelude::*;
use std::collections::HashMap;
use crate::subchunk::{morton_of, SubChunk};

verus! {

broadcast use vstd::std_specs::hash::group_hash_axioms;

/// A heavy per-block object attached to a block position.
#[derive(Debug, Clone, PartialEq, Eq)]
pub enum BlockEntity {
    /// A container (chest, barrel, hopper …).
    Chest,
    /// A furnace / smoker / blast furnace.
    Furnace,
    /// A mob spawner for the named entity type.
    Spawner {
        /// Namespaced entity id the spawner produces.
        mob: String,
    },
    /// A sign carrying a few lines of text.
    Sign {
        /// The sign's text lines.
        lines: Vec<String>,
    },
    /// Any other block-entity kind, identified by its type name.
    Other {
        /// Namespaced block-entity type id.
        kind: String,
    },
}

/// A per-sub-chunk arena of [`BlockEntity`]s, keyed by Morton block position.
///
/// Slots are recycled through a free list, and a `position → slot` map keeps
/// lookups by block position O(1).
#[derive(Debug)]
pub struct BlockEntityArena {
    slots: Vec<Option<BlockEntity>>,
    free: Vec<u32>,
    by_pos: HashMap<u16, u32>,
}

impl BlockEntityArena {
    /// The map from position to slot is injective into occupied slots; the
    /// free list holds every empty slot exactly once.
    pub closed spec fn wf(&self) -> bool {
        let s = self.slots@;
        let f = self.free@;
        let m = self.by_pos@;
        &&& s.len() <= u32::MAX
        &&& forall|p: u16| #[trigger]
            m.contains_key(p) ==> (m[p] as int) < s.len() && s[m[p] as int] is Some
        &&& forall|p1: u16, p2: u16|
            #[trigger] m.contains_key(p1) && #[trigger] m.contains_key(p2) && m[p1] == m[p2] ==> p1
                == p2
        &&& forall|i: int| 0 <= i < f.len() ==> (#[trigger] f[i] as int) < s.len() && s[f[i] as int] is None
        &&& forall|i: int, j: int| 0 <= i < j < f.len() ==> #[trigger] f[i] != #[trigger] f[j]
        &&& forall|k: int| 0 <= k < s.len() && #[trigger] s[k] is None ==> f.contains(k as u32)
    }

    /// The stored block entities by position.
    pub closed spec fn view(&self) -> Map<u16, BlockEntity> {
        Map::new(
            |p: u16| self.by_pos@.contains_key(p),
            |p: u16| self.slots@[self.by_pos@[p] as int]->Some_0,
        )
    }

    /// The stored block entities are finitely many.
    pub proof fn lemma_view_finite(&self)
        ensures
            self.view().dom().finite(),
    {
        vstd::std_specs::hash::axiom_hashmap_view_finite_dom(self.by_pos);
        assert(self.view().dom() =~= self.by_pos@.dom());
    }

    /// Number of slots allocated (live and free).
    pub closed spec fn slot_count(&self) -> nat {
        self.slots@.len()
    }

    /// Number of freed slots waiting for reuse.
    pub closed spec fn free_count(&self) -> nat {
        self.free@.len()
    }

    /// An empty arena.
    pub fn new() -> (r: Self)
        ensures
            r.wf(),
            r.view() == Map::<u16, BlockEntity>::empty(),
            r.slot_count() == 0,
            r.free_count() == 0,
    {
        let r = BlockEntityArena { slots: Vec::new(), free: Vec::new(), by_pos: HashMap::new() };
        proof {
            assert(r.view() =~= Map::<u16, BlockEntity>::empty());
        }
        r
    }

    /// Number of block entities currently stored.
    pub fn len(&self) -> (r: usize)
        requires
            self.wf(),
        ensures
            r == self.view().len(),
    {
        proof {
            assert(self.view().dom() =~= self.by_pos@.dom());
        }
        self.by_pos.len()
    }

    /// Whether the arena holds no block entities.
    pub fn is_empty(&self) -> (r: bool)
        requires
            self.wf(),
        ensures
            r == (self.view().len() == 0),
    {
        self.len() == 0
    }

    /// Insert or replace the block entity at Morton position `pos`, returning
    /// the previous one if the position was occupied. A new entity reuses a
    /// freed slot when there is one.
    pub fn insert(&mut self, pos: u16, entity: BlockEntity) -> (r: Option<BlockEntity>)
        requires
            old(self).wf(),
            old(self).slot_count() < u32::MAX,
        ensures
            final(self).wf(),
            final(self).view() == old(self).view().insert(pos, entity),
            r == (if old(self).view().contains_key(pos) {
                Some(old(self).view()[pos])
            } else {
                None::<BlockEntity>
            }),
            final(self).slot_count() == old(self).slot_count() + (if old(self).view().contains_key(pos)
                || old(self).free_count() > 0 {
                0int
            } else {
                1int
            }),
            final(self).free_count() == old(self).free_count() - (if !old(self).view().contains_key(
                pos,
            ) && old(self).free_count() > 0 {
                1int
            } else {
                0int
            }),
    {
        let ghost old_view = self.view();
        match self.by_pos.get(&pos) {
            Some(slot_ref) => {
                let slot = *slot_ref;
                let ghost s0 = self.slots@;
                let mut cell: Option<BlockEntity> = Some(entity);
                std::mem::swap(&mut cell, &mut self.slots[slot as usize]);
                proof {
                    assert forall|p: u16| #[trigger] self.by_pos@.contains_key(p) implies (self.by_pos@[p] as int)
                        < self.slots@.len() && self.slots@[self.by_pos@[p] as int] is Some by {}
                    assert forall|k: int| 0 <= k < self.slots@.len() && #[trigger] self.slots@[k] is None
                        implies self.free@.contains(k as u32) by {
                        assert(s0[k] is None);
                    }
                    assert forall|i: int| 0 <= i < self.free@.len() implies (#[trigger] self.free@[i] as int)
                        < self.slots@.len() && self.slots@[self.free@[i] as int] is None by {}
                    assert(self.view() =~= old_view.insert(pos, entity));
                }
                cell
            },
            None => {
                let ghost s0 = self.slots@;
                let ghost f0 = self.free@;
                let slot: u32 = match self.free.pop() {
                    Some(slot) => {
                        self.slots.set(slot as usize, Some(entity));
                        slot
                    },
                    None => {
                        let slot = self.slots.len() as u32;
                        self.slots.push(Some(entity));
                        slot
                    },
                };
                let ghost m0 = self.by_pos@;
                self.by_pos.insert(pos, slot);
                proof {
                    assert forall|p: u16| #[trigger] self.by_pos@.contains_key(p) implies (self.by_pos@[p] as int)
                        < self.slots@.len() && self.slots@[self.by_pos@[p] as int] is Some by {
                        if p != pos {
                            assert(m0.contains_key(p));
                        }
                    }
                    assert forall|p1: u16, p2: u16|
                        #[trigger] self.by_pos@.contains_key(p1) && #[trigger] self.by_pos@.contains_key(p2)
                            && self.by_pos@[p1] == self.by_pos@[p2] implies p1 == p2 by {
                        if p1 != pos && p2 != pos {
                            assert(m0.contains_key(p1) && m0.contains_key(p2));
                        } else if p1 == pos && p2 != pos {
                            assert(m0.contains_key(p2));
                            assert(s0[m0[p2] as int] is Some);
                        } else if p2 == pos && p1 != pos {
                            assert(m0.contains_key(p1));
                            assert(s0[m0[p1] as int] is Some);
                        }
                    }
                    if f0.len() > 0 {
                        assert(f0[f0.len() - 1] == slot);
                        assert forall|i: int| 0 <= i < self.free@.len() implies (
                        #[trigger] self.free@[i] as int) < self.slots@.len() && self.slots@[self.free@[i] as int]
                            is None by {
                            assert(self.free@[i] == f0[i]);
                            assert(f0[i] != f0[f0.len() - 1]);
                        }
                        assert forall|k: int| 0 <= k < self.slots@.len() && #[trigger] self.slots@[k] is None
                            implies self.free@.contains(k as u32) by {
                            assert(s0[k] is None);
                            let j = choose|j: int| 0 <= j < f0.len() && f0[j] == k as u32;
                            assert(j != f0.len() - 1);
                            assert(self.free@[j] == k as u32);
                        }
                    } else {
                        assert forall|k: int| 0 <= k < self.slots@.len() && #[trigger] self.slots@[k] is None
                            implies self.free@.contains(k as u32) by {
                            assert(k < s0.len());
                            assert(s0[k] is None);
                        }
                    }
                    assert forall|i: int, j: int| 0 <= i < j < self.free@.len() implies #[trigger] self.free@[i]
                        != #[trigger] self.free@[j] by {
                        assert(self.free@[i] == f0[i] && self.free@[j] == f0[j]);
                    }
                    assert forall|p: u16| #[trigger] m0.contains_key(p) implies self.slots@[m0[p] as int]
                        == s0[m0[p] as int] by {
                        if f0.len() > 0 {
                            assert(s0[slot as int] is None);
                        }
                    }
                    assert(self.view() =~= old_view.insert(pos, entity));
                }
                None
            },
        }
    }

    /// Insert at local block coordinates `(x, y, z)` (each `0..16`),
    /// returning the Morton position key so the caller can address it later.
    pub fn insert_at(&mut self, x: usize, y: usize, z: usize, entity: BlockEntity) -> (pos: u16)
        requires
            old(self).wf(),
            old(self).slot_count() < u32::MAX,
            x < 16,
            y < 16,
            z < 16,
        ensures
            final(self).wf(),
            pos as int == morton_of(x as int, y as int, z as int),
            final(self).view() == old(self).view().insert(pos, entity),
            final(self).slot_count() == old(self).slot_count() + (if old(self).view().contains_key(pos)
                || old(self).free_count() > 0 {
                0int
            } else {
                1int
            }),
    {
        let pos = SubChunk::index(x, y, z);
        self.insert(pos, entity);
        pos
    }

    /// Borrow the block entity at `pos`, if present.
    pub fn get(&self, pos: u16) -> (r: Option<&BlockEntity>)
        requires
            self.wf(),
        ensures
            r == (if self.view().contains_key(pos) {
                Some(&self.view()[pos])
            } else {
                None::<&BlockEntity>
            }),
    {
        match self.by_pos.get(&pos) {
            Some(slot_ref) => self.slots[*slot_ref as usize].as_ref(),
            None => None,
        }
    }

    /// Mutably borrow the block entity at `pos`, if present: whatever is
    /// written through the borrow becomes the entity at `pos`.
    pub fn get_mut(&mut self, pos: u16) -> (r: Option<&mut BlockEntity>)
        requires
            old(self).wf(),
        ensures
            match r {
                Some(e) => {
                    &&& old(self).view().contains_key(pos)
                    &&& *e == old(self).view()[pos]
                    &&& final(self).wf()
                    &&& final(self).view() == old(self).view().insert(pos, *final(e))
                    &&& final(self).slot_count() == old(self).slot_count()
                },
                None => !old(self).view().contains_key(pos) && *final(self) == *old(self),
            },
    {
        let slot = match self.by_pos.get(&pos) {
            None => {
                return None;
            },
            Some(slot_ref) => *slot_ref,
        };
        match &mut self.slots[slot as usize] {
            Some(e) => Some(e),
            None => None,
        }
    }

    /// Whether a block entity exists at `pos`.
    pub fn contains(&self, pos: u16) -> (r: bool)
        requires
            self.wf(),
        ensures
            r == self.view().contains_key(pos),
    {
        self.by_pos.contains_key(&pos)
    }

    /// Remove and return the block entity at `pos`, freeing its slot for
    /// reuse.
    pub fn remove(&mut self, pos: u16) -> (r: Option<BlockEntity>)
        requires
            old(self).wf(),
        ensures
            final(self).wf(),
            final(self).view() == old(self).view().remove(pos),
            r == (if old(self).view().contains_key(pos) {
                Some(old(self).view()[pos])
            } else {
                None::<BlockEntity>
            }),
            final(self).slot_count() == old(self).slot_count(),
            old(self).view().contains_key(pos) ==> final(self).view().len() == old(self).view().len() - 1,
            !old(self).view().contains_key(pos) ==> final(self).view().len() == old(self).view().len(),
    {
        proof {
            self.lemma_view_finite();
        }
        let ghost old_view = self.view();
        let ghost s0 = self.slots@;
        let ghost f0 = self.free@;
        let ghost m0 = self.by_pos@;
        match self.by_pos.remove(&pos) {
            Some(slot) => {
                let mut cell: Option<BlockEntity> = None;
                std::mem::swap(&mut cell, &mut self.slots[slot as usize]);
                self.free.push(slot);
                proof {
                    assert forall|p: u16| #[trigger] self.by_pos@.contains_key(p) implies (self.by_pos@[p] as int)
                        < self.slots@.len() && self.slots@[self.by_pos@[p] as int] is Some by {
                        assert(m0.contains_key(p) && m0.contains_key(pos));
                    }
                    assert forall|i: int| 0 <= i < self.free@.len() implies (#[trigger] self.free@[i] as int)
                        < self.slots@.len() && self.slots@[self.free@[i] as int] is None by {
                        if i < f0.len() {
                            assert(self.free@[i] == f0[i]);
                        }
                    }
                    assert forall|i: int, j: int| 0 <= i < j < self.free@.len() implies #[trigger] self.free@[i]
                        != #[trigger] self.free@[j] by {
                        if j == f0.len() {
                            assert(self.free@[i] == f0[i]);
                            assert(s0[f0[i] as int] is None);
                        } else {
                            assert(self.free@[i] == f0[i] && self.free@[j] == f0[j]);
                        }
                    }
                    assert forall|k: int| 0 <= k < self.slots@.len() && #[trigger] self.slots@[k] is None
                        implies self.free@.contains(k as u32) by {
                        if k == slot as int {
                            assert(self.free@[f0.len() as int] == slot);
                        } else {
                            assert(s0[k] is None);
                            let j = choose|j: int| 0 <= j < f0.len() && f0[j] == k as u32;
                            assert(self.free@[j] == k as u32);
                        }
                    }
                    assert forall|p: u16| #[trigger] self.by_pos@.contains_key(p) implies self.slots@[self.by_pos@[p] as int]
                        == s0[m0[p] as int] by {
                        assert(m0.contains_key(p) && m0.contains_key(pos));
                    }
                    assert(self.view() =~= old_view.remove(pos));
                }
                cell
            },
            None => {
                proof {
                    assert(self.view() =~= old_view.remove(pos));
                }
                None
            },
        }
    }

    /// Every stored `(morton_pos, block_entity)` pair, in the map's
    /// iteration order.
    pub fn iter(&self) -> (r: Vec<(u16, &BlockEntity)>)
        requires
            self.wf(),
        ensures
            r@.len() == self.view().len(),
            forall|i: int|
                0 <= i < r@.len() ==> self.view().contains_key(#[trigger] r@[i].0) && *r@[i].1 == self.view()[r@[i].0],
            forall|i: int, j: int| 0 <= i < j < r@.len() ==> #[trigger] r@[i].0 != #[trigger] r@[j].0,
            forall|p: u16| #[trigger] self.view().contains_key(p) ==> exists|i: int| 0 <= i < r@.len() && r@[i].0 == p,
    {
        let mut out: Vec<(u16, &BlockEntity)> = Vec::new();
        proof {
            assert(self.view().dom() =~= self.by_pos@.dom());
        }
        for pos in it: self.by_pos.keys()
            invariant
                self.wf(),
                it.seq() == vstd::std_specs::iter::IteratorSpec::remaining(&vstd::std_specs::hash::spec_keys_iter(&self.by_pos)),
                it.seq().len() == self.view().len(),
                it.seq().unref().no_duplicates(),
                it.seq().unref().to_set() == self.view().dom(),
                out@.len() == it.index(),
                forall|i: int| 0 <= i < out@.len() ==> out@[i].0 == *it.seq()[i],
                forall|i: int, j: int| 0 <= i < j < out@.len() ==> #[trigger] out@[i].0 != #[trigger] out@[j].0,
                forall|i: int|
                    0 <= i < out@.len() ==> self.view().contains_key(#[trigger] out@[i].0) && *out@[i].1
                        == self.view()[out@[i].0],
        {
            proof {
                assert(it.seq().unref()[it.index() as int] == *pos);
                assert(it.seq().unref().to_set().contains(*pos));
                assert forall|i: int| 0 <= i < out@.len() implies out@[i].0 != *pos by {
                    assert(it.seq().unref()[i] == out@[i].0);
                }
            }
            let slot = *self.by_pos.get(pos).unwrap();
            match self.slots[slot as usize].as_ref() {
                Some(be) => {
                    out.push((*pos, be));
                },
                None => {},
            }
        }
        out
    }

    /// Number of arena slots currently allocated (live and free).
    pub fn slots(&self) -> (r: usize)
        ensures
            r == self.slot_count(),
    {
        self.slots.len()
    }
}

impl Default for BlockEntityArena {
    fn default() -> (r: Self)
        ensures
            r.wf(),
            r.view() == Map::<u16, BlockEntity>::empty(),
    {
        Self::new()
    }
}


/// What a read gives back of a write: after storing `e` at `pos`, the arena
/// holds `e` there and every other position as before; after removing
/// `pos`, nothing is there and every other position is as before.
pub proof fn lemma_arena_read_write(
    before: Map<u16, BlockEntity>,
    pos: u16,
    e: BlockEntity,
    other: u16,
)
    requires
        other != pos,
    ensures
        before.insert(pos, e).contains_key(pos),
        before.insert(pos, e)[pos] == e,
        before.insert(pos, e).contains_key(other) == before.contains_key(other),
        before.contains_key(other) ==> before.insert(pos, e)[other] == before[other],
        !before.remove(pos).contains_key(pos),
        before.remove(pos).contains_key(other) == before.contains_key(other),
        before.contains_key(other) ==> before.remove(pos)[other] == before[other],
{
}

} // verus!
