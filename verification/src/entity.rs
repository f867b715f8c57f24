//! Generational entity handles and the slot bookkeeping of the entity store.
//!
//! An [`EntityId`] is a 64-bit handle: a slot **index** plus a **generation**.
//! Despawning a slot bumps its generation, so a stale id that happens to point
//! at a reused slot is rejected. [`EntitySlots`] owns the per-slot metadata
//! (generation, liveness, the free list); component columns live beside it,
//! indexed by the same slots.

use vstd::prelude::*;

verus! {

/// A stable handle to an entity: a slot index and a generation guard.
#[derive(Debug, Clone, Copy, PartialEq, Eq, Structural, Hash)]
pub struct EntityId {
    index: u32,
    generation: u32,
}

proof fn lemma_pack(g: u64, i: u64, b: u64)
    by (bit_vector)
    requires
        g < 0x1_0000_0000,
        i < 0x1_0000_0000,
    ensures
        (g << 32u64) | i == g * 0x1_0000_0000 + i,
        (b as u32) as u64 == b % 0x1_0000_0000,
        ((b >> 32u64) as u32) as u64 == b / 0x1_0000_0000,
{
}

impl EntityId {
    /// The handle of slot `index` at `generation`.
    pub closed spec fn handle(index: u32, generation: u32) -> EntityId {
        EntityId { index, generation }
    }

    /// The slot a handle names.
    pub closed spec fn slot(self) -> u32 {
        self.index
    }

    /// The generation a handle was minted at.
    pub closed spec fn gen(self) -> u32 {
        self.generation
    }

    /// A handle is its slot and generation.
    pub proof fn lemma_handle(index: u32, generation: u32, id: EntityId)
        ensures
            Self::handle(index, generation).slot() == index,
            Self::handle(index, generation).gen() == generation,
            id == Self::handle(id.slot(), id.gen()),
    {
    }

    /// The slot index this id refers to.
    pub fn index(self) -> (r: u32)
        ensures
            r == self.slot(),
    {
        self.index
    }

    /// The generation this id was minted at.
    pub fn generation(self) -> (r: u32)
        ensures
            r == self.gen(),
    {
        self.generation
    }

    /// Pack into a single 64-bit value (generation in the high 32 bits).
    pub fn to_bits(self) -> (r: u64)
        ensures
            r == self.gen() * 0x1_0000_0000 + self.slot(),
    {
        proof {
            lemma_pack(self.generation as u64, self.index as u64, 0);
        }
        ((self.generation as u64) << 32u64) | self.index as u64
    }

    /// Reconstruct from [`EntityId::to_bits`].
    pub fn from_bits(bits: u64) -> (r: Self)
        ensures
            r.slot() == bits % 0x1_0000_0000,
            r.gen() == bits / 0x1_0000_0000,
    {
        proof {
            lemma_pack(0, 0, bits);
        }
        Self { index: bits as u32, generation: (bits >> 32u64) as u32 }
    }
}

/// Packing a handle and unpacking it gives the handle back, and unpacking
/// and repacking gives the bits back.
pub proof fn lemma_bits_round_trip(id: EntityId, bits: u64)
    ensures
        (id.gen() * 0x1_0000_0000 + id.slot()) / 0x1_0000_0000 == id.gen(),
        (id.gen() * 0x1_0000_0000 + id.slot()) % 0x1_0000_0000 == id.slot(),
        (bits / 0x1_0000_0000) * 0x1_0000_0000 + bits % 0x1_0000_0000 == bits,
{
}

/// Number of `true` entries in `s`.
pub open spec fn alive_count(s: Seq<bool>) -> nat
    decreases s.len(),
{
    if s.len() == 0 {
        0
    } else {
        alive_count(s.drop_last()) + if s.last() { 1nat } else { 0nat }
    }
}

proof fn lemma_count_update(s: Seq<bool>, i: int, b: bool)
    requires
        0 <= i < s.len(),
    ensures
        alive_count(s.update(i, b)) + (if s[i] { 1int } else { 0int }) == alive_count(s) + (if b {
            1int
        } else {
            0int
        }),
        alive_count(s) <= s.len(),
    decreases s.len(),
{
    if i < s.len() - 1 {
        lemma_count_update(s.drop_last(), i, b);
        assert(s.update(i, b).drop_last() =~= s.drop_last().update(i, b));
    } else {
        assert(s.update(i, b).drop_last() =~= s.drop_last());
        lemma_count_le(s.drop_last());
    }
}

proof fn lemma_count_le(s: Seq<bool>)
    ensures
        alive_count(s) <= s.len(),
    decreases s.len(),
{
    if s.len() > 0 {
        lemma_count_le(s.drop_last());
    }
}

/// Per-slot metadata of an entity store: generations, liveness and the
/// free list of slots waiting for reuse.
#[derive(Debug)]
pub struct EntitySlots {
    generation: Vec<u32>,
    alive: Vec<bool>,
    free: Vec<u32>,
    live: usize,
}

impl EntitySlots {
    /// Parallel slot tables; the free list holds each dead slot once; the
    /// live count counts the live slots.
    #[verifier::type_invariant]
    spec fn consistent(&self) -> bool {
        &&& self.generation@.len() == self.alive@.len()
        &&& self.alive@.len() <= u32::MAX + 1
        &&& self.free@.no_duplicates()
        &&& forall|k: int| 0 <= k < self.free@.len() ==> (#[trigger] self.free@[k]) < self.alive@.len() && !self.alive@[self.free@[k] as int]
        &&& self.live == alive_count(self.alive@)
    }

    /// What every slot table satisfies (the type's invariant).
    pub closed spec fn valid(&self) -> bool {
        self.consistent()
    }

    /// A valid table: the generations parallel the slots, and every free
    /// slot is an allocated, dead one.
    pub proof fn lemma_valid(&self)
        requires
            self.valid(),
        ensures
            self.gens().len() == self.alive_seq().len(),
            forall|k: int|
                0 <= k < self.free_seq().len() ==> (#[trigger] self.free_seq()[k]) < self.alive_seq().len()
                    && !self.alive_seq()[self.free_seq()[k] as int],
    {
    }

    /// Generation of every slot.
    pub closed spec fn gens(&self) -> Seq<u32> {
        self.generation@
    }

    /// Liveness of every slot.
    pub closed spec fn alive_seq(&self) -> Seq<bool> {
        self.alive@
    }

    /// Dead slots waiting for reuse; the last is reused first.
    pub closed spec fn free_seq(&self) -> Seq<u32> {
        self.free@
    }

    /// Whether `id` names a live entity: its slot is alive at its generation.
    pub open spec fn holds(&self, id: EntityId) -> bool {
        (id.slot() as int) < self.alive_seq().len() && self.alive_seq()[id.slot() as int] && self.gens()[id.slot() as int]
            == id.gen()
    }

    /// No slots.
    pub fn new() -> (r: Self)
        ensures
            r.valid(),
            r.gens() == Seq::<u32>::empty(),
            r.alive_seq() == Seq::<bool>::empty(),
            r.free_seq() == Seq::<u32>::empty(),
    {
        EntitySlots { generation: Vec::new(), alive: Vec::new(), free: Vec::new(), live: 0 }
    }

    /// Number of live entities.
    pub fn len(&self) -> (r: usize)
        ensures
            r == alive_count(self.alive_seq()),
    {
        proof {
            use_type_invariant(self);
        }
        self.live
    }

    /// Whether no entity is alive.
    pub fn is_empty(&self) -> (r: bool)
        ensures
            r == (alive_count(self.alive_seq()) == 0),
    {
        proof {
            use_type_invariant(self);
        }
        self.live == 0
    }

    /// Number of allocated slots (alive + reusable holes).
    pub fn slots(&self) -> (r: usize)
        ensures
            r == self.alive_seq().len(),
    {
        self.alive.len()
    }

    /// Whether `id` refers to a live entity (slot alive and generation current).
    pub fn contains(&self, id: EntityId) -> (r: bool)
        ensures
            r == self.holds(id),
    {
        proof {
            use_type_invariant(self);
        }
        let i = id.index as usize;
        i < self.alive.len() && self.alive[i] && self.generation[i] == id.generation
    }

    /// Take a slot for a new entity: the most recently freed one if any
    /// (keeping its generation), else a fresh slot at generation 0. Returns
    /// the handle and whether a slot was reused.
    pub fn spawn(&mut self) -> (r: (EntityId, bool))
        requires
            old(self).free_seq().len() > 0 || old(self).alive_seq().len() < u32::MAX,
        ensures
            final(self).valid(),
            final(self).holds(r.0),
            old(self).free_seq().len() > 0 ==> r.1 && r.0.slot() == old(self).free_seq().last()
                && r.0.gen() == old(self).gens()[r.0.slot() as int]
                && final(self).free_seq() == old(self).free_seq().drop_last()
                && final(self).alive_seq() == old(self).alive_seq().update(r.0.slot() as int, true)
                && final(self).gens() == old(self).gens(),
            old(self).free_seq().len() == 0 ==> !r.1 && r.0.slot() == old(self).alive_seq().len()
                && r.0.gen() == 0 && final(self).free_seq() == old(self).free_seq()
                && final(self).alive_seq() == old(self).alive_seq().push(true)
                && final(self).gens() == old(self).gens().push(0),
            alive_count(final(self).alive_seq()) == alive_count(old(self).alive_seq()) + 1,
    {
        proof {
            use_type_invariant(&*self);
        }
        let mut taken = EntitySlots::new();
        std::mem::swap(&mut taken, self);
        proof {
            use_type_invariant(&taken);
        }
        let EntitySlots { mut generation, mut alive, mut free, live } = taken;
        let ghost a0 = alive@;
        let ghost f0 = free@;
        let r = match free.pop() {
            Some(index) => {
                let i = index as usize;
                proof {
                    assert(f0[f0.len() - 1] == index);
                    lemma_count_update(a0, i as int, true);
                }
                alive.set(i, true);
                proof {
                    assert forall|k: int| 0 <= k < free@.len() implies (#[trigger] free@[k]) < alive@.len()
                        && !alive@[free@[k] as int] by {
                        assert(free@[k] == f0[k]);
                        assert(f0[k] != f0[f0.len() - 1]);
                    }
                    assert(free@.no_duplicates()) by {
                        assert forall|a: int, b: int| 0 <= a < free@.len() && 0 <= b < free@.len() && a != b implies free@[a] != free@[b] by {
                            assert(free@[a] == f0[a] && free@[b] == f0[b]);
                        }
                    }
                }
                (EntityId { index, generation: generation[i] }, true)
            },
            None => {
                let index = alive.len() as u32;
                generation.push(0);
                alive.push(true);
                proof {
                    assert(alive@.drop_last() =~= a0);
                }
                (EntityId { index, generation: 0 }, false)
            },
        };
        proof {
            if f0.len() == 0 {
                assert(alive@.drop_last() =~= a0);
            }
            assert(alive_count(alive@) == live + 1);
            lemma_count_le(alive@);
            assert(alive@.len() == alive.len());
        }
        *self = EntitySlots { generation, alive, free, live: live + 1 };
        proof {
            use_type_invariant(&*self);
        }
        r
    }

    /// Free the slot of `id`. Returns `true` if it was alive (and is now
    /// removed), or `false` if the handle was already stale.
    pub fn despawn(&mut self, id: EntityId) -> (r: bool)
        ensures
            final(self).valid(),
            r == old(self).holds(id),
            !r ==> *final(self) == *old(self),
            r ==> final(self).alive_seq() == old(self).alive_seq().update(id.slot() as int, false)
                && final(self).gens() == old(self).gens().update(
                id.slot() as int,
                (if id.gen() == u32::MAX { 0 } else { id.gen() + 1 }) as u32,
            ) && final(self).free_seq() == old(self).free_seq().push(id.slot())
                && alive_count(final(self).alive_seq()) + 1 == alive_count(old(self).alive_seq()),
            !final(self).holds(id),
    {
        proof {
            use_type_invariant(&*self);
        }
        if !self.contains(id) {
            return false;
        }
        let mut taken = EntitySlots::new();
        std::mem::swap(&mut taken, self);
        proof {
            use_type_invariant(&taken);
        }
        let EntitySlots { mut generation, mut alive, mut free, live } = taken;
        let ghost a0 = alive@;
        let ghost f0 = free@;
        let i = id.index as usize;
        proof {
            lemma_count_update(a0, i as int, false);
        }
        alive.set(i, false);
        let g = generation[i];
        generation.set(i, g.wrapping_add(1));
        free.push(id.index);
        proof {
            assert forall|k: int| 0 <= k < free@.len() implies (#[trigger] free@[k]) < alive@.len()
                && !alive@[free@[k] as int] by {
                if k < f0.len() {
                    assert(free@[k] == f0[k]);
                }
            }
            assert(free@.no_duplicates()) by {
                assert forall|a: int, b: int| 0 <= a < free@.len() && 0 <= b < free@.len() && a != b implies free@[a] != free@[b] by {
                    if a < f0.len() && b < f0.len() {
                        assert(free@[a] == f0[a] && free@[b] == f0[b]);
                    } else if a < f0.len() {
                        assert(!a0[f0[a] as int]);
                    } else {
                        assert(!a0[f0[b] as int]);
                    }
                }
            }
        }
        *self = EntitySlots { generation, alive, free, live: live - 1 };
        proof {
            use_type_invariant(&*self);
        }
        true
    }

    /// The live entity ids, in slot order.
    pub fn ids(&self) -> (r: Vec<EntityId>)
        ensures
            forall|k: int| 0 <= k < r@.len() ==> self.holds(#[trigger] r@[k]),
            forall|i: int|
                0 <= i < self.alive_seq().len() && self.alive_seq()[i] ==> r@.contains(
                    EntityId::handle(i as u32, self.gens()[i]),
                ),
            forall|a: int, b: int| 0 <= a < b < r@.len() ==> (#[trigger] r@[a]).slot() < (#[trigger] r@[b]).slot(),
    {
        proof {
            use_type_invariant(self);
        }
        let mut out: Vec<EntityId> = Vec::new();
        let mut i: usize = 0;
        while i < self.alive.len()
            invariant
                i <= self.alive@.len(),
                self.alive@.len() == self.generation@.len(),
                self.alive@.len() <= u32::MAX + 1,
                forall|k: int| 0 <= k < out@.len() ==> self.holds(#[trigger] out@[k]) && out@[k].slot() < i,
                forall|j: int|
                    0 <= j < i && self.alive_seq()[j] ==> out@.contains(EntityId::handle(j as u32, self.gens()[j])),
                forall|a: int, b: int| 0 <= a < b < out@.len() ==> (#[trigger] out@[a]).slot() < (#[trigger] out@[b]).slot(),
            decreases self.alive@.len() - i,
        {
            if self.alive[i] {
                let id = EntityId { index: i as u32, generation: self.generation[i] };
                let ghost o0 = out@;
                out.push(id);
                proof {
                    assert forall|j: int|
                        0 <= j < i + 1 && self.alive_seq()[j] implies out@.contains(
                        EntityId::handle(j as u32, self.gens()[j]),
                    ) by {
                        if j < i {
                            let w = choose|w: int| 0 <= w < o0.len() && o0[w] == EntityId::handle(j as u32, self.gens()[j]);
                            assert(out@[w] == o0[w]);
                        } else {
                            assert(out@[o0.len() as int] == id);
                        }
                    }
                }
            }
            i += 1;
        }
        out
    }
}

impl Default for EntitySlots {
    fn default() -> (r: Self)
        ensures
            r.valid(),
            r.alive_seq() == Seq::<bool>::empty(),
            r.free_seq() == Seq::<u32>::empty(),
    {
        EntitySlots::new()
    }
}

/// A despawned handle stays rejected until its slot's generation wraps
/// around, and spawning never revives another handle: a handle held before
/// either call is held after it only if it is the one that was spawned or it
/// was held already.
pub proof fn lemma_handles_stay_distinct(before: EntitySlots, after: EntitySlots, spawned: EntityId, other: EntityId)
    requires
        before.valid(),
        after.valid(),
        after.holds(spawned),
        before.free_seq().len() > 0 ==> spawned.slot() == before.free_seq().last() && after.alive_seq()
            == before.alive_seq().update(spawned.slot() as int, true) && after.gens() == before.gens(),
        before.free_seq().len() == 0 ==> spawned.slot() == before.alive_seq().len() && after.alive_seq()
            == before.alive_seq().push(true) && after.gens() == before.gens().push(0),
        after.holds(other),
        other.slot() != spawned.slot(),
    ensures
        before.holds(other),
{
    let i = other.slot() as int;
    let j = spawned.slot() as int;
    before.lemma_valid();
    after.lemma_valid();
    assert(i != j);
    if before.free_seq().len() > 0 {
        assert(after.alive_seq().len() == before.alive_seq().len());
        assert(i < before.alive_seq().len());
        assert(before.alive_seq().update(j, true)[i] == before.alive_seq()[i]);
        assert(after.alive_seq()[i] == before.alive_seq()[i]);
    } else {
        assert(i < before.alive_seq().len());
        assert(after.alive_seq()[i] == before.alive_seq()[i]);
        assert(after.gens()[i] == before.gens()[i]);
    }
}

} // verus!
