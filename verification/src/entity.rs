//! Entity handles and the generational allocator that validates them.

use vstd::prelude::*;

verus! {

/// A stable handle to one entity: a dense `id` plus a `generation` that is
/// bumped every time the id is freed, so stale handles can be told apart from
/// the current occupant of the same slot.
#[derive(Clone, Copy, PartialEq, Eq, Structural, Hash, Debug)]
pub struct Entity {
    pub id: u32,
    pub generation: u32,
}

impl Entity {
    pub fn id(&self) -> (r: u32)
        ensures
            r == self.id,
    {
        self.id
    }

    pub fn generation(&self) -> (r: u32)
        ensures
            r == self.generation,
    {
        self.generation
    }
}

/// Where a live entity's row is stored: an archetype index and a row index
/// inside that archetype.
#[derive(Clone, Copy, PartialEq, Eq, Structural, Debug)]
pub struct EntityLocation {
    pub archetype: usize,
    pub index: usize,
}

/// Low-level placement data for one entity, as reported by the world.
#[derive(Clone, Copy, Debug)]
pub struct EntityMeta {
    pub generation: u32,
    pub archetype: usize,
    pub index: usize,
}

/// Diagnostic summary of one entity: which archetype holds it and which
/// component types that archetype carries.
#[derive(Clone, Debug)]
pub struct EntityInfo {
    pub entity: Entity,
    pub archetype_id: usize,
    pub component_types: Vec<u64>,
}

/// Hands out entity handles and recycles freed ids with a bumped generation.
///
/// `generations[id]` is the generation a handle must carry to be considered
/// alive at `id`; `free_list` holds the ids that are currently unoccupied and
/// ready for reuse.
pub struct EntityAllocator {
    pub generations: Vec<u32>,
    pub free_list: Vec<u32>,
    pub next_id: u32,
}

impl EntityAllocator {
    /// How many id slots have ever been minted.
    pub open spec fn slot_count(self) -> int {
        self.generations@.len() as int
    }

    /// The generation currently stored for `id`.
    pub open spec fn gen_of(self, id: int) -> u32 {
        self.generations@[id]
    }

    /// Whether `id` sits on the free list.
    pub open spec fn id_free(self, id: int) -> bool {
        self.free_list@.contains(id as u32)
    }

    /// An id is occupied when it has been minted, is not waiting on the free
    /// list, and has not retired by exhausting its generation space.
    pub open spec fn occupied(self, id: int) -> bool {
        0 <= id < self.slot_count() && !self.id_free(id) && self.gen_of(id) < u32::MAX
    }

    /// A handle is current when its generation matches the stored one.
    pub open spec fn spec_is_alive(self, e: Entity) -> bool {
        e.id < self.slot_count() && self.gen_of(e.id as int) == e.generation
    }

    pub open spec fn wf(self) -> bool {
        &&& self.next_id == self.generations@.len()
        &&& forall|i: int|
            0 <= i < self.free_list@.len() ==> #[trigger] self.free_list@[i] < self.next_id
        &&& forall|i: int, j: int|
            0 <= i < j < self.free_list@.len() ==> self.free_list@[i] != self.free_list@[j]
        &&& forall|i: int|
            0 <= i < self.free_list@.len() ==> self.gen_of((#[trigger] self.free_list@[i]) as int)
                < u32::MAX
    }

    pub fn new() -> (r: Self)
        ensures
            r.wf(),
            r.slot_count() == 0,
            forall|id: int| !r.occupied(id),
    {
        Self { generations: Vec::new(), free_list: Vec::new(), next_id: 0 }
    }

    /// Returns a handle whose id was unoccupied before the call: either a
    /// recycled id carrying its bumped generation, or a newly minted id at
    /// generation zero. The handle always has room for one more generation
    /// bump, so it can later be freed.
    pub fn allocate(&mut self) -> (e: Entity)
        requires
            old(self).wf(),
            old(self).slot_count() < u32::MAX,
        ensures
            final(self).wf(),
            e.generation < u32::MAX,
            !old(self).id_free(e.id as int) ==> e.id as int == old(self).slot_count()
                && e.generation == 0,
            final(self).spec_is_alive(e),
            !old(self).occupied(e.id as int),
            final(self).occupied(e.id as int),
            old(self).slot_count() <= final(self).slot_count() == if old(self).id_free(
                e.id as int,
            ) { old(self).slot_count() } else { old(self).slot_count() + 1 },
            forall|id: int|
                0 <= id < old(self).slot_count() ==> final(self).gen_of(id) == old(self).gen_of(
                    id,
                ),
            forall|id: int|
                id != e.id ==> (final(self).occupied(id) <==> old(self).occupied(id)),
    {
        if let Some(id) = self.free_list.pop() {
            proof {
                let fl0 = old(self).free_list@;
                let fl1 = self.free_list@;
                assert(fl0[fl0.len() - 1] == id);
                assert forall|x: u32| x != id implies (fl1.contains(x) <==> fl0.contains(
                    x,
                )) by {
                    if fl0.contains(x) {
                        let k = choose|k: int| 0 <= k < fl0.len() && fl0[k] == x;
                        assert(k != fl0.len() - 1);
                        assert(fl1[k] == x);
                    }
                    if fl1.contains(x) {
                        let k = choose|k: int| 0 <= k < fl1.len() && fl1[k] == x;
                        assert(fl0[k] == x);
                    }
                }
                assert(!fl1.contains(id)) by {
                    if fl1.contains(id) {
                        let k = choose|k: int| 0 <= k < fl1.len() && fl1[k] == id;
                        assert(fl0[k] == id);
                        assert(fl0[fl0.len() - 1] == id);
                    }
                }
                assert(fl0.contains(id));
            }
            let generation = self.generations[id as usize];
            Entity { id, generation }
        } else {
            let id = self.next_id;
            self.next_id = self.next_id + 1;
            self.generations.push(0);
            assert(forall|i: int|
                0 <= i < self.free_list@.len() ==> #[trigger] self.free_list@[i] < id);
            Entity { id, generation: 0 }
        }
    }

    /// Invalidates a live handle: bumps the stored generation and recycles the
    /// id, unless the bumped generation exhausts the id's generation space, in
    /// which case the slot retires and is never handed out again. Returns
    /// whether the free happened; stale or unoccupied handles are rejected.
    pub fn free(&mut self, entity: Entity) -> (r: bool)
        requires
            old(self).wf(),
        ensures
            final(self).wf(),
            r == (old(self).spec_is_alive(entity) && old(self).occupied(entity.id as int)),
            !r ==> *final(self) == *old(self),
            final(self).slot_count() == old(self).slot_count(),
            r ==> !final(self).occupied(entity.id as int) && final(self).gen_of(entity.id as int)
                == entity.generation + 1,
            forall|id: int|
                0 <= id < old(self).slot_count() && id != entity.id ==> final(self).gen_of(id)
                    == old(self).gen_of(id),
            forall|id: int|
                id != entity.id ==> (final(self).occupied(id) <==> old(self).occupied(id)),
            r ==> !final(self).spec_is_alive(entity),
    {
        if entity.id as usize >= self.generations.len() {
            return false;
        }
        if self.generations[entity.id as usize] != entity.generation {
            return false;
        }
        // A handle whose id is already on the free list, or whose slot has
        // retired, was never handed out; freeing it would corrupt the list.
        if entity.generation == u32::MAX {
            return false;
        }
        if self.id_on_free_list(entity.id) {
            return false;
        }
        self.generations[entity.id as usize] = entity.generation + 1;
        if entity.generation + 1 < u32::MAX {
            // the id can serve one more generation: recycle it
            self.free_list.push(entity.id);
            proof {
                let fl0 = old(self).free_list@;
                let fl1 = self.free_list@;
                assert(fl1[fl1.len() - 1] == entity.id);
                assert(fl1.contains(entity.id));
                assert forall|x: u32| x != entity.id implies (fl1.contains(x) <==> fl0.contains(
                    x,
                )) by {
                    if fl0.contains(x) {
                        let k = choose|k: int| 0 <= k < fl0.len() && fl0[k] == x;
                        assert(fl1[k] == x);
                    }
                    if fl1.contains(x) {
                        let k = choose|k: int| 0 <= k < fl1.len() && fl1[k] == x;
                        assert(k != fl1.len() - 1);
                        assert(fl0[k] == x);
                    }
                }
                assert forall|i: int| 0 <= i < fl1.len() implies self.gen_of(
                    (#[trigger] fl1[i]) as int,
                ) < u32::MAX by {
                    if i < fl1.len() - 1 {
                        assert(old(self).gen_of(fl0[i] as int) < u32::MAX);
                        assert(fl0[i] != entity.id);
                    }
                }
            }
        } else {
            // the generation space is exhausted: retire the slot
            proof {
                let fl1 = self.free_list@;
                assert forall|i: int| 0 <= i < fl1.len() implies self.gen_of(
                    (#[trigger] fl1[i]) as int,
                ) < u32::MAX by {
                    assert(old(self).gen_of(fl1[i] as int) < u32::MAX);
                    assert(fl1[i] != entity.id);
                }
            }
        }
        true
    }

    fn id_on_free_list(&self, id: u32) -> (r: bool)
        ensures
            r == self.id_free(id as int),
    {
        let mut i: usize = 0;
        while i < self.free_list.len()
            invariant
                i <= self.free_list@.len(),
                forall|j: int| 0 <= j < i ==> self.free_list@[j] != id,
            decreases self.free_list@.len() - i,
        {
            if self.free_list[i] == id {
                assert(self.free_list@.contains(id));
                return true;
            }
            i = i + 1;
        }
        assert(!self.free_list@.contains(id));
        false
    }

    /// A handle is alive exactly when its generation matches the stored one.
    pub fn is_alive(&self, entity: Entity) -> (r: bool)
        ensures
            r == self.spec_is_alive(entity),
    {
        (entity.id as usize) < self.generations.len() && self.generations[entity.id as usize]
            == entity.generation
    }
}

/// Once the generation stored for an id has moved past a handle's generation,
/// that handle — and every other handle minted under a prior generation of the
/// same id — is dead for good: liveness requires an exact generation match.
pub proof fn lemma_stale_generations_dead(a: EntityAllocator, e: Entity)
    requires
        0 <= e.id < a.slot_count(),
        e.generation != a.gen_of(e.id as int),
    ensures
        !a.spec_is_alive(e),
{
}

} // verus!
