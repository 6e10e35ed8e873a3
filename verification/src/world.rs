//! The world: entity lifecycle, component access, structural migration, and
//! the query entry point, over the archetype store.

use vstd::prelude::*;

use crate::archetype::{
    sig_with_added, sig_with_removed, sorted_strict, Archetype, ArchetypeMap,
};
use crate::command::{Command, Commands};
use crate::component::{Bundle, BundleEntry};
use crate::entity::{Entity, EntityAllocator, EntityInfo, EntityLocation, EntityMeta};
use crate::query::{Query, QueryIter};
use crate::resource::Resources;
use vstd::seq_lib::*;
use vstd::set_lib::*;

verus! {

/// One matched row of a query: the owning entity, where the row lives, and
/// the fetched payload for each query term (`None` for filter terms and for
/// absent optional components).
pub struct QueryRow {
    pub entity: Entity,
    pub archetype: usize,
    pub row: usize,
    pub items: Vec<Option<Vec<u64>>>,
}

/// Copies a bundle's entries; payloads are word-for-word copies.
fn copy_entries(entries: &Vec<BundleEntry>) -> (r: Vec<BundleEntry>)
    ensures
        r@.len() == entries@.len(),
        forall|i: int|
            0 <= i < entries@.len() ==> (#[trigger] r@[i]).comp == entries@[i].comp && r@[i].value@
                == entries@[i].value@,
{
    let mut r: Vec<BundleEntry> = Vec::new();
    let mut i: usize = 0;
    while i < entries.len()
        invariant
            i <= entries@.len(),
            r@.len() == i,
            forall|j: int|
                0 <= j < i ==> (#[trigger] r@[j]).comp == entries@[j].comp && r@[j].value@
                    == entries@[j].value@,
        decreases entries@.len() - i,
    {
        let e = BundleEntry {
            comp: entries[i].comp,
            value: crate::archetype::copy_words(&entries[i].value),
        };
        r.push(e);
        i = i + 1;
    }
    r
}

/// Two bundles whose entries agree pointwise on component identity and
/// payload view declare the same components with the same payloads.
proof fn lemma_bundle_views_agree(a: Bundle, b: Bundle)
    requires
        a.entries@.len() == b.entries@.len(),
        forall|i: int|
            0 <= i < a.entries@.len() ==> (#[trigger] a.entries@[i]).comp == b.entries@[i].comp
                && a.entries@[i].value@ == b.entries@[i].value@,
    ensures
        a.wf() <==> b.wf(),
        forall|c: u64| #[trigger] a.spec_has(c) <==> b.spec_has(c),
        forall|c: u64| a.wf() && #[trigger] a.spec_has(c) ==> a.spec_value(c) == b.spec_value(c),
{
    assert forall|c: u64| #[trigger] a.spec_has(c) implies b.spec_has(c) by {
        crate::component::lemma_bundle_index(a, c);
        let k = a.index_of(c);
        assert(b.entries@[k].comp == c);
        assert(crate::component::entries_have_prefix(b.entries@, b.entries@.len() as int, c));
    }
    assert forall|c: u64| #[trigger] b.spec_has(c) implies a.spec_has(c) by {
        crate::component::lemma_bundle_index(b, c);
        let k = b.index_of(c);
        assert(a.entries@[k].comp == c);
        assert(crate::component::entries_have_prefix(a.entries@, a.entries@.len() as int, c));
    }
    assert(a.wf() <==> b.wf()) by {
        if a.wf() && !b.wf() {
            let (i, j) = choose|i: int, j: int|
                0 <= i < j < b.entries@.len() && (#[trigger] b.entries@[i]).comp == (
                #[trigger] b.entries@[j]).comp;
            assert(a.entries@[i].comp == a.entries@[j].comp);
        }
        if b.wf() && !a.wf() {
            let (i, j) = choose|i: int, j: int|
                0 <= i < j < a.entries@.len() && (#[trigger] a.entries@[i]).comp == (
                #[trigger] a.entries@[j]).comp;
            assert(b.entries@[i].comp == b.entries@[j].comp);
        }
    }
    assert forall|c: u64| a.wf() && #[trigger] a.spec_has(c) implies a.spec_value(c)
        == b.spec_value(c) by {
        crate::component::lemma_bundle_index(a, c);
        crate::component::lemma_bundle_index(b, c);
        let ka = a.index_of(c);
        let kb = b.index_of(c);
        assert(ka == kb) by {
            if ka != kb {
                assert(a.entries@[ka].comp == c && a.entries@[kb].comp == c);
            }
        }
    }
}

/// The in-memory entity database: a generational entity table, the location
/// of every live entity, the archetype store, a resource registry, a queue of
/// deferred commands, and the change-detection tick.
pub struct World {
    pub entities: EntityAllocator,
    pub locations: Vec<Option<EntityLocation>>,
    pub archetypes: ArchetypeMap,
    pub resources: Resources,
    pub commands: Commands,
    pub tick: u64,
}

impl World {
    /// How many entity id slots have been minted.
    pub open spec fn slot_count(self) -> int {
        self.entities.slot_count()
    }

    /// Where a live entity's row lives.
    pub open spec fn loc_of(self, e: Entity) -> EntityLocation {
        self.locations@[e.id as int].unwrap()
    }

    /// An entity is alive when its generation matches the stored one and its
    /// id has a location.
    pub open spec fn spec_alive(self, e: Entity) -> bool {
        &&& self.entities.spec_is_alive(e)
        &&& 0 <= e.id < self.locations@.len()
        &&& self.locations@[e.id as int] is Some
    }

    /// The archetype holding a live entity's row.
    pub open spec fn arch_of(self, e: Entity) -> Archetype {
        self.archetypes.arch(self.loc_of(e).archetype as int)
    }

    /// A live entity's component signature.
    pub open spec fn sig_of(self, e: Entity) -> Seq<u64> {
        self.arch_of(e).sig()
    }

    /// Whether a live entity carries component `c`.
    pub open spec fn spec_has(self, e: Entity, c: u64) -> bool {
        self.spec_alive(e) && self.sig_of(e).contains(c)
    }

    /// The payload of component `c` on entity `e`.
    pub open spec fn spec_value(self, e: Entity, c: u64) -> Seq<u64> {
        self.arch_of(e).value_of(self.loc_of(e).index as int, c)
    }

    /// The tick at which component `c` on entity `e` was last written.
    pub open spec fn spec_tick(self, e: Entity, c: u64) -> u64 {
        self.arch_of(e).tick_of(self.loc_of(e).index as int, c)
    }

    pub open spec fn arch_count(self) -> int {
        self.archetypes.count()
    }

    /// The number of rows in archetype `a`.
    pub open spec fn arch_len(self, a: int) -> int {
        self.archetypes.arch(a).len_spec()
    }

    /// A location entry must point at a real row whose recorded owner is the
    /// current handle of that id.
    pub open spec fn loc_ok(self, id: int) -> bool {
        let loc = self.locations@[id].unwrap();
        &&& 0 <= loc.archetype < self.archetypes.count()
        &&& 0 <= loc.index < self.archetypes.arch(loc.archetype as int).len_spec()
        &&& self.archetypes.arch(loc.archetype as int).entity_at(loc.index as int) == (Entity {
            id: id as u32,
            generation: self.entities.gen_of(id),
        })
    }

    /// A row's owner must be a live handle whose location points back at
    /// exactly this row.
    pub open spec fn row_owned(self, a: int, r: int) -> bool {
        let e = self.archetypes.arch(a).entity_at(r);
        &&& e.id < self.locations@.len()
        &&& self.locations@[e.id as int] == Some(
            EntityLocation { archetype: a as usize, index: r as usize },
        )
        &&& self.entities.gen_of(e.id as int) == e.generation
    }

    /// The world invariant: the entity table, location map and archetype
    /// store agree — locations exist exactly for occupied ids, each names a
    /// real row owned by that id, each row points back at its location, every
    /// archetype is stamped with the world tick, and no recorded change tick
    /// lies in the future.
    pub open spec fn wf(self) -> bool {
        &&& self.entities.wf()
        &&& self.archetypes.wf()
        &&& self.resources.wf()
        &&& self.locations@.len() == self.entities.slot_count()
        &&& forall|id: int|
            0 <= id < self.locations@.len() ==> ((#[trigger] self.locations@[id]) is Some
                <==> self.entities.occupied(id))
        &&& forall|id: int|
            0 <= id < self.locations@.len() && self.locations@[id] is Some ==> #[trigger] self.loc_ok(
                id,
            )
        &&& forall|a: int, r: int|
            0 <= a < self.archetypes.count() && 0 <= r < self.archetypes.arch(a).len_spec()
                ==> #[trigger] self.row_owned(a, r)
        &&& forall|a: int|
            0 <= a < self.archetypes.count() ==> (#[trigger] self.archetypes.arch(a)).tick
                == self.tick
        &&& forall|a: int, ci: int, r: int|
            0 <= a < self.archetypes.count() && 0 <= ci < self.archetypes.arch(a).columns@.len()
                && 0 <= r < self.archetypes.arch(a).len_spec()
                ==> #[trigger] self.archetypes.arch(a).columns@[ci].tick_at(r) <= self.tick
    }

    /// Entity `e` looks the same in both worlds: as alive in one as in the
    /// other and, when alive, carrying the same components with the same
    /// payloads and change ticks.
    pub open spec fn entity_unchanged(w0: World, w1: World, e: Entity) -> bool {
        &&& (w1.spec_alive(e) <==> w0.spec_alive(e))
        &&& (w0.spec_alive(e) ==> w1.sig_of(e) == w0.sig_of(e) && (forall|c: u64|
            w0.sig_of(e).contains(c) ==> w1.spec_value(e, c) == w0.spec_value(e, c)
                && w1.spec_tick(e, c) == w0.spec_tick(e, c)))
    }

    /// Every entity except `except` looks the same in both worlds.
    pub open spec fn others_unchanged(w0: World, w1: World, except: Entity) -> bool {
        forall|e: Entity| e != except ==> #[trigger] World::entity_unchanged(w0, w1, e)
    }

    /// The two worlds agree on everything observable — entities, locations,
    /// archetypes, resources and the tick — differing at most in the pending
    /// command queue.
    pub open spec fn world_obs_eq(w0: World, w1: World) -> bool {
        &&& w1.entities == w0.entities
        &&& w1.locations@ == w0.locations@
        &&& w1.archetypes == w0.archetypes
        &&& w1.resources == w0.resources
        &&& w1.tick == w0.tick
    }

    /// What spawning bundle `b` does to the world (the command queue aside):
    /// exactly what `spawn` ensures of a fresh entity `e`.
    pub open spec fn spawn_effect(w0: World, w1: World, e: Entity, b: Bundle) -> bool {
        &&& w1.wf()
        &&& w1.tick == w0.tick
        &&& w1.resources == w0.resources
        &&& w1.spec_alive(e)
        &&& !w0.spec_alive(e)
        &&& forall|c: u64| #[trigger] w1.sig_of(e).contains(c) <==> b.spec_has(c)
        &&& forall|c: u64|
            #[trigger] b.spec_has(c) ==> w1.spec_value(e, c) == b.spec_value(c) && w1.spec_tick(
                e,
                c,
            ) == w0.tick
        &&& World::others_unchanged(w0, w1, e)
    }

    /// What despawning `e` does to the world (the command queue aside): a dead
    /// handle is skipped, a live one is removed exactly as `despawn` ensures.
    pub open spec fn despawn_effect(w0: World, w1: World, e: Entity) -> bool {
        if w0.spec_alive(e) {
            &&& w1.wf()
            &&& w1.tick == w0.tick
            &&& w1.resources == w0.resources
            &&& !w1.spec_alive(e)
            &&& World::others_unchanged(w0, w1, e)
        } else {
            World::world_obs_eq(w0, w1)
        }
    }

    /// What inserting component `c` with payload `v` on `e` does to the world
    /// (the command queue aside): a dead handle is skipped, a live one gains
    /// the component exactly as `insert` ensures.
    pub open spec fn insert_effect(w0: World, w1: World, e: Entity, c: u64, v: Seq<u64>) -> bool {
        if w0.spec_alive(e) {
            &&& w1.wf()
            &&& w1.tick == w0.tick
            &&& w1.resources == w0.resources
            &&& w1.spec_alive(e)
            &&& forall|c2: u64|
                #[trigger] w1.sig_of(e).contains(c2) <==> (w0.sig_of(e).contains(c2) || c2 == c)
            &&& w1.spec_value(e, c) == v
            &&& w1.spec_tick(e, c) == w0.tick
            &&& forall|c2: u64|
                w0.sig_of(e).contains(c2) && c2 != c ==> #[trigger] w1.spec_value(e, c2)
                    == w0.spec_value(e, c2) && w1.spec_tick(e, c2) == w0.spec_tick(e, c2)
            &&& World::others_unchanged(w0, w1, e)
        } else {
            World::world_obs_eq(w0, w1)
        }
    }

    /// What removing component `c` from `e` does to the world (the command
    /// queue aside): skipped unless `e` is alive and carries `c`, in which
    /// case the component comes off exactly as `remove` ensures.
    pub open spec fn remove_effect(w0: World, w1: World, e: Entity, c: u64) -> bool {
        if w0.spec_has(e, c) {
            &&& w1.wf()
            &&& w1.tick == w0.tick
            &&& w1.resources == w0.resources
            &&& w1.spec_alive(e)
            &&& forall|c2: u64|
                #[trigger] w1.sig_of(e).contains(c2) <==> (w0.sig_of(e).contains(c2) && c2 != c)
            &&& forall|c2: u64|
                w0.sig_of(e).contains(c2) && c2 != c ==> #[trigger] w1.spec_value(e, c2)
                    == w0.spec_value(e, c2) && w1.spec_tick(e, c2) == w0.spec_tick(e, c2)
            &&& World::others_unchanged(w0, w1, e)
        } else {
            World::world_obs_eq(w0, w1)
        }
    }

    /// What applying one queued command does to the world. A spawn whose
    /// bundle repeats a component type, or arriving with the id space
    /// exhausted, is skipped.
    pub open spec fn command_step(w0: World, cmd: Command, w1: World) -> bool {
        match cmd {
            Command::Spawn(b) => if b.wf() && w0.slot_count() < u32::MAX - 1 {
                exists|e: Entity| #[trigger] World::spawn_effect(w0, w1, e, b)
            } else {
                World::world_obs_eq(w0, w1)
            },
            Command::Despawn(e) => World::despawn_effect(w0, w1, e),
            Command::Insert(e, c, v) => World::insert_effect(w0, w1, e, c, v@),
            Command::Remove(e, c) => World::remove_effect(w0, w1, e, c),
        }
    }

    /// `ws` is a trace of the commands `cmds`: one world per step, where
    /// world `i + 1` comes from world `i` by applying command `i`.
    pub open spec fn trace_applies(ws: Seq<World>, cmds: Seq<Command>) -> bool {
        &&& ws.len() == cmds.len() + 1
        &&& forall|i: int|
            0 <= i < cmds.len() ==> #[trigger] World::command_step(ws[i], cmds[i], ws[i + 1])
    }

    /// `w1` is `w0` with exactly one component slot rewritten: entity `e`'s
    /// component `comp` now holds `v`, stamped with `w0.tick`; every other
    /// part of the world is bit-for-bit the same.
    pub open spec fn component_write_shape(
        w0: World,
        w1: World,
        e: Entity,
        comp: u64,
        v: Vec<u64>,
    ) -> bool {
        let a0 = w0.loc_of(e).archetype as int;
        let row = w0.loc_of(e).index as int;
        let ci = crate::archetype::sig_index(w0.sig_of(e), comp);
        let oa = w0.archetypes.arch(a0);
        let na = w1.archetypes.arch(a0);
        &&& w1.entities == w0.entities
        &&& w1.locations == w0.locations
        &&& w1.resources == w0.resources
        &&& w1.commands == w0.commands
        &&& w1.tick == w0.tick
        &&& w1.arch_count() == w0.arch_count()
        &&& w1.archetypes.edges@ == w0.archetypes.edges@
        &&& forall|b: int|
            0 <= b < w0.arch_count() && b != a0 ==> #[trigger] w1.archetypes.arch(b)
                == w0.archetypes.arch(b)
        &&& na.types@ == oa.types@
        &&& na.id == oa.id
        &&& na.tick == oa.tick
        &&& na.entities@ == oa.entities@
        &&& na.columns@.len() == oa.columns@.len()
        &&& forall|cj: int|
            0 <= cj < oa.columns@.len() && cj != ci ==> #[trigger] na.columns@[cj]
                == oa.columns@[cj]
        &&& na.columns@[ci].values@ == oa.columns@[ci].values@.update(row, v)
        &&& na.columns@[ci].changed_ticks@ == oa.columns@[ci].changed_ticks@.update(row, w0.tick)
        &&& na.columns@[ci].capacity == oa.columns@[ci].capacity
    }

    pub fn new() -> (w: Self)
        ensures
            w.wf(),
            w.tick == 0,
            w.slot_count() == 0,
            w.arch_count() == 0,
            forall|e: Entity| !w.spec_alive(e),
            forall|k: u64| !w.resources.spec_contains(k),
            w.commands.queue@.len() == 0,
    {
        Self {
            entities: EntityAllocator::new(),
            locations: Vec::new(),
            archetypes: ArchetypeMap::new(),
            resources: Resources::new(),
            commands: Commands::new(),
            tick: 0,
        }
    }

    /// Whether the handle is current: its generation matches the stored one
    /// and its id holds a row.
    pub fn is_alive(&self, entity: Entity) -> (r: bool)
        requires
            self.wf(),
        ensures
            r == self.spec_alive(entity),
    {
        if !self.entities.is_alive(entity) {
            return false;
        }
        if entity.id as usize >= self.locations.len() {
            return false;
        }
        match self.locations[entity.id as usize] {
            Some(_) => true,
            None => false,
        }
    }

    /// Advances the world tick by one and stamps every archetype with it.
    /// Every write from now on records a strictly greater tick than any
    /// recorded before.
    pub fn tick(&mut self)
        requires
            old(self).wf(),
            old(self).tick < u64::MAX,
        ensures
            final(self).wf(),
            final(self).tick == old(self).tick + 1,
            final(self).entities == old(self).entities,
            final(self).locations == old(self).locations,
            final(self).resources == old(self).resources,
            final(self).commands == old(self).commands,
            final(self).arch_count() == old(self).arch_count(),
            forall|e: Entity| World::entity_unchanged(*old(self), *final(self), e),
            forall|a: int|
                0 <= a < old(self).arch_count() ==> final(self).arch_len(a) == old(self).arch_len(
                    a,
                ),
    {
        let ghost w0 = *old(self);
        self.tick = self.tick + 1;
        let new_tick = self.tick;
        let n = self.archetypes.len();
        let mut a: usize = 0;
        while a < n
            invariant
                n == self.archetypes.count(),
                n == w0.archetypes.count(),
                a <= n,
                self.entities == w0.entities,
                self.locations == w0.locations,
                self.resources == w0.resources,
                self.commands == w0.commands,
                self.tick == new_tick,
                new_tick == w0.tick + 1,
                w0.wf(),
                forall|b: int|
                    a <= b < n ==> #[trigger] self.archetypes.arch(b) == w0.archetypes.arch(b),
                forall|b: int|
                    0 <= b < a ==> (#[trigger] self.archetypes.arch(b)) == (Archetype {
                        tick: new_tick,
                        ..w0.archetypes.arch(b)
                    }),
                self.archetypes.edges@ == w0.archetypes.edges@,
            decreases n - a,
        {
            proof {
                assert(self.archetypes.arch(a as int) == w0.archetypes.arch(a as int));
                assert(w0.archetypes.arch(a as int).wf());
            }
            let ghost head = *self;
            let arch = &mut self.archetypes.archetypes[a];
            arch.set_tick(new_tick);
            proof {
                let pre = head.archetypes.archetypes@;
                assert(self.archetypes.archetypes@ == pre.update(
                    a as int,
                    self.archetypes.archetypes@[a as int],
                ));
                assert forall|b: int| a as int + 1 <= b < n implies #[trigger] self.archetypes.arch(
                    b,
                ) == w0.archetypes.arch(b) by {
                    assert(self.archetypes.arch(b) == head.archetypes.arch(b));
                    assert(head.archetypes.arch(b) == w0.archetypes.arch(b));
                }
                assert forall|b: int| 0 <= b <= a as int implies (#[trigger] self.archetypes.arch(
                    b,
                )) == (Archetype { tick: new_tick, ..w0.archetypes.arch(b) }) by {
                    if b < a as int {
                        assert(self.archetypes.arch(b) == head.archetypes.arch(b));
                        assert(head.archetypes.arch(b) == (Archetype {
                            tick: new_tick,
                            ..w0.archetypes.arch(b)
                        }));
                    } else {
                        assert(head.archetypes.arch(b) == w0.archetypes.arch(b));
                    }
                }
            }
            a = a + 1;
        }
        proof {
            let w1 = *self;
            assert forall|b: int| 0 <= b < w1.archetypes.count() implies (
            #[trigger] w1.archetypes.arch(b)).wf() && w1.archetypes.arch(b).id == b by {
                assert(w0.archetypes.arch(b).wf());
            }
            assert forall|b: int, c: int| 0 <= b < c < w1.archetypes.count() implies
                w1.archetypes.arch(b).sig() != w1.archetypes.arch(c).sig() by {
                assert(w0.archetypes.arch(b).sig() != w0.archetypes.arch(c).sig());
            }
            assert forall|i: int| 0 <= i < w1.archetypes.edges@.len() implies w1.archetypes.edge_ok(
                #[trigger] w1.archetypes.edges@[i],
            ) by {
                assert(w0.archetypes.edge_ok(w0.archetypes.edges@[i]));
            }
            assert forall|id: int|
                0 <= id < w1.locations@.len() && w1.locations@[id] is Some implies
                #[trigger] w1.loc_ok(id) by {
                assert(w0.loc_ok(id));
            }
            assert forall|a2: int, r: int|
                0 <= a2 < w1.archetypes.count() && 0 <= r < w1.archetypes.arch(
                    a2,
                ).len_spec() implies #[trigger] w1.row_owned(a2, r) by {
                assert(w0.row_owned(a2, r));
            }
            assert forall|a2: int, ci: int, r: int|
                0 <= a2 < w1.archetypes.count() && 0 <= ci < w1.archetypes.arch(
                    a2,
                ).columns@.len() && 0 <= r < w1.archetypes.arch(a2).len_spec() implies
                #[trigger] w1.archetypes.arch(a2).columns@[ci].tick_at(r) <= w1.tick by {
                assert(w0.archetypes.arch(a2).columns@[ci].tick_at(r) <= w0.tick);
            }
            assert forall|e: Entity| World::entity_unchanged(w0, w1, e) by {
                if w0.spec_alive(e) {
                    let la = w0.loc_of(e).archetype as int;
                    assert(w0.loc_ok(e.id as int));
                    assert(w1.archetypes.arch(la) == (Archetype {
                        tick: new_tick,
                        ..w0.archetypes.arch(la)
                    }));
                    assert(w1.sig_of(e) == w0.sig_of(e));
                    assert forall|c: u64| w0.sig_of(e).contains(c) implies w1.spec_value(e, c)
                        == w0.spec_value(e, c) && w1.spec_tick(e, c) == w0.spec_tick(e, c) by {
                        assert(w1.arch_of(e).columns@ == w0.arch_of(e).columns@);
                    }
                }
            }
        }
    }

    /// Spawns a new entity carrying exactly the bundle's components: resolves
    /// (or creates) the archetype for the bundle's signature, allocates a
    /// fresh handle, appends the row and records its location. Every written
    /// slot is stamped with the current tick.
    pub fn spawn(&mut self, bundle: Bundle) -> (e: Entity)
        requires
            old(self).wf(),
            bundle.wf(),
            old(self).slot_count() < u32::MAX,
        ensures
            final(self).wf(),
            final(self).tick == old(self).tick,
            final(self).spec_alive(e),
            e.generation < u32::MAX,
            !old(self).entities.id_free(e.id as int) ==> e.id as int == old(self).slot_count()
                && e.generation == 0,
            !old(self).spec_alive(e),
            forall|c: u64| #[trigger] final(self).sig_of(e).contains(c) <==> bundle.spec_has(c),
            forall|c: u64|
                #[trigger] bundle.spec_has(c) ==> final(self).spec_value(e, c)
                    == bundle.spec_value(c) && final(self).spec_tick(e, c) == old(self).tick,
            World::others_unchanged(*old(self), *final(self), e),
            final(self).resources == old(self).resources,
            final(self).commands == old(self).commands,
            final(self).arch_count() >= old(self).arch_count(),
            final(self).spec_alive(e) && final(self).loc_of(e).archetype < final(self).arch_count(),
            final(self).loc_of(e).index as int == final(self).arch_len(
                final(self).loc_of(e).archetype as int,
            ) - 1,
            ({
                let a = final(self).loc_of(e).archetype as int;
                &&& (a < old(self).arch_count() ==> final(self).arch_len(a) == old(self).arch_len(
                    a,
                ) + 1)
                &&& (a >= old(self).arch_count() ==> final(self).arch_len(a) == 1 && final(self).arch_count() == old(self).arch_count() + 1)
                &&& forall|b: int|
                    0 <= b < old(self).arch_count() && b != a ==> final(self).arch_len(b) == old(self).arch_len(b)
            }),
    {
        let ghost w0 = *old(self);
        let entries = bundle.sorted_entries();
        let mut types: Vec<u64> = Vec::new();
        let mut i: usize = 0;
        while i < entries.len()
            invariant
                i <= entries@.len(),
                types@.len() == i,
                forall|j: int| 0 <= j < i ==> types@[j] == (#[trigger] entries@[j]).comp,
            decreases entries@.len() - i,
        {
            types.push(entries[i].comp);
            i = i + 1;
        }
        proof {
            let comps = Seq::new(entries@.len(), |k: int| entries@[k].comp);
            assert(types@ =~= comps);
            assert(sorted_strict(types@));
        }
        let ghost types_view = types@;
        let arch_idx = self.archetypes.get_or_create(types);
        let ghost w1 = *self;
        proof {
            // the resolved archetype's signature is exactly the sorted bundle
            // signature: strictly sorted sequences are canonical for their
            // member set
            crate::archetype::lemma_sorted_same_members_equal(
                self.archetypes.arch(arch_idx as int).sig(),
                types_view,
            );
            assert(self.archetypes.arch(arch_idx as int).sig() == types_view);
        }
        let t = self.tick;
        {
            proof {
                if (arch_idx as int) < w0.arch_count() {
                    assert(self.archetypes.arch(arch_idx as int) == w0.archetypes.arch(
                        arch_idx as int,
                    ));
                    assert(w0.archetypes.arch(arch_idx as int).wf());
                    assert(w0.archetypes.arch(arch_idx as int).tick == t);
                } else {
                    assert(self.archetypes.arch(arch_idx as int).wf());
                }
            }
            let arch = &mut self.archetypes.archetypes[arch_idx];
            arch.set_tick(t);
        }
        let ghost w2 = *self;
        proof {
            // the world with the (possibly fresh) archetype stamped with the
            // current tick is well-formed again
            assert(w2.archetypes.archetypes@ == w1.archetypes.archetypes@.update(
                arch_idx as int,
                w2.archetypes.arch(arch_idx as int),
            ));
            if (arch_idx as int) < w0.arch_count() {
                assert(w1.archetypes.archetypes@ == w0.archetypes.archetypes@);
                assert(w2.archetypes.arch(arch_idx as int) == w0.archetypes.arch(arch_idx as int));
                assert(w2.archetypes.archetypes@ =~= w0.archetypes.archetypes@.update(
                    arch_idx as int,
                    w2.archetypes.arch(arch_idx as int),
                ));
            } else {
                assert(arch_idx as int == w0.arch_count());
                assert forall|a: int| 0 <= a < w0.arch_count() implies (
                #[trigger] w0.archetypes.arch(a)).sig() != types_view by {
                    assert(!crate::archetype::same_members(
                        w0.archetypes.arch(a).sig(),
                        types_view,
                    ));
                }
                assert(w1.arch_count() == w0.arch_count() + 1);
                assert forall|b: int| 0 <= b < w0.arch_count() implies w1.archetypes.arch(b)
                    == w0.archetypes.arch(b) by {}
                assert(w1.archetypes.archetypes@.len() == w0.archetypes.archetypes@.len() + 1);
                assert forall|b: int|
                    0 <= b < w1.archetypes.archetypes@.len() implies #[trigger] w1.archetypes.archetypes@[b]
                    == w0.archetypes.archetypes@.push(w1.archetypes.arch(arch_idx as int))[b] by {
                    if b < w0.arch_count() {
                        assert(w1.archetypes.arch(b) == w0.archetypes.arch(b));
                    }
                }
                assert(w1.archetypes.archetypes@ =~= w0.archetypes.archetypes@.push(
                    w1.archetypes.arch(arch_idx as int),
                ));
                assert(w2.archetypes.archetypes@ =~= w0.archetypes.archetypes@.push(
                    w2.archetypes.arch(arch_idx as int),
                ));
            }
            assert(w2.archetypes.archetypes@ == if w0.arch_count() < w2.arch_count() {
                w0.archetypes.archetypes@.push(w2.archetypes.arch(arch_idx as int))
            } else {
                w0.archetypes.archetypes@.update(
                    arch_idx as int,
                    w2.archetypes.arch(arch_idx as int),
                )
            });
            assert forall|b: int| 0 <= b < w2.arch_count() && b != arch_idx as int implies
                w2.archetypes.arch(b) == w0.archetypes.arch(b) by {}
            assert forall|b: int| 0 <= b < w2.arch_count() implies (#[trigger] w2.archetypes.arch(
                b,
            )).wf() && w2.archetypes.arch(b).id == b && w2.archetypes.arch(b).tick == w2.tick by {
                if b != arch_idx as int {
                    assert(w2.archetypes.arch(b) == w0.archetypes.arch(b));
                    assert(w0.archetypes.arch(b).wf());
                }
            }
            assert forall|b: int, c2: int| 0 <= b < c2 < w2.arch_count() implies
                w2.archetypes.arch(b).sig() != w2.archetypes.arch(c2).sig() by {
                if c2 != arch_idx as int && b != arch_idx as int {
                    assert(w0.archetypes.arch(b).sig() != w0.archetypes.arch(c2).sig());
                } else if c2 == arch_idx as int {
                    if (arch_idx as int) < w0.arch_count() {
                        assert(w0.archetypes.arch(b).sig() != w0.archetypes.arch(c2).sig());
                    } else {
                        assert(!(exists|x: int|
                            0 <= x < w0.arch_count() && (#[trigger] w0.archetypes.arch(x)).sig()
                                == types_view));
                        assert(w0.archetypes.arch(b).sig() != types_view);
                    }
                } else {
                    if (arch_idx as int) < w0.arch_count() {
                        assert(w0.archetypes.arch(b).sig() != w0.archetypes.arch(c2).sig());
                    } else {
                        assert(w0.archetypes.arch(c2).sig() != types_view);
                    }
                }
            }
            assert forall|k: int| 0 <= k < w2.archetypes.edges@.len() implies w2.archetypes.edge_ok(
                #[trigger] w2.archetypes.edges@[k],
            ) by {
                assert(w0.archetypes.edge_ok(w0.archetypes.edges@[k]));
                let ed = w2.archetypes.edges@[k];
                assert(w2.archetypes.arch(ed.from as int) == w0.archetypes.arch(ed.from as int));
                assert(w2.archetypes.arch(ed.to as int) == w0.archetypes.arch(ed.to as int));
            }
            assert(w2.archetypes.wf());
            assert forall|id: int|
                0 <= id < w2.locations@.len() && w2.locations@[id] is Some implies
                #[trigger] w2.loc_ok(id) by {
                assert(w0.loc_ok(id));
                let loc = w0.locations@[id].unwrap();
                assert(loc.archetype as int != arch_idx as int || w2.archetypes.arch(
                    loc.archetype as int,
                ).entities@ == w0.archetypes.arch(loc.archetype as int).entities@);
            }
            assert forall|b: int, r: int|
                0 <= b < w2.archetypes.count() && 0 <= r < w2.archetypes.arch(
                    b,
                ).len_spec() implies #[trigger] w2.row_owned(b, r) by {
                if b == arch_idx as int && arch_idx as int >= w0.arch_count() {
                    assert(w2.archetypes.arch(b).len_spec() == 0);
                } else {
                    assert(w2.archetypes.arch(b).entities@ == w0.archetypes.arch(b).entities@);
                    assert(w0.row_owned(b, r));
                }
            }
            assert forall|b: int, ci: int, r: int|
                0 <= b < w2.archetypes.count() && 0 <= ci < w2.archetypes.arch(b).columns@.len()
                    && 0 <= r < w2.archetypes.arch(b).len_spec() implies
                #[trigger] w2.archetypes.arch(b).columns@[ci].tick_at(r) <= w2.tick by {
                if !(b == arch_idx as int && arch_idx as int >= w0.arch_count()) {
                    assert(w2.archetypes.arch(b).columns@ == w0.archetypes.arch(b).columns@);
                    assert(w0.archetypes.arch(b).columns@[ci].tick_at(r) <= w0.tick);
                }
            }
            assert(w2.wf());
            lemma_arch_len_bounded(w2, arch_idx as int);
        }
        let entity = self.entities.allocate();
        if entity.id as usize == self.locations.len() {
            self.locations.push(None);
        }
        let ghost w3 = *self;
        let row = self.archetypes.archetypes[arch_idx].len();
        {
            let arch = &mut self.archetypes.archetypes[arch_idx];
            arch.push_row(entity, &entries);
        }
        self.locations[entity.id as usize] = Some(
            EntityLocation { archetype: arch_idx, index: row },
        );
        let e = entity;
        proof {
            let w4 = *self;
            let eid = e.id as int;
            // shape of the final state relative to the stamped intermediate
            assert(w4.locations@.len() == w2.locations@.len() + if w0.entities.id_free(eid) {
                0int
            } else {
                1int
            });
            assert(w4.locations@[eid] == Some(
                EntityLocation { archetype: arch_idx, index: row },
            ));
            assert forall|id: int|
                0 <= id < w4.locations@.len() && id != eid implies w4.locations@[id] == if id
                    < w2.locations@.len() {
                    w2.locations@[id]
                } else {
                    None::<EntityLocation>
                } by {}
            assert(w4.archetypes.archetypes@ == w2.archetypes.archetypes@.update(
                arch_idx as int,
                w4.archetypes.arch(arch_idx as int),
            ));
            assert forall|b: int| 0 <= b < w4.arch_count() && b != arch_idx as int implies
                #[trigger] w4.archetypes.arch(b) == w2.archetypes.arch(b) by {}
            let na = w4.archetypes.arch(arch_idx as int);
            let oa = w2.archetypes.arch(arch_idx as int);
            assert(na.len_spec() == oa.len_spec() + 1 && row as int == oa.len_spec());
            // the allocator handed out an id that owned nothing before
            assert(!w0.entities.occupied(eid));
            assert(!w2.spec_alive(e) && !w0.spec_alive(e)) by {
                if eid < w0.locations@.len() {
                    assert(w0.locations@[eid] is Some <==> w0.entities.occupied(eid));
                }
            }
            // world invariant piece by piece
            assert(w4.entities.wf() && w4.archetypes.wf()) by {
                assert forall|b: int| 0 <= b < w4.arch_count() implies (
                #[trigger] w4.archetypes.arch(b)).wf() && w4.archetypes.arch(b).id == b by {
                    if b != arch_idx as int {
                        assert(w4.archetypes.arch(b) == w2.archetypes.arch(b));
                        assert(w2.archetypes.arch(b).wf());
                    }
                }
                assert forall|b: int, c2: int| 0 <= b < c2 < w4.arch_count() implies
                    w4.archetypes.arch(b).sig() != w4.archetypes.arch(c2).sig() by {
                    assert(w2.archetypes.arch(b).sig() != w2.archetypes.arch(c2).sig());
                }
                assert forall|k: int|
                    0 <= k < w4.archetypes.edges@.len() implies w4.archetypes.edge_ok(
                    #[trigger] w4.archetypes.edges@[k],
                ) by {
                    assert(w2.archetypes.edge_ok(w2.archetypes.edges@[k]));
                    let ed = w4.archetypes.edges@[k];
                    assert(w4.archetypes.arch(ed.from as int).sig() == w2.archetypes.arch(
                        ed.from as int,
                    ).sig());
                    assert(w4.archetypes.arch(ed.to as int).sig() == w2.archetypes.arch(
                        ed.to as int,
                    ).sig());
                }
            }
            assert(w4.locations@.len() == w4.entities.slot_count());
            assert forall|id: int|
                0 <= id < w4.locations@.len() implies ((#[trigger] w4.locations@[id]) is Some
                    <==> w4.entities.occupied(id)) by {
                if id != eid {
                    if id < w2.locations@.len() {
                        assert(w2.locations@[id] is Some <==> w2.entities.occupied(id));
                        assert(w4.entities.occupied(id) <==> w2.entities.occupied(id));
                    }
                }
            }
            assert forall|id: int|
                0 <= id < w4.locations@.len() && w4.locations@[id] is Some implies
                #[trigger] w4.loc_ok(id) by {
                if id == eid {
                    assert(na.entity_at(row as int) == e);
                    assert(w4.entities.gen_of(eid) == e.generation);
                } else {
                    assert(w2.locations@[id] is Some);
                    assert(w2.loc_ok(id));
                    let loc = w2.locations@[id].unwrap();
                    assert(w4.entities.gen_of(id) == w2.entities.gen_of(id));
                    if loc.archetype as int == arch_idx as int {
                        assert(na.entity_at(loc.index as int) == oa.entity_at(loc.index as int));
                    } else {
                        assert(w4.archetypes.arch(loc.archetype as int) == w2.archetypes.arch(
                            loc.archetype as int,
                        ));
                    }
                }
            }
            assert forall|b: int, r: int|
                0 <= b < w4.archetypes.count() && 0 <= r < w4.archetypes.arch(
                    b,
                ).len_spec() implies #[trigger] w4.row_owned(b, r) by {
                if b == arch_idx as int && r == row as int {
                    assert(na.entity_at(r) == e);
                } else {
                    let e2 = w4.archetypes.arch(b).entity_at(r);
                    assert(w2.row_owned(b, r));
                    assert(e2 == w2.archetypes.arch(b).entity_at(r));
                    assert(w2.locations@[e2.id as int] == Some(
                        EntityLocation { archetype: b as usize, index: r as usize },
                    ));
                    assert(e2.id as int != eid) by {
                        if e2.id as int == eid {
                            assert(w2.entities.occupied(eid));
                        }
                    }
                    assert(w4.entities.gen_of(e2.id as int) == w2.entities.gen_of(e2.id as int));
                }
            }
            assert forall|b: int|
                0 <= b < w4.archetypes.count() implies (#[trigger] w4.archetypes.arch(b)).tick
                == w4.tick by {
                assert(w2.archetypes.arch(b).tick == w2.tick);
            }
            assert forall|b: int, ci: int, r: int|
                0 <= b < w4.archetypes.count() && 0 <= ci < w4.archetypes.arch(b).columns@.len()
                    && 0 <= r < w4.archetypes.arch(b).len_spec() implies
                #[trigger] w4.archetypes.arch(b).columns@[ci].tick_at(r) <= w4.tick by {
                if b == arch_idx as int {
                    let sig = na.sig();
                    assert(na.wf());
                    let c = sig[ci];
                    crate::archetype::lemma_sig_index(sig, c, ci);
                    if r == row as int {
                        if ci < entries@.len() {
                            assert(entries@[ci].comp == sig[ci]);
                            assert(na.tick_of(row as int, entries@[ci].comp) == oa.tick);
                            assert(na.columns@[ci].tick_at(r) == oa.tick);
                        }
                    } else {
                        assert(oa.has_comp(c));
                        assert(na.value_of(r, c) == oa.value_of(r, c) && na.tick_of(r, c)
                            == oa.tick_of(r, c));
                        assert(na.columns@[ci].tick_at(r) == oa.columns@[ci].tick_at(r));
                        assert(w2.archetypes.arch(b).columns@[ci].tick_at(r) <= w2.tick);
                    }
                } else {
                    assert(w2.archetypes.arch(b).columns@[ci].tick_at(r) <= w2.tick);
                }
            }
            assert(w4.wf());
            // the new entity's observable state
            assert(w4.spec_alive(e));
            assert(w4.sig_of(e) == types_view);
            assert forall|c: u64| #[trigger] w4.sig_of(e).contains(c) <==> bundle.spec_has(c) by {
                assert(crate::component::entries_have(entries@, c) <==> bundle.spec_has(c));
                if w4.sig_of(e).contains(c) {
                    let k = choose|k: int| 0 <= k < types_view.len() && types_view[k] == c;
                    assert(entries@[k].comp == c);
                    assert(crate::component::entries_have_prefix(entries@, entries@.len() as int, c));
                }
                if bundle.spec_has(c) {
                    let k = choose|k: int|
                        0 <= k < entries@.len() && (#[trigger] entries@[k]).comp == c;
                    assert(types_view[k] == c);
                }
            }
            assert forall|c: u64| #[trigger] bundle.spec_has(c) implies w4.spec_value(e, c)
                == bundle.spec_value(c) && w4.spec_tick(e, c) == w0.tick by {
                assert(crate::component::entries_have(entries@, c));
                let k = choose|k: int|
                    0 <= k < entries@.len() && (#[trigger] entries@[k]).comp == c;
                assert(na.value_of(row as int, entries@[k].comp) == entries@[k].value@);
                assert(entries@[k].value@ == bundle.spec_value(c));
                assert(oa.tick == w0.tick);
            }
            // nothing else changed observably
            assert forall|e2: Entity| e2 != e implies #[trigger] World::entity_unchanged(
                w0,
                w4,
                e2,
            ) by {
                if e2.id as int == eid {
                    assert(!w0.spec_alive(e2));
                    assert(w4.entities.gen_of(eid) == e.generation);
                    assert(!w4.spec_alive(e2));
                } else {
                    if (e2.id as int) < w0.slot_count() {
                        assert(w4.entities.gen_of(e2.id as int) == w0.entities.gen_of(
                            e2.id as int,
                        ));
                    }
                    if w0.spec_alive(e2) {
                        assert(w0.loc_ok(e2.id as int));
                        assert(w4.spec_alive(e2));
                        let loc = w0.locations@[e2.id as int].unwrap();
                        assert(w4.loc_of(e2) == loc);
                        let b = loc.archetype as int;
                        let r = loc.index as int;
                        if b == arch_idx as int {
                            assert(w0.arch_count() > arch_idx as int);
                            assert(oa == (Archetype { tick: t, ..w0.archetypes.arch(b) }));
                            assert(w4.sig_of(e2) == w0.sig_of(e2));
                            assert(r < oa.len_spec());
                            assert forall|c: u64| w0.sig_of(e2).contains(c) implies w4.spec_value(
                                e2,
                                c,
                            ) == w0.spec_value(e2, c) && w4.spec_tick(e2, c) == w0.spec_tick(
                                e2,
                                c,
                            ) by {
                                assert(oa.has_comp(c));
                                assert(na.value_of(r, c) == oa.value_of(r, c) && na.tick_of(r, c)
                                    == oa.tick_of(r, c));
                                assert(oa.value_of(r, c) == w0.archetypes.arch(b).value_of(r, c));
                                assert(oa.tick_of(r, c) == w0.archetypes.arch(b).tick_of(r, c));
                            }
                        } else {
                            assert(w4.archetypes.arch(b) == w2.archetypes.arch(b));
                            assert(w2.archetypes.arch(b).columns@ == w0.archetypes.arch(
                                b,
                            ).columns@);
                            assert(w4.sig_of(e2) == w0.sig_of(e2));
                            assert forall|c: u64| w0.sig_of(e2).contains(c) implies w4.spec_value(
                                e2,
                                c,
                            ) == w0.spec_value(e2, c) && w4.spec_tick(e2, c) == w0.spec_tick(
                                e2,
                                c,
                            ) by {}
                        }
                    } else {
                        assert(!w4.spec_alive(e2)) by {
                            if w4.spec_alive(e2) {
                                assert(w4.entities.occupied(e2.id as int));
                                assert((e2.id as int) < w0.slot_count()) by {
                                    if (e2.id as int) >= w0.slot_count() {
                                        assert(e2.id as int == eid || e2.id as int
                                            >= w4.slot_count());
                                    }
                                }
                                assert(w0.entities.occupied(e2.id as int));
                                assert(w0.locations@[e2.id as int] is Some);
                                assert(w0.entities.gen_of(e2.id as int) == w4.entities.gen_of(
                                    e2.id as int,
                                ));
                                assert(w0.spec_alive(e2));
                            }
                        }
                    }
                }
            }
        }
        entity
    }

    /// Removes a live entity: destroys its row (moving the archetype's last
    /// row into its place), frees the handle — bumping the id's generation so
    /// stale handles stay dead — and updates the moved entity's location.
    /// Returns false, leaving the world untouched, for a stale handle.
    pub fn despawn(&mut self, entity: Entity) -> (r: bool)
        requires
            old(self).wf(),
        ensures
            final(self).wf(),
            r == old(self).spec_alive(entity),
            !r ==> *final(self) == *old(self),
            r ==> !final(self).spec_alive(entity),
            World::others_unchanged(*old(self), *final(self), entity),
            final(self).tick == old(self).tick,
            final(self).resources == old(self).resources,
            final(self).commands == old(self).commands,
            final(self).arch_count() == old(self).arch_count(),
            r ==> final(self).arch_len(old(self).loc_of(entity).archetype as int) == old(self).arch_len(old(self).loc_of(entity).archetype as int) - 1,
            r ==> forall|b: int|
                0 <= b < old(self).arch_count() && b != old(self).loc_of(entity).archetype as int
                    ==> final(self).arch_len(b) == old(self).arch_len(b),
    {
        let ghost w0 = *old(self);
        if !self.is_alive(entity) {
            return false;
        }
        let freed = self.entities.free(entity);
        if !freed {
            return false;
        }
        let eid = entity.id as usize;
        let loc = match self.locations[eid] {
            Some(loc) => loc,
            None => { vstd::pervasive::unreached() },
        };
        self.locations[eid] = None;
        proof {
            assert(w0.loc_ok(entity.id as int));
            assert(w0.archetypes.arch(loc.archetype as int).wf());
            assert(w0.archetypes.arch(loc.archetype as int).entity_at(loc.index as int) == entity);
            // each live id owns its own row
            assert forall|id: int|
                0 <= id < w0.locations@.len() && w0.locations@[id] is Some implies
                #[trigger] w0.loc_ok(id) by {}
        }
        let ghost a0 = loc.archetype as int;
        let ghost row = loc.index as int;
        let ghost n0 = w0.arch_len(a0);
        proof {
            // the owner of the last row of the archetype
            assert(w0.row_owned(a0, n0 - 1));
        }
        let swapped = {
            let arch = &mut self.archetypes.archetypes[loc.archetype];
            arch.remove_entity(loc.index)
        };
        proof {
            vstd::std_specs::vec::axiom_spec_len(&w0.archetypes.arch(a0).entities);
            assert(n0 <= usize::MAX);
            assert(swapped == w0.archetypes.arch(a0).entity_at(n0 - 1));
            assert(w0.locations@[swapped.id as int] == Some(
                EntityLocation { archetype: loc.archetype, index: (n0 - 1) as usize },
            ));
            if swapped == entity {
                assert(w0.locations@[entity.id as int] == Some(loc));
                assert(loc.index as int == n0 - 1);
                assert(row == n0 - 1);
            } else {
                assert(swapped.id != entity.id) by {
                    if swapped.id == entity.id {
                        assert(row == n0 - 1);
                        assert(w0.archetypes.arch(a0).entity_at(row) == entity);
                    }
                }
                assert(row < n0 - 1) by {
                    if row == n0 - 1 {
                        assert(w0.archetypes.arch(a0).entity_at(row) == entity);
                    }
                }
            }
        }
        if swapped.id != entity.id {
            self.locations[swapped.id as usize] = Some(
                EntityLocation { archetype: loc.archetype, index: loc.index },
            );
        }
        proof {
            let w4 = *self;
            let eidi = entity.id as int;
            let sid = swapped.id as int;
            let oa = w0.archetypes.arch(a0);
            let na = w4.archetypes.arch(a0);
            assert(w4.archetypes.archetypes@ == w0.archetypes.archetypes@.update(a0, na));
            assert forall|b: int| 0 <= b < w0.arch_count() && b != a0 implies
                #[trigger] w4.archetypes.arch(b) == w0.archetypes.arch(b) by {}
            assert(na.len_spec() == n0 - 1);
            // the archetype store is still well-formed
            assert(w4.archetypes.wf()) by {
                assert forall|b: int| 0 <= b < w4.arch_count() implies (
                #[trigger] w4.archetypes.arch(b)).wf() && w4.archetypes.arch(b).id == b by {
                    assert(w0.archetypes.arch(b).wf());
                }
                assert forall|b: int, c2: int| 0 <= b < c2 < w4.arch_count() implies
                    w4.archetypes.arch(b).sig() != w4.archetypes.arch(c2).sig() by {
                    assert(w0.archetypes.arch(b).sig() != w0.archetypes.arch(c2).sig());
                    assert(w4.archetypes.arch(b).sig() == w0.archetypes.arch(b).sig());
                    assert(w4.archetypes.arch(c2).sig() == w0.archetypes.arch(c2).sig());
                }
                assert forall|k: int|
                    0 <= k < w4.archetypes.edges@.len() implies w4.archetypes.edge_ok(
                    #[trigger] w4.archetypes.edges@[k],
                ) by {
                    assert(w0.archetypes.edge_ok(w0.archetypes.edges@[k]));
                    let ed = w4.archetypes.edges@[k];
                    assert(w4.archetypes.arch(ed.from as int).sig() == w0.archetypes.arch(
                        ed.from as int,
                    ).sig());
                    assert(w4.archetypes.arch(ed.to as int).sig() == w0.archetypes.arch(
                        ed.to as int,
                    ).sig());
                }
            }
            assert forall|id: int|
                0 <= id < w4.locations@.len() implies ((#[trigger] w4.locations@[id]) is Some
                    <==> w4.entities.occupied(id)) by {
                if id == eidi {
                } else {
                    assert(w0.locations@[id] is Some <==> w0.entities.occupied(id));
                    assert(w4.entities.occupied(id) <==> w0.entities.occupied(id));
                }
            }
            assert forall|id: int|
                0 <= id < w4.locations@.len() && w4.locations@[id] is Some implies
                #[trigger] w4.loc_ok(id) by {
                assert(id != eidi);
                assert(w4.entities.gen_of(id) == w0.entities.gen_of(id));
                if id == sid && swapped != entity {
                    assert(w4.locations@[id] == Some(
                        EntityLocation { archetype: loc.archetype, index: loc.index },
                    ));
                    assert(na.entity_at(row) == oa.entity_at(n0 - 1));
                } else {
                    assert(w4.locations@[id] == w0.locations@[id]);
                    assert(w0.loc_ok(id));
                    let l2 = w0.locations@[id].unwrap();
                    if l2.archetype as int == a0 {
                        assert(l2.index as int != row) by {
                            if l2.index as int == row {
                                assert(oa.entity_at(row).id == id);
                                assert(oa.entity_at(row) == entity);
                            }
                        }
                        assert(l2.index as int != n0 - 1) by {
                            if l2.index as int == n0 - 1 {
                                assert(oa.entity_at(n0 - 1).id == id);
                                assert(id == sid);
                                if swapped == entity {
                                    assert(id == eidi);
                                }
                            }
                        }
                        assert(na.entity_at(l2.index as int) == oa.entity_at(l2.index as int));
                    } else {
                        assert(w4.archetypes.arch(l2.archetype as int) == w0.archetypes.arch(
                            l2.archetype as int,
                        ));
                    }
                }
            }
            assert forall|b: int, r2: int|
                0 <= b < w4.archetypes.count() && 0 <= r2 < w4.archetypes.arch(
                    b,
                ).len_spec() implies #[trigger] w4.row_owned(b, r2) by {
                if b != a0 {
                    assert(w4.archetypes.arch(b) == w0.archetypes.arch(b));
                    assert(w0.row_owned(b, r2));
                    let e2 = w0.archetypes.arch(b).entity_at(r2);
                    assert(e2.id as int != eidi) by {
                        if e2.id as int == eidi {
                            assert(w0.locations@[eidi] == Some(
                                EntityLocation { archetype: b as usize, index: r2 as usize },
                            ));
                            assert(w0.loc_of(entity).archetype as int == b);
                        }
                    }
                    assert(e2.id as int != sid || w0.locations@[sid] == Some(
                        EntityLocation { archetype: b as usize, index: r2 as usize },
                    ));
                    if e2.id as int == sid {
                        assert(b == a0);
                    }
                } else {
                    if r2 == row && swapped != entity {
                        assert(na.entity_at(r2) == oa.entity_at(n0 - 1));
                        assert(na.entity_at(r2) == swapped);
                        assert(w4.locations@[sid] == Some(
                            EntityLocation { archetype: a0 as usize, index: row as usize },
                        ));
                    } else {
                        assert(r2 != row) by {
                            if r2 == row {
                                assert(swapped == entity);
                                assert(row == n0 - 1);
                                assert(r2 < n0 - 1);
                            }
                        }
                        assert(na.entity_at(r2) == oa.entity_at(r2));
                        assert(w0.row_owned(a0, r2));
                        let e2 = oa.entity_at(r2);
                        assert(e2.id as int != eidi) by {
                            if e2.id as int == eidi {
                                assert(w0.locations@[eidi] == Some(
                                    EntityLocation { archetype: a0 as usize, index: r2 as usize },
                                ));
                            }
                        }
                        assert(e2.id as int != sid) by {
                            if e2.id as int == sid {
                                assert(w0.locations@[sid] == Some(
                                    EntityLocation { archetype: a0 as usize, index: r2 as usize },
                                ));
                                assert(r2 == n0 - 1);
                            }
                        }
                        assert(w4.locations@[e2.id as int] == w0.locations@[e2.id as int]);
                    }
                }
            }
            assert forall|b: int|
                0 <= b < w4.archetypes.count() implies (#[trigger] w4.archetypes.arch(b)).tick
                == w4.tick by {
                assert(w0.archetypes.arch(b).tick == w0.tick);
            }
            assert forall|b: int, ci: int, r2: int|
                0 <= b < w4.archetypes.count() && 0 <= ci < w4.archetypes.arch(b).columns@.len()
                    && 0 <= r2 < w4.archetypes.arch(b).len_spec() implies
                #[trigger] w4.archetypes.arch(b).columns@[ci].tick_at(r2) <= w4.tick by {
                if b != a0 {
                    assert(w4.archetypes.arch(b) == w0.archetypes.arch(b));
                    assert(w0.archetypes.arch(b).columns@[ci].tick_at(r2) <= w0.tick);
                } else {
                    let c = oa.sig()[ci];
                    crate::archetype::lemma_sig_index(oa.sig(), c, ci);
                    assert(oa.has_comp(c));
                    if r2 == row && row < n0 - 1 {
                        assert(na.tick_of(r2, c) == oa.tick_of(n0 - 1, c));
                        assert(oa.columns@[ci].tick_at(n0 - 1) <= w0.tick);
                    } else {
                        assert(na.tick_of(r2, c) == oa.tick_of(r2, c));
                        assert(oa.columns@[ci].tick_at(r2) <= w0.tick);
                    }
                }
            }
            assert(w4.wf());
            assert(!w4.spec_alive(entity));
            // nothing else changed observably
            assert forall|e2: Entity| e2 != entity implies #[trigger] World::entity_unchanged(
                w0,
                w4,
                e2,
            ) by {
                if e2.id as int == eidi {
                    assert(!w0.spec_alive(e2)) by {
                        if w0.spec_alive(e2) {
                            assert(w0.entities.gen_of(eidi) == e2.generation);
                            assert(w0.entities.gen_of(eidi) == entity.generation);
                        }
                    }
                    assert(!w4.spec_alive(e2));
                } else if (e2.id as int) >= w0.slot_count() {
                    assert(!w0.spec_alive(e2));
                    assert(!w4.spec_alive(e2));
                } else {
                    assert(w4.entities.gen_of(e2.id as int) == w0.entities.gen_of(e2.id as int));
                    assert(w4.entities.spec_is_alive(e2) == w0.entities.spec_is_alive(e2));
                    if e2.id as int == sid && swapped != entity {
                        assert(w4.spec_alive(e2) <==> w0.spec_alive(e2));
                        if w0.spec_alive(e2) && e2 == swapped {
                            assert(w4.loc_of(e2) == (EntityLocation {
                                archetype: a0 as usize,
                                index: row as usize,
                            }));
                            assert(w4.sig_of(e2) == oa.sig());
                            assert forall|c: u64| w0.sig_of(e2).contains(c) implies w4.spec_value(
                                e2,
                                c,
                            ) == w0.spec_value(e2, c) && w4.spec_tick(e2, c) == w0.spec_tick(
                                e2,
                                c,
                            ) by {
                                assert(w0.loc_of(e2) == (EntityLocation {
                                    archetype: a0 as usize,
                                    index: (n0 - 1) as usize,
                                }));
                                assert(na.tick_of(row, c) == oa.tick_of(n0 - 1, c));
                                assert(na.value_of(row, c) == oa.value_of(n0 - 1, c));
                            }
                        } else {
                            assert(e2.generation != swapped.generation || e2 == swapped);
                            if w0.spec_alive(e2) {
                                assert(e2 == swapped);
                            }
                        }
                    } else {
                        assert(w4.locations@[e2.id as int] == w0.locations@[e2.id as int]);
                        if w0.spec_alive(e2) {
                            assert(w0.loc_ok(e2.id as int));
                            let l2 = w0.loc_of(e2);
                            assert(w4.loc_of(e2) == l2);
                            if l2.archetype as int == a0 {
                                assert(l2.index as int != row) by {
                                    if l2.index as int == row {
                                        assert(oa.entity_at(row).id == e2.id);
                                    }
                                }
                                assert(l2.index as int != n0 - 1) by {
                                    if l2.index as int == n0 - 1 {
                                        assert(oa.entity_at(n0 - 1).id == e2.id);
                                        assert(e2.id as int == sid);
                                    }
                                }
                                assert((l2.index as int) < n0 - 1);
                                assert(w4.sig_of(e2) == w0.sig_of(e2));
                                assert forall|c: u64|
                                    w0.sig_of(e2).contains(c) implies w4.spec_value(e2, c)
                                    == w0.spec_value(e2, c) && w4.spec_tick(e2, c)
                                    == w0.spec_tick(e2, c) by {
                                    assert(na.value_of(l2.index as int, c) == oa.value_of(
                                        l2.index as int,
                                        c,
                                    ));
                                    assert(na.tick_of(l2.index as int, c) == oa.tick_of(
                                        l2.index as int,
                                        c,
                                    ));
                                }
                            } else {
                                assert(w4.archetypes.arch(l2.archetype as int)
                                    == w0.archetypes.arch(l2.archetype as int));
                            }
                        }
                    }
                }
            }
        }
        true
    }

    /// Gives `entity` component `comp` with payload `value`. When the entity
    /// already carries the component this is an in-place overwrite; otherwise
    /// the entity's whole row migrates to the archetype whose signature also
    /// holds `comp`, keeping every other component's payload and change tick,
    /// and the new component is stamped with the current tick.
    #[verifier::rlimit(100)]
    #[verifier::spinoff_prover]
    pub fn insert(&mut self, entity: Entity, comp: u64, value: Vec<u64>) -> (r: Result<
        (),
        crate::error::EcsError,
    >)
        requires
            old(self).wf(),
        ensures
            final(self).wf(),
            final(self).tick == old(self).tick,
            final(self).resources == old(self).resources,
            final(self).commands == old(self).commands,
            match r {
                Ok(u) => {
                    &&& old(self).spec_alive(entity)
                    &&& final(self).spec_alive(entity)
                    &&& forall|c: u64|
                        #[trigger] final(self).sig_of(entity).contains(c) <==> (old(self).sig_of(
                            entity,
                        ).contains(c) || c == comp)
                    &&& final(self).spec_value(entity, comp) == value@
                    &&& final(self).spec_tick(entity, comp) == old(self).tick
                    &&& forall|c: u64|
                        old(self).sig_of(entity).contains(c) && c != comp ==> final(self).spec_value(entity, c) == old(self).spec_value(entity, c) && final(self).spec_tick(entity, c) == old(self).spec_tick(entity, c)
                    &&& World::others_unchanged(*old(self), *final(self), entity)
                    &&& (old(self).spec_has(entity, comp) ==> {
                        &&& final(self).loc_of(entity) == old(self).loc_of(entity)
                        &&& final(self).arch_count() == old(self).arch_count()
                        &&& forall|b: int|
                            0 <= b < old(self).arch_count() ==> #[trigger] final(self).arch_len(b)
                                == old(self).arch_len(b)
                    })
                    &&& (!old(self).spec_has(entity, comp) ==> {
                        let a_from = old(self).loc_of(entity).archetype as int;
                        let a_to = final(self).loc_of(entity).archetype as int;
                        &&& a_to != a_from
                        &&& (final(self).arch_count() == old(self).arch_count() || (final(self).arch_count()
                            == old(self).arch_count() + 1 && a_to == old(self).arch_count()))
                        &&& final(self).loc_of(entity).index as int == final(self).arch_len(a_to)
                            - 1
                        &&& final(self).arch_len(a_from) == old(self).arch_len(a_from) - 1
                        &&& final(self).arch_len(a_to) == (if a_to < old(self).arch_count() {
                            old(self).arch_len(a_to) + 1
                        } else {
                            1int
                        })
                        &&& forall|b: int|
                            0 <= b < old(self).arch_count() && b != a_from && b != a_to
                                ==> #[trigger] final(self).arch_len(b) == old(self).arch_len(b)
                    })
                },
                Err(err) => err == crate::error::EcsError::EntityNotFound(entity) && !old(self).spec_alive(entity) && *final(self) == *old(self),
            },
    {
        let ghost w0 = *old(self);
        if !self.is_alive(entity) {
            return Err(crate::error::EcsError::EntityNotFound(entity));
        }
        let eid = entity.id as usize;
        let loc = match self.locations[eid] {
            Some(loc) => loc,
            None => { vstd::pervasive::unreached() },
        };
        proof {
            assert(w0.loc_ok(entity.id as int));
            assert(w0.archetypes.arch(loc.archetype as int).wf());
            assert(w0.archetypes.arch(loc.archetype as int).entity_at(loc.index as int) == entity);
            assert forall|id: int|
                0 <= id < w0.locations@.len() && w0.locations@[id] is Some implies
                #[trigger] w0.loc_ok(id) by {}
        }
        let from_idx = loc.archetype;
        let from_row = loc.index;
        let comp_present = match self.archetypes.archetypes[from_idx].find_column(comp) {
            Some(_) => true,
            None => false,
        };
        if comp_present {
            // in-place overwrite of an existing component
            let ghost a0 = from_idx as int;
            let ghost row = from_row as int;
            {
                let arch = &mut self.archetypes.archetypes[from_idx];
                arch.set_component(from_row, comp, value);
            }
            proof {
                let w4 = *self;
                let oa = w0.archetypes.arch(a0);
                let na = w4.archetypes.arch(a0);
                assert forall|b: int| 0 <= b < w0.arch_count() && b != a0 implies
                    #[trigger] w4.archetypes.arch(b) == w0.archetypes.arch(b) by {}
                assert(w4.archetypes.wf()) by {
                    assert forall|b: int| 0 <= b < w4.arch_count() implies (
                    #[trigger] w4.archetypes.arch(b)).wf() && w4.archetypes.arch(b).id == b by {
                        assert(w0.archetypes.arch(b).wf());
                    }
                    assert forall|b: int, c2: int| 0 <= b < c2 < w4.arch_count() implies
                        w4.archetypes.arch(b).sig() != w4.archetypes.arch(c2).sig() by {
                        assert(w0.archetypes.arch(b).sig() != w0.archetypes.arch(c2).sig());
                        assert(w4.archetypes.arch(b).sig() == w0.archetypes.arch(b).sig());
                        assert(w4.archetypes.arch(c2).sig() == w0.archetypes.arch(c2).sig());
                    }
                    assert forall|k: int|
                        0 <= k < w4.archetypes.edges@.len() implies w4.archetypes.edge_ok(
                        #[trigger] w4.archetypes.edges@[k],
                    ) by {
                        assert(w0.archetypes.edge_ok(w0.archetypes.edges@[k]));
                        let ed = w4.archetypes.edges@[k];
                        assert(w4.archetypes.arch(ed.from as int).sig() == w0.archetypes.arch(
                            ed.from as int,
                        ).sig());
                        assert(w4.archetypes.arch(ed.to as int).sig() == w0.archetypes.arch(
                            ed.to as int,
                        ).sig());
                    }
                }
                assert forall|id: int|
                    0 <= id < w4.locations@.len() && w4.locations@[id] is Some implies
                    #[trigger] w4.loc_ok(id) by {
                    assert(w0.loc_ok(id));
                    let l2 = w0.locations@[id].unwrap();
                    assert(w4.archetypes.arch(l2.archetype as int).entities@ == w0.archetypes.arch(
                        l2.archetype as int,
                    ).entities@);
                }
                assert forall|b: int, r2: int|
                    0 <= b < w4.archetypes.count() && 0 <= r2 < w4.archetypes.arch(
                        b,
                    ).len_spec() implies #[trigger] w4.row_owned(b, r2) by {
                    assert(w4.archetypes.arch(b).entities@ == w0.archetypes.arch(b).entities@);
                    assert(w0.row_owned(b, r2));
                }
                assert forall|b: int, ci: int, r2: int|
                    0 <= b < w4.archetypes.count() && 0 <= ci < w4.archetypes.arch(
                        b,
                    ).columns@.len() && 0 <= r2 < w4.archetypes.arch(b).len_spec() implies
                    #[trigger] w4.archetypes.arch(b).columns@[ci].tick_at(r2) <= w4.tick by {
                    assert(w0.archetypes.arch(b).columns@[ci].tick_at(r2) <= w0.tick);
                    if b == a0 {
                        let c = oa.sig()[ci];
                        crate::archetype::lemma_sig_index(oa.sig(), c, ci);
                        assert(oa.has_comp(c));
                        if r2 == row && c == comp {
                            assert(na.tick_of(r2, c) == oa.tick);
                        } else {
                            assert(na.tick_of(r2, c) == oa.tick_of(r2, c));
                        }
                        assert(na.columns@[ci].tick_at(r2) == na.tick_of(r2, c));
                    }
                }
                assert(w4.wf());
                assert forall|e2: Entity| e2 != entity implies #[trigger] World::entity_unchanged(
                    w0,
                    w4,
                    e2,
                ) by {
                    assert(w4.spec_alive(e2) <==> w0.spec_alive(e2));
                    if w0.spec_alive(e2) {
                        assert(w0.loc_ok(e2.id as int));
                        let l2 = w0.loc_of(e2);
                        if l2.archetype as int == a0 {
                            assert(l2.index as int != row) by {
                                if l2.index as int == row {
                                    assert(oa.entity_at(row).id == e2.id);
                                    assert(oa.entity_at(row) == entity);
                                }
                            }
                            assert(w4.sig_of(e2) == w0.sig_of(e2));
                            assert forall|c: u64| w0.sig_of(e2).contains(c) implies w4.spec_value(
                                e2,
                                c,
                            ) == w0.spec_value(e2, c) && w4.spec_tick(e2, c) == w0.spec_tick(
                                e2,
                                c,
                            ) by {
                                assert(na.value_of(l2.index as int, c) == oa.value_of(
                                    l2.index as int,
                                    c,
                                ));
                                assert(na.tick_of(l2.index as int, c) == oa.tick_of(
                                    l2.index as int,
                                    c,
                                ));
                            }
                        } else {
                            assert(w4.archetypes.arch(l2.archetype as int) == w0.archetypes.arch(
                                l2.archetype as int,
                            ));
                        }
                    }
                }
                assert forall|c: u64|
                    w0.sig_of(entity).contains(c) && c != comp implies w4.spec_value(entity, c)
                    == w0.spec_value(entity, c) && w4.spec_tick(entity, c) == w0.spec_tick(
                    entity,
                    c,
                ) by {
                    assert(na.value_of(row, c) == oa.value_of(row, c));
                    assert(na.tick_of(row, c) == oa.tick_of(row, c));
                }
            }
            return Ok(());
        }
        // structural migration to the archetype whose signature also has `comp`
        let to_idx = match self.archetypes.find_archetype_with_added(from_idx, comp) {
            Some(t) => t,
            None => self.archetypes.create_archetype_with_added(from_idx, comp),
        };
        let t = self.tick;
        proof {
            assert(sig_with_added(
                w0.archetypes.arch(from_idx as int).sig(),
                comp,
                self.archetypes.arch(to_idx as int).sig(),
            ));
            assert(to_idx != from_idx) by {
                if to_idx == from_idx {
                    assert(self.archetypes.arch(to_idx as int).sig().contains(comp));
                    assert(self.archetypes.arch(from_idx as int) == w0.archetypes.arch(
                        from_idx as int,
                    ));
                }
            }
            if (to_idx as int) < w0.arch_count() {
                assert(self.archetypes.arch(to_idx as int) == w0.archetypes.arch(to_idx as int));
                assert(w0.archetypes.arch(to_idx as int).wf());
                assert(w0.archetypes.arch(to_idx as int).tick == t);
            } else {
                assert(self.archetypes.arch(to_idx as int).wf());
            }
        }
        let ghost w1m = *self;
        {
            let arch = &mut self.archetypes.archetypes[to_idx];
            arch.set_tick(t);
        }
        let ghost w2 = *self;
        proof {
            lemma_stamped_target_wf(w0, w1m, w2, to_idx);
            lemma_arch_len_bounded_strict(w2, to_idx as int, entity);
            vstd::std_specs::vec::axiom_spec_len(&self.locations);
        }
        let (vals, ticks) = self.archetypes.archetypes[from_idx].read_row(from_row);
        let from_types = crate::archetype::copy_words(&self.archetypes.archetypes[from_idx].types);
        let to_row = self.archetypes.archetypes[to_idx].len();
        proof {
            let fa = w2.archetypes.arch(from_idx as int);
            assert forall|j: int| 0 <= j < from_types@.len() implies (#[trigger] vals@[j])@
                == fa.value_of(from_row as int, from_types@[j]) && ticks@[j] == fa.tick_of(
                from_row as int,
                from_types@[j],
            ) by {
                assert(from_types@[j] == fa.sig()[j]);
            }
        }
        {
            let arch = &mut self.archetypes.archetypes[to_idx];
            arch.push_entity(entity);
            let ghost pushed = *arch;
            let mut i: usize = 0;
            while i < from_types.len()
                invariant
                    w2.wf(),
                    from_idx != to_idx,
                    0 <= (to_idx as int) < w2.arch_count(),
                    0 <= (from_idx as int) < w2.arch_count(),
                    from_types@ == w2.archetypes.arch(from_idx as int).sig(),
                    vals@.len() == from_types@.len(),
                    ticks@.len() == from_types@.len(),
                    forall|j: int|
                        0 <= j < from_types@.len() ==> (#[trigger] vals@[j])@
                            == w2.archetypes.arch(from_idx as int).value_of(
                            from_row as int,
                            from_types@[j],
                        ) && ticks@[j] == w2.archetypes.arch(from_idx as int).tick_of(
                            from_row as int,
                            from_types@[j],
                        ),
                    sig_with_added(
                        w2.archetypes.arch(from_idx as int).sig(),
                        comp,
                        pushed.sig(),
                    ),
                    i <= from_types@.len(),
                    pushed.wf(),
                    to_row as int == pushed.len_spec() - 1,
                    arch.wf(),
                    arch.id == pushed.id,
                    arch.tick == pushed.tick,
                    arch.tick == w2.tick,
                    arch.sig() == pushed.sig(),
                    arch.len_spec() == pushed.len_spec(),
                    arch.entities@ == pushed.entities@,
                    forall|r2: int, c: u64|
                        0 <= r2 < pushed.len_spec() - 1 && pushed.has_comp(c) ==> arch.value_of(
                            r2,
                            c,
                        ) == pushed.value_of(r2, c) && arch.tick_of(r2, c) == pushed.tick_of(
                            r2,
                            c,
                        ),
                    forall|j: int|
                        0 <= j < i ==> arch.value_of(to_row as int, (#[trigger] from_types@[j]))
                            == vals@[j]@ && arch.tick_of(to_row as int, from_types@[j])
                            == ticks@[j],
                decreases from_types@.len() - i,
            {
                let c = from_types[i];
                proof {
                    assert(w2.archetypes.arch(from_idx as int).sig().contains(c)) by {
                        assert(from_types@[i as int] == c);
                    }
                    assert(pushed.sig().contains(c));
                }
                let v = crate::archetype::copy_words(&vals[i]);
                let ghost pre = *arch;
                arch.write_component_with_tick(to_row, c, v, ticks[i]);
                proof {
                    assert forall|j: int|
                        0 <= j < i implies arch.value_of(
                        to_row as int,
                        (#[trigger] from_types@[j]),
                    ) == vals@[j]@ && arch.tick_of(to_row as int, from_types@[j])
                        == ticks@[j] by {
                        if from_types@[j] != c {
                            assert(pre.value_of(to_row as int, from_types@[j]) == vals@[j]@);
                        } else {
                            assert(j == i as int) by {
                                crate::archetype::lemma_sig_index(
                                    w2.archetypes.arch(from_idx as int).sig(),
                                    c,
                                    j,
                                );
                                crate::archetype::lemma_sig_index(
                                    w2.archetypes.arch(from_idx as int).sig(),
                                    c,
                                    i as int,
                                );
                            }
                        }
                    }
                }
                i = i + 1;
            }
            arch.set_component(to_row, comp, value);
        }
        let ghost w3 = *self;
        let swapped = {
            let arch = &mut self.archetypes.archetypes[from_idx];
            arch.remove_entity(from_row)
        };
        proof {
            let nf = w0.archetypes.arch(from_idx as int).len_spec();
            assert(w3.archetypes.arch(from_idx as int) == w0.archetypes.arch(from_idx as int));
            assert(w0.row_owned(from_idx as int, nf - 1));
            assert(swapped == w0.archetypes.arch(from_idx as int).entity_at(nf - 1));
            assert((swapped.id as int) < w0.locations@.len());
            assert(self.locations@ == w0.locations@);
        }
        self.locations[eid] = Some(EntityLocation { archetype: to_idx, index: to_row });
        if swapped.id != entity.id {
            self.locations[swapped.id as usize] = Some(
                EntityLocation { archetype: from_idx, index: from_row },
            );
        }
        proof {
            lemma_migration(
                w0,
                w2,
                w3,
                *self,
                entity,
                comp,
                Some(value),
                from_idx,
                from_row,
                to_idx,
                to_row,
                swapped,
            );
        }
        Ok(())
    }

    /// Takes component `comp` off `entity`, returning its payload. The
    /// entity's row migrates to the archetype without `comp`, keeping every
    /// other component's payload and change tick. Reports which precondition
    /// failed — a stale handle or an absent component — leaving the world
    /// untouched.
    #[verifier::rlimit(100)]
    #[verifier::spinoff_prover]
    pub fn remove(&mut self, entity: Entity, comp: u64) -> (r: Result<
        Vec<u64>,
        crate::error::EcsError,
    >)
        requires
            old(self).wf(),
        ensures
            final(self).wf(),
            final(self).tick == old(self).tick,
            final(self).resources == old(self).resources,
            final(self).commands == old(self).commands,
            match r {
                Ok(v) => {
                    &&& old(self).spec_has(entity, comp)
                    &&& v@ == old(self).spec_value(entity, comp)
                    &&& final(self).spec_alive(entity)
                    &&& forall|c: u64|
                        #[trigger] final(self).sig_of(entity).contains(c) <==> (old(self).sig_of(
                            entity,
                        ).contains(c) && c != comp)
                    &&& forall|c: u64|
                        old(self).sig_of(entity).contains(c) && c != comp ==> final(self).spec_value(entity, c) == old(self).spec_value(entity, c) && final(self).spec_tick(entity, c) == old(self).spec_tick(entity, c)
                    &&& World::others_unchanged(*old(self), *final(self), entity)
                    &&& ({
                        let a_from = old(self).loc_of(entity).archetype as int;
                        let a_to = final(self).loc_of(entity).archetype as int;
                        &&& a_to != a_from
                        &&& (final(self).arch_count() == old(self).arch_count() || (final(self).arch_count()
                            == old(self).arch_count() + 1 && a_to == old(self).arch_count()))
                        &&& final(self).loc_of(entity).index as int == final(self).arch_len(a_to)
                            - 1
                        &&& final(self).arch_len(a_from) == old(self).arch_len(a_from) - 1
                        &&& final(self).arch_len(a_to) == (if a_to < old(self).arch_count() {
                            old(self).arch_len(a_to) + 1
                        } else {
                            1int
                        })
                        &&& forall|b: int|
                            0 <= b < old(self).arch_count() && b != a_from && b != a_to
                                ==> #[trigger] final(self).arch_len(b) == old(self).arch_len(b)
                    })
                },
                Err(err) => {
                    &&& *final(self) == *old(self)
                    &&& err == if !old(self).spec_alive(entity) {
                        crate::error::EcsError::EntityNotFound(entity)
                    } else {
                        crate::error::EcsError::ComponentNotFound(comp)
                    }
                    &&& !old(self).spec_has(entity, comp)
                },
            },
    {
        let ghost w0 = *old(self);
        if !self.is_alive(entity) {
            return Err(crate::error::EcsError::EntityNotFound(entity));
        }
        let eid = entity.id as usize;
        let loc = match self.locations[eid] {
            Some(loc) => loc,
            None => { vstd::pervasive::unreached() },
        };
        proof {
            assert(w0.loc_ok(entity.id as int));
            assert(w0.archetypes.arch(loc.archetype as int).wf());
            assert(w0.archetypes.arch(loc.archetype as int).entity_at(loc.index as int) == entity);
            assert forall|id: int|
                0 <= id < w0.locations@.len() && w0.locations@[id] is Some implies
                #[trigger] w0.loc_ok(id) by {}
        }
        let from_idx = loc.archetype;
        let from_row = loc.index;
        let taken = match self.archetypes.archetypes[from_idx].take_component(from_row, comp) {
            Some(v) => v,
            None => {
                return Err(crate::error::EcsError::ComponentNotFound(comp));
            },
        };
        // structural migration to the archetype without `comp`
        let to_idx = match self.archetypes.find_archetype_with_removed(from_idx, comp) {
            Some(t) => t,
            None => self.archetypes.create_archetype_with_removed(from_idx, comp),
        };
        let t = self.tick;
        proof {
            assert(sig_with_removed(
                w0.archetypes.arch(from_idx as int).sig(),
                comp,
                self.archetypes.arch(to_idx as int).sig(),
            ));
            assert(to_idx != from_idx) by {
                if to_idx == from_idx {
                    assert(!self.archetypes.arch(to_idx as int).sig().contains(comp));
                    assert(self.archetypes.arch(from_idx as int) == w0.archetypes.arch(
                        from_idx as int,
                    ));
                    assert(w0.archetypes.arch(from_idx as int).sig().contains(comp));
                }
            }
            if (to_idx as int) < w0.arch_count() {
                assert(self.archetypes.arch(to_idx as int) == w0.archetypes.arch(to_idx as int));
                assert(w0.archetypes.arch(to_idx as int).wf());
                assert(w0.archetypes.arch(to_idx as int).tick == t);
            } else {
                assert(self.archetypes.arch(to_idx as int).wf());
            }
        }
        let ghost w1m = *self;
        {
            let arch = &mut self.archetypes.archetypes[to_idx];
            arch.set_tick(t);
        }
        let ghost w2 = *self;
        proof {
            lemma_stamped_target_wf(w0, w1m, w2, to_idx);
            lemma_arch_len_bounded_strict(w2, to_idx as int, entity);
            vstd::std_specs::vec::axiom_spec_len(&self.locations);
        }
        let (vals, ticks) = self.archetypes.archetypes[from_idx].read_row(from_row);
        let from_types = crate::archetype::copy_words(&self.archetypes.archetypes[from_idx].types);
        let to_row = self.archetypes.archetypes[to_idx].len();
        proof {
            let fa = w2.archetypes.arch(from_idx as int);
            assert forall|j: int| 0 <= j < from_types@.len() implies (#[trigger] vals@[j])@
                == fa.value_of(from_row as int, from_types@[j]) && ticks@[j] == fa.tick_of(
                from_row as int,
                from_types@[j],
            ) by {
                assert(from_types@[j] == fa.sig()[j]);
            }
        }
        {
            let arch = &mut self.archetypes.archetypes[to_idx];
            arch.push_entity(entity);
            let ghost pushed = *arch;
            let mut i: usize = 0;
            while i < from_types.len()
                invariant
                    w2.wf(),
                    from_idx != to_idx,
                    0 <= (to_idx as int) < w2.arch_count(),
                    0 <= (from_idx as int) < w2.arch_count(),
                    from_types@ == w2.archetypes.arch(from_idx as int).sig(),
                    vals@.len() == from_types@.len(),
                    ticks@.len() == from_types@.len(),
                    forall|j: int|
                        0 <= j < from_types@.len() ==> (#[trigger] vals@[j])@
                            == w2.archetypes.arch(from_idx as int).value_of(
                            from_row as int,
                            from_types@[j],
                        ) && ticks@[j] == w2.archetypes.arch(from_idx as int).tick_of(
                            from_row as int,
                            from_types@[j],
                        ),
                    sig_with_removed(
                        w2.archetypes.arch(from_idx as int).sig(),
                        comp,
                        pushed.sig(),
                    ),
                    i <= from_types@.len(),
                    pushed.wf(),
                    to_row as int == pushed.len_spec() - 1,
                    arch.wf(),
                    arch.id == pushed.id,
                    arch.tick == pushed.tick,
                    arch.tick == w2.tick,
                    arch.sig() == pushed.sig(),
                    arch.len_spec() == pushed.len_spec(),
                    arch.entities@ == pushed.entities@,
                    forall|r2: int, c: u64|
                        0 <= r2 < pushed.len_spec() - 1 && pushed.has_comp(c) ==> arch.value_of(
                            r2,
                            c,
                        ) == pushed.value_of(r2, c) && arch.tick_of(r2, c) == pushed.tick_of(
                            r2,
                            c,
                        ),
                    forall|j: int|
                        0 <= j < i && from_types@[j] != comp ==> arch.value_of(
                            to_row as int,
                            (#[trigger] from_types@[j]),
                        ) == vals@[j]@ && arch.tick_of(to_row as int, from_types@[j])
                            == ticks@[j],
                decreases from_types@.len() - i,
            {
                let c = from_types[i];
                if c != comp {
                    proof {
                        assert(w2.archetypes.arch(from_idx as int).sig().contains(c)) by {
                            assert(from_types@[i as int] == c);
                        }
                        assert(pushed.sig().contains(c));
                    }
                    let v = crate::archetype::copy_words(&vals[i]);
                    let ghost pre = *arch;
                    arch.write_component_with_tick(to_row, c, v, ticks[i]);
                    proof {
                        assert forall|j: int|
                            0 <= j < i && from_types@[j] != comp implies arch.value_of(
                            to_row as int,
                            (#[trigger] from_types@[j]),
                        ) == vals@[j]@ && arch.tick_of(to_row as int, from_types@[j])
                            == ticks@[j] by {
                            if from_types@[j] != c {
                                assert(pre.value_of(to_row as int, from_types@[j]) == vals@[j]@);
                            } else {
                                assert(j == i as int) by {
                                    crate::archetype::lemma_sig_index(
                                        w2.archetypes.arch(from_idx as int).sig(),
                                        c,
                                        j,
                                    );
                                    crate::archetype::lemma_sig_index(
                                        w2.archetypes.arch(from_idx as int).sig(),
                                        c,
                                        i as int,
                                    );
                                }
                            }
                        }
                    }
                }
                i = i + 1;
            }
            proof {
                assert forall|c: u64|
                    w2.archetypes.arch(from_idx as int).sig().contains(c) && arch.sig().contains(
                        c,
                    ) implies arch.value_of(to_row as int, c) == w2.archetypes.arch(
                    from_idx as int,
                ).value_of(from_row as int, c) && arch.tick_of(to_row as int, c)
                    == w2.archetypes.arch(from_idx as int).tick_of(from_row as int, c) by {
                    let j = crate::archetype::sig_index(
                        w2.archetypes.arch(from_idx as int).sig(),
                        c,
                    );
                    assert(from_types@[j] == c);
                    assert(c != comp);
                }
            }
        }
        let ghost w3 = *self;
        let swapped = {
            let arch = &mut self.archetypes.archetypes[from_idx];
            arch.remove_entity(from_row)
        };
        proof {
            let nf = w0.archetypes.arch(from_idx as int).len_spec();
            assert(w3.archetypes.arch(from_idx as int) == w0.archetypes.arch(from_idx as int));
            assert(w0.row_owned(from_idx as int, nf - 1));
            assert(swapped == w0.archetypes.arch(from_idx as int).entity_at(nf - 1));
            assert((swapped.id as int) < w0.locations@.len());
            assert(self.locations@ == w0.locations@);
        }
        self.locations[eid] = Some(EntityLocation { archetype: to_idx, index: to_row });
        if swapped.id != entity.id {
            self.locations[swapped.id as usize] = Some(
                EntityLocation { archetype: from_idx, index: from_row },
            );
        }
        proof {
            lemma_migration(
                w0,
                w2,
                w3,
                *self,
                entity,
                comp,
                None,
                from_idx,
                from_row,
                to_idx,
                to_row,
                swapped,
            );
        }
        Ok(taken)
    }

    /// The payload of component `comp` on `entity`: `None` when the handle is
    /// stale or the entity does not carry that component. Reading never bumps
    /// change ticks.
    pub fn get(&self, entity: Entity, comp: u64) -> (r: Option<&Vec<u64>>)
        requires
            self.wf(),
        ensures
            match r {
                Some(v) => self.spec_has(entity, comp) && v@ == self.spec_value(entity, comp),
                None => !self.spec_has(entity, comp),
            },
    {
        if !self.is_alive(entity) {
            return None;
        }
        let loc = match self.locations[entity.id as usize] {
            Some(loc) => loc,
            None => { return None },
        };
        proof {
            assert(self.loc_ok(entity.id as int));
        }
        self.archetypes.archetypes[loc.archetype].get_component(loc.index, comp)
    }

    /// A mutable reference to component `comp` on `entity`; taking it records
    /// the current tick as the component's last write. `None` — with the
    /// world untouched — when the handle is stale or the component absent.
    pub fn get_mut(&mut self, entity: Entity, comp: u64) -> (r: Option<&mut Vec<u64>>)
        requires
            old(self).wf(),
        ensures
            match r {
                Some(v) => old(self).spec_has(entity, comp) && v@ == old(self).spec_value(
                    entity,
                    comp,
                ) && World::component_write_shape(
                    *old(self),
                    *final(self),
                    entity,
                    comp,
                    *final(v),
                ),
                None => !old(self).spec_has(entity, comp) && *final(self) == *old(self),
            },
    {
        if !self.is_alive(entity) {
            return None;
        }
        let loc = match self.locations[entity.id as usize] {
            Some(loc) => loc,
            None => { return None },
        };
        proof {
            assert(self.loc_ok(entity.id as int));
            assert(self.archetypes.arch(loc.archetype as int).wf());
        }
        let comp_present = match self.archetypes.archetypes[loc.archetype].find_column(comp) {
            Some(_) => true,
            None => false,
        };
        if !comp_present {
            return None;
        }
        proof {
            // rows of other live entities are other rows or other archetypes
            assert forall|e2: Entity|
                self.spec_alive(e2) && e2 != entity implies !(self.loc_of(e2).archetype
                    == loc.archetype && self.loc_of(e2).index == loc.index) by {
                if self.loc_of(e2).archetype == loc.archetype && self.loc_of(e2).index
                    == loc.index {
                    assert(self.loc_ok(e2.id as int));
                    assert(self.archetypes.arch(loc.archetype as int).entity_at(loc.index as int)
                        == e2);
                    assert(self.archetypes.arch(loc.archetype as int).entity_at(loc.index as int)
                        == entity);
                }
            }
            assert forall|e2: Entity| self.spec_alive(e2) implies self.loc_ok(e2.id as int) by {}
        }
        let arch = &mut self.archetypes.archetypes[loc.archetype];
        match arch.get_component_mut(loc.index, comp) {
            Some(v) => Some(v),
            None => { vstd::pervasive::unreached() },
        }
    }

    /// Like `get`, but reports why nothing came back: a stale handle or a
    /// missing component.
    pub fn try_get(&self, entity: Entity, comp: u64) -> (r: Result<&Vec<u64>, crate::error::EcsError>)
        requires
            self.wf(),
        ensures
            match r {
                Ok(v) => self.spec_has(entity, comp) && v@ == self.spec_value(entity, comp),
                Err(err) => !self.spec_has(entity, comp) && err == if !self.spec_alive(entity) {
                    crate::error::EcsError::EntityNotFound(entity)
                } else {
                    crate::error::EcsError::ComponentNotFound(comp)
                },
            },
    {
        if !self.is_alive(entity) {
            return Err(crate::error::EcsError::EntityNotFound(entity));
        }
        match self.get(entity, comp) {
            Some(v) => Ok(v),
            None => Err(crate::error::EcsError::ComponentNotFound(comp)),
        }
    }

    /// Like `get_mut`, but reports why nothing came back: a stale handle or a
    /// missing component. The world is untouched on failure.
    pub fn try_get_mut(&mut self, entity: Entity, comp: u64) -> (r: Result<
        &mut Vec<u64>,
        crate::error::EcsError,
    >)
        requires
            old(self).wf(),
        ensures
            match r {
                Ok(v) => old(self).spec_has(entity, comp) && v@ == old(self).spec_value(
                    entity,
                    comp,
                ) && World::component_write_shape(
                    *old(self),
                    *final(self),
                    entity,
                    comp,
                    *final(v),
                ),
                Err(err) => {
                    &&& !old(self).spec_has(entity, comp)
                    &&& *final(self) == *old(self)
                    &&& err == if !old(self).spec_alive(entity) {
                        crate::error::EcsError::EntityNotFound(entity)
                    } else {
                        crate::error::EcsError::ComponentNotFound(comp)
                    }
                },
            },
    {
        if !self.is_alive(entity) {
            return Err(crate::error::EcsError::EntityNotFound(entity));
        }
        match self.get_mut(entity, comp) {
            Some(v) => Ok(v),
            None => Err(crate::error::EcsError::ComponentNotFound(comp)),
        }
    }

    /// Diagnostic summary of a live entity: its archetype id and component
    /// types.
    pub fn entity_info(&self, entity: Entity) -> (r: Option<EntityInfo>)
        requires
            self.wf(),
        ensures
            match r {
                Some(info) => self.spec_alive(entity) && info.entity == entity && info.archetype_id
                    == self.loc_of(entity).archetype && info.component_types@ == self.sig_of(
                    entity,
                ),
                None => !self.spec_alive(entity),
            },
    {
        if !self.is_alive(entity) {
            return None;
        }
        let loc = match self.locations[entity.id as usize] {
            Some(loc) => loc,
            None => { return None },
        };
        proof {
            assert(self.loc_ok(entity.id as int));
        }
        let arch = &self.archetypes.archetypes[loc.archetype];
        let component_types = crate::archetype::copy_words(arch.types());
        Some(EntityInfo { entity, archetype_id: loc.archetype, component_types })
    }

    /// Low-level placement of a live entity: its generation, archetype index
    /// and row.
    pub fn entity_meta(&self, entity: Entity) -> (r: Option<EntityMeta>)
        requires
            self.wf(),
        ensures
            match r {
                Some(meta) => self.spec_alive(entity) && meta.generation == entity.generation
                    && meta.archetype == self.loc_of(entity).archetype && meta.index == self.loc_of(
                    entity,
                ).index,
                None => !self.spec_alive(entity),
            },
    {
        if !self.is_alive(entity) {
            return None;
        }
        let loc = match self.locations[entity.id as usize] {
            Some(loc) => loc,
            None => { return None },
        };
        Some(EntityMeta { generation: entity.generation, archetype: loc.archetype, index: loc.index })
    }

    /// Stores a world-global resource under `key`, replacing any prior value.
    pub fn insert_resource(&mut self, key: u64, value: Vec<u64>)
        requires
            old(self).wf(),
        ensures
            final(self).wf(),
            final(self).resources.spec_contains(key),
            final(self).resources.spec_value(key) == value@,
            forall|k: u64|
                k != key ==> (final(self).resources.spec_contains(k) <==> old(self).resources.spec_contains(k)),
            forall|k: u64|
                k != key && old(self).resources.spec_contains(k) ==> final(self).resources.spec_value(k) == old(self).resources.spec_value(k),
            final(self).entities == old(self).entities,
            final(self).locations == old(self).locations,
            final(self).archetypes == old(self).archetypes,
            final(self).commands == old(self).commands,
            final(self).tick == old(self).tick,
            forall|e: Entity| World::entity_unchanged(*old(self), *final(self), e),
    {
        self.resources.insert(key, value);
        proof {
            assert forall|id: int|
                0 <= id < self.locations@.len() && self.locations@[id] is Some implies
                #[trigger] self.loc_ok(id) by {
                assert(old(self).loc_ok(id));
            }
            assert forall|a: int, r2: int|
                0 <= a < self.archetypes.count() && 0 <= r2 < self.archetypes.arch(
                    a,
                ).len_spec() implies #[trigger] self.row_owned(a, r2) by {
                assert(old(self).row_owned(a, r2));
            }
        }
    }

    /// The resource stored under `key`.
    pub fn get_resource(&self, key: u64) -> (r: Option<&Vec<u64>>)
        requires
            self.wf(),
        ensures
            match r {
                Some(v) => self.resources.spec_contains(key) && v@ == self.resources.spec_value(
                    key,
                ),
                None => !self.resources.spec_contains(key),
            },
    {
        self.resources.get(key)
    }

    /// A mutable reference to the resource stored under `key`; the final
    /// registry differs from the old one only in that entry's payload.
    pub fn get_resource_mut(&mut self, key: u64) -> (r: Option<&mut Vec<u64>>)
        requires
            old(self).wf(),
        ensures
            match r {
                Some(v) => {
                    &&& old(self).resources.spec_contains(key)
                    &&& v@ == old(self).resources.spec_value(key)
                    &&& 0 <= old(self).resources.index_of(key) < old(self).resources.entries@.len()
                    &&& final(self).resources.entries@ == old(self).resources.entries@.update(
                        old(self).resources.index_of(key),
                        (crate::resource::ResourceEntry { key, value: *final(v) }),
                    )
                    &&& final(self).entities == old(self).entities
                    &&& final(self).locations == old(self).locations
                    &&& final(self).archetypes == old(self).archetypes
                    &&& final(self).commands == old(self).commands
                    &&& final(self).tick == old(self).tick
                },
                None => !old(self).resources.spec_contains(key) && *final(self) == *old(self),
            },
    {
        self.resources.get_mut(key)
    }

    /// Removes and returns the resource stored under `key`.
    pub fn remove_resource(&mut self, key: u64) -> (r: Option<Vec<u64>>)
        requires
            old(self).wf(),
        ensures
            final(self).wf(),
            !final(self).resources.spec_contains(key),
            match r {
                Some(v) => old(self).resources.spec_contains(key) && v@ == old(self).resources.spec_value(key),
                None => !old(self).resources.spec_contains(key) && *final(self) == *old(self),
            },
            forall|k: u64|
                k != key ==> (final(self).resources.spec_contains(k) <==> old(self).resources.spec_contains(k)),
            forall|k: u64|
                k != key && old(self).resources.spec_contains(k) ==> final(self).resources.spec_value(k) == old(self).resources.spec_value(k),
            final(self).entities == old(self).entities,
            final(self).locations == old(self).locations,
            final(self).archetypes == old(self).archetypes,
            final(self).commands == old(self).commands,
            final(self).tick == old(self).tick,
            forall|e: Entity| World::entity_unchanged(*old(self), *final(self), e),
    {
        let r = self.resources.remove(key);
        proof {
            assert forall|id: int|
                0 <= id < self.locations@.len() && self.locations@[id] is Some implies
                #[trigger] self.loc_ok(id) by {
                assert(old(self).loc_ok(id));
            }
            assert forall|a: int, r2: int|
                0 <= a < self.archetypes.count() && 0 <= r2 < self.archetypes.arch(
                    a,
                ).len_spec() implies #[trigger] self.row_owned(a, r2) by {
                assert(old(self).row_owned(a, r2));
            }
        }
        r
    }

    /// Collects, in deterministic order — archetype insertion order, then row
    /// order — every row the query matches, with the fetched payload for each
    /// term. The world itself is left exactly as it was: in particular, a
    /// query never bumps any change tick.
    pub fn query(&mut self, q: &Query) -> (rows: Vec<QueryRow>)
        requires
            old(self).wf(),
        ensures
            *final(self) == *old(self),
            forall|k: int|
                0 <= k < rows@.len() ==> {
                    let qr = #[trigger] rows@[k];
                    &&& crate::query::match_at(
                        old(self).archetypes,
                        *q,
                        qr.archetype as int,
                        qr.row as int,
                    )
                    &&& qr.entity == old(self).archetypes.arch(qr.archetype as int).entity_at(
                        qr.row as int,
                    )
                    &&& qr.items@.len() == q.terms@.len()
                    &&& forall|i: int|
                        0 <= i < q.terms@.len() ==> crate::query::item_ok(
                            q.terms@[i],
                            old(self).archetypes.arch(qr.archetype as int),
                            qr.row as int,
                            #[trigger] qr.items@[i],
                        )
                },
            forall|k1: int, k2: int|
                0 <= k1 < k2 < rows@.len() ==> crate::query::pos_lt(
                    (#[trigger] rows@[k1]).archetype as int,
                    rows@[k1].row as int,
                    (#[trigger] rows@[k2]).archetype as int,
                    rows@[k2].row as int,
                ),
            forall|b: int, r2: int|
                crate::query::match_at(old(self).archetypes, *q, b, r2) ==> exists|k: int|
                    0 <= k < rows@.len() && (#[trigger] rows@[k]).archetype as int == b
                        && rows@[k].row as int == r2,
    {
        let ghost w0 = *old(self);
        let mut rows: Vec<QueryRow> = Vec::new();
        let mut it = QueryIter::new();
        loop
            invariant
                w0 == *self,
                self.wf(),
                forall|k: int|
                    0 <= k < rows@.len() ==> {
                        let qr = #[trigger] rows@[k];
                        &&& crate::query::match_at(
                            self.archetypes,
                            *q,
                            qr.archetype as int,
                            qr.row as int,
                        )
                        &&& qr.entity == self.archetypes.arch(qr.archetype as int).entity_at(
                            qr.row as int,
                        )
                        &&& qr.items@.len() == q.terms@.len()
                        &&& forall|i: int|
                            0 <= i < q.terms@.len() ==> crate::query::item_ok(
                                q.terms@[i],
                                self.archetypes.arch(qr.archetype as int),
                                qr.row as int,
                                #[trigger] qr.items@[i],
                            )
                    },
                forall|k1: int, k2: int|
                    0 <= k1 < k2 < rows@.len() ==> crate::query::pos_lt(
                        (#[trigger] rows@[k1]).archetype as int,
                        rows@[k1].row as int,
                        (#[trigger] rows@[k2]).archetype as int,
                        rows@[k2].row as int,
                    ),
                forall|k: int|
                    0 <= k < rows@.len() ==> crate::query::pos_lt(
                        (#[trigger] rows@[k]).archetype as int,
                        rows@[k].row as int,
                        it.archetype_index as int,
                        it.row_index as int,
                    ),
                forall|b: int, r2: int|
                    crate::query::pos_lt(b, r2, it.archetype_index as int, it.row_index as int)
                        && crate::query::match_at(self.archetypes, *q, b, r2) ==> exists|k: int|
                        0 <= k < rows@.len() && (#[trigger] rows@[k]).archetype as int == b
                            && rows@[k].row as int == r2,
            decreases self.archetypes.count() - it.archetype_index, usize::MAX - it.row_index,
        {
            let ghost it0 = it;
            let next = it.next(&self.archetypes, q);
            match next {
                Some((a, row)) => {
                    proof {
                        assert(crate::query::match_at(self.archetypes, *q, a as int, row as int));
                        assert(self.archetypes.arch(a as int).wf());
                        vstd::std_specs::vec::axiom_spec_len(
                            &self.archetypes.arch(a as int).entities,
                        );
                    }
                    let arch = &self.archetypes.archetypes[a];
                    let entity = arch.entities[row];
                    let mut items: Vec<Option<Vec<u64>>> = Vec::new();
                    let mut i: usize = 0;
                    while i < q.terms.len()
                        invariant
                            arch.wf(),
                            row < arch.len_spec(),
                            q.spec_matches_sig(arch.sig()),
                            i <= q.terms@.len(),
                            items@.len() == i,
                            forall|j: int|
                                0 <= j < i ==> crate::query::item_ok(
                                    q.terms@[j],
                                    *arch,
                                    row as int,
                                    #[trigger] items@[j],
                                ),
                        decreases q.terms@.len() - i,
                    {
                        proof {
                            assert(crate::query::term_matches_sig(q.terms@[i as int], arch.sig()));
                        }
                        let item = crate::query::fetch_item(arch, row, &q.terms[i]);
                        items.push(item);
                        i = i + 1;
                    }
                    let ghost rows0 = rows@;
                    rows.push(QueryRow { entity, archetype: a, row, items });
                    proof {
                        assert forall|b: int, r2: int|
                            crate::query::pos_lt(
                                b,
                                r2,
                                it.archetype_index as int,
                                it.row_index as int,
                            ) && crate::query::match_at(self.archetypes, *q, b, r2) implies exists|
                            k: int,
                        |
                            0 <= k < rows@.len() && (#[trigger] rows@[k]).archetype as int == b
                                && rows@[k].row as int == r2 by {
                            if crate::query::pos_lt(b, r2, a as int, row as int) {
                                let k = choose|k: int|
                                    0 <= k < rows0.len() && (#[trigger] rows0[k]).archetype as int
                                        == b && rows0[k].row as int == r2;
                                assert(rows@[k].archetype as int == b && rows@[k].row as int == r2);
                            } else {
                                assert(b == a as int && r2 == row as int);
                                assert(rows@[rows@.len() - 1].archetype as int == b
                                    && rows@[rows@.len() - 1].row as int == r2);
                            }
                        }
                        assert forall|k: int| 0 <= k < rows@.len() implies crate::query::pos_lt(
                            (#[trigger] rows@[k]).archetype as int,
                            rows@[k].row as int,
                            it.archetype_index as int,
                            it.row_index as int,
                        ) by {
                            if k < rows@.len() - 1 {
                                assert(rows@[k] == rows0[k]);
                                assert(crate::query::pos_lt(
                                    rows0[k].archetype as int,
                                    rows0[k].row as int,
                                    it0.archetype_index as int,
                                    it0.row_index as int,
                                ));
                                assert(!crate::query::pos_lt(
                                    a as int,
                                    row as int,
                                    it0.archetype_index as int,
                                    it0.row_index as int,
                                ));
                            }
                        }
                        assert forall|k1: int, k2: int|
                            0 <= k1 < k2 < rows@.len() implies crate::query::pos_lt(
                            (#[trigger] rows@[k1]).archetype as int,
                            rows@[k1].row as int,
                            (#[trigger] rows@[k2]).archetype as int,
                            rows@[k2].row as int,
                        ) by {
                            if k2 < rows@.len() - 1 {
                                assert(rows@[k1] == rows0[k1] && rows@[k2] == rows0[k2]);
                            } else {
                                assert(rows@[k1] == rows0[k1]);
                                assert(crate::query::pos_lt(
                                    rows0[k1].archetype as int,
                                    rows0[k1].row as int,
                                    it0.archetype_index as int,
                                    it0.row_index as int,
                                ));
                                assert(!crate::query::pos_lt(
                                    a as int,
                                    row as int,
                                    it0.archetype_index as int,
                                    it0.row_index as int,
                                ));
                            }
                        }
                    }
                },
                None => {
                    return rows;
                },
            }
        }
    }

    /// A handle on the deferred-command queue, for recording structural
    /// mutations to be applied by `flush_commands`.
    pub fn commands(&mut self) -> (r: &mut Commands)
        ensures
            *r == old(self).commands,
            final(self).commands == *final(r),
            final(self).entities == old(self).entities,
            final(self).locations == old(self).locations,
            final(self).archetypes == old(self).archetypes,
            final(self).resources == old(self).resources,
            final(self).tick == old(self).tick,
    {
        &mut self.commands
    }

    /// Applies every queued command in order — spawns, despawns, inserts and
    /// removes — then leaves the queue empty. Commands that name a dead
    /// entity, and malformed or unplaceable spawns, are silently skipped: the
    /// final world is related to the old one by one `command_step` per queued
    /// command, in queue order.
    pub fn flush_commands(&mut self)
        requires
            old(self).wf(),
        ensures
            final(self).wf(),
            final(self).commands.queue@.len() == 0,
            final(self).tick == old(self).tick,
            final(self).resources == old(self).resources,
            exists|ws: Seq<World>|
                #[trigger] World::trace_applies(ws, old(self).commands.queue@)
                    && World::world_obs_eq(ws[0], *old(self)) && World::world_obs_eq(
                    ws[ws.len() - 1],
                    *final(self),
                ),
    {
        let mut taken = Commands::new();
        core::mem::swap(&mut taken, &mut self.commands);
        proof {
            assert forall|id: int|
                0 <= id < self.locations@.len() && self.locations@[id] is Some implies
                #[trigger] self.loc_ok(id) by {
                assert(old(self).loc_ok(id));
            }
            assert forall|a: int, r2: int|
                0 <= a < self.archetypes.count() && 0 <= r2 < self.archetypes.arch(
                    a,
                ).len_spec() implies #[trigger] self.row_owned(a, r2) by {
                assert(old(self).row_owned(a, r2));
            }
        }
        let ghost w0 = *old(self);
        let ghost t0 = self.tick;
        let mut i: usize = 0;
        let n = taken.queue.len();
        let ghost mut ws: Seq<World> = seq![*self];
        proof {
            assert(taken.queue@ == w0.commands.queue@);
            assert(World::world_obs_eq(ws[0], w0));
        }
        while i < n
            invariant
                self.wf(),
                self.tick == t0,
                self.resources == old(self).resources,
                n == taken.queue@.len(),
                i <= n,
                self.commands.queue@.len() == 0,
                taken.queue@ == w0.commands.queue@,
                ws.len() == i + 1,
                World::world_obs_eq(ws[0], w0),
                ws[ws.len() - 1] == *self,
                forall|j: int|
                    0 <= j < i ==> #[trigger] World::command_step(ws[j], taken.queue@[j], ws[j + 1]),
            decreases n - i,
        {
            let ghost pre = *self;
            let cmd = &taken.queue[i];
            match cmd {
                Command::Spawn(b) => {
                    if b.check_distinct() && self.locations.len() < (u32::MAX - 1) as usize {
                        proof {
                            vstd::std_specs::vec::axiom_spec_len(&self.locations);
                        }
                        let bundle = Bundle { entries: copy_entries(&b.entries) };
                        let e = self.spawn(bundle);
                        proof {
                            lemma_bundle_views_agree(bundle, *b);
                            assert(World::spawn_effect(pre, *self, e, *b)) by {
                                assert forall|c: u64| #[trigger] self.sig_of(e).contains(c)
                                    <==> b.spec_has(c) by {
                                    assert(self.sig_of(e).contains(c) <==> bundle.spec_has(c));
                                }
                                assert forall|c: u64| #[trigger] b.spec_has(c) implies
                                    self.spec_value(e, c) == b.spec_value(c) && self.spec_tick(
                                    e,
                                    c,
                                ) == pre.tick by {
                                    assert(bundle.spec_has(c));
                                    assert(self.spec_value(e, c) == bundle.spec_value(c));
                                }
                            }
                            assert(World::command_step(pre, taken.queue@[i as int], *self));
                        }
                    } else {
                        proof {
                            assert(!(b.wf() && pre.slot_count() < u32::MAX - 1));
                            assert(World::command_step(pre, taken.queue@[i as int], *self));
                        }
                    }
                },
                Command::Despawn(e) => {
                    let _ = self.despawn(*e);
                    proof {
                        assert(World::command_step(pre, taken.queue@[i as int], *self));
                    }
                },
                Command::Insert(e, c, v) => {
                    let _ = self.insert(*e, *c, crate::archetype::copy_words(v));
                    proof {
                        assert(World::command_step(pre, taken.queue@[i as int], *self));
                    }
                },
                Command::Remove(e, c) => {
                    let _ = self.remove(*e, *c);
                    proof {
                        assert(World::command_step(pre, taken.queue@[i as int], *self));
                    }
                },
            }
            proof {
                ws = ws.push(*self);
                assert(ws[i as int] == pre);
                assert(ws[i + 1] == *self);
                assert forall|j: int| 0 <= j < i + 1 implies #[trigger] World::command_step(
                    ws[j],
                    taken.queue@[j],
                    ws[j + 1],
                ) by {
                    if j < i {
                        assert(ws[j] == ws.drop_last()[j] && ws[j + 1] == ws.drop_last()[j + 1]);
                        assert(World::command_step(
                            ws.drop_last()[j],
                            taken.queue@[j],
                            ws.drop_last()[j + 1],
                        ));
                    }
                }
            }
            i = i + 1;
        }
        proof {
            assert(World::trace_applies(ws, taken.queue@));
            assert(World::world_obs_eq(ws[ws.len() - 1], *self));
        }
    }

    /// How many entity id slots have been minted; `spawn` needs this to stay
    /// below the id-space limit, so callers can check before spawning.
    pub fn entity_slots(&self) -> (r: usize)
        requires
            self.wf(),
        ensures
            r as int == self.slot_count(),
    {
        self.locations.len()
    }

    /// The current world tick.
    pub fn current_tick(&self) -> (r: u64)
        ensures
            r == self.tick,
    {
        self.tick
    }

    /// Pre-allocates room for `additional` more entity slots; nothing
    /// observable changes.
    pub fn reserve(&mut self, additional: usize)
        requires
            old(self).wf(),
        ensures
            final(self).wf(),
            final(self).entities == old(self).entities,
            final(self).locations@ == old(self).locations@,
            final(self).archetypes == old(self).archetypes,
            final(self).resources == old(self).resources,
            final(self).commands == old(self).commands,
            final(self).tick == old(self).tick,
            forall|e: Entity| World::entity_unchanged(*old(self), *final(self), e),
    {
        self.locations.reserve(additional);
        proof {
            lemma_world_wf_congruence(*old(self), *self);
        }
    }
}

/// In a well-formed world every column of an archetype is exactly as long as
/// its entity vector: every row has one slot in every column.
pub proof fn lemma_archetype_lengths(w: World, a: int, ci: int)
    requires
        w.wf(),
        0 <= a < w.arch_count(),
        0 <= ci < w.archetypes.arch(a).columns@.len(),
    ensures
        w.archetypes.arch(a).columns@[ci].len_spec() == w.arch_len(a),
        w.archetypes.arch(a).columns@.len() == w.archetypes.arch(a).sig().len(),
{
    assert(w.archetypes.arch(a).wf());
}

/// In a well-formed world every slot of every archetype row is reachable as a
/// live entity's component: the row's recorded owner is alive and its
/// location points back at exactly this row.
pub proof fn lemma_every_row_reachable(w: World, a: int, r: int)
    requires
        w.wf(),
        0 <= a < w.arch_count(),
        0 <= r < w.arch_len(a),
    ensures
        w.spec_alive(w.archetypes.arch(a).entity_at(r)),
        w.loc_of(w.archetypes.arch(a).entity_at(r)) == (EntityLocation {
            archetype: a as usize,
            index: r as usize,
        }),
        forall|c: u64|
            w.archetypes.arch(a).sig().contains(c) ==> #[trigger] w.spec_value(
                w.archetypes.arch(a).entity_at(r),
                c,
            ) == w.archetypes.arch(a).value_of(r, c),
{
    assert(w.row_owned(a, r));
    let e = w.archetypes.arch(a).entity_at(r);
    assert(w.locations@[e.id as int] == Some(
        EntityLocation { archetype: a as usize, index: r as usize },
    ));
}

/// Once an id's stored generation has moved past a handle's generation — it
/// is bumped on every despawn — that handle and every other handle minted
/// under a prior generation of the id stay dead for good.
pub proof fn lemma_stale_handle_dead(w: World, e: Entity)
    requires
        w.wf(),
        0 <= e.id < w.slot_count(),
        e.generation != w.entities.gen_of(e.id as int),
    ensures
        !w.spec_alive(e),
{
}

/// In a well-formed world no recorded change tick lies in the future, so
/// after the world tick advances, every new write records a strictly greater
/// tick than anything recorded before the advance.
pub proof fn lemma_recorded_ticks_bounded(w: World, e: Entity, c: u64)
    requires
        w.wf(),
        w.spec_has(e, c),
    ensures
        w.spec_tick(e, c) <= w.tick,
{
    assert(w.loc_ok(e.id as int));
    let a = w.loc_of(e).archetype as int;
    let r = w.loc_of(e).index as int;
    let arch = w.archetypes.arch(a);
    assert(arch.wf());
    let ci = crate::archetype::sig_index(arch.sig(), c);
    assert(0 <= ci < arch.sig().len() && arch.sig()[ci] == c) by {
        assert(arch.sig().contains(c));
    }
    assert(arch.columns@[ci].tick_at(r) <= w.tick);
}

/// The round-trip law: inserting a component an entity did not carry and then
/// removing it hands the inserted payload back bit-for-bit, restores the
/// entity's component set, leaves every other component's payload and change
/// tick untouched, and changes no other entity. The hypotheses are exactly
/// what the contracts of `insert` and `remove` ensure on their success paths.
pub proof fn lemma_insert_remove_roundtrip(
    w0: World,
    w1: World,
    w2: World,
    e: Entity,
    comp: u64,
    v: Seq<u64>,
    out: Seq<u64>,
)
    requires
        w0.spec_alive(e),
        !w0.sig_of(e).contains(comp),
        // granted by `insert`'s success contract
        w1.spec_alive(e),
        forall|c: u64|
            #[trigger] w1.sig_of(e).contains(c) <==> (w0.sig_of(e).contains(c) || c == comp),
        w1.spec_value(e, comp) == v,
        forall|c: u64|
            w0.sig_of(e).contains(c) && c != comp ==> #[trigger] w1.spec_value(e, c)
                == w0.spec_value(e, c) && w1.spec_tick(e, c) == w0.spec_tick(e, c),
        World::others_unchanged(w0, w1, e),
        // granted by `remove`'s success contract
        out == w1.spec_value(e, comp),
        w2.spec_alive(e),
        forall|c: u64|
            #[trigger] w2.sig_of(e).contains(c) <==> (w1.sig_of(e).contains(c) && c != comp),
        forall|c: u64|
            w1.sig_of(e).contains(c) && c != comp ==> #[trigger] w2.spec_value(e, c)
                == w1.spec_value(e, c) && w2.spec_tick(e, c) == w1.spec_tick(e, c),
        World::others_unchanged(w1, w2, e),
    ensures
        out == v,
        forall|c: u64| #[trigger] w2.sig_of(e).contains(c) <==> w0.sig_of(e).contains(c),
        forall|c: u64|
            w0.sig_of(e).contains(c) ==> #[trigger] w2.spec_value(e, c) == w0.spec_value(e, c)
                && w2.spec_tick(e, c) == w0.spec_tick(e, c),
        World::others_unchanged(w0, w2, e),
{
    assert forall|c: u64| #[trigger] w2.sig_of(e).contains(c) <==> w0.sig_of(e).contains(c) by {
        if w0.sig_of(e).contains(c) {
            assert(c != comp);
            assert(w1.sig_of(e).contains(c));
        }
    }
    assert forall|c: u64| w0.sig_of(e).contains(c) implies #[trigger] w2.spec_value(e, c)
        == w0.spec_value(e, c) && w2.spec_tick(e, c) == w0.spec_tick(e, c) by {
        assert(c != comp);
        assert(w1.sig_of(e).contains(c));
    }
    assert forall|e2: Entity| e2 != e implies #[trigger] World::entity_unchanged(w0, w2, e2) by {
        assert(World::entity_unchanged(w0, w1, e2));
        assert(World::entity_unchanged(w1, w2, e2));
        if w0.spec_alive(e2) {
            assert forall|c: u64| w0.sig_of(e2).contains(c) implies w2.spec_value(e2, c)
                == w0.spec_value(e2, c) && w2.spec_tick(e2, c) == w0.spec_tick(e2, c) by {
                assert(w1.sig_of(e2).contains(c));
            }
        }
    }
}

/// The spawn/despawn law: spawning an entity and then despawning it leaves
/// every archetype that existed before the spawn exactly as long as it was.
/// The hypotheses are what `spawn` ensures and what `despawn` ensures on its
/// success path.
pub proof fn lemma_spawn_despawn_len(w0: World, w1: World, w2: World, e: Entity)
    requires
        // granted by `spawn`'s contract
        w1.spec_alive(e),
        w1.arch_count() >= w0.arch_count(),
        0 <= w1.loc_of(e).archetype < w1.arch_count(),
        (w1.loc_of(e).archetype as int) < w0.arch_count() ==> w1.arch_len(
            w1.loc_of(e).archetype as int,
        ) == w0.arch_len(w1.loc_of(e).archetype as int) + 1,
        forall|b: int|
            0 <= b < w0.arch_count() && b != w1.loc_of(e).archetype as int ==> #[trigger] w1.arch_len(
                b,
            ) == w0.arch_len(b),
        // granted by `despawn`'s success contract
        w2.arch_count() == w1.arch_count(),
        w2.arch_len(w1.loc_of(e).archetype as int) == w1.arch_len(w1.loc_of(e).archetype as int)
            - 1,
        forall|b: int|
            0 <= b < w1.arch_count() && b != w1.loc_of(e).archetype as int ==> #[trigger] w2.arch_len(
                b,
            ) == w1.arch_len(b),
    ensures
        forall|b: int|
            0 <= b < w0.arch_count() ==> #[trigger] w2.arch_len(b) == w0.arch_len(b),
{
}

/// Each archetype holds at most one row per live entity id, so no archetype
/// outgrows the entity table.
pub proof fn lemma_arch_len_bounded(w: World, a: int)
    requires
        w.wf(),
        0 <= a < w.arch_count(),
    ensures
        w.arch_len(a) <= w.slot_count(),
{
    let arch = w.archetypes.arch(a);
    vstd::std_specs::vec::axiom_spec_len(&arch.entities);
    assert(arch.len_spec() <= usize::MAX);
    let ids = Seq::new(arch.len_spec() as nat, |r: int| arch.entity_at(r).id as int);
    assert forall|r1: int, r2: int|
        0 <= r1 < ids.len() && 0 <= r2 < ids.len() && r1 != r2 implies ids[r1] != ids[r2] by {
        assert(w.row_owned(a, r1));
        assert(w.row_owned(a, r2));
        assert(ids[r1] == arch.entity_at(r1).id as int);
        assert(ids[r2] == arch.entity_at(r2).id as int);
        if arch.entity_at(r1).id == arch.entity_at(r2).id {
            assert(w.locations@[arch.entity_at(r1).id as int] == Some(
                EntityLocation { archetype: a as usize, index: r1 as usize },
            ));
            assert(w.locations@[arch.entity_at(r2).id as int] == Some(
                EntityLocation { archetype: a as usize, index: r2 as usize },
            ));
            assert(r1 as usize == r2 as usize);
            assert(false);
        }
    }
    assert(ids.no_duplicates());
    assert forall|r: int| 0 <= r < ids.len() implies 0 <= #[trigger] ids[r] < w.slot_count() by {
        assert(w.row_owned(a, r));
    }
    ids.unique_seq_to_set();
    assert(ids.to_set().subset_of(set_int_range(0, w.slot_count()))) by {
        assert forall|x: int| ids.to_set().contains(x) implies set_int_range(
            0,
            w.slot_count(),
        ).contains(x) by {
            assert(ids.contains(x));
            let r = choose|r: int| 0 <= r < ids.len() && ids[r] == x;
        }
    }
    lemma_int_range(0, w.slot_count());
    lemma_len_subset(ids.to_set(), set_int_range(0, w.slot_count()));
}

/// After one component slot of a live entity is rewritten, the world is
/// well-formed again, the written entity shows the new payload stamped with
/// the old tick, and every other entity — and every other component of the
/// written entity — is untouched.
pub proof fn lemma_component_write(w0: World, w1: World, e: Entity, comp: u64, v: Vec<u64>)
    requires
        w0.wf(),
        w0.spec_has(e, comp),
        World::component_write_shape(w0, w1, e, comp, v),
    ensures
        w1.wf(),
        forall|e2: Entity| #[trigger] w1.spec_alive(e2) <==> w0.spec_alive(e2),
        forall|e2: Entity|
            w0.spec_alive(e2) ==> #[trigger] w1.sig_of(e2) == w0.sig_of(e2) && w1.loc_of(e2)
                == w0.loc_of(e2),
        w1.spec_value(e, comp) == v@,
        w1.spec_tick(e, comp) == w0.tick,
        forall|e2: Entity, c2: u64|
            w0.spec_has(e2, c2) && !(e2 == e && c2 == comp) ==> #[trigger] w1.spec_value(e2, c2)
                == w0.spec_value(e2, c2) && w1.spec_tick(e2, c2) == w0.spec_tick(e2, c2),
        forall|b: int| 0 <= b < w0.arch_count() ==> #[trigger] w1.arch_len(b) == w0.arch_len(b),
{
    let a0 = w0.loc_of(e).archetype as int;
    let row = w0.loc_of(e).index as int;
    let ci = crate::archetype::sig_index(w0.sig_of(e), comp);
    let oa = w0.archetypes.arch(a0);
    let na = w1.archetypes.arch(a0);
    assert(w0.loc_ok(e.id as int));
    assert(oa.wf());
    assert(0 <= ci < oa.sig().len() && oa.sig()[ci] == comp) by {
        assert(oa.sig().contains(comp));
    }
    assert(na.wf()) by {
        assert forall|cj: int| 0 <= cj < na.columns@.len() implies (#[trigger] na.columns@[cj]).wf()
            && na.columns@[cj].len_spec() == na.entities@.len() by {
            assert(oa.columns@[cj].wf() && oa.columns@[cj].len_spec() == oa.entities@.len());
            if cj != ci {
                assert(na.columns@[cj] == oa.columns@[cj]);
            }
        }
    }
    assert forall|b: int| 0 <= b < w1.arch_count() implies (#[trigger] w1.archetypes.arch(b)).wf()
        && w1.archetypes.arch(b).id == b && w1.archetypes.arch(b).tick == w1.tick by {
        assert(w0.archetypes.arch(b).wf());
        if b != a0 {
            assert(w1.archetypes.arch(b) == w0.archetypes.arch(b));
        }
    }
    assert forall|b: int, c2: int| 0 <= b < c2 < w1.arch_count() implies w1.archetypes.arch(
        b,
    ).sig() != w1.archetypes.arch(c2).sig() by {
        assert(w0.archetypes.arch(b).sig() != w0.archetypes.arch(c2).sig());
        assert(w1.archetypes.arch(b).sig() == w0.archetypes.arch(b).sig());
        assert(w1.archetypes.arch(c2).sig() == w0.archetypes.arch(c2).sig());
    }
    assert forall|k: int| 0 <= k < w1.archetypes.edges@.len() implies w1.archetypes.edge_ok(
        #[trigger] w1.archetypes.edges@[k],
    ) by {
        assert(w0.archetypes.edge_ok(w0.archetypes.edges@[k]));
        let ed = w1.archetypes.edges@[k];
        assert(w1.archetypes.arch(ed.from as int).sig() == w0.archetypes.arch(ed.from as int).sig());
        assert(w1.archetypes.arch(ed.to as int).sig() == w0.archetypes.arch(ed.to as int).sig());
    }
    assert forall|id: int|
        0 <= id < w1.locations@.len() && w1.locations@[id] is Some implies #[trigger] w1.loc_ok(
        id,
    ) by {
        assert(w0.loc_ok(id));
        let loc = w0.locations@[id].unwrap();
        assert(w1.archetypes.arch(loc.archetype as int).entities@ == w0.archetypes.arch(
            loc.archetype as int,
        ).entities@);
    }
    assert forall|b: int, r: int|
        0 <= b < w1.archetypes.count() && 0 <= r < w1.archetypes.arch(b).len_spec() implies
        #[trigger] w1.row_owned(b, r) by {
        assert(w1.archetypes.arch(b).entities@ == w0.archetypes.arch(b).entities@);
        assert(w0.row_owned(b, r));
    }
    assert forall|b: int, cj: int, r: int|
        0 <= b < w1.archetypes.count() && 0 <= cj < w1.archetypes.arch(b).columns@.len() && 0 <= r
            < w1.archetypes.arch(b).len_spec() implies #[trigger] w1.archetypes.arch(
        b,
    ).columns@[cj].tick_at(r) <= w1.tick by {
        assert(w0.archetypes.arch(b).columns@[cj].tick_at(r) <= w0.tick);
        if b == a0 && cj == ci {
            assert(na.columns@[ci].tick_at(r) == if r == row {
                w0.tick
            } else {
                oa.columns@[ci].tick_at(r)
            });
        } else if b == a0 {
            assert(na.columns@[cj] == oa.columns@[cj]);
        } else {
            assert(w1.archetypes.arch(b) == w0.archetypes.arch(b));
        }
    }
    assert(w1.wf());
    assert forall|e2: Entity| w0.spec_alive(e2) implies #[trigger] w1.sig_of(e2) == w0.sig_of(e2)
        && w1.loc_of(e2) == w0.loc_of(e2) by {
        assert(w0.loc_ok(e2.id as int));
        let b = w0.loc_of(e2).archetype as int;
        if b != a0 {
            assert(w1.archetypes.arch(b) == w0.archetypes.arch(b));
        }
    }
    assert(w1.spec_value(e, comp) == v@) by {
        assert(na.col_of(comp) == na.columns@[ci]) by {
            crate::archetype::lemma_sig_index(oa.sig(), comp, ci);
        }
    }
    assert(w1.spec_tick(e, comp) == w0.tick) by {
        crate::archetype::lemma_sig_index(oa.sig(), comp, ci);
    }
    assert forall|e2: Entity, c2: u64|
        w0.spec_has(e2, c2) && !(e2 == e && c2 == comp) implies #[trigger] w1.spec_value(e2, c2)
        == w0.spec_value(e2, c2) && w1.spec_tick(e2, c2) == w0.spec_tick(e2, c2) by {
        assert(w0.loc_ok(e2.id as int));
        let loc2 = w0.loc_of(e2);
        let b = loc2.archetype as int;
        let r2 = loc2.index as int;
        let cj = crate::archetype::sig_index(w0.sig_of(e2), c2);
        assert(0 <= cj < w0.sig_of(e2).len() && w0.sig_of(e2)[cj] == c2) by {
            assert(w0.sig_of(e2).contains(c2));
        }
        if b != a0 {
            assert(w1.archetypes.arch(b) == w0.archetypes.arch(b));
        } else {
            if e2 != e {
                // two live entities cannot share a row
                assert(r2 != row) by {
                    if r2 == row {
                        assert(w0.archetypes.arch(a0).entity_at(row) == (Entity {
                            id: e2.id,
                            generation: w0.entities.gen_of(e2.id as int),
                        }));
                        assert(w0.archetypes.arch(a0).entity_at(row) == (Entity {
                            id: e.id,
                            generation: w0.entities.gen_of(e.id as int),
                        }));
                        assert(e2 == e);
                    }
                }
                if cj == ci {
                    assert(c2 == comp) by {
                        assert(w0.sig_of(e2) == oa.sig());
                    }
                    assert(na.columns@[ci].value_at(r2) == oa.columns@[ci].value_at(r2));
                    assert(na.columns@[ci].tick_at(r2) == oa.columns@[ci].tick_at(r2));
                } else {
                    assert(na.columns@[cj] == oa.columns@[cj]);
                }
            } else {
                // same entity, different component: a different column
                assert(cj != ci) by {
                    if cj == ci {
                        assert(w0.sig_of(e2)[cj] == comp);
                    }
                }
                assert(na.columns@[cj] == oa.columns@[cj]);
            }
        }
    }
}

/// When one live entity's row lies outside archetype `a`, that archetype has
/// strictly fewer rows than there are entity slots: room for one more row.
pub proof fn lemma_arch_len_bounded_strict(w: World, a: int, e: Entity)
    requires
        w.wf(),
        0 <= a < w.arch_count(),
        w.spec_alive(e),
        w.loc_of(e).archetype as int != a,
    ensures
        w.arch_len(a) < w.slot_count(),
{
    let arch = w.archetypes.arch(a);
    vstd::std_specs::vec::axiom_spec_len(&arch.entities);
    assert(arch.len_spec() <= usize::MAX);
    let ids = Seq::new(arch.len_spec() as nat, |r: int| arch.entity_at(r).id as int);
    assert forall|r1: int, r2: int|
        0 <= r1 < ids.len() && 0 <= r2 < ids.len() && r1 != r2 implies ids[r1] != ids[r2] by {
        assert(w.row_owned(a, r1));
        assert(w.row_owned(a, r2));
        assert(ids[r1] == arch.entity_at(r1).id as int);
        assert(ids[r2] == arch.entity_at(r2).id as int);
        if arch.entity_at(r1).id == arch.entity_at(r2).id {
            assert(w.locations@[arch.entity_at(r1).id as int] == Some(
                EntityLocation { archetype: a as usize, index: r1 as usize },
            ));
            assert(w.locations@[arch.entity_at(r2).id as int] == Some(
                EntityLocation { archetype: a as usize, index: r2 as usize },
            ));
            assert(r1 as usize == r2 as usize);
            assert(false);
        }
    }
    assert(ids.no_duplicates());
    assert forall|r: int| 0 <= r < ids.len() implies 0 <= #[trigger] ids[r] < w.slot_count() by {
        assert(w.row_owned(a, r));
    }
    // the excluded entity's id is not among the rows of `a`
    assert(!ids.contains(e.id as int)) by {
        if ids.contains(e.id as int) {
            let r = choose|r: int| 0 <= r < ids.len() && ids[r] == e.id as int;
            assert(w.row_owned(a, r));
            assert(w.locations@[e.id as int] == Some(
                EntityLocation { archetype: a as usize, index: r as usize },
            ));
            assert(w.loc_of(e).archetype as int == a);
        }
    }
    ids.unique_seq_to_set();
    let with_e = ids.to_set().insert(e.id as int);
    assert(with_e.len() == ids.to_set().len() + 1);
    assert(with_e.subset_of(set_int_range(0, w.slot_count()))) by {
        assert forall|x: int| with_e.contains(x) implies set_int_range(
            0,
            w.slot_count(),
        ).contains(x) by {
            if x != e.id as int {
                assert(ids.contains(x));
                let r = choose|r: int| 0 <= r < ids.len() && ids[r] == x;
            }
        }
    }
    lemma_int_range(0, w.slot_count());
    lemma_len_subset(with_e, set_int_range(0, w.slot_count()));
}

/// A world stays well-formed after the target archetype of a migration has
/// been resolved — possibly freshly created — and stamped with the current
/// tick: `wm` is the resolved state, `w2` the stamped one.
pub proof fn lemma_stamped_target_wf(w0: World, wm: World, w2: World, to_a: usize)
    requires
        w0.wf(),
        wm.entities == w0.entities,
        wm.locations == w0.locations,
        wm.resources == w0.resources,
        wm.commands == w0.commands,
        wm.tick == w0.tick,
        wm.archetypes.wf(),
        wm.arch_count() >= w0.arch_count(),
        wm.arch_count() == w0.arch_count() || (wm.arch_count() == w0.arch_count() + 1 && to_a as int
            == w0.arch_count()),
        forall|b: int| 0 <= b < w0.arch_count() ==> #[trigger] wm.archetypes.arch(b) == w0.archetypes.arch(b),
        0 <= (to_a as int) < wm.arch_count(),
        (to_a as int) >= w0.arch_count() ==> wm.arch_count() == w0.arch_count() + 1
            && wm.archetypes.arch(to_a as int).len_spec() == 0,
        w2.entities == wm.entities,
        w2.locations == wm.locations,
        w2.resources == wm.resources,
        w2.commands == wm.commands,
        w2.tick == wm.tick,
        w2.archetypes.edges@ == wm.archetypes.edges@,
        w2.archetypes.archetypes@ == wm.archetypes.archetypes@.update(
            to_a as int,
            (Archetype { tick: wm.tick, ..wm.archetypes.arch(to_a as int) }),
        ),
    ensures
        w2.wf(),
        forall|b: int|
            0 <= b < w0.arch_count() && b != to_a as int ==> #[trigger] w2.archetypes.arch(b)
                == w0.archetypes.arch(b),
        (to_a as int) < w0.arch_count() ==> w2.archetypes.arch(to_a as int) == w0.archetypes.arch(
            to_a as int,
        ),
        (to_a as int) >= w0.arch_count() ==> w2.archetypes.arch(to_a as int).len_spec() == 0,
        w2.arch_count() == wm.arch_count(),
        w2.archetypes.arch(to_a as int).sig() == wm.archetypes.arch(to_a as int).sig(),
        forall|e: Entity| World::entity_unchanged(w0, w2, e),
{
    let ta = to_a as int;
    assert forall|b: int| 0 <= b < w2.arch_count() && b != ta implies #[trigger] w2.archetypes.arch(
        b,
    ) == wm.archetypes.arch(b) by {}
    if ta < w0.arch_count() {
        assert(wm.archetypes.arch(ta) == w0.archetypes.arch(ta));
        assert(w0.archetypes.arch(ta).tick == w0.tick);
        assert(w2.archetypes.arch(ta) == w0.archetypes.arch(ta));
    }
    assert(w2.archetypes.wf()) by {
        assert forall|b: int| 0 <= b < w2.arch_count() implies (#[trigger] w2.archetypes.arch(
            b,
        )).wf() && w2.archetypes.arch(b).id == b by {
            assert(wm.archetypes.arch(b).wf() && wm.archetypes.arch(b).id == b);
            if b == ta {
                assert(w2.archetypes.arch(b) == (Archetype {
                    tick: wm.tick,
                    ..wm.archetypes.arch(b)
                }));
            }
        }
        assert forall|b: int, c2: int| 0 <= b < c2 < w2.arch_count() implies w2.archetypes.arch(
            b,
        ).sig() != w2.archetypes.arch(c2).sig() by {
            assert(wm.archetypes.arch(b).sig() != wm.archetypes.arch(c2).sig());
            assert(w2.archetypes.arch(b).sig() == wm.archetypes.arch(b).sig());
            assert(w2.archetypes.arch(c2).sig() == wm.archetypes.arch(c2).sig());
        }
        assert forall|k: int| 0 <= k < w2.archetypes.edges@.len() implies w2.archetypes.edge_ok(
            #[trigger] w2.archetypes.edges@[k],
        ) by {
            assert(wm.archetypes.edge_ok(wm.archetypes.edges@[k]));
            let ed = w2.archetypes.edges@[k];
            assert(w2.archetypes.arch(ed.from as int).sig() == wm.archetypes.arch(
                ed.from as int,
            ).sig());
            assert(w2.archetypes.arch(ed.to as int).sig() == wm.archetypes.arch(ed.to as int).sig());
        }
    }
    assert forall|id: int|
        0 <= id < w2.locations@.len() && w2.locations@[id] is Some implies #[trigger] w2.loc_ok(
        id,
    ) by {
        assert(w0.loc_ok(id));
        let l2 = w0.locations@[id].unwrap();
        assert(l2.archetype as int != ta || w2.archetypes.arch(l2.archetype as int).entities@
            == w0.archetypes.arch(l2.archetype as int).entities@);
    }
    assert forall|b: int, r: int|
        0 <= b < w2.archetypes.count() && 0 <= r < w2.archetypes.arch(b).len_spec() implies
        #[trigger] w2.row_owned(b, r) by {
        if b == ta && ta >= w0.arch_count() {
            assert(w2.archetypes.arch(b).len_spec() == 0);
        } else {
            assert(b < w0.arch_count());
            assert(w2.archetypes.arch(b).entities@ == w0.archetypes.arch(b).entities@);
            assert(w0.row_owned(b, r));
        }
    }
    assert forall|b: int, ci: int, r: int|
        0 <= b < w2.archetypes.count() && 0 <= ci < w2.archetypes.arch(b).columns@.len() && 0 <= r
            < w2.archetypes.arch(b).len_spec() implies #[trigger] w2.archetypes.arch(
        b,
    ).columns@[ci].tick_at(r) <= w2.tick by {
        if !(b == ta && ta >= w0.arch_count()) {
            assert(b < w0.arch_count());
            assert(w2.archetypes.arch(b).columns@ == w0.archetypes.arch(b).columns@);
            assert(w0.archetypes.arch(b).columns@[ci].tick_at(r) <= w0.tick);
        }
    }
    assert(w2.wf());
    assert forall|e: Entity| World::entity_unchanged(w0, w2, e) by {
        if w0.spec_alive(e) {
            assert(w0.loc_ok(e.id as int));
            let b = w0.loc_of(e).archetype as int;
            assert(b != ta || ta < w0.arch_count());
            assert(w2.archetypes.arch(b) == w0.archetypes.arch(b));
        }
    }
}

/// Correctness of one full row migration. Starting from a well-formed world
/// `w0`, `w2` has the target archetype resolved and stamped; `w3` additionally
/// holds the migrated row appended to the target — overlapping components
/// copied with their change ticks, plus, on an insert, the added component
/// stamped with the current tick; `w4` finally has the source row swap-removed
/// and the locations of the moved entity — and of the entity swapped into the
/// vacated source row — updated. The result is well-formed, the entity shows
/// exactly the new signature with old payloads and ticks preserved, and no
/// other entity changes observably.
#[verifier::rlimit(100)]
#[verifier::spinoff_prover]
pub proof fn lemma_migration(
    w0: World,
    w2: World,
    w3: World,
    w4: World,
    e: Entity,
    comp: u64,
    added: Option<Vec<u64>>,
    a_from: usize,
    r_from: usize,
    a_to: usize,
    r_to: usize,
    swapped: Entity,
)
    requires
        w0.wf(),
        w2.wf(),
        w0.spec_alive(e),
        w0.loc_of(e) == (EntityLocation { archetype: a_from, index: r_from }),
        a_from != a_to,
        0 <= (a_from as int) < w0.arch_count(),
        0 <= (a_to as int) < w2.arch_count(),
        // the resolved-and-stamped state w2
        w2.entities == w0.entities,
        w2.locations@ == w0.locations@,
        w2.resources == w0.resources,
        w2.commands == w0.commands,
        w2.tick == w0.tick,
        w2.arch_count() >= w0.arch_count(),
        forall|b: int|
            0 <= b < w0.arch_count() ==> #[trigger] w2.archetypes.arch(b) == w0.archetypes.arch(b),
        w2.arch_count() == w0.arch_count() || (w2.arch_count() == w0.arch_count() + 1 && a_to as int
            == w0.arch_count()),
        (a_to as int) >= w0.arch_count() ==> w2.archetypes.arch(a_to as int).len_spec() == 0,
        // the signature relation between source and target
        match added {
            Some(v) => sig_with_added(
                w2.archetypes.arch(a_from as int).sig(),
                comp,
                w2.archetypes.arch(a_to as int).sig(),
            ) && !w2.archetypes.arch(a_from as int).sig().contains(comp),
            None => sig_with_removed(
                w2.archetypes.arch(a_from as int).sig(),
                comp,
                w2.archetypes.arch(a_to as int).sig(),
            ) && w2.archetypes.arch(a_from as int).sig().contains(comp),
        },
        // w3: the row appended to the target
        w3.entities == w2.entities,
        w3.locations@ == w2.locations@,
        w3.resources == w2.resources,
        w3.commands == w2.commands,
        w3.tick == w2.tick,
        w3.arch_count() == w2.arch_count(),
        w3.archetypes.edges@ == w2.archetypes.edges@,
        forall|b: int|
            0 <= b < w2.arch_count() && b != a_to as int ==> #[trigger] w3.archetypes.arch(b)
                == w2.archetypes.arch(b),
        w3.archetypes.arch(a_to as int).wf(),
        w3.archetypes.arch(a_to as int).sig() == w2.archetypes.arch(a_to as int).sig(),
        w3.archetypes.arch(a_to as int).id == w2.archetypes.arch(a_to as int).id,
        w3.archetypes.arch(a_to as int).tick == w2.archetypes.arch(a_to as int).tick,
        w3.archetypes.arch(a_to as int).len_spec() == w2.archetypes.arch(a_to as int).len_spec()
            + 1,
        r_to as int == w2.archetypes.arch(a_to as int).len_spec(),
        w3.archetypes.arch(a_to as int).entity_at(r_to as int) == e,
        forall|r2: int|
            0 <= r2 < r_to as int ==> #[trigger] w3.archetypes.arch(a_to as int).entity_at(r2)
                == w2.archetypes.arch(a_to as int).entity_at(r2),
        forall|r2: int, c: u64|
            0 <= r2 < r_to as int && w2.archetypes.arch(a_to as int).has_comp(c)
                ==> #[trigger] w3.archetypes.arch(a_to as int).value_of(r2, c)
                == w2.archetypes.arch(a_to as int).value_of(r2, c) && w3.archetypes.arch(
                a_to as int,
            ).tick_of(r2, c) == w2.archetypes.arch(a_to as int).tick_of(r2, c),
        forall|c: u64|
            w2.archetypes.arch(a_from as int).sig().contains(c) && w3.archetypes.arch(
                a_to as int,
            ).sig().contains(c) ==> #[trigger] w3.archetypes.arch(a_to as int).value_of(
                r_to as int,
                c,
            ) == w2.archetypes.arch(a_from as int).value_of(r_from as int, c)
                && w3.archetypes.arch(a_to as int).tick_of(r_to as int, c) == w2.archetypes.arch(
                a_from as int,
            ).tick_of(r_from as int, c),
        match added {
            Some(v) => w3.archetypes.arch(a_to as int).value_of(r_to as int, comp) == v@
                && w3.archetypes.arch(a_to as int).tick_of(r_to as int, comp) == w2.tick,
            None => true,
        },
        // w4: the source row swap-removed and the locations updated
        (r_from as int) < w3.archetypes.arch(a_from as int).len_spec(),
        w4.entities == w3.entities,
        w4.resources == w3.resources,
        w4.commands == w3.commands,
        w4.tick == w3.tick,
        w4.arch_count() == w3.arch_count(),
        w4.archetypes.edges@ == w3.archetypes.edges@,
        forall|b: int|
            0 <= b < w3.arch_count() && b != a_from as int ==> #[trigger] w4.archetypes.arch(b)
                == w3.archetypes.arch(b),
        w4.archetypes.arch(a_from as int).wf(),
        w4.archetypes.arch(a_from as int).sig() == w3.archetypes.arch(a_from as int).sig(),
        w4.archetypes.arch(a_from as int).id == w3.archetypes.arch(a_from as int).id,
        w4.archetypes.arch(a_from as int).tick == w3.archetypes.arch(a_from as int).tick,
        w4.archetypes.arch(a_from as int).len_spec() == w3.archetypes.arch(
            a_from as int,
        ).len_spec() - 1,
        swapped == w3.archetypes.arch(a_from as int).entity_at(
            w3.archetypes.arch(a_from as int).len_spec() - 1,
        ),
        forall|r2: int|
            0 <= r2 < w4.archetypes.arch(a_from as int).len_spec() && r2 != r_from as int
                ==> #[trigger] w4.archetypes.arch(a_from as int).entity_at(r2)
                == w3.archetypes.arch(a_from as int).entity_at(r2),
        (r_from as int) < w4.archetypes.arch(a_from as int).len_spec() ==> w4.archetypes.arch(
            a_from as int,
        ).entity_at(r_from as int) == swapped,
        forall|r2: int, c: u64|
            0 <= r2 < w4.archetypes.arch(a_from as int).len_spec() && r2 != r_from as int
                && w3.archetypes.arch(a_from as int).has_comp(c) ==> #[trigger] w4.archetypes.arch(
                a_from as int,
            ).value_of(r2, c) == w3.archetypes.arch(a_from as int).value_of(r2, c)
                && w4.archetypes.arch(a_from as int).tick_of(r2, c) == w3.archetypes.arch(
                a_from as int,
            ).tick_of(r2, c),
        forall|c: u64|
            (r_from as int) < w4.archetypes.arch(a_from as int).len_spec() && w3.archetypes.arch(
                a_from as int,
            ).has_comp(c) ==> #[trigger] w4.archetypes.arch(a_from as int).tick_of(
                r_from as int,
                c,
            ) == w3.archetypes.arch(a_from as int).tick_of(
                w3.archetypes.arch(a_from as int).len_spec() - 1,
                c,
            ) && w4.archetypes.arch(a_from as int).value_of(r_from as int, c)
                == w3.archetypes.arch(a_from as int).value_of(
                w3.archetypes.arch(a_from as int).len_spec() - 1,
                c,
            ),
        w4.locations@.len() == w3.locations@.len(),
        w4.locations@[e.id as int] == Some(EntityLocation { archetype: a_to, index: r_to }),
        swapped.id != e.id ==> w4.locations@[swapped.id as int] == Some(
            EntityLocation { archetype: a_from, index: r_from },
        ),
        forall|id: int|
            0 <= id < w4.locations@.len() && id != e.id as int && id != swapped.id as int
                ==> #[trigger] w4.locations@[id] == w3.locations@[id],
    ensures
        w4.wf(),
        w4.tick == w0.tick,
        w4.resources == w0.resources,
        w4.commands == w0.commands,
        w4.spec_alive(e),
        w4.loc_of(e) == (EntityLocation { archetype: a_to, index: r_to }),
        w4.sig_of(e) == w2.archetypes.arch(a_to as int).sig(),
        forall|c: u64|
            #[trigger] w4.sig_of(e).contains(c) <==> (match added {
                Some(v) => w0.sig_of(e).contains(c) || c == comp,
                None => w0.sig_of(e).contains(c) && c != comp,
            }),
        match added {
            Some(v) => w4.spec_value(e, comp) == v@ && w4.spec_tick(e, comp) == w0.tick,
            None => true,
        },
        forall|c: u64|
            w0.sig_of(e).contains(c) && c != comp ==> #[trigger] w4.spec_value(e, c)
                == w0.spec_value(e, c) && w4.spec_tick(e, c) == w0.spec_tick(e, c),
        World::others_unchanged(w0, w4, e),
        w4.arch_count() == w0.arch_count() || (w4.arch_count() == w0.arch_count() + 1 && a_to as int
            == w0.arch_count()),
        w4.arch_len(a_from as int) == w0.arch_len(a_from as int) - 1,
        w4.arch_len(a_to as int) == if (a_to as int) < w0.arch_count() {
            w0.arch_len(a_to as int) + 1
        } else {
            1int
        },
        r_to as int == w4.arch_len(a_to as int) - 1,
        forall|b: int|
            0 <= b < w0.arch_count() && b != a_from as int && b != a_to as int
                ==> #[trigger] w4.arch_len(b) == w0.arch_len(b),
{
    let af = a_from as int;
    let at = a_to as int;
    let rf = r_from as int;
    let rt = r_to as int;
    let eid = e.id as int;
    let sid = swapped.id as int;
    let fa0 = w0.archetypes.arch(af);
    let fa = w2.archetypes.arch(af);
    let ta2 = w2.archetypes.arch(at);
    let ta = w3.archetypes.arch(at);
    let fa4 = w4.archetypes.arch(af);
    let nf = fa.len_spec();
    assert(fa == fa0);
    assert(w0.loc_ok(eid));
    assert(fa0.entity_at(rf) == e);
    assert(w0.row_owned(af, nf - 1));
    assert(swapped == fa0.entity_at(nf - 1));
    assert(w0.locations@[sid] == Some(
        EntityLocation { archetype: a_from, index: (nf - 1) as usize },
    ));
    vstd::std_specs::vec::axiom_spec_len(&fa0.entities);
    assert(nf <= usize::MAX);
    if swapped == e {
        assert(rf == nf - 1) by {
            assert(w0.locations@[eid] == Some(EntityLocation { archetype: a_from, index: r_from }));
        }
    } else {
        assert(sid != eid) by {
            if sid == eid {
                assert(rf == nf - 1);
                assert(fa0.entity_at(rf) == e);
            }
        }
        assert(rf < nf - 1) by {
            if rf == nf - 1 {
                assert(fa0.entity_at(rf) == e);
            }
        }
    }
    // every location entry in w4 points at a real, correctly-owned row
    assert forall|id: int|
        0 <= id < w4.locations@.len() && w4.locations@[id] is Some implies #[trigger] w4.loc_ok(
        id,
    ) by {
        if id == eid {
            assert(ta.entity_at(rt) == e);
            assert(w4.archetypes.arch(at) == ta);
            assert(w4.entities.gen_of(eid) == e.generation);
        } else if id == sid && swapped != e {
            assert(w4.archetypes.arch(af).entity_at(rf) == swapped);
            assert(w4.entities.gen_of(sid) == swapped.generation);
        } else {
            assert(w4.locations@[id] == w0.locations@[id]);
            assert(w0.loc_ok(id));
            let l2 = w0.locations@[id].unwrap();
            if l2.archetype as int == af {
                assert(l2.index as int != rf) by {
                    if l2.index as int == rf {
                        assert(fa0.entity_at(rf).id == id);
                        assert(fa0.entity_at(rf) == e);
                    }
                }
                assert(l2.index as int != nf - 1) by {
                    if l2.index as int == nf - 1 {
                        assert(fa0.entity_at(nf - 1).id == id);
                        assert(id == sid);
                        if swapped == e {
                            assert(id == eid);
                        }
                    }
                }
                assert((l2.index as int) < nf - 1);
                assert(w3.archetypes.arch(af) == fa0);
                assert(fa4.entity_at(l2.index as int) == fa0.entity_at(l2.index as int));
            } else if l2.archetype as int == at {
                assert(ta.entity_at(l2.index as int) == ta2.entity_at(l2.index as int));
                assert(w4.archetypes.arch(at) == ta);
                assert((at as int) < w0.arch_count());
                assert(ta2 == w0.archetypes.arch(at));
            } else {
                assert(w4.archetypes.arch(l2.archetype as int) == w0.archetypes.arch(
                    l2.archetype as int,
                ));
            }
        }
    }
    // every row in w4 is owned by the id its location points back to
    assert forall|b: int, r2: int|
        0 <= b < w4.archetypes.count() && 0 <= r2 < w4.archetypes.arch(b).len_spec() implies
        #[trigger] w4.row_owned(b, r2) by {
        if b == at && r2 == rt {
            assert(w4.archetypes.arch(at).entity_at(rt) == e);
            assert(w4.entities.gen_of(eid) == e.generation);
        } else if b == af && r2 == rf && (rf < fa4.len_spec()) {
            assert(fa4.entity_at(rf) == swapped);
            assert(swapped != e) by {
                if swapped == e {
                    assert(rf == nf - 1);
                    assert(fa4.len_spec() == nf - 1);
                }
            }
            assert(w4.locations@[sid] == Some(
                EntityLocation { archetype: a_from, index: r_from },
            ));
            assert(w4.entities.gen_of(sid) == swapped.generation);
        } else {
            // an untouched row of some archetype
            let e2 = w4.archetypes.arch(b).entity_at(r2);
            if b == af {
                assert(r2 != rf);
                assert(r2 < nf - 1);
                assert(e2 == fa0.entity_at(r2));
                assert(w0.row_owned(af, r2));
            } else if b == at {
                assert(r2 < rt);
                assert(e2 == ta2.entity_at(r2));
                assert((at as int) < w0.arch_count()) by {
                    if at as int >= w0.arch_count() {
                        assert(ta2.len_spec() == 0);
                    }
                }
                assert(ta2 == w0.archetypes.arch(at));
                assert(w0.row_owned(at, r2));
            } else {
                assert(b < w0.arch_count());
                assert(w4.archetypes.arch(b) == w0.archetypes.arch(b));
                assert(w0.row_owned(b, r2));
            }
            assert(w0.locations@[e2.id as int] == Some(
                EntityLocation { archetype: b as usize, index: r2 as usize },
            ));
            assert(e2.id as int != eid) by {
                if e2.id as int == eid {
                    assert(b == af && r2 == rf);
                }
            }
            assert(e2.id as int != sid || swapped == e) by {
                if e2.id as int == sid && swapped != e {
                    assert(b == af && r2 == nf - 1);
                    assert(r2 < fa4.len_spec());
                }
            }
            assert(w4.locations@[e2.id as int] == w0.locations@[e2.id as int]);
            assert(w4.entities.gen_of(e2.id as int) == w0.entities.gen_of(e2.id as int));
        }
    }
    // the archetype store stays well-formed
    assert(w4.archetypes.wf()) by {
        assert forall|b: int| 0 <= b < w4.arch_count() implies (#[trigger] w4.archetypes.arch(
            b,
        )).wf() && w4.archetypes.arch(b).id == b by {
            assert(w2.archetypes.arch(b).wf() && w2.archetypes.arch(b).id == b);
            if b != af && b != at {
                assert(w4.archetypes.arch(b) == w2.archetypes.arch(b));
            }
        }
        assert forall|b: int, c2: int| 0 <= b < c2 < w4.arch_count() implies w4.archetypes.arch(
            b,
        ).sig() != w4.archetypes.arch(c2).sig() by {
            assert(w2.archetypes.arch(b).sig() != w2.archetypes.arch(c2).sig());
            assert(w4.archetypes.arch(b).sig() == w2.archetypes.arch(b).sig());
            assert(w4.archetypes.arch(c2).sig() == w2.archetypes.arch(c2).sig());
        }
        assert forall|k: int| 0 <= k < w4.archetypes.edges@.len() implies w4.archetypes.edge_ok(
            #[trigger] w4.archetypes.edges@[k],
        ) by {
            assert(w2.archetypes.edge_ok(w2.archetypes.edges@[k]));
            let ed = w4.archetypes.edges@[k];
            assert(w4.archetypes.arch(ed.from as int).sig() == w2.archetypes.arch(
                ed.from as int,
            ).sig());
            assert(w4.archetypes.arch(ed.to as int).sig() == w2.archetypes.arch(ed.to as int).sig());
        }
    }
    // locations exist exactly for occupied ids
    assert forall|id: int|
        0 <= id < w4.locations@.len() implies ((#[trigger] w4.locations@[id]) is Some
            <==> w4.entities.occupied(id)) by {
        if id != eid && id != sid {
            assert(w4.locations@[id] == w0.locations@[id]);
            assert(w0.locations@[id] is Some <==> w0.entities.occupied(id));
        } else {
            assert(w0.locations@[id] is Some);
            assert(w0.entities.occupied(id));
        }
    }
    // archetype ticks and recorded change ticks
    assert forall|b: int|
        0 <= b < w4.archetypes.count() implies (#[trigger] w4.archetypes.arch(b)).tick
        == w4.tick by {
        assert(w2.archetypes.arch(b).tick == w2.tick);
    }
    assert forall|b: int, ci: int, r2: int|
        0 <= b < w4.archetypes.count() && 0 <= ci < w4.archetypes.arch(b).columns@.len() && 0 <= r2
            < w4.archetypes.arch(b).len_spec() implies #[trigger] w4.archetypes.arch(
        b,
    ).columns@[ci].tick_at(r2) <= w4.tick by {
        if b == af {
            let c = fa.sig()[ci];
            crate::archetype::lemma_sig_index(fa.sig(), c, ci);
            assert(fa.has_comp(c));
            assert(w3.archetypes.arch(af) == fa);
            if r2 == rf && rf < fa4.len_spec() {
                assert(fa4.tick_of(rf, c) == fa.tick_of(nf - 1, c));
                assert(w0.archetypes.arch(af).columns@[ci].tick_at(nf - 1) <= w0.tick);
                assert(fa.tick_of(nf - 1, c) == fa.columns@[ci].tick_at(nf - 1));
                assert(fa4.columns@[ci].tick_at(r2) == fa4.tick_of(r2, c));
            } else {
                assert(fa4.value_of(r2, c) == fa4.value_of(r2, c));
                assert(fa4.tick_of(r2, c) == fa.tick_of(r2, c));
                assert(w0.archetypes.arch(af).columns@[ci].tick_at(r2) <= w0.tick);
                assert(fa.tick_of(r2, c) == fa.columns@[ci].tick_at(r2));
                assert(fa4.columns@[ci].tick_at(r2) == fa4.tick_of(r2, c));
            }
        } else if b == at {
            let c = ta.sig()[ci];
            crate::archetype::lemma_sig_index(ta.sig(), c, ci);
            assert(ta.has_comp(c));
            assert(w4.archetypes.arch(at) == ta);
            assert(ta.columns@[ci].tick_at(r2) == ta.tick_of(r2, c));
            if r2 == rt {
                if c == comp && added is Some {
                    assert(ta.tick_of(rt, c) == w2.tick);
                } else {
                    assert(fa.sig().contains(c)) by {
                        assert(ta.sig().contains(c));
                    }
                    assert(ta.value_of(rt, c) == ta.value_of(rt, c));
                    assert(ta.tick_of(rt, c) == fa.tick_of(rf, c));
                    let cj = crate::archetype::sig_index(fa.sig(), c);
                    crate::archetype::lemma_sig_index(fa.sig(), c, cj);
                    assert(fa.tick_of(rf, c) == fa.columns@[cj].tick_at(rf));
                    assert(w0.archetypes.arch(af).columns@[cj].tick_at(rf) <= w0.tick);
                }
            } else {
                assert(ta.value_of(r2, c) == ta.value_of(r2, c));
                assert(ta.tick_of(r2, c) == ta2.tick_of(r2, c));
                assert((at as int) < w0.arch_count()) by {
                    if at as int >= w0.arch_count() {
                        assert(ta2.len_spec() == 0);
                    }
                }
                let cj = crate::archetype::sig_index(ta2.sig(), c);
                crate::archetype::lemma_sig_index(ta2.sig(), c, cj);
                assert(ta2.tick_of(r2, c) == ta2.columns@[cj].tick_at(r2));
                assert(w0.archetypes.arch(at).columns@[cj].tick_at(r2) <= w0.tick);
            }
        } else {
            assert(w4.archetypes.arch(b) == w2.archetypes.arch(b));
            assert(w2.archetypes.arch(b).columns@[ci].tick_at(r2) <= w2.tick);
        }
    }
    assert(w4.wf());
    // the migrated entity
    assert(w4.spec_alive(e));
    assert(w4.loc_of(e) == (EntityLocation { archetype: a_to, index: r_to }));
    assert(w4.sig_of(e) == ta.sig());
    assert(w0.sig_of(e) == fa.sig());
    assert forall|c: u64|
        w0.sig_of(e).contains(c) && c != comp implies #[trigger] w4.spec_value(e, c)
        == w0.spec_value(e, c) && w4.spec_tick(e, c) == w0.spec_tick(e, c) by {
        assert(ta.sig().contains(c)) by {
            match added {
                Some(v) => assert(fa.sig().contains(c)),
                None => assert(fa.sig().contains(c) && c != comp),
            }
        }
        assert(w3.archetypes.arch(a_to as int).value_of(r_to as int, c)
            == w3.archetypes.arch(a_to as int).value_of(r_to as int, c));
        assert(fa.sig().contains(c) && ta.sig().contains(c));
        assert(ta.value_of(rt, c) == fa.value_of(rf, c) && ta.tick_of(rt, c) == fa.tick_of(rf, c));
    }
    // no other entity changes observably
    assert forall|e2: Entity| e2 != e implies #[trigger] World::entity_unchanged(w0, w4, e2) by {
        if e2.id as int == eid {
            assert(!w0.spec_alive(e2)) by {
                if w0.spec_alive(e2) {
                    assert(w0.entities.gen_of(eid) == e2.generation);
                    assert(w0.entities.gen_of(eid) == e.generation);
                }
            }
            assert(!w4.spec_alive(e2));
        } else {
            assert(w4.entities == w0.entities);
            assert(w4.spec_alive(e2) <==> w0.spec_alive(e2)) by {
                if e2.id as int == sid && swapped != e {
                    assert(w4.locations@[sid] is Some && w0.locations@[sid] is Some);
                } else {
                    if 0 <= (e2.id as int) < w4.locations@.len() {
                        assert(w4.locations@[e2.id as int] == w0.locations@[e2.id as int]);
                    }
                }
            }
            if w0.spec_alive(e2) {
                assert(w0.loc_ok(e2.id as int));
                let l2 = w0.loc_of(e2);
                if e2.id as int == sid && swapped != e && e2 == swapped {
                    assert(l2 == (EntityLocation { archetype: a_from, index: (nf - 1) as usize }));
                    assert(w4.loc_of(e2) == (EntityLocation {
                        archetype: a_from,
                        index: r_from,
                    }));
                    assert(w4.sig_of(e2) == fa.sig());
                    assert(w0.sig_of(e2) == fa.sig());
                    assert forall|c: u64| w0.sig_of(e2).contains(c) implies w4.spec_value(e2, c)
                        == w0.spec_value(e2, c) && w4.spec_tick(e2, c) == w0.spec_tick(e2, c) by {
                        assert(rf < fa4.len_spec());
                        assert(fa4.tick_of(rf, c) == fa.tick_of(nf - 1, c));
                        assert(fa4.value_of(rf, c) == fa.value_of(nf - 1, c));
                    }
                } else if e2.id as int == sid && swapped != e {
                    assert(e2.generation == w0.entities.gen_of(sid));
                    assert(swapped.generation == w0.entities.gen_of(sid));
                    assert(e2 == swapped);
                } else {
                    assert(w4.locations@[e2.id as int] == w0.locations@[e2.id as int]);
                    assert(w4.loc_of(e2) == l2);
                    if l2.archetype as int == af {
                        assert(l2.index as int != rf) by {
                            if l2.index as int == rf {
                                assert(fa0.entity_at(rf).id == e2.id);
                            }
                        }
                        assert(l2.index as int != nf - 1) by {
                            if l2.index as int == nf - 1 {
                                assert(fa0.entity_at(nf - 1).id == e2.id);
                                assert(e2.id as int == sid);
                                if swapped == e {
                                    assert(e2.id as int == eid);
                                }
                            }
                        }
                        assert((l2.index as int) < nf - 1);
                        assert(w3.archetypes.arch(af) == fa);
                        assert(w4.sig_of(e2) == w0.sig_of(e2));
                        assert forall|c: u64| w0.sig_of(e2).contains(c) implies w4.spec_value(
                            e2,
                            c,
                        ) == w0.spec_value(e2, c) && w4.spec_tick(e2, c) == w0.spec_tick(
                            e2,
                            c,
                        ) by {
                            assert(fa4.value_of(l2.index as int, c) == fa.value_of(
                                l2.index as int,
                                c,
                            ));
                            assert(fa4.tick_of(l2.index as int, c) == fa.tick_of(
                                l2.index as int,
                                c,
                            ));
                        }
                    } else if l2.archetype as int == at {
                        assert((at as int) < w0.arch_count()) by {
                            if at as int >= w0.arch_count() {
                                assert(ta2.len_spec() == 0);
                            }
                        }
                        assert(ta2 == w0.archetypes.arch(at));
                        assert((l2.index as int) < rt);
                        assert(w4.archetypes.arch(at) == ta);
                        assert(w4.sig_of(e2) == w0.sig_of(e2));
                        assert forall|c: u64| w0.sig_of(e2).contains(c) implies w4.spec_value(
                            e2,
                            c,
                        ) == w0.spec_value(e2, c) && w4.spec_tick(e2, c) == w0.spec_tick(
                            e2,
                            c,
                        ) by {
                            assert(ta.value_of(l2.index as int, c) == ta2.value_of(
                                l2.index as int,
                                c,
                            ));
                            assert(ta.tick_of(l2.index as int, c) == ta2.tick_of(
                                l2.index as int,
                                c,
                            ));
                        }
                    } else {
                        assert(w4.archetypes.arch(l2.archetype as int) == w0.archetypes.arch(
                            l2.archetype as int,
                        ));
                        assert(w4.sig_of(e2) == w0.sig_of(e2));
                    }
                }
            }
        }
    }
}

/// Two worlds with equal parts are equally well-formed, even when the
/// location vector is a different allocation holding the same entries.
pub proof fn lemma_world_wf_congruence(w0: World, w1: World)
    requires
        w0.wf(),
        w1.entities == w0.entities,
        w1.locations@ == w0.locations@,
        w1.archetypes == w0.archetypes,
        w1.resources == w0.resources,
        w1.commands == w0.commands,
        w1.tick == w0.tick,
    ensures
        w1.wf(),
{
    assert forall|id: int|
        0 <= id < w1.locations@.len() && w1.locations@[id] is Some implies #[trigger] w1.loc_ok(
        id,
    ) by {
        assert(w0.loc_ok(id));
    }
    assert forall|a: int, r: int|
        0 <= a < w1.archetypes.count() && 0 <= r < w1.archetypes.arch(a).len_spec() implies
        #[trigger] w1.row_owned(a, r) by {
        assert(w0.row_owned(a, r));
    }
}

} // verus!
