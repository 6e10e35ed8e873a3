//! Scenario and boundary tests: spawn/query/despawn round trips, structural
//! mutation, change detection, handle recycling, scheduler batching, column
//! growth, and the error taxonomy.

use simple_ecs::{
    Bundle, Children, EcsError, Entity, ParallelSchedule, Query, QueryTerm, SystemAccess, World,
};

const POSITION: u64 = 1;
const VELOCITY: u64 = 2;
const HEALTH: u64 = 3;
const MARKER: u64 = 4;

fn pair(x: f32, y: f32) -> Vec<u64> {
    vec![x.to_bits() as u64, y.to_bits() as u64]
}

fn fst(v: &Vec<u64>) -> f32 {
    f32::from_bits(v[0] as u32)
}

fn bundle1(c: u64, v: Vec<u64>) -> Bundle {
    Bundle::new().with(c, v)
}

fn bundle2(c1: u64, v1: Vec<u64>, c2: u64, v2: Vec<u64>) -> Bundle {
    Bundle::new().with(c1, v1).with(c2, v2)
}

fn read_query(comps: &[u64]) -> Query {
    let mut q = Query::new();
    for &c in comps {
        q = q.with_term(QueryTerm::Read(c));
    }
    q
}

#[test]
fn spawn_query_despawn_scenario() {
    let mut world = World::new();

    let a = world.spawn(bundle2(POSITION, pair(1.0, 2.0), VELOCITY, pair(3.0, 4.0)));
    let _b = world.spawn(bundle2(POSITION, pair(5.0, 6.0), VELOCITY, pair(7.0, 8.0)));
    let _c = world.spawn(bundle1(POSITION, pair(9.0, 10.0)));

    let rows = world.query(&read_query(&[POSITION, VELOCITY]));
    assert_eq!(rows.len(), 2);
    for row in &rows {
        let x = fst(row.items[0].as_ref().unwrap());
        assert!(x == 1.0 || x == 5.0);
    }

    assert!(world.despawn(a));

    let rows = world.query(&read_query(&[POSITION]));
    assert_eq!(rows.len(), 2);
    for row in &rows {
        let x = fst(row.items[0].as_ref().unwrap());
        assert!(x == 5.0 || x == 9.0);
    }
}

#[test]
fn structural_mutation_scenario() {
    let mut world = World::new();

    let e = world.spawn(bundle1(POSITION, pair(0.0, 0.0)));
    world.insert(e, VELOCITY, pair(1.0, 1.0)).unwrap();

    assert_eq!(world.get(e, POSITION).unwrap(), &pair(0.0, 0.0));
    assert_eq!(world.get(e, VELOCITY).unwrap(), &pair(1.0, 1.0));

    let taken = world.remove(e, VELOCITY).unwrap();
    assert_eq!(taken, pair(1.0, 1.0));
    assert!(world.get(e, VELOCITY).is_none());

    let info = world.entity_info(e).unwrap();
    assert_eq!(info.component_types, vec![POSITION]);
}

#[test]
fn insert_then_remove_keeps_other_components() {
    let mut world = World::new();

    let e = world.spawn(bundle2(POSITION, pair(2.0, 3.0), HEALTH, vec![77]));
    world.insert(e, VELOCITY, pair(1.0, 1.0)).unwrap();
    let taken = world.remove(e, VELOCITY).unwrap();

    // the round trip hands the payload back bitwise and keeps the rest
    assert_eq!(taken, pair(1.0, 1.0));
    assert_eq!(world.get(e, POSITION).unwrap(), &pair(2.0, 3.0));
    assert_eq!(world.get(e, HEALTH).unwrap(), &vec![77]);
    let info = world.entity_info(e).unwrap();
    assert_eq!(info.component_types, vec![POSITION, HEALTH]);
}

#[test]
fn change_detection_scenario() {
    let mut world = World::new();

    let e = world.spawn(bundle1(POSITION, pair(0.0, 0.0)));
    assert_eq!(world.current_tick(), 0);

    world.tick();
    assert_eq!(world.current_tick(), 1);

    let pos = world.get_mut(e, POSITION).unwrap();
    pos[0] = 10.0f32.to_bits() as u64;

    let meta = world.entity_meta(e).unwrap();
    let arch = world.archetypes.get(meta.archetype).unwrap();
    assert!(arch.component_changed(meta.index, POSITION, 0));

    // without the tick bump, a write at tick zero is invisible to a reader
    // using a zero floor
    let mut world2 = World::new();
    let e2 = world2.spawn(bundle1(POSITION, pair(0.0, 0.0)));
    let pos2 = world2.get_mut(e2, POSITION).unwrap();
    pos2[0] = 10.0f32.to_bits() as u64;
    let meta2 = world2.entity_meta(e2).unwrap();
    let arch2 = world2.archetypes.get(meta2.archetype).unwrap();
    assert!(!arch2.component_changed(meta2.index, POSITION, 0));
}

#[test]
fn handle_recycling_scenario() {
    let mut world = World::new();

    let e1 = world.spawn(bundle1(POSITION, pair(0.0, 0.0)));
    assert!(world.despawn(e1));
    let e2 = world.spawn(bundle1(POSITION, pair(1.0, 1.0)));

    assert_eq!(e1.id(), e2.id());
    assert!(e1.generation() < e2.generation());
    assert!(!world.is_alive(e1));
    assert!(world.is_alive(e2));
    assert!(world.get(e1, POSITION).is_none());
    assert!(matches!(
        world.try_get(e1, POSITION).unwrap_err(),
        EcsError::EntityNotFound(_)
    ));
}

#[test]
fn scheduler_batching_scenario() {
    let mut schedule = ParallelSchedule::new();

    // reads Position; reads Velocity; writes Position; writes Velocity
    schedule.add_system(SystemAccess { reads: vec![POSITION], writes: vec![] });
    schedule.add_system(SystemAccess { reads: vec![VELOCITY], writes: vec![] });
    schedule.add_system(SystemAccess { reads: vec![], writes: vec![POSITION] });
    schedule.add_system(SystemAccess { reads: vec![], writes: vec![VELOCITY] });

    let batches = schedule.compute_batches();
    // the two readers share a batch; the Position writer conflicts with the
    // Position reader and opens a new batch; the Velocity writer conflicts
    // with the Velocity reader but not with the Position writer
    assert_eq!(batches, vec![vec![0usize, 1], vec![2, 3]]);
}

#[test]
fn fragmented_query_scenario() {
    let mut world = World::new();

    for i in 0..100 {
        let x = i as f32;
        world.spawn(bundle1(POSITION, pair(x, x)));
        world.spawn(bundle2(POSITION, pair(x, x), VELOCITY, pair(1.0, 1.0)));
        world.spawn(bundle2(POSITION, pair(x, x), HEALTH, vec![100]));
        world.spawn(
            Bundle::new()
                .with(POSITION, pair(x, x))
                .with(VELOCITY, pair(1.0, 1.0))
                .with(HEALTH, vec![100])
                .with(MARKER, vec![]),
        );
    }

    assert_eq!(world.query(&read_query(&[POSITION])).len(), 400);
    assert_eq!(world.query(&read_query(&[POSITION, VELOCITY])).len(), 200);
}

#[test]
fn column_growth_boundary() {
    let mut world = World::new();

    // the first row in a fresh archetype allocates exactly four slots
    world.spawn(bundle1(POSITION, pair(0.0, 0.0)));
    let arch = world.archetypes.get(0).unwrap();
    assert_eq!(arch.columns[0].capacity, 4);

    // the fifth row doubles it
    for i in 1..5 {
        world.spawn(bundle1(POSITION, pair(i as f32, 0.0)));
    }
    let arch = world.archetypes.get(0).unwrap();
    assert_eq!(arch.len(), 5);
    assert_eq!(arch.columns[0].capacity, 8);
}

#[test]
fn swap_remove_last_row_boundary() {
    let mut world = World::new();

    let e1 = world.spawn(bundle1(POSITION, pair(1.0, 0.0)));
    let e2 = world.spawn(bundle1(POSITION, pair(2.0, 0.0)));

    // despawning the last row moves nothing
    assert!(world.despawn(e2));
    assert_eq!(fst(world.get(e1, POSITION).unwrap()), 1.0);

    // despawning a non-last row moves the last row into its place
    let e3 = world.spawn(bundle1(POSITION, pair(3.0, 0.0)));
    assert!(world.despawn(e1));
    assert_eq!(fst(world.get(e3, POSITION).unwrap()), 3.0);
}

#[test]
fn migration_moves_one_row_between_archetypes() {
    let mut world = World::new();

    // two rows in the {position} archetype
    let e = world.spawn(bundle1(POSITION, pair(1.0, 1.0)));
    world.spawn(bundle1(POSITION, pair(2.0, 2.0)));
    let source = world.entity_meta(e).unwrap().archetype;
    assert_eq!(world.archetypes.get(source).unwrap().len(), 2);

    // migrating e leaves one row behind and lands at the target's end
    world.insert(e, VELOCITY, pair(3.0, 3.0)).unwrap();
    let meta = world.entity_meta(e).unwrap();
    assert_ne!(meta.archetype, source);
    assert_eq!(world.archetypes.get(source).unwrap().len(), 1);
    assert_eq!(world.archetypes.get(meta.archetype).unwrap().len(), 1);
    assert_eq!(meta.index, 0);

    // the cached transition edge resolves the next migration to the same
    // archetype
    let found = world.archetypes.find_archetype_with_added(source, VELOCITY);
    assert_eq!(found, Some(meta.archetype));
}

#[test]
fn insert_existing_is_in_place_overwrite() {
    let mut world = World::new();

    let e = world.spawn(bundle1(POSITION, pair(0.0, 0.0)));
    let meta_before = world.entity_meta(e).unwrap();

    world.insert(e, POSITION, pair(9.0, 9.0)).unwrap();

    let meta_after = world.entity_meta(e).unwrap();
    assert_eq!(meta_before.archetype, meta_after.archetype);
    assert_eq!(meta_before.index, meta_after.index);
    assert_eq!(fst(world.get(e, POSITION).unwrap()), 9.0);
}

#[test]
fn remove_last_component_migrates_to_empty_signature() {
    let mut world = World::new();

    let e = world.spawn(bundle1(POSITION, pair(0.0, 0.0)));
    let taken = world.remove(e, POSITION).unwrap();
    assert_eq!(taken, pair(0.0, 0.0));

    assert!(world.is_alive(e));
    let info = world.entity_info(e).unwrap();
    assert_eq!(info.component_types.len(), 0);
}

#[test]
fn empty_archetype_iteration_yields_nothing() {
    let mut world = World::new();

    let e = world.spawn(bundle1(POSITION, pair(0.0, 0.0)));
    assert!(world.despawn(e));

    // the archetype still exists but holds no rows
    assert_eq!(world.query(&read_query(&[POSITION])).len(), 0);
}

#[test]
fn error_variants() {
    let mut world = World::new();

    let dead = world.spawn(bundle1(POSITION, pair(0.0, 0.0)));
    world.despawn(dead);

    assert!(matches!(
        world.insert(dead, VELOCITY, pair(0.0, 0.0)).unwrap_err(),
        EcsError::EntityNotFound(_)
    ));
    assert!(matches!(
        world.remove(dead, POSITION).unwrap_err(),
        EcsError::EntityNotFound(_)
    ));

    let alive = world.spawn(bundle1(POSITION, pair(0.0, 0.0)));
    assert!(matches!(
        world.remove(alive, VELOCITY).unwrap_err(),
        EcsError::ComponentNotFound(VELOCITY)
    ));
    assert!(matches!(
        world.try_get_mut(alive, VELOCITY).unwrap_err(),
        EcsError::ComponentNotFound(VELOCITY)
    ));
}

#[test]
fn query_does_not_bump_ticks() {
    let mut world = World::new();

    let e = world.spawn(bundle1(POSITION, pair(0.0, 0.0)));
    world.tick();

    // a read-only query records no writes
    let _ = world.query(&read_query(&[POSITION]));
    let meta = world.entity_meta(e).unwrap();
    let arch = world.archetypes.get(meta.archetype).unwrap();
    assert!(!arch.component_changed(meta.index, POSITION, 0));

    // a real write does
    world.get_mut(e, POSITION).unwrap()[0] = 1;
    let arch = world.archetypes.get(meta.archetype).unwrap();
    assert!(arch.component_changed(meta.index, POSITION, 0));
}

#[test]
fn ticks_strictly_increase_after_tick() {
    let mut world = World::new();

    let e = world.spawn(bundle1(POSITION, pair(0.0, 0.0)));
    world.get_mut(e, POSITION).unwrap()[0] = 1;
    let meta = world.entity_meta(e).unwrap();
    let arch = world.archetypes.get(meta.archetype).unwrap();
    // the pre-tick write recorded tick zero
    assert!(!arch.component_changed(meta.index, POSITION, 0));

    world.tick();
    world.get_mut(e, POSITION).unwrap()[0] = 2;
    let arch = world.archetypes.get(meta.archetype).unwrap();
    // the post-tick write records a strictly greater tick
    assert!(arch.component_changed(meta.index, POSITION, 0));
}

#[test]
fn spawn_despawn_restores_archetype_len() {
    let mut world = World::new();

    world.spawn(bundle1(POSITION, pair(1.0, 1.0)));
    world.spawn(bundle1(POSITION, pair(2.0, 2.0)));
    let len_before = world.archetypes.get(0).unwrap().len();

    let e = world.spawn(bundle1(POSITION, pair(3.0, 3.0)));
    assert_eq!(world.archetypes.get(0).unwrap().len(), len_before + 1);

    assert!(world.despawn(e));
    assert_eq!(world.archetypes.get(0).unwrap().len(), len_before);
}

#[test]
fn deferred_commands_skip_dead_entities() {
    let mut world = World::new();

    let dead = world.spawn(bundle1(POSITION, pair(0.0, 0.0)));
    world.despawn(dead);

    let commands = world.commands();
    commands.insert(dead, VELOCITY, pair(1.0, 1.0));
    commands.remove(dead, POSITION);
    commands.despawn(dead);
    world.flush_commands();

    assert!(!world.is_alive(dead));
    assert_eq!(world.commands().len(), 0);
}

#[test]
fn children_component_add_and_remove() {
    let mut children = Children::new();
    let e1 = Entity { id: 1, generation: 0 };
    let e2 = Entity { id: 2, generation: 0 };

    children.add(e1);
    children.add(e2);
    children.add(e1);
    assert_eq!(children.0.len(), 3);

    children.remove(e1);
    assert_eq!(children.0, vec![e2]);
}

#[test]
fn bundle_replaces_duplicate_component() {
    let b = Bundle::new().with(POSITION, pair(1.0, 1.0)).with(POSITION, pair(2.0, 2.0));
    assert_eq!(b.len(), 1);

    let mut world = World::new();
    let e = world.spawn(b);
    assert_eq!(fst(world.get(e, POSITION).unwrap()), 2.0);
}

#[test]
fn bundle_order_does_not_matter() {
    let mut world = World::new();

    // declaration order differs from signature sort order
    let e1 = world.spawn(bundle2(VELOCITY, pair(3.0, 4.0), POSITION, pair(1.0, 2.0)));
    let e2 = world.spawn(bundle2(POSITION, pair(5.0, 6.0), VELOCITY, pair(7.0, 8.0)));

    // both land in the same archetype, each component under its own identity
    assert_eq!(
        world.entity_meta(e1).unwrap().archetype,
        world.entity_meta(e2).unwrap().archetype
    );
    assert_eq!(fst(world.get(e1, POSITION).unwrap()), 1.0);
    assert_eq!(fst(world.get(e1, VELOCITY).unwrap()), 3.0);
}
