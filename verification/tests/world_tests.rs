//! The world's lifecycle, access, migration, resource, event, command and
//! scheduling behavior, exercised through the public API.
//!
//! Component payloads are word vectors; the two-field test components encode
//! each field as the bit pattern of an `f32`.

use simple_ecs::{
    Bundle, Changed, Children, Commands, EcsError, Entity, EventReader, EventWriter, Events,
    ParallelSchedule, Parent, Query, QueryTerm, Schedule, Stage, SystemAccess, With, Without,
    World,
};

const POSITION: u64 = 1;
const VELOCITY: u64 = 2;
const HEALTH: u64 = 3;
const PARENT_COMP: u64 = 4;
const CHILDREN_COMP: u64 = 5;
const TIME: u64 = 100;

fn pair(x: f32, y: f32) -> Vec<u64> {
    vec![x.to_bits() as u64, y.to_bits() as u64]
}

fn fst(v: &Vec<u64>) -> f32 {
    f32::from_bits(v[0] as u32)
}

fn snd(v: &Vec<u64>) -> f32 {
    f32::from_bits(v[1] as u32)
}

fn set_fst(v: &mut Vec<u64>, x: f32) {
    v[0] = x.to_bits() as u64;
}

fn bundle1(c: u64, v: Vec<u64>) -> Bundle {
    Bundle::new().with(c, v)
}

fn bundle2(c1: u64, v1: Vec<u64>, c2: u64, v2: Vec<u64>) -> Bundle {
    Bundle::new().with(c1, v1).with(c2, v2)
}

fn read_query(comps: &[u64]) -> Query {
    let mut q = Query::new();
    for &c in comps {
        q = q.with_term(QueryTerm::Read(c));
    }
    q
}

fn encode_entity(e: Entity) -> Vec<u64> {
    vec![e.id() as u64, e.generation() as u64]
}

#[test]
fn test_spawn_and_query() {
    let mut world = World::new();

    let e1 = world.spawn(bundle2(POSITION, pair(0.0, 0.0), VELOCITY, pair(1.0, 1.0)));
    let e2 = world.spawn(bundle2(POSITION, pair(5.0, 5.0), VELOCITY, pair(-1.0, -1.0)));

    let mut count = 0;
    for row in world.query(&read_query(&[POSITION, VELOCITY])) {
        count += 1;
        let pos = row.items[0].as_ref().unwrap();
        let vel = row.items[1].as_ref().unwrap();
        assert!(fst(pos) == 0.0 || fst(pos) == 5.0);
        assert!(fst(vel) == 1.0 || fst(vel) == -1.0);
    }
    assert_eq!(count, 2);

    assert!(world.is_alive(e1));
    assert!(world.is_alive(e2));
}

#[test]
fn test_despawn() {
    let mut world = World::new();

    let e1 = world.spawn(bundle1(POSITION, pair(0.0, 0.0)));
    let e2 = world.spawn(bundle1(POSITION, pair(5.0, 5.0)));

    assert!(world.despawn(e1));
    assert!(!world.is_alive(e1));
    assert!(world.is_alive(e2));

    let mut count = 0;
    for _row in world.query(&read_query(&[POSITION])) {
        count += 1;
    }
    assert_eq!(count, 1);
}

#[test]
fn test_get_component() {
    let mut world = World::new();

    let entity = world.spawn(bundle2(POSITION, pair(10.0, 20.0), VELOCITY, pair(1.0, 2.0)));

    let pos = world.get(entity, POSITION).unwrap();
    assert_eq!(fst(pos), 10.0);
    assert_eq!(snd(pos), 20.0);

    let vel = world.get_mut(entity, VELOCITY).unwrap();
    set_fst(vel, 5.0);

    let vel = world.get(entity, VELOCITY).unwrap();
    assert_eq!(fst(vel), 5.0);
}

#[test]
fn test_insert_component() {
    let mut world = World::new();

    let entity = world.spawn(bundle1(POSITION, pair(0.0, 0.0)));
    assert!(world.get(entity, VELOCITY).is_none());

    world.insert(entity, VELOCITY, pair(1.0, 1.0)).unwrap();
    assert!(world.get(entity, VELOCITY).is_some());

    let vel = world.get(entity, VELOCITY).unwrap();
    assert_eq!(fst(vel), 1.0);
}

#[test]
fn test_remove_component() {
    let mut world = World::new();

    let entity = world.spawn(bundle2(POSITION, pair(0.0, 0.0), VELOCITY, pair(1.0, 1.0)));
    assert!(world.get(entity, VELOCITY).is_some());

    let vel = world.remove(entity, VELOCITY).unwrap();
    assert_eq!(fst(&vel), 1.0);
    assert!(world.get(entity, VELOCITY).is_none());
    assert!(world.get(entity, POSITION).is_some());
}

#[test]
fn test_resources() {
    let mut world = World::new();

    world.insert_resource(TIME, vec![0.0f32.to_bits() as u64]);

    {
        let time = world.get_resource(TIME).unwrap();
        assert_eq!(f32::from_bits(time[0] as u32), 0.0);
    }

    {
        let time = world.get_resource_mut(TIME).unwrap();
        time[0] = 1.5f32.to_bits() as u64;
    }

    {
        let time = world.get_resource(TIME).unwrap();
        assert_eq!(f32::from_bits(time[0] as u32), 1.5);
    }

    let time = world.remove_resource(TIME).unwrap();
    assert_eq!(f32::from_bits(time[0] as u32), 1.5);
    assert!(world.get_resource(TIME).is_none());
}

#[test]
fn test_events() {
    let mut events = Events::<i32>::new();

    events.send(1);
    events.send(2);
    events.send(3);

    let collected: Vec<_> = events.iter().to_vec();
    assert_eq!(collected, vec![1, 2, 3]);

    events.update();
    assert!(events.is_empty());

    let mut writer = EventWriter::new();
    writer.send(&mut events, 4);
    assert_eq!(events.iter().to_vec(), vec![4]);
    assert_eq!(events.len(), 1);
}

#[test]
fn test_event_reader() {
    let mut events = Events::<i32>::new();

    events.send(1);
    events.send(2);

    let mut reader = EventReader::new(&events);
    let collected: Vec<_> = reader.iter(&events).to_vec();
    assert_eq!(collected, vec![1, 2]);

    drop(reader);

    events.send(3);

    let mut reader = EventReader::new(&events);
    let collected: Vec<_> = reader.iter(&events).to_vec();
    assert_eq!(collected, vec![1, 2, 3]);
}

#[test]
fn test_hierarchy() {
    let mut world = World::new();

    let parent = world.spawn(bundle2(POSITION, pair(0.0, 0.0), CHILDREN_COMP, vec![]));
    let child = world.spawn(bundle2(
        POSITION,
        pair(1.0, 1.0),
        PARENT_COMP,
        encode_entity(parent),
    ));

    // the Children component mirrors the library's Children value
    let mut children = Children::new();
    children.add(child);
    if let Some(stored) = world.get_mut(parent, CHILDREN_COMP) {
        for e in &children.0 {
            stored.push(e.id() as u64);
            stored.push(e.generation() as u64);
        }
    }

    let stored = world.get(parent, CHILDREN_COMP).unwrap();
    assert_eq!(stored.len(), 2);
    assert_eq!(stored[0], child.id() as u64);
    assert_eq!(stored[1], child.generation() as u64);

    let parent_comp = world.get(child, PARENT_COMP).unwrap();
    assert_eq!(parent_comp[0], parent.id() as u64);
    assert_eq!(parent_comp[1], parent.generation() as u64);

    // Parent is a plain wrapper around the handle
    let p = Parent(parent);
    assert_eq!(p.0, parent);
}

#[test]
fn test_commands() {
    let mut world = World::new();

    let commands = world.commands();
    commands.spawn(bundle1(POSITION, pair(0.0, 0.0)));
    commands.spawn(bundle1(POSITION, pair(1.0, 1.0)));
    assert_eq!(commands.len(), 2);

    world.flush_commands();

    let mut count = 0;
    for _row in world.query(&read_query(&[POSITION])) {
        count += 1;
    }
    assert_eq!(count, 2);

    // a standalone queue behaves the same way before it is handed over
    let mut standalone = Commands::new();
    standalone.spawn(bundle1(POSITION, pair(2.0, 2.0)));
    assert!(!standalone.is_empty());
}

#[test]
fn test_option_query() {
    let mut world = World::new();

    world.spawn(bundle2(POSITION, pair(0.0, 0.0), VELOCITY, pair(1.0, 1.0)));
    world.spawn(bundle1(POSITION, pair(1.0, 1.0)));

    let q = Query::new()
        .with_term(QueryTerm::Read(POSITION))
        .with_term(QueryTerm::OptRead(VELOCITY));

    let mut count_with_vel = 0;
    let mut count_without_vel = 0;

    for row in world.query(&q) {
        if row.items[1].is_some() {
            count_with_vel += 1;
        } else {
            count_without_vel += 1;
        }
    }

    assert_eq!(count_with_vel, 1);
    assert_eq!(count_without_vel, 1);
}

#[test]
fn test_system() {
    let mut world = World::new();

    world.spawn(bundle2(POSITION, pair(0.0, 0.0), VELOCITY, pair(1.0, 1.0)));
    world.spawn(bundle2(POSITION, pair(5.0, 5.0), VELOCITY, pair(-1.0, -1.0)));

    // a movement system: writes Position from Velocity
    run_movement_system(&mut world);

    for row in world.query(&read_query(&[POSITION])) {
        let pos = row.items[0].as_ref().unwrap();
        assert!(fst(pos) == 1.0 || fst(pos) == 4.0);
    }
}

/// The body of the movement system: `pos += vel` for every matching row.
fn run_movement_system(world: &mut World) {
    let q = Query::new()
        .with_term(QueryTerm::Write(POSITION))
        .with_term(QueryTerm::Read(VELOCITY));
    let rows = world.query(&q);
    for row in rows {
        let px = fst(row.items[0].as_ref().unwrap());
        let py = snd(row.items[0].as_ref().unwrap());
        let vx = fst(row.items[1].as_ref().unwrap());
        let vy = snd(row.items[1].as_ref().unwrap());
        let pos = world.get_mut(row.entity, POSITION).unwrap();
        *pos = pair(px + vx, py + vy);
    }
}

#[test]
fn test_schedule() {
    let mut world = World::new();
    let mut schedule = Schedule::new();

    world.spawn(bundle2(POSITION, pair(0.0, 0.0), VELOCITY, pair(1.0, 1.0)));

    // register the movement system's access and run the stage's batches
    schedule.add_update_system(SystemAccess { reads: vec![VELOCITY], writes: vec![POSITION] });
    let batches = schedule.stage_batches(Stage::Update);
    assert_eq!(batches.len(), 1);
    for batch in &batches {
        for &idx in batch {
            assert_eq!(idx, 0);
            run_movement_system(&mut world);
        }
    }
    world.flush_commands();
    world.tick();

    let rows = world.query(&read_query(&[POSITION]));
    let pos = rows[0].items[0].as_ref().unwrap();
    assert_eq!(fst(pos), 1.0);
    assert_eq!(snd(pos), 1.0);
}

#[test]
fn test_change_detection() {
    let mut world = World::new();

    let entity = world.spawn(bundle1(POSITION, pair(0.0, 0.0)));

    world.tick();

    if let Some(pos) = world.get_mut(entity, POSITION) {
        set_fst(pos, 10.0);
    }

    let location = world.entity_meta(entity).unwrap();
    let archetype = world.archetypes.get(location.archetype).unwrap();
    assert!(archetype.component_changed(location.index, POSITION, 0));
}

#[test]
fn test_entity_info() {
    let mut world = World::new();

    let entity = world.spawn(bundle2(POSITION, pair(0.0, 0.0), VELOCITY, pair(1.0, 1.0)));

    let info = world.entity_info(entity).unwrap();
    assert_eq!(info.entity, entity);
    assert_eq!(info.component_types.len(), 2);
}

#[test]
fn test_error_handling() {
    let mut world = World::new();

    let entity = world.spawn(bundle1(POSITION, pair(0.0, 0.0)));
    world.despawn(entity);

    let result = world.try_get(entity, POSITION);
    assert!(result.is_err());
    assert!(matches!(result.unwrap_err(), EcsError::EntityNotFound(_)));
}

#[test]
fn test_parallel_schedule() {
    let mut world = World::new();
    let mut schedule = ParallelSchedule::new();

    world.spawn(bundle2(POSITION, pair(0.0, 0.0), VELOCITY, pair(1.0, 1.0)));
    world.spawn(bundle2(POSITION, pair(5.0, 5.0), VELOCITY, pair(-1.0, -1.0)));

    schedule.add_system(SystemAccess { reads: vec![VELOCITY], writes: vec![POSITION] });
    let batches = schedule.compute_batches();
    for batch in &batches {
        for &idx in batch {
            assert_eq!(idx, 0);
            run_movement_system(&mut world);
        }
    }
    world.flush_commands();
    world.tick();

    for row in world.query(&read_query(&[POSITION])) {
        let pos = row.items[0].as_ref().unwrap();
        assert!(fst(pos) == 1.0 || fst(pos) == 4.0);
    }
}

#[test]
fn test_reserve() {
    let mut world = World::new();
    world.reserve(1000);

    for i in 0..1000 {
        world.spawn(bundle1(POSITION, pair(i as f32, 0.0)));
    }

    let mut count = 0;
    for _row in world.query(&read_query(&[POSITION])) {
        count += 1;
    }
    assert_eq!(count, 1000);
}

#[test]
fn test_insert_multiple_entities() {
    let mut world = World::new();

    let entities: Vec<_> = (0..100)
        .map(|i| world.spawn(bundle1(POSITION, pair(i as f32, 0.0))))
        .collect();

    for &entity in &entities {
        world.insert(entity, VELOCITY, pair(1.0, 1.0)).unwrap();
    }

    for &entity in &entities {
        assert!(world.get(entity, POSITION).is_some());
        assert!(world.get(entity, VELOCITY).is_some());
    }
}

#[test]
fn test_filters() {
    let mut world = World::new();

    world.spawn(bundle2(POSITION, pair(0.0, 0.0), HEALTH, vec![100]));
    world.spawn(bundle1(POSITION, pair(1.0, 1.0)));

    let with_health = Query::new()
        .with_term(QueryTerm::Read(POSITION))
        .with_term(With { comp: HEALTH }.term());
    assert_eq!(world.query(&with_health).len(), 1);

    let without_health = Query::new()
        .with_term(QueryTerm::Read(POSITION))
        .with_term(Without { comp: HEALTH }.term());
    assert_eq!(world.query(&without_health).len(), 1);

    world.tick();
    let e = world.query(&with_health)[0].entity;
    world.get_mut(e, HEALTH).unwrap()[0] = 50;

    let changed = Query::new().with_term(Changed { comp: HEALTH, since: 0 }.term());
    assert_eq!(world.query(&changed).len(), 1);

    let changed_later = Query::new().with_term(Changed { comp: HEALTH, since: 10 }.term());
    assert_eq!(world.query(&changed_later).len(), 0);
}
