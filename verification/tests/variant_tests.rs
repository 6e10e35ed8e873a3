//! The shared lifecycle and query suite: spawn, component access, despawn,
//! multi-component queries, query-driven mutation, and scheduling.

use simple_ecs::{Bundle, ParallelSchedule, Query, QueryTerm, Schedule, Stage, SystemAccess, World};

const POSITION: u64 = 1;
const VELOCITY: u64 = 2;

fn pair(x: f32, y: f32) -> Vec<u64> {
    vec![x.to_bits() as u64, y.to_bits() as u64]
}

fn fst(v: &Vec<u64>) -> f32 {
    f32::from_bits(v[0] as u32)
}

fn snd(v: &Vec<u64>) -> f32 {
    f32::from_bits(v[1] as u32)
}

fn bundle1(c: u64, v: Vec<u64>) -> Bundle {
    Bundle::new().with(c, v)
}

fn bundle2(c1: u64, v1: Vec<u64>, c2: u64, v2: Vec<u64>) -> Bundle {
    Bundle::new().with(c1, v1).with(c2, v2)
}

fn read_query(comps: &[u64]) -> Query {
    let mut q = Query::new();
    for &c in comps {
        q = q.with_term(QueryTerm::Read(c));
    }
    q
}

/// `pos += vel` for every row carrying both components.
fn run_movement_system(world: &mut World) {
    let q = Query::new()
        .with_term(QueryTerm::Write(POSITION))
        .with_term(QueryTerm::Read(VELOCITY));
    for row in world.query(&q) {
        let px = fst(row.items[0].as_ref().unwrap());
        let py = snd(row.items[0].as_ref().unwrap());
        let vx = fst(row.items[1].as_ref().unwrap());
        let vy = snd(row.items[1].as_ref().unwrap());
        let pos = world.get_mut(row.entity, POSITION).unwrap();
        *pos = pair(px + vx, py + vy);
    }
}

/// `vel *= 0.9` for every row carrying a velocity.
fn run_damping_system(world: &mut World) {
    let q = Query::new().with_term(QueryTerm::Write(VELOCITY));
    for row in world.query(&q) {
        let vx = fst(row.items[0].as_ref().unwrap());
        let vy = snd(row.items[0].as_ref().unwrap());
        let vel = world.get_mut(row.entity, VELOCITY).unwrap();
        *vel = pair(vx * 0.9, vy * 0.9);
    }
}

#[test]
fn lib_test_spawn_entity() {
    let mut world = World::new();
    let entity = world.spawn(bundle1(POSITION, pair(0.0, 0.0)));

    assert!(world.is_alive(entity));
}

#[test]
fn lib_test_get_component() {
    let mut world = World::new();
    let entity = world.spawn(bundle1(POSITION, pair(10.0, 20.0)));

    let pos = world.get(entity, POSITION).unwrap();
    assert_eq!(fst(pos), 10.0);
    assert_eq!(snd(pos), 20.0);
}

#[test]
fn lib_test_get_component_mut() {
    let mut world = World::new();
    let entity = world.spawn(bundle1(POSITION, pair(10.0, 20.0)));

    {
        let pos = world.get_mut(entity, POSITION).unwrap();
        pos[0] = 30.0f32.to_bits() as u64;
    }

    let pos = world.get(entity, POSITION).unwrap();
    assert_eq!(fst(pos), 30.0);
}

#[test]
fn lib_test_despawn() {
    let mut world = World::new();
    let entity = world.spawn(bundle1(POSITION, pair(0.0, 0.0)));

    assert!(world.despawn(entity));
    assert!(!world.is_alive(entity));
}

#[test]
fn lib_test_multiple_components() {
    let mut world = World::new();
    let entity = world.spawn(bundle2(POSITION, pair(1.0, 2.0), VELOCITY, pair(3.0, 4.0)));

    let pos = world.get(entity, POSITION).unwrap();
    assert_eq!(fst(pos), 1.0);
    let vel = world.get(entity, VELOCITY).unwrap();
    assert_eq!(fst(vel), 3.0);
}

#[test]
fn lib_test_query_single() {
    let mut world = World::new();

    world.spawn(bundle1(POSITION, pair(1.0, 2.0)));
    world.spawn(bundle1(POSITION, pair(3.0, 4.0)));

    let mut count = 0;
    for row in world.query(&read_query(&[POSITION])) {
        assert!(fst(row.items[0].as_ref().unwrap()) > 0.0);
        count += 1;
    }

    assert_eq!(count, 2);
}

#[test]
fn lib_test_query_multiple() {
    let mut world = World::new();

    world.spawn(bundle2(POSITION, pair(1.0, 2.0), VELOCITY, pair(0.1, 0.2)));
    world.spawn(bundle2(POSITION, pair(3.0, 4.0), VELOCITY, pair(0.3, 0.4)));
    world.spawn(bundle1(POSITION, pair(5.0, 6.0)));

    let mut count = 0;
    for row in world.query(&read_query(&[POSITION, VELOCITY])) {
        assert!(fst(row.items[0].as_ref().unwrap()) > 0.0);
        assert!(fst(row.items[1].as_ref().unwrap()) > 0.0);
        count += 1;
    }

    assert_eq!(count, 2);
}

#[test]
fn lib_test_query_mut() {
    let mut world = World::new();

    world.spawn(bundle1(POSITION, pair(1.0, 2.0)));
    world.spawn(bundle1(POSITION, pair(3.0, 4.0)));

    let q = Query::new().with_term(QueryTerm::Write(POSITION));
    for row in world.query(&q) {
        let x = fst(row.items[0].as_ref().unwrap());
        let y = snd(row.items[0].as_ref().unwrap());
        let pos = world.get_mut(row.entity, POSITION).unwrap();
        *pos = pair(x + 10.0, y);
    }

    for row in world.query(&read_query(&[POSITION])) {
        assert!(fst(row.items[0].as_ref().unwrap()) >= 11.0);
    }
}

#[test]
fn lib_test_query_system() {
    let mut world = World::new();

    world.spawn(bundle2(POSITION, pair(0.0, 0.0), VELOCITY, pair(1.0, 2.0)));
    world.spawn(bundle2(POSITION, pair(10.0, 10.0), VELOCITY, pair(-1.0, -2.0)));

    run_movement_system(&mut world);

    let mut found_first = false;
    let mut found_second = false;

    for row in world.query(&read_query(&[POSITION])) {
        let x = fst(row.items[0].as_ref().unwrap());
        let y = snd(row.items[0].as_ref().unwrap());
        if (x - 1.0).abs() < 0.001 && (y - 2.0).abs() < 0.001 {
            found_first = true;
        }
        if (x - 9.0).abs() < 0.001 && (y - 8.0).abs() < 0.001 {
            found_second = true;
        }
    }

    assert!(found_first);
    assert!(found_second);
}

#[test]
fn lib_test_schedule() {
    let mut world = World::new();

    world.spawn(bundle2(POSITION, pair(0.0, 0.0), VELOCITY, pair(1.0, 1.0)));

    let mut schedule = Schedule::new();

    // a movement system and a velocity-damping system in the update stage
    schedule.add_update_system(SystemAccess { reads: vec![VELOCITY], writes: vec![POSITION] });
    schedule.add_update_system(SystemAccess { reads: vec![], writes: vec![VELOCITY] });

    for _ in 0..3 {
        let batches = schedule.stage_batches(Stage::Update);
        for batch in &batches {
            for &idx in batch {
                if idx == 0 {
                    run_movement_system(&mut world);
                } else {
                    run_damping_system(&mut world);
                }
            }
        }
        world.flush_commands();
        world.tick();
    }

    for row in world.query(&read_query(&[POSITION])) {
        assert!(fst(row.items[0].as_ref().unwrap()) > 0.0);
        assert!(snd(row.items[0].as_ref().unwrap()) > 0.0);
    }
}

#[test]
fn test_schedule_stages() {
    let mut world = World::new();

    world.spawn(bundle1(POSITION, pair(0.0, 0.0)));

    let mut schedule = Schedule::new();

    schedule.add_system(Stage::PreUpdate, SystemAccess { reads: vec![], writes: vec![] });
    schedule.add_system(Stage::Update, SystemAccess { reads: vec![], writes: vec![] });
    schedule.add_system(Stage::PostUpdate, SystemAccess { reads: vec![], writes: vec![] });

    // every stage's batching covers its registered systems
    for stage in [Stage::PreUpdate, Stage::Update, Stage::PostUpdate, Stage::Render] {
        let batches = schedule.stage_batches(stage);
        let total: usize = batches.iter().map(|b| b.len()).sum();
        match stage {
            Stage::Render => assert_eq!(total, 0),
            _ => assert_eq!(total, 1),
        }
    }
    world.flush_commands();
    world.tick();
}

#[test]
fn lib_test_parallel_schedule() {
    let mut world = World::new();

    world.spawn(bundle2(POSITION, pair(0.0, 0.0), VELOCITY, pair(1.0, 1.0)));

    let mut schedule = ParallelSchedule::new();

    // these two systems do not conflict and share a batch
    schedule.add_system(SystemAccess { reads: vec![], writes: vec![POSITION] });
    schedule.add_system(SystemAccess { reads: vec![], writes: vec![VELOCITY] });

    let batches = schedule.compute_batches();
    assert_eq!(batches.len(), 1);
    assert_eq!(batches[0], vec![0, 1]);
    for batch in &batches {
        for &idx in batch {
            if idx == 0 {
                // bump every position's x
                let q = Query::new().with_term(QueryTerm::Write(POSITION));
                for row in world.query(&q) {
                    let x = fst(row.items[0].as_ref().unwrap());
                    let y = snd(row.items[0].as_ref().unwrap());
                    let pos = world.get_mut(row.entity, POSITION).unwrap();
                    *pos = pair(x + 1.0, y);
                }
            } else {
                run_damping_system(&mut world);
            }
        }
    }
    world.flush_commands();
    world.tick();

    for row in world.query(&read_query(&[POSITION])) {
        assert!(fst(row.items[0].as_ref().unwrap()) > 0.0);
    }
}

#[test]
fn test_system_dependency_tracking() {
    // system 1 reads Position; system 2 writes Velocity
    let q1 = Query::new().with_term(QueryTerm::Read(POSITION));
    let q2 = Query::new().with_term(QueryTerm::Write(VELOCITY));

    let a1 = q1.access();
    assert_eq!(a1.reads.len(), 1);
    assert_eq!(a1.writes.len(), 0);

    let a2 = q2.access();
    assert_eq!(a2.reads.len(), 0);
    assert_eq!(a2.writes.len(), 1);
}

#[test]
fn test_function_system() {
    let mut world = World::new();

    world.spawn(bundle1(POSITION, pair(0.0, 0.0)));

    // a whole-world system: count the rows carrying a position
    let mut count = 0;
    let counting_system = |w: &mut World, count: &mut i32| {
        for _row in w.query(&read_query(&[POSITION])) {
            *count += 1;
        }
    };

    counting_system(&mut world, &mut count);

    assert_eq!(count, 1);
}
