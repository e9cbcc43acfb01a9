use ecs::Component;
use ecs::ComponentId;
use ecs::ComponentSet;
use ecs::ComponentStore;
use ecs::EcsError;
use ecs::EntityId;
use ecs::System;
use ecs::SystemFault;
use ecs::SystemId;
use ecs::World;

#[derive(Debug, Clone, Copy, PartialEq)]
enum Comp {
    Position { x: f32, y: f32 },
    Velocity { x: f32, y: f32 },
    Acceleration { x: f32, y: f32 },
}

const POSITION: ComponentId = 1;
const VELOCITY: ComponentId = 2;
const ACCELERATION: ComponentId = 3;

impl Component for Comp {
    fn component_id(&self) -> ComponentId {
        match self {
            Comp::Position { .. } => POSITION,
            Comp::Velocity { .. } => VELOCITY,
            Comp::Acceleration { .. } => ACCELERATION,
        }
    }
}

fn parts(c: &Comp) -> (f32, f32) {
    match *c {
        Comp::Position { x, y } => (x, y),
        Comp::Velocity { x, y } => (x, y),
        Comp::Acceleration { x, y } => (x, y),
    }
}

/// Moves every matched entity: position += velocity, velocity +=
/// acceleration.
struct MovementSystem {
    runs: u64,
}

impl System<Comp> for MovementSystem {
    fn id(&self) -> SystemId {
        1
    }

    fn needed_components(&self) -> Vec<ComponentId> {
        vec![POSITION, VELOCITY, ACCELERATION]
    }

    fn run(&mut self, store: &mut ComponentStore<Comp>, mut comps: ComponentSet) {
        self.runs += 1;
        let positions = comps.get_components(POSITION).unwrap();
        let velocities = comps.get_components(VELOCITY).unwrap();
        let accelerations = comps.get_components(ACCELERATION).unwrap();
        for k in 0..positions.len() {
            let (px, py) = parts(store.value_at(POSITION, positions[k]));
            let (vx, vy) = parts(store.value_at(VELOCITY, velocities[k]));
            let (ax, ay) = parts(store.value_at(ACCELERATION, accelerations[k]));
            store.set_value_at(POSITION, positions[k], Comp::Position { x: px + vx, y: py + vy });
            store.set_value_at(VELOCITY, velocities[k], Comp::Velocity { x: vx + ax, y: vy + ay });
        }
    }
}

#[test]
fn it_works() {
    let mut world: World<Comp> = World::new();
    let entity = world.register_entity();

    world.add_component(entity, POSITION, Comp::Position { x: 1.0, y: 1.5 }).unwrap();
    world.add_component(entity, VELOCITY, Comp::Velocity { x: 2.7, y: 2.0 }).unwrap();
    world.add_component(entity, ACCELERATION, Comp::Acceleration { x: -1.0, y: -1.0 }).unwrap();

    let mut system = MovementSystem { runs: 0 };
    for i in 0..10 {
        println!("t={}, pos={:?}", i, world.get_component(entity, POSITION));
        world.run_with(&mut system).unwrap();
    }
}

#[test]
fn add_component_twice_errors_and_keeps_first() {
    let mut world: World<Comp> = World::new();
    let e = world.register_entity();
    assert!(world.add_component(e, POSITION, Comp::Position { x: 1.0, y: 2.0 }).is_ok());
    let second = world.add_component(e, POSITION, Comp::Position { x: 9.0, y: 9.0 });
    assert_eq!(second, Err(EcsError::ComponentAlreadyExists(e, POSITION)));
    assert_eq!(world.get_component(e, POSITION), Some(&Comp::Position { x: 1.0, y: 2.0 }));
}

#[test]
fn add_component_to_unknown_entity_errors() {
    let mut world: World<Comp> = World::new();
    let r = world.add_component(3, POSITION, Comp::Position { x: 0.0, y: 0.0 });
    assert_eq!(r, Err(EcsError::EntityNotFound(3)));
}

#[test]
fn get_component_mut_writes_in_place() {
    let mut world: World<Comp> = World::new();
    let e = world.register_entity();
    world.add_component(e, POSITION, Comp::Position { x: 0.0, y: 0.0 }).unwrap();
    if let Some(p) = world.get_component_mut(e, POSITION) {
        *p = Comp::Position { x: 5.0, y: 6.0 };
    } else {
        panic!("component missing");
    }
    assert_eq!(world.get_component(e, POSITION), Some(&Comp::Position { x: 5.0, y: 6.0 }));
    assert!(world.get_component_mut(e, VELOCITY).is_none());
}

/// Records which (entity, position, velocity) rows a run handed out.
struct RowProbe {
    runs: u64,
    rows: Vec<(EntityId, Comp, Comp)>,
}

impl System<Comp> for RowProbe {
    fn id(&self) -> SystemId {
        2
    }

    fn needed_components(&self) -> Vec<ComponentId> {
        vec![POSITION, VELOCITY]
    }

    fn run(&mut self, store: &mut ComponentStore<Comp>, mut comps: ComponentSet) {
        self.runs += 1;
        self.rows.clear();
        let positions = comps.get_components(POSITION).unwrap();
        let velocities = comps.get_components(VELOCITY).unwrap();
        assert_eq!(positions.len(), velocities.len());
        for k in 0..positions.len() {
            let ep = store.entity_at(POSITION, positions[k]);
            let ev = store.entity_at(VELOCITY, velocities[k]);
            assert_eq!(ep, ev);
            self.rows.push((
                ep,
                *store.value_at(POSITION, positions[k]),
                *store.value_at(VELOCITY, velocities[k]),
            ));
        }
    }
}

#[test]
fn run_matches_exactly_the_full_owners() {
    let mut world: World<Comp> = World::new();
    let e1 = world.register_entity();
    let e2 = world.register_entity();
    let e3 = world.register_entity();
    world.add_component(e1, POSITION, Comp::Position { x: 1.0, y: 0.0 }).unwrap();
    world.add_component(e1, VELOCITY, Comp::Velocity { x: 10.0, y: 0.0 }).unwrap();
    world.add_component(e2, POSITION, Comp::Position { x: 2.0, y: 0.0 }).unwrap();
    world.add_component(e2, VELOCITY, Comp::Velocity { x: 20.0, y: 0.0 }).unwrap();
    world.add_component(e3, POSITION, Comp::Position { x: 3.0, y: 0.0 }).unwrap();

    let mut probe = RowProbe { runs: 0, rows: Vec::new() };
    assert_eq!(world.run_with(&mut probe), Ok(true));
    assert_eq!(probe.runs, 1);
    assert_eq!(probe.rows.len(), 2);
    let mut ids: Vec<EntityId> = probe.rows.iter().map(|r| r.0).collect();
    ids.sort();
    assert_eq!(ids, vec![e1, e2]);
    for (ent, pos, vel) in &probe.rows {
        if *ent == e1 {
            assert_eq!(*pos, Comp::Position { x: 1.0, y: 0.0 });
            assert_eq!(*vel, Comp::Velocity { x: 10.0, y: 0.0 });
        } else {
            assert_eq!(*pos, Comp::Position { x: 2.0, y: 0.0 });
            assert_eq!(*vel, Comp::Velocity { x: 20.0, y: 0.0 });
        }
    }
}

#[test]
fn run_without_full_owner_is_a_noop() {
    let mut world: World<Comp> = World::new();
    let e1 = world.register_entity();
    world.add_component(e1, POSITION, Comp::Position { x: 1.0, y: 1.0 }).unwrap();

    let mut probe = RowProbe { runs: 0, rows: Vec::new() };
    assert_eq!(world.run_with(&mut probe), Ok(false));
    assert_eq!(probe.runs, 0);
}

#[test]
fn second_run_is_served_from_cache() {
    let mut world: World<Comp> = World::new();
    let e1 = world.register_entity();
    world.add_component(e1, POSITION, Comp::Position { x: 1.0, y: 2.0 }).unwrap();
    world.add_component(e1, VELOCITY, Comp::Velocity { x: 0.0, y: 0.0 }).unwrap();

    let mut probe = RowProbe { runs: 0, rows: Vec::new() };
    assert_eq!(world.run_with(&mut probe), Ok(true));
    let first_rows = probe.rows.clone();
    assert_eq!(world.recompute_count(), 1);

    assert_eq!(world.run_with(&mut probe), Ok(true));
    assert_eq!(probe.rows, first_rows);
    assert_eq!(probe.runs, 2);
    assert_eq!(world.recompute_count(), 1);
}

#[test]
fn add_of_required_type_invalidates_the_cache() {
    let mut world: World<Comp> = World::new();
    let e1 = world.register_entity();
    let e2 = world.register_entity();
    world.add_component(e1, POSITION, Comp::Position { x: 1.0, y: 0.0 }).unwrap();
    world.add_component(e1, VELOCITY, Comp::Velocity { x: 0.0, y: 0.0 }).unwrap();
    world.add_component(e2, POSITION, Comp::Position { x: 2.0, y: 0.0 }).unwrap();

    let mut probe = RowProbe { runs: 0, rows: Vec::new() };
    assert_eq!(world.run_with(&mut probe), Ok(true));
    assert_eq!(probe.rows.len(), 1);
    assert_eq!(world.recompute_count(), 1);

    world.add_component(e2, VELOCITY, Comp::Velocity { x: 5.0, y: 0.0 }).unwrap();
    assert_eq!(world.run_with(&mut probe), Ok(true));
    assert_eq!(world.recompute_count(), 2);
    assert_eq!(probe.rows.len(), 2);
    let mut ids: Vec<EntityId> = probe.rows.iter().map(|r| r.0).collect();
    ids.sort();
    assert_eq!(ids, vec![e1, e2]);
}

#[test]
fn add_of_unrelated_type_keeps_the_cache() {
    let mut world: World<Comp> = World::new();
    let e1 = world.register_entity();
    world.add_component(e1, POSITION, Comp::Position { x: 1.0, y: 0.0 }).unwrap();
    world.add_component(e1, VELOCITY, Comp::Velocity { x: 0.0, y: 0.0 }).unwrap();

    let mut probe = RowProbe { runs: 0, rows: Vec::new() };
    assert_eq!(world.run_with(&mut probe), Ok(true));
    assert_eq!(world.recompute_count(), 1);

    world.add_component(e1, ACCELERATION, Comp::Acceleration { x: 0.0, y: 0.0 }).unwrap();
    assert_eq!(world.run_with(&mut probe), Ok(true));
    assert_eq!(world.recompute_count(), 1);
}

/// Claims the same required type twice and records what the second claim
/// returned.
struct DoubleClaimProbe {
    second: Option<Result<Vec<usize>, SystemFault>>,
}

impl System<Comp> for DoubleClaimProbe {
    fn id(&self) -> SystemId {
        3
    }

    fn needed_components(&self) -> Vec<ComponentId> {
        vec![POSITION]
    }

    fn run(&mut self, _store: &mut ComponentStore<Comp>, mut comps: ComponentSet) {
        let first = comps.get_components(POSITION);
        assert!(first.is_ok());
        self.second = Some(comps.get_components(POSITION));
    }
}

#[test]
fn double_claim_is_detected() {
    let mut world: World<Comp> = World::new();
    let e1 = world.register_entity();
    world.add_component(e1, POSITION, Comp::Position { x: 1.0, y: 1.0 }).unwrap();

    let mut probe = DoubleClaimProbe { second: None };
    assert_eq!(world.run_with(&mut probe), Ok(true));
    assert_eq!(probe.second, Some(Err(SystemFault::DoubleClaim(POSITION))));
}

/// Declares the same required type twice.
struct BrokenSystem {}

impl System<Comp> for BrokenSystem {
    fn id(&self) -> SystemId {
        4
    }

    fn needed_components(&self) -> Vec<ComponentId> {
        vec![POSITION, POSITION]
    }

    fn run(&mut self, _store: &mut ComponentStore<Comp>, _comps: ComponentSet) {
        panic!("a system with a duplicate required set must never run");
    }
}

#[test]
fn duplicate_required_set_is_refused() {
    let mut world: World<Comp> = World::new();
    let e1 = world.register_entity();
    world.add_component(e1, POSITION, Comp::Position { x: 0.0, y: 0.0 }).unwrap();

    let mut broken = BrokenSystem {};
    assert_eq!(
        world.run_with(&mut broken),
        Err(SystemFault::DuplicateRequirement(POSITION))
    );
}

/// Requires nothing, so it never runs.
struct IdleSystem {}

impl System<Comp> for IdleSystem {
    fn id(&self) -> SystemId {
        5
    }

    fn needed_components(&self) -> Vec<ComponentId> {
        Vec::new()
    }

    fn run(&mut self, _store: &mut ComponentStore<Comp>, _comps: ComponentSet) {
        panic!("a system requiring nothing must never run");
    }
}

#[test]
fn empty_required_set_matches_nothing() {
    let mut world: World<Comp> = World::new();
    let e1 = world.register_entity();
    world.add_component(e1, POSITION, Comp::Position { x: 0.0, y: 0.0 }).unwrap();

    let mut idle = IdleSystem {};
    assert_eq!(world.run_with(&mut idle), Ok(false));
}

#[test]
fn movement_updates_values_each_run() {
    let mut world: World<Comp> = World::new();
    let e = world.register_entity();
    world.add_component(e, POSITION, Comp::Position { x: 0.0, y: 0.0 }).unwrap();
    world.add_component(e, VELOCITY, Comp::Velocity { x: 1.0, y: 2.0 }).unwrap();
    world.add_component(e, ACCELERATION, Comp::Acceleration { x: 1.0, y: 0.0 }).unwrap();

    let mut system = MovementSystem { runs: 0 };
    world.run_with(&mut system).unwrap();
    assert_eq!(world.get_component(e, POSITION), Some(&Comp::Position { x: 1.0, y: 2.0 }));
    assert_eq!(world.get_component(e, VELOCITY), Some(&Comp::Velocity { x: 2.0, y: 2.0 }));

    world.run_with(&mut system).unwrap();
    assert_eq!(world.get_component(e, POSITION), Some(&Comp::Position { x: 3.0, y: 4.0 }));
    assert_eq!(world.get_component(e, VELOCITY), Some(&Comp::Velocity { x: 3.0, y: 2.0 }));
    assert_eq!(system.runs, 2);
}
