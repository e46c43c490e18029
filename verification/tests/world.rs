use nimbus_ecs::component::ComponentId;
use nimbus_ecs::entity::Entity;
use nimbus_ecs::world::{World, WorldError};
use std::sync::atomic::{AtomicUsize, Ordering};
use std::sync::Arc;

const POSITION: ComponentId = ComponentId(1);
const VELOCITY: ComponentId = ComponentId(2);
const ACCELERATION: ComponentId = ComponentId(3);
const TRACKER: ComponentId = ComponentId(10);
const TRACKER2: ComponentId = ComponentId(11);
const TAG: ComponentId = ComponentId(12);

/// Component values of the tests.
#[derive(Debug)]
enum Val {
    Position { x: f32, y: f32 },
    Velocity { x: f32, y: f32 },
    Acceleration { x: f32, y: f32 },
    Tracker(DropTracker),
    Tag,
}

/// Counts how often it is dropped.
#[derive(Debug)]
struct DropTracker {
    drop_count: Arc<AtomicUsize>,
}

impl Drop for DropTracker {
    fn drop(&mut self) {
        self.drop_count.fetch_add(1, Ordering::SeqCst);
    }
}

fn pos(x: f32, y: f32) -> (ComponentId, Val) {
    (POSITION, Val::Position { x, y })
}

fn vel(x: f32, y: f32) -> (ComponentId, Val) {
    (VELOCITY, Val::Velocity { x, y })
}

fn tracker(id: ComponentId, count: &Arc<AtomicUsize>) -> (ComponentId, Val) {
    (id, Val::Tracker(DropTracker { drop_count: count.clone() }))
}

fn position_of(world: &World<Val>, e: Entity) -> Option<(f32, f32)> {
    match world.get(e, POSITION) {
        Some(Val::Position { x, y }) => Some((*x, *y)),
        _ => None,
    }
}

fn velocity_of(world: &World<Val>, e: Entity) -> Option<(f32, f32)> {
    match world.get(e, VELOCITY) {
        Some(Val::Velocity { x, y }) => Some((*x, *y)),
        _ => None,
    }
}

fn acceleration_of(world: &World<Val>, e: Entity) -> Option<(f32, f32)> {
    match world.get(e, ACCELERATION) {
        Some(Val::Acceleration { x, y }) => Some((*x, *y)),
        _ => None,
    }
}

#[test]
fn spawn_and_get_component() {
    let mut world = World::new();
    let e = world.spawn_with(vec![pos(1.0, 2.0)]);

    assert_eq!(position_of(&world, e).unwrap(), (1.0, 2.0));
}

#[test]
fn spawn_with_bundle() {
    let mut world = World::new();
    let e = world.spawn_with(vec![pos(5.0, -3.0), vel(0.25, 0.75)]);

    assert_eq!(position_of(&world, e).unwrap(), (5.0, -3.0));
    assert_eq!(velocity_of(&world, e).unwrap(), (0.25, 0.75));
}

#[test]
fn despawn_entity() {
    let mut world = World::new();
    let e = world.spawn_with(vec![pos(1.0, 2.0)]);

    assert!(world.get(e, POSITION).is_some());
    assert!(world.despawn(e));
    assert!(world.get(e, POSITION).is_none());
}

#[test]
fn insert_replaces_component() {
    let mut world = World::new();
    let e = world.spawn_with(vec![pos(1.0, 2.0)]);

    world.insert(e, POSITION, Val::Position { x: 10.0, y: 20.0 }).unwrap();

    assert_eq!(position_of(&world, e).unwrap(), (10.0, 20.0));
}

#[test]
fn insert_new_component_preserves_existing() {
    let mut world = World::new();

    let e = world.spawn_with(vec![pos(42.0, 99.0)]);

    assert_eq!(position_of(&world, e).unwrap(), (42.0, 99.0));
    assert!(world.get(e, VELOCITY).is_none());

    world.insert(e, VELOCITY, Val::Velocity { x: 1.5, y: 2.5 }).unwrap();

    assert_eq!(position_of(&world, e).unwrap(), (42.0, 99.0));
    assert_eq!(velocity_of(&world, e).unwrap(), (1.5, 2.5));

    world.insert(e, ACCELERATION, Val::Acceleration { x: 0.1, y: 0.2 }).unwrap();

    assert_eq!(position_of(&world, e).unwrap(), (42.0, 99.0));
    assert_eq!(velocity_of(&world, e).unwrap(), (1.5, 2.5));
    assert_eq!(acceleration_of(&world, e).unwrap(), (0.1, 0.2));
}

#[test]
fn spawn_batch_creates_multiple_entities() {
    let mut world = World::new();

    let positions = vec![vec![pos(0.0, 0.0)], vec![pos(1.0, 1.0)], vec![pos(2.0, 2.0)]];
    let entities = world.spawn_batch(positions);

    assert_eq!(entities.len(), 3);
    assert_eq!(position_of(&world, entities[0]).unwrap().0, 0.0);
    assert_eq!(position_of(&world, entities[1]).unwrap().0, 1.0);
    assert_eq!(position_of(&world, entities[2]).unwrap().0, 2.0);

    let bundles: Vec<Vec<(ComponentId, Val)>> = (0..5)
        .map(|i| vec![pos(i as f32, i as f32 * 2.0), vel(0.1 * i as f32, 0.2 * i as f32)])
        .collect();
    let entities = world.spawn_batch(bundles);

    assert_eq!(entities.len(), 5);
    for (i, &e) in entities.iter().enumerate() {
        let (px, py) = position_of(&world, e).unwrap();
        let (vx, vy) = velocity_of(&world, e).unwrap();
        assert_eq!(px, i as f32);
        assert_eq!(py, i as f32 * 2.0);
        assert_eq!(vx, 0.1 * i as f32);
        assert_eq!(vy, 0.2 * i as f32);
    }

    assert_eq!(world.matching_entities(&[POSITION], &[]).len(), 8);
}

#[test]
fn spawn_batch_empty_returns_empty() {
    let mut world: World<Val> = World::new();
    let entities = world.spawn_batch(Vec::new());
    assert!(entities.is_empty());
}

#[test]
fn remove_component_preserves_other_components() {
    let mut world = World::new();
    let entity = world.spawn_with(vec![pos(1.0, 2.0), vel(3.0, 4.0)]);

    assert!(world.get(entity, POSITION).is_some());
    assert!(world.get(entity, VELOCITY).is_some());

    let removed = world.remove(entity, VELOCITY);
    assert!(removed.is_some());
    match removed.unwrap() {
        Val::Velocity { x, .. } => assert_eq!(x, 3.0),
        _ => panic!("removed the wrong component"),
    }

    assert_eq!(position_of(&world, entity).unwrap(), (1.0, 2.0));
    assert!(world.get(entity, VELOCITY).is_none());
}

#[test]
fn add_component_transition_does_not_double_drop() {
    let drop_count = Arc::new(AtomicUsize::new(0));

    {
        let mut world = World::new();
        let entity = world.spawn_with(vec![tracker(TRACKER, &drop_count)]);
        let _ = world.insert(entity, TAG, Val::Tag);

        assert!(world.get(entity, TRACKER).is_some());
        assert!(world.get(entity, TAG).is_some());
        assert_eq!(drop_count.load(Ordering::SeqCst), 0, "Component dropped during add transition!");
    }

    assert_eq!(drop_count.load(Ordering::SeqCst), 1, "Component not dropped when world dropped");
}

#[test]
fn remove_component_does_not_double_drop_others() {
    let drop_count_a = Arc::new(AtomicUsize::new(0));
    let drop_count_b = Arc::new(AtomicUsize::new(0));

    {
        let mut world = World::new();
        let entity = world.spawn_with(vec![tracker(TRACKER, &drop_count_a), tracker(TRACKER2, &drop_count_b)]);

        let removed = world.remove(entity, TRACKER2);
        assert!(removed.is_some());
        drop(removed);
        assert_eq!(drop_count_b.load(Ordering::SeqCst), 1, "Removed component should drop once");
        assert_eq!(drop_count_a.load(Ordering::SeqCst), 0, "Remaining component dropped during remove transition!");
        assert!(world.get(entity, TRACKER).is_some());
    }

    assert_eq!(drop_count_a.load(Ordering::SeqCst), 1, "Remaining component not dropped when world dropped");
}

#[test]
fn add_bundle_transition_does_not_double_drop() {
    let drop_count = Arc::new(AtomicUsize::new(0));

    {
        let mut world = World::new();
        let entity = world.spawn_with(vec![tracker(TRACKER, &drop_count)]);
        let _ = world.insert_bundle(entity, vec![pos(1.0, 2.0), vel(3.0, 4.0)]);

        assert!(world.get(entity, TRACKER).is_some());
        assert!(world.get(entity, POSITION).is_some());
        assert!(world.get(entity, VELOCITY).is_some());
        assert_eq!(drop_count.load(Ordering::SeqCst), 0, "Component dropped during bundle add transition!");
    }

    assert_eq!(drop_count.load(Ordering::SeqCst), 1, "Component not dropped when world dropped");
}

#[test]
fn overwrite_bundle_drops_old_values() {
    let drop_count = Arc::new(AtomicUsize::new(0));

    {
        let mut world = World::new();
        let entity = world.spawn_with(vec![tracker(TRACKER, &drop_count)]);
        let _ = world.insert_bundle(entity, vec![tracker(TRACKER, &drop_count)]);

        assert_eq!(drop_count.load(Ordering::SeqCst), 1, "Old component not dropped during overwrite!");
        assert!(world.get(entity, TRACKER).is_some());
    }

    assert_eq!(drop_count.load(Ordering::SeqCst), 2, "New component not dropped when world dropped");
}

#[test]
fn despawn_drops_all_components() {
    let drop_count_a = Arc::new(AtomicUsize::new(0));
    let drop_count_b = Arc::new(AtomicUsize::new(0));

    let mut world = World::new();
    let entity = world.spawn_with(vec![tracker(TRACKER, &drop_count_a), tracker(TRACKER2, &drop_count_b)]);

    assert_eq!(drop_count_a.load(Ordering::SeqCst), 0);
    assert_eq!(drop_count_b.load(Ordering::SeqCst), 0);

    world.despawn(entity);

    assert_eq!(drop_count_a.load(Ordering::SeqCst), 1, "Component A not dropped on despawn");
    assert_eq!(drop_count_b.load(Ordering::SeqCst), 1, "Component B not dropped on despawn");
}

#[test]
fn world_drop_cleans_up_all_entities() {
    let drop_count = Arc::new(AtomicUsize::new(0));

    {
        let mut world = World::new();
        for _ in 0..10 {
            world.spawn_with(vec![tracker(TRACKER, &drop_count)]);
        }
        assert_eq!(drop_count.load(Ordering::SeqCst), 0);
    }

    assert_eq!(drop_count.load(Ordering::SeqCst), 10, "Not all components dropped when world dropped");
}

#[test]
fn multiple_archetype_transitions_no_extra_drops() {
    let drop_count = Arc::new(AtomicUsize::new(0));

    {
        let mut world = World::new();
        let entity = world.spawn_with(vec![tracker(TRACKER, &drop_count)]);
        assert_eq!(drop_count.load(Ordering::SeqCst), 0);

        let _ = world.insert(entity, POSITION, Val::Position { x: 1.0, y: 2.0 });
        assert_eq!(drop_count.load(Ordering::SeqCst), 0, "Dropped during transition 1");

        let _ = world.insert(entity, VELOCITY, Val::Velocity { x: 3.0, y: 4.0 });
        assert_eq!(drop_count.load(Ordering::SeqCst), 0, "Dropped during transition 2");

        world.remove(entity, POSITION);
        assert_eq!(drop_count.load(Ordering::SeqCst), 0, "Dropped during transition 3");

        let _ = world.insert(entity, POSITION, Val::Position { x: 5.0, y: 6.0 });
        assert_eq!(drop_count.load(Ordering::SeqCst), 0, "Dropped during transition 4");

        assert!(world.get(entity, TRACKER).is_some());
    }

    assert_eq!(drop_count.load(Ordering::SeqCst), 1, "Component not dropped when world dropped");
}

#[test]
fn insert_on_dead_entity_fails() {
    let mut world = World::new();
    let e = world.spawn_with(vec![pos(1.0, 2.0)]);
    assert!(world.despawn(e));
    assert_eq!(world.insert(e, POSITION, Val::Position { x: 0.0, y: 0.0 }).unwrap_err(), WorldError::EntityNotAlive(e));
    assert_eq!(world.insert_bundle(e, vec![vel(0.0, 0.0)]).unwrap_err(), WorldError::EntityNotAlive(e));
    assert!(!world.despawn(e));
    assert!(world.remove(e, POSITION).is_none());
}

#[test]
fn insert_then_get_gives_the_value() {
    let mut world = World::new();
    let e = world.spawn();
    world.insert(e, VELOCITY, Val::Velocity { x: 7.0, y: 8.0 }).unwrap();
    assert_eq!(velocity_of(&world, e).unwrap(), (7.0, 8.0));
    assert!(world.contains(e, VELOCITY));
    assert!(!world.contains(e, POSITION));
}

#[test]
fn insert_then_remove_leaves_others() {
    let mut world = World::new();
    let e = world.spawn_with(vec![pos(1.0, 1.0)]);
    world.insert(e, VELOCITY, Val::Velocity { x: 2.0, y: 2.0 }).unwrap();
    assert!(world.remove(e, VELOCITY).is_some());
    assert_eq!(position_of(&world, e).unwrap(), (1.0, 1.0));
    assert!(world.remove(e, VELOCITY).is_none());
}

#[test]
fn despawned_slot_is_reused_with_new_generation() {
    let mut world: World<Val> = World::new();
    let a = world.spawn();
    assert!(world.despawn(a));
    let b = world.spawn();
    assert_eq!(b.index, a.index);
    assert_ne!(b.generation, a.generation);
    assert!(!world.is_alive(a));
    assert!(world.is_alive(b));
}

#[test]
fn get_mut_changes_the_value() {
    let mut world = World::new();
    let e = world.spawn_with(vec![pos(1.0, 2.0)]);
    if let Some(Val::Position { x, .. }) = world.get_mut(e, POSITION) {
        *x = 9.0;
    }
    assert_eq!(position_of(&world, e).unwrap(), (9.0, 2.0));
    assert!(world.get_mut(e, VELOCITY).is_none());
}

#[test]
fn singletons_roundtrip() {
    let mut world = World::new();
    assert!(world.get_singleton(5).is_none());
    world.insert_singleton(5, Val::Tag);
    assert!(matches!(world.get_singleton(5), Some(Val::Tag)));
    world.insert_singleton(5, Val::Position { x: 10.0, y: 0.0 });
    if let Some(Val::Position { x, .. }) = world.get_singleton_mut(5) {
        *x = 11.0;
    }
    match world.remove_singleton(5) {
        Some(Val::Position { x, .. }) => assert_eq!(x, 11.0),
        _ => panic!("singleton missing"),
    }
    assert!(world.remove_singleton(5).is_none());
}

#[test]
fn tick_advances_by_one() {
    let mut world: World<Val> = World::new();
    assert_eq!(world.tick(), 0);
    world.advance_tick();
    assert_eq!(world.tick(), 1);
    world.advance_tick();
    world.advance_tick();
    assert_eq!(world.tick(), 3);
}

#[test]
fn matching_entities_filters() {
    let mut world = World::new();
    let a = world.spawn_with(vec![pos(0.0, 0.0)]);
    let b = world.spawn_with(vec![pos(0.0, 0.0), vel(0.0, 0.0)]);
    let _c = world.spawn_with(vec![vel(0.0, 0.0)]);
    let with_pos = world.matching_entities(&[POSITION], &[]);
    assert_eq!(with_pos.len(), 2);
    assert!(with_pos.contains(&a) && with_pos.contains(&b));
    let only_pos = world.matching_entities(&[POSITION], &[VELOCITY]);
    assert_eq!(only_pos, vec![a]);
}

#[test]
fn batch_edits() {
    let mut world = World::new();
    let a = world.spawn_with(vec![pos(0.0, 0.0), vel(1.0, 1.0)]);
    let b = world.spawn_with(vec![pos(2.0, 2.0)]);
    world.insert_bundle_batch(vec![(a, vec![pos(5.0, 5.0)]), (b, vec![vel(3.0, 3.0)])]);
    assert_eq!(position_of(&world, a).unwrap(), (5.0, 5.0));
    assert_eq!(velocity_of(&world, b).unwrap(), (3.0, 3.0));
    world.remove_batch(&[a, b], VELOCITY);
    assert!(world.get(a, VELOCITY).is_none());
    assert!(world.get(b, VELOCITY).is_none());
    assert!(world.get(a, POSITION).is_some());
}

#[test]
fn spawns_reuse_the_most_recently_freed_index_first() {
    let mut world: World<Val> = World::new();
    let a = world.spawn();
    let b = world.spawn();
    let c = world.spawn();
    assert_eq!((a.index(), b.index(), c.index()), (0, 1, 2));
    assert!(world.despawn(b));
    assert!(world.despawn(c));
    let batch = world.spawn_batch(vec![Vec::new(), Vec::new(), Vec::new()]);
    let handles: Vec<(u32, u32)> = batch.iter().map(|e| (e.index(), e.generation())).collect();
    assert_eq!(handles, vec![(2, 1), (1, 1), (3, 0)]);
    let d = world.spawn_with(Vec::new());
    assert_eq!((d.index(), d.generation()), (4, 0));
}
