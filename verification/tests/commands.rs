use nimbus_ecs::commands::parallel::ParallelCommandBuffers;
use nimbus_ecs::commands::queue::{align_up, CommandQueue};
use nimbus_ecs::commands::{Commands, WorldCommand};
use nimbus_ecs::component::ComponentId;
use nimbus_ecs::entity::Entity;
use nimbus_ecs::world::World;
use std::sync::atomic::{AtomicUsize, Ordering};
use std::sync::Arc;

const AMOUNT: ComponentId = ComponentId(1);
const NAME: ComponentId = ComponentId(2);

#[derive(Debug)]
enum Val {
    Amount(i32),
    Name(&'static str),
    Tracker(DropTracker),
}

#[derive(Debug)]
struct DropTracker {
    dropped: Arc<AtomicUsize>,
}

impl Drop for DropTracker {
    fn drop(&mut self) {
        self.dropped.fetch_add(1, Ordering::SeqCst);
    }
}

fn total_amount(world: &World<Val>) -> i32 {
    world
        .matching_entities(&[AMOUNT], &[])
        .iter()
        .map(|&e| match world.get(e, AMOUNT) {
            Some(Val::Amount(n)) => *n,
            _ => 0,
        })
        .sum()
}

#[test]
fn parallel_buffers_basic() {
    let mut buffers: ParallelCommandBuffers<Val> = ParallelCommandBuffers::new(4);
    assert_eq!(buffers.capacity(), 4);
    assert_eq!(buffers.claimed_count(), 0);

    let _b1 = buffers.claim();
    let _b2 = buffers.claim();
    assert_eq!(buffers.claimed_count(), 2);

    buffers.reset();
    assert_eq!(buffers.claimed_count(), 0);
}

#[test]
fn parallel_buffers_flush() {
    let mut world = World::new();
    let mut buffers = ParallelCommandBuffers::new(4);

    {
        let b1 = buffers.claim();
        b1.push(WorldCommand::Spawn(vec![(AMOUNT, Val::Amount(10))]));

        let b2 = buffers.claim();
        b2.push(WorldCommand::Spawn(vec![(AMOUNT, Val::Amount(20))]));
        b2.push(WorldCommand::Spawn(vec![(AMOUNT, Val::Amount(5))]));
    }

    assert_eq!(buffers.claimed_count(), 2);

    buffers.flush(&mut world);

    assert_eq!(total_amount(&world), 35);

    assert_eq!(buffers.claimed_count(), 0);
}

#[test]
fn queue_applies_commands_in_order() {
    let mut world = World::new();

    let mut queue = CommandQueue::new();
    queue.push(WorldCommand::Spawn(vec![(AMOUNT, Val::Amount(1))]));
    queue.push(WorldCommand::Spawn(vec![(AMOUNT, Val::Amount(2))]));
    queue.push(WorldCommand::Spawn(vec![(AMOUNT, Val::Amount(3))]));

    assert_eq!(queue.len(), 3);
    queue.apply(&mut world);
    assert_eq!(queue.len(), 0);
    assert_eq!(total_amount(&world), 6);
}

#[test]
fn later_insert_of_one_component_wins() {
    let mut world = World::new();
    let e = world.spawn();

    let mut queue = CommandQueue::new();
    queue.push(WorldCommand::Insert(e, AMOUNT, Val::Amount(1)));
    queue.push(WorldCommand::Insert(e, AMOUNT, Val::Amount(2)));
    queue.push(WorldCommand::Insert(e, AMOUNT, Val::Amount(3)));
    queue.apply(&mut world);
    assert!(matches!(world.get(e, AMOUNT), Some(Val::Amount(3))));
}

#[test]
fn despawns_queued_before_a_spawn_apply_after_it() {
    let mut world = World::new();
    let olds: Vec<Entity> = (0..20).map(|_| world.spawn()).collect();

    let mut queue = CommandQueue::new();
    for &e in &olds {
        queue.push(WorldCommand::Despawn(e));
    }
    queue.push(WorldCommand::Spawn(vec![(AMOUNT, Val::Amount(7))]));
    queue.apply(&mut world);
    // The spawn ran first, so it took a fresh slot rather than a freed one.
    assert!(olds.iter().all(|&e| !world.is_alive(e)));
    let alive = world.matching_entities(&[AMOUNT], &[]);
    assert_eq!(alive.len(), 1);
    assert_eq!(alive[0].index(), 20);
    assert_eq!(total_amount(&world), 7);
}

#[test]
fn queue_drops_unapplied_commands() {
    let dropped = Arc::new(AtomicUsize::new(0));
    let e = Entity::from_raw(0, 0);

    {
        let mut queue = CommandQueue::new();
        queue.push(WorldCommand::Insert(e, AMOUNT, Val::Tracker(DropTracker { dropped: dropped.clone() })));
        queue.push(WorldCommand::Insert(e, AMOUNT, Val::Tracker(DropTracker { dropped: dropped.clone() })));
    }

    assert_eq!(dropped.load(Ordering::SeqCst), 2);
}

#[test]
fn queue_clear_drops_commands() {
    let dropped = Arc::new(AtomicUsize::new(0));
    let e = Entity::from_raw(0, 0);

    let mut queue = CommandQueue::new();
    queue.push(WorldCommand::Insert(e, AMOUNT, Val::Tracker(DropTracker { dropped: dropped.clone() })));
    queue.push(WorldCommand::Insert(e, AMOUNT, Val::Tracker(DropTracker { dropped: dropped.clone() })));

    queue.clear();

    assert_eq!(dropped.load(Ordering::SeqCst), 2);
    assert!(queue.is_empty());
}

#[test]
fn commands_record_in_order() {
    let mut world = World::new();
    let target = world.spawn_with(vec![(AMOUNT, Val::Amount(1)), (NAME, Val::Name("a"))]);
    let mut queue = CommandQueue::new();
    {
        let mut commands = Commands::new(&mut queue);
        commands.spawn(vec![(AMOUNT, Val::Amount(4))]);
        let placeholder = commands.spawn_empty();
        assert_eq!(placeholder, Entity::placeholder());
        commands.insert(target, AMOUNT, Val::Amount(7));
        commands.remove(target, NAME);
    }
    assert_eq!(queue.len(), 4);
    queue.apply(&mut world);
    assert!(queue.is_empty());
    assert!(matches!(world.get(target, AMOUNT), Some(Val::Amount(7))));
    assert!(world.get(target, NAME).is_none());
    assert_eq!(total_amount(&world), 11);
    assert_eq!(world.matching_entities(&[], &[]).len(), 3);
}

#[test]
fn despawn_command_removes_entity() {
    let mut world = World::new();
    let e = world.spawn_with(vec![(AMOUNT, Val::Amount(1))]);
    let mut queue = CommandQueue::new();
    queue.push(WorldCommand::Despawn(e));
    queue.push(WorldCommand::Insert(e, NAME, Val::Name("gone")));
    queue.apply(&mut world);
    assert!(!world.is_alive(e));
}

#[test]
fn many_runs_of_the_same_kind_apply_all() {
    let mut world = World::new();
    let mut queue = CommandQueue::new();
    for i in 0..50 {
        if i % 2 == 0 {
            queue.push(WorldCommand::Spawn(vec![(AMOUNT, Val::Amount(1))]));
        } else {
            queue.push(WorldCommand::SpawnEmpty);
        }
    }
    queue.apply(&mut world);
    assert_eq!(total_amount(&world), 25);
    assert_eq!(world.matching_entities(&[], &[]).len(), 50);
}

#[test]
fn align_up_rounds_to_the_next_multiple() {
    assert_eq!(align_up(0, 4), 0);
    assert_eq!(align_up(5, 8), 8);
    assert_eq!(align_up(8, 8), 8);
    assert_eq!(align_up(9, 8), 16);
    assert_eq!(align_up(9, 1), 9);
    assert_eq!(align_up(17, 16), 32);
}
