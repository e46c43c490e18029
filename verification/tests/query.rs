use nimbus_ecs::component::{Component, ComponentId};
use nimbus_ecs::query::{matching_nonempty, QueryFilter, QueryState, With, Without};
use nimbus_ecs::world::World;

const POSITION: ComponentId = ComponentId(1);
const VELOCITY: ComponentId = ComponentId(2);
const HEALTH: ComponentId = ComponentId(3);

struct Velocity;

impl Component for Velocity {
    fn spec_component_id() -> ComponentId {
        VELOCITY
    }

    fn component_id() -> ComponentId {
        VELOCITY
    }
}

struct Health;

impl Component for Health {
    fn spec_component_id() -> ComponentId {
        HEALTH
    }

    fn component_id() -> ComponentId {
        HEALTH
    }
}

fn entity_ids(world: &World<u8>, archetypes: &[usize]) -> usize {
    archetypes.iter().map(|&a| world.archetypes().get(a).unwrap().len()).sum()
}

#[test]
fn query_state_scans_new_archetypes() {
    let mut world: World<u8> = World::new();
    world.spawn_with(vec![(POSITION, 0)]);
    world.spawn_with(vec![(POSITION, 0), (VELOCITY, 0)]);
    let mut state = QueryState::new();
    state.update(world.archetypes(), &[POSITION], &[VELOCITY]);
    assert_eq!(state.matching().len(), 1);
    assert_eq!(entity_ids(&world, state.matching()), 1);

    world.spawn_with(vec![(POSITION, 0), (HEALTH, 0)]);
    world.spawn_with(vec![(HEALTH, 0)]);
    state.update(world.archetypes(), &[POSITION], &[VELOCITY]);
    assert_eq!(state.matching().len(), 2);
    assert_eq!(entity_ids(&world, state.matching()), 2);
    let found = state.matching().clone();
    assert!(found.windows(2).all(|w| w[0] < w[1]));
}

#[test]
fn query_filters_name_their_types() {
    assert_eq!(<With<Velocity> as QueryFilter>::required_types(), vec![VELOCITY]);
    assert!(<With<Velocity> as QueryFilter>::excluded_types().is_empty());
    assert_eq!(<Without<Health> as QueryFilter>::excluded_types(), vec![HEALTH]);
    assert_eq!(<(With<Velocity>, Without<Health>) as QueryFilter>::required_types(), vec![VELOCITY]);
    assert_eq!(<(With<Velocity>, Without<Health>) as QueryFilter>::excluded_types(), vec![HEALTH]);
    assert!(<() as QueryFilter>::required_types().is_empty());
}

#[test]
fn matching_skips_empty_archetypes() {
    let mut world: World<u8> = World::new();
    let a = world.spawn_with(vec![(POSITION, 0)]);
    world.spawn_with(vec![(POSITION, 0), (VELOCITY, 0)]);
    assert_eq!(matching_nonempty(world.archetypes(), &[POSITION], &[]).len(), 2);
    world.despawn(a);
    let left = matching_nonempty(world.archetypes(), &[POSITION], &[]);
    assert_eq!(left.len(), 1);
    assert_eq!(entity_ids(&world, &left), 1);
}
