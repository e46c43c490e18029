use nimbus_ecs::archetype::{Archetype, ArchetypeKey, Archetypes};
use nimbus_ecs::component::ComponentId;
use nimbus_ecs::entity::Entity;

fn two_column_archetype() -> Archetype<i32> {
    let key = ArchetypeKey::new(vec![ComponentId::new(9), ComponentId::new(4)]);
    Archetype::new(key)
}

#[test]
fn rows_fill_columns_in_key_order() {
    let mut arch = two_column_archetype();
    let e0 = Entity::from_raw(0, 0);
    let e1 = Entity::from_raw(1, 0);
    assert_eq!(arch.push_row(e0, vec![40, 90]), 0);
    assert_eq!(arch.push_row(e1, vec![41, 91]), 1);
    assert_eq!(arch.len(), 2);
    assert_eq!(arch.entities(), &[e0, e1]);
    assert_eq!(arch.column(ComponentId::new(4)).unwrap().as_slice(), &[40, 41]);
    assert_eq!(arch.column(ComponentId::new(9)).unwrap().as_slice(), &[90, 91]);
    assert!(arch.column(ComponentId::new(5)).is_none());
    assert_eq!(arch.get(ComponentId::new(9), 1), Some(&91));
    assert_eq!(arch.get(ComponentId::new(9), 2), None);
}

#[test]
fn column_mut_writes_one_column() {
    let mut arch = two_column_archetype();
    arch.push_row(Entity::from_raw(0, 0), vec![1, 2]);
    arch.push_row(Entity::from_raw(1, 0), vec![3, 4]);
    {
        let col = arch.column_mut(ComponentId::new(4)).unwrap();
        col.set(1, 30);
    }
    assert!(arch.column_mut(ComponentId::new(7)).is_none());
    assert_eq!(arch.column(ComponentId::new(4)).unwrap().as_slice(), &[1, 30]);
    assert_eq!(arch.column(ComponentId::new(9)).unwrap().as_slice(), &[2, 4]);
}

#[test]
fn swap_remove_row_moves_last_row_in() {
    let mut arch = two_column_archetype();
    let e0 = Entity::from_raw(0, 0);
    let e1 = Entity::from_raw(1, 0);
    let e2 = Entity::from_raw(2, 0);
    arch.push_row(e0, vec![1, 2]);
    arch.push_row(e1, vec![3, 4]);
    arch.push_row(e2, vec![5, 6]);
    let (values, moved) = arch.swap_remove_row(0);
    assert_eq!(values, vec![1, 2]);
    assert_eq!(moved, Some(e2));
    assert_eq!(arch.entities(), &[e2, e1]);
    assert_eq!(arch.column(ComponentId::new(4)).unwrap().as_slice(), &[5, 3]);
    let (values, moved) = arch.swap_remove_row(1);
    assert_eq!(values, vec![3, 4]);
    assert_eq!(moved, None);
    assert_eq!(arch.entities(), &[e2]);
}

#[test]
fn adding_then_removing_an_id_returns_to_the_source() {
    let mut archetypes: Archetypes<i32> = Archetypes::new();
    let source = archetypes.ensure(ArchetypeKey::new(vec![ComponentId::new(3)]));
    let added = archetypes.get_add_target(source, ComponentId::new(8)).unwrap();
    assert_ne!(added, source);
    assert_eq!(archetypes.key(added).unwrap().iter(), vec![ComponentId::new(3), ComponentId::new(8)]);
    assert_eq!(archetypes.get_add_target(source, ComponentId::new(8)), Some(added));
    assert_eq!(archetypes.get_add_target(added, ComponentId::new(8)), None);
    assert_eq!(archetypes.get_remove_target(added, ComponentId::new(8)), Some(source));
    assert_eq!(archetypes.get_remove_target(source, ComponentId::new(8)), None);
}

#[test]
fn columns_are_created_on_first_use() {
    let key = ArchetypeKey::new(vec![ComponentId::new(9), ComponentId::new(4)]);
    let mut arch: Archetype<i32> = Archetype::new(key);
    assert_eq!(arch.len(), 0);
    assert!(arch.entities().is_empty());
    assert!(arch.columns().is_empty());
    assert!(arch.column(ComponentId::new(4)).is_none());
    assert_eq!(arch.get(ComponentId::new(4), 0), None);

    arch.push_component(ComponentId::new(9), 7);
    assert_eq!(arch.columns(), vec![ComponentId::new(9)]);
    assert_eq!(arch.column(ComponentId::new(9)).unwrap().as_slice(), &[7]);
    assert!(arch.column(ComponentId::new(4)).is_none());
    assert_eq!(arch.get(ComponentId::new(9), 0), Some(&7));
    assert_eq!(arch.get(ComponentId::new(9), 1), None);
}

#[test]
fn a_pushed_row_creates_every_column() {
    let mut arch = two_column_archetype();
    arch.push_row(Entity::from_raw(0, 0), vec![1, 2]);
    assert_eq!(arch.columns(), vec![ComponentId::new(4), ComponentId::new(9)]);
}

#[test]
fn pushing_a_component_outside_the_key_creates_its_column() {
    let mut arch = two_column_archetype();
    arch.push_component(ComponentId::new(6), 10);
    arch.push_component(ComponentId::new(6), 11);
    assert_eq!(arch.get(ComponentId::new(6), 0), Some(&10));
    assert_eq!(arch.get(ComponentId::new(6), 1), Some(&11));
    assert_eq!(arch.get(ComponentId::new(6), 2), None);
    assert_eq!(arch.column(ComponentId::new(6)).unwrap().as_slice(), &[10, 11]);
    assert_eq!(arch.columns(), vec![ComponentId::new(6)]);
    arch.set_component(1, ComponentId::new(6), 12);
    assert_eq!(arch.get(ComponentId::new(6), 1), Some(&12));
    *arch.get_mut(ComponentId::new(6), 0).unwrap() = 9;
    assert_eq!(arch.column(ComponentId::new(6)).unwrap().as_slice(), &[9, 12]);
}
