use nimbus_ecs::archetype::ArchetypeKey;
use nimbus_ecs::component::ComponentId;

#[test]
fn archetype_key_iteration() {
    let types = vec![ComponentId(30), ComponentId(10), ComponentId(20)];
    let key = ArchetypeKey::new(types.clone());

    assert_eq!(key.len(), 3);
    assert!(!key.is_empty());

    let collected: Vec<ComponentId> = key.iter();
    assert_eq!(collected.len(), 3);
    assert!(collected.contains(&ComponentId(30)));
    assert!(collected.contains(&ComponentId(10)));
    assert!(collected.contains(&ComponentId(20)));

    let mut count = 0;
    for type_id in key.iter() {
        assert!(key.contains(type_id));
        count += 1;
    }
    assert_eq!(count, 3);

    let empty_key = ArchetypeKey::default();
    assert_eq!(empty_key.len(), 0);
    assert!(empty_key.is_empty());
    assert_eq!(empty_key.iter().len(), 0);
}

#[test]
fn key_is_sorted_and_deduplicated() {
    let key = ArchetypeKey::new(vec![ComponentId(5), ComponentId(1), ComponentId(5), ComponentId(3)]);
    assert_eq!(key.iter(), vec![ComponentId(1), ComponentId(3), ComponentId(5)]);
    assert_eq!(key.position(ComponentId(3)), Some(1));
    assert_eq!(key.position(ComponentId(4)), None);
    assert!(key.contains_all(&[ComponentId(1), ComponentId(5)]));
    assert!(!key.contains_all(&[ComponentId(1), ComponentId(2)]));
}

#[test]
fn key_with_and_without_types() {
    let key = ArchetypeKey::new(vec![ComponentId(2)]);
    let bigger = key.with_type(ComponentId(1)).unwrap();
    assert_eq!(bigger.iter(), vec![ComponentId(1), ComponentId(2)]);
    assert!(key.with_type(ComponentId(2)).is_none());
    let smaller = bigger.without_type(ComponentId(2)).unwrap();
    assert_eq!(smaller.iter(), vec![ComponentId(1)]);
    assert!(smaller.without_type(ComponentId(2)).is_none());
    let many = key.with_types(&[ComponentId(3), ComponentId(2)]).unwrap();
    assert_eq!(many.iter(), vec![ComponentId(2), ComponentId(3)]);
    assert!(key.with_types(&[ComponentId(2)]).is_none());
    assert!(many.same_types(&many.duplicate()));
    assert!(!many.same_types(&key));
}
