use nimbus_ecs::task::TaskIds;

#[test]
fn task_id_unique() {
    let mut ids = TaskIds::new();
    let id1 = ids.next();
    let id2 = ids.next();
    let id3 = ids.next();

    assert_ne!(id1, id2);
    assert_ne!(id2, id3);
    assert_ne!(id1, id3);

    assert!(id1.as_u64() < id2.as_u64());
    assert!(id2.as_u64() < id3.as_u64());
}

#[test]
fn task_ids_start_at_zero() {
    let mut ids = TaskIds::new();
    assert_eq!(ids.next().as_u64(), 0);
    assert_eq!(ids.next().as_u64(), 1);
}
