use nimbus_ecs::events::{EventReader, EventStorage, EventWriter, Events};
use nimbus_ecs::world::World;

#[derive(Clone, Debug, PartialEq)]
struct TestEvent {
    value: i32,
}

const TEST_EVENT: u64 = 7;

#[test]
fn events_single_buffer() {
    let mut events = Events::<TestEvent>::new();

    events.send(TestEvent { value: 1 });
    events.send(TestEvent { value: 2 });

    assert_eq!(events.len(), 2);
    let values: Vec<_> = events.iter().iter().map(|e| e.value).collect();
    assert_eq!(values, vec![1, 2]);

    events.clear();
    assert!(events.is_empty());

    events.send(TestEvent { value: 3 });
    assert_eq!(events.len(), 1);
    assert_eq!(events.iter().first().unwrap().value, 3);
}

#[test]
fn event_storage_clear_all() {
    let mut storage = EventStorage::new();

    {
        let events = storage.ensure_queue(TEST_EVENT);
        events.send(TestEvent { value: 42 });
    }

    {
        let events = storage.queue(TEST_EVENT).unwrap();
        assert_eq!(events.len(), 1);
    }

    storage.clear_all();

    {
        let events = storage.queue(TEST_EVENT).unwrap();
        assert!(events.is_empty());
    }
}

#[test]
fn storage_has_no_queue_before_first_use() {
    let mut storage: EventStorage<TestEvent> = EventStorage::new();
    assert!(storage.queue(TEST_EVENT).is_none());
    storage.ensure_queue(TEST_EVENT);
    assert!(storage.queue(TEST_EVENT).unwrap().is_empty());
    assert!(storage.queue(TEST_EVENT + 1).is_none());
}

#[test]
fn writer_appends_in_order() {
    let mut events = Events::new();
    events.send(TestEvent { value: 1 });
    {
        let mut writer = EventWriter::new(&mut events);
        writer.send(TestEvent { value: 2 });
        writer.send_batch(vec![TestEvent { value: 3 }, TestEvent { value: 4 }]);
    }
    let values: Vec<_> = events.iter().iter().map(|e| e.value).collect();
    assert_eq!(values, vec![1, 2, 3, 4]);
}

#[test]
fn reader_sees_events_in_order() {
    let mut events = Events::new();
    events.send(TestEvent { value: 10 });
    events.send(TestEvent { value: 20 });
    let reader = EventReader::new(&events);
    assert_eq!(reader.len(), 2);
    assert!(!reader.is_empty());
    let mut it = reader.iter();
    assert_eq!(it.size_hint(), (2, Some(2)));
    assert_eq!(it.next().unwrap().value, 10);
    assert_eq!(it.next().unwrap().value, 20);
    assert!(it.next().is_none());
    assert!(it.next().is_none());
}

#[test]
fn world_events_live_until_cleared() {
    let mut world: World<TestEvent> = World::new();
    world.events_mut().ensure_queue(TEST_EVENT).send(TestEvent { value: 5 });
    assert_eq!(world.events().queue(TEST_EVENT).unwrap().len(), 1);
    world.events_mut().clear_all();
    assert!(world.events().queue(TEST_EVENT).unwrap().is_empty());
}
