use nimbus_ecs::component::ComponentId;
use nimbus_ecs::parallel_world::{check_conflict, AccessTracker, ParamAccess};
use nimbus_ecs::scheduler::parallel::{ParallelPass, SystemAccess};
use nimbus_ecs::scheduler::{SystemId, SystemIds};

const POSITION: ComponentId = ComponentId(1);
const VELOCITY: ComponentId = ComponentId(2);
const HEALTH: ComponentId = ComponentId(3);

#[test]
fn access_tracker_multiple_readers() {
    let mut tracker = AccessTracker::new("Test");

    tracker.acquire_read();
    tracker.acquire_read();
    tracker.acquire_read();

    assert!(tracker.is_accessed());

    tracker.release_read();
    tracker.release_read();
    tracker.release_read();

    assert!(!tracker.is_accessed());
}

#[test]
fn access_tracker_exclusive_writer() {
    let mut tracker = AccessTracker::new("Test");

    tracker.acquire_write();
    assert!(tracker.is_accessed());

    tracker.release_write();
    assert!(!tracker.is_accessed());
}

#[test]
fn access_tracker_reports_writer_and_name() {
    let mut tracker = AccessTracker::new("Position");
    assert_eq!(tracker.resource_name(), "Position");
    assert!(!tracker.is_written());
    tracker.acquire_read();
    assert!(!tracker.is_written());
    tracker.release_read();
    tracker.acquire_write();
    assert!(tracker.is_written());
}

#[test]
fn param_access_conflict_detection() {
    let a = ParamAccess { reads: vec![POSITION, VELOCITY], writes: vec![], exclusive: false };
    let b = ParamAccess { reads: vec![POSITION], writes: vec![], exclusive: false };
    assert!(!a.conflicts_with(&b));

    let c = ParamAccess { reads: vec![POSITION], writes: vec![], exclusive: false };
    let d = ParamAccess { reads: vec![], writes: vec![POSITION], exclusive: false };
    assert!(c.conflicts_with(&d));

    let e = ParamAccess { reads: vec![], writes: vec![HEALTH], exclusive: false };
    let f = ParamAccess { reads: vec![POSITION], writes: vec![], exclusive: false };
    assert!(!e.conflicts_with(&f));

    let g = ParamAccess::exclusive();
    assert!(g.conflicts_with(&a));
    assert!(g.conflicts_with(&ParamAccess::none()));
}

#[test]
fn conflict_is_symmetric_on_examples() {
    let r = ParamAccess { reads: vec![POSITION], writes: vec![], exclusive: false };
    let w = ParamAccess { reads: vec![], writes: vec![POSITION], exclusive: false };
    assert_eq!(r.conflicts_with(&w), w.conflicts_with(&r));
    assert!(check_conflict(&vec![], &vec![POSITION], false, &vec![POSITION], &vec![], false));
    assert!(!check_conflict(&vec![VELOCITY], &vec![], false, &vec![POSITION], &vec![], false));
}

#[test]
fn merged_access_conflicts_like_its_parts() {
    let mut merged = ParamAccess::none();
    merged.merge(&ParamAccess { reads: vec![POSITION], writes: vec![], exclusive: false });
    merged.merge(&ParamAccess { reads: vec![], writes: vec![HEALTH], exclusive: false });
    assert_eq!(merged.reads, vec![POSITION]);
    assert_eq!(merged.writes, vec![HEALTH]);
    let w = ParamAccess { reads: vec![], writes: vec![POSITION], exclusive: false };
    assert!(merged.conflicts_with(&w));
    let h = ParamAccess { reads: vec![HEALTH], writes: vec![], exclusive: false };
    assert!(merged.conflicts_with(&h));
    let v = ParamAccess { reads: vec![VELOCITY], writes: vec![], exclusive: false };
    assert!(!merged.conflicts_with(&v));
}

fn reads(id: ComponentId) -> SystemAccess {
    SystemAccess { reads: vec![id], ..Default::default() }
}

fn writes(id: ComponentId) -> SystemAccess {
    SystemAccess { writes: vec![id], ..Default::default() }
}

#[test]
fn access_conflict_detection() {
    let read_a = reads(POSITION);
    let read_b = reads(POSITION);
    assert!(!read_a.conflicts_with(&read_b));

    let write_a = writes(POSITION);
    assert!(read_a.conflicts_with(&write_a));
    assert!(write_a.conflicts_with(&read_a));

    let write_b = writes(POSITION);
    assert!(write_a.conflicts_with(&write_b));

    let write_vel = writes(VELOCITY);
    assert!(!write_a.conflicts_with(&write_vel));

    let exclusive = SystemAccess { exclusive: true, ..Default::default() };
    assert!(exclusive.conflicts_with(&read_a));
    assert!(exclusive.conflicts_with(&write_a));
}

fn batch_sizes(pass: &ParallelPass<&'static str>) -> Vec<usize> {
    pass.batches().unwrap().iter().map(|b| b.systems.len()).collect()
}

#[test]
fn batch_computation() {
    let mut ids = SystemIds::new();
    let mut pass = ParallelPass::new();
    pass.add(ids.next_id(), "sys_a", reads(POSITION), false);
    pass.add(ids.next_id(), "sys_b", reads(POSITION), false);

    pass.compute_batches();

    let batches = pass.batches().unwrap();
    assert_eq!(batches.len(), 1);
    assert_eq!(batches[0].systems.len(), 2);
}

#[test]
fn systems_with_different_components_batch_together() {
    let mut ids = SystemIds::new();
    let mut pass = ParallelPass::new();
    pass.add(ids.next_id(), "read_position", reads(POSITION), false);
    pass.add(ids.next_id(), "write_velocity", writes(VELOCITY), false);
    pass.add(ids.next_id(), "write_health", writes(HEALTH), false);
    pass.compute_batches();

    let batches = pass.batches().unwrap();
    assert_eq!(batches.len(), 1, "Non-conflicting systems should be in one batch");
    assert_eq!(batches[0].systems.len(), 3);
}

#[test]
fn conflicting_systems_separate_batches() {
    let mut ids = SystemIds::new();
    let mut pass = ParallelPass::new();
    pass.add(ids.next_id(), "read_position", reads(POSITION), false);
    pass.add(ids.next_id(), "write_position", writes(POSITION), false);
    pass.compute_batches();

    let batches = pass.batches().unwrap();
    assert_eq!(batches.len(), 2, "Conflicting systems should be in separate batches");
}

#[test]
fn multiple_readers_same_batch() {
    let mut ids = SystemIds::new();
    let mut pass = ParallelPass::new();
    pass.add(ids.next_id(), "read_position_1", reads(POSITION), false);
    pass.add(ids.next_id(), "read_position_2", reads(POSITION), false);
    pass.add(ids.next_id(), "read_position_3", reads(POSITION), false);
    pass.compute_batches();

    let batches = pass.batches().unwrap();
    assert_eq!(batches.len(), 1, "Multiple readers should be in one batch");
    assert_eq!(batches[0].systems.len(), 3);
}

#[test]
fn greedy_batches_keep_first_fit() {
    let mut ids = SystemIds::new();
    let mut pass = ParallelPass::new();
    pass.add(ids.next_id(), "w_pos", writes(POSITION), false);
    pass.add(ids.next_id(), "r_pos", reads(POSITION), false);
    pass.add(ids.next_id(), "w_vel", writes(VELOCITY), false);
    pass.add(ids.next_id(), "excl", SystemAccess { exclusive: true, ..Default::default() }, false);
    pass.compute_batches();
    // w_pos and w_vel share the first batch; r_pos waits; excl runs alone.
    assert_eq!(batch_sizes(&pass), vec![2, 1, 1]);
    let batches = pass.batches().unwrap();
    assert_eq!(batches[0].systems, vec![0, 2]);
    assert_eq!(batches[1].systems, vec![1]);
    assert_eq!(batches[2].systems, vec![3]);
}

#[test]
fn disabled_systems_are_left_out_of_batches() {
    let mut ids = SystemIds::new();
    let mut pass = ParallelPass::new();
    let a = ids.next_id();
    pass.add(a, "a", writes(POSITION), false);
    pass.add(ids.next_id(), "b", writes(POSITION), false);
    assert!(pass.set_enabled(a, false));
    pass.compute_batches();
    assert_eq!(pass.batches().unwrap()[0].systems, vec![1]);
    assert_eq!(batch_sizes(&pass), vec![1]);
}

#[test]
fn system_enable_disable() {
    let mut ids = SystemIds::new();
    let mut pass = ParallelPass::new();
    let id = ids.next_id();
    pass.add(id, "increment", writes(POSITION), false);
    assert_eq!(pass.is_enabled(id), Some(true));

    assert!(pass.set_enabled(id, false));
    assert_eq!(pass.is_enabled(id), Some(false));

    assert!(pass.set_enabled(id, true));
    assert_eq!(pass.is_enabled(id), Some(true));
}

#[test]
fn system_remove() {
    let mut ids = SystemIds::new();
    let mut pass = ParallelPass::new();
    let id = ids.next_id();
    pass.add(id, "increment", writes(POSITION), false);
    assert_eq!(pass.count(), 1);

    assert!(pass.remove(id));
    assert_eq!(pass.count(), 0);
    assert_eq!(pass.is_enabled(id), None);

    assert!(!pass.remove(id));
    assert!(!pass.set_enabled(id, true));
}

#[test]
fn event_readers_run_first() {
    let mut ids = SystemIds::new();
    let mut pass = ParallelPass::new();
    let regular = ids.next_id();
    let handler = ids.next_id();
    pass.add(regular, "regular_system", reads(POSITION), false);
    pass.add(handler, "event_handler", reads(POSITION), true);
    assert_eq!(pass.event_order(), vec![handler]);
    assert_eq!(pass.regular_ids(), vec![regular]);
}

#[test]
fn systems_are_reached_by_batch_position() {
    let mut ids = SystemIds::new();
    let mut pass = ParallelPass::new();
    let handler = ids.next_id();
    pass.add(ids.next_id(), String::from("a"), reads(POSITION), false);
    pass.add(handler, String::from("h"), reads(POSITION), true);
    pass.add(ids.next_id(), String::from("b"), writes(POSITION), false);
    pass.compute_batches();
    let batches: Vec<Vec<usize>> = pass.batches().unwrap().iter().map(|b| b.systems.clone()).collect();
    assert_eq!(batches, vec![vec![0], vec![1]]);
    pass.regular_system_mut(1).push('!');
    assert_eq!(pass.regular_system_mut(1).as_str(), "b!");
    pass.event_handler_mut(handler).unwrap().push('?');
    assert_eq!(pass.event_handler_mut(handler).unwrap().as_str(), "h?");
    assert!(pass.event_handler_mut(SystemId(99)).is_none());
    assert!(pass.batches().is_some());
}
