//! Identifiers of asynchronous tasks.

use vstd::prelude::*;

verus! {

/// Unique identifier for a task.
#[derive(Debug, Clone, Copy, PartialEq, Eq, Structural, Hash)]
pub struct TaskId(u64);

impl TaskId {
    /// The raw value of the identifier.
    pub closed spec fn value(self) -> u64 {
        self.0
    }

    /// Returns the raw ID value.
    pub fn as_u64(self) -> (r: u64)
        ensures
            r == self.value(),
    {
        self.0
    }
}

/// Hands out task identifiers in increasing order, from 0; past the
/// largest value it wraps around to 0.
#[derive(Debug)]
pub struct TaskIds {
    next: u64,
}

impl TaskIds {
    /// The value of the next identifier.
    pub closed spec fn upcoming(self) -> u64 {
        self.next
    }

    /// A generator whose first identifier is 0.
    pub fn new() -> (r: TaskIds)
        ensures
            r.upcoming() == 0,
    {
        TaskIds { next: 0 }
    }

    /// A new identifier: the one after the last handed out.
    pub fn next(&mut self) -> (r: TaskId)
        ensures
            r.value() == old(self).upcoming(),
            final(self).upcoming() == (if old(self).upcoming() == u64::MAX { 0 } else { old(self).upcoming() + 1 }),
    {
        let id = TaskId(self.next);
        self.next = self.next.wrapping_add(1);
        id
    }
}

/// Identifiers handed out one after the other, before the counter wraps,
/// differ and increase.
pub proof fn law_task_ids_increase(first: TaskId, second: TaskId, before: TaskIds, between: TaskIds)
    requires
        first.value() == before.upcoming(),
        between.upcoming() == (if before.upcoming() == u64::MAX { 0 } else { before.upcoming() + 1 }),
        second.value() == between.upcoming(),
        before.upcoming() < u64::MAX,
    ensures
        first != second,
        first.value() < second.value(),
{
}

} // verus!
