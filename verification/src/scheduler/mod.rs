//! System scheduling: system ids, the execution phases, and the passes that
//! hold the systems of a phase.
//!
//! Each phase runs its event handlers first, then its regular systems, then
//! flushes commands; events are cleared after the last phase. Systems can be
//! added, removed, enabled and disabled at runtime.

pub mod priority;
pub mod parallel;

use vstd::prelude::*;

verus! {

/// Unique identifier of a registered system, used to remove it or to
/// enable or disable it later.
#[derive(Clone, Copy, PartialEq, Eq, Structural, Debug, Hash)]
pub struct SystemId(pub u64);

impl SystemId {
    /// Returns the raw numeric id.
    pub fn raw(&self) -> (r: u64)
        ensures
            r == self.0,
    {
        self.0
    }
}

/// Hands out system ids in increasing order, starting at 1.
pub struct SystemIds {
    next: u64,
}

impl SystemIds {
    /// The id the next call hands out.
    pub closed spec fn upcoming(&self) -> u64 {
        self.next
    }

    /// A generator whose first id is 1.
    pub fn new() -> (r: SystemIds)
        ensures
            r.upcoming() == 1,
    {
        SystemIds { next: 1 }
    }

    /// Hands out a new id, larger than every id handed out before.
    pub fn next_id(&mut self) -> (r: SystemId)
        requires
            old(self).upcoming() < u64::MAX,
        ensures
            r.0 == old(self).upcoming(),
            final(self).upcoming() == old(self).upcoming() + 1,
    {
        let id = SystemId(self.next);
        self.next = self.next + 1;
        id
    }
}

/// Priority types list their phases in execution order.
pub trait Priority: Sized {
    /// All phases, in the order they run; the same on every call.
    fn phases() -> &'static [Self];
}

/// Default phases: StartOfFrame, PreUpdate, Update, PostUpdate, EndOfFrame.
#[derive(Clone, Copy, PartialEq, Eq, Structural, Debug, Hash)]
pub enum SystemPriority {
    /// Runs at the very beginning of the frame; sees last frame's events.
    StartOfFrame,
    /// Runs before the main update phase (input handling, time updates).
    PreUpdate,
    /// The main update phase.
    Update,
    /// Runs after the main update phase.
    PostUpdate,
    /// Runs at the very end of the frame, before events are cleared.
    EndOfFrame,
}

impl SystemPriority {
    /// The position of a phase in the execution order.
    pub open spec fn order(self) -> int {
        match self {
            SystemPriority::StartOfFrame => 0,
            SystemPriority::PreUpdate => 1,
            SystemPriority::Update => 2,
            SystemPriority::PostUpdate => 3,
            SystemPriority::EndOfFrame => 4,
        }
    }
}

/// The phases run in the documented order: StartOfFrame, then PreUpdate,
/// then Update, then PostUpdate, then EndOfFrame; each phase has its own
/// place.
pub proof fn law_phase_order()
    ensures
        SystemPriority::StartOfFrame.order() == 0,
        SystemPriority::PreUpdate.order() == 1,
        SystemPriority::Update.order() == 2,
        SystemPriority::PostUpdate.order() == 3,
        SystemPriority::EndOfFrame.order() == 4,
        forall|a: SystemPriority, b: SystemPriority| a.order() == b.order() ==> a == b,
{
}

impl Priority for SystemPriority {
    fn phases() -> (r: &'static [SystemPriority])
        ensures
            r@.len() == 5,
            forall|k: int| 0 <= k < 5 ==> (#[trigger] r@[k]).order() == k,
            r@ == seq![
                SystemPriority::StartOfFrame,
                SystemPriority::PreUpdate,
                SystemPriority::Update,
                SystemPriority::PostUpdate,
                SystemPriority::EndOfFrame,
            ],
    {
        &[
            SystemPriority::StartOfFrame,
            SystemPriority::PreUpdate,
            SystemPriority::Update,
            SystemPriority::PostUpdate,
            SystemPriority::EndOfFrame,
        ]
    }
}

} // verus!
