//! Access bookkeeping for running systems side by side: a counter per
//! resource that admits many readers or one writer, and the access
//! descriptions of system parameters with their conflict rule.
//!
//! - Multiple readers of the same component type are allowed.
//! - A writer has exclusive access to its component type.
//! - Different component types can be accessed at the same time.

use vstd::prelude::*;
use crate::component::{Component, ComponentId};

verus! {

/// Whether a component id occurs in a list.
pub open spec fn mentions(ids: Seq<ComponentId>, id: ComponentId) -> bool {
    exists|k: int| 0 <= k < ids.len() && ids[k] == id
}

/// Two accesses conflict when either is exclusive, or one writes what the
/// other reads or writes.
pub open spec fn accesses_conflict(
    reads_a: Seq<ComponentId>,
    writes_a: Seq<ComponentId>,
    exclusive_a: bool,
    reads_b: Seq<ComponentId>,
    writes_b: Seq<ComponentId>,
    exclusive_b: bool,
) -> bool {
    ||| exclusive_a
    ||| exclusive_b
    ||| exists|k: int| 0 <= k < writes_a.len() && (mentions(reads_b, #[trigger] writes_a[k]) || mentions(writes_b, writes_a[k]))
    ||| exists|k: int| 0 <= k < writes_b.len() && mentions(reads_a, #[trigger] writes_b[k])
}

/// Returns whether a component id occurs in a list.
pub fn contains_id(ids: &Vec<ComponentId>, id: ComponentId) -> (r: bool)
    ensures
        r == mentions(ids@, id),
{
    let mut i: usize = 0;
    while i < ids.len()
        invariant
            i <= ids@.len(),
            forall|k: int| 0 <= k < i ==> ids@[k] != id,
        decreases ids@.len() - i,
    {
        if ids[i].0 == id.0 {
            return true;
        }
        i = i + 1;
    }
    false
}

/// Decides [`accesses_conflict`].
pub fn check_conflict(
    reads_a: &Vec<ComponentId>,
    writes_a: &Vec<ComponentId>,
    exclusive_a: bool,
    reads_b: &Vec<ComponentId>,
    writes_b: &Vec<ComponentId>,
    exclusive_b: bool,
) -> (r: bool)
    ensures
        r == accesses_conflict(reads_a@, writes_a@, exclusive_a, reads_b@, writes_b@, exclusive_b),
{
    if exclusive_a || exclusive_b {
        return true;
    }
    let mut i: usize = 0;
    while i < writes_a.len()
        invariant
            i <= writes_a@.len(),
            forall|k: int| 0 <= k < i ==> !mentions(reads_b@, #[trigger] writes_a@[k]) && !mentions(writes_b@, writes_a@[k]),
        decreases writes_a@.len() - i,
    {
        if contains_id(reads_b, writes_a[i]) || contains_id(writes_b, writes_a[i]) {
            return true;
        }
        i = i + 1;
    }
    let mut j: usize = 0;
    while j < writes_b.len()
        invariant
            j <= writes_b@.len(),
            forall|k: int| 0 <= k < writes_a@.len() ==> !mentions(reads_b@, #[trigger] writes_a@[k]) && !mentions(writes_b@, writes_a@[k]),
            forall|k: int| 0 <= k < j ==> !mentions(reads_a@, #[trigger] writes_b@[k]),
        decreases writes_b@.len() - j,
    {
        if contains_id(reads_a, writes_b[j]) {
            return true;
        }
        j = j + 1;
    }
    false
}

/// Appends a list of component ids to another.
pub fn extend_ids(dst: &mut Vec<ComponentId>, src: &Vec<ComponentId>)
    ensures
        final(dst)@ == old(dst)@ + src@,
{
    let mut i: usize = 0;
    while i < src.len()
        invariant
            i <= src@.len(),
            dst@ == old(dst)@ + src@.subrange(0, i as int),
        decreases src@.len() - i,
    {
        dst.push(src[i]);
        i = i + 1;
        proof {
            assert(dst@ =~= old(dst)@ + src@.subrange(0, i as int));
        }
    }
    proof {
        assert(src@.subrange(0, i as int) =~= src@);
    }
}

/// Conflict is symmetric.
pub proof fn law_conflict_symmetric(
    reads_a: Seq<ComponentId>,
    writes_a: Seq<ComponentId>,
    exclusive_a: bool,
    reads_b: Seq<ComponentId>,
    writes_b: Seq<ComponentId>,
    exclusive_b: bool,
)
    ensures
        accesses_conflict(reads_a, writes_a, exclusive_a, reads_b, writes_b, exclusive_b) == accesses_conflict(
            reads_b,
            writes_b,
            exclusive_b,
            reads_a,
            writes_a,
            exclusive_a,
        ),
{
    if accesses_conflict(reads_a, writes_a, exclusive_a, reads_b, writes_b, exclusive_b) && !exclusive_a && !exclusive_b {
        if exists|k: int| 0 <= k < writes_a.len() && (mentions(reads_b, #[trigger] writes_a[k]) || mentions(writes_b, writes_a[k])) {
            let k = choose|k: int| 0 <= k < writes_a.len() && (mentions(reads_b, #[trigger] writes_a[k]) || mentions(writes_b, writes_a[k]));
            if !mentions(reads_b, writes_a[k]) {
                let m = choose|m: int| 0 <= m < writes_b.len() && writes_b[m] == writes_a[k];
                assert(mentions(writes_a, writes_b[m]));
            }
        }
    }
    if accesses_conflict(reads_b, writes_b, exclusive_b, reads_a, writes_a, exclusive_a) && !exclusive_a && !exclusive_b {
        if exists|k: int| 0 <= k < writes_b.len() && (mentions(reads_a, #[trigger] writes_b[k]) || mentions(writes_a, writes_b[k])) {
            let k = choose|k: int| 0 <= k < writes_b.len() && (mentions(reads_a, #[trigger] writes_b[k]) || mentions(writes_a, writes_b[k]));
            if !mentions(reads_a, writes_b[k]) {
                let m = choose|m: int| 0 <= m < writes_a.len() && writes_a[m] == writes_b[k];
                assert(mentions(writes_b, writes_a[m]));
            }
        }
    }
}

/// Adding accesses to one side can only add conflicts: whatever conflicts
/// with a part conflicts with the whole.
pub proof fn law_conflict_grows(
    reads_a: Seq<ComponentId>,
    writes_a: Seq<ComponentId>,
    exclusive_a: bool,
    reads_b: Seq<ComponentId>,
    writes_b: Seq<ComponentId>,
    exclusive_b: bool,
    more_reads: Seq<ComponentId>,
    more_writes: Seq<ComponentId>,
    more_exclusive: bool,
)
    requires
        accesses_conflict(reads_a, writes_a, exclusive_a, reads_b, writes_b, exclusive_b),
    ensures
        accesses_conflict(reads_a, writes_a, exclusive_a, reads_b + more_reads, writes_b + more_writes, exclusive_b || more_exclusive),
{
    let rb = reads_b + more_reads;
    let wb = writes_b + more_writes;
    if !exclusive_a && !exclusive_b {
        if exists|k: int| 0 <= k < writes_a.len() && (mentions(reads_b, #[trigger] writes_a[k]) || mentions(writes_b, writes_a[k])) {
            let k = choose|k: int| 0 <= k < writes_a.len() && (mentions(reads_b, #[trigger] writes_a[k]) || mentions(writes_b, writes_a[k]));
            if mentions(reads_b, writes_a[k]) {
                let m = choose|m: int| 0 <= m < reads_b.len() && reads_b[m] == writes_a[k];
                assert(rb[m] == writes_a[k]);
                assert(mentions(rb, writes_a[k]));
            } else {
                let m = choose|m: int| 0 <= m < writes_b.len() && writes_b[m] == writes_a[k];
                assert(wb[m] == writes_a[k]);
                assert(mentions(wb, writes_a[k]));
            }
        } else {
            let k = choose|k: int| 0 <= k < writes_b.len() && mentions(reads_a, #[trigger] writes_b[k]);
            assert(wb[k] == writes_b[k]);
        }
    }
}

/// An id occurs in a concatenation iff it occurs in one of the parts.
pub proof fn lemma_mentions_concat(a: Seq<ComponentId>, b: Seq<ComponentId>, id: ComponentId)
    ensures
        mentions(a + b, id) <==> (mentions(a, id) || mentions(b, id)),
{
    if mentions(a + b, id) {
        let k = choose|k: int| 0 <= k < (a + b).len() && (a + b)[k] == id;
        if k < a.len() {
            assert(a[k] == id);
        } else {
            assert(b[k - a.len()] == id);
        }
    }
    if mentions(a, id) {
        let k = choose|k: int| 0 <= k < a.len() && a[k] == id;
        assert((a + b)[k] == id);
    }
    if mentions(b, id) {
        let k = choose|k: int| 0 <= k < b.len() && b[k] == id;
        assert((a + b)[a.len() + k] == id);
    }
}

/// Conflicting with two accesses merged is conflicting with either.
pub proof fn law_conflict_merge(
    reads_a: Seq<ComponentId>,
    writes_a: Seq<ComponentId>,
    exclusive_a: bool,
    reads_b: Seq<ComponentId>,
    writes_b: Seq<ComponentId>,
    exclusive_b: bool,
    reads_c: Seq<ComponentId>,
    writes_c: Seq<ComponentId>,
    exclusive_c: bool,
)
    ensures
        accesses_conflict(reads_a, writes_a, exclusive_a, reads_b + reads_c, writes_b + writes_c, exclusive_b || exclusive_c)
            <==> (accesses_conflict(reads_a, writes_a, exclusive_a, reads_b, writes_b, exclusive_b) || accesses_conflict(
            reads_a,
            writes_a,
            exclusive_a,
            reads_c,
            writes_c,
            exclusive_c,
        )),
{
    let rm = reads_b + reads_c;
    let wm = writes_b + writes_c;
    assert forall|id: ComponentId| mentions(rm, id) <==> (mentions(reads_b, id) || mentions(reads_c, id)) by {
        lemma_mentions_concat(reads_b, reads_c, id);
    }
    assert forall|id: ComponentId| mentions(wm, id) <==> (mentions(writes_b, id) || mentions(writes_c, id)) by {
        lemma_mentions_concat(writes_b, writes_c, id);
    }
    if !exclusive_a && !exclusive_b && !exclusive_c {
        if accesses_conflict(reads_a, writes_a, exclusive_a, rm, wm, false) {
            if exists|k: int| 0 <= k < writes_a.len() && (mentions(rm, #[trigger] writes_a[k]) || mentions(wm, writes_a[k])) {
                let k = choose|k: int| 0 <= k < writes_a.len() && (mentions(rm, #[trigger] writes_a[k]) || mentions(wm, writes_a[k]));
                assert(mentions(rm, writes_a[k]) || mentions(wm, writes_a[k]));
            } else {
                let k = choose|k: int| 0 <= k < wm.len() && mentions(reads_a, #[trigger] wm[k]);
                if k < writes_b.len() {
                    assert(wm[k] == writes_b[k]);
                } else {
                    assert(wm[k] == writes_c[k - writes_b.len()]);
                }
            }
        }
        if accesses_conflict(reads_a, writes_a, exclusive_a, reads_b, writes_b, exclusive_b) {
            law_conflict_grows(reads_a, writes_a, exclusive_a, reads_b, writes_b, exclusive_b, reads_c, writes_c, exclusive_c);
        }
        if accesses_conflict(reads_a, writes_a, exclusive_a, reads_c, writes_c, exclusive_c) {
            if exists|k: int| 0 <= k < writes_a.len() && (mentions(reads_c, #[trigger] writes_a[k]) || mentions(writes_c, writes_a[k])) {
                let k = choose|k: int| 0 <= k < writes_a.len() && (mentions(reads_c, #[trigger] writes_a[k]) || mentions(writes_c, writes_a[k]));
                assert(mentions(rm, writes_a[k]) || mentions(wm, writes_a[k]));
            } else {
                let k = choose|k: int| 0 <= k < writes_c.len() && mentions(reads_a, #[trigger] writes_c[k]);
                assert(wm[writes_b.len() + k] == writes_c[k]);
            }
        }
    }
}

/// Tracks concurrent access to one resource with a signed counter: a
/// positive value counts readers, -1 marks a writer, 0 means free.
pub struct AccessTracker {
    state: isize,
    resource: &'static str,
}

impl AccessTracker {
    /// The counter.
    pub closed spec fn state(&self) -> isize {
        self.state
    }

    /// The name of the tracked resource.
    pub closed spec fn name(&self) -> &'static str {
        self.resource
    }

    /// Creates a tracker with no access.
    pub fn new(resource: &'static str) -> (r: AccessTracker)
        ensures
            r.state() == 0,
            r.name() == resource,
    {
        AccessTracker { state: 0, resource }
    }

    /// Acquires read access; a writer must not hold access.
    pub fn acquire_read(&mut self)
        requires
            old(self).state() >= 0,
            old(self).state() < isize::MAX,
        ensures
            final(self).state() == old(self).state() + 1,
            final(self).name() == old(self).name(),
    {
        self.state = self.state + 1;
    }

    /// Releases read access; a reader must hold access.
    pub fn release_read(&mut self)
        requires
            old(self).state() > 0,
        ensures
            final(self).state() == old(self).state() - 1,
            final(self).name() == old(self).name(),
    {
        self.state = self.state - 1;
    }

    /// Acquires write access; nobody may hold access.
    pub fn acquire_write(&mut self)
        requires
            old(self).state() == 0,
        ensures
            final(self).state() == -1,
            final(self).name() == old(self).name(),
    {
        self.state = -1;
    }

    /// Releases write access; the writer must hold access.
    pub fn release_write(&mut self)
        requires
            old(self).state() == -1,
        ensures
            final(self).state() == 0,
            final(self).name() == old(self).name(),
    {
        self.state = 0;
    }

    /// Returns whether anyone holds access.
    pub fn is_accessed(&self) -> (r: bool)
        ensures
            r == (self.state() != 0),
    {
        self.state != 0
    }

    /// Returns whether a writer holds access.
    pub fn is_written(&self) -> (r: bool)
        ensures
            r == (self.state() < 0),
    {
        self.state < 0
    }

    /// Returns the name of the tracked resource.
    pub fn resource_name(&self) -> (r: &'static str)
        ensures
            r == self.name(),
    {
        self.resource
    }
}

/// Describes the access pattern of a system parameter.
pub struct ParamAccess {
    /// Component types read immutably.
    pub reads: Vec<ComponentId>,
    /// Component types written mutably.
    pub writes: Vec<ComponentId>,
    /// Whether the parameter needs exclusive world access.
    pub exclusive: bool,
}

impl ParamAccess {
    /// Whether two parameter accesses conflict.
    pub open spec fn conflicts(&self, other: &ParamAccess) -> bool {
        accesses_conflict(self.reads@, self.writes@, self.exclusive, other.reads@, other.writes@, other.exclusive)
    }

    /// Creates empty access (no components accessed).
    pub fn none() -> (r: ParamAccess)
        ensures
            r.reads@ == Seq::<ComponentId>::empty(),
            r.writes@ == Seq::<ComponentId>::empty(),
            !r.exclusive,
    {
        ParamAccess { reads: Vec::new(), writes: Vec::new(), exclusive: false }
    }

    /// Creates read-only access to one component type.
    pub fn read<T: Component>() -> (r: ParamAccess)
        ensures
            r.reads@ == seq![T::spec_component_id()],
            r.writes@ == Seq::<ComponentId>::empty(),
            !r.exclusive,
    {
        let mut reads: Vec<ComponentId> = Vec::new();
        reads.push(T::component_id());
        ParamAccess { reads, writes: Vec::new(), exclusive: false }
    }

    /// Creates write access to one component type.
    pub fn write<T: Component>() -> (r: ParamAccess)
        ensures
            r.reads@ == Seq::<ComponentId>::empty(),
            r.writes@ == seq![T::spec_component_id()],
            !r.exclusive,
    {
        let mut writes: Vec<ComponentId> = Vec::new();
        writes.push(T::component_id());
        ParamAccess { reads: Vec::new(), writes, exclusive: false }
    }

    /// Creates exclusive access (blocks all other systems).
    pub fn exclusive() -> (r: ParamAccess)
        ensures
            r.reads@ == Seq::<ComponentId>::empty(),
            r.writes@ == Seq::<ComponentId>::empty(),
            r.exclusive,
    {
        ParamAccess { reads: Vec::new(), writes: Vec::new(), exclusive: true }
    }

    /// Merges another access into this one.
    pub fn merge(&mut self, other: &ParamAccess)
        ensures
            final(self).reads@ == old(self).reads@ + other.reads@,
            final(self).writes@ == old(self).writes@ + other.writes@,
            final(self).exclusive == (old(self).exclusive || other.exclusive),
    {
        extend_ids(&mut self.reads, &other.reads);
        extend_ids(&mut self.writes, &other.writes);
        self.exclusive = self.exclusive || other.exclusive;
    }

    /// Returns whether this access conflicts with another.
    pub fn conflicts_with(&self, other: &ParamAccess) -> (r: bool)
        ensures
            r == self.conflicts(other),
    {
        check_conflict(&self.reads, &self.writes, self.exclusive, &other.reads, &other.writes, other.exclusive)
    }
}

impl Default for ParamAccess {
    fn default() -> (r: ParamAccess)
        ensures
            r.reads@ == Seq::<ComponentId>::empty(),
            r.writes@ == Seq::<ComponentId>::empty(),
            !r.exclusive,
    {
        ParamAccess::none()
    }
}

} // verus!
