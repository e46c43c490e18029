//! Entity handles and the generational allocator that hands them out.

use vstd::prelude::*;

verus! {

/// Unique handle to an object inside the world: a dense index and the
/// generation of the slot at that index when the handle was issued.
#[derive(Clone, Copy, PartialEq, Eq, Structural, Debug, Hash)]
pub struct Entity {
    pub index: u32,
    pub generation: u32,
}

/// The largest index a slot may have: the index `u32::MAX` is kept for
/// [`Entity::placeholder`].
pub const MAX_SLOTS: usize = 0xffff_ffffusize;

impl Entity {
    /// The placeholder entity.
    pub open spec fn spec_placeholder() -> Entity {
        Entity { index: u32::MAX, generation: u32::MAX }
    }

    /// A placeholder entity that is never valid; used for deferred spawns
    /// where the actual entity is not known yet.
    pub fn placeholder() -> (r: Entity)
        ensures
            r == Entity::spec_placeholder(),
    {
        Entity { index: u32::MAX, generation: u32::MAX }
    }

    /// Builds a handle from its raw parts.
    pub fn from_raw(index: u32, generation: u32) -> (r: Entity)
        ensures
            r.index == index && r.generation == generation,
    {
        Entity { index, generation }
    }

    /// Returns the dense index associated with this entity.
    pub fn index(&self) -> (r: u32)
        ensures
            r == self.index,
    {
        self.index
    }

    /// The generation is bumped every time an index is reused, so stale
    /// handles can be told apart from live ones.
    pub fn generation(&self) -> (r: u32)
        ensures
            r == self.generation,
    {
        self.generation
    }
}

/// Where an entity's components live: an archetype and a row in it.
#[derive(Clone, Copy, PartialEq, Eq, Structural, Debug)]
pub struct EntityLocation {
    pub archetype: usize,
    pub slot: usize,
}

/// One slot of the allocator: its current generation and, while the entity
/// is alive, its location.
#[derive(Clone, Copy, PartialEq, Eq, Structural, Debug)]
pub struct EntitySlot {
    pub generation: u32,
    pub location: Option<EntityLocation>,
}

/// The mathematical state of the allocator.
pub ghost struct EntitiesView {
    pub slots: Seq<EntitySlot>,
    pub free: Seq<u32>,
}

impl EntitiesView {
    /// Slots fit in `u32` indices below the placeholder index; the free list
    /// holds distinct, in-range indices of slots that hold no entity.
    pub open spec fn wf(self) -> bool {
        &&& self.slots.len() <= MAX_SLOTS
        &&& forall|i: int| 0 <= i < self.free.len() ==> (#[trigger] self.free[i]) < self.slots.len()
        &&& forall|i: int, j: int|
            0 <= i < self.free.len() && 0 <= j < self.free.len() && i != j ==> #[trigger] self.free[i]
                != #[trigger] self.free[j]
        &&& forall|i: int| 0 <= i < self.free.len() ==> self.slots[#[trigger] self.free[i] as int].location is None
    }

    /// An entity is alive when its slot exists, holds a location and carries
    /// the entity's generation.
    pub open spec fn is_alive(self, e: Entity) -> bool {
        &&& (e.index as int) < self.slots.len()
        &&& self.slots[e.index as int].location is Some
        &&& self.slots[e.index as int].generation == e.generation
    }

    /// What `alloc` does: reuse the most recently freed index, else append a
    /// fresh slot of generation 0.
    pub open spec fn allocate(self) -> (EntitiesView, Entity) {
        if self.free.len() > 0 {
            let index = self.free.last();
            (
                EntitiesView { slots: self.slots, free: self.free.drop_last() },
                Entity { index, generation: self.slots[index as int].generation },
            )
        } else {
            (
                EntitiesView {
                    slots: self.slots.push(EntitySlot { generation: 0, location: None }),
                    free: self.free,
                },
                Entity { index: self.slots.len() as u32, generation: 0 },
            )
        }
    }

    /// The views hand out the same entities: the same free list and the same
    /// generations, whatever the locations.
    pub open spec fn same_handles(self, other: EntitiesView) -> bool {
        &&& self.free == other.free
        &&& self.slots.len() == other.slots.len()
        &&& forall|i: int| 0 <= i < self.slots.len() ==> #[trigger] self.slots[i].generation == other.slots[i].generation
    }

    /// The state after `n` allocations in a row, and the entities they hand
    /// out, in order.
    pub open spec fn allocations(self, n: nat) -> (EntitiesView, Seq<Entity>)
        decreases n,
    {
        if n == 0 {
            (self, Seq::empty())
        } else {
            let prev = self.allocations((n - 1) as nat);
            let next = prev.0.allocate();
            (next.0, prev.1.push(next.1))
        }
    }

    /// Views that hand out the same entities keep doing so after an
    /// allocation.
    pub proof fn lemma_same_handles_allocate(self, other: EntitiesView)
        requires
            self.same_handles(other),
            self.free.len() > 0 ==> (self.free.last() as int) < self.slots.len(),
        ensures
            self.allocate().1 == other.allocate().1,
            self.allocate().0.same_handles(other.allocate().0),
    {
        if self.free.len() > 0 {
            assert(self.slots[self.free.last() as int].generation == other.slots[self.free.last() as int].generation);
        } else {
            let a = self.allocate().0;
            let b = other.allocate().0;
            assert forall|i: int| 0 <= i < a.slots.len() implies #[trigger] a.slots[i].generation == b.slots[i].generation by {
                if i < self.slots.len() {
                    assert(a.slots[i] == self.slots[i] && b.slots[i] == other.slots[i]);
                }
            }
        }
    }

    /// What `despawn` does: a live entity's slot gets the next generation
    /// (wrapping), loses its location and its index is freed.
    pub open spec fn despawn(self, e: Entity) -> (EntitiesView, bool) {
        if self.is_alive(e) {
            let old_slot = self.slots[e.index as int];
            (
                EntitiesView {
                    slots: self.slots.update(
                        e.index as int,
                        EntitySlot { generation: old_slot.generation.wrapping_add(1), location: None },
                    ),
                    free: self.free.push(e.index),
                },
                true,
            )
        } else {
            (self, false)
        }
    }

    /// What `set_location` does: records the location in the slot at the
    /// entity's index, whatever its generation.
    pub open spec fn set_location(self, e: Entity, loc: EntityLocation) -> EntitiesView {
        if (e.index as int) < self.slots.len() {
            EntitiesView {
                slots: self.slots.update(
                    e.index as int,
                    EntitySlot { generation: self.slots[e.index as int].generation, location: Some(loc) },
                ),
                free: self.free,
            }
        } else {
            self
        }
    }

    /// The location recorded at the entity's index, whatever its generation.
    pub open spec fn location(self, e: Entity) -> Option<EntityLocation> {
        if (e.index as int) < self.slots.len() {
            self.slots[e.index as int].location
        } else {
            None
        }
    }

    /// The live entity at an index, if any.
    pub open spec fn resolve(self, index: u32) -> Option<Entity> {
        if (index as int) < self.slots.len() && self.slots[index as int].location is Some {
            Some(Entity { index, generation: self.slots[index as int].generation })
        } else {
            None
        }
    }

    /// Whether an index is on the free list.
    pub open spec fn is_free(self, index: u32) -> bool {
        self.free.contains(index)
    }
}

/// Allocator for `Entity` handles: a slot per index and a free list of
/// indices whose entities were despawned.
pub struct Entities {
    slots: Vec<EntitySlot>,
    free: Vec<u32>,
}

impl View for Entities {
    type V = EntitiesView;

    closed spec fn view(&self) -> EntitiesView {
        EntitiesView { slots: self.slots@, free: self.free@ }
    }
}

impl Entities {
    /// Creates an allocator with no slots.
    pub fn new() -> (r: Entities)
        ensures
            r@.slots.len() == 0,
            r@.free.len() == 0,
            r@.wf(),
    {
        Entities { slots: Vec::new(), free: Vec::new() }
    }

    /// Returns the number of slots (live, pending and free).
    pub fn slot_count(&self) -> (r: usize)
        ensures
            r == self@.slots.len(),
    {
        self.slots.len()
    }

    /// Returns the number of freed indices waiting for reuse.
    pub fn free_count(&self) -> (r: usize)
        ensures
            r == self@.free.len(),
    {
        self.free.len()
    }

    /// Returns whether the free list holds an index.
    pub fn has_free(&self) -> (r: bool)
        ensures
            r == (self@.free.len() > 0),
    {
        self.free.len() > 0
    }

    /// Allocates an entity. It is not alive until a location is set.
    pub fn allocate(&mut self) -> (e: Entity)
        requires
            old(self)@.wf(),
            old(self)@.free.len() > 0 || old(self)@.slots.len() < MAX_SLOTS,
        ensures
            (final(self)@, e) == old(self)@.allocate(),
            final(self)@.wf(),
    {
        let popped = self.free.pop();
        match popped {
            Some(index) => {
                let generation = self.slots[index as usize].generation;
                Entity { index, generation }
            },
            None => {
                let index = self.slots.len() as u32;
                self.slots.push(EntitySlot { generation: 0, location: None });
                proof {
                    let v = self@;
                    assert forall|i: int| 0 <= i < v.free.len() implies v.slots[#[trigger] v.free[i] as int].location is None by {
                        assert(v.free[i] < old(self)@.slots.len());
                    }
                }
                Entity { index, generation: 0 }
            },
        }
    }

    /// Despawns a live entity: its slot's generation is bumped and its index
    /// freed. Returns whether the entity was alive.
    pub fn despawn(&mut self, entity: Entity) -> (r: bool)
        requires
            old(self)@.wf(),
        ensures
            (final(self)@, r) == old(self)@.despawn(entity),
            final(self)@.wf(),
    {
        if !self.is_alive(entity) {
            return false;
        }
        let i = entity.index as usize;
        let generation = self.slots[i].generation.wrapping_add(1);
        self.slots.set(i, EntitySlot { generation, location: None });
        self.free.push(entity.index);
        proof {
            let v = self@;
            let o = old(self)@;
            assert(!o.free.contains(entity.index));
            assert forall|a: int, b: int|
                0 <= a < v.free.len() && 0 <= b < v.free.len() && a != b implies #[trigger] v.free[a]
                != #[trigger] v.free[b] by {
                if a == o.free.len() as int {
                    assert(o.free[b] == v.free[b]);
                } else if b == o.free.len() as int {
                    assert(o.free[a] == v.free[a]);
                }
            }
        }
        true
    }

    /// Returns whether the entity is alive: its slot holds a location and
    /// carries the entity's generation.
    pub fn is_alive(&self, entity: Entity) -> (r: bool)
        ensures
            r == self@.is_alive(entity),
    {
        let i = entity.index as usize;
        if i < self.slots.len() {
            let slot = &self.slots[i];
            slot.location.is_some() && slot.generation == entity.generation
        } else {
            false
        }
    }

    /// Returns the live entity at an index, if any.
    pub fn resolve(&self, index: u32) -> (r: Option<Entity>)
        ensures
            r == self@.resolve(index),
    {
        let i = index as usize;
        if i < self.slots.len() && self.slots[i].location.is_some() {
            Some(Entity { index, generation: self.slots[i].generation })
        } else {
            None
        }
    }

    /// Returns the location recorded at the entity's index.
    pub fn location(&self, entity: Entity) -> (r: Option<EntityLocation>)
        ensures
            r == self@.location(entity),
    {
        let i = entity.index as usize;
        if i < self.slots.len() {
            self.slots[i].location
        } else {
            None
        }
    }

    /// Records a location at the entity's index, if the slot exists.
    pub fn set_location(&mut self, entity: Entity, location: EntityLocation)
        ensures
            final(self)@ == old(self)@.set_location(entity, location),
            old(self)@.wf() && !old(self)@.is_free(entity.index) ==> final(self)@.wf(),
    {
        let i = entity.index as usize;
        if i < self.slots.len() {
            let generation = self.slots[i].generation;
            self.slots.set(i, EntitySlot { generation, location: Some(location) });
        }
    }

    /// Returns every live entity, in index order.
    pub fn alive(&self) -> (r: Vec<Entity>)
        ensures
            forall|k: int| 0 <= k < r@.len() ==> self@.is_alive(#[trigger] r@[k]),
            forall|e: Entity| self@.is_alive(e) ==> r@.contains(e),
            forall|a: int, b: int| 0 <= a < b < r@.len() ==> (#[trigger] r@[a]).index < (#[trigger] r@[b]).index,
    {
        let mut out: Vec<Entity> = Vec::new();
        let mut i: usize = 0;
        while i < self.slots.len()
            invariant
                i <= self@.slots.len(),
                forall|k: int| 0 <= k < out@.len() ==> self@.is_alive(#[trigger] out@[k]),
                forall|k: int| 0 <= k < out@.len() ==> (#[trigger] out@[k]).index < i,
                forall|e: Entity| self@.is_alive(e) && (e.index as int) < i ==> out@.contains(e),
                forall|a: int, b: int| 0 <= a < b < out@.len() ==> (#[trigger] out@[a]).index < (#[trigger] out@[b]).index,
            decreases self@.slots.len() - i,
        {
            if self.slots[i].location.is_some() && i <= 0xffff_ffffusize {
                let e = Entity { index: i as u32, generation: self.slots[i].generation };
                let ghost prev = out@;
                out.push(e);
                proof {
                    assert forall|x: Entity| self@.is_alive(x) && (x.index as int) < i + 1 implies out@.contains(x) by {
                        if x.index as int == i {
                            assert(out@[out@.len() - 1] == x);
                        } else {
                            assert(prev.contains(x));
                            let k = choose|k: int| 0 <= k < prev.len() && prev[k] == x;
                            assert(out@[k] == x);
                        }
                    }
                }
            }
            i = i + 1;
        }
        out
    }
}

// ---------------------------------------------------------------------------
// Laws of the allocator
// ---------------------------------------------------------------------------

/// A freshly allocated entity is not alive, and allocation keeps the
/// allocator well formed.
pub proof fn law_allocate_not_alive(v: EntitiesView)
    requires
        v.wf(),
        v.free.len() > 0 || v.slots.len() < MAX_SLOTS,
    ensures
        !v.allocate().0.is_alive(v.allocate().1),
        v.allocate().0.wf(),
{
    if v.free.len() > 0 {
        assert(v.free[v.free.len() - 1] == v.free.last());
    } else {
        let w = v.allocate().0;
        assert forall|i: int| 0 <= i < w.free.len() implies w.slots[#[trigger] w.free[i] as int].location is None by {
            assert(w.free[i] == v.free[i]);
        }
    }
}

/// Two allocations in a row hand out different entities.
pub proof fn law_allocate_twice_distinct(v: EntitiesView)
    requires
        v.wf(),
        v.free.len() > 1 || (v.free.len() == 1 && v.slots.len() < MAX_SLOTS) || v.slots.len() + 1 < MAX_SLOTS,
    ensures
        v.allocate().1 != v.allocate().0.allocate().1,
{
    let (v1, e1) = v.allocate();
    if v.free.len() > 1 {
        let n = v.free.len();
        assert(v1.free.last() == v.free[n - 2]);
        assert(v.free[n - 1] != v.free[n - 2]);
    } else if v.free.len() == 1 {
        assert(v.free[0] < v.slots.len());
    }
}

/// A despawned handle is never alive afterwards, and the entity the next
/// allocation hands out at the freed index differs from it: stale handles
/// cannot refer to a new entity.
pub proof fn law_despawn_then_reuse(v: EntitiesView, e: Entity)
    requires
        v.wf(),
        v.is_alive(e),
    ensures
        v.despawn(e).1,
        !v.despawn(e).0.is_alive(e),
        v.despawn(e).0.allocate().1.index == e.index,
        v.despawn(e).0.allocate().1 != e,
        !v.despawn(e).0.allocate().0.is_alive(e),
{
    let w = v.despawn(e).0;
    assert(w.free.last() == e.index);
    let g = v.slots[e.index as int].generation;
    assert(g.wrapping_add(1) != g) by (bit_vector);
}

/// Recording a location for a pending entity makes it alive at exactly that
/// location, without changing any other slot.
pub proof fn law_set_location_makes_alive(v: EntitiesView, e: Entity, loc: EntityLocation)
    requires
        (e.index as int) < v.slots.len(),
        v.slots[e.index as int].generation == e.generation,
    ensures
        v.set_location(e, loc).is_alive(e),
        v.set_location(e, loc).location(e) == Some(loc),
        forall|x: Entity| x.index != e.index ==> v.set_location(e, loc).is_alive(x) == v.is_alive(x),
{
}

} // verus!
