//! A pool of command queues for systems that run side by side: each
//! system claims its own queue, and the pool applies the claimed queues in
//! claim order once the systems are done.

use vstd::prelude::*;
use crate::world::World;
use super::{WorldCommand, spawn_count, commands_lead_to};
use super::queue::{CommandQueue, apply_order};

verus! {

/// Applying queues one after another, each in its application order, leads
/// from `m0` to `m1`.
pub open spec fn queues_lead_to<V>(
    m0: Map<crate::entity::Entity, Map<u64, V>>,
    qs: Seq<Seq<WorldCommand<V>>>,
    m1: Map<crate::entity::Entity, Map<u64, V>>,
) -> bool
    decreases qs.len(),
{
    if qs.len() == 0 {
        m1 == m0
    } else {
        exists|mid: Map<crate::entity::Entity, Map<u64, V>>|
            queues_lead_to(m0, qs.drop_last(), mid) && #[trigger] commands_lead_to(mid, apply_order(qs.last()), m1)
    }
}

/// The spawns of several queues.
pub open spec fn total_spawns<V>(qs: Seq<Seq<WorldCommand<V>>>) -> nat
    decreases qs.len(),
{
    if qs.len() == 0 {
        0
    } else {
        total_spawns(qs.drop_last()) + spawn_count(qs.last())
    }
}

/// A pool of command queues, claimed one at a time.
pub struct ParallelCommandBuffers<V> {
    buffers: Vec<CommandQueue<V>>,
    next: usize,
    capacity: usize,
}

impl<V> ParallelCommandBuffers<V> {
    /// The commands of every queue of the pool.
    pub closed spec fn queues(&self) -> Seq<Seq<WorldCommand<V>>> {
        self.buffers@.map_values(|q: CommandQueue<V>| q@)
    }

    /// The commands of the claimed queues, in claim order.
    pub open spec fn claimed_queues(&self) -> Seq<Seq<WorldCommand<V>>> {
        self.queues().subrange(0, self.claimed() as int)
    }

    /// The number of claimed queues.
    pub closed spec fn claimed(&self) -> usize {
        self.next
    }

    /// The number of queues.
    pub closed spec fn cap(&self) -> usize {
        self.capacity
    }

    /// One queue per unit of capacity, and no more claimed than there are.
    pub closed spec fn wf(&self) -> bool {
        &&& self.buffers@.len() == self.capacity
        &&& self.next <= self.capacity
    }

    /// Every queue is well formed.
    pub closed spec fn queues_wf(&self) -> bool {
        forall|k: int| 0 <= k < self.buffers@.len() ==> (#[trigger] self.buffers@[k]).wf()
    }

    /// Creates a pool of empty queues.
    pub fn new(capacity: usize) -> (r: ParallelCommandBuffers<V>)
        ensures
            r.wf(),
            r.queues_wf(),
            r.cap() == capacity,
            r.claimed() == 0,
            r.queues().len() == capacity,
            forall|k: int| 0 <= k < capacity ==> (#[trigger] r.queues()[k]) == Seq::<WorldCommand<V>>::empty(),
    {
        let mut buffers: Vec<CommandQueue<V>> = Vec::new();
        let mut i: usize = 0;
        while i < capacity
            invariant
                i <= capacity,
                buffers@.len() == i,
                forall|k: int| 0 <= k < i ==> (#[trigger] buffers@[k]).wf() && buffers@[k]@ == Seq::<WorldCommand<V>>::empty(),
            decreases capacity - i,
        {
            buffers.push(CommandQueue::new());
            i = i + 1;
        }
        ParallelCommandBuffers { buffers, next: 0, capacity }
    }

    /// Returns the number of queues.
    pub fn capacity(&self) -> (r: usize)
        ensures
            r == self.cap(),
    {
        self.capacity
    }

    /// Returns the number of spawns queued in the claimed queues, or
    /// `u64::MAX` if there are more.
    pub fn claimed_spawns(&self) -> (r: u64)
        requires
            self.wf(),
        ensures
            r == if total_spawns(self.claimed_queues()) <= u64::MAX {
                total_spawns(self.claimed_queues()) as u64
            } else {
                u64::MAX
            },
    {
        let ghost qs = self.claimed_queues();
        let mut total: u64 = 0;
        let mut k: usize = 0;
        while k < self.next
            invariant
                self.wf(),
                k <= self.next,
                qs == self.claimed_queues(),
                total == if total_spawns(qs.subrange(0, k as int)) <= u64::MAX {
                    total_spawns(qs.subrange(0, k as int)) as u64
                } else {
                    u64::MAX
                },
            decreases self.next - k,
        {
            proof {
                assert(qs.subrange(0, k as int + 1).drop_last() =~= qs.subrange(0, k as int));
                assert(qs.subrange(0, k as int + 1).last() == self.buffers@[k as int]@);
            }
            let n = self.buffers[k].spawn_count();
            total = total.saturating_add(n as u64);
            k = k + 1;
        }
        proof {
            assert(qs.subrange(0, k as int) =~= qs);
        }
        total
    }

    /// Returns the number of claimed queues.
    pub fn claimed_count(&self) -> (r: usize)
        ensures
            r == self.claimed(),
    {
        self.next
    }

    /// Starts a new round of claims; the queues are not cleared.
    pub fn reset(&mut self)
        requires
            old(self).wf(),
        ensures
            final(self).wf(),
            final(self).claimed() == 0,
            final(self).cap() == old(self).cap(),
            final(self).queues() == old(self).queues(),
            old(self).queues_wf() ==> final(self).queues_wf(),
    {
        self.next = 0;
    }

    /// Applies the claimed queues to the world, in claim order, empties
    /// them, and starts a new round of claims.
    pub fn flush(&mut self, world: &mut World<V>)
        requires
            old(self).wf(),
            old(self).queues_wf(),
            old(world).wf(),
            old(world).spawn_capacity() >= total_spawns(old(self).claimed_queues()),
        ensures
            final(self).wf(),
            final(self).queues_wf(),
            final(self).claimed() == 0,
            final(self).cap() == old(self).cap(),
            final(self).queues().len() == old(self).queues().len(),
            forall|k: int| 0 <= k < old(self).claimed() ==> (#[trigger] final(self).queues()[k]) == Seq::<WorldCommand<V>>::empty(),
            forall|k: int| old(self).claimed() <= k < old(self).queues().len() ==> #[trigger] final(self).queues()[k] == old(self).queues()[k],
            final(world).wf(),
            queues_lead_to(old(world)@, old(self).claimed_queues(), final(world)@),
            final(world).spawn_capacity() >= old(world).spawn_capacity() - total_spawns(old(self).claimed_queues()),
            final(world).singleton_map() == old(world).singleton_map(),
            final(world).event_store() == old(world).event_store(),
            final(world).tick_count() == old(world).tick_count(),
    {
        let ghost qs = old(self).claimed_queues();
        let ghost all = old(self).queues();
        let ghost w0 = world@;
        let count = self.next;
        let mut i: usize = 0;
        proof {
            assert(qs.subrange(0, 0) =~= Seq::<Seq<WorldCommand<V>>>::empty());
        }
        while i < count
            invariant
                i <= count,
                count == old(self).claimed(),
                qs == all.subrange(0, count as int),
                self.wf(),
                self.queues_wf(),
                self.next == count,
                self.capacity == old(self).cap(),
                self.queues().len() == all.len(),
                forall|k: int| 0 <= k < i ==> (#[trigger] self.queues()[k]) == Seq::<WorldCommand<V>>::empty(),
                forall|k: int| i <= k < all.len() ==> #[trigger] self.queues()[k] == all[k],
                world.wf(),
                queues_lead_to(w0, qs.subrange(0, i as int), world@),
                world.spawn_capacity() + total_spawns(qs.subrange(0, i as int)) >= old(world).spawn_capacity(),
                old(world).spawn_capacity() >= total_spawns(qs),
                world.singleton_map() == old(world).singleton_map(),
                world.event_store() == old(world).event_store(),
                world.tick_count() == old(world).tick_count(),
            decreases count - i,
        {
            let ghost mid = world@;
            let ghost prev = self.buffers@;
            let ghost prevq = self.queues();
            proof {
                assert forall|k: int| 0 <= k < prev.len() implies #[trigger] prevq[k] == prev[k]@ by {}
                lemma_total_prefix(qs, i as int + 1);
                assert(qs.subrange(0, i as int + 1).drop_last() =~= qs.subrange(0, i as int));
                assert(qs.subrange(0, i as int + 1).last() == all[i as int]);
                assert(self.queues()[i as int] == self.buffers@[i as int]@);
                assert(self.buffers@[i as int].wf());
            }
            self.buffers[i].apply(world);
            proof {
                assert forall|k: int| 0 <= k < self.buffers@.len() implies #[trigger] self.queues()[k] == self.buffers@[k]@ && (k != i ==> self.buffers@[k] == prev[k]) by {}
                assert forall|k: int| 0 <= k < i + 1 implies (#[trigger] self.queues()[k]) == Seq::<WorldCommand<V>>::empty() by {
                    assert(self.queues()[k] == self.buffers@[k]@);
                    if k < i {
                        assert(self.buffers@[k] == prev[k]);
                        assert(prevq[k] == prev[k]@);
                    }
                }
                assert forall|k: int| i + 1 <= k < all.len() implies #[trigger] self.queues()[k] == all[k] by {
                    assert(self.queues()[k] == self.buffers@[k]@);
                    assert(self.buffers@[k] == prev[k]);
                    assert(prevq[k] == prev[k]@);
                }
                assert(commands_lead_to(mid, apply_order(qs.subrange(0, i as int + 1).last()), world@));
                assert(queues_lead_to(w0, qs.subrange(0, i as int + 1), world@));
            }
            i = i + 1;
        }
        proof {
            assert(qs.subrange(0, count as int) =~= qs);
        }
        self.next = 0;
    }

    /// Drops the commands of the claimed queues without applying them and
    /// starts a new round of claims.
    pub fn clear(&mut self)
        requires
            old(self).wf(),
            old(self).queues_wf(),
        ensures
            final(self).wf(),
            final(self).queues_wf(),
            final(self).claimed() == 0,
            final(self).cap() == old(self).cap(),
            final(self).queues().len() == old(self).queues().len(),
            forall|k: int| 0 <= k < old(self).claimed() ==> (#[trigger] final(self).queues()[k]) == Seq::<WorldCommand<V>>::empty(),
            forall|k: int| old(self).claimed() <= k < old(self).queues().len() ==> #[trigger] final(self).queues()[k] == old(self).queues()[k],
    {
        let ghost all = old(self).queues();
        let count = self.next;
        let mut i: usize = 0;
        while i < count
            invariant
                i <= count,
                count == old(self).claimed(),
                self.wf(),
                self.queues_wf(),
                self.next == count,
                self.capacity == old(self).cap(),
                self.queues().len() == all.len(),
                forall|k: int| 0 <= k < i ==> (#[trigger] self.queues()[k]) == Seq::<WorldCommand<V>>::empty(),
                forall|k: int| i <= k < all.len() ==> #[trigger] self.queues()[k] == all[k],
            decreases count - i,
        {
            let ghost prev = self.buffers@;
            let ghost prevq = self.queues();
            proof {
                assert forall|k: int| 0 <= k < prev.len() implies #[trigger] prevq[k] == prev[k]@ by {}
            }
            self.buffers[i].clear();
            proof {
                assert forall|k: int| 0 <= k < self.buffers@.len() implies #[trigger] self.queues()[k] == self.buffers@[k]@ && (k != i ==> self.buffers@[k] == prev[k]) by {}
                assert forall|k: int| 0 <= k < i + 1 implies (#[trigger] self.queues()[k]) == Seq::<WorldCommand<V>>::empty() by {
                    assert(self.queues()[k] == self.buffers@[k]@);
                    if k < i {
                        assert(self.buffers@[k] == prev[k]);
                        assert(prevq[k] == prev[k]@);
                    }
                }
                assert forall|k: int| i + 1 <= k < all.len() implies #[trigger] self.queues()[k] == all[k] by {
                    assert(self.queues()[k] == self.buffers@[k]@);
                    assert(self.buffers@[k] == prev[k]);
                    assert(prevq[k] == prev[k]@);
                }
            }
            i = i + 1;
        }
        self.next = 0;
    }

    /// Claims the next queue for the exclusive use of one system. There
    /// must be an unclaimed queue left.
    pub fn claim(&mut self) -> (r: &mut CommandQueue<V>)
        requires
            old(self).wf(),
            old(self).claimed() < old(self).cap(),
        ensures
            final(self).wf(),
            final(self).claimed() == old(self).claimed() + 1,
            final(self).cap() == old(self).cap(),
            r@ == old(self).queues()[old(self).claimed() as int],
            old(self).queues_wf() ==> r.wf(),
            final(self).queues() == old(self).queues().update(old(self).claimed() as int, final(r)@),
            final(self).queues_wf() <== (old(self).queues_wf() && final(r).wf()),
    {
        let idx = self.next;
        self.next = idx + 1;
        &mut self.buffers[idx]
    }
}

/// The spawns of a prefix of queues are at most those of all of them.
pub proof fn lemma_total_prefix<V>(qs: Seq<Seq<WorldCommand<V>>>, i: int)
    requires
        0 <= i <= qs.len(),
    ensures
        total_spawns(qs.subrange(0, i)) <= total_spawns(qs),
    decreases qs.len() - i,
{
    if i < qs.len() {
        lemma_total_prefix(qs, i + 1);
        assert(qs.subrange(0, i + 1).drop_last() =~= qs.subrange(0, i));
    } else {
        assert(qs.subrange(0, i) =~= qs);
    }
}

} // verus!
