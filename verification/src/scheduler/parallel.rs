//! The systems of one phase for parallel execution: event handlers run one
//! after another first, then the regular systems run in batches, where no
//! two systems of a batch have conflicting access (one writes what another
//! reads or writes, or one is exclusive).

use vstd::prelude::*;
use crate::component::ComponentId;
use crate::parallel_world::{mentions, accesses_conflict, check_conflict, extend_ids, law_conflict_merge, law_conflict_symmetric};
use super::SystemId;
use super::priority::{PriorityPass, RegisteredSystem, registered_ids, enabled_in, ids_without, entries_without};

verus! {

/// Describes what a system reads and writes, for deciding which systems can
/// run at the same time.
pub struct SystemAccess {
    /// Component types the system reads.
    pub reads: Vec<ComponentId>,
    /// Component types the system writes.
    pub writes: Vec<ComponentId>,
    /// Whether the system uses commands (each system has its own buffer, so
    /// this causes no conflict).
    pub uses_commands: bool,
    /// Whether the system accesses the world exclusively.
    pub exclusive: bool,
}

/// Two system accesses conflict when either is exclusive, or one writes
/// what the other reads or writes.
pub open spec fn access_conflict(a: SystemAccess, b: SystemAccess) -> bool {
    accesses_conflict(a.reads@, a.writes@, a.exclusive, b.reads@, b.writes@, b.exclusive)
}

impl SystemAccess {
    /// Returns whether this access conflicts with another.
    pub fn conflicts_with(&self, other: &SystemAccess) -> (r: bool)
        ensures
            r == access_conflict(*self, *other),
    {
        check_conflict(&self.reads, &self.writes, self.exclusive, &other.reads, &other.writes, other.exclusive)
    }
}

impl Default for SystemAccess {
    fn default() -> (r: SystemAccess)
        ensures
            r.reads@ == Seq::<ComponentId>::empty(),
            r.writes@ == Seq::<ComponentId>::empty(),
            !r.uses_commands,
            !r.exclusive,
    {
        SystemAccess { reads: Vec::new(), writes: Vec::new(), uses_commands: false, exclusive: false }
    }
}

/// A system of a parallel pass with its access.
pub struct ParallelEntry<S> {
    pub system: S,
    pub access: SystemAccess,
}

/// Positions of regular systems that can run together.
pub struct ParallelBatch {
    pub systems: Vec<usize>,
}

/// The positions held by each batch.
pub open spec fn batch_seqs(v: Seq<ParallelBatch>) -> Seq<Seq<usize>> {
    v.map_values(|b: ParallelBatch| b.systems@)
}

/// The access of the regular system at a position.
pub open spec fn entry_access<S>(entries: Seq<RegisteredSystem<ParallelEntry<S>>>, i: int) -> SystemAccess {
    entries[i].system.access
}

/// Whether a position occurs in some batch.
pub open spec fn in_batches(bs: Seq<Seq<usize>>, i: int) -> bool {
    exists|k: int, p: int| 0 <= k < bs.len() && 0 <= p < bs[k].len() && bs[k][p] == i
}

/// Some position of `en` marked in `assigned` holds `x`.
pub open spec fn marked_position(en: Seq<usize>, assigned: Seq<bool>, x: usize) -> bool {
    exists|u: int| 0 <= u < en.len() && en[u] == x && assigned[u]
}

/// Some position of `en` not marked in `assigned` holds `x`.
pub open spec fn unmarked_position(en: Seq<usize>, assigned: Seq<bool>, x: usize) -> bool {
    exists|u: int| 0 <= u < en.len() && en[u] == x && !assigned[u]
}

/// The system at `x` conflicts with a member of `batch` placed before it.
pub open spec fn has_earlier_conflict<S>(entries: Seq<RegisteredSystem<ParallelEntry<S>>>, batch: Seq<usize>, x: usize) -> bool {
    exists|p: int|
        0 <= p < batch.len() && batch[p] < x && access_conflict(entry_access(entries, x as int), entry_access(entries, #[trigger] batch[p] as int))
}

/// The batches that the greedy assignment gives: every enabled regular
/// system is in exactly one batch, each batch is non-empty and in position
/// order, no two systems of a batch conflict, and a system sits in a later
/// batch only because it conflicts with an earlier system of every earlier
/// batch.
pub open spec fn greedy_batching<S>(bs: Seq<Seq<usize>>, entries: Seq<RegisteredSystem<ParallelEntry<S>>>) -> bool {
    &&& forall|k: int| 0 <= k < bs.len() ==> #[trigger] bs[k].len() > 0
    &&& forall|k: int, p: int, q: int| 0 <= k < bs.len() && 0 <= p < q < bs[k].len() ==> #[trigger] bs[k][p] < #[trigger] bs[k][q]
    &&& forall|k: int, p: int|
        0 <= k < bs.len() && 0 <= p < bs[k].len() ==> (#[trigger] bs[k][p] as int) < entries.len() && entries[bs[k][p] as int].enabled
    &&& forall|i: int| 0 <= i < entries.len() && #[trigger] entries[i].enabled ==> in_batches(bs, i)
    &&& forall|k1: int, p1: int, k2: int, p2: int|
        0 <= k1 < bs.len() && 0 <= p1 < bs[k1].len() && 0 <= k2 < bs.len() && 0 <= p2 < bs[k2].len() && #[trigger] bs[k1][p1]
            == #[trigger] bs[k2][p2] ==> k1 == k2 && p1 == p2
    &&& forall|k: int, p: int, q: int|
        0 <= k < bs.len() && 0 <= p < bs[k].len() && 0 <= q < bs[k].len() && p != q ==> !access_conflict(
            entry_access(entries, #[trigger] bs[k][p] as int),
            entry_access(entries, #[trigger] bs[k][q] as int),
        )
    &&& forall|k1: int, k2: int, q: int|
        #![trigger bs[k1], bs[k2][q]]
        0 <= k1 < k2 < bs.len() && 0 <= q < bs[k2].len() ==> has_earlier_conflict(entries, bs[k1], bs[k2][q])
}

/// Greedy batches stay greedy when the systems change but their accesses
/// and flags do not.
pub proof fn lemma_greedy_same_access<S>(
    bs: Seq<Seq<usize>>,
    e1: Seq<RegisteredSystem<ParallelEntry<S>>>,
    e2: Seq<RegisteredSystem<ParallelEntry<S>>>,
)
    requires
        e1.len() == e2.len(),
        forall|i: int| 0 <= i < e1.len() ==> (#[trigger] e2[i]).enabled == e1[i].enabled && e2[i].system.access == e1[i].system.access,
        greedy_batching(bs, e1),
    ensures
        greedy_batching(bs, e2),
{
    assert forall|i: int| 0 <= i < e1.len() implies #[trigger] entry_access(e2, i) == entry_access(e1, i) by {
        assert(e2[i].system.access == e1[i].system.access);
    }
    assert forall|k: int, p: int, q: int|
        0 <= k < bs.len() && 0 <= p < bs[k].len() && 0 <= q < bs[k].len() && p != q implies !access_conflict(
        entry_access(e2, #[trigger] bs[k][p] as int),
        entry_access(e2, #[trigger] bs[k][q] as int),
    ) by {
        assert(entry_access(e2, bs[k][p] as int) == entry_access(e1, bs[k][p] as int));
        assert(entry_access(e2, bs[k][q] as int) == entry_access(e1, bs[k][q] as int));
    }
    assert forall|k1: int, k2: int, q: int|
        #![trigger bs[k1], bs[k2][q]]
        0 <= k1 < k2 < bs.len() && 0 <= q < bs[k2].len() implies has_earlier_conflict(e2, bs[k1], bs[k2][q]) by {
        assert(has_earlier_conflict(e1, bs[k1], bs[k2][q]));
        let p = choose|p: int|
            0 <= p < bs[k1].len() && bs[k1][p] < bs[k2][q] && access_conflict(
                entry_access(e1, bs[k2][q] as int),
                entry_access(e1, #[trigger] bs[k1][p] as int),
            );
        assert(entry_access(e2, bs[k1][p] as int) == entry_access(e1, bs[k1][p] as int));
        assert(entry_access(e2, bs[k2][q] as int) == entry_access(e1, bs[k2][q] as int));
    }
    assert forall|i: int| 0 <= i < e2.len() && #[trigger] e2[i].enabled implies in_batches(bs, i) by {
        assert(e1[i].enabled);
    }
    assert forall|k: int, p: int| 0 <= k < bs.len() && 0 <= p < bs[k].len() implies (#[trigger] bs[k][p] as int) < e2.len()
        && e2[bs[k][p] as int].enabled by {
        assert(e1[bs[k][p] as int].enabled);
    }
}

/// The reads of the accesses of several systems, one after another.
pub open spec fn merged_reads<S>(entries: Seq<RegisteredSystem<ParallelEntry<S>>>, ms: Seq<usize>) -> Seq<ComponentId>
    decreases ms.len(),
{
    if ms.len() == 0 {
        Seq::empty()
    } else {
        merged_reads(entries, ms.drop_last()) + entry_access(entries, ms.last() as int).reads@
    }
}

/// The writes of the accesses of several systems, one after another.
pub open spec fn merged_writes<S>(entries: Seq<RegisteredSystem<ParallelEntry<S>>>, ms: Seq<usize>) -> Seq<ComponentId>
    decreases ms.len(),
{
    if ms.len() == 0 {
        Seq::empty()
    } else {
        merged_writes(entries, ms.drop_last()) + entry_access(entries, ms.last() as int).writes@
    }
}

/// Whether any of several systems is exclusive.
pub open spec fn merged_exclusive<S>(entries: Seq<RegisteredSystem<ParallelEntry<S>>>, ms: Seq<usize>) -> bool
    decreases ms.len(),
{
    if ms.len() == 0 {
        false
    } else {
        merged_exclusive(entries, ms.drop_last()) || entry_access(entries, ms.last() as int).exclusive
    }
}

/// An access conflicts with the merged accesses of several systems iff it
/// conflicts with one of them.
pub proof fn lemma_merged_conflict<S>(entries: Seq<RegisteredSystem<ParallelEntry<S>>>, ms: Seq<usize>, x: SystemAccess)
    ensures
        ms.len() > 0 ==> (accesses_conflict(x.reads@, x.writes@, x.exclusive, merged_reads(entries, ms), merged_writes(entries, ms), merged_exclusive(entries, ms))
            <==> exists|p: int| 0 <= p < ms.len() && access_conflict(x, entry_access(entries, #[trigger] ms[p] as int))),
    decreases ms.len(),
{
    if ms.len() > 0 {
        let init = ms.drop_last();
        lemma_merged_conflict(entries, init, x);
        let last = entry_access(entries, ms.last() as int);
        law_conflict_merge(
            x.reads@,
            x.writes@,
            x.exclusive,
            merged_reads(entries, init),
            merged_writes(entries, init),
            merged_exclusive(entries, init),
            last.reads@,
            last.writes@,
            last.exclusive,
        );
        assert(ms[ms.len() - 1] == ms.last());
        if init.len() == 0 {
            assert(merged_reads(entries, init) =~= Seq::<ComponentId>::empty());
            assert(merged_writes(entries, init) =~= Seq::<ComponentId>::empty());
            if accesses_conflict(x.reads@, x.writes@, x.exclusive, merged_reads(entries, init), merged_writes(entries, init), merged_exclusive(entries, init)) {
                if !x.exclusive {
                    if exists|k: int| 0 <= k < x.writes@.len() && (mentions(merged_reads(entries, init), #[trigger] x.writes@[k]) || mentions(merged_writes(entries, init), x.writes@[k])) {
                        let k = choose|k: int| 0 <= k < x.writes@.len() && (mentions(merged_reads(entries, init), #[trigger] x.writes@[k]) || mentions(merged_writes(entries, init), x.writes@[k]));
                    } else {
                        let k = choose|k: int| 0 <= k < merged_writes(entries, init).len() && mentions(x.reads@, #[trigger] merged_writes(entries, init)[k]);
                    }
                }
            }
        } else {
            if exists|p: int| 0 <= p < init.len() && access_conflict(x, entry_access(entries, #[trigger] init[p] as int)) {
                let p = choose|p: int| 0 <= p < init.len() && access_conflict(x, entry_access(entries, #[trigger] init[p] as int));
                assert(ms[p] == init[p]);
            }
            if exists|p: int| 0 <= p < ms.len() && access_conflict(x, entry_access(entries, #[trigger] ms[p] as int)) {
                let p = choose|p: int| 0 <= p < ms.len() && access_conflict(x, entry_access(entries, #[trigger] ms[p] as int));
                if p < init.len() {
                    assert(init[p] == ms[p]);
                }
            }
        }
    }
}

/// `en` lists, in increasing order, exactly the positions of the enabled
/// regular systems.
pub open spec fn enabled_positions<S>(entries: Seq<RegisteredSystem<ParallelEntry<S>>>, en: Seq<usize>) -> bool {
    &&& forall|a: int, b: int| 0 <= a < b < en.len() ==> en[a] < en[b]
    &&& forall|a: int| 0 <= a < en.len() ==> (#[trigger] en[a] as int) < entries.len() && entries[en[a] as int].enabled
    &&& forall|x: int| 0 <= x < entries.len() && #[trigger] entries[x].enabled ==> en.contains(x as usize)
}

/// What one batch does to the marks: `a1` marks exactly what `a0` marked
/// and the batch `ms`, which takes positions unmarked before, in increasing
/// order and without conflicts; every position left unmarked conflicts with
/// an earlier member of the batch.
pub open spec fn filled<S>(entries: Seq<RegisteredSystem<ParallelEntry<S>>>, en: Seq<usize>, a0: Seq<bool>, a1: Seq<bool>, ms: Seq<usize>) -> bool {
    &&& a1.len() == en.len()
    &&& forall|p: int, q: int| 0 <= p < q < ms.len() ==> ms[p] < ms[q]
    &&& forall|u: int| 0 <= u < en.len() ==> #[trigger] a1[u] == (a0[u] || ms.contains(en[u]))
    &&& forall|p: int| 0 <= p < ms.len() ==> unmarked_position(en, a0, #[trigger] ms[p])
    &&& forall|p: int, q: int|
        0 <= p < ms.len() && 0 <= q < ms.len() && p != q ==> !access_conflict(
            entry_access(entries, #[trigger] ms[p] as int),
            entry_access(entries, #[trigger] ms[q] as int),
        )
    &&& forall|u: int| 0 <= u < en.len() && !#[trigger] a1[u] ==> has_earlier_conflict(entries, ms, en[u])
}

/// The batches built so far are non-empty, in increasing order, made of
/// marked positions and hold every marked one exactly once.
pub open spec fn batches_shape(en: Seq<usize>, assigned: Seq<bool>, bs: Seq<Seq<usize>>) -> bool {
    &&& assigned.len() == en.len()
    &&& forall|k: int| 0 <= k < bs.len() ==> #[trigger] bs[k].len() > 0
    &&& forall|k: int, p: int, q: int| 0 <= k < bs.len() && 0 <= p < q < bs[k].len() ==> #[trigger] bs[k][p] < #[trigger] bs[k][q]
    &&& forall|k: int, p: int| 0 <= k < bs.len() && 0 <= p < bs[k].len() ==> marked_position(en, assigned, #[trigger] bs[k][p])
    &&& forall|u: int| 0 <= u < en.len() && #[trigger] assigned[u] ==> in_batches(bs, en[u] as int)
    &&& forall|k1: int, p1: int, k2: int, p2: int|
        0 <= k1 < bs.len() && 0 <= p1 < bs[k1].len() && 0 <= k2 < bs.len() && 0 <= p2 < bs[k2].len() && #[trigger] bs[k1][p1]
            == #[trigger] bs[k2][p2] ==> k1 == k2 && p1 == p2
}

/// No two systems of a batch conflict; each member of a later batch
/// conflicts with an earlier member of every earlier batch, and so does
/// every position still unmarked.
pub open spec fn batches_conflicts<S>(entries: Seq<RegisteredSystem<ParallelEntry<S>>>, en: Seq<usize>, assigned: Seq<bool>, bs: Seq<Seq<usize>>) -> bool {
    &&& forall|k: int, p: int, q: int|
        0 <= k < bs.len() && 0 <= p < bs[k].len() && 0 <= q < bs[k].len() && p != q ==> !access_conflict(
            entry_access(entries, #[trigger] bs[k][p] as int),
            entry_access(entries, #[trigger] bs[k][q] as int),
        )
    &&& forall|k1: int, k2: int, q: int|
        #![trigger bs[k1], bs[k2][q]]
        0 <= k1 < k2 < bs.len() && 0 <= q < bs[k2].len() ==> has_earlier_conflict(entries, bs[k1], bs[k2][q])
    &&& forall|k: int, u: int|
        #![trigger bs[k], assigned[u]]
        0 <= k < bs.len() && 0 <= u < en.len() && !assigned[u] ==> has_earlier_conflict(entries, bs[k], en[u])
}

/// The batches built so far, with `assigned` marking the positions of `en`
/// they hold.
pub open spec fn batches_so_far<S>(entries: Seq<RegisteredSystem<ParallelEntry<S>>>, en: Seq<usize>, assigned: Seq<bool>, bs: Seq<Seq<usize>>) -> bool {
    &&& batches_shape(en, assigned, bs)
    &&& batches_conflicts(entries, en, assigned, bs)
}

/// Adding a filled batch keeps the shape of the batches built so far.
pub proof fn lemma_batch_added_shape<S>(
    entries: Seq<RegisteredSystem<ParallelEntry<S>>>,
    en: Seq<usize>,
    a0: Seq<bool>,
    a1: Seq<bool>,
    old_bs: Seq<Seq<usize>>,
    ms: Seq<usize>,
)
    requires
        enabled_positions(entries, en),
        batches_so_far(entries, en, a0, old_bs),
        filled(entries, en, a0, a1, ms),
        ms.len() > 0,
    ensures
        batches_shape(en, a1, old_bs.push(ms)),
{
    let bs = old_bs.push(ms);
    let nb = old_bs.len() as int;
    assert(bs[nb] == ms);
    assert forall|k: int| 0 <= k < nb implies #[trigger] bs[k] == old_bs[k] by {}
    assert forall|k: int| 0 <= k < bs.len() implies #[trigger] bs[k].len() > 0 by {
        if k < nb {
            assert(bs[k] == old_bs[k]);
        }
    }
    assert forall|k: int, p: int, q: int| 0 <= k < bs.len() && 0 <= p < q < bs[k].len() implies #[trigger] bs[k][p] < #[trigger] bs[k][q] by {
        if k < nb {
            assert(bs[k] == old_bs[k]);
            assert(old_bs[k][p] < old_bs[k][q]);
        }
    }
    assert forall|k: int, p: int| 0 <= k < bs.len() && 0 <= p < bs[k].len() implies marked_position(en, a1, #[trigger] bs[k][p]) by {
        if k < nb {
            assert(bs[k] == old_bs[k]);
            let u = choose|u: int| 0 <= u < en.len() && en[u] == #[trigger] old_bs[k][p] && a0[u];
            assert(a1[u]);
        } else {
            let u = choose|u: int| 0 <= u < en.len() && !a0[u] && en[u] == #[trigger] ms[p];
            assert(ms.contains(en[u]));
            assert(a1[u]);
        }
    }
    assert forall|u: int| 0 <= u < en.len() && #[trigger] a1[u] implies in_batches(bs, en[u] as int) by {
        if a0[u] {
            assert(in_batches(old_bs, en[u] as int));
            let (k, p) = choose|k: int, p: int| 0 <= k < old_bs.len() && 0 <= p < old_bs[k].len() && old_bs[k][p] == en[u] as int;
            assert(bs[k] == old_bs[k]);
            assert(bs[k][p] == en[u]);
        } else {
            assert(ms.contains(en[u]));
            let p = choose|p: int| 0 <= p < ms.len() && ms[p] == en[u];
            assert(bs[nb][p] == en[u]);
        }
    }
    assert forall|k1: int, p1: int, k2: int, p2: int|
        0 <= k1 < bs.len() && 0 <= p1 < bs[k1].len() && 0 <= k2 < bs.len() && 0 <= p2 < bs[k2].len() && #[trigger] bs[k1][p1]
            == #[trigger] bs[k2][p2] implies k1 == k2 && p1 == p2 by {
        if k1 < nb && k2 < nb {
            assert(bs[k1] == old_bs[k1] && bs[k2] == old_bs[k2]);
            assert(old_bs[k1][p1] == old_bs[k2][p2]);
        } else if k1 == nb && k2 == nb {
            if p1 < p2 {
                assert(ms[p1] < ms[p2]);
            } else if p2 < p1 {
                assert(ms[p2] < ms[p1]);
            }
        } else {
            let ko = if k1 < nb { k1 } else { k2 };
            let po = if k1 < nb { p1 } else { p2 };
            let pn = if k1 < nb { p2 } else { p1 };
            assert(bs[ko] == old_bs[ko]);
            let uo = choose|u: int| 0 <= u < en.len() && en[u] == #[trigger] old_bs[ko][po] && a0[u];
            let un = choose|u: int| 0 <= u < en.len() && !a0[u] && en[u] == #[trigger] ms[pn];
            if uo < un {
                assert(en[uo] < en[un]);
            } else if un < uo {
                assert(en[un] < en[uo]);
            }
        }
    }
    assert(batches_shape(en, a1, bs));
}

/// Adding a filled batch keeps the conflict facts of the batches built so
/// far.
pub proof fn lemma_batch_added_conflicts<S>(
    entries: Seq<RegisteredSystem<ParallelEntry<S>>>,
    en: Seq<usize>,
    a0: Seq<bool>,
    a1: Seq<bool>,
    old_bs: Seq<Seq<usize>>,
    ms: Seq<usize>,
)
    requires
        enabled_positions(entries, en),
        batches_so_far(entries, en, a0, old_bs),
        filled(entries, en, a0, a1, ms),
        ms.len() > 0,
    ensures
        batches_conflicts(entries, en, a1, old_bs.push(ms)),
{
    let bs = old_bs.push(ms);
    let nb = old_bs.len() as int;
    assert(bs[nb] == ms);
    assert forall|k: int| 0 <= k < nb implies #[trigger] bs[k] == old_bs[k] by {}
    assert forall|k: int, p: int, q: int|
        0 <= k < bs.len() && 0 <= p < bs[k].len() && 0 <= q < bs[k].len() && p != q implies !access_conflict(
            entry_access(entries, #[trigger] bs[k][p] as int),
            entry_access(entries, #[trigger] bs[k][q] as int),
        ) by {
        if k < nb {
            assert(bs[k] == old_bs[k]);
            assert(!access_conflict(entry_access(entries, old_bs[k][p] as int), entry_access(entries, old_bs[k][q] as int)));
        } else {
            assert(!access_conflict(entry_access(entries, ms[p] as int), entry_access(entries, ms[q] as int)));
        }
    }
    assert forall|k1: int, k2: int, q: int|
        #![trigger bs[k1], bs[k2][q]]
        0 <= k1 < k2 < bs.len() && 0 <= q < bs[k2].len() implies has_earlier_conflict(entries, bs[k1], bs[k2][q]) by {
        assert(bs[k1] == old_bs[k1]);
        if k2 < nb {
            assert(bs[k2] == old_bs[k2]);
            assert(old_bs[k1] == old_bs[k1] && old_bs[k2][q] == bs[k2][q]);
            let p = choose|p: int|
                0 <= p < old_bs[k1].len() && old_bs[k1][p] < old_bs[k2][q] && access_conflict(
                    entry_access(entries, old_bs[k2][q] as int),
                    entry_access(entries, #[trigger] old_bs[k1][p] as int),
                );
            assert(bs[k1][p] == old_bs[k1][p]);
        } else {
            let u = choose|u: int| 0 <= u < en.len() && !a0[u] && en[u] == #[trigger] ms[q];
            assert(old_bs[k1] == old_bs[k1] && a0[u] == a0[u]);
            let p = choose|p: int|
                0 <= p < old_bs[k1].len() && old_bs[k1][p] < en[u] && access_conflict(
                    entry_access(entries, en[u] as int),
                    entry_access(entries, #[trigger] old_bs[k1][p] as int),
                );
            assert(bs[k1][p] == old_bs[k1][p]);
        }
    }
    assert forall|k: int, u: int|
        #![trigger bs[k], a1[u]]
        0 <= k < bs.len() && 0 <= u < en.len() && !a1[u] implies has_earlier_conflict(entries, bs[k], en[u]) by {
        if k < nb {
            assert(!a0[u]);
            assert(bs[k] == old_bs[k]);
            assert(old_bs[k] == old_bs[k] && a0[u] == a0[u]);
            let p = choose|p: int|
                0 <= p < old_bs[k].len() && old_bs[k][p] < en[u] && access_conflict(
                    entry_access(entries, en[u] as int),
                    entry_access(entries, #[trigger] old_bs[k][p] as int),
                );
            assert(bs[k][p] == old_bs[k][p]);
        } else {
            let p = choose|p: int|
                0 <= p < ms.len() && ms[p] < en[u] && access_conflict(
                    entry_access(entries, en[u] as int),
                    entry_access(entries, #[trigger] ms[p] as int),
                );
            assert(bs[k][p] == ms[p]);
        }
    }
}

/// Adding a filled batch keeps the batches built so far well made.
pub proof fn lemma_batch_added<S>(
    entries: Seq<RegisteredSystem<ParallelEntry<S>>>,
    en: Seq<usize>,
    a0: Seq<bool>,
    a1: Seq<bool>,
    old_bs: Seq<Seq<usize>>,
    ms: Seq<usize>,
)
    requires
        enabled_positions(entries, en),
        batches_so_far(entries, en, a0, old_bs),
        filled(entries, en, a0, a1, ms),
        ms.len() > 0,
    ensures
        batches_so_far(entries, en, a1, old_bs.push(ms)),
{
    lemma_batch_added_shape(entries, en, a0, a1, old_bs, ms);
    lemma_batch_added_conflicts(entries, en, a0, a1, old_bs, ms);
}

/// Once every enabled position is marked, the batches built so far are the
/// greedy batches.
pub proof fn lemma_batches_done<S>(entries: Seq<RegisteredSystem<ParallelEntry<S>>>, en: Seq<usize>, assigned: Seq<bool>, bs: Seq<Seq<usize>>)
    requires
        entries.len() <= usize::MAX,
        enabled_positions(entries, en),
        batches_so_far(entries, en, assigned, bs),
        forall|u: int| 0 <= u < en.len() ==> assigned[u],
    ensures
        greedy_batching(bs, entries),
{
    assert forall|x: int| 0 <= x < entries.len() && #[trigger] entries[x].enabled implies in_batches(bs, x) by {
        assert(en.contains(x as usize));
        let u = choose|u: int| 0 <= u < en.len() && en[u] == x as usize;
        assert(assigned[u]);
        assert(in_batches(bs, en[u] as int));
    }
    assert forall|k: int, p: int|
        0 <= k < bs.len() && 0 <= p < bs[k].len() implies (#[trigger] bs[k][p] as int) < entries.len() && entries[bs[k][p] as int].enabled by {
        let u = choose|u: int| 0 <= u < en.len() && en[u] == #[trigger] bs[k][p] && assigned[u];
    }
    assert(forall|k: int| 0 <= k < bs.len() ==> #[trigger] bs[k].len() > 0);
    assert(forall|k: int, p: int, q: int| 0 <= k < bs.len() && 0 <= p < q < bs[k].len() ==> #[trigger] bs[k][p] < #[trigger] bs[k][q]);
    assert(forall|k1: int, p1: int, k2: int, p2: int|
        0 <= k1 < bs.len() && 0 <= p1 < bs[k1].len() && 0 <= k2 < bs.len() && 0 <= p2 < bs[k2].len() && #[trigger] bs[k1][p1]
            == #[trigger] bs[k2][p2] ==> k1 == k2 && p1 == p2);
}

/// The number of `true` entries.
pub open spec fn count_true(s: Seq<bool>) -> nat
    decreases s.len(),
{
    if s.len() == 0 {
        0
    } else {
        count_true(s.drop_last()) + if s.last() { 1nat } else { 0nat }
    }
}

/// Setting a `false` entry to `true` counts one more.
pub proof fn lemma_count_true_set(s: Seq<bool>, t: int)
    requires
        0 <= t < s.len(),
        !s[t],
    ensures
        count_true(s.update(t, true)) == count_true(s) + 1,
        count_true(s) <= s.len(),
    decreases s.len(),
{
    lemma_count_true_bound(s);
    let u = s.update(t, true);
    if t < s.len() - 1 {
        assert(u.drop_last() =~= s.drop_last().update(t, true));
        lemma_count_true_set(s.drop_last(), t);
    } else {
        assert(u.drop_last() =~= s.drop_last());
    }
}

/// At most every entry is `true`.
pub proof fn lemma_count_true_bound(s: Seq<bool>)
    ensures
        count_true(s) <= s.len(),
    decreases s.len(),
{
    if s.len() > 0 {
        lemma_count_true_bound(s.drop_last());
    }
}

/// Returns whether some entry is `false`.
fn any_false(v: &Vec<bool>) -> (r: bool)
    ensures
        r == exists|t: int| 0 <= t < v@.len() && !v@[t],
{
    let mut i: usize = 0;
    while i < v.len()
        invariant
            i <= v@.len(),
            forall|t: int| 0 <= t < i ==> v@[t],
        decreases v@.len() - i,
    {
        if !v[i] {
            return true;
        }
        i = i + 1;
    }
    false
}

/// The systems of a phase for parallel execution, with the batches of its
/// regular systems once computed.
pub struct ParallelPass<S> {
    pass: PriorityPass<ParallelEntry<S>>,
    batches: Option<Vec<ParallelBatch>>,
}

impl<S> ParallelPass<S> {
    /// Whether each registered system runs, by raw id.
    pub closed spec fn enabled_map(&self) -> Map<u64, bool> {
        self.pass.enabled_map()
    }

    /// The regular systems, in order.
    pub closed spec fn entries(&self) -> Seq<RegisteredSystem<ParallelEntry<S>>> {
        self.pass.system_entries()
    }

    /// The ids of the event handlers, in order.
    pub closed spec fn event_ids(&self) -> Seq<u64> {
        self.pass.event_ids()
    }

    /// The ids of the regular systems, in order.
    pub closed spec fn system_ids(&self) -> Seq<u64> {
        self.pass.system_ids()
    }

    /// The enabled event handlers, then the enabled regular systems, in order.
    pub closed spec fn run_seq(&self) -> Seq<u64> {
        self.pass.run_seq()
    }

    /// The ids of the enabled event handlers, in order.
    pub closed spec fn event_run_seq(&self) -> Seq<u64> {
        self.pass.event_run_seq()
    }

    /// The registered systems with their accesses, by raw id.
    pub closed spec fn system_map(&self) -> Map<u64, ParallelEntry<S>> {
        self.pass.system_map()
    }

    /// The computed batches, if they are up to date.
    pub closed spec fn batch_view(&self) -> Option<Seq<Seq<usize>>> {
        match self.batches {
            Some(b) => Some(batch_seqs(b@)),
            None => None,
        }
    }

    /// No id is registered twice, and computed batches are the greedy
    /// batches of the current regular systems.
    pub closed spec fn wf(&self) -> bool {
        &&& self.pass.wf()
        &&& self.batches matches Some(b) ==> greedy_batching(batch_seqs(b@), self.pass.system_entries())
    }

    /// Creates an empty pass.
    pub fn new() -> (r: ParallelPass<S>)
        ensures
            r.wf(),
            r.enabled_map() == Map::<u64, bool>::empty(),
            r.event_ids() == Seq::<u64>::empty(),
            r.system_ids() == Seq::<u64>::empty(),
            r.entries() == Seq::<RegisteredSystem<ParallelEntry<S>>>::empty(),
            r.system_map() == Map::<u64, ParallelEntry<S>>::empty(),
            r.batch_view() is None,
    {
        ParallelPass { pass: PriorityPass::new(), batches: None }
    }

    /// Adds an enabled system with a new id and its access, among the event
    /// handlers or the regular systems. Computed batches are dropped.
    pub fn add(&mut self, id: SystemId, system: S, access: SystemAccess, is_event_reader: bool)
        requires
            old(self).wf(),
            !old(self).enabled_map().contains_key(id.0),
        ensures
            final(self).wf(),
            final(self).enabled_map() == old(self).enabled_map().insert(id.0, true),
            is_event_reader ==> final(self).event_ids() == old(self).event_ids().push(id.0)
                && final(self).system_ids() == old(self).system_ids(),
            !is_event_reader ==> final(self).system_ids() == old(self).system_ids().push(id.0)
                && final(self).event_ids() == old(self).event_ids(),
            final(self).system_map() == old(self).system_map().insert(id.0, (ParallelEntry { system, access })),
            is_event_reader ==> final(self).entries() == old(self).entries(),
            !is_event_reader ==> final(self).entries() == old(self).entries().push(
                (RegisteredSystem { id, system: (ParallelEntry { system, access }), enabled: true }),
            ),
            final(self).batch_view() is None,
    {
        self.batches = None;
        self.pass.add(id, ParallelEntry { system, access }, is_event_reader);
    }

    /// Removes a system. Returns whether it was registered. Computed
    /// batches are dropped.
    pub fn remove(&mut self, id: SystemId) -> (r: bool)
        requires
            old(self).wf(),
        ensures
            final(self).wf(),
            r == old(self).enabled_map().contains_key(id.0),
            final(self).enabled_map() == old(self).enabled_map().remove(id.0),
            final(self).event_ids() == ids_without(old(self).event_ids(), id.0),
            final(self).system_ids() == ids_without(old(self).system_ids(), id.0),
            final(self).entries() == entries_without(old(self).entries(), id.0),
            final(self).batch_view() is None,
    {
        self.batches = None;
        self.pass.remove(id)
    }

    /// Enables or disables a system. Returns whether it was registered.
    /// Computed batches are dropped.
    pub fn set_enabled(&mut self, id: SystemId, enabled: bool) -> (r: bool)
        requires
            old(self).wf(),
        ensures
            final(self).wf(),
            r == old(self).enabled_map().contains_key(id.0),
            r ==> final(self).enabled_map() == old(self).enabled_map().insert(id.0, enabled),
            !r ==> final(self).enabled_map() == old(self).enabled_map(),
            final(self).event_ids() == old(self).event_ids(),
            final(self).system_ids() == old(self).system_ids(),
            final(self).batch_view() is None,
    {
        self.batches = None;
        self.pass.set_enabled(id, enabled)
    }

    /// Returns whether a system is enabled, or `None` if it is not registered.
    pub fn is_enabled(&self, id: SystemId) -> (r: Option<bool>)
        requires
            self.wf(),
        ensures
            r == (if self.enabled_map().contains_key(id.0) { Some(self.enabled_map()[id.0]) } else { None }),
    {
        self.pass.is_enabled(id)
    }

    /// Returns the number of systems, enabled or not.
    pub fn count(&self) -> (r: usize)
        requires
            self.wf(),
            self.enabled_map().len() <= usize::MAX,
        ensures
            r == self.enabled_map().len(),
    {
        proof {
            crate::keyed::lemma_keyed_len(self.pass.id_seq(), self.pass.flag_seq());
        }
        self.pass.count()
    }

    /// Removes every system.
    pub fn clear(&mut self)
        ensures
            final(self).wf(),
            final(self).enabled_map() == Map::<u64, bool>::empty(),
            final(self).batch_view() is None,
    {
        self.pass.clear();
        self.batches = None;
    }

    /// Returns the ids of the enabled event handlers, in order: they run one
    /// after another before the batches.
    pub fn event_order(&self) -> (r: Vec<SystemId>)
        ensures
            r@.map_values(|x: SystemId| x.0) == self.event_run_seq(),
    {
        self.pass.event_order()
    }

    /// The enabled event handlers run first, one after another, in the order
    /// they were added.
    pub proof fn law_event_order(&self)
        requires
            self.wf(),
        ensures
            self.event_run_seq() == enabled_in(self.event_ids(), self.enabled_map()),
    {
        self.pass.law_run_order();
    }

    /// Returns the ids of the regular systems, enabled or not, in order;
    /// batches name them by position in this list.
    pub fn regular_ids(&self) -> (r: Vec<SystemId>)
        ensures
            r@.map_values(|x: SystemId| x.0) == self.system_ids(),
            r@.len() == self.entries().len(),
    {
        let n = self.pass.system_len();
        proof {
            self.pass.lemma_system_ids();
        }
        let mut out: Vec<SystemId> = Vec::new();
        let mut i: usize = 0;
        while i < n
            invariant
                i <= n,
                n == self.entries().len(),
                self.system_ids() == registered_ids(self.entries()),
                out@.len() == i,
                out@.map_values(|x: SystemId| x.0) == self.system_ids().subrange(0, i as int),
            decreases n - i,
        {
            let ghost before = out@;
            out.push(self.pass.system_at(i).id);
            proof {
                assert(out@.map_values(|x: SystemId| x.0) =~= self.system_ids().subrange(0, i as int + 1));
            }
            i = i + 1;
        }
        proof {
            assert(self.system_ids().subrange(0, i as int) =~= self.system_ids());
        }
        out
    }

    /// Returns the event handler registered under an id, for running it;
    /// `None` if no event handler has that id. The batches stay valid.
    pub fn event_handler_mut(&mut self, id: SystemId) -> (r: Option<&mut S>)
        requires
            old(self).wf(),
        ensures
            final(self).wf(),
            r is Some <==> old(self).event_ids().contains(id.0),
            final(self).entries() == old(self).entries(),
            final(self).enabled_map() == old(self).enabled_map(),
            final(self).event_ids() == old(self).event_ids(),
            final(self).system_ids() == old(self).system_ids(),
            final(self).event_run_seq() == old(self).event_run_seq(),
            final(self).batch_view() == old(self).batch_view(),
            r matches Some(x) ==> *x == old(self).system_map()[id.0].system && final(self).system_map() == old(self).system_map().insert(
                id.0,
                ParallelEntry { system: *final(x), access: old(self).system_map()[id.0].access },
            ),
            r is None ==> final(self).system_map() == old(self).system_map(),
    {
        match self.pass.event_mut(id) {
            Some(entry) => Some(&mut entry.system),
            None => None,
        }
    }

    /// Returns the regular system at a position, for running it. The
    /// batches stay valid.
    pub fn regular_system_mut(&mut self, pos: usize) -> (r: &mut S)
        requires
            old(self).wf(),
            (pos as int) < old(self).entries().len(),
        ensures
            final(self).wf(),
            *r == old(self).entries()[pos as int].system.system,
            final(self).entries() == old(self).entries().update(
                pos as int,
                RegisteredSystem {
                    id: old(self).entries()[pos as int].id,
                    system: ParallelEntry { system: *final(r), access: old(self).entries()[pos as int].system.access },
                    enabled: old(self).entries()[pos as int].enabled,
                },
            ),
            final(self).enabled_map() == old(self).enabled_map(),
            final(self).event_ids() == old(self).event_ids(),
            final(self).system_ids() == old(self).system_ids(),
            final(self).event_run_seq() == old(self).event_run_seq(),
            final(self).batch_view() == old(self).batch_view(),
    {
        proof {
            let e1 = self.pass.system_entries();
            assert forall|e2: Seq<RegisteredSystem<ParallelEntry<S>>>, bs: Seq<Seq<usize>>|
                e2.len() == e1.len() && (forall|i: int| 0 <= i < e1.len() ==> (#[trigger] e2[i]).enabled == e1[i].enabled
                    && e2[i].system.access == e1[i].system.access) && greedy_batching(bs, e1) implies #[trigger] greedy_batching(
                bs,
                e2,
            ) by {
                lemma_greedy_same_access(bs, e1, e2);
            }
        }
        let entry = self.pass.system_at_mut(pos);
        &mut entry.system
    }

    /// Returns the computed batches, if they are up to date.
    pub fn batches(&self) -> (r: Option<&Vec<ParallelBatch>>)
        ensures
            match r {
                Some(b) => self.batch_view() == Some(batch_seqs(b@)),
                None => self.batch_view() is None,
            },
    {
        match &self.batches {
            Some(b) => Some(b),
            None => None,
        }
    }

    /// Fills one batch: scans the systems at the positions `en` in order and
    /// takes every unassigned one that conflicts with none of the systems
    /// the batch already holds (an empty batch takes any system), marking
    /// it assigned. Returns the positions taken.
    fn fill_batch(&self, en: &Vec<usize>, assigned: &mut Vec<bool>) -> (members: Vec<usize>)
        requires
            old(assigned)@.len() == en@.len(),
            forall|a: int, b: int| 0 <= a < b < en@.len() ==> en@[a] < en@[b],
            forall|a: int| 0 <= a < en@.len() ==> (#[trigger] en@[a] as int) < self.entries().len(),
        ensures
            filled(self.entries(), en@, old(assigned)@, final(assigned)@, members@),
            (exists|u: int| 0 <= u < en@.len() && !old(assigned)@[u]) ==> members@.len() > 0,
            count_true(final(assigned)@) == count_true(old(assigned)@) + members@.len(),
    {
        let ghost entries = self.entries();
        let ghost a0 = assigned@;
        let m = en.len();
        let mut members: Vec<usize> = Vec::new();
        let mut batch_access = SystemAccess::default();
        proof {
            assert(merged_reads(entries, members@) =~= Seq::<ComponentId>::empty());
            assert(merged_writes(entries, members@) =~= Seq::<ComponentId>::empty());
        }
        let mut t: usize = 0;
        while t < m
            invariant
                t <= m,
                m == en@.len(),
                entries == self.entries(),
                assigned@.len() == m,
                a0.len() == m,
                forall|a: int, b: int| 0 <= a < b < m ==> en@[a] < en@[b],
                forall|a: int| 0 <= a < m ==> (#[trigger] en@[a] as int) < entries.len(),
                forall|u: int| t <= u < m ==> #[trigger] assigned@[u] == a0[u],
                forall|u: int| 0 <= u < t ==> #[trigger] assigned@[u] == (a0[u] || members@.contains(en@[u])),
                forall|p: int| 0 <= p < members@.len() ==> exists|u: int| 0 <= u < t && !a0[u] && en@[u] == #[trigger] members@[p],
                forall|p: int, q: int| 0 <= p < q < members@.len() ==> members@[p] < members@[q],
                forall|p: int| 0 <= p < members@.len() && (t as int) < m ==> #[trigger] members@[p] < en@[t as int],
                count_true(assigned@) == count_true(a0) + members@.len(),
                batch_access.reads@ == merged_reads(entries, members@),
                batch_access.writes@ == merged_writes(entries, members@),
                batch_access.exclusive == merged_exclusive(entries, members@),
                forall|p: int, q: int|
                    0 <= p < members@.len() && 0 <= q < members@.len() && p != q ==> !access_conflict(
                        entry_access(entries, #[trigger] members@[p] as int),
                        entry_access(entries, #[trigger] members@[q] as int),
                    ),
                forall|u: int|
                    0 <= u < t && !#[trigger] assigned@[u] ==> exists|p: int|
                        0 <= p < members@.len() && members@[p] < en@[u] && access_conflict(
                            entry_access(entries, en@[u] as int),
                            entry_access(entries, #[trigger] members@[p] as int),
                        ),
                (exists|u: int| 0 <= u < t && !a0[u]) ==> members@.len() > 0,
            decreases m - t,
        {
            if !assigned[t] {
                let idx = en[t];
                let entry = self.pass.system_at(idx);
                let can_add = members.len() == 0 || !entry.system.access.conflicts_with(&batch_access);
                let ghost before = members@;
                let ghost assigned_before = assigned@;
                proof {
                    lemma_merged_conflict(entries, before, entry_access(entries, idx as int));
                }
                if can_add {
                    proof {
                        lemma_count_true_set(assigned@, t as int);
                        assert forall|p: int| 0 <= p < before.len() implies !access_conflict(
                            entry_access(entries, idx as int),
                            entry_access(entries, #[trigger] before[p] as int),
                        ) && !access_conflict(entry_access(entries, before[p] as int), entry_access(entries, idx as int)) by {
                            let x = entry_access(entries, idx as int);
                            let y = entry_access(entries, before[p] as int);
                            law_conflict_symmetric(x.reads@, x.writes@, x.exclusive, y.reads@, y.writes@, y.exclusive);
                        }
                    }
                    members.push(idx);
                    assigned.set(t, true);
                    extend_ids(&mut batch_access.reads, &entry.system.access.reads);
                    extend_ids(&mut batch_access.writes, &entry.system.access.writes);
                    batch_access.exclusive = batch_access.exclusive || entry.system.access.exclusive;
                    proof {
                        assert(members@.drop_last() =~= before);
                        assert(members@.last() == idx);
                        assert forall|u: int| 0 <= u < t + 1 implies #[trigger] assigned@[u] == (a0[u] || members@.contains(en@[u])) by {
                            if u < t {
                                assert(assigned_before[u] == (a0[u] || before.contains(en@[u])));
                                if members@.contains(en@[u]) && !before.contains(en@[u]) {
                                    let p = choose|p: int| 0 <= p < members@.len() && members@[p] == en@[u];
                                    if p < before.len() {
                                        assert(before[p] == en@[u]);
                                    } else {
                                        assert(en@[u] < en@[t as int]);
                                    }
                                }
                                if before.contains(en@[u]) {
                                    let p = choose|p: int| 0 <= p < before.len() && before[p] == en@[u];
                                    assert(members@[p] == en@[u]);
                                }
                            } else {
                                assert(members@[before.len() as int] == en@[u]);
                            }
                        }
                        assert forall|p: int| 0 <= p < members@.len() implies exists|u: int|
                            0 <= u < t + 1 && !a0[u] && en@[u] == #[trigger] members@[p] by {
                            if p < before.len() {
                                assert(before[p] == members@[p]);
                                let u = choose|u: int| 0 <= u < t && !a0[u] && en@[u] == #[trigger] before[p];
                            } else {
                                assert(en@[t as int] == members@[p]);
                            }
                        }
                        assert forall|p: int| 0 <= p < members@.len() && (t as int) + 1 < m implies #[trigger] members@[p] < en@[t + 1] by {
                            if p < before.len() {
                                assert(before[p] == members@[p]);
                                assert(before[p] < en@[t as int]);
                            }
                        }
                        assert forall|p: int, q: int|
                            0 <= p < members@.len() && 0 <= q < members@.len() && p != q implies !access_conflict(
                                entry_access(entries, #[trigger] members@[p] as int),
                                entry_access(entries, #[trigger] members@[q] as int),
                            ) by {
                            if p < before.len() && q < before.len() {
                                assert(before[p] == members@[p] && before[q] == members@[q]);
                            } else if p < before.len() {
                                assert(before[p] == members@[p]);
                            } else if q < before.len() {
                                assert(before[q] == members@[q]);
                            }
                        }
                        assert forall|u: int|
                            0 <= u < t + 1 && !#[trigger] assigned@[u] implies exists|p: int|
                                0 <= p < members@.len() && members@[p] < en@[u] && access_conflict(
                                    entry_access(entries, en@[u] as int),
                                    entry_access(entries, #[trigger] members@[p] as int),
                                ) by {
                            assert(u < t);
                            assert(!assigned_before[u]);
                            let p = choose|p: int|
                                0 <= p < before.len() && before[p] < en@[u] && access_conflict(
                                    entry_access(entries, en@[u] as int),
                                    entry_access(entries, #[trigger] before[p] as int),
                                );
                            assert(members@[p] == before[p]);
                        }
                    }
                } else {
                    proof {
                        let p = choose|p: int| 0 <= p < before.len() && access_conflict(
                            entry_access(entries, idx as int),
                            entry_access(entries, #[trigger] before[p] as int),
                        );
                        assert(before[p] < en@[t as int]);
                        assert forall|p: int| 0 <= p < members@.len() && (t as int) + 1 < m implies #[trigger] members@[p] < en@[t + 1] by {
                            assert(members@[p] < en@[t as int]);
                        }
                    }
                }
            } else {
                proof {
                    assert forall|p: int| 0 <= p < members@.len() && (t as int) + 1 < m implies #[trigger] members@[p] < en@[t + 1] by {
                        assert(members@[p] < en@[t as int]);
                    }
                }
            }
            t = t + 1;
        }
        members
    }

    /// Computes the batches of the enabled regular systems, greedily: each
    /// batch takes, in order, every remaining system that conflicts with
    /// none of the systems it already holds; an empty batch takes any
    /// system, exclusive ones included. Up-to-date batches are kept.
    pub fn compute_batches(&mut self)
        requires
            old(self).wf(),
        ensures
            final(self).wf(),
            final(self).enabled_map() == old(self).enabled_map(),
            final(self).entries() == old(self).entries(),
            final(self).event_ids() == old(self).event_ids(),
            final(self).system_ids() == old(self).system_ids(),
            final(self).run_seq() == old(self).run_seq(),
            old(self).batch_view() is Some ==> final(self).batch_view() == old(self).batch_view(),
            final(self).batch_view() matches Some(bs) && greedy_batching(bs, final(self).entries()),
    {
        if self.batches.is_some() {
            return;
        }
        let ghost entries = self.entries();
        let n = self.pass.system_len();
        let mut en: Vec<usize> = Vec::new();
        let mut i: usize = 0;
        while i < n
            invariant
                i <= n,
                n == entries.len(),
                entries == self.entries(),
                forall|a: int, b: int| 0 <= a < b < en@.len() ==> en@[a] < en@[b],
                forall|a: int| 0 <= a < en@.len() ==> (#[trigger] en@[a] as int) < i && entries[en@[a] as int].enabled,
                forall|x: int| 0 <= x < i && #[trigger] entries[x].enabled ==> en@.contains(x as usize),
            decreases n - i,
        {
            let ghost before = en@;
            if self.pass.system_at(i).enabled {
                en.push(i);
                proof {
                    assert(en@[before.len() as int] == i);
                    assert forall|x: int| 0 <= x < i + 1 && #[trigger] entries[x].enabled implies en@.contains(x as usize) by {
                        if x < i {
                            let p = choose|p: int| 0 <= p < before.len() && before[p] == x as usize;
                            assert(en@[p] == x as usize);
                        }
                    }
                }
            }
            i = i + 1;
        }
        proof {
            assert(enabled_positions(entries, en@));
        }
        let m = en.len();
        let mut assigned: Vec<bool> = Vec::new();
        let mut t0: usize = 0;
        while t0 < m
            invariant
                t0 <= m,
                assigned@.len() == t0,
                forall|t: int| 0 <= t < t0 ==> !assigned@[t],
            decreases m - t0,
        {
            assigned.push(false);
            t0 = t0 + 1;
        }
        proof {
            lemma_count_true_none(assigned@);
        }
        let mut batches: Vec<ParallelBatch> = Vec::new();
        proof {
            assert(batches_so_far(entries, en@, assigned@, batch_seqs(batches@)));
        }
        while any_false(&assigned)
            invariant
                entries == self.entries(),
                m == en@.len(),
                count_true(assigned@) <= m,
                enabled_positions(entries, en@),
                batches_so_far(entries, en@, assigned@, batch_seqs(batches@)),
            decreases m - count_true(assigned@),
        {
            let ghost a0 = assigned@;
            let ghost old_bs = batch_seqs(batches@);
            let members = self.fill_batch(&en, &mut assigned);
            let ghost ms = members@;
            proof {
                lemma_count_true_bound(assigned@);
            }
            batches.push(ParallelBatch { systems: members });
            proof {
                assert(batch_seqs(batches@) =~= old_bs.push(ms));
                lemma_batch_added(entries, en@, a0, assigned@, old_bs, ms);
            }
        }
        proof {
            lemma_batches_done(entries, en@, assigned@, batch_seqs(batches@));
        }
        self.batches = Some(batches);
    }
}

/// No entry of an all-`false` sequence is counted.
pub proof fn lemma_count_true_none(s: Seq<bool>)
    requires
        forall|t: int| 0 <= t < s.len() ==> !s[t],
    ensures
        count_true(s) == 0,
    decreases s.len(),
{
    if s.len() > 0 {
        lemma_count_true_none(s.drop_last());
    }
}

} // verus!
