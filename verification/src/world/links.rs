//! How entity slots and archetype rows refer to each other, and the view of
//! the world they give: every row names a live entity whose slot records
//! that row, and every recorded location is a row naming that slot.

use vstd::prelude::*;
use crate::entity::{EntitiesView, Entity, EntityLocation};
use crate::archetype::archetype::{Archetype, pos_of, seq_swap_remove};

verus! {

/// Row `r` of archetype `a` names an entity whose slot carries its
/// generation and records that row.
pub open spec fn row_linked<V>(ents: EntitiesView, archs: Seq<Archetype<V>>, a: int, r: int) -> bool {
    let x = archs[a].entity_seq()[r];
    &&& (x.index as int) < ents.slots.len()
    &&& ents.slots[x.index as int].generation == x.generation
    &&& ents.slots[x.index as int].location is Some
    &&& ents.slots[x.index as int].location->0.archetype as int == a
    &&& ents.slots[x.index as int].location->0.slot as int == r
}

/// The location recorded in slot `i`, if any, is a row naming index `i`.
pub open spec fn slot_linked<V>(ents: EntitiesView, archs: Seq<Archetype<V>>, i: int) -> bool {
    ents.slots[i].location is Some ==> {
        let loc = ents.slots[i].location->0;
        &&& (loc.archetype as int) < archs.len()
        &&& (loc.slot as int) < archs[loc.archetype as int].entity_seq().len()
        &&& archs[loc.archetype as int].entity_seq()[loc.slot as int].index == i
    }
}

/// Every row is linked.
pub open spec fn rows_linked<V>(ents: EntitiesView, archs: Seq<Archetype<V>>) -> bool {
    forall|a: int, r: int|
        0 <= a < archs.len() && 0 <= r < archs[a].entity_seq().len() ==> #[trigger] row_linked(ents, archs, a, r)
}

/// Every row and every slot is linked.
pub open spec fn linked<V>(ents: EntitiesView, archs: Seq<Archetype<V>>) -> bool {
    &&& rows_linked(ents, archs)
    &&& forall|i: int| 0 <= i < ents.slots.len() ==> #[trigger] slot_linked(ents, archs, i)
}

/// Everything is linked except the slot of `e`, which carries `e`'s
/// generation, is not free, and is named by no row: `e` is between rows.
pub open spec fn linked_but<V>(ents: EntitiesView, archs: Seq<Archetype<V>>, e: Entity) -> bool {
    &&& (e.index as int) < ents.slots.len()
    &&& ents.slots[e.index as int].generation == e.generation
    &&& !ents.free.contains(e.index)
    &&& rows_linked(ents, archs)
    &&& forall|a: int, r: int|
        0 <= a < archs.len() && 0 <= r < archs[a].entity_seq().len() ==> (#[trigger] archs[a].entity_seq()[r]).index
            != e.index
    &&& forall|i: int| 0 <= i < ents.slots.len() && i != e.index ==> #[trigger] slot_linked(ents, archs, i)
}

/// Every archetype is well formed.
pub open spec fn all_wf<V>(archs: Seq<Archetype<V>>) -> bool {
    forall|a: int| 0 <= a < archs.len() ==> (#[trigger] archs[a]).wf()
}

/// The components of an entity: the row at its recorded location.
pub open spec fn entity_row<V>(ents: EntitiesView, archs: Seq<Archetype<V>>, x: Entity) -> Map<u64, V> {
    let loc = ents.location(x)->0;
    archs[loc.archetype as int].row_map(loc.slot as int)
}

/// The components of every live entity.
pub open spec fn world_view<V>(ents: EntitiesView, archs: Seq<Archetype<V>>) -> Map<Entity, Map<u64, V>> {
    Map::new(|x: Entity| ents.is_alive(x), |x: Entity| entity_row(ents, archs, x))
}

/// The row an archetype gets when values are pushed in key order.
pub open spec fn pushed_row<V>(arch: Archetype<V>, vals: Seq<V>) -> Map<u64, V> {
    Map::new(|id: u64| arch.key_view().id_set().contains(id), |id: u64| vals[pos_of(arch.key_view().ids(), id)])
}

/// Appending a row keeps the old rows and adds one made of the given values.
pub proof fn lemma_row_map_push<V>(old_a: Archetype<V>, new_a: Archetype<V>, vals: Seq<V>)
    requires
        old_a.wf(),
        new_a.key_view() == old_a.key_view(),
        new_a.entity_seq().len() == old_a.entity_seq().len() + 1,
        new_a.column_seqs().len() == old_a.column_seqs().len(),
        vals.len() == old_a.column_seqs().len(),
        forall|j: int| 0 <= j < new_a.column_seqs().len() ==> #[trigger] new_a.column_seqs()[j] == old_a.column_seqs()[j].push(vals[j]),
    ensures
        forall|r: int| 0 <= r < old_a.entity_seq().len() ==> #[trigger] new_a.row_map(r) == old_a.row_map(r),
        new_a.row_map(old_a.entity_seq().len() as int) == pushed_row(old_a, vals),
{
    let ids = old_a.key_view().ids();
    let n = old_a.entity_seq().len() as int;
    assert forall|r: int| 0 <= r < n implies #[trigger] new_a.row_map(r) == old_a.row_map(r) by {
        assert forall|id: u64| old_a.key_view().id_set().contains(id) implies new_a.value(id, r) == old_a.value(id, r) by {
            let p = pos_of(ids, id);
            assert(0 <= p < ids.len() && ids[p] == id);
            assert(old_a.column_seqs()[p].len() == n);
        }
        assert(new_a.row_map(r) =~= old_a.row_map(r));
    }
    assert forall|id: u64| old_a.key_view().id_set().contains(id) implies new_a.value(id, n) == vals[pos_of(ids, id)] by {
        let p = pos_of(ids, id);
        assert(0 <= p < ids.len() && ids[p] == id);
        assert(old_a.column_seqs()[p].len() == n);
    }
    assert(new_a.row_map(n) =~= pushed_row(old_a, vals));
}

/// Swap-removing a row moves the last row into its place and keeps the
/// other rows.
pub proof fn lemma_row_map_swap<V>(old_a: Archetype<V>, new_a: Archetype<V>, slot: int)
    requires
        old_a.wf(),
        0 <= slot < old_a.entity_seq().len(),
        new_a.key_view() == old_a.key_view(),
        new_a.entity_seq() == seq_swap_remove(old_a.entity_seq(), slot),
        new_a.column_seqs().len() == old_a.column_seqs().len(),
        forall|j: int| 0 <= j < new_a.column_seqs().len() ==> #[trigger] new_a.column_seqs()[j] == seq_swap_remove(old_a.column_seqs()[j], slot),
    ensures
        forall|r: int| 0 <= r < new_a.entity_seq().len() ==> #[trigger] new_a.row_map(r) == old_a.row_map(
            if r == slot { old_a.entity_seq().len() - 1 } else { r },
        ),
{
    let ids = old_a.key_view().ids();
    let n = old_a.entity_seq().len() as int;
    assert forall|r: int| 0 <= r < new_a.entity_seq().len() implies #[trigger] new_a.row_map(r) == old_a.row_map(
        if r == slot { n - 1 } else { r },
    ) by {
        let src = if r == slot { n - 1 } else { r };
        assert forall|id: u64| old_a.key_view().id_set().contains(id) implies new_a.value(id, r) == old_a.value(id, src) by {
            let p = pos_of(ids, id);
            assert(0 <= p < ids.len() && ids[p] == id);
            assert(old_a.column_seqs()[p].len() == n);
        }
        assert(new_a.row_map(r) =~= old_a.row_map(src));
    }
}

/// Taking a live entity's row out of its archetype, and recording the new
/// row of the entity that moved into its place, leaves the entity between
/// rows and every other entity where its components are.
pub proof fn lemma_detach<V>(
    ents0: EntitiesView,
    archs0: Seq<Archetype<V>>,
    ents1: EntitiesView,
    archs1: Seq<Archetype<V>>,
    e: Entity,
)
    requires
        ents0.wf(),
        linked(ents0, archs0),
        all_wf(archs0),
        ents0.is_alive(e),
        ({
            let loc = ents0.location(e)->0;
            let a = loc.archetype as int;
            let s = loc.slot as int;
            let n = archs0[a].entity_seq().len();
            &&& archs1.len() == archs0.len()
            &&& forall|b: int| 0 <= b < archs0.len() && b != a ==> archs1[b] == archs0[b]
            &&& archs1[a].key_view() == archs0[a].key_view()
            &&& archs1[a].entity_seq() == seq_swap_remove(archs0[a].entity_seq(), s)
            &&& archs1[a].column_seqs().len() == archs0[a].column_seqs().len()
            &&& forall|j: int| 0 <= j < archs1[a].column_seqs().len() ==> #[trigger] archs1[a].column_seqs()[j]
                == seq_swap_remove(archs0[a].column_seqs()[j], s)
            &&& archs1[a].wf()
            &&& ents1 == if s < n - 1 { ents0.set_location(archs0[a].entity_seq()[n - 1], loc) } else { ents0 }
        }),
    ensures
        ents1.wf(),
        linked_but(ents1, archs1, e),
        all_wf(archs1),
        ents1.slots.len() == ents0.slots.len(),
        ents1.free == ents0.free,
        ents1.slots[e.index as int] == ents0.slots[e.index as int],
        forall|x: Entity| #[trigger] ents1.is_alive(x) == ents0.is_alive(x),
        forall|x: Entity| ents0.is_alive(x) && x != e ==> #[trigger] entity_row(ents1, archs1, x) == entity_row(ents0, archs0, x),
{
    let loc = ents0.location(e)->0;
    let a = loc.archetype as int;
    let s = loc.slot as int;
    let n = archs0[a].entity_seq().len() as int;
    assert(slot_linked(ents0, archs0, e.index as int));
    assert(0 <= a < archs0.len() && 0 <= s < n);
    assert(row_linked(ents0, archs0, a, s));
    let m = archs0[a].entity_seq()[n - 1];
    assert(row_linked(ents0, archs0, a, n - 1));
    let moved = s < n - 1;
    if moved {
        assert(m.index != e.index);
    }
    lemma_row_map_swap(archs0[a], archs1[a], s);
    assert forall|i: int| 0 <= i < ents1.free.len() implies ents1.slots[#[trigger] ents1.free[i] as int].location is None by {
        assert(ents0.slots[ents0.free[i] as int].location is None);
    }
    assert forall|b: int| 0 <= b < archs1.len() implies (#[trigger] archs1[b]).wf() by {
        if b != a {
            assert(archs0[b].wf());
        }
    }
    assert forall|b: int, r: int| 0 <= b < archs1.len() && 0 <= r < archs1[b].entity_seq().len() implies #[trigger] row_linked(ents1, archs1, b, r)
        && archs1[b].entity_seq()[r].index != e.index by {
        if b == a && r == s {
            assert(archs1[b].entity_seq()[r] == m);
        } else {
            let x = archs0[b].entity_seq()[r];
            assert(archs1[b].entity_seq()[r] == x);
            assert(row_linked(ents0, archs0, b, r));
            if b == a {
                assert(r < n - 1);
            }
            assert(x.index != e.index);
            if moved {
                assert(x.index != m.index);
            }
        }
    }
    assert forall|b: int, r: int| 0 <= b < archs1.len() && 0 <= r < archs1[b].entity_seq().len() implies (#[trigger] archs1[b].entity_seq()[r]).index != e.index by {
        assert(row_linked(ents1, archs1, b, r));
    }
    assert forall|i: int| 0 <= i < ents1.slots.len() && i != e.index implies #[trigger] slot_linked(ents1, archs1, i) by {
        assert(slot_linked(ents0, archs0, i));
        if moved && i == m.index {
            assert(archs1[a].entity_seq()[s] == m);
        } else if ents0.slots[i].location is Some {
            let l = ents0.slots[i].location->0;
            let b = l.archetype as int;
            let r = l.slot as int;
            assert(archs0[b].entity_seq()[r].index == i);
            assert(!(b == a && r == s));
            assert(!(b == a && r == n - 1));
            assert(archs1[b].entity_seq()[r] == archs0[b].entity_seq()[r]);
        }
    }
    assert forall|x: Entity| ents0.is_alive(x) && x != e implies #[trigger] entity_row(ents1, archs1, x) == entity_row(ents0, archs0, x) by {
        assert(slot_linked(ents0, archs0, x.index as int));
        let l = ents0.slots[x.index as int].location->0;
        let b = l.archetype as int;
        let r = l.slot as int;
        assert(x.index != e.index);
        if moved && x.index == m.index {
            assert(archs1[a].row_map(s) == archs0[a].row_map(n - 1));
        } else {
            assert(!(b == a && r == s));
            assert(!(b == a && r == n - 1));
            if b == a {
                assert(archs1[a].row_map(r) == archs0[a].row_map(r));
            }
        }
    }
}

/// Pushing an entity that is between rows as a new row of an archetype, and
/// recording that row, links everything again; every other entity keeps
/// its components.
pub proof fn lemma_attach<V>(
    ents1: EntitiesView,
    archs1: Seq<Archetype<V>>,
    ents2: EntitiesView,
    archs2: Seq<Archetype<V>>,
    e: Entity,
    t: usize,
    p: usize,
    vals: Seq<V>,
)
    requires
        ents1.wf(),
        linked_but(ents1, archs1, e),
        all_wf(archs1),
        (t as int) < archs1.len(),
        p as int == archs1[t as int].entity_seq().len(),
        archs2.len() == archs1.len(),
        forall|b: int| 0 <= b < archs1.len() && b != t as int ==> archs2[b] == archs1[b],
        archs2[t as int].key_view() == archs1[t as int].key_view(),
        archs2[t as int].entity_seq() == archs1[t as int].entity_seq().push(e),
        archs2[t as int].column_seqs().len() == archs1[t as int].column_seqs().len(),
        vals.len() == archs1[t as int].column_seqs().len(),
        forall|j: int| 0 <= j < archs2[t as int].column_seqs().len() ==> #[trigger] archs2[t as int].column_seqs()[j] == archs1[t as int].column_seqs()[j].push(vals[j]),
        archs2[t as int].wf(),
        ents2 == ents1.set_location(e, EntityLocation { archetype: t, slot: p }),
    ensures
        ents2.wf(),
        linked(ents2, archs2),
        all_wf(archs2),
        ents2.slots.len() == ents1.slots.len(),
        ents2.free == ents1.free,
        ents2.is_alive(e),
        entity_row(ents2, archs2, e) == pushed_row(archs1[t as int], vals),
        forall|x: Entity| x != e ==> #[trigger] ents2.is_alive(x) == ents1.is_alive(x),
        forall|x: Entity| ents1.is_alive(x) && x != e ==> #[trigger] entity_row(ents2, archs2, x) == entity_row(ents1, archs1, x),
{
    let ti = t as int;
    lemma_row_map_push(archs1[ti], archs2[ti], vals);
    assert(ents2.location(e) == Some(EntityLocation { archetype: t, slot: p }));
    assert(entity_row(ents2, archs2, e) == archs2[ti].row_map(p as int));
    assert forall|i: int| 0 <= i < ents2.free.len() implies ents2.slots[#[trigger] ents2.free[i] as int].location is None by {
        assert(ents1.free[i] != e.index);
        assert(ents1.slots[ents1.free[i] as int].location is None);
    }
    assert forall|b: int| 0 <= b < archs2.len() implies (#[trigger] archs2[b]).wf() by {
        if b != t as int {
            assert(archs1[b].wf());
        }
    }
    assert forall|b: int, r: int| 0 <= b < archs2.len() && 0 <= r < archs2[b].entity_seq().len() implies #[trigger] row_linked(ents2, archs2, b, r) by {
        if b == t as int && r == p as int {
            assert(archs2[b].entity_seq()[r] == e);
        } else {
            assert(archs2[b].entity_seq()[r] == archs1[b].entity_seq()[r]);
            assert(row_linked(ents1, archs1, b, r));
            assert(archs1[b].entity_seq()[r].index != e.index);
        }
    }
    assert forall|i: int| 0 <= i < ents2.slots.len() implies #[trigger] slot_linked(ents2, archs2, i) by {
        if i == e.index {
            assert(archs2[t as int].entity_seq()[p as int] == e);
        } else {
            assert(slot_linked(ents1, archs1, i));
            if ents1.slots[i].location is Some {
                let l = ents1.slots[i].location->0;
                let b = l.archetype as int;
                let r = l.slot as int;
                assert(archs2[b].entity_seq()[r] == archs1[b].entity_seq()[r]);
            }
        }
    }
    assert forall|x: Entity| ents1.is_alive(x) && x != e implies #[trigger] entity_row(ents2, archs2, x) == entity_row(ents1, archs1, x) by {
        assert(x.index != e.index);
        assert(slot_linked(ents1, archs1, x.index as int));
        let l = ents1.slots[x.index as int].location->0;
        let b = l.archetype as int;
        let r = l.slot as int;
        if b == t as int {
            assert(archs2[t as int].row_map(r) == archs1[t as int].row_map(r));
        }
    }
}

/// Despawning an entity that is between rows links everything again.
pub proof fn lemma_release<V>(ents1: EntitiesView, archs: Seq<Archetype<V>>, ents2: EntitiesView, e: Entity)
    requires
        ents1.wf(),
        linked_but(ents1, archs, e),
        ents1.is_alive(e),
        ents2 == ents1.despawn(e).0,
    ensures
        linked(ents2, archs),
        !ents2.is_alive(e),
        forall|x: Entity| x != e ==> #[trigger] ents2.is_alive(x) == ents1.is_alive(x),
        forall|x: Entity| ents1.is_alive(x) && x != e ==> #[trigger] entity_row(ents2, archs, x) == entity_row(ents1, archs, x),
{
    assert forall|b: int, r: int| 0 <= b < archs.len() && 0 <= r < archs[b].entity_seq().len() implies #[trigger] row_linked(ents2, archs, b, r) by {
        assert(row_linked(ents1, archs, b, r));
        assert(archs[b].entity_seq()[r].index != e.index);
    }
    assert forall|i: int| 0 <= i < ents2.slots.len() implies #[trigger] slot_linked(ents2, archs, i) by {
        if i != e.index {
            assert(slot_linked(ents1, archs, i));
        }
    }
}

/// A fresh allocation is between rows and changes no live entity.
pub proof fn lemma_allocate_links<V>(ents0: EntitiesView, archs: Seq<Archetype<V>>)
    requires
        ents0.wf(),
        linked(ents0, archs),
        ents0.free.len() > 0 || ents0.slots.len() < crate::entity::MAX_SLOTS,
    ensures
        linked_but(ents0.allocate().0, archs, ents0.allocate().1),
        !ents0.is_alive(ents0.allocate().1),
        forall|x: Entity| #[trigger] ents0.allocate().0.is_alive(x) == ents0.is_alive(x),
        forall|x: Entity| ents0.is_alive(x) ==> #[trigger] entity_row(ents0.allocate().0, archs, x) == entity_row(ents0, archs, x),
{
    let (ents1, e) = ents0.allocate();
    if ents0.free.len() > 0 {
        let k = ents0.free.len() - 1;
        assert(ents0.free[k] == e.index);
        assert(ents0.slots[e.index as int].location is None);
        assert(!ents1.free.contains(e.index)) by {
            if ents1.free.contains(e.index) {
                let j = choose|j: int| 0 <= j < ents1.free.len() && ents1.free[j] == e.index;
                assert(ents0.free[j] == ents0.free[k]);
            }
        }
    } else {
        assert(!ents1.free.contains(e.index)) by {
            if ents1.free.contains(e.index) {
                let j = choose|j: int| 0 <= j < ents1.free.len() && ents1.free[j] == e.index;
                assert(ents0.free[j] < ents0.slots.len());
            }
        }
    }
    assert forall|b: int, r: int| 0 <= b < archs.len() && 0 <= r < archs[b].entity_seq().len() implies #[trigger] row_linked(ents1, archs, b, r)
        && archs[b].entity_seq()[r].index != e.index by {
        assert(row_linked(ents0, archs, b, r));
    }
    assert forall|b: int, r: int| 0 <= b < archs.len() && 0 <= r < archs[b].entity_seq().len() implies (#[trigger] archs[b].entity_seq()[r]).index != e.index by {
        assert(row_linked(ents1, archs, b, r));
    }
    assert forall|i: int| 0 <= i < ents1.slots.len() && i != e.index implies #[trigger] slot_linked(ents1, archs, i) by {
        assert(slot_linked(ents0, archs, i));
    }
}

/// Archetypes whose keys, rows and columns stay as they were, with new empty
/// archetypes after them, change neither the links nor any entity's
/// components.
pub proof fn lemma_extend<V>(ents: EntitiesView, archs0: Seq<Archetype<V>>, archs1: Seq<Archetype<V>>)
    requires
        linked(ents, archs0),
        archs1.len() >= archs0.len(),
        forall|b: int| 0 <= b < archs0.len() ==> {
            &&& #[trigger] archs1[b].key_view() == archs0[b].key_view()
            &&& archs1[b].entity_seq() == archs0[b].entity_seq()
            &&& archs1[b].column_seqs() == archs0[b].column_seqs()
        },
        forall|b: int| archs0.len() <= b < archs1.len() ==> (#[trigger] archs1[b]).entity_seq().len() == 0,
    ensures
        linked(ents, archs1),
        forall|x: Entity| ents.is_alive(x) ==> #[trigger] entity_row(ents, archs1, x) == entity_row(ents, archs0, x),
{
    assert forall|b: int, r: int| 0 <= b < archs1.len() && 0 <= r < archs1[b].entity_seq().len() implies #[trigger] row_linked(ents, archs1, b, r) by {
        assert(archs1[b].key_view() == archs0[b].key_view());
        assert(row_linked(ents, archs0, b, r));
    }
    assert forall|i: int| 0 <= i < ents.slots.len() implies #[trigger] slot_linked(ents, archs1, i) by {
        assert(slot_linked(ents, archs0, i));
        if ents.slots[i].location is Some {
            let b = ents.slots[i].location->0.archetype as int;
            assert(archs1[b].key_view() == archs0[b].key_view());
        }
    }
    assert forall|x: Entity| ents.is_alive(x) implies #[trigger] entity_row(ents, archs1, x) == entity_row(ents, archs0, x) by {
        assert(slot_linked(ents, archs0, x.index as int));
        let b = ents.slots[x.index as int].location->0.archetype as int;
        assert(archs1[b].key_view() == archs0[b].key_view());
        assert(archs1[b].row_map(ents.slots[x.index as int].location->0.slot as int) =~= archs0[b].row_map(ents.slots[x.index as int].location->0.slot as int));
    }
}

/// Changing one value of a live entity's row changes that entity's
/// components at that id and nothing else.
pub proof fn lemma_update<V>(ents: EntitiesView, archs0: Seq<Archetype<V>>, archs1: Seq<Archetype<V>>, e: Entity, id: u64, v: V)
    requires
        linked(ents, archs0),
        all_wf(archs0),
        ents.is_alive(e),
        ({
            let loc = ents.location(e)->0;
            let a = loc.archetype as int;
            let s = loc.slot as int;
            let p = pos_of(archs0[a].key_view().ids(), id);
            &&& archs0[a].key_view().id_set().contains(id)
            &&& archs1.len() == archs0.len()
            &&& forall|b: int| 0 <= b < archs0.len() && b != a ==> archs1[b] == archs0[b]
            &&& archs1[a].key_view() == archs0[a].key_view()
            &&& archs1[a].extra_columns() == archs0[a].extra_columns()
            &&& archs1[a].entity_seq() == archs0[a].entity_seq()
            &&& archs1[a].column_seqs() == archs0[a].column_seqs().update(p, archs0[a].column_seqs()[p].update(s, v))
        }),
    ensures
        linked(ents, archs1),
        all_wf(archs1),
        entity_row(ents, archs1, e) == entity_row(ents, archs0, e).insert(id, v),
        forall|x: Entity| ents.is_alive(x) && x != e ==> #[trigger] entity_row(ents, archs1, x) == entity_row(ents, archs0, x),
{
    let loc = ents.location(e)->0;
    let a = loc.archetype as int;
    let s = loc.slot as int;
    let ids = archs0[a].key_view().ids();
    let p = pos_of(ids, id);
    assert(slot_linked(ents, archs0, e.index as int));
    assert(archs0[a].wf());
    assert(0 <= p < ids.len() && ids[p] == id);
    assert forall|b: int| 0 <= b < archs1.len() implies (#[trigger] archs1[b]).wf() by {
        assert(archs0[b].wf());
        if b == a {
            assert forall|j: int| 0 <= j < archs1[a].column_seqs().len() implies (#[trigger] archs1[a].column_seqs()[j]).len() == archs1[a].entity_seq().len() by {
                assert(archs0[a].column_seqs()[j].len() == archs0[a].entity_seq().len());
            }
        }
    }
    assert forall|b: int, r: int| 0 <= b < archs1.len() && 0 <= r < archs1[b].entity_seq().len() implies #[trigger] row_linked(ents, archs1, b, r) by {
        assert(row_linked(ents, archs0, b, r));
    }
    assert forall|i: int| 0 <= i < ents.slots.len() implies #[trigger] slot_linked(ents, archs1, i) by {
        assert(slot_linked(ents, archs0, i));
    }
    assert forall|i: u64| archs0[a].key_view().id_set().contains(i) implies archs1[a].value(i, s) == (if i == id { v } else { archs0[a].value(i, s) }) by {
        let q = pos_of(ids, i);
        assert(0 <= q < ids.len() && ids[q] == i);
        if i != id {
            assert(q != p);
        }
    }
    assert(entity_row(ents, archs1, e) =~= entity_row(ents, archs0, e).insert(id, v));
    assert forall|x: Entity| ents.is_alive(x) && x != e implies #[trigger] entity_row(ents, archs1, x) == entity_row(ents, archs0, x) by {
        assert(slot_linked(ents, archs0, x.index as int));
        let l = ents.slots[x.index as int].location->0;
        let b = l.archetype as int;
        let r = l.slot as int;
        assert(x.index != e.index);
        if b == a {
            assert(r != s);
            assert forall|i: u64| archs0[a].key_view().id_set().contains(i) implies archs1[a].value(i, r) == archs0[a].value(i, r) by {
                let q = pos_of(ids, i);
                assert(0 <= q < ids.len() && ids[q] == i);
            }
            assert(archs1[a].row_map(r) =~= archs0[a].row_map(r));
        }
    }
}

/// `archs1` differs from `archs0` at most in the value of id `id` in row `s`
/// of archetype `a`.
pub open spec fn value_changed<V>(archs0: Seq<Archetype<V>>, archs1: Seq<Archetype<V>>, a: int, s: int, id: u64) -> bool {
    let p = pos_of(archs0[a].key_view().ids(), id);
    &&& archs1.len() == archs0.len()
    &&& forall|b: int| 0 <= b < archs0.len() && b != a ==> archs1[b] == archs0[b]
    &&& archs1[a].key_view() == archs0[a].key_view()
    &&& archs1[a].extra_columns() == archs0[a].extra_columns()
    &&& archs1[a].entity_seq() == archs0[a].entity_seq()
    &&& archs1[a].column_seqs() == archs0[a].column_seqs().update(p, archs0[a].column_seqs()[p].update(s, archs1[a].value(id, s)))
}

/// [`lemma_update`] for every changed value at once.
pub proof fn lemma_update_all<V>(ents: EntitiesView, archs0: Seq<Archetype<V>>, e: Entity, id: u64)
    requires
        linked(ents, archs0),
        all_wf(archs0),
        ents.is_alive(e),
        archs0[ents.location(e)->0.archetype as int].key_view().id_set().contains(id),
    ensures
        forall|archs1: Seq<Archetype<V>>|
            #![trigger linked(ents, archs1)]
            #![trigger world_view(ents, archs1)]
            value_changed(archs0, archs1, ents.location(e)->0.archetype as int, ents.location(e)->0.slot as int, id) ==> {
                &&& linked(ents, archs1)
                &&& world_view(ents, archs1) == world_view(ents, archs0).insert(
                    e,
                    world_view(ents, archs0)[e].insert(id, archs1[ents.location(e)->0.archetype as int].value(id, ents.location(e)->0.slot as int)),
                )
            },
{
    let a = ents.location(e)->0.archetype as int;
    let s = ents.location(e)->0.slot as int;
    assert forall|archs1: Seq<Archetype<V>>| value_changed(archs0, archs1, a, s, id) implies {
        &&& linked(ents, archs1)
        &&& world_view(ents, archs1) == world_view(ents, archs0).insert(e, world_view(ents, archs0)[e].insert(id, archs1[a].value(id, s)))
    } by {
        let ids = archs0[a].key_view().ids();
        let p = pos_of(ids, id);
        assert(0 <= p < ids.len() && ids[p] == id);
        assert(slot_linked(ents, archs0, e.index as int));
        assert(archs0[a].wf());
        let v = archs1[a].value(id, s);
        lemma_update(ents, archs0, archs1, e, id, v);
        assert(world_view(ents, archs1) =~= world_view(ents, archs0).insert(e, world_view(ents, archs0)[e].insert(id, v)));
    }
}

} // verus!
