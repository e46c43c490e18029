//! The command queue: commands are kept in order and applied grouped by
//! kind, runs of bundle inserts and of removals of one component being
//! applied as batches.

use vstd::prelude::*;
use vstd::seq_lib::{to_multiset_build, to_multiset_len, lemma_multiset_commutative};
use crate::component::ComponentId;
use crate::entity::Entity;
use crate::bundle::into_options;
use crate::world::{World, apply_bundles, remove_from_all};
use super::{
    CommandKind, WorldCommand, spec_kind_order, kind_order, spec_command_kind, is_spawn, command_effect, spawn_count,
    commands_effect, fresh_spawns, commands_lead_to,
};

verus! {

/// The commands of one place in the application order, in queue order.
pub open spec fn with_order<V>(cs: Seq<WorldCommand<V>>, o: u32) -> Seq<WorldCommand<V>>
    decreases cs.len(),
{
    if cs.len() == 0 {
        Seq::empty()
    } else if spec_kind_order(spec_command_kind(cs.last())) == o {
        with_order(cs.drop_last(), o).push(cs.last())
    } else {
        with_order(cs.drop_last(), o)
    }
}

/// The commands sorted by the place of their kind, keeping queue order
/// among commands of the same place.
pub open spec fn sorted_by_kind<V>(cs: Seq<WorldCommand<V>>) -> Seq<WorldCommand<V>> {
    with_order(cs, 0) + with_order(cs, 1) + with_order(cs, 2) + with_order(cs, 3) + with_order(cs, 4) + with_order(cs, 5)
}

/// The order in which a queue applies its commands: sorted by the place of
/// their kind, queue order kept among commands of the same place.
pub open spec fn apply_order<V>(cs: Seq<WorldCommand<V>>) -> Seq<WorldCommand<V>> {
    sorted_by_kind(cs)
}

/// The place of a command's kind in the application order.
pub open spec fn command_place<V>(c: WorldCommand<V>) -> u32 {
    spec_kind_order(spec_command_kind(c))
}

/// The places of a sequence of commands never go down.
pub open spec fn places_ascend<V>(cs: Seq<WorldCommand<V>>) -> bool {
    forall|i: int, j: int| 0 <= i < j < cs.len() ==> command_place(#[trigger] cs[i]) <= command_place(#[trigger] cs[j])
}

/// Every command of one place's part has that place.
proof fn lemma_with_order_place<V>(cs: Seq<WorldCommand<V>>, o: u32)
    ensures
        forall|i: int| 0 <= i < with_order(cs, o).len() ==> command_place(#[trigger] with_order(cs, o)[i]) == o,
    decreases cs.len(),
{
    if cs.len() > 0 {
        lemma_with_order_place(cs.drop_last(), o);
        let w = with_order(cs.drop_last(), o);
        if command_place(cs.last()) == o {
            assert forall|i: int| 0 <= i < with_order(cs, o).len() implies command_place(#[trigger] with_order(cs, o)[i]) == o by {
                if i < w.len() {
                    assert(with_order(cs, o)[i] == w[i]);
                }
            }
        }
    }
}

/// Appending a part of one place to ascending commands of lower places keeps
/// them ascending.
proof fn lemma_append_place<V>(a: Seq<WorldCommand<V>>, b: Seq<WorldCommand<V>>, m: u32)
    requires
        places_ascend(a),
        forall|i: int| 0 <= i < a.len() ==> command_place(#[trigger] a[i]) <= m,
        forall|i: int| 0 <= i < b.len() ==> command_place(#[trigger] b[i]) == m,
    ensures
        places_ascend(a + b),
        forall|i: int| 0 <= i < (a + b).len() ==> command_place(#[trigger] (a + b)[i]) <= m,
{
    let c = a + b;
    assert forall|i: int, j: int| 0 <= i < j < c.len() implies command_place(#[trigger] c[i]) <= command_place(#[trigger] c[j]) by {
        if j < a.len() {
            assert(c[i] == a[i] && c[j] == a[j]);
        } else if i < a.len() {
            assert(c[i] == a[i] && c[j] == b[j - a.len()]);
        } else {
            assert(c[i] == b[i - a.len()] && c[j] == b[j - a.len()]);
        }
    }
    assert forall|i: int| 0 <= i < c.len() implies command_place(#[trigger] c[i]) <= m by {
        if i < a.len() {
            assert(c[i] == a[i]);
        } else {
            assert(c[i] == b[i - a.len()]);
        }
    }
}

/// Sorting by kind keeps every command and only reorders them.
proof fn lemma_sorted_multiset<V>(cs: Seq<WorldCommand<V>>)
    ensures
        sorted_by_kind(cs).to_multiset() == cs.to_multiset(),
    decreases cs.len(),
{
    broadcast use vstd::multiset::group_multiset_axioms;
    if cs.len() == 0 {
        assert(sorted_by_kind(cs) =~= cs);
    } else {
        let d = cs.drop_last();
        let x = cs.last();
        lemma_sorted_multiset(d);
        assert(d.push(x) =~= cs);
        to_multiset_build(d, x);
        let w0 = with_order(d, 0);
        let w1 = with_order(d, 1);
        let w2 = with_order(d, 2);
        let w3 = with_order(d, 3);
        let w4 = with_order(d, 4);
        let w5 = with_order(d, 5);
        let v0 = with_order(cs, 0);
        let v1 = with_order(cs, 1);
        let v2 = with_order(cs, 2);
        let v3 = with_order(cs, 3);
        let v4 = with_order(cs, 4);
        let v5 = with_order(cs, 5);
        lemma_multiset_commutative(w0, w1);
        lemma_multiset_commutative(w0 + w1, w2);
        lemma_multiset_commutative(w0 + w1 + w2, w3);
        lemma_multiset_commutative(w0 + w1 + w2 + w3, w4);
        lemma_multiset_commutative(w0 + w1 + w2 + w3 + w4, w5);
        lemma_multiset_commutative(v0, v1);
        lemma_multiset_commutative(v0 + v1, v2);
        lemma_multiset_commutative(v0 + v1 + v2, v3);
        lemma_multiset_commutative(v0 + v1 + v2 + v3, v4);
        lemma_multiset_commutative(v0 + v1 + v2 + v3 + v4, v5);
        let o = command_place(x);
        assert forall|k: u32| k <= 5 implies #[trigger] with_order(cs, k).to_multiset() == if k == o {
            with_order(d, k).to_multiset().insert(x)
        } else {
            with_order(d, k).to_multiset()
        } by {
            if k == o {
                to_multiset_build(with_order(d, k), x);
            }
        }
        assert(o <= 5);
        assert(sorted_by_kind(cs).to_multiset() =~= sorted_by_kind(d).to_multiset().insert(x));
    }
}

/// The order in which a queue applies its commands holds every queued
/// command exactly once, and their kinds come in the documented order:
/// spawns, bundle inserts, component inserts, removals, despawns, others.
pub proof fn law_apply_order<V>(cs: Seq<WorldCommand<V>>)
    ensures
        apply_order(cs).to_multiset() == cs.to_multiset(),
        apply_order(cs).len() == cs.len(),
        places_ascend(apply_order(cs)),
{
    lemma_sorted_multiset(cs);
    to_multiset_len(cs);
    to_multiset_len(apply_order(cs));
    lemma_with_order_place(cs, 0);
    lemma_with_order_place(cs, 1);
    lemma_with_order_place(cs, 2);
    lemma_with_order_place(cs, 3);
    lemma_with_order_place(cs, 4);
    lemma_with_order_place(cs, 5);
    let w0 = with_order(cs, 0);
    assert(places_ascend(w0));
    lemma_append_place(w0, with_order(cs, 1), 1);
    lemma_append_place(w0 + with_order(cs, 1), with_order(cs, 2), 2);
    lemma_append_place(w0 + with_order(cs, 1) + with_order(cs, 2), with_order(cs, 3), 3);
    lemma_append_place(w0 + with_order(cs, 1) + with_order(cs, 2) + with_order(cs, 3), with_order(cs, 4), 4);
    lemma_append_place(w0 + with_order(cs, 1) + with_order(cs, 2) + with_order(cs, 3) + with_order(cs, 4), with_order(cs, 5), 5);
}

/// The documented order of application, stated by variant: spawns come
/// first, then bundle inserts, then component inserts, then component
/// removals, then despawns.
pub open spec fn applied_before<V>(a: WorldCommand<V>, b: WorldCommand<V>) -> bool {
    ||| (a is Spawn || a is SpawnEmpty) && !(b is Spawn || b is SpawnEmpty)
    ||| a is InsertBundle && (b is Insert || b is Remove || b is Despawn)
    ||| a is Insert && (b is Remove || b is Despawn)
    ||| a is Remove && b is Despawn
}

/// Applying a queue puts every spawn before every other command, every
/// bundle insert before every component insert, every component insert
/// before every component removal and every removal before every despawn,
/// whatever the order in which they were queued.
pub proof fn law_kind_sequence<V>(cs: Seq<WorldCommand<V>>)
    ensures
        forall|i: int, j: int|
            0 <= i < apply_order(cs).len() && 0 <= j < apply_order(cs).len() && applied_before(
                #[trigger] apply_order(cs)[i],
                #[trigger] apply_order(cs)[j],
            ) ==> i < j,
{
    law_apply_order(cs);
    let ao = apply_order(cs);
    assert forall|i: int, j: int|
        0 <= i < ao.len() && 0 <= j < ao.len() && applied_before(#[trigger] ao[i], #[trigger] ao[j]) implies i < j by {
        assert(command_place(ao[i]) < command_place(ao[j]));
        if j < i {
            assert(command_place(ao[j]) <= command_place(ao[i]));
        }
    }
}

/// A component inserted on a live entity and removed from it in the same
/// queue is gone once the queue is applied, in whichever order the two
/// commands were queued: inserts are applied before removals.
pub proof fn law_insert_then_remove<V>(m: Map<Entity, Map<u64, V>>, e: Entity, id: ComponentId, v: V, fresh: Seq<Entity>)
    requires
        m.contains_key(e),
    ensures
        commands_effect(m, apply_order(seq![WorldCommand::Insert(e, id, v), WorldCommand::Remove(e, id)]), fresh)
            == m.insert(e, m[e].remove(id.0)),
        commands_effect(m, apply_order(seq![WorldCommand::Remove(e, id), WorldCommand::Insert(e, id, v)]), fresh)
            == m.insert(e, m[e].remove(id.0)),
{
    let ins = WorldCommand::Insert(e, id, v);
    let rem = WorldCommand::<V>::Remove(e, id);
    let q1 = seq![ins, rem];
    let q2 = seq![rem, ins];
    reveal_with_fuel(with_order, 3);
    assert(q1.drop_last() =~= seq![ins]);
    assert(q2.drop_last() =~= seq![rem]);
    assert(seq![ins].drop_last() =~= Seq::<WorldCommand<V>>::empty());
    assert(seq![rem].drop_last() =~= Seq::<WorldCommand<V>>::empty());
    assert(apply_order(q1) =~= q1);
    assert(apply_order(q2) =~= q1);
    assert(m[e].insert(id.0, v).remove(id.0) =~= m[e].remove(id.0));
    let empty = Seq::<WorldCommand<V>>::empty();
    let m1 = commands_effect(m, seq![ins], fresh);
    assert(commands_effect(m, empty, fresh) == m);
    assert(m1 == command_effect(m, ins, fresh[0]));
    assert(m1 == m.insert(e, m[e].insert(id.0, v)));
    assert(commands_effect(m, q1, fresh) == command_effect(m1, rem, fresh[spawn_count(seq![ins]) as int]));
    assert(m.insert(e, m[e].insert(id.0, v)).insert(e, m[e].insert(id.0, v).remove(id.0)) =~= m.insert(e, m[e].remove(id.0)));
}

/// The spawns among commands split over two parts add up.
pub proof fn lemma_spawn_count_add<V>(a: Seq<WorldCommand<V>>, b: Seq<WorldCommand<V>>)
    ensures
        spawn_count(a + b) == spawn_count(a) + spawn_count(b),
    decreases b.len(),
{
    if b.len() > 0 {
        lemma_spawn_count_add(a, b.drop_last());
        assert((a + b).drop_last() =~= a + b.drop_last());
    } else {
        assert(a + b =~= a);
    }
}

/// The spawns of a prefix are at most those of the whole.
pub proof fn lemma_spawn_count_prefix<V>(cs: Seq<WorldCommand<V>>, i: int)
    requires
        0 <= i <= cs.len(),
    ensures
        spawn_count(cs.subrange(0, i)) <= spawn_count(cs),
{
    lemma_spawn_count_add(cs.subrange(0, i), cs.subrange(i, cs.len() as int));
    assert(cs.subrange(0, i) + cs.subrange(i, cs.len() as int) =~= cs);
}

/// Bucketing by place keeps the spawns.
pub proof fn lemma_spawn_count_sorted<V>(cs: Seq<WorldCommand<V>>)
    ensures
        spawn_count(sorted_by_kind(cs)) == spawn_count(cs),
    decreases cs.len(),
{
    if cs.len() > 0 {
        let d = cs.drop_last();
        lemma_spawn_count_sorted(d);
        let o = spec_kind_order(spec_command_kind(cs.last()));
        let w0 = with_order(d, 0);
        let w1 = with_order(d, 1);
        let w2 = with_order(d, 2);
        let w3 = with_order(d, 3);
        let w4 = with_order(d, 4);
        let w5 = with_order(d, 5);
        lemma_spawn_count_add(w0, w1);
        lemma_spawn_count_add(w0 + w1, w2);
        lemma_spawn_count_add(w0 + w1 + w2, w3);
        lemma_spawn_count_add(w0 + w1 + w2 + w3, w4);
        lemma_spawn_count_add(w0 + w1 + w2 + w3 + w4, w5);
        let v0 = with_order(cs, 0);
        let v1 = with_order(cs, 1);
        let v2 = with_order(cs, 2);
        let v3 = with_order(cs, 3);
        let v4 = with_order(cs, 4);
        let v5 = with_order(cs, 5);
        lemma_spawn_count_add(v0, v1);
        lemma_spawn_count_add(v0 + v1, v2);
        lemma_spawn_count_add(v0 + v1 + v2, v3);
        lemma_spawn_count_add(v0 + v1 + v2 + v3, v4);
        lemma_spawn_count_add(v0 + v1 + v2 + v3 + v4, v5);
        let x = cs.last();
        assert(spawn_count(seq![x]) == if is_spawn(x) { 1nat } else { 0nat }) by {
            assert(seq![x].drop_last() =~= Seq::<WorldCommand<V>>::empty());
            assert(spawn_count(Seq::<WorldCommand<V>>::empty()) == 0);
            assert(seq![x].last() == x);
        }
        assert forall|k: u32| k <= 5 implies #[trigger] spawn_count(with_order(cs, k)) == spawn_count(with_order(d, k)) + if k == o {
            spawn_count(seq![x])
        } else {
            0nat
        } by {
            if k == o {
                lemma_spawn_count_add(with_order(d, k), seq![x]);
                assert(with_order(d, k).push(x) =~= with_order(d, k) + seq![x]);
            }
        }
        assert(o <= 5);
    } else {
        assert(with_order(cs, 0) =~= Seq::<WorldCommand<V>>::empty());
        assert(sorted_by_kind(cs) =~= Seq::<WorldCommand<V>>::empty());
    }
}

/// Only the first `spawn_count` new entities matter.
pub proof fn lemma_effect_fresh_prefix<V>(m: Map<Entity, Map<u64, V>>, cs: Seq<WorldCommand<V>>, f1: Seq<Entity>, f2: Seq<Entity>)
    requires
        f1.len() >= spawn_count(cs),
        f2.len() >= spawn_count(cs),
        forall|k: int| 0 <= k < spawn_count(cs) ==> f1[k] == f2[k],
    ensures
        commands_effect(m, cs, f1) == commands_effect(m, cs, f2),
        fresh_spawns(m, cs, f1) == fresh_spawns(m, cs, f2),
    decreases cs.len(),
{
    if cs.len() > 0 {
        lemma_effect_fresh_prefix(m, cs.drop_last(), f1, f2);
        if is_spawn(cs.last()) {
            assert(f1[spawn_count(cs.drop_last()) as int] == f2[spawn_count(cs.drop_last()) as int]);
        }
    }
}

/// One more command of a prefix.
pub proof fn lemma_prefix_step<V>(m: Map<Entity, Map<u64, V>>, cs: Seq<WorldCommand<V>>, fresh: Seq<Entity>, i: int)
    requires
        0 <= i < cs.len(),
    ensures
        cs.subrange(0, i + 1).drop_last() == cs.subrange(0, i),
        cs.subrange(0, i + 1).last() == cs[i],
        spawn_count(cs.subrange(0, i + 1)) == spawn_count(cs.subrange(0, i)) + if is_spawn(cs[i]) { 1nat } else { 0nat },
        commands_effect(m, cs.subrange(0, i + 1), fresh) == command_effect(
            commands_effect(m, cs.subrange(0, i), fresh),
            cs[i],
            fresh[spawn_count(cs.subrange(0, i)) as int],
        ),
        fresh_spawns(m, cs.subrange(0, i + 1), fresh) == (fresh_spawns(m, cs.subrange(0, i), fresh) && (is_spawn(cs[i])
            ==> !commands_effect(m, cs.subrange(0, i), fresh).contains_key(fresh[spawn_count(cs.subrange(0, i)) as int]))),
{
    assert(cs.subrange(0, i + 1).drop_last() =~= cs.subrange(0, i));
}

/// A run of bundle inserts does what inserting the bundles one after
/// another does.
pub proof fn lemma_bundle_run<V>(
    m: Map<Entity, Map<u64, V>>,
    cs: Seq<WorldCommand<V>>,
    fresh: Seq<Entity>,
    i: int,
    j: int,
    batch: Seq<(Entity, Vec<(ComponentId, V)>)>,
)
    requires
        0 <= i <= j <= cs.len(),
        batch.len() == j - i,
        forall|k: int| 0 <= k < j - i ==> cs[i + k] == WorldCommand::InsertBundle(#[trigger] batch[k].0, batch[k].1),
    ensures
        spawn_count(cs.subrange(0, j)) == spawn_count(cs.subrange(0, i)),
        commands_effect(m, cs.subrange(0, j), fresh) == apply_bundles(commands_effect(m, cs.subrange(0, i), fresh), batch),
        fresh_spawns(m, cs.subrange(0, j), fresh) == fresh_spawns(m, cs.subrange(0, i), fresh),
    decreases j - i,
{
    if j > i {
        lemma_bundle_run(m, cs, fresh, i, j - 1, batch.drop_last());
        lemma_prefix_step(m, cs, fresh, j - 1);
        assert(batch[j - i - 1] == batch.last());
        assert(cs[j - 1] == WorldCommand::InsertBundle(batch.last().0, batch.last().1));
    } else {
        assert(batch =~= Seq::<(Entity, Vec<(ComponentId, V)>)>::empty());
    }
}

/// A run of removals of one component does what removing it from each of
/// the entities does.
pub proof fn lemma_remove_run<V>(
    m: Map<Entity, Map<u64, V>>,
    cs: Seq<WorldCommand<V>>,
    fresh: Seq<Entity>,
    i: int,
    j: int,
    es: Seq<Entity>,
    id: ComponentId,
)
    requires
        0 <= i <= j <= cs.len(),
        es.len() == j - i,
        forall|k: int| 0 <= k < j - i ==> cs[i + k] == WorldCommand::<V>::Remove(#[trigger] es[k], id),
    ensures
        spawn_count(cs.subrange(0, j)) == spawn_count(cs.subrange(0, i)),
        commands_effect(m, cs.subrange(0, j), fresh) == remove_from_all(commands_effect(m, cs.subrange(0, i), fresh), es, id.0),
        fresh_spawns(m, cs.subrange(0, j), fresh) == fresh_spawns(m, cs.subrange(0, i), fresh),
    decreases j - i,
{
    let base = commands_effect(m, cs.subrange(0, i), fresh);
    if j > i {
        let es0 = es.drop_last();
        lemma_remove_run(m, cs, fresh, i, j - 1, es0, id);
        lemma_prefix_step(m, cs, fresh, j - 1);
        let e = es.last();
        assert(es[j - i - 1] == e);
        assert(cs[j - 1] == WorldCommand::<V>::Remove(e, id));
        let prev = remove_from_all(base, es0, id.0);
        assert forall|x: Entity| #[trigger] es.contains(x) <==> (es0.contains(x) || x == e) by {
            if es.contains(x) {
                let k = choose|k: int| 0 <= k < es.len() && es[k] == x;
                if k < es0.len() {
                    assert(es0[k] == x);
                }
            }
            if es0.contains(x) {
                let k = choose|k: int| 0 <= k < es0.len() && es0[k] == x;
                assert(es[k] == x);
            }
            if x == e {
                assert(es[es.len() - 1] == x);
            }
        }
        if prev.contains_key(e) {
            assert(prev[e].remove(id.0) =~= base[e].remove(id.0));
        }
        assert(command_effect(prev, WorldCommand::<V>::Remove(e, id), fresh[0]) =~= remove_from_all(base, es, id.0));
    } else {
        assert(remove_from_all(base, es, id.0) =~= base);
    }
}

/// Rounds an offset up to a multiple of a power-of-two alignment: the
/// smallest multiple of `align` that is at least `offset` (for a power of
/// two, a multiple is a number whose bits below `align` are clear).
pub fn align_up(offset: usize, align: usize) -> (r: usize)
    requires
        align > 0,
        align & ((align - 1) as usize) == 0,
        offset + align - 1 <= usize::MAX,
    ensures
        r & ((align - 1) as usize) == 0,
        offset <= r < offset + align,
{
    let m = align - 1;
    let s = offset + m;
    let r = s & !m;
    assert(r & m == 0 && offset <= r && r < offset + align) by (bit_vector)
        requires
            align > 0,
            m == align - 1,
            align & m == 0,
            s == offset + m,
            r == s & !m;
    r
}

/// Applies one command to a world. Returns the entity a spawn created.
pub fn apply_command<V>(world: &mut World<V>, cmd: WorldCommand<V>) -> (r: Option<Entity>)
    requires
        old(world).wf(),
        is_spawn(cmd) ==> old(world).spawn_capacity() > 0,
    ensures
        final(world).wf(),
        r is Some <==> is_spawn(cmd),
        r matches Some(e) ==> !old(world)@.contains_key(e) && final(world)@ == command_effect(old(world)@, cmd, e),
        is_spawn(cmd) ==> r == Some(old(world).ents().allocate().1) && final(world).ents().same_handles(old(world).ents().allocate().0),
        r is None ==> forall|f: Entity| #[trigger] command_effect(old(world)@, cmd, f) == final(world)@,
        final(world).spawn_capacity() >= old(world).spawn_capacity() - if is_spawn(cmd) { 1int } else { 0int },
        final(world).singleton_map() == old(world).singleton_map(),
        final(world).event_store() == old(world).event_store(),
        final(world).tick_count() == old(world).tick_count(),
{
    match cmd {
        WorldCommand::Spawn(b) => Some(world.spawn_with(b)),
        WorldCommand::SpawnEmpty => Some(world.spawn()),
        WorldCommand::Despawn(e) => {
            world.despawn(e);
            None
        },
        WorldCommand::Insert(e, id, v) => {
            let _ = world.insert(e, id, v);
            None
        },
        WorldCommand::InsertBundle(e, b) => {
            let _ = world.insert_bundle(e, b);
            None
        },
        WorldCommand::Remove(e, id) => {
            let ghost before = world@;
            let _ = world.remove(e, id);
            proof {
                if before.contains_key(e) && !before[e].contains_key(id.0) {
                    assert(before[e].remove(id.0) =~= before[e]);
                    assert(before.insert(e, before[e].remove(id.0)) =~= before);
                }
            }
            None
        },
    }
}

/// Sorts commands by the place of their kind, keeping queue order among
/// commands of the same place.
pub fn sort_by_kind<V>(cs: Vec<WorldCommand<V>>) -> (r: Vec<WorldCommand<V>>)
    ensures
        r@ == sorted_by_kind(cs@),
{
    let ghost orig = cs@;
    let n = cs.len();
    let mut slots = into_options(cs);
    let mut b0: Vec<WorldCommand<V>> = Vec::new();
    let mut b1: Vec<WorldCommand<V>> = Vec::new();
    let mut b2: Vec<WorldCommand<V>> = Vec::new();
    let mut b3: Vec<WorldCommand<V>> = Vec::new();
    let mut b4: Vec<WorldCommand<V>> = Vec::new();
    let mut b5: Vec<WorldCommand<V>> = Vec::new();
    let mut i: usize = 0;
    while i < n
        invariant
            i <= n,
            n == orig.len(),
            slots@.len() == n,
            forall|k: int| i <= k < n ==> #[trigger] slots@[k] == Some(orig[k]),
            b0@ == with_order(orig.subrange(0, i as int), 0),
            b1@ == with_order(orig.subrange(0, i as int), 1),
            b2@ == with_order(orig.subrange(0, i as int), 2),
            b3@ == with_order(orig.subrange(0, i as int), 3),
            b4@ == with_order(orig.subrange(0, i as int), 4),
            b5@ == with_order(orig.subrange(0, i as int), 5),
        decreases n - i,
    {
        let c = slots[i].take().unwrap();
        proof {
            assert(orig.subrange(0, i as int + 1).drop_last() =~= orig.subrange(0, i as int));
            assert(orig.subrange(0, i as int + 1).last() == c);
        }
        let kind = c.kind();
        let o = kind_order(&kind);
        if o == 0 {
            b0.push(c);
        } else if o == 1 {
            b1.push(c);
        } else if o == 2 {
            b2.push(c);
        } else if o == 3 {
            b3.push(c);
        } else if o == 4 {
            b4.push(c);
        } else {
            b5.push(c);
        }
        i = i + 1;
    }
    proof {
        assert(orig.subrange(0, n as int) =~= orig);
    }
    b0.append(&mut b1);
    b0.append(&mut b2);
    b0.append(&mut b3);
    b0.append(&mut b4);
    b0.append(&mut b5);
    b0
}

/// A queue of commands, applied grouped by kind.
pub struct CommandQueue<V> {
    commands: Vec<WorldCommand<V>>,
}

impl<V> View for CommandQueue<V> {
    type V = Seq<WorldCommand<V>>;

    /// The queued commands, in the order they were pushed.
    closed spec fn view(&self) -> Seq<WorldCommand<V>> {
        self.commands@
    }
}

impl<V> CommandQueue<V> {
    /// A queue holds no state beside its commands, so every queue is well
    /// formed.
    pub closed spec fn wf(&self) -> bool {
        true
    }

    /// Creates an empty queue.
    pub fn new() -> (r: CommandQueue<V>)
        ensures
            r.wf(),
            r@ == Seq::<WorldCommand<V>>::empty(),
    {
        CommandQueue { commands: Vec::new() }
    }

    /// Creates an empty queue with room for a number of commands.
    pub fn with_capacity(byte_capacity: usize, command_capacity: usize) -> (r: CommandQueue<V>)
        ensures
            r.wf(),
            r@ == Seq::<WorldCommand<V>>::empty(),
    {
        CommandQueue { commands: Vec::with_capacity(command_capacity) }
    }

    /// Returns whether no command is queued.
    pub fn is_empty(&self) -> (r: bool)
        ensures
            r == (self@.len() == 0),
    {
        self.commands.len() == 0
    }

    /// Returns the number of queued commands.
    pub fn len(&self) -> (r: usize)
        ensures
            r == self@.len(),
    {
        self.commands.len()
    }

    /// Returns the number of queued spawns: the entities applying the queue
    /// will create.
    pub fn spawn_count(&self) -> (r: usize)
        ensures
            r == spawn_count(self@),
    {
        let mut count: usize = 0;
        let mut i: usize = 0;
        while i < self.commands.len()
            invariant
                i <= self.commands@.len(),
                count <= i,
                count == spawn_count(self.commands@.subrange(0, i as int)),
            decreases self.commands@.len() - i,
        {
            proof {
                assert(self.commands@.subrange(0, i as int + 1).drop_last() =~= self.commands@.subrange(0, i as int));
            }
            let spawns = match &self.commands[i] {
                WorldCommand::Spawn(_) => true,
                WorldCommand::SpawnEmpty => true,
                _ => false,
            };
            if spawns {
                count = count + 1;
            }
            i = i + 1;
        }
        proof {
            assert(self.commands@.subrange(0, i as int) =~= self.commands@);
        }
        count
    }

    /// Queues a command.
    pub fn push(&mut self, command: WorldCommand<V>)
        requires
            old(self).wf(),
        ensures
            final(self).wf(),
            final(self)@ == old(self)@.push(command),
    {
        self.commands.push(command);
    }

    /// Applies the queued commands to the world and empties the queue. The
    /// commands are first sorted by kind (spawns, bundle inserts, component
    /// inserts, removals, despawns, others), queue order kept within a kind;
    /// runs of bundle inserts with one signature, and of removals of one
    /// component, are applied as batches.
    pub fn apply(&mut self, world: &mut World<V>)
        requires
            old(self).wf(),
            old(world).wf(),
            old(world).spawn_capacity() >= spawn_count(old(self)@),
        ensures
            final(self).wf(),
            final(self)@ == Seq::<WorldCommand<V>>::empty(),
            final(world).wf(),
            commands_lead_to(old(world)@, apply_order(old(self)@), final(world)@),
            final(world)@ == commands_effect(
                old(world)@,
                apply_order(old(self)@),
                old(world).ents().allocations(spawn_count(old(self)@)).1,
            ),
            final(world).spawn_capacity() >= old(world).spawn_capacity() - spawn_count(old(self)@),
            final(world).singleton_map() == old(world).singleton_map(),
            final(world).event_store() == old(world).event_store(),
            final(world).tick_count() == old(world).tick_count(),
    {
        let ghost w0 = world@;
        if self.commands.len() == 0 {
            proof {
                assert(commands_effect(w0, apply_order(old(self)@), Seq::<Entity>::empty()) == w0);
                assert(spawn_count(old(self)@) == 0);
                assert(commands_effect(w0, apply_order(old(self)@), old(world).ents().allocations(0).1) == w0);
            }
            return;
        }
        let mut cmds: Vec<WorldCommand<V>> = Vec::new();
        std::mem::swap(&mut cmds, &mut self.commands);
        proof {
            lemma_spawn_count_sorted(cmds@);
            law_apply_order(cmds@);
        }
        let order = sort_by_kind(cmds);
        self.clear();
        let ghost ord = order@;
        let n = order.len();
        let mut slots = into_options(order);
        let ghost mut fresh: Seq<Entity> = Seq::empty();
        let mut i: usize = 0;
        proof {
            assert(ord.subrange(0, 0) =~= Seq::<WorldCommand<V>>::empty());
        }
        while i < n
            invariant
                i <= n,
                n == ord.len(),
                ord == apply_order(old(self)@),
                spawn_count(ord) == spawn_count(old(self)@),
                slots@.len() == n,
                forall|k: int| i <= k < n ==> #[trigger] slots@[k] == Some(ord[k]),
                world.wf(),
                world@ == commands_effect(w0, ord.subrange(0, i as int), fresh),
                fresh.len() == spawn_count(ord.subrange(0, i as int)),
                fresh_spawns(w0, ord.subrange(0, i as int), fresh),
                world.spawn_capacity() + spawn_count(ord.subrange(0, i as int)) >= spawn_count(ord),
                world.spawn_capacity() + spawn_count(ord.subrange(0, i as int)) >= old(world).spawn_capacity(),
                world.singleton_map() == old(world).singleton_map(),
                world.event_store() == old(world).event_store(),
                world.tick_count() == old(world).tick_count(),
                self.wf(),
                self@ == Seq::<WorldCommand<V>>::empty(),
                places_ascend(ord),
                fresh == old(world).ents().allocations(fresh.len() as nat).1,
                (forall|k: int| 0 <= k < i ==> is_spawn(#[trigger] ord[k])) ==> world.ents().same_handles(
                    old(world).ents().allocations(fresh.len() as nat).0,
                ),
            decreases n - i,
        {
            let kind = slots[i].as_ref().unwrap().kind();
            let batchable = match kind {
                CommandKind::InsertBundle(_) => true,
                CommandKind::RemoveComponent(_) => true,
                _ => false,
            };
            if batchable {
                let mut j: usize = i + 1;
                while j < n && slots[j].as_ref().unwrap().kind() == kind
                    invariant
                        i < j <= n,
                        slots@.len() == n,
                        forall|k: int| i <= k < n ==> #[trigger] slots@[k] == Some(ord[k]),
                        forall|k: int| i <= k < j ==> spec_command_kind(#[trigger] ord[k]) == kind,
                    decreases n - j,
                {
                    j = j + 1;
                }
                if j - i > 1 {
                    let ghost before = world@;
                    match kind {
                        CommandKind::InsertBundle(_) => {
                            let mut batch: Vec<(Entity, Vec<(ComponentId, V)>)> = Vec::new();
                            let mut k: usize = i;
                            while k < j
                                invariant
                                    i <= k <= j <= n,
                                    slots@.len() == n,
                                    forall|q: int| k <= q < n ==> #[trigger] slots@[q] == Some(ord[q]),
                                    forall|q: int| i <= q < j ==> spec_command_kind(#[trigger] ord[q]) == kind,
                                    kind is InsertBundle,
                                    batch@.len() == k - i,
                                    forall|q: int| 0 <= q < k - i ==> ord[i + q] == WorldCommand::InsertBundle(#[trigger] batch@[q].0, batch@[q].1),
                                decreases j - k,
                            {
                                let c = slots[k].take().unwrap();
                                match c {
                                    WorldCommand::InsertBundle(e, b) => {
                                        batch.push((e, b));
                                    },
                                    _ => {
                                        proof {
                                            assert(spec_command_kind(ord[k as int]) == kind);
                                        }
                                    },
                                }
                                k = k + 1;
                            }
                            let ghost bseq = batch@;
                            world.insert_bundle_batch(batch);
                            proof {
                                lemma_bundle_run(w0, ord, fresh, i as int, j as int, bseq);
                            }
                        },
                        CommandKind::RemoveComponent(raw) => {
                            let mut es: Vec<Entity> = Vec::new();
                            let mut k: usize = i;
                            while k < j
                                invariant
                                    i <= k <= j <= n,
                                    slots@.len() == n,
                                    forall|q: int| k <= q < n ==> #[trigger] slots@[q] == Some(ord[q]),
                                    forall|q: int| i <= q < j ==> spec_command_kind(#[trigger] ord[q]) == kind,
                                    kind == CommandKind::RemoveComponent(raw),
                                    es@.len() == k - i,
                                    forall|q: int| 0 <= q < k - i ==> ord[i + q] == WorldCommand::<V>::Remove(#[trigger] es@[q], ComponentId(raw)),
                                decreases j - k,
                            {
                                let c = slots[k].take().unwrap();
                                match c {
                                    WorldCommand::Remove(e, _) => {
                                        es.push(e);
                                    },
                                    _ => {
                                        proof {
                                            assert(spec_command_kind(ord[k as int]) == kind);
                                        }
                                    },
                                }
                                k = k + 1;
                            }
                            world.remove_batch(es.as_slice(), ComponentId(raw));
                            proof {
                                lemma_remove_run(w0, ord, fresh, i as int, j as int, es@, ComponentId(raw));
                            }
                        },
                        _ => {},
                    }
                    proof {
                        lemma_spawn_count_prefix(ord, j as int);
                    }
                    i = j;
                    continue;
                }
            }
            let cmd = slots[i].take().unwrap();
            proof {
                lemma_prefix_step(w0, ord, fresh, i as int);
                lemma_spawn_count_prefix(ord, i as int + 1);
            }
            let ghost before = world@;
            let ghost wb = *world;
            let r = apply_command(world, cmd);
            proof {
                match r {
                    Some(e) => {
                        let a0 = old(world).ents().allocations(fresh.len() as nat);
                        assert forall|k: int| 0 <= k < i implies is_spawn(#[trigger] ord[k]) by {
                            assert(command_place(ord[k]) <= command_place(ord[i as int]));
                        }
                        wb.lemma_ents_wf();
                        wb.ents().lemma_same_handles_allocate(a0.0);
                        assert(old(world).ents().allocations(fresh.len() as nat + 1) == (a0.0.allocate().0, a0.1.push(a0.0.allocate().1)));
                        let f2 = fresh.push(e);
                        lemma_effect_fresh_prefix(w0, ord.subrange(0, i as int), fresh, f2);
                        lemma_prefix_step(w0, ord, f2, i as int);
                        fresh = f2;
                    },
                    None => {
                        lemma_prefix_step(w0, ord, fresh, i as int);
                        assert(command_effect(before, ord[i as int], fresh[spawn_count(ord.subrange(0, i as int)) as int]) == world@);
                    },
                }
            }
            i = i + 1;
        }
        proof {
            assert(ord.subrange(0, n as int) =~= ord);
            assert(commands_effect(w0, ord, fresh) == world@);
        }
    }

    /// Drops every queued command without applying it.
    pub fn clear(&mut self)
        ensures
            final(self).wf(),
            final(self)@ == Seq::<WorldCommand<V>>::empty(),
    {
        self.commands.clear();
    }
}

} // verus!
