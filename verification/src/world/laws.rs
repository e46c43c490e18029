//! Laws of the world's operations, stated over the view that their
//! contracts use: a map from each live entity to its components by id.

use vstd::prelude::*;
use crate::component::ComponentId;
use crate::entity::Entity;
use crate::bundle::bundle_view;

verus! {

/// Reading a component after inserting it gives the inserted value; the
/// entity's other components and every other entity stay as they were.
pub proof fn law_insert_then_get<V>(before: Map<Entity, Map<u64, V>>, e: Entity, id: u64, v: V)
    requires
        before.contains_key(e),
    ensures
        ({
            let after = before.insert(e, before[e].insert(id, v));
            &&& after.contains_key(e) && after[e].contains_key(id) && after[e][id] == v
            &&& forall|i: u64| i != id ==> (#[trigger] after[e].contains_key(i) == before[e].contains_key(i))
            &&& forall|i: u64| i != id && before[e].contains_key(i) ==> #[trigger] after[e][i] == before[e][i]
            &&& forall|x: Entity| x != e ==> (#[trigger] after.contains_key(x) == before.contains_key(x))
            &&& forall|x: Entity| x != e && before.contains_key(x) ==> #[trigger] after[x] == before[x]
        }),
{
}

/// Inserting a component an entity does not have and then removing it
/// gives back the value and leaves the world as it was.
pub proof fn law_insert_then_remove<V>(before: Map<Entity, Map<u64, V>>, e: Entity, id: u64, v: V)
    requires
        before.contains_key(e),
        !before[e].contains_key(id),
    ensures
        ({
            let mid = before.insert(e, before[e].insert(id, v));
            &&& mid[e][id] == v
            &&& mid.insert(e, mid[e].remove(id)) == before
        }),
{
    let mid = before.insert(e, before[e].insert(id, v));
    assert(mid[e].remove(id) =~= before[e]);
    assert(mid.insert(e, mid[e].remove(id)) =~= before);
}

/// After a component is removed, the entity no longer has it and keeps its
/// other components.
pub proof fn law_remove_then_absent<V>(before: Map<Entity, Map<u64, V>>, e: Entity, id: u64)
    requires
        before.contains_key(e),
    ensures
        ({
            let after = before.insert(e, before[e].remove(id));
            &&& !after[e].contains_key(id)
            &&& forall|i: u64| i != id ==> (#[trigger] after[e].contains_key(i) == before[e].contains_key(i))
            &&& forall|i: u64| i != id && before[e].contains_key(i) ==> #[trigger] after[e][i] == before[e][i]
        }),
{
}

/// After a despawn, the entity is gone and every other entity keeps its
/// components.
pub proof fn law_despawn_removes<V>(before: Map<Entity, Map<u64, V>>, e: Entity)
    ensures
        !before.remove(e).contains_key(e),
        forall|x: Entity| x != e ==> (#[trigger] before.remove(e).contains_key(x) == before.contains_key(x)),
        forall|x: Entity| x != e && before.contains_key(x) ==> #[trigger] before.remove(e)[x] == before[x],
{
}

/// Inserting a bundle keeps the components whose ids the bundle does not
/// name and takes the bundle's value for the ids it names.
pub proof fn law_insert_bundle_merges<V>(row: Map<u64, V>, bundle: Seq<(ComponentId, V)>)
    ensures
        forall|i: u64| #[trigger] row.union_prefer_right(bundle_view(bundle)).contains_key(i) <==> (row.contains_key(i)
            || bundle_view(bundle).contains_key(i)),
        forall|i: u64| bundle_view(bundle).contains_key(i) ==> #[trigger] row.union_prefer_right(bundle_view(bundle))[i] == bundle_view(
            bundle,
        )[i],
        forall|i: u64| !bundle_view(bundle).contains_key(i) && row.contains_key(i) ==> #[trigger] row.union_prefer_right(
            bundle_view(bundle),
        )[i] == row[i],
{
}

/// Inserting the same value twice is the same as inserting it once.
pub proof fn law_insert_idempotent<V>(before: Map<Entity, Map<u64, V>>, e: Entity, id: u64, v: V)
    requires
        before.contains_key(e),
    ensures
        ({
            let once = before.insert(e, before[e].insert(id, v));
            once.insert(e, once[e].insert(id, v)) == once
        }),
{
    let once = before.insert(e, before[e].insert(id, v));
    assert(once[e].insert(id, v) =~= once[e]);
    assert(once.insert(e, once[e].insert(id, v)) =~= once);
}

} // verus!
