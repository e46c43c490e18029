//! `World`: entities, the archetypes that store their components, and
//! singleton values.

pub mod links;
pub mod laws;

use vstd::prelude::*;
use crate::component::ComponentId;
use crate::entity::{Entities, EntitiesView, Entity, EntityLocation, MAX_SLOTS};
use crate::archetype::archetype::{Archetype, pos_of, seq_swap_remove, lemma_pos_of_unique};
use crate::archetype::archetypes::{Archetypes, increasing};
use crate::archetype::key::{ArchetypeKey, strictly_sorted};
use links::{linked, linked_but, slot_linked, world_view, entity_row, all_wf, pushed_row, lemma_detach, lemma_attach, lemma_release, lemma_allocate_links, lemma_extend, lemma_update, lemma_update_all, row_linked};
use crate::bundle::{bundle_view, bundle_ids, last_index, lemma_bundle_view, lemma_last_index, split_bundle, build_row, row_value, into_options, bundle_component_ids};
use crate::archetype::key::raw_ids;
use crate::keyed::KeyedVec;
use crate::events::{EventStorage, Events};

verus! {

/// Errors that can occur when interacting with the world.
#[derive(Clone, Copy, PartialEq, Eq, Structural, Debug)]
pub enum WorldError {
    /// The referenced entity is not currently alive.
    EntityNotAlive(Entity),
}

/// Central storage for entities and their components. Components of one
/// value type `V` are stored under component ids, in archetypes: groups of
/// entities with the same set of component ids.
pub struct World<V> {
    entities: Entities,
    archetypes: Archetypes<V>,
    singletons: KeyedVec<V>,
    events: EventStorage<V>,
    tick: u64,
}

impl<V> View for World<V> {
    type V = Map<Entity, Map<u64, V>>;

    /// The components of every live entity, by entity and component id.
    closed spec fn view(&self) -> Map<Entity, Map<u64, V>> {
        world_view(self.entities@, self.archetypes.archs())
    }
}

impl<V> World<V> {
    /// The allocator state.
    pub closed spec fn ents(&self) -> EntitiesView {
        self.entities@
    }

    /// The archetype storage.
    pub closed spec fn storage(&self) -> Archetypes<V> {
        self.archetypes
    }

    /// The singleton values, by id.
    pub closed spec fn singleton_map(&self) -> Map<u64, V> {
        self.singletons@
    }

    /// The event queues of the world.
    pub closed spec fn event_store(&self) -> EventStorage<V> {
        self.events
    }

    /// The number of completed runs.
    pub closed spec fn tick_count(&self) -> u64 {
        self.tick
    }

    /// How many more entities can be allocated before the index space is used up.
    pub closed spec fn spawn_capacity(&self) -> int {
        self.entities@.free.len() + (MAX_SLOTS - self.entities@.slots.len())
    }

    /// The allocator is well formed, the archetype storage is well formed,
    /// every row belongs to a live entity that records that row as its
    /// location, and every recorded location is a row holding that entity.
    pub closed spec fn wf(&self) -> bool {
        &&& self.entities@.wf()
        &&& self.archetypes.wf()
        &&& linked(self.entities@, self.archetypes.archs())
        &&& self.singletons.wf()
        &&& self.events.wf()
    }

    /// Creates an empty world.
    pub fn new() -> (r: World<V>)
        ensures
            r.wf(),
            r@ == Map::<Entity, Map<u64, V>>::empty(),
            r.singleton_map() == Map::<u64, V>::empty(),
            r.event_store()@ == Map::<u64, Events<V>>::empty(),
            r.tick_count() == 0,
            r.spawn_capacity() == MAX_SLOTS,
    {
        let r = World {
            entities: Entities::new(),
            archetypes: Archetypes::new(),
            singletons: KeyedVec::new(),
            events: EventStorage::new(),
            tick: 0,
        };
        assert(r@ =~= Map::<Entity, Map<u64, V>>::empty());
        assert(r.singleton_map() =~= Map::<u64, V>::empty());
        r
    }

    /// Returns whether another entity can be spawned.
    pub fn has_capacity(&self) -> (r: bool)
        requires
            self.wf(),
        ensures
            r == (self.spawn_capacity() > 0),
    {
        self.entities.slot_count() < MAX_SLOTS || self.entities.has_free()
    }

    /// The allocator of a well-formed world is well formed.
    pub proof fn lemma_ents_wf(&self)
        requires
            self.wf(),
        ensures
            self.ents().wf(),
    {
    }

    /// The event queues of the world.
    pub fn events(&self) -> (r: &EventStorage<V>)
        requires
            self.wf(),
        ensures
            *r == self.event_store(),
            r.wf(),
    {
        &self.events
    }

    /// The event queues of the world, for writing. Everything else stays as
    /// it was, and the world stays well formed while the queues do.
    pub fn events_mut(&mut self) -> (r: &mut EventStorage<V>)
        requires
            old(self).wf(),
        ensures
            *r == old(self).event_store(),
            r.wf(),
            final(self).event_store() == *final(r),
            final(self)@ == old(self)@,
            final(self).ents() == old(self).ents(),
            final(self).spawn_capacity() == old(self).spawn_capacity(),
            final(self).singleton_map() == old(self).singleton_map(),
            final(self).tick_count() == old(self).tick_count(),
            final(r).wf() ==> final(self).wf(),
    {
        &mut self.events
    }

    /// Returns how many more entities can be spawned.
    pub fn spawn_room(&self) -> (r: u128)
        requires
            self.wf(),
        ensures
            r == self.spawn_capacity(),
    {
        let free = self.entities.free_count() as u128;
        let fresh = (MAX_SLOTS - self.entities.slot_count()) as u128;
        free + fresh
    }

    /// Returns whether the entity exists and is alive.
    pub fn is_alive(&self, entity: Entity) -> (r: bool)
        ensures
            r == self@.contains_key(entity),
    {
        self.entities.is_alive(entity)
    }

    /// Returns the archetypes that store the components of the entities.
    pub fn archetypes(&self) -> (r: &Archetypes<V>)
        ensures
            *r == self.storage(),
    {
        &self.archetypes
    }

    /// Returns the current tick.
    pub fn tick(&self) -> (r: u64)
        ensures
            r == self.tick_count(),
    {
        self.tick
    }

    /// Counts one more completed run.
    pub fn advance_tick(&mut self)
        requires
            old(self).wf(),
            old(self).tick_count() < u64::MAX,
        ensures
            final(self).tick_count() == old(self).tick_count() + 1,
            final(self)@ == old(self)@,
            final(self).wf(),
            final(self).singleton_map() == old(self).singleton_map(),
            final(self).event_store() == old(self).event_store(),
            final(self).spawn_capacity() == old(self).spawn_capacity(),
    {
        self.tick = self.tick + 1;
    }
}

/// What inserting bundles one after another does to the components of the
/// entities: each live entity of the batch gets its bundle's components,
/// later bundles winning.
pub open spec fn apply_bundles<V>(m: Map<Entity, Map<u64, V>>, batch: Seq<(Entity, Vec<(ComponentId, V)>)>) -> Map<Entity, Map<u64, V>>
    decreases batch.len(),
{
    if batch.len() == 0 {
        m
    } else {
        let prev = apply_bundles(m, batch.drop_last());
        let e = batch.last().0;
        if prev.contains_key(e) {
            prev.insert(e, prev[e].union_prefer_right(bundle_view(batch.last().1@)))
        } else {
            prev
        }
    }
}

/// The components of the entities after removing a component id from each
/// entity of a list.
pub open spec fn remove_from_all<V>(m: Map<Entity, Map<u64, V>>, entities: Seq<Entity>, id: u64) -> Map<Entity, Map<u64, V>> {
    Map::new(|x: Entity| m.contains_key(x), |x: Entity| if entities.contains(x) { m[x].remove(id) } else { m[x] })
}

impl<V> World<V> {
    /// Spawns one entity per bundle and returns them in order.
    pub fn spawn_batch(&mut self, bundles: Vec<Vec<(ComponentId, V)>>) -> (r: Vec<Entity>)
        requires
            old(self).wf(),
            old(self).spawn_capacity() >= bundles@.len(),
        ensures
            final(self).wf(),
            r@.len() == bundles@.len(),
            forall|k: int| 0 <= k < r@.len() ==> !old(self)@.contains_key(#[trigger] r@[k]),
            forall|i: int, j: int| 0 <= i < j < r@.len() ==> r@[i] != r@[j],
            forall|x: Entity| #[trigger] final(self)@.contains_key(x) <==> (old(self)@.contains_key(x) || r@.contains(x)),
            forall|x: Entity| old(self)@.contains_key(x) ==> #[trigger] final(self)@[x] == old(self)@[x],
            forall|k: int| 0 <= k < r@.len() ==> #[trigger] final(self)@[r@[k]] == bundle_view(bundles@[k]@),
            final(self).spawn_capacity() == old(self).spawn_capacity() - bundles@.len(),
            final(self).singleton_map() == old(self).singleton_map(),
            final(self).event_store() == old(self).event_store(),
            final(self).tick_count() == old(self).tick_count(),
            r@ == old(self).ents().allocations(bundles@.len() as nat).1,
            final(self).ents().same_handles(old(self).ents().allocations(bundles@.len() as nat).0),
    {
        let ghost orig = bundles@;
        let n = bundles.len();
        let mut slots = into_options(bundles);
        let mut out: Vec<Entity> = Vec::new();
        let mut i: usize = 0;
        while i < n
            invariant
                i <= n,
                n == orig.len(),
                slots@.len() == n,
                forall|k: int| i <= k < n ==> #[trigger] slots@[k] == Some(orig[k]),
                self.wf(),
                self.spawn_capacity() == old(self).spawn_capacity() - i,
                old(self).spawn_capacity() >= n,
                self.singleton_map() == old(self).singleton_map(),
                self.event_store() == old(self).event_store(),
                self.tick_count() == old(self).tick_count(),
                out@.len() == i,
                forall|k: int| 0 <= k < out@.len() ==> !old(self)@.contains_key(#[trigger] out@[k]),
                forall|a: int, b: int| 0 <= a < b < out@.len() ==> out@[a] != out@[b],
                forall|x: Entity| #[trigger] self@.contains_key(x) <==> (old(self)@.contains_key(x) || out@.contains(x)),
                forall|x: Entity| old(self)@.contains_key(x) ==> #[trigger] self@[x] == old(self)@[x],
                forall|k: int| 0 <= k < out@.len() ==> #[trigger] self@[out@[k]] == bundle_view(orig[k]@),
                out@ == old(self).ents().allocations(i as nat).1,
                self.ents().same_handles(old(self).ents().allocations(i as nat).0),
            decreases n - i,
        {
            let b = slots[i].take().unwrap();
            let ghost prev = self@;
            let ghost prev_out = out@;
            let ghost prev_ents = self.ents();
            let e = self.spawn_with(b);
            out.push(e);
            proof {
                let ai = old(self).ents().allocations(i as nat).0;
                assert(prev_ents.free.len() > 0 ==> (prev_ents.free.last() as int) < prev_ents.slots.len()) by {
                    if prev_ents.free.len() > 0 {
                        assert(prev_ents.free[prev_ents.free.len() - 1] < prev_ents.slots.len());
                    }
                }
                prev_ents.lemma_same_handles_allocate(ai);
                assert(old(self).ents().allocations(i as nat + 1) == (ai.allocate().0, old(self).ents().allocations(i as nat).1.push(ai.allocate().1)));
                assert(self.ents().same_handles(ai.allocate().0));
                assert forall|k: int| 0 <= k < prev_out.len() implies prev_out[k] != e by {
                    assert(prev.contains_key(prev_out[k]));
                }
                assert forall|x: Entity| #[trigger] self@.contains_key(x) <==> (old(self)@.contains_key(x) || out@.contains(x)) by {
                    if out@.contains(x) && x != e {
                        let k = choose|k: int| 0 <= k < out@.len() && out@[k] == x;
                        assert(prev_out[k] == x);
                    }
                    if prev_out.contains(x) {
                        let k = choose|k: int| 0 <= k < prev_out.len() && prev_out[k] == x;
                        assert(out@[k] == x);
                    }
                    if x == e {
                        assert(out@[i as int] == x);
                    }
                }
                assert forall|k: int| 0 <= k < out@.len() implies #[trigger] self@[out@[k]] == bundle_view(orig[k]@) by {
                    if k < i {
                        assert(out@[k] == prev_out[k]);
                        assert(prev.contains_key(prev_out[k]));
                    }
                }
            }
            i = i + 1;
        }
        out
    }

    /// Removes a component id from every live entity of a list that has it.
    pub fn remove_batch(&mut self, entities: &[Entity], id: ComponentId)
        requires
            old(self).wf(),
        ensures
            final(self).wf(),
            final(self)@ == remove_from_all(old(self)@, entities@, id.0),
            final(self).spawn_capacity() == old(self).spawn_capacity(),
            final(self).singleton_map() == old(self).singleton_map(),
            final(self).event_store() == old(self).event_store(),
            final(self).tick_count() == old(self).tick_count(),
    {
        let mut i: usize = 0;
        proof {
            assert(remove_from_all(old(self)@, entities@.subrange(0, 0), id.0) =~= old(self)@);
        }
        while i < entities.len()
            invariant
                i <= entities@.len(),
                self.wf(),
                self@ == remove_from_all(old(self)@, entities@.subrange(0, i as int), id.0),
                self.spawn_capacity() == old(self).spawn_capacity(),
                self.singleton_map() == old(self).singleton_map(),
                self.event_store() == old(self).event_store(),
                self.tick_count() == old(self).tick_count(),
            decreases entities@.len() - i,
        {
            let e = entities[i];
            let ghost prev = self@;
            let _ = self.remove(e, id);
            proof {
                let pre = entities@.subrange(0, i as int);
                let post = entities@.subrange(0, i as int + 1);
                assert forall|x: Entity| #[trigger] post.contains(x) <==> (pre.contains(x) || x == e) by {
                    if post.contains(x) {
                        let k = choose|k: int| 0 <= k < post.len() && post[k] == x;
                        if k < i {
                            assert(pre[k] == x);
                        }
                    }
                    if pre.contains(x) {
                        let k = choose|k: int| 0 <= k < pre.len() && pre[k] == x;
                        assert(post[k] == x);
                    }
                    if x == e {
                        assert(post[i as int] == x);
                    }
                }
                if prev.contains_key(e) {
                    assert(prev[e].remove(id.0).remove(id.0) =~= prev[e].remove(id.0));
                    if !prev[e].contains_key(id.0) {
                        assert(prev[e].remove(id.0) =~= prev[e]);
                    }
                    if !pre.contains(e) {
                        assert(old(self)@[e].remove(id.0) =~= prev[e].remove(id.0));
                    }
                }
                assert(self@ =~= remove_from_all(old(self)@, post, id.0));
            }
            i = i + 1;
        }
        proof {
            assert(entities@.subrange(0, i as int) =~= entities@);
        }
    }

    /// Inserts bundles onto entities, one after another; entities that are
    /// not alive are skipped.
    pub fn insert_bundle_batch(&mut self, batch: Vec<(Entity, Vec<(ComponentId, V)>)>)
        requires
            old(self).wf(),
        ensures
            final(self).wf(),
            final(self)@ == apply_bundles(old(self)@, batch@),
            final(self).spawn_capacity() == old(self).spawn_capacity(),
            final(self).singleton_map() == old(self).singleton_map(),
            final(self).event_store() == old(self).event_store(),
            final(self).tick_count() == old(self).tick_count(),
    {
        let ghost orig = batch@;
        let n = batch.len();
        let mut slots = into_options(batch);
        let mut i: usize = 0;
        proof {
            assert(orig.subrange(0, 0) =~= Seq::<(Entity, Vec<(ComponentId, V)>)>::empty());
        }
        while i < n
            invariant
                i <= n,
                n == orig.len(),
                slots@.len() == n,
                forall|k: int| i <= k < n ==> #[trigger] slots@[k] == Some(orig[k]),
                self.wf(),
                self@ == apply_bundles(old(self)@, orig.subrange(0, i as int)),
                self.spawn_capacity() == old(self).spawn_capacity(),
                self.singleton_map() == old(self).singleton_map(),
                self.event_store() == old(self).event_store(),
                self.tick_count() == old(self).tick_count(),
            decreases n - i,
        {
            let (e, b) = slots[i].take().unwrap();
            let _ = self.insert_bundle(e, b);
            proof {
                assert(orig.subrange(0, i as int + 1).drop_last() =~= orig.subrange(0, i as int));
            }
            i = i + 1;
        }
        proof {
            assert(orig.subrange(0, n as int) =~= orig);
        }
    }
}

/// A row of components has every required id and none of the excluded ones.
pub open spec fn row_matches<V>(row: Map<u64, V>, required: Seq<ComponentId>, excluded: Seq<ComponentId>) -> bool {
    &&& forall|k: int| 0 <= k < required.len() ==> row.contains_key(#[trigger] required[k].0)
    &&& forall|k: int| 0 <= k < excluded.len() ==> !row.contains_key(#[trigger] excluded[k].0)
}

impl<V> World<V> {
    /// Returns the live entities that have every required component and none
    /// of the excluded ones, each once, grouped by archetype.
    pub fn matching_entities(&self, required: &[ComponentId], excluded: &[ComponentId]) -> (r: Vec<Entity>)
        requires
            self.wf(),
        ensures
            forall|x: Entity| #[trigger] r@.contains(x) <==> (self@.contains_key(x) && row_matches(self@[x], required@, excluded@)),
            forall|i: int, j: int| 0 <= i < j < r@.len() ==> r@[i] != r@[j],
    {
        let arches = self.archetypes.matching_filtered(required, excluded);
        let ghost archs = self.archetypes.archs();
        let ghost ents = self.entities@;
        let mut out: Vec<Entity> = Vec::new();
        let ghost mut pa: Seq<int> = Seq::empty();
        let ghost mut pr: Seq<int> = Seq::empty();
        let mut k: usize = 0;
        while k < arches.len()
            invariant
                k <= arches@.len(),
                self.wf(),
                archs == self.archetypes.archs(),
                ents == self.entities@,
                increasing(arches@),
                forall|x: usize| arches@.contains(x) <==> ((x as int) < archs.len() && self.archetypes.holds_all(x as int, required@)
                    && self.archetypes.holds_none(x as int, excluded@)),
                out@.len() == pa.len() && pa.len() == pr.len(),
                forall|q: int| 0 <= q < out@.len() ==> 0 <= #[trigger] pa[q] < k,
                forall|q: int| 0 <= q < out@.len() ==> 0 <= #[trigger] pr[q] < archs[arches@[pa[q]] as int].entity_seq().len(),
                forall|q: int| 0 <= q < out@.len() ==> #[trigger] out@[q] == archs[arches@[pa[q]] as int].entity_seq()[pr[q]],
                forall|q1: int, q2: int| 0 <= q1 < q2 < out@.len() ==> pa[q1] < pa[q2] || (pa[q1] == pa[q2] && pr[q1] < pr[q2]),
                forall|m: int, r: int| 0 <= m < k && 0 <= r < archs[arches@[m] as int].entity_seq().len() ==> out@.contains(
                    #[trigger] archs[arches@[m] as int].entity_seq()[r],
                ),
            decreases arches@.len() - k,
        {
            let a = arches[k];
            proof {
                assert(arches@.contains(a));
            }
            let row_entities = self.archetypes.get(a).unwrap().entities();
            let mut j: usize = 0;
            while j < row_entities.len()
                invariant
                    j <= row_entities@.len(),
                    k < arches@.len(),
                    a == arches@[k as int],
                    (a as int) < archs.len(),
                    row_entities@ == archs[a as int].entity_seq(),
                    out@.len() == pa.len() && pa.len() == pr.len(),
                    forall|q: int| 0 <= q < out@.len() ==> 0 <= #[trigger] pa[q] <= k,
                    forall|q: int| 0 <= q < out@.len() ==> 0 <= #[trigger] pr[q] < archs[arches@[pa[q]] as int].entity_seq().len(),
                    forall|q: int| 0 <= q < out@.len() ==> #[trigger] out@[q] == archs[arches@[pa[q]] as int].entity_seq()[pr[q]],
                    forall|q: int| 0 <= q < out@.len() && pa[q] == k ==> #[trigger] pr[q] < j,
                    forall|q1: int, q2: int| 0 <= q1 < q2 < out@.len() ==> pa[q1] < pa[q2] || (pa[q1] == pa[q2] && pr[q1] < pr[q2]),
                    forall|m: int, r: int| 0 <= m < k && 0 <= r < archs[arches@[m] as int].entity_seq().len() ==> out@.contains(
                        #[trigger] archs[arches@[m] as int].entity_seq()[r],
                    ),
                    forall|r: int| 0 <= r < j ==> out@.contains(#[trigger] archs[a as int].entity_seq()[r]),
                decreases row_entities@.len() - j,
            {
                let ghost prev = out@;
                out.push(row_entities[j]);
                proof {
                    pa = pa.push(k as int);
                    pr = pr.push(j as int);
                    assert forall|m: int, r: int| 0 <= m < k && 0 <= r < archs[arches@[m] as int].entity_seq().len() implies out@.contains(
                        #[trigger] archs[arches@[m] as int].entity_seq()[r]) by {
                        let x = archs[arches@[m] as int].entity_seq()[r];
                        assert(prev.contains(x));
                        let q = choose|q: int| 0 <= q < prev.len() && prev[q] == x;
                        assert(out@[q] == x);
                    }
                    assert forall|r: int| 0 <= r < j + 1 implies out@.contains(#[trigger] archs[a as int].entity_seq()[r]) by {
                        let x = archs[a as int].entity_seq()[r];
                        if r < j {
                            assert(prev.contains(x));
                            let q = choose|q: int| 0 <= q < prev.len() && prev[q] == x;
                            assert(out@[q] == x);
                        } else {
                            assert(out@[prev.len() as int] == x);
                        }
                    }
                }
                j = j + 1;
            }
            k = k + 1;
        }
        proof {
            assert forall|i: int, j: int| 0 <= i < j < out@.len() implies out@[i] != out@[j] by {
                let ai = arches@[pa[i]] as int;
                let aj = arches@[pa[j]] as int;
                assert(arches@.contains(arches@[pa[i]]));
                assert(arches@.contains(arches@[pa[j]]));
                assert(row_linked(ents, archs, ai, pr[i]));
                assert(row_linked(ents, archs, aj, pr[j]));
                if pa[i] < pa[j] {
                    assert(arches@[pa[i]] < arches@[pa[j]]);
                }
            }
            assert forall|x: Entity| #[trigger] out@.contains(x) <==> (self@.contains_key(x) && row_matches(self@[x], required@, excluded@)) by {
                if out@.contains(x) {
                    let q = choose|q: int| 0 <= q < out@.len() && out@[q] == x;
                    let a = arches@[pa[q]] as int;
                    assert(arches@.contains(arches@[pa[q]]));
                    assert(row_linked(ents, archs, a, pr[q]));
                    assert(self@[x] == archs[a].row_map(pr[q]));
                    assert forall|m: int| 0 <= m < required@.len() implies self@[x].contains_key(#[trigger] required@[m].0) by {
                        assert(self.archetypes.key_set(a).contains(required@[m].0));
                    }
                    assert forall|m: int| 0 <= m < excluded@.len() implies !self@[x].contains_key(#[trigger] excluded@[m].0) by {
                        assert(!self.archetypes.key_set(a).contains(excluded@[m].0));
                    }
                }
                if self@.contains_key(x) && row_matches(self@[x], required@, excluded@) {
                    assert(slot_linked(ents, archs, x.index as int));
                    let loc = ents.slots[x.index as int].location->0;
                    let a = loc.archetype;
                    let r = loc.slot as int;
                    assert(row_linked(ents, archs, a as int, r));
                    assert(archs[a as int].entity_seq()[r] == x);
                    assert(self@[x] == archs[a as int].row_map(r));
                    assert(self.archetypes.holds_all(a as int, required@)) by {
                        assert forall|m: int| 0 <= m < required@.len() implies self.archetypes.key_set(a as int).contains(#[trigger] required@[m].0) by {
                            assert(self@[x].contains_key(required@[m].0));
                        }
                    }
                    assert(self.archetypes.holds_none(a as int, excluded@)) by {
                        assert forall|m: int| 0 <= m < excluded@.len() implies !self.archetypes.key_set(a as int).contains(#[trigger] excluded@[m].0) by {
                            assert(!self@[x].contains_key(excluded@[m].0));
                        }
                    }
                    assert(arches@.contains(a));
                    let m = choose|m: int| 0 <= m < arches@.len() && arches@[m] == a;
                    assert(out@.contains(archs[arches@[m] as int].entity_seq()[r]));
                }
            }
        }
        out
    }
}

impl<V> World<V> {
    /// Takes a live entity's row out of its archetype and hands back its
    /// location and its components in key order; the entity that moved into
    /// the row gets its new location.
    fn detach(&mut self, e: Entity) -> (r: (EntityLocation, Vec<V>))
        requires
            old(self).wf(),
            old(self).entities@.is_alive(e),
        ensures
            ({
                let loc = old(self).entities@.location(e)->0;
                let old_archs = old(self).archetypes.archs();
                &&& r.0 == loc
                &&& (loc.archetype as int) < old_archs.len()
                &&& (loc.slot as int) < old_archs[loc.archetype as int].entity_seq().len()
                &&& r.1@.len() == old_archs[loc.archetype as int].key_view().ids().len()
                &&& forall|j: int| 0 <= j < r.1@.len() ==> #[trigger] r.1@[j] == old_archs[loc.archetype as int].column_seqs()[j][loc.slot as int]
            }),
            final(self).entities@.wf(),
            final(self).archetypes.wf(),
            linked_but(final(self).entities@, final(self).archetypes.archs(), e),
            final(self).entities@.slots.len() == old(self).entities@.slots.len(),
            final(self).entities@.free == old(self).entities@.free,
            final(self).entities@.slots[e.index as int] == old(self).entities@.slots[e.index as int],
            forall|x: Entity| #[trigger] final(self).entities@.is_alive(x) == old(self).entities@.is_alive(x),
            forall|x: Entity| old(self).entities@.is_alive(x) && x != e ==> #[trigger] entity_row(final(self).entities@, final(self).archetypes.archs(), x)
                == entity_row(old(self).entities@, old(self).archetypes.archs(), x),
            final(self).archetypes.archs().len() == old(self).archetypes.archs().len(),
            forall|b: int| 0 <= b < old(self).archetypes.archs().len() ==> #[trigger] final(self).archetypes.archs()[b].key_view()
                == old(self).archetypes.archs()[b].key_view(),
            final(self).singletons == old(self).singletons,
            final(self).events == old(self).events,
            final(self).tick == old(self).tick,
    {
        proof {
            assert(slot_linked(self.entities@, self.archetypes.archs(), e.index as int));
        }
        let loc = self.entities.location(e).unwrap();
        let (vals, moved) = self.archetypes.swap_remove_row(loc.archetype, loc.slot);
        match moved {
            Some(m) => {
                self.entities.set_location(m, loc);
            },
            None => {},
        }
        proof {
            lemma_detach(old(self).entities@, old(self).archetypes.archs(), self.entities@, self.archetypes.archs(), e);
        }
        (loc, vals)
    }

    /// Pushes an entity that is between rows as a new row of an archetype,
    /// with its components in key order.
    fn attach(&mut self, e: Entity, t: usize, row: Vec<V>)
        requires
            old(self).entities@.wf(),
            old(self).archetypes.wf(),
            old(self).singletons.wf(),
            old(self).events.wf(),
            linked_but(old(self).entities@, old(self).archetypes.archs(), e),
            (t as int) < old(self).archetypes.archs().len(),
            row@.len() == old(self).archetypes.archs()[t as int].key_view().ids().len(),
        ensures
            final(self).wf(),
            final(self).entities@.is_alive(e),
            entity_row(final(self).entities@, final(self).archetypes.archs(), e) == pushed_row(old(self).archetypes.archs()[t as int], row@),
            forall|x: Entity| x != e ==> #[trigger] final(self).entities@.is_alive(x) == old(self).entities@.is_alive(x),
            forall|x: Entity| old(self).entities@.is_alive(x) && x != e ==> #[trigger] entity_row(final(self).entities@, final(self).archetypes.archs(), x)
                == entity_row(old(self).entities@, old(self).archetypes.archs(), x),
            final(self).entities@.slots.len() == old(self).entities@.slots.len(),
            final(self).entities@.free == old(self).entities@.free,
            forall|i: int| 0 <= i < old(self).entities@.slots.len() ==> #[trigger] final(self).entities@.slots[i].generation
                == old(self).entities@.slots[i].generation,
            final(self).singletons == old(self).singletons,
            final(self).events == old(self).events,
            final(self).tick == old(self).tick,
    {
        proof {
            assert(self.archetypes.archs()[t as int].wf());
        }
        let p = self.archetypes.push_row(t, e, row);
        self.entities.set_location(e, EntityLocation { archetype: t, slot: p });
        proof {
            lemma_attach(old(self).entities@, old(self).archetypes.archs(), self.entities@, self.archetypes.archs(), e, t, p, row@);
        }
    }
}

impl<V> World<V> {
    /// The row a live entity gets when it moves to archetype `t`: each id of
    /// the target key takes the bundle's value if the bundle has it, else
    /// the entity's current value.
    spec fn moved_row(&self, e: Entity, t: int, bundle: Seq<(ComponentId, V)>) -> Map<u64, V> {
        Map::new(
            |i: u64| self.archetypes.key_set(t).contains(i),
            |i: u64| if bundle_view(bundle).contains_key(i) { bundle_view(bundle)[i] } else { self@[e][i] },
        )
    }

    /// Moves a live entity to archetype `t`, taking the values of the bundle
    /// for the ids it has and keeping its other values; the value of `drop`,
    /// which the target does not hold, is handed back.
    fn relocate(&mut self, e: Entity, t: usize, bundle: Vec<(ComponentId, V)>, drop: Option<ComponentId>) -> (r: Option<V>)
        requires
            old(self).wf(),
            old(self)@.contains_key(e),
            (t as int) < old(self).archetypes.archs().len(),
            forall|i: u64| #[trigger] old(self).archetypes.key_set(t as int).contains(i) ==> bundle_view(bundle@).contains_key(i)
                || old(self)@[e].contains_key(i),
            drop matches Some(d) ==> old(self)@[e].contains_key(d.0) && !old(self).archetypes.key_set(t as int).contains(d.0),
        ensures
            final(self).wf(),
            final(self)@ == old(self)@.insert(e, old(self).moved_row(e, t as int, bundle@)),
            r == (match drop {
                Some(d) => Some(old(self)@[e][d.0]),
                None => None,
            }),
            final(self).entities@.slots.len() == old(self).entities@.slots.len(),
            final(self).entities@.free == old(self).entities@.free,
            final(self).singletons == old(self).singletons,
            final(self).events == old(self).events,
            final(self).tick == old(self).tick,
    {
        let ghost old_row = old(self)@[e];
        let ghost tkey = old(self).archetypes.archs()[t as int].key_view();
        proof {
            lemma_bundle_view(bundle@);
        }
        let ghost bundle0 = bundle@;
        let (ids, mut b_vals) = split_bundle(bundle);
        let ghost b_vals0 = b_vals@;
        let (loc, vals) = self.detach(e);
        let ghost a = loc.archetype as int;
        let ghost s = loc.slot as int;
        let ghost skey = old(self).archetypes.archs()[a].key_view();
        proof {
            assert(old(self).archetypes.archs()[a].wf());
            assert(old(self).archetypes.archs()[t as int].wf());
        }
        let ghost vals_seq = vals@;
        let mut src_vals = into_options(vals);
        let ghost src0 = src_vals@;
        let removed = match drop {
            Some(d) => {
                let p = self.archetypes.key(loc.archetype).unwrap().position(d).unwrap();
                src_vals[p].take()
            },
            None => None,
        };
        proof {
            assert(old_row == old(self).archetypes.archs()[a].row_map(s));
            assert forall|i: u64| #[trigger] tkey.id_set().contains(i) implies ids@.contains(i) || skey.id_set().contains(i) by {
                assert(old(self).archetypes.key_set(t as int).contains(i));
                if bundle_view(bundle0).contains_key(i) {
                    assert(bundle_ids(bundle0).to_set().contains(i));
                }
            }
        }
        let row = {
            let tk = self.archetypes.key(t).unwrap();
            let sk = self.archetypes.key(loc.archetype).unwrap();
            build_row(tk, sk, &mut src_vals, &ids, &mut b_vals)
        };
        let ghost row_seq = row@;
        let ghost mid_archs = self.archetypes.archs();
        self.attach(e, t, row);
        proof {
            let target = old(self).moved_row(e, t as int, bundle0);
            assert(mid_archs[t as int].key_view() == tkey);
            assert forall|i: u64| #[trigger] tkey.id_set().contains(i) implies pushed_row(mid_archs[t as int], row_seq)[i] == target[i] by {
                let j = pos_of(tkey.ids(), i);
                assert(0 <= j < tkey.ids().len() && tkey.ids()[j] == i);
                assert(row_seq[j] == row_value(skey.ids(), src0, ids@, b_vals0, i));
                if ids@.contains(i) {
                    lemma_last_index(ids@, i);
                    assert(bundle_view(bundle0).contains_key(i));
                } else {
                    assert(!bundle_ids(bundle0).to_set().contains(i));
                    assert(skey.id_set().contains(i));
                    let q = pos_of(skey.ids(), i);
                    assert(0 <= q < skey.ids().len() && skey.ids()[q] == i);
                    assert(src0[q] == Some(vals_seq[q]));
                }
            }
            assert(pushed_row(mid_archs[t as int], row_seq) =~= target);
            assert(self@ =~= old(self)@.insert(e, target));
        }
        removed
    }
}

impl<V> World<V> {
    /// After new archetypes appear, with the old ones unchanged but for
    /// their cached transitions, the world is as before.
    proof fn lemma_storage_grew(old_w: &World<V>, new_w: &World<V>)
        requires
            old_w.wf(),
            new_w.archetypes.wf(),
            new_w.entities == old_w.entities,
            new_w.singletons == old_w.singletons,
            new_w.events == old_w.events,
            new_w.archetypes.archs().len() >= old_w.archetypes.archs().len(),
            forall|b: int| 0 <= b < old_w.archetypes.archs().len() ==> {
                &&& #[trigger] new_w.archetypes.archs()[b].key_view() == old_w.archetypes.archs()[b].key_view()
                &&& new_w.archetypes.archs()[b].entity_seq() == old_w.archetypes.archs()[b].entity_seq()
                &&& new_w.archetypes.archs()[b].column_seqs() == old_w.archetypes.archs()[b].column_seqs()
            },
            forall|b: int| old_w.archetypes.archs().len() <= b < new_w.archetypes.archs().len() ==> (#[trigger] new_w.archetypes.archs()[b]).entity_seq().len() == 0,
        ensures
            new_w.wf(),
            new_w@ == old_w@,
    {
        lemma_extend(old_w.entities@, old_w.archetypes.archs(), new_w.archetypes.archs());
        assert(new_w@ =~= old_w@);
    }

    /// Spawns a new entity with the components of a bundle; when an id
    /// repeats in the bundle, its last value wins. The entity is the one the
    /// allocator hands out: the most recently freed index with its current
    /// generation, or else the next new index with generation 0.
    pub fn spawn_with(&mut self, bundle: Vec<(ComponentId, V)>) -> (e: Entity)
        requires
            old(self).wf(),
            old(self).spawn_capacity() > 0,
        ensures
            final(self).wf(),
            e == old(self).ents().allocate().1,
            final(self).ents().free == old(self).ents().allocate().0.free,
            final(self).ents().slots.len() == old(self).ents().allocate().0.slots.len(),
            forall|i: int| 0 <= i < final(self).ents().slots.len() ==> #[trigger] final(self).ents().slots[i].generation
                == old(self).ents().allocate().0.slots[i].generation,
            !old(self)@.contains_key(e),
            final(self)@ == old(self)@.insert(e, bundle_view(bundle@)),
            final(self).spawn_capacity() == old(self).spawn_capacity() - 1,
            final(self).singleton_map() == old(self).singleton_map(),
            final(self).event_store() == old(self).event_store(),
            final(self).tick_count() == old(self).tick_count(),
    {
        proof {
            lemma_allocate_links(self.entities@, self.archetypes.archs());
            lemma_bundle_view(bundle@);
        }
        let e = self.entities.allocate();
        let cids = bundle_component_ids(&bundle);
        let key = ArchetypeKey::new(cids);
        let ghost before = *self;
        let t = self.archetypes.ensure(key);
        proof {
            lemma_extend(self.entities@, before.archetypes.archs(), self.archetypes.archs());
            assert(self.archetypes.archs()[t as int].wf());
        }
        let ghost bundle0 = bundle@;
        let (ids, mut b_vals) = split_bundle(bundle);
        let ghost b_vals0 = b_vals@;
        let empty = ArchetypeKey::empty();
        let mut no_vals: Vec<Option<V>> = Vec::new();
        let row = {
            let tk = self.archetypes.key(t).unwrap();
            proof {
                assert forall|i: u64| #[trigger] tk.id_set().contains(i) implies ids@.contains(i) || empty.id_set().contains(i) by {
                    assert(bundle_ids(bundle0).to_set().contains(i));
                }
            }
            build_row(tk, &empty, &mut no_vals, &ids, &mut b_vals)
        };
        let ghost row_seq = row@;
        let ghost mid = self.archetypes.archs();
        self.attach(e, t, row);
        proof {
            let tkey = mid[t as int].key_view();
            assert forall|i: u64| #[trigger] tkey.id_set().contains(i) implies pushed_row(mid[t as int], row_seq)[i] == bundle_view(bundle0)[i] by {
                let j = pos_of(tkey.ids(), i);
                assert(0 <= j < tkey.ids().len() && tkey.ids()[j] == i);
                assert(bundle_ids(bundle0).to_set().contains(i));
                lemma_last_index(ids@, i);
            }
            assert(pushed_row(mid[t as int], row_seq) =~= bundle_view(bundle0));
            assert(self@ =~= old(self)@.insert(e, bundle_view(bundle0)));
        }
        e
    }

    /// Spawns a new entity with no components.
    pub fn spawn(&mut self) -> (e: Entity)
        requires
            old(self).wf(),
            old(self).spawn_capacity() > 0,
        ensures
            final(self).wf(),
            e == old(self).ents().allocate().1,
            final(self).ents().free == old(self).ents().allocate().0.free,
            final(self).ents().slots.len() == old(self).ents().allocate().0.slots.len(),
            forall|i: int| 0 <= i < final(self).ents().slots.len() ==> #[trigger] final(self).ents().slots[i].generation
                == old(self).ents().allocate().0.slots[i].generation,
            !old(self)@.contains_key(e),
            final(self)@ == old(self)@.insert(e, Map::<u64, V>::empty()),
            final(self).spawn_capacity() == old(self).spawn_capacity() - 1,
            final(self).singleton_map() == old(self).singleton_map(),
            final(self).event_store() == old(self).event_store(),
            final(self).tick_count() == old(self).tick_count(),
    {
        let e = self.spawn_with(Vec::new());
        proof {
            assert(bundle_view(Seq::<(ComponentId, V)>::empty()) =~= Map::<u64, V>::empty());
        }
        e
    }

    /// Removes an entity and all of its components. Returns whether it was
    /// alive.
    pub fn despawn(&mut self, entity: Entity) -> (r: bool)
        requires
            old(self).wf(),
        ensures
            final(self).wf(),
            r == old(self)@.contains_key(entity),
            final(self)@ == old(self)@.remove(entity),
            final(self).spawn_capacity() == old(self).spawn_capacity() + (if r { 1int } else { 0int }),
            final(self).singleton_map() == old(self).singleton_map(),
            final(self).event_store() == old(self).event_store(),
            final(self).tick_count() == old(self).tick_count(),
    {
        if !self.entities.is_alive(entity) {
            proof {
                assert(old(self)@.remove(entity) =~= old(self)@);
            }
            return false;
        }
        let _ = self.detach(entity);
        let ghost mid = self.entities@;
        self.entities.despawn(entity);
        proof {
            lemma_release(mid, self.archetypes.archs(), self.entities@, entity);
            assert(self@ =~= old(self)@.remove(entity));
        }
        true
    }
}

impl<V> World<V> {
    /// Inserts a component value onto a live entity, replacing the value it
    /// has under that id, if any.
    pub fn insert(&mut self, entity: Entity, id: ComponentId, value: V) -> (r: Result<(), WorldError>)
        requires
            old(self).wf(),
        ensures
            final(self).wf(),
            r is Ok <==> old(self)@.contains_key(entity),
            r is Ok ==> final(self)@ == old(self)@.insert(entity, old(self)@[entity].insert(id.0, value)),
            r is Err ==> r == Err::<(), WorldError>(WorldError::EntityNotAlive(entity)) && final(self)@ == old(self)@,
            final(self).spawn_capacity() == old(self).spawn_capacity(),
            final(self).singleton_map() == old(self).singleton_map(),
            final(self).event_store() == old(self).event_store(),
            final(self).tick_count() == old(self).tick_count(),
    {
        if !self.entities.is_alive(entity) {
            return Err(WorldError::EntityNotAlive(entity));
        }
        let loc = self.entities.location(entity).unwrap();
        proof {
            assert(slot_linked(self.entities@, self.archetypes.archs(), entity.index as int));
            assert(self.archetypes.archs()[loc.archetype as int].wf());
        }
        let ghost before = *self;
        match self.archetypes.get_add_target(loc.archetype, id) {
            Some(t) => {
                proof {
                    World::lemma_storage_grew(&before, self);
                }
                let mut bundle: Vec<(ComponentId, V)> = Vec::new();
                bundle.push((id, value));
                let ghost b = bundle@;
                proof {
                    assert(bundle_view(b) =~= Map::<u64, V>::empty().insert(id.0, value)) by {
                        assert(b.drop_last() =~= Seq::<(ComponentId, V)>::empty());
                        assert(bundle_view(b.drop_last()) =~= Map::<u64, V>::empty());
                        assert(b.last() == (id, value));
                    }
                }
                let ghost mid = *self;
                let _ = self.relocate(entity, t, bundle, None);
                proof {
                    assert(mid.moved_row(entity, t as int, b) =~= old(self)@[entity].insert(id.0, value));
                }
            },
            None => {
                proof {
                    World::lemma_storage_grew(&before, self);
                }
                let ghost mid = self.archetypes;
                match self.archetypes.value_mut(loc.archetype, id, loc.slot) {
                    Some(x) => {
                        *x = value;
                    },
                    None => {},
                }
                proof {
                    Archetypes::lemma_frame(&mid, &self.archetypes, loc.archetype as int);
                    lemma_update(self.entities@, mid.archs(), self.archetypes.archs(), entity, id.0, value);
                    assert(self@ =~= old(self)@.insert(entity, old(self)@[entity].insert(id.0, value)));
                }
            },
        }
        Ok(())
    }

    /// Inserts a bundle of components onto a live entity; components it
    /// already has under the bundle's ids are replaced, and when an id
    /// repeats in the bundle its last value wins.
    pub fn insert_bundle(&mut self, entity: Entity, bundle: Vec<(ComponentId, V)>) -> (r: Result<(), WorldError>)
        requires
            old(self).wf(),
        ensures
            final(self).wf(),
            r is Ok <==> old(self)@.contains_key(entity),
            r is Ok ==> final(self)@ == old(self)@.insert(entity, old(self)@[entity].union_prefer_right(bundle_view(bundle@))),
            r is Err ==> r == Err::<(), WorldError>(WorldError::EntityNotAlive(entity)) && final(self)@ == old(self)@,
            final(self).spawn_capacity() == old(self).spawn_capacity(),
            final(self).singleton_map() == old(self).singleton_map(),
            final(self).event_store() == old(self).event_store(),
            final(self).tick_count() == old(self).tick_count(),
    {
        if !self.entities.is_alive(entity) {
            return Err(WorldError::EntityNotAlive(entity));
        }
        let loc = self.entities.location(entity).unwrap();
        proof {
            assert(slot_linked(self.entities@, self.archetypes.archs(), entity.index as int));
            lemma_bundle_view(bundle@);
        }
        let cids = bundle_component_ids(&bundle);
        let ghost before = *self;
        let target = self.archetypes.get_add_bundle_target(loc.archetype, cids.as_slice());
        proof {
            World::lemma_storage_grew(&before, self);
        }
        let t = match target {
            Some(t) => t,
            None => loc.archetype,
        };
        let ghost b = bundle@;
        let ghost mid = *self;
        let _ = self.relocate(entity, t, bundle, None);
        proof {
            assert(mid.moved_row(entity, t as int, b) =~= old(self)@[entity].union_prefer_right(bundle_view(b)));
        }
        Ok(())
    }

    /// Removes a component from a live entity and returns its value, if the
    /// entity is alive and has it.
    pub fn remove(&mut self, entity: Entity, id: ComponentId) -> (r: Option<V>)
        requires
            old(self).wf(),
        ensures
            final(self).wf(),
            r == (if old(self)@.contains_key(entity) && old(self)@[entity].contains_key(id.0) {
                Some(old(self)@[entity][id.0])
            } else {
                None::<V>
            }),
            r is Some ==> final(self)@ == old(self)@.insert(entity, old(self)@[entity].remove(id.0)),
            r is None ==> final(self)@ == old(self)@,
            final(self).spawn_capacity() == old(self).spawn_capacity(),
            final(self).singleton_map() == old(self).singleton_map(),
            final(self).event_store() == old(self).event_store(),
            final(self).tick_count() == old(self).tick_count(),
    {
        if !self.entities.is_alive(entity) {
            return None;
        }
        let loc = self.entities.location(entity).unwrap();
        proof {
            assert(slot_linked(self.entities@, self.archetypes.archs(), entity.index as int));
        }
        let ghost before = *self;
        match self.archetypes.get_remove_target(loc.archetype, id) {
            Some(t) => {
                proof {
                    World::lemma_storage_grew(&before, self);
                }
                let ghost mid = *self;
                let removed = self.relocate(entity, t, Vec::new(), Some(id));
                proof {
                    assert(bundle_view(Seq::<(ComponentId, V)>::empty()) =~= Map::<u64, V>::empty());
                    assert(mid.moved_row(entity, t as int, Seq::<(ComponentId, V)>::empty()) =~= old(self)@[entity].remove(id.0));
                }
                removed
            },
            None => {
                proof {
                    World::lemma_storage_grew(&before, self);
                }
                None
            },
        }
    }
}

impl<V> World<V> {
    /// Fetches a component value of a live entity.
    pub fn get(&self, entity: Entity, id: ComponentId) -> (r: Option<&V>)
        requires
            self.wf(),
        ensures
            r == (if self@.contains_key(entity) && self@[entity].contains_key(id.0) {
                Some(&self@[entity][id.0])
            } else {
                None
            }),
    {
        if !self.entities.is_alive(entity) {
            return None;
        }
        let loc = self.entities.location(entity).unwrap();
        proof {
            assert(slot_linked(self.entities@, self.archetypes.archs(), entity.index as int));
            assert(self.archetypes.archs()[loc.archetype as int].wf());
            let arch = self.archetypes.archs()[loc.archetype as int];
            if arch.key_view().id_set().contains(id.0) {
                let p = pos_of(arch.key_view().ids(), id.0);
                assert(0 <= p < arch.key_view().ids().len() && arch.key_view().ids()[p] == id.0);
            }
        }
        match self.archetypes.get(loc.archetype) {
            Some(a) => a.get(id, loc.slot),
            None => None,
        }
    }

    /// Returns whether a live entity has a component.
    pub fn contains(&self, entity: Entity, id: ComponentId) -> (r: bool)
        requires
            self.wf(),
        ensures
            r == (self@.contains_key(entity) && self@[entity].contains_key(id.0)),
    {
        self.get(entity, id).is_some()
    }

    /// Fetches a mutable reference to a component value of a live entity.
    pub fn get_mut(&mut self, entity: Entity, id: ComponentId) -> (r: Option<&mut V>)
        requires
            old(self).wf(),
        ensures
            r is Some <==> (old(self)@.contains_key(entity) && old(self)@[entity].contains_key(id.0)),
            r matches Some(x) ==> *x == old(self)@[entity][id.0]
                && final(self)@ == old(self)@.insert(entity, old(self)@[entity].insert(id.0, *final(x))),
            r is None ==> final(self)@ == old(self)@,
            final(self).wf(),
            final(self).spawn_capacity() == old(self).spawn_capacity(),
            final(self).singleton_map() == old(self).singleton_map(),
            final(self).event_store() == old(self).event_store(),
            final(self).tick_count() == old(self).tick_count(),
    {
        if !self.entities.is_alive(entity) {
            return None;
        }
        let loc = self.entities.location(entity).unwrap();
        proof {
            assert(slot_linked(self.entities@, self.archetypes.archs(), entity.index as int));
            assert(self.archetypes.archs()[loc.archetype as int].wf());
        }
        if !self.archetypes.key(loc.archetype).unwrap().contains(id) {
            return None;
        }
        proof {
            lemma_update_all(self.entities@, self.archetypes.archs(), entity, id.0);
            let arch = self.archetypes.archs()[loc.archetype as int];
            let p = pos_of(arch.key_view().ids(), id.0);
            assert(0 <= p < arch.key_view().ids().len() && arch.key_view().ids()[p] == id.0);
        }
        let r = self.archetypes.value_mut(loc.archetype, id, loc.slot);
        r
    }
}

impl<V> World<V> {
    /// Inserts or replaces a singleton value.
    pub fn insert_singleton(&mut self, id: u64, value: V)
        requires
            old(self).wf(),
        ensures
            final(self).wf(),
            final(self).singleton_map() == old(self).singleton_map().insert(id, value),
            final(self).event_store() == old(self).event_store(),
            final(self)@ == old(self)@,
            final(self).spawn_capacity() == old(self).spawn_capacity(),
            final(self).tick_count() == old(self).tick_count(),
    {
        let _ = self.singletons.insert(id, value);
    }

    /// Gets a singleton value.
    pub fn get_singleton(&self, id: u64) -> (r: Option<&V>)
        requires
            self.wf(),
        ensures
            r == (if self.singleton_map().contains_key(id) { Some(&self.singleton_map()[id]) } else { None }),
    {
        self.singletons.get(id)
    }

    /// Gets a mutable reference to a singleton value.
    pub fn get_singleton_mut(&mut self, id: u64) -> (r: Option<&mut V>)
        requires
            old(self).wf(),
        ensures
            final(self).wf(),
            r is Some <==> old(self).singleton_map().contains_key(id),
            r matches Some(x) ==> *x == old(self).singleton_map()[id] && final(self).singleton_map() == old(self).singleton_map().insert(id, *final(x)),
            r is None ==> final(self).singleton_map() == old(self).singleton_map(),
            final(self).event_store() == old(self).event_store(),
            final(self)@ == old(self)@,
            final(self).spawn_capacity() == old(self).spawn_capacity(),
            final(self).tick_count() == old(self).tick_count(),
    {
        self.singletons.get_mut(id)
    }

    /// Removes a singleton value and returns it, if present.
    pub fn remove_singleton(&mut self, id: u64) -> (r: Option<V>)
        requires
            old(self).wf(),
        ensures
            final(self).wf(),
            r == (if old(self).singleton_map().contains_key(id) { Some(old(self).singleton_map()[id]) } else { None }),
            final(self).singleton_map() == old(self).singleton_map().remove(id),
            final(self).event_store() == old(self).event_store(),
            final(self)@ == old(self)@,
            final(self).spawn_capacity() == old(self).spawn_capacity(),
            final(self).tick_count() == old(self).tick_count(),
    {
        self.singletons.remove(id)
    }
}

} // verus!
