//! `Archetypes`: every archetype of a world, a reverse index from component
//! ids to the archetypes that hold them, and the cached transitions between
//! archetypes.

use vstd::prelude::*;
use crate::component::ComponentId;
use crate::entity::Entity;
use super::archetype::{Archetype, seq_swap_remove};
use super::key::{ArchetypeKey, strictly_sorted, raw_ids};

verus! {

/// A sequence of indices in strictly increasing order.
pub open spec fn increasing(s: Seq<usize>) -> bool {
    forall|i: int, j: int| 0 <= i < j < s.len() ==> s[i] < s[j]
}

/// The hash table from the ids of a key to the index of its archetype. The
/// map is held opaquely: `hashbrown::HashMap` bounds its allocator
/// parameter by a trait of another crate, so the type itself cannot be
/// declared here.
#[verifier::external_body]
struct KeyTable {
    table: hashbrown::HashMap<Vec<u64>, usize>,
}

/// What a key table holds.
pub uninterp spec fn key_table_entries(t: KeyTable) -> Map<Seq<u64>, usize>;

/// Creates a table with `hashbrown::HashMap::new`. The contract claims that
/// it holds no key.
#[verifier::external_body]
fn key_table_new() -> (r: KeyTable)
    ensures
        forall|k: Seq<u64>| !key_table_entries(r).dom().contains(k),
{
    KeyTable { table: hashbrown::HashMap::new() }
}

/// Maps a key to a value with `hashbrown::HashMap::insert`. The contract
/// claims that the key then maps to the value, replacing any earlier value,
/// and that every other key keeps its value; two keys are the same key when
/// their elements are equal, as std's `Eq` and `Hash` for `Vec<u64>` agree.
#[verifier::external_body]
fn key_table_insert(t: &mut KeyTable, key: Vec<u64>, value: usize)
    ensures
        key_table_entries(*final(t)) == key_table_entries(*old(t)).insert(key@, value),
{
    t.table.insert(key, value);
}

/// Looks a key up with `hashbrown::HashMap::get`. The contract claims that
/// the result is the key's value, or `None` exactly when the key is absent.
#[verifier::external_body]
fn key_table_get(t: &KeyTable, key: &Vec<u64>) -> (r: Option<usize>)
    ensures
        match r {
            Some(v) => key_table_entries(*t).dom().contains(key@) && key_table_entries(*t)[key@] == v,
            None => !key_table_entries(*t).dom().contains(key@),
        },
{
    t.table.get(key).copied()
}

/// Collection of all archetypes of a world.
pub struct Archetypes<V> {
    data: Vec<Archetype<V>>,
    lookup: KeyTable,
    component_index: Vec<(u64, Vec<usize>)>,
}

impl<V> Archetypes<V> {
    /// The archetypes, by index.
    pub closed spec fn archs(&self) -> Seq<Archetype<V>> {
        self.data@
    }

    /// The index of each archetype, by the ids of its key.
    pub closed spec fn lookup_map(&self) -> Map<Seq<u64>, usize> {
        key_table_entries(self.lookup)
    }

    /// The reverse index: for a component id, the archetypes holding it.
    pub closed spec fn index_entries(&self) -> Seq<(u64, Seq<usize>)> {
        self.component_index@.map_values(|e: (u64, Vec<usize>)| (e.0, e.1@))
    }

    /// The id set of the archetype at an index.
    pub open spec fn key_set(&self, a: int) -> Set<u64> {
        self.archs()[a].key_view().id_set()
    }

    /// Whether the archetype at an index holds every required id.
    pub open spec fn holds_all(&self, a: int, required: Seq<ComponentId>) -> bool {
        forall|k: int| 0 <= k < required.len() ==> self.key_set(a).contains(#[trigger] required[k].0)
    }

    /// Whether the archetype at an index holds none of the excluded ids.
    pub open spec fn holds_none(&self, a: int, excluded: Seq<ComponentId>) -> bool {
        forall|k: int| 0 <= k < excluded.len() ==> !self.key_set(a).contains(#[trigger] excluded[k].0)
    }

    /// Every archetype well formed, keys pairwise different, cached
    /// transitions correct, and the reverse index exact.
    pub open spec fn wf(&self) -> bool {
        &&& forall|a: int| 0 <= a < self.archs().len() ==> (#[trigger] self.archs()[a]).wf()
        &&& forall|a: int| 0 <= a < self.archs().len() ==> (#[trigger] self.archs()[a]).extra_columns().len() == 0
        &&& forall|a: int, b: int|
            0 <= a < self.archs().len() && 0 <= b < self.archs().len() && a != b ==> (#[trigger] self.archs()[a]).key_view().ids()
                != (#[trigger] self.archs()[b]).key_view().ids()
        &&& forall|a: int, k: int|
            0 <= a < self.archs().len() && 0 <= k < self.archs()[a].add_edge_seq().len() ==> {
                let (id, t) = #[trigger] self.archs()[a].add_edge_seq()[k];
                &&& (t as int) < self.archs().len()
                &&& !self.key_set(a).contains(id)
                &&& self.key_set(t as int) == self.key_set(a).insert(id)
            }
        &&& forall|a: int, k: int|
            0 <= a < self.archs().len() && 0 <= k < self.archs()[a].remove_edge_seq().len() ==> {
                let (id, t) = #[trigger] self.archs()[a].remove_edge_seq()[k];
                &&& (t as int) < self.archs().len()
                &&& self.key_set(a).contains(id)
                &&& self.key_set(t as int) == self.key_set(a).remove(id)
            }
        &&& forall|k: int, m: int|
            0 <= k < self.index_entries().len() && 0 <= m < self.index_entries().len() && k != m ==> (#[trigger] self.index_entries()[k]).0
                != (#[trigger] self.index_entries()[m]).0
        &&& forall|k: int| 0 <= k < self.index_entries().len() ==> increasing(#[trigger] self.index_entries()[k].1)
        &&& forall|k: int, x: usize|
            0 <= k < self.index_entries().len() ==> (#[trigger] self.index_entries()[k].1.contains(x) <==> ((x as int) < self.archs().len()
                && self.key_set(x as int).contains(self.index_entries()[k].0)))
        &&& forall|a: int, id: u64|
            0 <= a < self.archs().len() && #[trigger] self.key_set(a).contains(id) ==> exists|k: int|
                0 <= k < self.index_entries().len() && (#[trigger] self.index_entries()[k]).0 == id
        &&& forall|a: int| 0 <= a < self.archs().len() ==> self.lookup_map().contains_key(#[trigger] self.archs()[a].key_view().ids())
            && self.lookup_map()[self.archs()[a].key_view().ids()] == a
        &&& forall|k: Seq<u64>| #[trigger] self.lookup_map().contains_key(k) ==> (self.lookup_map()[k] as int) < self.archs().len()
            && self.archs()[self.lookup_map()[k] as int].key_view().ids() == k
    }

    /// Creates an empty collection.
    pub fn new() -> (r: Archetypes<V>)
        ensures
            r.wf(),
            r.archs().len() == 0,
    {
        let r = Archetypes { data: Vec::new(), lookup: key_table_new(), component_index: Vec::new() };
        assert(r.index_entries().len() == 0);
        r
    }

    /// Returns the number of archetypes.
    pub fn len(&self) -> (r: usize)
        ensures
            r == self.archs().len(),
    {
        self.data.len()
    }

    /// Returns the archetype at an index, if any.
    pub fn get(&self, index: usize) -> (r: Option<&Archetype<V>>)
        ensures
            r == (if (index as int) < self.archs().len() { Some(&self.archs()[index as int]) } else { None }),
    {
        if index < self.data.len() {
            Some(&self.data[index])
        } else {
            None
        }
    }

    /// Returns the key of the archetype at an index, if any.
    pub fn key(&self, archetype: usize) -> (r: Option<&ArchetypeKey>)
        ensures
            r == (if (archetype as int) < self.archs().len() { Some(&self.archs()[archetype as int].key_view()) } else { None }),
    {
        if archetype < self.data.len() {
            Some(self.data[archetype].key())
        } else {
            None
        }
    }

    /// Finds the index of the archetype with a given key.
    pub fn find(&self, key: &ArchetypeKey) -> (r: Option<usize>)
        requires
            self.wf(),
        ensures
            match r {
                Some(i) => (i as int) < self.archs().len() && self.key_set(i as int) == key.id_set(),
                None => forall|i: int| 0 <= i < self.archs().len() ==> self.key_set(i) != key.id_set(),
            },
    {
        key.check_sorted();
        match key_table_get(&self.lookup, key.id_vec()) {
            Some(i) => {
                proof {
                    assert(self.lookup_map().contains_key(key.ids()));
                }
                Some(i)
            },
            None => {
                proof {
                    assert forall|i: int| 0 <= i < self.archs().len() implies self.key_set(i) != key.id_set() by {
                        if self.key_set(i) == key.id_set() {
                            let ki = self.archs()[i].key_view();
                            assert(self.archs()[i].wf());
                            ki.lemma_set_determines_ids(key);
                            assert(self.lookup_map().contains_key(self.archs()[i].key_view().ids()));
                        }
                    }
                }
                None
            },
        }
    }

    /// Returns the archetypes holding a component id.
    pub fn with_component(&self, id: ComponentId) -> (r: Option<&Vec<usize>>)
        requires
            self.wf(),
        ensures
            match r {
                Some(list) => increasing(list@) && forall|x: usize| list@.contains(x) <==> ((x as int) < self.archs().len()
                    && self.key_set(x as int).contains(id.0)),
                None => forall|a: int| 0 <= a < self.archs().len() ==> !self.key_set(a).contains(id.0),
            },
    {
        let mut k: usize = 0;
        while k < self.component_index.len()
            invariant
                k <= self.index_entries().len(),
                self.wf(),
                self.index_entries().len() == self.component_index@.len(),
                forall|m: int| 0 <= m < k ==> (#[trigger] self.index_entries()[m]).0 != id.0,
            decreases self.index_entries().len() - k,
        {
            if self.component_index[k].0 == id.0 {
                proof {
                    let e = self.index_entries()[k as int];
                    assert(e.1 == self.component_index@[k as int].1@);
                    assert(e.0 == id.0);
                    assert(increasing(e.1));
                    assert forall|x: usize| e.1.contains(x) <==> ((x as int) < self.archs().len()
                        && self.key_set(x as int).contains(id.0)) by {
                        assert(self.index_entries()[k as int].1.contains(x) <==> ((x as int) < self.archs().len()
                            && self.key_set(x as int).contains(self.index_entries()[k as int].0)));
                    }
                }
                return Some(&self.component_index[k].1);
            }
            proof {
                assert(self.index_entries()[k as int].0 == self.component_index@[k as int].0);
            }
            k = k + 1;
        }
        proof {
            assert forall|a: int| 0 <= a < self.archs().len() implies !self.key_set(a).contains(id.0) by {
                if self.key_set(a).contains(id.0) {
                    let m = choose|m: int| 0 <= m < self.index_entries().len() && (#[trigger] self.index_entries()[m]).0 == id.0;
                }
            }
        }
        None
    }
}


impl<V> Archetypes<V> {
    /// An archetype is determined by its set of component ids: two indices
    /// with the same ids are the same archetype.
    pub proof fn law_ids_determine_archetype(&self, a: int, b: int)
        requires
            self.wf(),
            0 <= a < self.archs().len(),
            0 <= b < self.archs().len(),
            self.key_set(a) == self.key_set(b),
        ensures
            a == b,
    {
        if a != b {
            let ka = self.archs()[a].key_view();
            let kb = self.archs()[b].key_view();
            assert(self.archs()[a].wf());
            assert(self.archs()[b].wf());
            ka.lemma_set_determines_ids(&kb);
        }
    }

    /// Adding a component id that an archetype lacks and then removing the
    /// same id leads back to the archetype one started from.
    pub proof fn law_add_then_remove_returns(&self, source: int, id: u64, added: int, back: int)
        requires
            self.wf(),
            0 <= source < self.archs().len(),
            0 <= added < self.archs().len(),
            0 <= back < self.archs().len(),
            !self.key_set(source).contains(id),
            self.key_set(added) == self.key_set(source).insert(id),
            self.key_set(back) == self.key_set(added).remove(id),
        ensures
            back == source,
    {
        assert(self.key_set(back) =~= self.key_set(source));
        self.law_ids_determine_archetype(back, source);
    }

    /// Replacing one archetype by one with the same key and cached
    /// transitions, that is well formed, keeps the collection well formed.
    pub proof fn lemma_frame(old_s: &Archetypes<V>, new_s: &Archetypes<V>, a: int)
        requires
            old_s.wf(),
            0 <= a < old_s.archs().len(),
            new_s.archs().len() == old_s.archs().len(),
            new_s.index_entries() == old_s.index_entries(),
            new_s.lookup_map() == old_s.lookup_map(),
            forall|b: int| 0 <= b < old_s.archs().len() && b != a ==> new_s.archs()[b] == old_s.archs()[b],
            new_s.archs()[a].wf(),
            new_s.archs()[a].extra_columns() == old_s.archs()[a].extra_columns(),
            new_s.archs()[a].key_view() == old_s.archs()[a].key_view(),
            new_s.archs()[a].add_edge_seq() == old_s.archs()[a].add_edge_seq(),
            new_s.archs()[a].remove_edge_seq() == old_s.archs()[a].remove_edge_seq(),
        ensures
            new_s.wf(),
    {
        assert forall|b: int| 0 <= b < new_s.archs().len() implies new_s.key_set(b) == old_s.key_set(b) by {
            if b == a {
            } else {
            }
        }
        assert forall|b: int, k: int|
            0 <= b < new_s.archs().len() && 0 <= k < new_s.archs()[b].add_edge_seq().len() implies {
                let (id, t) = #[trigger] new_s.archs()[b].add_edge_seq()[k];
                &&& (t as int) < new_s.archs().len()
                &&& !new_s.key_set(b).contains(id)
                &&& new_s.key_set(t as int) == new_s.key_set(b).insert(id)
            } by {
            assert(new_s.archs()[b].add_edge_seq() == old_s.archs()[b].add_edge_seq());
            let (id, t) = old_s.archs()[b].add_edge_seq()[k];
            assert(new_s.key_set(t as int) == old_s.key_set(t as int));
        }
        assert forall|b: int, k: int|
            0 <= b < new_s.archs().len() && 0 <= k < new_s.archs()[b].remove_edge_seq().len() implies {
                let (id, t) = #[trigger] new_s.archs()[b].remove_edge_seq()[k];
                &&& (t as int) < new_s.archs().len()
                &&& new_s.key_set(b).contains(id)
                &&& new_s.key_set(t as int) == new_s.key_set(b).remove(id)
            } by {
            assert(new_s.archs()[b].remove_edge_seq() == old_s.archs()[b].remove_edge_seq());
            let (id, t) = old_s.archs()[b].remove_edge_seq()[k];
            assert(new_s.key_set(t as int) == old_s.key_set(t as int));
        }
        assert forall|k: int, x: usize|
            0 <= k < new_s.index_entries().len() implies (#[trigger] new_s.index_entries()[k].1.contains(x) <==> ((x as int) < new_s.archs().len()
                && new_s.key_set(x as int).contains(new_s.index_entries()[k].0))) by {
            if (x as int) < new_s.archs().len() {
                assert(new_s.key_set(x as int) == old_s.key_set(x as int));
            }
            assert(old_s.index_entries()[k].1.contains(x) <==> ((x as int) < old_s.archs().len()
                && old_s.key_set(x as int).contains(old_s.index_entries()[k].0)));
        }
        assert forall|b: int, id: u64|
            0 <= b < new_s.archs().len() && #[trigger] new_s.key_set(b).contains(id) implies exists|k: int|
                0 <= k < new_s.index_entries().len() && (#[trigger] new_s.index_entries()[k]).0 == id by {
            assert(old_s.key_set(b).contains(id));
        }
    }

    /// Adds a row to an archetype, with its components in key order.
    /// Returns the row.
    pub fn push_row(&mut self, a: usize, entity: Entity, values: Vec<V>) -> (r: usize)
        requires
            old(self).wf(),
            (a as int) < old(self).archs().len(),
            values@.len() == old(self).archs()[a as int].key_view().ids().len(),
        ensures
            final(self).wf(),
            final(self).archs().len() == old(self).archs().len(),
            forall|b: int| 0 <= b < old(self).archs().len() && b != a ==> final(self).archs()[b] == old(self).archs()[b],
            r == old(self).archs()[a as int].entity_seq().len(),
            final(self).archs()[a as int].key_view() == old(self).archs()[a as int].key_view(),
            final(self).archs()[a as int].entity_seq() == old(self).archs()[a as int].entity_seq().push(entity),
            forall|j: int| 0 <= j < final(self).archs()[a as int].column_seqs().len() ==> #[trigger] final(self).archs()[a as int].column_seqs()[j]
                == old(self).archs()[a as int].column_seqs()[j].push(values@[j]),
    {
        let r = self.data[a].push_row(entity, values);
        proof {
            Self::lemma_frame(old(self), self, a as int);
        }
        r
    }

    /// Removes a row of an archetype and hands back its components in key
    /// order and the entity that moved into the row, if any.
    pub fn swap_remove_row(&mut self, a: usize, row: usize) -> (r: (Vec<V>, Option<Entity>))
        requires
            old(self).wf(),
            (a as int) < old(self).archs().len(),
            (row as int) < old(self).archs()[a as int].entity_seq().len(),
        ensures
            final(self).wf(),
            final(self).archs().len() == old(self).archs().len(),
            forall|b: int| 0 <= b < old(self).archs().len() && b != a ==> final(self).archs()[b] == old(self).archs()[b],
            final(self).archs()[a as int].key_view() == old(self).archs()[a as int].key_view(),
            final(self).archs()[a as int].entity_seq() == seq_swap_remove(old(self).archs()[a as int].entity_seq(), row as int),
            forall|j: int| 0 <= j < final(self).archs()[a as int].column_seqs().len() ==> #[trigger] final(self).archs()[a as int].column_seqs()[j]
                == seq_swap_remove(old(self).archs()[a as int].column_seqs()[j], row as int),
            r.0@.len() == old(self).archs()[a as int].key_view().ids().len(),
            forall|j: int| 0 <= j < r.0@.len() ==> #[trigger] r.0@[j] == old(self).archs()[a as int].column_seqs()[j][row as int],
            r.1 == (if (row as int) < final(self).archs()[a as int].entity_seq().len() {
                Some(final(self).archs()[a as int].entity_seq()[row as int])
            } else {
                None
            }),
    {
        let r = self.data[a].swap_remove_row(row);
        proof {
            Self::lemma_frame(old(self), self, a as int);
        }
        r
    }

    /// The archetypes agree but for the values held in the columns of
    /// archetype `a`.
    pub open spec fn same_but_values(&self, other: &Archetypes<V>, a: int) -> bool {
        &&& other.archs().len() == self.archs().len()
        &&& other.index_entries() == self.index_entries()
        &&& other.lookup_map() == self.lookup_map()
        &&& forall|b: int| 0 <= b < self.archs().len() && b != a ==> other.archs()[b] == self.archs()[b]
        &&& other.archs()[a].key_view() == self.archs()[a].key_view()
        &&& other.archs()[a].extra_columns() == self.archs()[a].extra_columns()
        &&& other.archs()[a].entity_seq() == self.archs()[a].entity_seq()
        &&& other.archs()[a].add_edge_seq() == self.archs()[a].add_edge_seq()
        &&& other.archs()[a].remove_edge_seq() == self.archs()[a].remove_edge_seq()
        &&& other.archs()[a].column_seqs().len() == self.archs()[a].column_seqs().len()
        &&& forall|j: int| 0 <= j < self.archs()[a].column_seqs().len() ==> (#[trigger] other.archs()[a].column_seqs()[j]).len()
            == self.archs()[a].column_seqs()[j].len()
    }

    /// Changing values held in one archetype keeps the collection well formed.
    pub proof fn lemma_values_frame(&self, a: int)
        requires
            self.wf(),
            0 <= a < self.archs().len(),
        ensures
            forall|other: Archetypes<V>| self.same_but_values(&other, a) ==> #[trigger] other.wf(),
    {
        assert forall|other: Archetypes<V>| self.same_but_values(&other, a) implies #[trigger] other.wf() by {
            assert(self.archs()[a].wf());
            assert forall|j: int| 0 <= j < other.archs()[a].column_seqs().len() implies (#[trigger] other.archs()[a].column_seqs()[j]).len() == other.archs()[a].entity_seq().len() by {
                assert(self.archs()[a].column_seqs()[j].len() == self.archs()[a].entity_seq().len());
            }
            Self::lemma_frame(self, &other, a);
        }
    }

    /// Returns a mutable reference to a component value of a row.
    pub fn value_mut(&mut self, a: usize, id: ComponentId, row: usize) -> (r: Option<&mut V>)
        requires
            old(self).wf(),
            (a as int) < old(self).archs().len(),
        ensures
            r is Some <==> (old(self).key_set(a as int).contains(id.0)
                && (row as int) < old(self).archs()[a as int].entity_seq().len()),
            final(self).archs().len() == old(self).archs().len(),
            forall|b: int| 0 <= b < old(self).archs().len() && b != a ==> final(self).archs()[b] == old(self).archs()[b],
            final(self).archs()[a as int].key_view() == old(self).archs()[a as int].key_view(),
            final(self).archs()[a as int].entity_seq() == old(self).archs()[a as int].entity_seq(),
            final(self).archs()[a as int].extra_columns() == old(self).archs()[a as int].extra_columns(),
            final(self).archs()[a as int].add_edge_seq() == old(self).archs()[a as int].add_edge_seq(),
            final(self).archs()[a as int].remove_edge_seq() == old(self).archs()[a as int].remove_edge_seq(),
            final(self).index_entries() == old(self).index_entries(),
            final(self).lookup_map() == old(self).lookup_map(),
            final(self).wf(),
            r is None ==> final(self).archs()[a as int].column_seqs() == old(self).archs()[a as int].column_seqs(),
            r matches Some(x) ==> *x == old(self).archs()[a as int].value(id.0, row as int)
                && final(self).archs()[a as int].column_seqs() == old(self).archs()[a as int].column_seqs().update(
                    super::archetype::pos_of(old(self).archs()[a as int].key_view().ids(), id.0),
                    old(self).archs()[a as int].column_seqs()[super::archetype::pos_of(old(self).archs()[a as int].key_view().ids(), id.0)].update(row as int, *final(x)),
                ),
    {
        proof {
            self.lemma_values_frame(a as int);
            assert(self.archs()[a as int].wf());
            if self.key_set(a as int).contains(id.0) {
                let p = super::archetype::pos_of(self.archs()[a as int].key_view().ids(), id.0);
                assert(self.archs()[a as int].column_seqs()[p].len() == self.archs()[a as int].entity_seq().len());
            }
        }
        self.data[a].get_mut(id, row)
    }
}


impl<V> Archetypes<V> {
    /// Records in the reverse index that archetype `n` (just added, the last
    /// one) holds the ids of its key.
    fn index_archetype(&mut self, n: usize, key: &ArchetypeKey)
        requires
            n + 1 == old(self).archs().len(),
            old(self).archs()[n as int].key_view().ids() == key.ids(),
            strictly_sorted(key.ids()),
            forall|k: int| 0 <= k < old(self).index_entries().len() ==> increasing(#[trigger] old(self).index_entries()[k].1),
            forall|k: int, m: int|
                0 <= k < old(self).index_entries().len() && 0 <= m < old(self).index_entries().len() && k != m ==> (#[trigger] old(self).index_entries()[k]).0
                    != (#[trigger] old(self).index_entries()[m]).0,
            forall|k: int, x: usize|
                0 <= k < old(self).index_entries().len() ==> (#[trigger] old(self).index_entries()[k].1.contains(x) <==> ((x as int) < n
                    && old(self).key_set(x as int).contains(old(self).index_entries()[k].0))),
            forall|a: int, id: u64|
                0 <= a < n && #[trigger] old(self).key_set(a).contains(id) ==> exists|k: int|
                    0 <= k < old(self).index_entries().len() && (#[trigger] old(self).index_entries()[k]).0 == id,
        ensures
            final(self).archs() == old(self).archs(),
            final(self).lookup_map() == old(self).lookup_map(),
            forall|k: int| 0 <= k < final(self).index_entries().len() ==> increasing(#[trigger] final(self).index_entries()[k].1),
            forall|k: int, m: int|
                0 <= k < final(self).index_entries().len() && 0 <= m < final(self).index_entries().len() && k != m ==> (#[trigger] final(self).index_entries()[k]).0
                    != (#[trigger] final(self).index_entries()[m]).0,
            forall|k: int, x: usize|
                0 <= k < final(self).index_entries().len() ==> (#[trigger] final(self).index_entries()[k].1.contains(x) <==> ((x as int) < n + 1
                    && final(self).key_set(x as int).contains(final(self).index_entries()[k].0))),
            forall|a: int, id: u64|
                0 <= a < n + 1 && #[trigger] final(self).key_set(a).contains(id) ==> exists|k: int|
                    0 <= k < final(self).index_entries().len() && (#[trigger] final(self).index_entries()[k]).0 == id,
    {
        let ids = key.iter();
        let ghost kids = key.ids();
        let mut j: usize = 0;
        while j < ids.len()
            invariant
                self.lookup_map() == old(self).lookup_map(),
                j <= ids@.len(),
                raw_ids(ids@) == kids,
                strictly_sorted(kids),
                kids == self.archs()[n as int].key_view().ids(),
                self.archs() == old(self).archs(),
                n + 1 == self.archs().len(),
                forall|k: int| 0 <= k < self.index_entries().len() ==> increasing(#[trigger] self.index_entries()[k].1),
                forall|k: int, m: int|
                    0 <= k < self.index_entries().len() && 0 <= m < self.index_entries().len() && k != m ==> (#[trigger] self.index_entries()[k]).0
                        != (#[trigger] self.index_entries()[m]).0,
                forall|k: int, x: usize|
                    0 <= k < self.index_entries().len() ==> (#[trigger] self.index_entries()[k].1.contains(x) <==> (((x as int) < n
                        && old(self).key_set(x as int).contains(self.index_entries()[k].0))
                        || (x == n && kids.subrange(0, j as int).contains(self.index_entries()[k].0)))),
                forall|a: int, id: u64|
                    0 <= a < n && #[trigger] old(self).key_set(a).contains(id) ==> exists|k: int|
                        0 <= k < self.index_entries().len() && (#[trigger] self.index_entries()[k]).0 == id,
                forall|id: u64| #[trigger] kids.subrange(0, j as int).contains(id) ==> exists|k: int|
                    0 <= k < self.index_entries().len() && (#[trigger] self.index_entries()[k]).0 == id,
            decreases ids@.len() - j,
        {
            let id = ids[j].0;
            proof {
                assert(raw_ids(ids@)[j as int] == id);
                assert(kids.subrange(0, j as int + 1) =~= kids.subrange(0, j as int).push(id));
                assert forall|y: u64| #[trigger] kids.subrange(0, j as int + 1).contains(y) <==> (kids.subrange(0, j as int).contains(y) || y == id) by {
                    if kids.subrange(0, j as int + 1).contains(y) {
                        let q = choose|q: int| 0 <= q < j + 1 && #[trigger] kids.subrange(0, j as int + 1)[q] == y;
                        if q < j {
                            assert(kids.subrange(0, j as int)[q] == y);
                        }
                    }
                    if kids.subrange(0, j as int).contains(y) {
                        let q = choose|q: int| 0 <= q < j && #[trigger] kids.subrange(0, j as int)[q] == y;
                        assert(kids.subrange(0, j as int + 1)[q] == y);
                    }
                    if y == id {
                        assert(kids.subrange(0, j as int + 1)[j as int] == y);
                    }
                }
            }
            let ghost before = self.index_entries();
            proof {
                assert(forall|a: int, idx: u64|
                    0 <= a < n && #[trigger] old(self).key_set(a).contains(idx) ==> exists|m: int|
                        0 <= m < before.len() && (#[trigger] before[m]).0 == idx);
                assert(forall|idx: u64| #[trigger] kids.subrange(0, j as int).contains(idx) ==> exists|m: int|
                        0 <= m < before.len() && (#[trigger] before[m]).0 == idx);
                assert(forall|m: int, x: usize|
                    0 <= m < before.len() ==> (#[trigger] before[m].1.contains(x) <==> (((x as int) < n
                        && old(self).key_set(x as int).contains(before[m].0))
                        || (x == n && kids.subrange(0, j as int).contains(before[m].0)))));
            }
            let mut k: usize = 0;
            let mut found = false;
            while !found && k < self.component_index.len()
                invariant
                    self.lookup_map() == old(self).lookup_map(),
                    k <= self.component_index@.len(),
                    self.index_entries() == before,
                    self.component_index@.len() == before.len(),
                    found ==> k < before.len() && before[k as int].0 == id,
                    forall|m: int| 0 <= m < k ==> (#[trigger] before[m]).0 != id,
                decreases self.component_index@.len() - k + (if found { 0int } else { 1int }),
            {
                proof {
                    assert(before[k as int].0 == self.component_index@[k as int].0);
                }
                if self.component_index[k].0 == id {
                    found = true;
                } else {
                    k = k + 1;
                }
            }
            proof {
                assert(self.archs()[n as int].key_view().ids()[j as int] == id);
                assert(kids.contains(id));
                assert(!kids.subrange(0, j as int).contains(id)) by {
                    if kids.subrange(0, j as int).contains(id) {
                        let q = choose|q: int| 0 <= q < j && #[trigger] kids.subrange(0, j as int)[q] == id;
                        assert(kids[q] < kids[j as int]);
                    }
                }
            }
            if found && k < self.component_index.len() {
                proof {
                    assert(before[k as int].0 == id);
                    assert(before[k as int].1 == self.component_index@[k as int].1@);
                }
                self.component_index[k].1.push(n);
                proof {
                    let after = self.index_entries();
                    assert(after.len() == before.len());
                    assert forall|m: int| 0 <= m < after.len() && m != k implies #[trigger] after[m] == before[m] by {
                        assert(after[m] == (self.component_index@[m].0, self.component_index@[m].1@));
                    }
                    assert(after[k as int] == (id, before[k as int].1.push(n)));
                    assert(!before[k as int].1.contains(n));
                    assert forall|x: usize| after[k as int].1.contains(x) <==> (((x as int) < n
                        && old(self).key_set(x as int).contains(id))
                        || (x == n && kids.subrange(0, j as int + 1).contains(id))) by {
                        if x == n {
                            assert(after[k as int].1[after[k as int].1.len() - 1] == n);
                            assert(kids.subrange(0, j as int + 1)[j as int] == id);
                        } else {
                            if after[k as int].1.contains(x) {
                                let i = choose|i: int| 0 <= i < after[k as int].1.len() && #[trigger] after[k as int].1[i] == x;
                                assert(i < before[k as int].1.len());
                                assert(before[k as int].1[i] == x);
                            }
                            if before[k as int].1.contains(x) {
                                let i = choose|i: int| 0 <= i < before[k as int].1.len() && #[trigger] before[k as int].1[i] == x;
                                assert(after[k as int].1[i] == x);
                            }
                            assert(after[k as int].1.contains(x) == before[k as int].1.contains(x));
                            assert(before[k as int].1.contains(x) <==> (((x as int) < n
                                && old(self).key_set(x as int).contains(before[k as int].0))
                                || (x == n && kids.subrange(0, j as int).contains(before[k as int].0))));
                        }
                    }
                    assert forall|a: int, b: int| 0 <= a < b < after[k as int].1.len() implies after[k as int].1[a] < after[k as int].1[b] by {
                        if b == after[k as int].1.len() - 1 {
                            assert(before[k as int].1.contains(before[k as int].1[a]));
                        } else {
                            assert(increasing(before[k as int].1));
                        }
                    }
                    assert forall|m: int, x: usize|
                        0 <= m < after.len() implies (#[trigger] after[m].1.contains(x) <==> (((x as int) < n
                            && old(self).key_set(x as int).contains(after[m].0))
                            || (x == n && kids.subrange(0, j as int + 1).contains(after[m].0)))) by {
                        if m != k {
                            assert(before[m].1.contains(x) <==> (((x as int) < n
                                && old(self).key_set(x as int).contains(before[m].0))
                                || (x == n && kids.subrange(0, j as int).contains(before[m].0))));
                            assert(before[m].0 != id);
                        }
                    }
                    assert forall|a: int, idx: u64|
                        0 <= a < n && #[trigger] old(self).key_set(a).contains(idx) implies exists|m: int|
                            0 <= m < after.len() && (#[trigger] after[m]).0 == idx by {
                        let m = choose|m: int| 0 <= m < before.len() && (#[trigger] before[m]).0 == idx;
                        if m == k {
                            assert(after[k as int].0 == id);
                        } else {
                            assert(after[m] == before[m]);
                        }
                        assert(after[m].0 == idx);
                    }
                    assert forall|idx: u64| #[trigger] kids.subrange(0, j as int + 1).contains(idx) implies exists|m: int|
                        0 <= m < after.len() && (#[trigger] after[m]).0 == idx by {
                        if idx == id {
                            assert(after[k as int].0 == id);
                        } else {
                            let q = choose|q: int| 0 <= q < j + 1 && #[trigger] kids.subrange(0, j as int + 1)[q] == idx;
                            assert(q != j);
                            assert(kids.subrange(0, j as int)[q] == idx);
                            let m = choose|m: int| 0 <= m < before.len() && (#[trigger] before[m]).0 == idx;
                            if m == k {
                                assert(after[k as int].0 == id);
                            } else {
                                assert(after[m] == before[m]);
                            }
                            assert(after[m].0 == idx);
                        }
                    }
                }
            } else {
                let mut list: Vec<usize> = Vec::new();
                list.push(n);
                self.component_index.push((id, list));
                proof {
                    let after = self.index_entries();
                    let q = before.len() as int;
                    assert(after.len() == before.len() + 1);
                    assert forall|m: int| 0 <= m < before.len() implies #[trigger] after[m] == before[m] by {
                        assert(after[m] == (self.component_index@[m].0, self.component_index@[m].1@));
                    }
                    assert(after[q] == (id, seq![n]));
                    assert forall|m: int| 0 <= m < before.len() implies (#[trigger] before[m]).0 != id by {
                    }
                    assert(!kids.subrange(0, j as int).contains(id)) by {
                        if kids.subrange(0, j as int).contains(id) {
                            let m = choose|m: int| 0 <= m < before.len() && (#[trigger] before[m]).0 == id;
                        }
                    }
                    assert forall|m: int, x: usize|
                        0 <= m < after.len() implies (#[trigger] after[m].1.contains(x) <==> (((x as int) < n
                            && old(self).key_set(x as int).contains(after[m].0))
                            || (x == n && kids.subrange(0, j as int + 1).contains(after[m].0)))) by {
                        if m < q {
                            assert(after[m] == before[m]);
                            assert(before[m].0 != id);
                            assert(before[m].1.contains(x) <==> (((x as int) < n
                                && old(self).key_set(x as int).contains(before[m].0))
                                || (x == n && kids.subrange(0, j as int).contains(before[m].0))));
                        } else {
                            assert(after[m].1 == seq![n]);
                            if x == n {
                                assert(after[m].1[0] == n);
                                assert(kids.subrange(0, j as int + 1)[j as int] == id);
                            } else {
                                if (x as int) < n && old(self).key_set(x as int).contains(id) {
                                    let mm = choose|mm: int| 0 <= mm < before.len() && (#[trigger] before[mm]).0 == id;
                                    assert(before[mm].0 != id);
                                }
                            }
                        }
                    }
                    assert forall|a: int, b: int|
                        0 <= a < after.len() && 0 <= b < after.len() && a != b implies (#[trigger] after[a]).0 != (#[trigger] after[b]).0 by {
                        if a < q && b < q {
                        } else if a == q && b < q {
                            assert(before[b].0 != id);
                        } else if b == q && a < q {
                            assert(before[a].0 != id);
                        }
                    }
                    assert forall|m: int| 0 <= m < after.len() implies increasing(#[trigger] after[m].1) by {
                        if m < q {
                            assert(after[m] == before[m]);
                        }
                    }
                    assert forall|a: int, idx: u64|
                        0 <= a < n && #[trigger] old(self).key_set(a).contains(idx) implies exists|m: int|
                            0 <= m < after.len() && (#[trigger] after[m]).0 == idx by {
                        let m = choose|m: int| 0 <= m < before.len() && (#[trigger] before[m]).0 == idx;
                        assert(after[m].0 == idx);
                    }
                    assert forall|idx: u64| #[trigger] kids.subrange(0, j as int + 1).contains(idx) implies exists|m: int|
                        0 <= m < after.len() && (#[trigger] after[m]).0 == idx by {
                        if idx == id {
                            assert(after[q].0 == id);
                        } else {
                            let qq = choose|qq: int| 0 <= qq < j + 1 && #[trigger] kids.subrange(0, j as int + 1)[qq] == idx;
                            assert(qq != j);
                            assert(kids.subrange(0, j as int)[qq] == idx);
                            let m = choose|m: int| 0 <= m < before.len() && (#[trigger] before[m]).0 == idx;
                            assert(after[m].0 == idx);
                        }
                    }
                }
            }
            j = j + 1;
        }
        proof {
            assert forall|a: int| #[trigger] self.key_set(a) == old(self).key_set(a) by {}
            assert(kids.subrange(0, ids@.len() as int) =~= kids);
            assert forall|a: int, id: u64|
                0 <= a < n + 1 && #[trigger] old(self).key_set(a).contains(id) implies exists|k: int|
                    0 <= k < self.index_entries().len() && (#[trigger] self.index_entries()[k]).0 == id by {
                if a == n {
                    assert(kids.to_set().contains(id));
                    assert(kids.subrange(0, ids@.len() as int).contains(id));
                }
            }
            assert forall|k: int, x: usize|
                0 <= k < self.index_entries().len() implies (#[trigger] self.index_entries()[k].1.contains(x) <==> ((x as int) < n + 1
                    && old(self).key_set(x as int).contains(self.index_entries()[k].0))) by {
                let id = self.index_entries()[k].0;
                assert(kids.subrange(0, ids@.len() as int).contains(id) == old(self).key_set(n as int).contains(id));
            }
        }
    }
}


impl<V> Archetypes<V> {
    /// Ensures an archetype exists for a key and returns its index; a new
    /// archetype is empty and comes last.
    pub fn ensure(&mut self, key: ArchetypeKey) -> (r: usize)
        requires
            old(self).wf(),
        ensures
            final(self).wf(),
            (r as int) < final(self).archs().len(),
            final(self).key_set(r as int) == key.id_set(),
            forall|b: int| 0 <= b < old(self).archs().len() ==> final(self).archs()[b] == old(self).archs()[b],
            (r as int) < old(self).archs().len() ==> final(self).archs().len() == old(self).archs().len(),
            (r as int) >= old(self).archs().len() ==> {
                &&& r as int == old(self).archs().len()
                &&& final(self).archs().len() == old(self).archs().len() + 1
                &&& final(self).archs()[r as int].entity_seq().len() == 0
            },
            forall|b: int| 0 <= b < old(self).archs().len() && #[trigger] old(self).key_set(b) == key.id_set() ==> r as int == b,
    {
        match self.find(&key) {
            Some(i) => {
                proof {
                    assert forall|b: int| 0 <= b < self.archs().len() && #[trigger] self.key_set(b) == key.id_set() implies i as int == b by {
                        self.law_ids_determine_archetype(i as int, b);
                    }
                }
                i
            },
            None => {
                let n = self.data.len();
                key.check_sorted();
                let k2 = key.duplicate();
                let k3 = key.duplicate();
                let arch = Archetype::new(key);
                self.data.push(arch);
                let ghost before_insert = self.lookup_map();
                let ghost ci = self.component_index;
                key_table_insert(&mut self.lookup, k3.into_ids(), n);
                proof {
                    assert(self.component_index == ci);
                    assert(self.archs() == old(self).archs().push(arch));
                    assert(self.index_entries() == old(self).index_entries());
                    assert forall|k: int, x: usize|
                        0 <= k < self.index_entries().len() implies (#[trigger] self.index_entries()[k].1.contains(x) <==> ((x as int) < n
                            && self.key_set(x as int).contains(self.index_entries()[k].0))) by {
                        assert(old(self).index_entries()[k].1.contains(x) <==> ((x as int) < old(self).archs().len()
                            && old(self).key_set(x as int).contains(old(self).index_entries()[k].0)));
                        if (x as int) < n {
                            assert(self.key_set(x as int) == old(self).key_set(x as int));
                        }
                    }
                    assert forall|a: int, id: u64|
                        0 <= a < n && #[trigger] self.key_set(a).contains(id) implies exists|k: int|
                            0 <= k < self.index_entries().len() && (#[trigger] self.index_entries()[k]).0 == id by {
                        assert(old(self).key_set(a).contains(id));
                    }
                }
                self.index_archetype(n, &k2);
                proof {
                    assert(before_insert == old(self).lookup_map());
                    assert forall|a: int| 0 <= a < self.archs().len() implies self.lookup_map().contains_key(
                        #[trigger] self.archs()[a].key_view().ids(),
                    ) && self.lookup_map()[self.archs()[a].key_view().ids()] == a by {
                        if a < n {
                            assert(self.archs()[a] == old(self).archs()[a]);
                            if self.archs()[a].key_view().ids() == key.ids() {
                                assert(old(self).key_set(a) == key.id_set());
                            }
                        }
                    }
                    assert forall|k: Seq<u64>| #[trigger] self.lookup_map().contains_key(k) implies (self.lookup_map()[k] as int)
                        < self.archs().len() && self.archs()[self.lookup_map()[k] as int].key_view().ids() == k by {
                        if k != key.ids() {
                            assert(old(self).lookup_map().contains_key(k));
                        }
                    }
                }
                proof {
                    assert forall|b: int| 0 <= b < n implies #[trigger] self.key_set(b) == old(self).key_set(b) by {}
                    assert forall|a: int, b: int|
                        0 <= a < self.archs().len() && 0 <= b < self.archs().len() && a != b implies (#[trigger] self.archs()[a]).key_view().ids()
                            != (#[trigger] self.archs()[b]).key_view().ids() by {
                        if a == n {
                            assert(old(self).key_set(b) != key.id_set());
                        } else if b == n {
                            assert(old(self).key_set(a) != key.id_set());
                        }
                    }
                    assert forall|a: int, k: int|
                        0 <= a < self.archs().len() && 0 <= k < self.archs()[a].add_edge_seq().len() implies {
                            let (id, t) = #[trigger] self.archs()[a].add_edge_seq()[k];
                            &&& (t as int) < self.archs().len()
                            &&& !self.key_set(a).contains(id)
                            &&& self.key_set(t as int) == self.key_set(a).insert(id)
                        } by {
                        if a < n {
                            let (id, t) = old(self).archs()[a].add_edge_seq()[k];
                            assert(self.key_set(t as int) == old(self).key_set(t as int));
                        }
                    }
                    assert forall|a: int, k: int|
                        0 <= a < self.archs().len() && 0 <= k < self.archs()[a].remove_edge_seq().len() implies {
                            let (id, t) = #[trigger] self.archs()[a].remove_edge_seq()[k];
                            &&& (t as int) < self.archs().len()
                            &&& self.key_set(a).contains(id)
                            &&& self.key_set(t as int) == self.key_set(a).remove(id)
                        } by {
                        if a < n {
                            let (id, t) = old(self).archs()[a].remove_edge_seq()[k];
                            assert(self.key_set(t as int) == old(self).key_set(t as int));
                        }
                    }
                }
                n
            },
        }
    }

    /// The target archetype of adding a component id to an archetype, using
    /// and filling the cache of transitions. Returns `None` if the archetype
    /// already holds the id.
    pub fn get_add_target(&mut self, source: usize, adding: ComponentId) -> (r: Option<usize>)
        requires
            old(self).wf(),
            (source as int) < old(self).archs().len(),
        ensures
            final(self).wf(),
            final(self).archs().len() >= old(self).archs().len(),
            forall|b: int| 0 <= b < old(self).archs().len() ==> {
                &&& #[trigger] final(self).archs()[b].key_view() == old(self).archs()[b].key_view()
                &&& final(self).archs()[b].entity_seq() == old(self).archs()[b].entity_seq()
                &&& final(self).archs()[b].column_seqs() == old(self).archs()[b].column_seqs()
            },
            forall|b: int| old(self).archs().len() <= b < final(self).archs().len() ==> (#[trigger] final(self).archs()[b]).entity_seq().len() == 0,
            final(self).archs().len() <= old(self).archs().len() + 1,
            r matches Some(t) ==> forall|b: int| 0 <= b < old(self).archs().len() && #[trigger] old(self).key_set(b) == old(self).key_set(source as int).insert(adding.0)
                ==> t as int == b && final(self).archs().len() == old(self).archs().len(),
            match r {
                Some(t) => (t as int) < final(self).archs().len() && !old(self).key_set(source as int).contains(adding.0)
                    && final(self).key_set(t as int) == old(self).key_set(source as int).insert(adding.0),
                None => old(self).key_set(source as int).contains(adding.0),
            },
    {
        proof {
            assert(self.archs()[source as int].wf());
        }
        match self.data[source].add_edge(adding) {
            Some(t) => {
                proof {
                    let k = choose|k: int| 0 <= k < self.archs()[source as int].add_edge_seq().len()
                        && self.archs()[source as int].add_edge_seq()[k] == (adding.0, t);
                    let e = self.archs()[source as int].add_edge_seq()[k];
                    assert forall|b: int| 0 <= b < self.archs().len() && #[trigger] self.key_set(b) == self.key_set(source as int).insert(adding.0)
                        implies t as int == b by {
                        self.law_ids_determine_archetype(b, t as int);
                    }
                }
                Some(t)
            },
            None => {
                let new_key = match self.data[source].key().with_type(adding) {
                    Some(k) => k,
                    None => { return None; },
                };
                let t = self.ensure(new_key);
                let ghost mid = *self;
                self.data[source].set_add_edge(adding, t);
                proof {
                    Self::lemma_edge_added(&mid, self, source as int);
                }
                Some(t)
            },
        }
    }

    /// Appending a cached transition to one archetype keeps everything else,
    /// and keeps the collection well formed when the new edge is correct.
    proof fn lemma_edge_added(mid: &Archetypes<V>, new_s: &Archetypes<V>, a: int)
        requires
            mid.wf(),
            0 <= a < mid.archs().len(),
            new_s.archs().len() == mid.archs().len(),
            new_s.index_entries() == mid.index_entries(),
            new_s.lookup_map() == mid.lookup_map(),
            forall|b: int| 0 <= b < mid.archs().len() && b != a ==> new_s.archs()[b] == mid.archs()[b],
            new_s.archs()[a].key_view() == mid.archs()[a].key_view(),
            new_s.archs()[a].entity_seq() == mid.archs()[a].entity_seq(),
            new_s.archs()[a].column_seqs() == mid.archs()[a].column_seqs(),
            new_s.archs()[a].extra_columns() == mid.archs()[a].extra_columns(),
            ({
                ||| new_s.archs()[a].add_edge_seq() == mid.archs()[a].add_edge_seq() && exists|id: u64, t: usize|
                    new_s.archs()[a].remove_edge_seq() == mid.archs()[a].remove_edge_seq().push((id, t))
                    && (t as int) < mid.archs().len() && mid.key_set(a).contains(id)
                    && mid.key_set(t as int) == mid.key_set(a).remove(id)
                ||| new_s.archs()[a].remove_edge_seq() == mid.archs()[a].remove_edge_seq() && exists|id: u64, t: usize|
                    new_s.archs()[a].add_edge_seq() == mid.archs()[a].add_edge_seq().push((id, t))
                    && (t as int) < mid.archs().len() && !mid.key_set(a).contains(id)
                    && mid.key_set(t as int) == mid.key_set(a).insert(id)
            }),
        ensures
            new_s.wf(),
    {
        assert forall|b: int| 0 <= b < new_s.archs().len() implies #[trigger] new_s.key_set(b) == mid.key_set(b) by {}
        assert forall|b: int| 0 <= b < new_s.archs().len() implies (#[trigger] new_s.archs()[b]).wf() by {
            assert(mid.archs()[b].wf());
        }
        assert forall|b: int, c: int|
            0 <= b < new_s.archs().len() && 0 <= c < new_s.archs().len() && b != c implies (#[trigger] new_s.archs()[b]).key_view().ids()
                != (#[trigger] new_s.archs()[c]).key_view().ids() by {
            assert(mid.archs()[b].key_view().ids() != mid.archs()[c].key_view().ids());
        }
        assert forall|b: int, k: int|
            0 <= b < new_s.archs().len() && 0 <= k < new_s.archs()[b].add_edge_seq().len() implies {
                let (id, t) = #[trigger] new_s.archs()[b].add_edge_seq()[k];
                &&& (t as int) < new_s.archs().len()
                &&& !new_s.key_set(b).contains(id)
                &&& new_s.key_set(t as int) == new_s.key_set(b).insert(id)
            } by {
            if b != a || k < mid.archs()[a].add_edge_seq().len() {
                assert(new_s.archs()[b].add_edge_seq()[k] == mid.archs()[b].add_edge_seq()[k]);
            }
        }
        assert forall|b: int, k: int|
            0 <= b < new_s.archs().len() && 0 <= k < new_s.archs()[b].remove_edge_seq().len() implies {
                let (id, t) = #[trigger] new_s.archs()[b].remove_edge_seq()[k];
                &&& (t as int) < new_s.archs().len()
                &&& new_s.key_set(b).contains(id)
                &&& new_s.key_set(t as int) == new_s.key_set(b).remove(id)
            } by {
            if b != a || k < mid.archs()[a].remove_edge_seq().len() {
                assert(new_s.archs()[b].remove_edge_seq()[k] == mid.archs()[b].remove_edge_seq()[k]);
            }
        }
        assert forall|k: int, x: usize|
            0 <= k < new_s.index_entries().len() implies (#[trigger] new_s.index_entries()[k].1.contains(x) <==> ((x as int) < new_s.archs().len()
                && new_s.key_set(x as int).contains(new_s.index_entries()[k].0))) by {
            assert(mid.index_entries()[k].1.contains(x) <==> ((x as int) < mid.archs().len()
                && mid.key_set(x as int).contains(mid.index_entries()[k].0)));
        }
        assert forall|b: int, id: u64|
            0 <= b < new_s.archs().len() && #[trigger] new_s.key_set(b).contains(id) implies exists|k: int|
                0 <= k < new_s.index_entries().len() && (#[trigger] new_s.index_entries()[k]).0 == id by {
            assert(mid.key_set(b).contains(id));
        }
    }

    /// The target archetype of removing a component id from an archetype,
    /// using and filling the cache of transitions. Returns `None` if the
    /// archetype does not hold the id.
    pub fn get_remove_target(&mut self, source: usize, removing: ComponentId) -> (r: Option<usize>)
        requires
            old(self).wf(),
            (source as int) < old(self).archs().len(),
        ensures
            final(self).wf(),
            final(self).archs().len() >= old(self).archs().len(),
            forall|b: int| 0 <= b < old(self).archs().len() ==> {
                &&& #[trigger] final(self).archs()[b].key_view() == old(self).archs()[b].key_view()
                &&& final(self).archs()[b].entity_seq() == old(self).archs()[b].entity_seq()
                &&& final(self).archs()[b].column_seqs() == old(self).archs()[b].column_seqs()
            },
            forall|b: int| old(self).archs().len() <= b < final(self).archs().len() ==> (#[trigger] final(self).archs()[b]).entity_seq().len() == 0,
            final(self).archs().len() <= old(self).archs().len() + 1,
            r matches Some(t) ==> forall|b: int| 0 <= b < old(self).archs().len() && #[trigger] old(self).key_set(b) == old(self).key_set(source as int).remove(removing.0)
                ==> t as int == b && final(self).archs().len() == old(self).archs().len(),
            match r {
                Some(t) => (t as int) < final(self).archs().len() && old(self).key_set(source as int).contains(removing.0)
                    && final(self).key_set(t as int) == old(self).key_set(source as int).remove(removing.0),
                None => !old(self).key_set(source as int).contains(removing.0),
            },
    {
        match self.data[source].remove_edge(removing) {
            Some(t) => {
                proof {
                    let k = choose|k: int| 0 <= k < self.archs()[source as int].remove_edge_seq().len()
                        && self.archs()[source as int].remove_edge_seq()[k] == (removing.0, t);
                    let e = self.archs()[source as int].remove_edge_seq()[k];
                    assert forall|b: int| 0 <= b < self.archs().len() && #[trigger] self.key_set(b) == self.key_set(source as int).remove(removing.0)
                        implies t as int == b by {
                        self.law_ids_determine_archetype(b, t as int);
                    }
                }
                Some(t)
            },
            None => {
                let new_key = match self.data[source].key().without_type(removing) {
                    Some(k) => k,
                    None => { return None; },
                };
                let t = self.ensure(new_key);
                let ghost mid = *self;
                self.data[source].set_remove_edge(removing, t);
                proof {
                    Self::lemma_edge_added(&mid, self, source as int);
                }
                Some(t)
            },
        }
    }

    /// The target archetype of adding several component ids to an archetype.
    /// Returns `None` if the archetype already holds all of them.
    pub fn get_add_bundle_target(&mut self, source: usize, component_ids: &[ComponentId]) -> (r: Option<usize>)
        requires
            old(self).wf(),
            (source as int) < old(self).archs().len(),
        ensures
            final(self).wf(),
            final(self).archs().len() >= old(self).archs().len(),
            forall|b: int| 0 <= b < old(self).archs().len() ==> #[trigger] final(self).archs()[b] == old(self).archs()[b],
            forall|b: int| old(self).archs().len() <= b < final(self).archs().len() ==> (#[trigger] final(self).archs()[b]).entity_seq().len() == 0,
            final(self).archs().len() <= old(self).archs().len() + 1,
            r matches Some(t) ==> forall|b: int| 0 <= b < old(self).archs().len() && #[trigger] old(self).key_set(b) == old(self).key_set(source as int).union(raw_ids(component_ids@).to_set())
                ==> t as int == b && final(self).archs().len() == old(self).archs().len(),
            match r {
                Some(t) => (t as int) < final(self).archs().len()
                    && final(self).key_set(t as int) == old(self).key_set(source as int).union(raw_ids(component_ids@).to_set())
                    && !raw_ids(component_ids@).to_set().subset_of(old(self).key_set(source as int)),
                None => raw_ids(component_ids@).to_set().subset_of(old(self).key_set(source as int)),
            },
    {
        let new_key = match self.data[source].key().with_types(component_ids) {
            Some(k) => k,
            None => { return None; },
        };
        let t = self.ensure(new_key);
        Some(t)
    }
}


impl<V> Archetypes<V> {
    /// The indices of all archetypes, in order.
    fn all_indices(&self) -> (r: Vec<usize>)
        ensures
            increasing(r@),
            forall|x: usize| r@.contains(x) <==> (x as int) < self.archs().len(),
    {
        let mut out: Vec<usize> = Vec::new();
        let mut i: usize = 0;
        while i < self.data.len()
            invariant
                i <= self.archs().len(),
                out@.len() == i,
                forall|k: int| 0 <= k < i ==> out@[k] == k,
            decreases self.archs().len() - i,
        {
            out.push(i);
            i = i + 1;
        }
        proof {
            assert forall|x: usize| out@.contains(x) <==> (x as int) < self.archs().len() by {
                if (x as int) < self.archs().len() {
                    assert(out@[x as int] == x);
                }
            }
        }
        out
    }

    /// Keeps the candidates whose archetype holds every required id and none
    /// of the excluded ids.
    fn filter_candidates(&self, candidates: &Vec<usize>, required: &[ComponentId], excluded: &[ComponentId]) -> (r: Vec<usize>)
        requires
            increasing(candidates@),
            forall|k: int| 0 <= k < candidates@.len() ==> (#[trigger] candidates@[k] as int) < self.archs().len(),
        ensures
            increasing(r@),
            forall|x: usize| r@.contains(x) <==> (candidates@.contains(x) && self.holds_all(x as int, required@)
                && self.holds_none(x as int, excluded@)),
    {
        let mut out: Vec<usize> = Vec::new();
        let mut i: usize = 0;
        while i < candidates.len()
            invariant
                i <= candidates@.len(),
                increasing(candidates@),
                forall|k: int| 0 <= k < candidates@.len() ==> (#[trigger] candidates@[k] as int) < self.archs().len(),
                increasing(out@),
                forall|k: int| 0 <= k < out@.len() ==> exists|m: int| 0 <= m < i && candidates@[m] == #[trigger] out@[k],
                forall|x: usize| out@.contains(x) <==> (candidates@.subrange(0, i as int).contains(x) && self.holds_all(x as int, required@)
                    && self.holds_none(x as int, excluded@)),
            decreases candidates@.len() - i,
        {
            let idx = candidates[i];
            let key = self.data[idx].key();
            let ghost before = out@;
            let mut none_excluded = true;
            let mut j: usize = 0;
            while j < excluded.len()
                invariant
                    j <= excluded@.len(),
                    none_excluded == forall|k: int| 0 <= k < j ==> !key.id_set().contains(#[trigger] excluded@[k].0),
                decreases excluded@.len() - j,
            {
                if key.contains(excluded[j]) {
                    none_excluded = false;
                }
                j = j + 1;
            }
            if key.contains_all(required) && none_excluded {
                out.push(idx);
                proof {
                    assert forall|a: int, b: int| 0 <= a < b < out@.len() implies out@[a] < out@[b] by {
                        if b == out@.len() - 1 {
                            let m = choose|m: int| 0 <= m < i && candidates@[m] == #[trigger] before[a];
                            assert(candidates@[m] < candidates@[i as int]);
                        } else {
                            assert(out@[a] == before[a] && out@[b] == before[b]);
                        }
                    }
                }
            }
            proof {
                assert(candidates@.subrange(0, i as int + 1) =~= candidates@.subrange(0, i as int).push(idx));
                assert forall|k: int| 0 <= k < out@.len() implies exists|m: int| 0 <= m < i + 1 && candidates@[m] == #[trigger] out@[k] by {
                    if k < before.len() {
                        assert(out@[k] == before[k]);
                        let m = choose|m: int| 0 <= m < i && candidates@[m] == #[trigger] before[k];
                    } else {
                        assert(candidates@[i as int] == out@[k]);
                    }
                }
                assert forall|x: usize| out@.contains(x) <==> (candidates@.subrange(0, i as int + 1).contains(x) && self.holds_all(x as int, required@)
                    && self.holds_none(x as int, excluded@)) by {
                    if out@.contains(x) {
                        let k = choose|k: int| 0 <= k < out@.len() && #[trigger] out@[k] == x;
                        if k < before.len() {
                            assert(before[k] == x);
                            assert(before.contains(x));
                            let q = choose|q: int| 0 <= q < i && #[trigger] candidates@.subrange(0, i as int)[q] == x;
                            assert(candidates@.subrange(0, i as int + 1)[q] == x);
                        } else {
                            assert(candidates@.subrange(0, i as int + 1)[i as int] == x);
                        }
                    }
                    if candidates@.subrange(0, i as int + 1).contains(x) && self.holds_all(x as int, required@)
                        && self.holds_none(x as int, excluded@) {
                        let q = choose|q: int| 0 <= q < i + 1 && #[trigger] candidates@.subrange(0, i as int + 1)[q] == x;
                        if q < i {
                            assert(candidates@.subrange(0, i as int)[q] == x);
                            assert(before.contains(x));
                            let k = choose|k: int| 0 <= k < before.len() && #[trigger] before[k] == x;
                            assert(out@[k] == x);
                        } else {
                            assert(x == idx);
                            assert(out@[out@.len() - 1] == x);
                        }
                    }
                }
            }
            i = i + 1;
        }
        proof {
            assert(candidates@.subrange(0, candidates@.len() as int) =~= candidates@);
        }
        out
    }

    /// Returns the indices, in increasing order, of the archetypes that hold
    /// every required component id. The reverse index narrows the search to
    /// the archetypes of the rarest required id.
    pub fn matching(&self, required_types: &[ComponentId]) -> (r: Vec<usize>)
        requires
            self.wf(),
        ensures
            increasing(r@),
            forall|x: usize| r@.contains(x) <==> ((x as int) < self.archs().len() && self.holds_all(x as int, required_types@)),
    {
        if required_types.len() == 0 {
            return self.all_indices();
        }
        let mut smallest: &Vec<usize> = match self.with_component(required_types[0]) {
            Some(list) => list,
            None => {
                proof {
                    assert forall|x: usize| ((x as int) < self.archs().len() && self.holds_all(x as int, required_types@)) implies false by {
                        assert(self.key_set(x as int).contains(required_types@[0].0));
                    }
                }
                return Vec::new();
            },
        };
        let mut i: usize = 1;
        let ghost mut sk: int = 0;
        while i < required_types.len()
            invariant
                1 <= i <= required_types@.len(),
                self.wf(),
                increasing(smallest@),
                0 <= sk < required_types@.len(),
                forall|x: usize| #[trigger] smallest@.contains(x) <==> ((x as int) < self.archs().len()
                    && self.key_set(x as int).contains(required_types@[sk].0)),
            decreases required_types@.len() - i,
        {
            match self.with_component(required_types[i]) {
                Some(list) => {
                    if list.len() < smallest.len() {
                        smallest = list;
                        proof {
                            sk = i as int;
                        }
                    }
                },
                None => {
                    proof {
                        assert forall|x: usize| !(#[trigger] Seq::<usize>::empty().contains(x)) by {}
                        assert forall|x: usize| ((x as int) < self.archs().len() && self.holds_all(x as int, required_types@)) implies false by {
                            assert(self.key_set(x as int).contains(required_types@[i as int].0));
                        }
                    }
                    return Vec::new();
                },
            }
            i = i + 1;
        }
        proof {
            assert forall|m: int| 0 <= m < smallest@.len() implies (#[trigger] smallest@[m] as int) < self.archs().len() by {
                assert(smallest@.contains(smallest@[m]));
            }
        }
        let none: [ComponentId; 0] = [];
        let r = self.filter_candidates(smallest, required_types, &none);
        proof {
            let k = sk;
            assert forall|x: usize| r@.contains(x) <==> ((x as int) < self.archs().len() && self.holds_all(x as int, required_types@)) by {
                if (x as int) < self.archs().len() && self.holds_all(x as int, required_types@) {
                    assert(self.key_set(x as int).contains(required_types@[k].0));
                }
            }
        }
        r
    }

    /// Returns the indices, in increasing order, of the archetypes that hold
    /// every required component id and none of the excluded ones.
    pub fn matching_filtered(&self, required_types: &[ComponentId], excluded_types: &[ComponentId]) -> (r: Vec<usize>)
        requires
            self.wf(),
        ensures
            increasing(r@),
            forall|x: usize| r@.contains(x) <==> ((x as int) < self.archs().len() && self.holds_all(x as int, required_types@)
                && self.holds_none(x as int, excluded_types@)),
    {
        if required_types.len() == 0 && excluded_types.len() == 0 {
            return self.all_indices();
        }
        let candidates = if required_types.len() == 0 {
            self.all_indices()
        } else {
            self.matching(required_types)
        };
        if excluded_types.len() == 0 {
            return candidates;
        }
        proof {
            assert forall|m: int| 0 <= m < candidates@.len() implies (#[trigger] candidates@[m] as int) < self.archs().len() by {
                assert(candidates@.contains(candidates@[m]));
            }
        }
        self.filter_candidates(&candidates, required_types, excluded_types)
    }
}

} // verus!
