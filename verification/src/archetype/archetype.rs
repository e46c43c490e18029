//! `Archetype`: the entities that share one set of component types, with one
//! dense column per type.

use vstd::prelude::*;
use crate::component::ComponentId;
use crate::entity::Entity;
use super::key::{ArchetypeKey, strictly_sorted};

verus! {

/// What `swap_remove` does to a sequence: the last element moves into the
/// removed position.
pub open spec fn seq_swap_remove<T>(s: Seq<T>, i: int) -> Seq<T> {
    s.update(i, s.last()).drop_last()
}

/// Dense storage for one component type.
pub struct ColumnData<T> {
    data: Vec<T>,
}

impl<T> View for ColumnData<T> {
    type V = Seq<T>;

    closed spec fn view(&self) -> Seq<T> {
        self.data@
    }
}

impl<T> ColumnData<T> {
    /// Creates an empty column.
    pub fn new() -> (r: ColumnData<T>)
        ensures
            r@ == Seq::<T>::empty(),
    {
        ColumnData { data: Vec::new() }
    }

    /// Appends a value at the end of the column.
    pub fn push(&mut self, value: T)
        ensures
            final(self)@ == old(self)@.push(value),
    {
        self.data.push(value);
    }

    /// Overwrites the value at an index, dropping the old value.
    pub fn set(&mut self, index: usize, value: T)
        requires
            index < old(self)@.len(),
        ensures
            final(self)@ == old(self)@.update(index as int, value),
    {
        self.data.set(index, value);
    }

    /// Returns the value at an index, if any.
    pub fn get(&self, index: usize) -> (r: Option<&T>)
        ensures
            r == (if index < self@.len() { Some(&self@[index as int]) } else { None }),
    {
        if index < self.data.len() {
            Some(&self.data[index])
        } else {
            None
        }
    }

    /// Returns a mutable reference to the value at an index, if any.
    pub fn get_mut(&mut self, index: usize) -> (r: Option<&mut T>)
        ensures
            index < old(self)@.len() <==> r is Some,
            index >= old(self)@.len() ==> final(self)@ == old(self)@,
            r matches Some(x) ==> *x == old(self)@[index as int]
                && final(self)@ == old(self)@.update(index as int, *final(x)),
    {
        if index < self.data.len() {
            Some(&mut self.data[index])
        } else {
            None
        }
    }

    /// Returns the column as a slice.
    pub fn as_slice(&self) -> (r: &[T])
        ensures
            r@ == self@,
    {
        self.data.as_slice()
    }

    /// Returns the column as a mutable slice.
    pub fn as_mut_slice(&mut self) -> (r: &mut [T])
        ensures
            r@ == old(self)@,
            final(r)@ == final(self)@,
    {
        self.data.as_mut_slice()
    }

    /// Returns the number of values in the column.
    pub fn len(&self) -> (r: usize)
        ensures
            r == self@.len(),
    {
        self.data.len()
    }

    /// Reserves room for more values.
    pub fn reserve(&mut self, additional: usize)
        ensures
            final(self)@ == old(self)@,
    {
        self.data.reserve(additional);
    }

    /// Removes the value at an index by moving the last value into its place,
    /// and returns it.
    pub fn swap_remove(&mut self, index: usize) -> (r: T)
        requires
            index < old(self)@.len(),
        ensures
            r == old(self)@[index as int],
            final(self)@ == seq_swap_remove(old(self)@, index as int),
    {
        self.data.swap_remove(index)
    }
}

} // verus!

verus! {

/// The position of an id in a sequence of ids.
pub open spec fn pos_of(ids: Seq<u64>, id: u64) -> int {
    choose|j: int| 0 <= j < ids.len() && ids[j] == id
}

/// In a sequence without repetitions, a position holding `id` is `pos_of`.
pub proof fn lemma_pos_of_unique(ids: Seq<u64>, id: u64, j: int)
    requires
        strictly_sorted(ids),
        0 <= j < ids.len(),
        ids[j] == id,
    ensures
        pos_of(ids, id) == j,
{
    let k = pos_of(ids, id);
    assert(0 <= k < ids.len() && ids[k] == id);
    if k < j {
        assert(ids[k] < ids[j]);
    } else if k > j {
        assert(ids[j] < ids[k]);
    }
}

/// The values of a column that may not have been created yet: none until it
/// is.
pub open spec fn column_values<V>(c: Option<ColumnData<V>>) -> Seq<V> {
    match c {
        Some(col) => col@,
        None => Seq::empty(),
    }
}

/// The position of the first column of an id in a list of (id, values)
/// columns, or -1 if there is none.
pub open spec fn extra_pos<V>(cols: Seq<(u64, Seq<V>)>, id: u64) -> int
    decreases cols.len(),
{
    if cols.len() == 0 {
        -1
    } else if cols[0].0 == id {
        0
    } else {
        let p = extra_pos(cols.drop_first(), id);
        if p < 0 {
            -1
        } else {
            p + 1
        }
    }
}

/// The first column of an id is the first position holding it.
pub proof fn lemma_extra_pos<V>(cols: Seq<(u64, Seq<V>)>, id: u64, i: int)
    requires
        0 <= i <= cols.len(),
        forall|k: int| 0 <= k < i ==> (#[trigger] cols[k]).0 != id,
        i < cols.len() ==> cols[i].0 == id,
    ensures
        extra_pos(cols, id) == if i < cols.len() { i } else { -1 },
    decreases cols.len(),
{
    if cols.len() > 0 && i > 0 {
        let rest = cols.drop_first();
        assert forall|k: int| 0 <= k < i - 1 implies (#[trigger] rest[k]).0 != id by {
            assert(rest[k] == cols[k + 1]);
        }
        if i < cols.len() {
            assert(rest[i - 1] == cols[i]);
        }
        assert(cols[0].0 != id);
        lemma_extra_pos(rest, id, i - 1);
    }
}

/// An id found at a position has a first column.
pub proof fn lemma_first_of<V>(cols: Seq<(u64, Seq<V>)>, id: u64, i: int)
    requires
        0 <= i < cols.len(),
        cols[i].0 == id,
    ensures
        0 <= extra_pos(cols, id) <= i,
        cols[extra_pos(cols, id)].0 == id,
    decreases cols.len(),
{
    if cols[0].0 != id {
        let rest = cols.drop_first();
        assert(rest[i - 1] == cols[i]);
        lemma_first_of(rest, id, i - 1);
        assert(cols[extra_pos(cols, id)] == rest[extra_pos(rest, id)]);
    }
}

/// A first column found lies in range and holds the id.
pub proof fn lemma_extra_pos_found<V>(cols: Seq<(u64, Seq<V>)>, id: u64)
    requires
        extra_pos(cols, id) >= 0,
    ensures
        extra_pos(cols, id) < cols.len(),
        cols[extra_pos(cols, id)].0 == id,
    decreases cols.len(),
{
    if cols.len() > 0 && cols[0].0 != id {
        let rest = cols.drop_first();
        lemma_extra_pos_found(rest, id);
        assert(cols[extra_pos(cols, id)] == rest[extra_pos(rest, id)]);
    }
}

/// What `extra_pos` finds: the first position holding the id, or -1 when
/// none does.
pub proof fn lemma_extra_pos_spec<V>(cols: Seq<(u64, Seq<V>)>, id: u64)
    ensures
        extra_pos(cols, id) >= 0 ==> extra_pos(cols, id) < cols.len() && cols[extra_pos(cols, id)].0 == id
            && forall|k: int| 0 <= k < extra_pos(cols, id) ==> (#[trigger] cols[k]).0 != id,
        extra_pos(cols, id) < 0 ==> extra_pos(cols, id) == -1 && forall|k: int| 0 <= k < cols.len() ==> (#[trigger] cols[k]).0 != id,
    decreases cols.len(),
{
    if cols.len() > 0 && cols[0].0 != id {
        let rest = cols.drop_first();
        lemma_extra_pos_spec(rest, id);
        if extra_pos(rest, id) >= 0 {
            assert(cols[extra_pos(cols, id)] == rest[extra_pos(rest, id)]);
            assert forall|k: int| 0 <= k < extra_pos(cols, id) implies (#[trigger] cols[k]).0 != id by {
                if k > 0 {
                    assert(cols[k] == rest[k - 1]);
                }
            }
        } else {
            assert forall|k: int| 0 <= k < cols.len() implies (#[trigger] cols[k]).0 != id by {
                if k > 0 {
                    assert(cols[k] == rest[k - 1]);
                }
            }
        }
    }
}

/// Columns with the same ids at the same positions find ids alike.
pub proof fn lemma_extra_pos_same_ids<V>(a: Seq<(u64, Seq<V>)>, b: Seq<(u64, Seq<V>)>, id: u64)
    requires
        a.len() == b.len(),
        forall|k: int| 0 <= k < a.len() ==> (#[trigger] a[k]).0 == b[k].0,
    ensures
        extra_pos(a, id) == extra_pos(b, id),
{
    lemma_extra_pos_spec(a, id);
    lemma_extra_pos_spec(b, id);
    let p = extra_pos(a, id);
    if p >= 0 {
        assert forall|k: int| 0 <= k < p implies (#[trigger] b[k]).0 != id by {
            assert(a[k].0 == b[k].0);
        }
        lemma_extra_pos(b, id, p);
    } else {
        assert forall|k: int| 0 <= k < b.len() implies (#[trigger] b[k]).0 != id by {
            assert(a[k].0 == b[k].0);
        }
        lemma_extra_pos(b, id, b.len() as int);
    }
}

/// Appending a column of a new id finds it last and every other id as
/// before.
pub proof fn lemma_extra_pos_push<V>(a: Seq<(u64, Seq<V>)>, e: (u64, Seq<V>), id: u64)
    requires
        extra_pos(a, e.0) == -1,
    ensures
        extra_pos(a.push(e), id) == if id == e.0 { a.len() as int } else { extra_pos(a, id) },
{
    let b = a.push(e);
    lemma_extra_pos_spec(a, id);
    lemma_extra_pos_spec(a, e.0);
    if id == e.0 {
        assert forall|k: int| 0 <= k < a.len() implies (#[trigger] b[k]).0 != id by {
            assert(b[k] == a[k]);
        }
        lemma_extra_pos(b, id, a.len() as int);
    } else {
        let p = extra_pos(a, id);
        if p >= 0 {
            assert forall|k: int| 0 <= k < p implies (#[trigger] b[k]).0 != id by {
                assert(b[k] == a[k]);
            }
            assert(b[p] == a[p]);
            lemma_extra_pos(b, id, p);
        } else {
            assert forall|k: int| 0 <= k < b.len() implies (#[trigger] b[k]).0 != id by {
                if k < a.len() {
                    assert(b[k] == a[k]);
                }
            }
            lemma_extra_pos(b, id, b.len() as int);
        }
    }
}

/// Entities with identical component types, stored as one dense column per
/// type: column `j` holds the values of the `j`-th id of the key, and row `r`
/// of every column belongs to the `r`-th entity. A column is created when a
/// value of its type is first stored.
pub struct Archetype<V> {
    key: ArchetypeKey,
    entities: Vec<Entity>,
    columns: Vec<Option<ColumnData<V>>>,
    extra: Vec<(u64, ColumnData<V>)>,
    add_edges: Vec<(u64, usize)>,
    remove_edges: Vec<(u64, usize)>,
}

impl<V> Archetype<V> {
    /// The key of this archetype.
    pub closed spec fn key_view(&self) -> ArchetypeKey {
        self.key
    }

    /// The entities of this archetype, by row.
    pub closed spec fn entity_seq(&self) -> Seq<Entity> {
        self.entities@
    }

    /// The contents of the columns, in key order; a column not created yet
    /// holds no value.
    pub closed spec fn column_seqs(&self) -> Seq<Seq<V>> {
        self.columns@.map_values(|c: Option<ColumnData<V>>| column_values(c))
    }

    /// The columns of ids outside the key, in the order they were created.
    pub closed spec fn extra_columns(&self) -> Seq<(u64, Seq<V>)> {
        self.extra@.map_values(|e: (u64, ColumnData<V>)| (e.0, e.1@))
    }

    /// The values stored for a component id: its column, or nothing if it
    /// has none.
    pub open spec fn column_of(&self, id: u64) -> Seq<V> {
        if self.key_view().id_set().contains(id) {
            self.column_seqs()[pos_of(self.key_view().ids(), id)]
        } else if extra_pos(self.extra_columns(), id) >= 0 {
            self.extra_columns()[extra_pos(self.extra_columns(), id)].1
        } else {
            Seq::empty()
        }
    }

    /// Which columns of the key have been created, in key order.
    pub closed spec fn created_seq(&self) -> Seq<bool> {
        self.columns@.map_values(|c: Option<ColumnData<V>>| c is Some)
    }

    /// Whether the archetype has a column for a component id.
    pub open spec fn has_column(&self, id: u64) -> bool {
        if self.key_view().id_set().contains(id) {
            self.created_seq()[pos_of(self.key_view().ids(), id)]
        } else {
            extra_pos(self.extra_columns(), id) >= 0
        }
    }

    /// The cached transitions: adding an id leads to an archetype index.
    pub closed spec fn add_edge_seq(&self) -> Seq<(u64, usize)> {
        self.add_edges@
    }

    /// The cached transitions: removing an id leads to an archetype index.
    pub closed spec fn remove_edge_seq(&self) -> Seq<(u64, usize)> {
        self.remove_edges@
    }

    /// One column place per id of the key, and the ids sorted. Every
    /// archetype built by [`Archetype::new`] has this shape and every
    /// operation keeps it.
    pub open spec fn shape(&self) -> bool {
        &&& self.column_seqs().len() == self.key_view().ids().len()
        &&& strictly_sorted(self.key_view().ids())
        &&& forall|k: int| 0 <= k < self.extra_columns().len() ==> !self.key_view().id_set().contains(#[trigger] self.extra_columns()[k].0)
        &&& forall|k: int, m: int| 0 <= k < m < self.extra_columns().len() ==> #[trigger] self.extra_columns()[k].0
            != #[trigger] self.extra_columns()[m].0
    }

    /// The shape holds and every column is as long as the entity list.
    pub open spec fn wf(&self) -> bool {
        &&& self.shape()
        &&& forall|j: int| 0 <= j < self.column_seqs().len() ==> (#[trigger] self.column_seqs()[j]).len() == self.entity_seq().len()
    }

    /// The value of component `id` in a row.
    pub open spec fn value(&self, id: u64, row: int) -> V {
        self.column_seqs()[pos_of(self.key_view().ids(), id)][row]
    }

    /// The components of the entity in a row, by id.
    pub open spec fn row_map(&self, row: int) -> Map<u64, V> {
        Map::new(|id: u64| self.key_view().id_set().contains(id), |id: u64| self.value(id, row))
    }

    /// Creates an empty archetype for a key, with no column yet.
    pub fn new(key: ArchetypeKey) -> (r: Archetype<V>)
        ensures
            r.key_view() == key,
            r.entity_seq() == Seq::<Entity>::empty(),
            r.wf(),
            forall|id: u64| !r.has_column(id),
            r.extra_columns() == Seq::<(u64, Seq<V>)>::empty(),
            r.add_edge_seq() == Seq::<(u64, usize)>::empty(),
            r.remove_edge_seq() == Seq::<(u64, usize)>::empty(),
    {
        key.check_sorted();
        let n = key.len();
        let mut columns: Vec<Option<ColumnData<V>>> = Vec::new();
        let mut j: usize = 0;
        while j < n
            invariant
                j <= n,
                n == key.ids().len(),
                columns@.len() == j,
                forall|k: int| 0 <= k < j ==> (#[trigger] columns@[k]) is None,
            decreases n - j,
        {
            columns.push(None);
            j = j + 1;
        }
        let r = Archetype { key, entities: Vec::new(), columns, extra: Vec::new(), add_edges: Vec::new(), remove_edges: Vec::new() };
        proof {
            assert forall|k: int| 0 <= k < r.column_seqs().len() implies (#[trigger] r.column_seqs()[k]).len() == 0 by {
                assert(r.columns@[k] is None);
            }
            assert(r.extra_columns() =~= Seq::<(u64, Seq<V>)>::empty());
            assert forall|id: u64| !r.has_column(id) by {
                if r.key_view().id_set().contains(id) {
                    let p = pos_of(r.key_view().ids(), id);
                    assert(0 <= p < n);
                    assert(r.columns@[p] is None);
                }
            }
        }
        r
    }

    /// Returns the key of this archetype.
    pub fn key(&self) -> (r: &ArchetypeKey)
        ensures
            *r == self.key_view(),
    {
        &self.key
    }

    /// The position of the column of an id outside the key, if it has one.
    fn find_extra(&self, id: u64) -> (r: Option<usize>)
        ensures
            match r {
                Some(k) => extra_pos(self.extra_columns(), id) == k as int && (k as int) < self.extra_columns().len(),
                None => extra_pos(self.extra_columns(), id) == -1,
            },
    {
        let mut k: usize = 0;
        while k < self.extra.len()
            invariant
                k <= self.extra@.len(),
                forall|m: int| 0 <= m < k ==> (#[trigger] self.extra_columns()[m]).0 != id,
            decreases self.extra@.len() - k,
        {
            if self.extra[k].0 == id {
                proof {
                    lemma_extra_pos(self.extra_columns(), id, k as int);
                }
                return Some(k);
            }
            k = k + 1;
        }
        proof {
            lemma_extra_pos(self.extra_columns(), id, k as int);
        }
        None
    }

    /// Returns the component ids whose columns have been created, each once:
    /// first those of the key, in increasing order, then the others in the
    /// order their columns were created.
    pub fn columns(&self) -> (r: Vec<ComponentId>)
        requires
            self.shape(),
        ensures
            forall|id: ComponentId| r@.contains(id) <==> self.has_column(id.0),
            forall|a: int, b: int| 0 <= a < b < r@.len() ==> (#[trigger] r@[a]) != (#[trigger] r@[b]),
    {
        let n = self.columns.len();
        let ghost ids = self.key_view().ids();
        let ghost cr = self.created_seq();
        let mut out: Vec<ComponentId> = Vec::new();
        let ghost mut qs: Seq<int> = Seq::empty();
        let mut j: usize = 0;
        while j < n
            invariant
                j <= n,
                n == self.columns@.len(),
                ids == self.key_view().ids(),
                cr == self.created_seq(),
                self.shape(),
                qs.len() == out@.len(),
                forall|k: int| 0 <= k < out@.len() ==> 0 <= #[trigger] qs[k] < j && out@[k].0 == ids[qs[k]] && cr[qs[k]],
                forall|a: int, b: int| 0 <= a < b < out@.len() ==> qs[a] < qs[b],
                forall|q: int| 0 <= q < j && #[trigger] cr[q] ==> exists|k: int| 0 <= k < out@.len() && qs[k] == q,
            decreases n - j,
        {
            let present = self.columns[j].is_some();
            proof {
                assert(cr[j as int] == (self.columns@[j as int] is Some));
            }
            if present {
                let id = self.key.id_at(j);
                out.push(ComponentId(id));
                proof {
                    let qs0 = qs;
                    qs = qs.push(j as int);
                    assert(qs[qs.len() - 1] == j as int);
                    assert forall|q: int| 0 <= q < j + 1 && #[trigger] cr[q] implies exists|k: int| 0 <= k < out@.len() && qs[k] == q by {
                        if q < j {
                            let k = choose|k: int| 0 <= k < qs0.len() && qs0[k] == q;
                            assert(qs[k] == q);
                        } else {
                            assert(qs[qs.len() - 1] == q);
                        }
                    }
                }
            } else {
                proof {
                    assert forall|q: int| 0 <= q < j + 1 && #[trigger] cr[q] implies exists|k: int| 0 <= k < out@.len() && qs[k] == q by {
                        if q < j {
                            let k = choose|k: int| 0 <= k < qs.len() && qs[k] == q;
                        }
                    }
                }
            }
            j = j + 1;
        }
        proof {
            assert forall|a: int, b: int| 0 <= a < b < out@.len() implies (#[trigger] out@[a]).0 < (#[trigger] out@[b]).0 by {
                assert(ids[qs[a]] < ids[qs[b]]);
            }
        }
        let ghost key_part = out@;
        let ghost ex = self.extra_columns();
        let mut k: usize = 0;
        while k < self.extra.len()
            invariant
                k <= self.extra@.len(),
                ex == self.extra_columns(),
                self.shape(),
                ids == self.key_view().ids(),
                out@.len() == key_part.len() + k,
                forall|m: int| 0 <= m < key_part.len() ==> #[trigger] out@[m] == key_part[m],
                forall|m: int| 0 <= m < k ==> #[trigger] out@[key_part.len() + m] == ComponentId(ex[m].0),
            decreases self.extra@.len() - k,
        {
            out.push(ComponentId(self.extra[k].0));
            k = k + 1;
        }
        proof {
            assert forall|a: int| 0 <= a < key_part.len() implies ids.contains(#[trigger] key_part[a].0) by {
                assert(ids[qs[a]] == key_part[a].0);
            }
            assert forall|a: int, b: int| 0 <= a < b < out@.len() implies (#[trigger] out@[a]) != (#[trigger] out@[b]) by {
                let kp = key_part.len() as int;
                if b < kp {
                    assert(out@[a] == key_part[a] && out@[b] == key_part[b]);
                    assert(key_part[a].0 < key_part[b].0);
                } else if a < kp {
                    assert(out@[a] == key_part[a]);
                    assert(ids.contains(key_part[a].0));
                    assert(out@[kp + (b - kp)] == ComponentId(ex[b - kp].0));
                    assert(!self.key_view().id_set().contains(ex[b - kp].0));
                } else {
                    assert(out@[kp + (a - kp)] == ComponentId(ex[a - kp].0));
                    assert(out@[kp + (b - kp)] == ComponentId(ex[b - kp].0));
                    assert(ex[a - kp].0 != ex[b - kp].0);
                }
            }
            assert forall|id: ComponentId| out@.contains(id) <==> self.has_column(id.0) by {
                let kp = key_part.len() as int;
                if out@.contains(id) {
                    let m = choose|m: int| 0 <= m < out@.len() && out@[m] == id;
                    if m < kp {
                        assert(out@[m] == key_part[m]);
                        lemma_pos_of_unique(ids, id.0, qs[m]);
                        assert(ids.contains(id.0));
                    } else {
                        assert(out@[kp + (m - kp)] == ComponentId(ex[m - kp].0));
                        assert(!self.key_view().id_set().contains(ex[m - kp].0));
                        lemma_first_of(ex, id.0, m - kp);
                    }
                }
                if self.has_column(id.0) {
                    if self.key_view().id_set().contains(id.0) {
                        let q = pos_of(ids, id.0);
                        assert(ids.contains(id.0));
                        assert(cr[q]);
                        let m = choose|m: int| 0 <= m < key_part.len() && qs[m] == q;
                        assert(out@[m] == key_part[m]);
                        assert(out@[m] == ComponentId(id.0));
                    } else {
                        let e = extra_pos(ex, id.0);
                        lemma_extra_pos_found(ex, id.0);
                        assert(out@[kp + e] == ComponentId(ex[e].0));
                    }
                }
            }
        }
        out
    }

    /// Returns the number of entities in this archetype.
    pub fn len(&self) -> (r: usize)
        ensures
            r == self.entity_seq().len(),
    {
        self.entities.len()
    }

    /// Returns the entities, by row.
    pub fn entities(&self) -> (r: &[Entity])
        ensures
            r@ == self.entity_seq(),
    {
        self.entities.as_slice()
    }

    /// Returns the entity in a row.
    pub fn entity_at(&self, row: usize) -> (r: Entity)
        requires
            row < self.entity_seq().len(),
        ensures
            r == self.entity_seq()[row as int],
    {
        self.entities[row]
    }

    /// Swap-removes only the entity of a row (not the columns).
    pub fn entities_swap_remove(&mut self, row: usize)
        requires
            row < old(self).entity_seq().len(),
        ensures
            final(self).extra_columns() == old(self).extra_columns(),
            final(self).entity_seq() == seq_swap_remove(old(self).entity_seq(), row as int),
            final(self).key_view() == old(self).key_view(),
            final(self).column_seqs() == old(self).column_seqs(),
            final(self).add_edge_seq() == old(self).add_edge_seq(),
            final(self).remove_edge_seq() == old(self).remove_edge_seq(),
    {
        self.entities.swap_remove(row);
    }

    /// Returns the column of a component id, if it has been created.
    pub fn column(&self, id: ComponentId) -> (r: Option<&ColumnData<V>>)
        requires
            self.shape(),
        ensures
            match r {
                Some(c) => self.has_column(id.0) && c@ == self.column_of(id.0),
                None => !self.has_column(id.0),
            },
    {
        match self.key.position(id) {
            Some(p) => {
                proof {
                    lemma_pos_of_unique(self.key.ids(), id.0, p as int);
                }
                self.columns[p].as_ref()
            },
            None => {
                match self.find_extra(id.0) {
                    Some(k) => Some(&self.extra[k].1),
                    None => None,
                }
            },
        }
    }

    /// Returns the column of a component id for writing, if it has been
    /// created.
    pub fn column_mut(&mut self, id: ComponentId) -> (r: Option<&mut ColumnData<V>>)
        requires
            old(self).shape(),
        ensures
            r is Some <==> old(self).has_column(id.0),
            final(self).created_seq() == old(self).created_seq(),
            r is None ==> final(self).column_seqs() == old(self).column_seqs() && final(self).extra_columns() == old(self).extra_columns(),
            r matches Some(c) ==> c@ == old(self).column_of(id.0),
            r matches Some(c) ==> (old(self).key_view().id_set().contains(id.0) ==> final(self).column_seqs()
                == old(self).column_seqs().update(pos_of(old(self).key_view().ids(), id.0), final(c)@)
                && final(self).extra_columns() == old(self).extra_columns()),
            r matches Some(c) ==> (!old(self).key_view().id_set().contains(id.0) ==> final(self).extra_columns()
                == old(self).extra_columns().update(extra_pos(old(self).extra_columns(), id.0), (id.0, final(c)@))
                && final(self).column_seqs() == old(self).column_seqs()),
            final(self).entity_seq() == old(self).entity_seq(),
            final(self).key_view() == old(self).key_view(),
            final(self).add_edge_seq() == old(self).add_edge_seq(),
            final(self).remove_edge_seq() == old(self).remove_edge_seq(),
    {
        match self.key.position(id) {
            Some(p) => {
                proof {
                    lemma_pos_of_unique(self.key.ids(), id.0, p as int);
                }
                self.columns[p].as_mut()
            },
            None => {
                match self.find_extra(id.0) {
                    Some(k) => {
                        proof {
                            lemma_extra_pos_found(self.extra_columns(), id.0);
                        }
                        Some(&mut self.extra[k].1)
                    },
                    None => None,
                }
            },
        }
    }

    /// Adds an entity as a new row; the caller fills the columns. Returns the
    /// row.
    pub fn push_entity(&mut self, entity: Entity) -> (r: usize)
        ensures
            final(self).extra_columns() == old(self).extra_columns(),
            r == old(self).entity_seq().len(),
            final(self).entity_seq() == old(self).entity_seq().push(entity),
            final(self).key_view() == old(self).key_view(),
            final(self).column_seqs() == old(self).column_seqs(),
            final(self).add_edge_seq() == old(self).add_edge_seq(),
            final(self).remove_edge_seq() == old(self).remove_edge_seq(),
    {
        let index = self.entities.len();
        self.entities.push(entity);
        index
    }

    /// Reserves room for more rows in the entity list and every column.
    pub fn reserve_bulk(&mut self, additional: usize)
        ensures
            final(self).extra_columns() == old(self).extra_columns(),
            final(self).entity_seq() == old(self).entity_seq(),
            final(self).key_view() == old(self).key_view(),
            final(self).column_seqs() == old(self).column_seqs(),
            final(self).add_edge_seq() == old(self).add_edge_seq(),
            final(self).remove_edge_seq() == old(self).remove_edge_seq(),
    {
        self.entities.reserve(additional);
        let n = self.columns.len();
        let mut j: usize = 0;
        while j < n
            invariant
                j <= n,
                n == self.columns@.len(),
                self.key == old(self).key,
                self.entities@ == old(self).entities@,
                self.add_edges == old(self).add_edges,
                self.remove_edges == old(self).remove_edges,
                self.extra == old(self).extra,
                forall|k: int| 0 <= k < n ==> column_values(#[trigger] self.columns@[k]) == column_values(old(self).columns@[k]),
            decreases n - j,
        {
            let taken = self.columns[j].take();
            match taken {
                Some(mut col) => {
                    col.reserve(additional);
                    self.columns.set(j, Some(col));
                },
                None => {},
            }
            j = j + 1;
        }
        proof {
            assert(self.column_seqs() =~= old(self).column_seqs());
        }
    }

    /// Adds several entities as new rows; the caller fills the columns.
    /// Returns the first new row.
    pub fn push_entities_bulk(&mut self, entities: &[Entity]) -> (r: usize)
        ensures
            final(self).extra_columns() == old(self).extra_columns(),
            r == old(self).entity_seq().len(),
            final(self).entity_seq() == old(self).entity_seq() + entities@,
            final(self).key_view() == old(self).key_view(),
            final(self).column_seqs() == old(self).column_seqs(),
            final(self).add_edge_seq() == old(self).add_edge_seq(),
            final(self).remove_edge_seq() == old(self).remove_edge_seq(),
    {
        let start = self.entities.len();
        let mut i: usize = 0;
        while i < entities.len()
            invariant
                i <= entities@.len(),
                self.entities@ == old(self).entities@ + entities@.subrange(0, i as int),
                self.key == old(self).key,
                self.columns == old(self).columns,
                self.add_edges == old(self).add_edges,
                self.remove_edges == old(self).remove_edges,
                self.extra == old(self).extra,
            decreases entities@.len() - i,
        {
            self.entities.push(entities[i]);
            proof {
                assert(self.entities@ =~= old(self).entities@ + entities@.subrange(0, i as int + 1));
            }
            i = i + 1;
        }
        proof {
            assert(entities@.subrange(0, entities@.len() as int) =~= entities@);
        }
        start
    }

    /// Appends a value to the column of a component id, creating the column
    /// first if the archetype has none for it yet.
    pub fn push_component(&mut self, id: ComponentId, value: V)
        requires
            old(self).shape(),
        ensures
            final(self).shape(),
            final(self).column_of(id.0) == old(self).column_of(id.0).push(value),
            final(self).has_column(id.0),
            forall|i: u64| i != id.0 ==> #[trigger] final(self).column_of(i) == old(self).column_of(i)
                && final(self).has_column(i) == old(self).has_column(i),
            old(self).key_view().id_set().contains(id.0) ==> {
                &&& final(self).column_seqs() == old(self).column_seqs().update(
                    pos_of(old(self).key_view().ids(), id.0),
                    old(self).column_seqs()[pos_of(old(self).key_view().ids(), id.0)].push(value),
                )
                &&& final(self).created_seq() == old(self).created_seq().update(pos_of(old(self).key_view().ids(), id.0), true)
                &&& final(self).extra_columns() == old(self).extra_columns()
            },
            !old(self).key_view().id_set().contains(id.0) ==> final(self).column_seqs() == old(self).column_seqs()
                && final(self).created_seq() == old(self).created_seq(),
            final(self).entity_seq() == old(self).entity_seq(),
            final(self).key_view() == old(self).key_view(),
            final(self).add_edge_seq() == old(self).add_edge_seq(),
            final(self).remove_edge_seq() == old(self).remove_edge_seq(),
    {
        match self.key.position(id) {
            Some(p) => {
                proof {
                    lemma_pos_of_unique(self.key.ids(), id.0, p as int);
                }
                let taken = self.columns[p].take();
                let mut col = match taken {
                    Some(c) => c,
                    None => ColumnData::new(),
                };
                proof {
                    assert(col@ == old(self).column_seqs()[p as int]);
                }
                col.push(value);
                self.columns.set(p, Some(col));
                proof {
                    assert(self.column_seqs() =~= old(self).column_seqs().update(p as int, old(self).column_seqs()[p as int].push(value)));
                    assert(self.created_seq() =~= old(self).created_seq().update(p as int, true));
                    assert(self.extra_columns() == old(self).extra_columns());
                    assert forall|i: u64| i != id.0 implies #[trigger] self.column_of(i) == old(self).column_of(i)
                        && self.has_column(i) == old(self).has_column(i) by {
                        if self.key_view().id_set().contains(i) {
                            let q = pos_of(self.key_view().ids(), i);
                            assert(self.key_view().ids().contains(i));
                            assert(self.key_view().ids()[q] == i);
                        }
                    }
                }
            },
            None => {
                let ghost ex0 = self.extra_columns();
                proof {
                    lemma_extra_pos_spec(ex0, id.0);
                }
                match self.find_extra(id.0) {
                    Some(k) => {
                        let mut entry = ColumnData::new();
                        std::mem::swap(&mut entry, &mut self.extra[k].1);
                        proof {
                            assert(entry@ == ex0[k as int].1);
                        }
                        entry.push(value);
                        let pair = (id.0, entry);
                        self.extra.set(k, pair);
                        proof {
                            let ex1 = self.extra_columns();
                            assert(ex1 =~= ex0.update(k as int, (id.0, ex0[k as int].1.push(value))));
                            lemma_extra_pos_same_ids(ex0, ex1, id.0);
                            assert forall|i: u64| i != id.0 implies #[trigger] self.column_of(i) == old(self).column_of(i)
                                && self.has_column(i) == old(self).has_column(i) by {
                                lemma_extra_pos_same_ids(ex0, ex1, i);
                                if !self.key_view().id_set().contains(i) && extra_pos(ex0, i) >= 0 {
                                    lemma_extra_pos_spec(ex0, i);
                                }
                            }
                        }
                    },
                    None => {
                        let mut col = ColumnData::new();
                        col.push(value);
                        self.extra.push((id.0, col));
                        proof {
                            let ex1 = self.extra_columns();
                            assert(ex1 =~= ex0.push((id.0, seq![value])));
                            assert(old(self).column_of(id.0) == Seq::<V>::empty());
                            assert(seq![value] =~= Seq::<V>::empty().push(value));
                            lemma_extra_pos_push(ex0, (id.0, seq![value]), id.0);
                            assert forall|i: u64| i != id.0 implies #[trigger] self.column_of(i) == old(self).column_of(i)
                                && self.has_column(i) == old(self).has_column(i) by {
                                lemma_extra_pos_push(ex0, (id.0, seq![value]), i);
                                if !self.key_view().id_set().contains(i) && extra_pos(ex0, i) >= 0 {
                                    lemma_extra_pos_spec(ex0, i);
                                    assert(ex1[extra_pos(ex0, i)] == ex0[extra_pos(ex0, i)]);
                                }
                            }
                            assert forall|a: int, b: int| 0 <= a < b < ex1.len() implies #[trigger] ex1[a].0 != #[trigger] ex1[b].0 by {
                                if b == ex0.len() {
                                    assert(ex1[a] == ex0[a]);
                                } else {
                                    assert(ex1[a] == ex0[a] && ex1[b] == ex0[b]);
                                }
                            }
                            assert forall|a: int| 0 <= a < ex1.len() implies !self.key_view().id_set().contains(#[trigger] ex1[a].0) by {
                                if a < ex0.len() {
                                    assert(ex1[a] == ex0[a]);
                                }
                            }
                        }
                    },
                }
            },
        }
        proof {
            assert(forall|i: u64| i != id.0 ==> #[trigger] self.column_of(i) == old(self).column_of(i) && self.has_column(i) == old(self).has_column(i));
        }
    }

    /// Overwrites the value of a component in a row, dropping the old value.
    pub fn set_component(&mut self, row: usize, id: ComponentId, value: V)
        requires
            old(self).shape(),
            row < old(self).column_of(id.0).len(),
        ensures
            final(self).shape(),
            final(self).column_of(id.0) == old(self).column_of(id.0).update(row as int, value),
            forall|i: u64| i != id.0 ==> #[trigger] final(self).column_of(i) == old(self).column_of(i),
            forall|i: u64| #[trigger] final(self).has_column(i) == old(self).has_column(i),
            old(self).key_view().id_set().contains(id.0) ==> final(self).column_seqs() == old(self).column_seqs().update(
                pos_of(old(self).key_view().ids(), id.0),
                old(self).column_seqs()[pos_of(old(self).key_view().ids(), id.0)].update(row as int, value),
            ),
            final(self).entity_seq() == old(self).entity_seq(),
            final(self).key_view() == old(self).key_view(),
            final(self).add_edge_seq() == old(self).add_edge_seq(),
            final(self).remove_edge_seq() == old(self).remove_edge_seq(),
    {
        proof {
            lemma_extra_pos_spec(self.extra_columns(), id.0);
            if self.key_view().id_set().contains(id.0) {
                let p = pos_of(self.key_view().ids(), id.0);
                assert(self.key_view().ids().contains(id.0));
                assert(self.column_seqs()[p] == column_values(self.columns@[p]));
            }
        }
        match self.column_mut(id) {
            Some(c) => {
                c.set(row, value);
            },
            None => {},
        }
        proof {
            let ex0 = old(self).extra_columns();
            let ex1 = self.extra_columns();
            if !self.key_view().id_set().contains(id.0) {
                lemma_extra_pos_spec(ex0, id.0);
                assert forall|a: int| 0 <= a < ex1.len() implies (#[trigger] ex1[a]).0 == ex0[a].0 by {}
            } else {
                assert(ex1 == ex0);
            }
            assert forall|a: int| 0 <= a < ex1.len() implies (#[trigger] ex1[a]).0 == ex0[a].0 by {}
            lemma_extra_pos_same_ids(ex0, ex1, id.0);
            if self.key_view().id_set().contains(id.0) {
                let p = pos_of(self.key_view().ids(), id.0);
                assert(self.column_of(id.0) == self.column_seqs()[p]);
            } else {
                let e = extra_pos(ex0, id.0);
                assert(self.column_of(id.0) == ex1[e].1);
            }
            assert(self.column_of(id.0) =~= old(self).column_of(id.0).update(row as int, value));
            assert forall|i: u64| i != id.0 implies #[trigger] self.column_of(i) == old(self).column_of(i) by {
                lemma_extra_pos_same_ids(ex0, ex1, i);
                lemma_extra_pos_spec(ex0, i);
                if self.key_view().id_set().contains(i) {
                    let q = pos_of(self.key_view().ids(), i);
                    assert(self.key_view().ids().contains(i));
                }
            }
            assert forall|i: u64| #[trigger] self.has_column(i) == old(self).has_column(i) by {
                lemma_extra_pos_same_ids(ex0, ex1, i);
            }
        }
    }

    /// Returns the value of a component in a row, if the archetype has a
    /// column for the component and the row exists in it.
    pub fn get(&self, id: ComponentId, row: usize) -> (r: Option<&V>)
        requires
            self.shape(),
        ensures
            r == (if row < self.column_of(id.0).len() {
                Some(&self.column_of(id.0)[row as int])
            } else {
                None
            }),
    {
        match self.column(id) {
            Some(c) => c.get(row),
            None => None,
        }
    }
}


impl<V> Archetype<V> {
    /// Returns a mutable reference to the value of a component in a row, if
    /// the archetype has a column for the component and the row exists in it.
    pub fn get_mut(&mut self, id: ComponentId, row: usize) -> (r: Option<&mut V>)
        requires
            old(self).shape(),
        ensures
            r is Some <==> row < old(self).column_of(id.0).len(),
            r is None ==> final(self).column_seqs() == old(self).column_seqs() && final(self).extra_columns() == old(self).extra_columns(),
            r matches Some(x) ==> *x == old(self).column_of(id.0)[row as int],
            old(self).key_view().id_set().contains(id.0) ==> final(self).extra_columns() == old(self).extra_columns(),
            r matches Some(x) ==> (old(self).key_view().id_set().contains(id.0) ==> final(self).column_seqs()
                == old(self).column_seqs().update(
                    pos_of(old(self).key_view().ids(), id.0),
                    old(self).column_seqs()[pos_of(old(self).key_view().ids(), id.0)].update(row as int, *final(x)),
                )),
            r matches Some(x) ==> (!old(self).key_view().id_set().contains(id.0) ==> final(self).column_seqs() == old(self).column_seqs()
                && final(self).extra_columns() == old(self).extra_columns().update(
                    extra_pos(old(self).extra_columns(), id.0),
                    (id.0, old(self).column_of(id.0).update(row as int, *final(x))),
                )),
            final(self).entity_seq() == old(self).entity_seq(),
            final(self).key_view() == old(self).key_view(),
            final(self).add_edge_seq() == old(self).add_edge_seq(),
            final(self).remove_edge_seq() == old(self).remove_edge_seq(),
    {
        proof {
            lemma_extra_pos_spec(self.extra_columns(), id.0);
            if self.key_view().id_set().contains(id.0) {
                let p = pos_of(self.key_view().ids(), id.0);
                assert(self.key_view().ids().contains(id.0));
                assert(self.column_seqs()[p] == column_values(self.columns@[p]));
            }
        }
        match self.column_mut(id) {
            Some(c) => c.get_mut(row),
            None => None,
        }
    }

    /// Removes the entity in a row and drops its components, moving the last
    /// row into its place. Returns the entity that moved into the row, if any.
    pub fn swap_remove(&mut self, row: usize) -> (r: Option<Entity>)
        requires
            old(self).wf(),
        ensures
            final(self).extra_columns() == old(self).extra_columns(),
            final(self).wf(),
            final(self).key_view() == old(self).key_view(),
            final(self).add_edge_seq() == old(self).add_edge_seq(),
            final(self).remove_edge_seq() == old(self).remove_edge_seq(),
            row >= old(self).entity_seq().len() ==> r is None && final(self).entity_seq() == old(self).entity_seq()
                && final(self).column_seqs() == old(self).column_seqs(),
            row < old(self).entity_seq().len() ==> {
                &&& final(self).entity_seq() == seq_swap_remove(old(self).entity_seq(), row as int)
                &&& final(self).column_seqs().len() == old(self).column_seqs().len()
                &&& forall|j: int| 0 <= j < final(self).column_seqs().len() ==> #[trigger] final(self).column_seqs()[j]
                    == seq_swap_remove(old(self).column_seqs()[j], row as int)
                &&& r == (if (row as int) < final(self).entity_seq().len() {
                    Some(final(self).entity_seq()[row as int])
                } else {
                    None
                })
            },
    {
        if row >= self.entities.len() {
            return None;
        }
        let (_values, moved) = self.swap_remove_row(row);
        moved
    }

    /// Removes the entity in a row and hands back its components in key
    /// order, moving the last row into its place. Returns the values and the
    /// entity that moved into the row, if any.
    pub fn swap_remove_row(&mut self, row: usize) -> (r: (Vec<V>, Option<Entity>))
        requires
            old(self).wf(),
            row < old(self).entity_seq().len(),
        ensures
            final(self).extra_columns() == old(self).extra_columns(),
            final(self).wf(),
            final(self).key_view() == old(self).key_view(),
            final(self).add_edge_seq() == old(self).add_edge_seq(),
            final(self).remove_edge_seq() == old(self).remove_edge_seq(),
            final(self).entity_seq() == seq_swap_remove(old(self).entity_seq(), row as int),
            final(self).column_seqs().len() == old(self).column_seqs().len(),
            forall|j: int| 0 <= j < final(self).column_seqs().len() ==> #[trigger] final(self).column_seqs()[j]
                == seq_swap_remove(old(self).column_seqs()[j], row as int),
            r.0@.len() == old(self).column_seqs().len(),
            forall|j: int| 0 <= j < r.0@.len() ==> #[trigger] r.0@[j] == old(self).column_seqs()[j][row as int],
            r.1 == (if (row as int) < final(self).entity_seq().len() {
                Some(final(self).entity_seq()[row as int])
            } else {
                None
            }),
    {
        let n = self.columns.len();
        let mut values: Vec<V> = Vec::new();
        let mut j: usize = 0;
        while j < n
            invariant
                j <= n,
                n == self.columns@.len(),
                n == old(self).columns@.len(),
                row < old(self).entity_seq().len(),
                old(self).wf(),
                self.key == old(self).key,
                self.entities == old(self).entities,
                self.add_edges == old(self).add_edges,
                self.remove_edges == old(self).remove_edges,
                self.extra == old(self).extra,
                values@.len() == j,
                forall|k: int| 0 <= k < j ==> #[trigger] values@[k] == column_values(old(self).columns@[k])[row as int],
                forall|k: int| 0 <= k < j ==> column_values(#[trigger] self.columns@[k]) == seq_swap_remove(
                    column_values(old(self).columns@[k]),
                    row as int,
                ),
                forall|k: int| j <= k < n ==> #[trigger] self.columns@[k] == old(self).columns@[k],
            decreases n - j,
        {
            proof {
                assert(old(self).column_seqs()[j as int] == column_values(old(self).columns@[j as int]));
            }
            let taken = self.columns[j].take();
            match taken {
                Some(mut col) => {
                    let v = col.swap_remove(row);
                    values.push(v);
                    self.columns.set(j, Some(col));
                },
                None => {
                    proof {
                        assert(false);
                    }
                },
            }
            j = j + 1;
        }
        self.entities.swap_remove(row);
        let moved = if row < self.entities.len() {
            Some(self.entities[row])
        } else {
            None
        };
        proof {
            assert(self.extra_columns() == old(self).extra_columns());
            assert forall|k: int| 0 <= k < self.column_seqs().len() implies (#[trigger] self.column_seqs()[k]).len() == self.entity_seq().len() by {
                assert(old(self).column_seqs()[k] == column_values(old(self).columns@[k]));
                assert(self.column_seqs()[k] == column_values(self.columns@[k]));
            }
            assert forall|k: int| 0 <= k < self.column_seqs().len() implies #[trigger] self.column_seqs()[k]
                == seq_swap_remove(old(self).column_seqs()[k], row as int) by {
                assert(old(self).column_seqs()[k] == column_values(old(self).columns@[k]));
                assert(self.column_seqs()[k] == column_values(self.columns@[k]));
            }
            assert forall|k: int| 0 <= k < values@.len() implies #[trigger] values@[k] == old(self).column_seqs()[k][row as int] by {
                assert(old(self).column_seqs()[k] == column_values(old(self).columns@[k]));
            }
        }
        (values, moved)
    }

    /// Adds an entity as a new row with its components given in key order.
    /// Returns the row.
    pub fn push_row(&mut self, entity: Entity, values: Vec<V>) -> (r: usize)
        requires
            old(self).wf(),
            values@.len() == old(self).column_seqs().len(),
        ensures
            final(self).extra_columns() == old(self).extra_columns(),
            r == old(self).entity_seq().len(),
            final(self).wf(),
            final(self).key_view() == old(self).key_view(),
            final(self).add_edge_seq() == old(self).add_edge_seq(),
            final(self).remove_edge_seq() == old(self).remove_edge_seq(),
            final(self).entity_seq() == old(self).entity_seq().push(entity),
            final(self).column_seqs().len() == old(self).column_seqs().len(),
            forall|j: int| 0 <= j < final(self).column_seqs().len() ==> #[trigger] final(self).column_seqs()[j]
                == old(self).column_seqs()[j].push(values@[j]),
    {
        let n = self.columns.len();
        let mut values = values;
        let ghost vals = values@;
        let mut j: usize = n;
        while j > 0
            invariant
                j <= n,
                n == self.columns@.len(),
                n == old(self).columns@.len(),
                vals.len() == n,
                values@ == vals.subrange(0, j as int),
                self.key == old(self).key,
                self.entities == old(self).entities,
                self.add_edges == old(self).add_edges,
                self.remove_edges == old(self).remove_edges,
                self.extra == old(self).extra,
                forall|k: int| 0 <= k < j ==> #[trigger] self.columns@[k] == old(self).columns@[k],
                forall|k: int| j <= k < n ==> column_values(#[trigger] self.columns@[k]) == column_values(old(self).columns@[k]).push(vals[k])
                    && self.columns@[k] is Some,
            decreases j,
        {
            let v = values.pop().unwrap();
            proof {
                assert(v == vals[j - 1]);
                assert(values@ =~= vals.subrange(0, j as int - 1));
            }
            let taken = self.columns[j - 1].take();
            let mut col = match taken {
                Some(c) => c,
                None => ColumnData::new(),
            };
            proof {
                assert(col@ == column_values(old(self).columns@[j - 1]));
            }
            col.push(v);
            self.columns.set(j - 1, Some(col));
            j = j - 1;
        }
        let index = self.entities.len();
        self.entities.push(entity);
        proof {
            assert(self.extra_columns() == old(self).extra_columns());
            assert forall|k: int| 0 <= k < self.column_seqs().len() implies (#[trigger] self.column_seqs()[k]).len() == self.entity_seq().len() by {
                assert(old(self).column_seqs()[k] == column_values(old(self).columns@[k]));
                assert(self.column_seqs()[k] == column_values(self.columns@[k]));
            }
            assert forall|k: int| 0 <= k < self.column_seqs().len() implies #[trigger] self.column_seqs()[k]
                == old(self).column_seqs()[k].push(vals[k]) by {
                assert(old(self).column_seqs()[k] == column_values(old(self).columns@[k]));
                assert(self.column_seqs()[k] == column_values(self.columns@[k]));
            }
        }
        index
    }

    /// The cached target of adding a component id, if any.
    pub fn add_edge(&self, id: ComponentId) -> (r: Option<usize>)
        ensures
            match r {
                Some(t) => self.add_edge_seq().contains((id.0, t)),
                None => forall|k: int| 0 <= k < self.add_edge_seq().len() ==> (#[trigger] self.add_edge_seq()[k]).0 != id.0,
            },
    {
        find_edge(&self.add_edges, id.0)
    }

    /// Caches the target of adding a component id.
    pub fn set_add_edge(&mut self, id: ComponentId, target: usize)
        ensures
            final(self).extra_columns() == old(self).extra_columns(),
            final(self).add_edge_seq() == old(self).add_edge_seq().push((id.0, target)),
            final(self).entity_seq() == old(self).entity_seq(),
            final(self).key_view() == old(self).key_view(),
            final(self).column_seqs() == old(self).column_seqs(),
            final(self).remove_edge_seq() == old(self).remove_edge_seq(),
    {
        self.add_edges.push((id.0, target));
    }

    /// The cached target of removing a component id, if any.
    pub fn remove_edge(&self, id: ComponentId) -> (r: Option<usize>)
        ensures
            match r {
                Some(t) => self.remove_edge_seq().contains((id.0, t)),
                None => forall|k: int| 0 <= k < self.remove_edge_seq().len() ==> (#[trigger] self.remove_edge_seq()[k]).0 != id.0,
            },
    {
        find_edge(&self.remove_edges, id.0)
    }

    /// Caches the target of removing a component id.
    pub fn set_remove_edge(&mut self, id: ComponentId, target: usize)
        ensures
            final(self).extra_columns() == old(self).extra_columns(),
            final(self).remove_edge_seq() == old(self).remove_edge_seq().push((id.0, target)),
            final(self).entity_seq() == old(self).entity_seq(),
            final(self).key_view() == old(self).key_view(),
            final(self).column_seqs() == old(self).column_seqs(),
            final(self).add_edge_seq() == old(self).add_edge_seq(),
    {
        self.remove_edges.push((id.0, target));
    }
}

/// Looks up an id in a list of cached transitions.
fn find_edge(edges: &Vec<(u64, usize)>, id: u64) -> (r: Option<usize>)
    ensures
        match r {
            Some(t) => edges@.contains((id, t)),
            None => forall|k: int| 0 <= k < edges@.len() ==> (#[trigger] edges@[k]).0 != id,
        },
{
    let mut i: usize = 0;
    while i < edges.len()
        invariant
            i <= edges@.len(),
            forall|k: int| 0 <= k < i ==> (#[trigger] edges@[k]).0 != id,
        decreases edges@.len() - i,
    {
        let e = edges[i];
        if e.0 == id {
            assert(edges@[i as int] == e);
            assert(e == (id, e.1));
            return Some(e.1);
        }
        i = i + 1;
    }
    None
}

} // verus!
