//! The archetypes a query visits: those that hold every component type the
//! query requires and none that its filter excludes, kept in a state that
//! scans only the archetypes added since the last run.

use vstd::prelude::*;
use core::marker::PhantomData;
use crate::component::{Component, ComponentId};
use crate::archetype::archetypes::{Archetypes, increasing};

verus! {

/// Filters of a query: component types an entity must have and types it
/// must not have.
pub trait QueryFilter {
    /// The ids the filter requires.
    spec fn spec_required() -> Seq<ComponentId>;

    /// The ids the filter excludes.
    spec fn spec_excluded() -> Seq<ComponentId>;

    /// Returns the ids the filter requires.
    fn required_types() -> (r: Vec<ComponentId>)
        ensures
            r@ == Self::spec_required();

    /// Returns the ids the filter excludes.
    fn excluded_types() -> (r: Vec<ComponentId>)
        ensures
            r@ == Self::spec_excluded();
}

/// Filter that requires component `T`.
pub struct With<T: Component>(PhantomData<T>);

/// Filter that requires an entity to not have component `T`.
pub struct Without<T: Component>(PhantomData<T>);

impl QueryFilter for () {
    open spec fn spec_required() -> Seq<ComponentId> {
        Seq::empty()
    }

    open spec fn spec_excluded() -> Seq<ComponentId> {
        Seq::empty()
    }

    fn required_types() -> (r: Vec<ComponentId>) {
        Vec::new()
    }

    fn excluded_types() -> (r: Vec<ComponentId>) {
        Vec::new()
    }
}

impl<T: Component> QueryFilter for With<T> {
    open spec fn spec_required() -> Seq<ComponentId> {
        seq![T::spec_component_id()]
    }

    open spec fn spec_excluded() -> Seq<ComponentId> {
        Seq::empty()
    }

    fn required_types() -> (r: Vec<ComponentId>) {
        let mut v = Vec::new();
        v.push(T::component_id());
        proof {
            assert(v@ =~= seq![T::spec_component_id()]);
        }
        v
    }

    fn excluded_types() -> (r: Vec<ComponentId>) {
        Vec::new()
    }
}

impl<T: Component> QueryFilter for Without<T> {
    open spec fn spec_required() -> Seq<ComponentId> {
        Seq::empty()
    }

    open spec fn spec_excluded() -> Seq<ComponentId> {
        seq![T::spec_component_id()]
    }

    fn required_types() -> (r: Vec<ComponentId>) {
        Vec::new()
    }

    fn excluded_types() -> (r: Vec<ComponentId>) {
        let mut v = Vec::new();
        v.push(T::component_id());
        proof {
            assert(v@ =~= seq![T::spec_component_id()]);
        }
        v
    }
}

impl<A: QueryFilter, B: QueryFilter> QueryFilter for (A, B) {
    open spec fn spec_required() -> Seq<ComponentId> {
        A::spec_required() + B::spec_required()
    }

    open spec fn spec_excluded() -> Seq<ComponentId> {
        A::spec_excluded() + B::spec_excluded()
    }

    fn required_types() -> (r: Vec<ComponentId>) {
        let mut v = A::required_types();
        let mut w = B::required_types();
        v.append(&mut w);
        v
    }

    fn excluded_types() -> (r: Vec<ComponentId>) {
        let mut v = A::excluded_types();
        let mut w = B::excluded_types();
        v.append(&mut w);
        v
    }
}

/// A pair of filters requires every id that either member requires and
/// excludes every id that either member excludes, so a query filtered by
/// the pair visits exactly the archetypes that both members let through.
pub proof fn law_pair_filter<V, A: QueryFilter, B: QueryFilter>(archetypes: Archetypes<V>, a: int)
    ensures
        forall|id: ComponentId| #[trigger] <(A, B) as QueryFilter>::spec_required().contains(id)
            <==> (A::spec_required().contains(id) || B::spec_required().contains(id)),
        forall|id: ComponentId| #[trigger] <(A, B) as QueryFilter>::spec_excluded().contains(id)
            <==> (A::spec_excluded().contains(id) || B::spec_excluded().contains(id)),
        visits(archetypes, a, <(A, B) as QueryFilter>::spec_required(), <(A, B) as QueryFilter>::spec_excluded())
            <==> (visits(archetypes, a, A::spec_required(), A::spec_excluded()) && visits(
            archetypes,
            a,
            B::spec_required(),
            B::spec_excluded(),
        )),
{
    lemma_concat_contains(A::spec_required(), B::spec_required());
    lemma_concat_contains(A::spec_excluded(), B::spec_excluded());
    let ra = A::spec_required();
    let rb = B::spec_required();
    let ea = A::spec_excluded();
    let eb = B::spec_excluded();
    let r = ra + rb;
    let e = ea + eb;
    if archetypes.holds_all(a, r) {
        assert forall|k: int| 0 <= k < ra.len() implies archetypes.key_set(a).contains(#[trigger] ra[k].0) by {
            assert(r[k] == ra[k]);
        }
        assert forall|k: int| 0 <= k < rb.len() implies archetypes.key_set(a).contains(#[trigger] rb[k].0) by {
            assert(r[ra.len() + k] == rb[k]);
        }
    }
    if archetypes.holds_all(a, ra) && archetypes.holds_all(a, rb) {
        assert forall|k: int| 0 <= k < r.len() implies archetypes.key_set(a).contains(#[trigger] r[k].0) by {
            if k < ra.len() {
                assert(r[k] == ra[k]);
            } else {
                assert(r[k] == rb[k - ra.len()]);
            }
        }
    }
    if archetypes.holds_none(a, e) {
        assert forall|k: int| 0 <= k < ea.len() implies !archetypes.key_set(a).contains(#[trigger] ea[k].0) by {
            assert(e[k] == ea[k]);
        }
        assert forall|k: int| 0 <= k < eb.len() implies !archetypes.key_set(a).contains(#[trigger] eb[k].0) by {
            assert(e[ea.len() + k] == eb[k]);
        }
    }
    if archetypes.holds_none(a, ea) && archetypes.holds_none(a, eb) {
        assert forall|k: int| 0 <= k < e.len() implies !archetypes.key_set(a).contains(#[trigger] e[k].0) by {
            if k < ea.len() {
                assert(e[k] == ea[k]);
            } else {
                assert(e[k] == eb[k - ea.len()]);
            }
        }
    }
}

/// An id occurs in a concatenation exactly when it occurs in one of the
/// parts.
proof fn lemma_concat_contains(a: Seq<ComponentId>, b: Seq<ComponentId>)
    ensures
        forall|id: ComponentId| #[trigger] (a + b).contains(id) <==> (a.contains(id) || b.contains(id)),
{
    assert forall|id: ComponentId| #[trigger] (a + b).contains(id) <==> (a.contains(id) || b.contains(id)) by {
        if (a + b).contains(id) {
            let i = choose|i: int| 0 <= i < (a + b).len() && (a + b)[i] == id;
            if i < a.len() {
                assert(a[i] == id);
            } else {
                assert(b[i - a.len()] == id);
            }
        }
        if a.contains(id) {
            let i = choose|i: int| 0 <= i < a.len() && a[i] == id;
            assert((a + b)[i] == id);
        }
        if b.contains(id) {
            let i = choose|i: int| 0 <= i < b.len() && b[i] == id;
            assert((a + b)[a.len() + i] == id);
        }
    }
}

/// Whether the archetype at an index is one a query visits.
pub open spec fn visits<V>(archetypes: Archetypes<V>, a: int, required: Seq<ComponentId>, excluded: Seq<ComponentId>) -> bool {
    &&& 0 <= a < archetypes.archs().len()
    &&& archetypes.holds_all(a, required)
    &&& archetypes.holds_none(a, excluded)
}

/// The archetypes a query has found so far, and how many archetypes it has
/// looked at.
pub struct QueryState {
    matching_archetypes: Vec<usize>,
    last_archetype_count: usize,
}

impl QueryState {
    /// The indices of the archetypes found, in increasing order.
    pub closed spec fn found(&self) -> Seq<usize> {
        self.matching_archetypes@
    }

    /// The number of archetypes looked at.
    pub closed spec fn scanned(&self) -> nat {
        self.last_archetype_count as nat
    }

    /// The state is exact for the first archetypes, up to the number looked
    /// at: it holds, in increasing order, those the query visits.
    pub open spec fn covers<V>(&self, archetypes: Archetypes<V>, required: Seq<ComponentId>, excluded: Seq<ComponentId>) -> bool {
        &&& self.scanned() <= archetypes.archs().len()
        &&& increasing(self.found())
        &&& forall|x: usize| #[trigger] self.found().contains(x) <==> ((x as int) < self.scanned() && visits(archetypes, x as int, required, excluded))
    }

    /// A state that has looked at no archetype.
    pub fn new() -> (r: QueryState)
        ensures
            r.scanned() == 0,
            r.found() == Seq::<usize>::empty(),
    {
        QueryState { matching_archetypes: Vec::new(), last_archetype_count: 0 }
    }

    /// Returns the indices of the archetypes found, in increasing order.
    pub fn matching(&self) -> (r: &Vec<usize>)
        ensures
            r@ == self.found(),
    {
        &self.matching_archetypes
    }

    /// Brings the state up to date with the archetypes: the first time with
    /// the reverse index, afterwards by looking only at the archetypes added
    /// since.
    pub fn update<V>(&mut self, archetypes: &Archetypes<V>, required: &[ComponentId], excluded: &[ComponentId])
        requires
            archetypes.wf(),
            old(self).covers(*archetypes, required@, excluded@),
        ensures
            final(self).covers(*archetypes, required@, excluded@),
            final(self).scanned() == archetypes.archs().len(),
    {
        let count = archetypes.len();
        if self.last_archetype_count < count {
            if self.last_archetype_count == 0 {
                self.matching_archetypes = archetypes.matching_filtered(required, excluded);
            } else {
                let mut i = self.last_archetype_count;
                proof {
                    assert forall|m: int| 0 <= m < self.matching_archetypes@.len() implies (#[trigger] self.matching_archetypes@[m] as int)
                        < i by {
                        assert(self.matching_archetypes@.contains(self.matching_archetypes@[m]));
                    }
                }
                while i < count
                    invariant
                        count == archetypes.archs().len(),
                        archetypes.wf(),
                        0 < self.last_archetype_count <= i <= count,
                        increasing(self.matching_archetypes@),
                        forall|m: int| 0 <= m < self.matching_archetypes@.len() ==> (#[trigger] self.matching_archetypes@[m] as int) < i,
                        forall|x: usize| #[trigger] self.matching_archetypes@.contains(x) <==> ((x as int) < i && visits(
                            *archetypes,
                            x as int,
                            required@,
                            excluded@,
                        )),
                    decreases count - i,
                {
                    let archetype = archetypes.get(i).unwrap();
                    let key = archetype.key();
                    let has_required = key.contains_all(required);
                    let mut not_excluded = true;
                    let mut k: usize = 0;
                    while k < excluded.len()
                        invariant
                            k <= excluded@.len(),
                            not_excluded == (forall|j: int| 0 <= j < k ==> !key.id_set().contains(#[trigger] excluded@[j].0)),
                        decreases excluded@.len() - k,
                    {
                        if key.contains(excluded[k]) {
                            not_excluded = false;
                        }
                        k = k + 1;
                    }
                    proof {
                        assert(archetypes.key_set(i as int) == key.id_set());
                    }
                    let ghost before = self.matching_archetypes@;
                    if has_required && not_excluded {
                        self.matching_archetypes.push(i);
                        proof {
                            assert forall|x: usize| #[trigger] self.matching_archetypes@.contains(x) <==> ((x as int) < i + 1 && visits(
                                *archetypes,
                                x as int,
                                required@,
                                excluded@,
                            )) by {
                                if self.matching_archetypes@.contains(x) && x != i {
                                    let m = choose|m: int| 0 <= m < self.matching_archetypes@.len() && self.matching_archetypes@[m] == x;
                                    assert(before[m] == x);
                                    assert(before.contains(x));
                                }
                                if x < i && visits(*archetypes, x as int, required@, excluded@) {
                                    assert(before.contains(x));
                                    let m = choose|m: int| 0 <= m < before.len() && before[m] == x;
                                    assert(self.matching_archetypes@[m] == x);
                                }
                                if x == i {
                                    assert(self.matching_archetypes@[before.len() as int] == x);
                                }
                            }
                        }
                    } else {
                        proof {
                            assert(!visits(*archetypes, i as int, required@, excluded@));
                        }
                    }
                    i = i + 1;
                }
            }
            self.last_archetype_count = count;
        }
    }
}

/// Returns the archetypes, in increasing order of index, that a query
/// visits and that hold at least one entity: the matches of a query made
/// without a cached state.
pub fn matching_nonempty<V>(archetypes: &Archetypes<V>, required: &[ComponentId], excluded: &[ComponentId]) -> (r: Vec<usize>)
    requires
        archetypes.wf(),
    ensures
        increasing(r@),
        forall|x: usize| #[trigger] r@.contains(x) <==> (visits(*archetypes, x as int, required@, excluded@)
            && archetypes.archs()[x as int].entity_seq().len() > 0),
{
    let all = archetypes.matching_filtered(required, excluded);
    let mut out: Vec<usize> = Vec::new();
    let mut k: usize = 0;
    while k < all.len()
        invariant
            k <= all@.len(),
            archetypes.wf(),
            increasing(all@),
            forall|x: usize| all@.contains(x) <==> ((x as int) < archetypes.archs().len() && archetypes.holds_all(x as int, required@)
                && archetypes.holds_none(x as int, excluded@)),
            increasing(out@),
            forall|m: int| 0 <= m < out@.len() ==> exists|j: int| 0 <= j < k && all@[j] == #[trigger] out@[m],
            forall|x: usize| #[trigger] out@.contains(x) <==> (exists|j: int| 0 <= j < k && all@[j] == x)
                && archetypes.archs()[x as int].entity_seq().len() > 0,
        decreases all@.len() - k,
    {
        let a = all[k];
        proof {
            assert(all@.contains(a));
        }
        let archetype = archetypes.get(a).unwrap();
        let ghost before = out@;
        if archetype.len() > 0 {
            out.push(a);
            proof {
                assert forall|m: int| 0 <= m < out@.len() implies exists|j: int| 0 <= j < k + 1 && all@[j] == #[trigger] out@[m] by {
                    if m < before.len() {
                        assert(out@[m] == before[m]);
                    } else {
                        assert(all@[k as int] == out@[m]);
                    }
                }
                assert forall|m1: int, m2: int| 0 <= m1 < m2 < out@.len() implies out@[m1] < out@[m2] by {
                    if m2 == before.len() {
                        let j = choose|j: int| 0 <= j < k && all@[j] == #[trigger] before[m1];
                        assert(out@[m1] == before[m1]);
                    } else {
                        assert(out@[m1] == before[m1]);
                        assert(out@[m2] == before[m2]);
                    }
                }
                assert forall|x: usize| #[trigger] out@.contains(x) <==> (exists|j: int| 0 <= j < k + 1 && all@[j] == x)
                    && archetypes.archs()[x as int].entity_seq().len() > 0 by {
                    if out@.contains(x) {
                        let m = choose|m: int| 0 <= m < out@.len() && out@[m] == x;
                        if m < before.len() {
                            assert(before[m] == x);
                            assert(before.contains(x));
                        }
                    }
                    if exists|j: int| 0 <= j < k + 1 && all@[j] == x {
                        if archetypes.archs()[x as int].entity_seq().len() > 0 {
                            let j = choose|j: int| 0 <= j < k + 1 && all@[j] == x;
                            if j < k {
                                assert(before.contains(x));
                                let m = choose|m: int| 0 <= m < before.len() && before[m] == x;
                                assert(out@[m] == x);
                            } else {
                                assert(out@[before.len() as int] == x);
                            }
                        }
                    }
                }
            }
        } else {
            proof {
                assert forall|x: usize| #[trigger] out@.contains(x) <==> (exists|j: int| 0 <= j < k + 1 && all@[j] == x)
                    && archetypes.archs()[x as int].entity_seq().len() > 0 by {
                    if exists|j: int| 0 <= j < k + 1 && all@[j] == x {
                        let j = choose|j: int| 0 <= j < k + 1 && all@[j] == x;
                        if j == k && archetypes.archs()[x as int].entity_seq().len() > 0 {
                            assert(false);
                        }
                    }
                }
                assert forall|m: int| 0 <= m < out@.len() implies exists|j: int| 0 <= j < k + 1 && all@[j] == #[trigger] out@[m] by {
                    let j = choose|j: int| 0 <= j < k && all@[j] == #[trigger] out@[m];
                }
            }
        }
        k = k + 1;
    }
    proof {
        assert forall|x: usize| #[trigger] out@.contains(x) <==> (visits(*archetypes, x as int, required@, excluded@)
            && archetypes.archs()[x as int].entity_seq().len() > 0) by {
            if visits(*archetypes, x as int, required@, excluded@) {
                assert(all@.contains(x));
            }
            if exists|j: int| 0 <= j < k && all@[j] == x {
                let j = choose|j: int| 0 <= j < k && all@[j] == x;
                assert(all@.contains(x));
            }
        }
    }
    out
}

} // verus!
