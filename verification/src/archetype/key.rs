//! `ArchetypeKey`: the set of component ids that an archetype stores.

use vstd::prelude::*;
use crate::component::ComponentId;

verus! {

/// A sequence in strictly increasing order.
pub open spec fn strictly_sorted(s: Seq<u64>) -> bool {
    forall|i: int, j: int| 0 <= i < j < s.len() ==> s[i] < s[j]
}

/// Two strictly increasing sequences with the same elements are equal.
pub proof fn lemma_sorted_same_set_equal(a: Seq<u64>, b: Seq<u64>)
    requires
        strictly_sorted(a),
        strictly_sorted(b),
        a.to_set() == b.to_set(),
    ensures
        a == b,
    decreases a.len(),
{
    if a.len() == 0 {
        if b.len() > 0 {
            assert(b.to_set().contains(b[0]));
            assert(a.to_set().contains(b[0]));
        }
        assert(b.len() == 0);
    } else {
        assert(a.to_set().contains(a[0]));
        assert(b.to_set().contains(a[0]));
        assert(b.len() > 0);
        assert(a.to_set().contains(b[0]));
        let ka = choose|k: int| 0 <= k < a.len() && a[k] == b[0];
        let kb = choose|k: int| 0 <= k < b.len() && b[k] == a[0];
        assert(a[0] <= a[ka]);
        assert(b[0] <= b[kb]);
        assert(a[0] == b[0]);
        let a1 = a.drop_first();
        let b1 = b.drop_first();
        assert forall|x: u64| a1.to_set().contains(x) implies b1.to_set().contains(x) by {
            let k = choose|k: int| 0 <= k < a1.len() && a1[k] == x;
            assert(a[k + 1] == x);
            assert(b.to_set().contains(x));
            let m = choose|m: int| 0 <= m < b.len() && b[m] == x;
            assert(x > a[0]);
            assert(m != 0);
            assert(b1[m - 1] == x);
        }
        assert forall|x: u64| b1.to_set().contains(x) implies a1.to_set().contains(x) by {
            let k = choose|k: int| 0 <= k < b1.len() && b1[k] == x;
            assert(b[k + 1] == x);
            assert(a.to_set().contains(x));
            let m = choose|m: int| 0 <= m < a.len() && a[m] == x;
            assert(x > b[0]);
            assert(m != 0);
            assert(a1[m - 1] == x);
        }
        assert(a1.to_set() =~= b1.to_set());
        lemma_sorted_same_set_equal(a1, b1);
        assert(a =~= seq![a[0]] + a1);
        assert(b =~= seq![b[0]] + b1);
    }
}

/// The raw values of a sequence of component ids.
pub open spec fn raw_ids(s: Seq<ComponentId>) -> Seq<u64> {
    s.map_values(|c: ComponentId| c.0)
}

/// Identifies a unique combination of component types. The ids are kept
/// sorted without repetition, so equal sets have equal representations.
#[derive(Debug)]
pub struct ArchetypeKey {
    types: Vec<u64>,
}

impl ArchetypeKey {
    #[verifier::type_invariant]
    spec fn sorted_inv(self) -> bool {
        strictly_sorted(self.types@)
    }

    /// The ids of the key, in increasing order.
    pub closed spec fn ids(&self) -> Seq<u64> {
        self.types@
    }

    /// The ids of the key as a set.
    pub open spec fn id_set(&self) -> Set<u64> {
        self.ids().to_set()
    }

    /// The ids are strictly increasing.
    pub fn check_sorted(&self)
        ensures
            strictly_sorted(self.ids()),
    {
        proof {
            use_type_invariant(self);
        }
    }

    /// Keys with the same set of ids have the same representation.
    pub proof fn lemma_set_determines_ids(&self, other: &ArchetypeKey)
        requires
            strictly_sorted(self.ids()),
            strictly_sorted(other.ids()),
            self.id_set() == other.id_set(),
        ensures
            self.ids() == other.ids(),
    {
        lemma_sorted_same_set_equal(self.ids(), other.ids());
    }

    /// The ids of the key, in increasing order.
    pub fn id_vec(&self) -> (r: &Vec<u64>)
        ensures
            r@ == self.ids(),
    {
        &self.types
    }

    /// Gives up the key for its ids, in increasing order.
    pub fn into_ids(self) -> (r: Vec<u64>)
        ensures
            r@ == self.ids(),
    {
        self.types
    }

    /// Creates the key of the given component types (repetitions collapse).
    pub fn new(types: Vec<ComponentId>) -> (r: ArchetypeKey)
        ensures
            r.id_set() == raw_ids(types@).to_set(),
    {
        let mut ids: Vec<u64> = Vec::new();
        let mut i: usize = 0;
        while i < types.len()
            invariant
                i <= types@.len(),
                strictly_sorted(ids@),
                ids@.to_set() == raw_ids(types@.subrange(0, i as int)).to_set(),
            decreases types@.len() - i,
        {
            let id = types[i].0;
            let ghost before = ids@;
            if !sorted_contains(&ids, id) {
                insert_sorted(&mut ids, id);
            }
            proof {
                let s0 = raw_ids(types@.subrange(0, i as int));
                let s1 = raw_ids(types@.subrange(0, i as int + 1));
                assert(s1 =~= s0.push(id));
                assert(s1.to_set() =~= s0.to_set().insert(id)) by {
                    s0.lemma_push_to_set_commute(id);
                }
                assert(ids@.to_set() =~= before.to_set().insert(id));
            }
            i = i + 1;
        }
        proof {
            assert(types@.subrange(0, types@.len() as int) =~= types@);
        }
        ArchetypeKey { types: ids }
    }

    /// The empty key.
    pub fn empty() -> (r: ArchetypeKey)
        ensures
            r.ids() == Seq::<u64>::empty(),
            r.id_set() == Set::<u64>::empty(),
    {
        let r = ArchetypeKey { types: Vec::new() };
        assert(r.ids().to_set() =~= Set::<u64>::empty());
        r
    }

    /// Returns the component ids in this key, in increasing order.
    pub fn iter(&self) -> (r: Vec<ComponentId>)
        ensures
            raw_ids(r@) == self.ids(),
    {
        let mut out: Vec<ComponentId> = Vec::new();
        let mut i: usize = 0;
        while i < self.types.len()
            invariant
                i <= self.ids().len(),
                raw_ids(out@) == self.ids().subrange(0, i as int),
                out@.len() == i,
            decreases self.ids().len() - i,
        {
            let ghost prev = out@;
            out.push(ComponentId(self.types[i]));
            proof {
                assert(out@ == prev.push(ComponentId(self.types@[i as int])));
                assert forall|k: int| 0 <= k < i + 1 implies #[trigger] raw_ids(out@)[k] == self.ids().subrange(0, i as int + 1)[k] by {
                    if k < i {
                        assert(out@[k] == prev[k]);
                        assert(raw_ids(prev)[k] == self.ids().subrange(0, i as int)[k]);
                    }
                }
                assert(raw_ids(out@) =~= self.ids().subrange(0, i as int + 1));
            }
            i = i + 1;
        }
        proof {
            assert(self.ids().subrange(0, self.ids().len() as int) =~= self.ids());
        }
        out
    }

    /// Returns the raw id at a position of the sorted list.
    pub fn id_at(&self, pos: usize) -> (r: u64)
        requires
            pos < self.ids().len(),
        ensures
            r == self.ids()[pos as int],
    {
        self.types[pos]
    }

    /// Returns the number of component types in this key.
    pub fn len(&self) -> (r: usize)
        ensures
            r == self.ids().len(),
            r == self.id_set().len(),
    {
        proof {
            use_type_invariant(self);
            self.types@.unique_seq_to_set();
        }
        self.types.len()
    }

    /// Returns whether this key has no component types.
    pub fn is_empty(&self) -> (r: bool)
        ensures
            r == (self.id_set().len() == 0),
            r == (self.ids().len() == 0),
    {
        self.len() == 0
    }

    /// Returns whether this key contains the given type.
    pub fn contains(&self, ty: ComponentId) -> (r: bool)
        ensures
            r == self.id_set().contains(ty.0),
    {
        sorted_contains(&self.types, ty.0)
    }

    /// Returns the position of a type in the sorted list, if present.
    pub fn position(&self, ty: ComponentId) -> (r: Option<usize>)
        ensures
            match r {
                Some(p) => p < self.ids().len() && self.ids()[p as int] == ty.0,
                None => !self.id_set().contains(ty.0),
            },
    {
        let mut i: usize = 0;
        while i < self.types.len()
            invariant
                i <= self.ids().len(),
                forall|k: int| 0 <= k < i ==> self.ids()[k] != ty.0,
            decreases self.ids().len() - i,
        {
            if self.types[i] == ty.0 {
                return Some(i);
            }
            i = i + 1;
        }
        None
    }

    /// Returns whether this key contains all the given types.
    pub fn contains_all(&self, types: &[ComponentId]) -> (r: bool)
        ensures
            r == (forall|k: int| 0 <= k < types@.len() ==> self.id_set().contains(#[trigger] types@[k].0)),
    {
        let mut i: usize = 0;
        while i < types.len()
            invariant
                i <= types@.len(),
                forall|k: int| 0 <= k < i ==> self.id_set().contains(#[trigger] types@[k].0),
            decreases types@.len() - i,
        {
            if !self.contains(types[i]) {
                return false;
            }
            i = i + 1;
        }
        true
    }

    /// Returns whether two keys hold the same component types.
    pub fn same_types(&self, other: &ArchetypeKey) -> (r: bool)
        ensures
            r == (self.id_set() == other.id_set()),
            r == (self.ids() == other.ids()),
    {
        proof {
            use_type_invariant(self);
            use_type_invariant(other);
        }
        if self.types.len() != other.types.len() {
            proof {
                if self.id_set() == other.id_set() {
                    self.lemma_set_determines_ids(other);
                }
            }
            return false;
        }
        let mut i: usize = 0;
        while i < self.types.len()
            invariant
                i <= self.ids().len(),
                self.ids().len() == other.ids().len(),
                strictly_sorted(self.ids()),
                strictly_sorted(other.ids()),
                forall|k: int| 0 <= k < i ==> self.ids()[k] == other.ids()[k],
            decreases self.ids().len() - i,
        {
            if self.types[i] != other.types[i] {
                proof {
                    if self.id_set() == other.id_set() {
                        self.lemma_set_determines_ids(other);
                    }
                }
                return false;
            }
            i = i + 1;
        }
        assert(self.ids() =~= other.ids());
        true
    }

    /// Returns a copy of this key.
    pub fn duplicate(&self) -> (r: ArchetypeKey)
        ensures
            r.ids() == self.ids(),
            r.id_set() == self.id_set(),
    {
        proof {
            use_type_invariant(self);
        }
        let mut out: Vec<u64> = Vec::new();
        let mut i: usize = 0;
        while i < self.types.len()
            invariant
                i <= self.ids().len(),
                strictly_sorted(self.ids()),
                out@ == self.ids().subrange(0, i as int),
            decreases self.ids().len() - i,
        {
            out.push(self.types[i]);
            proof {
                assert(out@ =~= self.ids().subrange(0, i as int + 1));
            }
            i = i + 1;
        }
        assert(out@ =~= self.ids());
        ArchetypeKey { types: out }
    }

    /// Creates a key with one more type. Returns `None` if the type is
    /// already present.
    pub fn with_type(&self, ty: ComponentId) -> (r: Option<ArchetypeKey>)
        ensures
            match r {
                Some(k) => !self.id_set().contains(ty.0) && k.id_set() == self.id_set().insert(ty.0),
                None => self.id_set().contains(ty.0),
            },
    {
        if self.contains(ty) {
            return None;
        }
        let mut k = self.duplicate();
        proof {
            use_type_invariant(&k);
        }
        let mut types = k.types;
        insert_sorted(&mut types, ty.0);
        Some(ArchetypeKey { types })
    }

    /// Creates a key with several more types. Returns `None` if every type is
    /// already present; otherwise only the missing ones are added.
    pub fn with_types(&self, tys: &[ComponentId]) -> (r: Option<ArchetypeKey>)
        ensures
            match r {
                Some(k) => k.id_set() == self.id_set().union(raw_ids(tys@).to_set())
                    && !raw_ids(tys@).to_set().subset_of(self.id_set()),
                None => raw_ids(tys@).to_set().subset_of(self.id_set()),
            },
    {
        let k = self.duplicate();
        proof {
            use_type_invariant(&k);
        }
        let mut types = k.types;
        let mut any_added = false;
        let mut i: usize = 0;
        while i < tys.len()
            invariant
                i <= tys@.len(),
                strictly_sorted(types@),
                types@.to_set() == self.id_set().union(raw_ids(tys@.subrange(0, i as int)).to_set()),
                any_added == !raw_ids(tys@.subrange(0, i as int)).to_set().subset_of(self.id_set()),
            decreases tys@.len() - i,
        {
            let id = tys[i].0;
            let ghost before = types@;
            if !sorted_contains(&types, id) {
                insert_sorted(&mut types, id);
                any_added = true;
            }
            proof {
                let s0 = raw_ids(tys@.subrange(0, i as int));
                let s1 = raw_ids(tys@.subrange(0, i as int + 1));
                assert(s1 =~= s0.push(id));
                s0.lemma_push_to_set_commute(id);
                assert(types@.to_set() =~= before.to_set().insert(id));
                assert(types@.to_set() =~= self.id_set().union(s1.to_set()));
                if !s0.to_set().subset_of(self.id_set()) {
                    assert(!s1.to_set().subset_of(self.id_set()));
                }
                assert(s1.to_set() =~= s0.to_set().insert(id));
                if !self.id_set().contains(id) {
                    assert(s1.to_set().contains(id));
                    if before.to_set().contains(id) {
                        assert(s0.to_set().contains(id));
                        assert(!s0.to_set().subset_of(self.id_set()));
                    }
                } else {
                    assert(before.to_set().contains(id));
                    if s0.to_set().subset_of(self.id_set()) {
                        assert(s1.to_set().subset_of(self.id_set()));
                    }
                }
            }
            i = i + 1;
        }
        proof {
            assert(tys@.subrange(0, tys@.len() as int) =~= tys@);
        }
        if any_added {
            Some(ArchetypeKey { types })
        } else {
            None
        }
    }

    /// Creates a key without the given type. Returns `None` if the type is
    /// not present.
    pub fn without_type(&self, ty: ComponentId) -> (r: Option<ArchetypeKey>)
        ensures
            match r {
                Some(k) => self.id_set().contains(ty.0) && k.id_set() == self.id_set().remove(ty.0),
                None => !self.id_set().contains(ty.0),
            },
    {
        match self.position(ty) {
            None => None,
            Some(p) => {
                let k = self.duplicate();
                proof {
                    use_type_invariant(&k);
                }
                let mut types = k.types;
                let ghost before = types@;
                types.remove(p);
                proof {
                    assert forall|a: int, b: int| 0 <= a < b < types@.len() implies types@[a] < types@[b] by {
                        if a >= p {
                            assert(types@[a] == before[a + 1]);
                        }
                        if b >= p {
                            assert(types@[b] == before[b + 1]);
                        }
                    }
                    assert forall|x: u64| types@.to_set().contains(x) == before.to_set().remove(ty.0).contains(x) by {
                        if types@.to_set().contains(x) {
                            let m = choose|m: int| 0 <= m < types@.len() && types@[m] == x;
                            if m < p {
                                assert(before[m] == x);
                                assert(x < before[p as int]);
                            } else {
                                assert(before[m + 1] == x);
                                assert(x > before[p as int]);
                            }
                        }
                        if before.to_set().remove(ty.0).contains(x) {
                            let m = choose|m: int| 0 <= m < before.len() && before[m] == x;
                            assert(m != p);
                            if m < p {
                                assert(types@[m] == x);
                            } else {
                                assert(types@[m - 1] == x);
                            }
                        }
                    }
                    assert(types@.to_set() =~= before.to_set().remove(ty.0));
                }
                Some(ArchetypeKey { types })
            },
        }
    }
}

impl Default for ArchetypeKey {
    fn default() -> (r: ArchetypeKey)
        ensures
            r.ids() == Seq::<u64>::empty(),
            r.id_set() == Set::<u64>::empty(),
    {
        ArchetypeKey::empty()
    }
}

/// Membership test on a strictly increasing vector.
fn sorted_contains(v: &Vec<u64>, x: u64) -> (r: bool)
    ensures
        r == v@.to_set().contains(x),
        r == v@.contains(x),
{
    let mut i: usize = 0;
    while i < v.len()
        invariant
            i <= v@.len(),
            forall|k: int| 0 <= k < i ==> v@[k] != x,
        decreases v@.len() - i,
    {
        if v[i] == x {
            assert(v@[i as int] == x);
            return true;
        }
        i = i + 1;
    }
    false
}

/// Inserts a missing value into a strictly increasing vector, keeping it so.
fn insert_sorted(v: &mut Vec<u64>, x: u64)
    requires
        strictly_sorted(old(v)@),
        !old(v)@.contains(x),
    ensures
        strictly_sorted(final(v)@),
        final(v)@.to_set() == old(v)@.to_set().insert(x),
        final(v)@.len() == old(v)@.len() + 1,
{
    let mut i: usize = 0;
    while i < v.len() && v[i] < x
        invariant
            i <= v@.len(),
            v@ == old(v)@,
            forall|k: int| 0 <= k < i ==> v@[k] < x,
        decreases v@.len() - i,
    {
        i = i + 1;
    }
    let ghost before = v@;
    proof {
        if i < before.len() {
            assert(before[i as int] != x);
            assert(before[i as int] > x);
        }
    }
    v.insert(i, x);
    proof {
        let after = v@;
        assert forall|a: int, b: int| 0 <= a < b < after.len() implies after[a] < after[b] by {
            if a < i && b == i {
            } else if a < i && b > i {
                assert(after[b] == before[b - 1]);
                assert(before[a] < x);
                if b - 1 >= i {
                    assert(before[i as int] > x);
                    assert(before[i as int] <= before[b - 1]);
                }
            } else if a == i {
                assert(after[b] == before[b - 1]);
                assert(before[i as int] > x);
                assert(before[i as int] <= before[b - 1]);
            } else if a > i {
                assert(after[a] == before[a - 1]);
                assert(after[b] == before[b - 1]);
            }
        }
        assert forall|y: u64| after.to_set().contains(y) == before.to_set().insert(x).contains(y) by {
            if after.to_set().contains(y) {
                let m = choose|m: int| 0 <= m < after.len() && after[m] == y;
                if m < i {
                    assert(before[m] == y);
                } else if m > i {
                    assert(before[m - 1] == y);
                }
            }
            if before.to_set().contains(y) {
                let m = choose|m: int| 0 <= m < before.len() && before[m] == y;
                if m < i {
                    assert(after[m] == y);
                } else {
                    assert(after[m + 1] == y);
                }
            }
            if y == x {
                assert(after[i as int] == x);
            }
        }
        assert(after.to_set() =~= before.to_set().insert(x));
    }
}

} // verus!
