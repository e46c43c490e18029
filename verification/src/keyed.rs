//! A small map from `u64` keys to values, kept as two parallel vectors.
//! It stands where a type-keyed hash map holds one value per key.

use vstd::prelude::*;

verus! {

/// The position of a key in a sequence of keys.
pub open spec fn key_pos(keys: Seq<u64>, k: u64) -> int {
    choose|j: int| 0 <= j < keys.len() && keys[j] == k
}

/// No key occurs twice.
pub open spec fn distinct_keys(keys: Seq<u64>) -> bool {
    forall|i: int, j: int| 0 <= i < keys.len() && 0 <= j < keys.len() && i != j ==> keys[i] != keys[j]
}

/// The map given by parallel sequences of keys and values.
pub open spec fn keyed_map<V>(keys: Seq<u64>, vals: Seq<V>) -> Map<u64, V> {
    Map::new(|k: u64| keys.contains(k), |k: u64| vals[key_pos(keys, k)])
}

/// With distinct keys, a position holding a key is its position.
pub proof fn lemma_key_pos(keys: Seq<u64>, j: int)
    requires
        distinct_keys(keys),
        0 <= j < keys.len(),
    ensures
        key_pos(keys, keys[j]) == j,
{
    let p = key_pos(keys, keys[j]);
    assert(0 <= p < keys.len() && keys[p] == keys[j]);
}

/// With distinct keys, the map has as many keys as the sequence.
pub proof fn lemma_keyed_len<V>(keys: Seq<u64>, vals: Seq<V>)
    requires
        distinct_keys(keys),
    ensures
        keyed_map(keys, vals).dom().finite(),
        keyed_map(keys, vals).len() == keys.len(),
{
    assert(keyed_map(keys, vals).dom() =~= keys.to_set());
    keys.unique_seq_to_set();
}

/// Setting the value at a position sets the map at that position's key.
pub proof fn lemma_keyed_update<V>(keys: Seq<u64>, vals: Seq<V>, p: int, v: V)
    requires
        distinct_keys(keys),
        keys.len() == vals.len(),
        0 <= p < keys.len(),
    ensures
        keyed_map(keys, vals.update(p, v)) == keyed_map(keys, vals).insert(keys[p], v),
{
    lemma_key_pos(keys, p);
    assert forall|k: u64| keys.contains(k) implies keyed_map(keys, vals.update(p, v))[k] == keyed_map(keys, vals).insert(keys[p], v)[k] by {
        let q = key_pos(keys, k);
        assert(0 <= q < keys.len() && keys[q] == k);
    }
    assert(keyed_map(keys, vals.update(p, v)) =~= keyed_map(keys, vals).insert(keys[p], v));
}

/// Appending a new key adds it to the map.
pub proof fn lemma_keyed_push<V>(keys: Seq<u64>, vals: Seq<V>, k: u64, v: V)
    requires
        distinct_keys(keys),
        keys.len() == vals.len(),
        !keys.contains(k),
    ensures
        distinct_keys(keys.push(k)),
        keyed_map(keys.push(k), vals.push(v)) == keyed_map(keys, vals).insert(k, v),
{
    let nk = keys.push(k);
    let n = keys.len() as int;
    assert forall|i: int, j: int| 0 <= i < nk.len() && 0 <= j < nk.len() && i != j implies nk[i] != nk[j] by {
        if i == n {
            assert(keys[j] == nk[j]);
        } else if j == n {
            assert(keys[i] == nk[i]);
        }
    }
    assert forall|q: u64| #[trigger] nk.contains(q) <==> (keys.contains(q) || q == k) by {
        if nk.contains(q) {
            let p = choose|p: int| 0 <= p < nk.len() && nk[p] == q;
            if p < n {
                assert(keys[p] == q);
            }
        }
        if keys.contains(q) {
            let p = choose|p: int| 0 <= p < n && keys[p] == q;
            assert(nk[p] == q);
        }
        if q == k {
            assert(nk[n] == q);
        }
    }
    assert forall|q: u64| keys.contains(q) implies keyed_map(nk, vals.push(v))[q] == keyed_map(keys, vals)[q] by {
        let p = key_pos(keys, q);
        assert(0 <= p < n && keys[p] == q);
        assert(nk[p] == q);
        lemma_key_pos(nk, p);
    }
    lemma_key_pos(nk, n);
    assert(keyed_map(nk, vals.push(v)) =~= keyed_map(keys, vals).insert(k, v));
}

/// Removing a position removes its key from the map.
pub proof fn lemma_keyed_remove<V>(keys: Seq<u64>, vals: Seq<V>, p: int)
    requires
        distinct_keys(keys),
        keys.len() == vals.len(),
        0 <= p < keys.len(),
    ensures
        distinct_keys(keys.remove(p)),
        keyed_map(keys.remove(p), vals.remove(p)) == keyed_map(keys, vals).remove(keys[p]),
{
    let nk = keys.remove(p);
    let k = keys[p];
    assert forall|i: int, j: int| 0 <= i < nk.len() && 0 <= j < nk.len() && i != j implies nk[i] != nk[j] by {
        let si = if i < p { i } else { i + 1 };
        let sj = if j < p { j } else { j + 1 };
        assert(nk[i] == keys[si] && nk[j] == keys[sj]);
    }
    assert forall|q: u64| #[trigger] nk.contains(q) <==> (keys.contains(q) && q != k) by {
        if nk.contains(q) {
            let i = choose|i: int| 0 <= i < nk.len() && nk[i] == q;
            let si = if i < p { i } else { i + 1 };
            assert(keys[si] == q);
            assert(si != p);
        }
        if keys.contains(q) && q != k {
            let i = choose|i: int| 0 <= i < keys.len() && keys[i] == q;
            assert(i != p);
            if i < p {
                assert(nk[i] == q);
            } else {
                assert(nk[i - 1] == q);
            }
        }
    }
    assert forall|q: u64| nk.contains(q) implies keyed_map(nk, vals.remove(p))[q] == keyed_map(keys, vals)[q] by {
        let i = key_pos(nk, q);
        assert(0 <= i < nk.len() && nk[i] == q);
        let si = if i < p { i } else { i + 1 };
        assert(keys[si] == q);
        lemma_key_pos(keys, si);
    }
    assert(keyed_map(nk, vals.remove(p)) =~= keyed_map(keys, vals).remove(k));
}

/// Values keyed by `u64`, one per key.
pub struct KeyedVec<V> {
    keys: Vec<u64>,
    vals: Vec<V>,
}

impl<V> View for KeyedVec<V> {
    type V = Map<u64, V>;

    closed spec fn view(&self) -> Map<u64, V> {
        keyed_map(self.keys@, self.vals@)
    }
}

impl<V> KeyedVec<V> {
    /// The keys and values line up and no key occurs twice.
    pub closed spec fn wf(&self) -> bool {
        &&& self.keys@.len() == self.vals@.len()
        &&& distinct_keys(self.keys@)
    }

    /// The keys, in the order they are stored.
    pub closed spec fn key_seq(&self) -> Seq<u64> {
        self.keys@
    }

    /// The stored keys are exactly the keys of the map, each once.
    pub proof fn lemma_keys(&self)
        requires
            self.wf(),
        ensures
            distinct_keys(self.key_seq()),
            forall|k: u64| self@.contains_key(k) <==> self.key_seq().contains(k),
            self@.dom().finite(),
            self@.len() == self.key_seq().len(),
    {
        assert(self@.dom() =~= self.keys@.to_set());
        self.keys@.unique_seq_to_set();
    }

    /// Creates an empty map.
    pub fn new() -> (r: KeyedVec<V>)
        ensures
            r.wf(),
            r@ == Map::<u64, V>::empty(),
    {
        let r = KeyedVec { keys: Vec::new(), vals: Vec::new() };
        assert(r@ =~= Map::<u64, V>::empty());
        r
    }

    /// Returns the number of keys.
    pub fn len(&self) -> (r: usize)
        requires
            self.wf(),
        ensures
            r == self@.len(),
    {
        proof {
            self.lemma_keys();
        }
        self.keys.len()
    }

    /// Finds the position of a key.
    fn find(&self, k: u64) -> (r: Option<usize>)
        requires
            self.wf(),
        ensures
            match r {
                Some(j) => (j as int) < self.keys@.len() && self.keys@[j as int] == k,
                None => !self.keys@.contains(k),
            },
    {
        let mut j: usize = 0;
        while j < self.keys.len()
            invariant
                j <= self.keys@.len(),
                forall|i: int| 0 <= i < j ==> self.keys@[i] != k,
            decreases self.keys@.len() - j,
        {
            if self.keys[j] == k {
                return Some(j);
            }
            j = j + 1;
        }
        None
    }

    /// Returns whether a key is present.
    pub fn contains_key(&self, k: u64) -> (r: bool)
        requires
            self.wf(),
        ensures
            r == self@.contains_key(k),
    {
        self.find(k).is_some()
    }

    /// Returns the value of a key, if any.
    pub fn get(&self, k: u64) -> (r: Option<&V>)
        requires
            self.wf(),
        ensures
            r == (if self@.contains_key(k) { Some(&self@[k]) } else { None }),
    {
        match self.find(k) {
            Some(j) => {
                proof {
                    lemma_key_pos(self.keys@, j as int);
                }
                Some(&self.vals[j])
            },
            None => None,
        }
    }

    /// Setting the value at a position of a key sets the map at that key.
    proof fn lemma_set_all(&self, j: int)
        requires
            self.wf(),
            0 <= j < self.keys@.len(),
        ensures
            forall|vals1: Seq<V>|
                #![trigger keyed_map(self.keys@, vals1)]
                vals1.len() == self.vals@.len() && (forall|i: int| 0 <= i < vals1.len() && i != j ==> vals1[i] == self.vals@[i])
                    ==> keyed_map(self.keys@, vals1) == self@.insert(self.keys@[j], vals1[j]),
    {
        assert forall|vals1: Seq<V>|
            vals1.len() == self.vals@.len() && (forall|i: int| 0 <= i < vals1.len() && i != j ==> vals1[i] == self.vals@[i])
                implies keyed_map(self.keys@, vals1) == self@.insert(self.keys@[j], vals1[j]) by {
            lemma_key_pos(self.keys@, j);
            assert forall|k: u64| self.keys@.contains(k) implies keyed_map(self.keys@, vals1)[k] == self@.insert(self.keys@[j], vals1[j])[k] by {
                let p = key_pos(self.keys@, k);
                assert(0 <= p < self.keys@.len() && self.keys@[p] == k);
            }
            assert(keyed_map(self.keys@, vals1) =~= self@.insert(self.keys@[j], vals1[j]));
        }
    }

    /// Returns a mutable reference to the value of a key, if any.
    pub fn get_mut(&mut self, k: u64) -> (r: Option<&mut V>)
        requires
            old(self).wf(),
        ensures
            final(self).wf(),
            r is Some <==> old(self)@.contains_key(k),
            r matches Some(x) ==> *x == old(self)@[k] && final(self)@ == old(self)@.insert(k, *final(x)),
            r is None ==> final(self)@ == old(self)@,
            final(self).key_seq() == old(self).key_seq(),
    {
        match self.find(k) {
            Some(j) => {
                proof {
                    lemma_key_pos(self.keys@, j as int);
                    self.lemma_set_all(j as int);
                }
                Some(&mut self.vals[j])
            },
            None => None,
        }
    }

    /// Sets the value of a key, adding the key if it is new; returns the
    /// value it replaced, if any.
    pub fn insert(&mut self, k: u64, v: V) -> (r: Option<V>)
        requires
            old(self).wf(),
        ensures
            final(self).wf(),
            final(self)@ == old(self)@.insert(k, v),
            r == (if old(self)@.contains_key(k) { Some(old(self)@[k]) } else { None }),
    {
        match self.find(k) {
            Some(j) => {
                proof {
                    lemma_key_pos(self.keys@, j as int);
                    self.lemma_set_all(j as int);
                }
                let mut v = v;
                std::mem::swap(&mut v, &mut self.vals[j]);
                Some(v)
            },
            None => {
                self.keys.push(k);
                self.vals.push(v);
                proof {
                    let n = old(self).keys@.len() as int;
                    lemma_key_pos(self.keys@, n);
                    assert forall|q: u64| old(self).keys@.contains(q) implies self@[q] == old(self)@[q] by {
                        let p = key_pos(old(self).keys@, q);
                        assert(0 <= p < n && old(self).keys@[p] == q);
                        assert(self.keys@[p] == q);
                        lemma_key_pos(self.keys@, p);
                    }
                    assert forall|q: u64| #[trigger] self.keys@.contains(q) <==> (old(self).keys@.contains(q) || q == k) by {
                        if self.keys@.contains(q) {
                            let p = choose|p: int| 0 <= p < self.keys@.len() && self.keys@[p] == q;
                            if p < n {
                                assert(old(self).keys@[p] == q);
                            }
                        }
                        if old(self).keys@.contains(q) {
                            let p = choose|p: int| 0 <= p < n && old(self).keys@[p] == q;
                            assert(self.keys@[p] == q);
                        }
                        if q == k {
                            assert(self.keys@[n] == q);
                        }
                    }
                    assert(self@ =~= old(self)@.insert(k, v));
                }
                None
            },
        }
    }

    /// Removes a key and returns its value, if it was present. The last
    /// entry takes the removed entry's place.
    pub fn remove(&mut self, k: u64) -> (r: Option<V>)
        requires
            old(self).wf(),
        ensures
            final(self).wf(),
            final(self)@ == old(self)@.remove(k),
            r == (if old(self)@.contains_key(k) { Some(old(self)@[k]) } else { None }),
    {
        match self.find(k) {
            Some(j) => {
                proof {
                    lemma_key_pos(self.keys@, j as int);
                }
                let ghost keys0 = self.keys@;
                let ghost vals0 = self.vals@;
                let n = self.keys.len();
                self.keys.swap_remove(j);
                let v = self.vals.swap_remove(j);
                proof {
                    let last = (n - 1) as int;
                    assert forall|p: int| 0 <= p < self.keys@.len() implies self.keys@[p] == keys0[if p == j { last } else { p }]
                        && self.vals@[p] == vals0[if p == j { last } else { p }] by {}
                    assert forall|a: int, b: int| 0 <= a < self.keys@.len() && 0 <= b < self.keys@.len() && a != b implies self.keys@[a]
                        != self.keys@[b] by {
                        let sa = if a == j { last } else { a };
                        let sb = if b == j { last } else { b };
                        assert(sa != sb);
                    }
                    assert forall|q: u64| #[trigger] self.keys@.contains(q) <==> (keys0.contains(q) && q != k) by {
                        if self.keys@.contains(q) {
                            let p = choose|p: int| 0 <= p < self.keys@.len() && self.keys@[p] == q;
                            let sp = if p == j { last } else { p };
                            assert(keys0[sp] == q);
                            assert(sp != j);
                        }
                        if keys0.contains(q) && q != k {
                            let p = choose|p: int| 0 <= p < keys0.len() && keys0[p] == q;
                            assert(p != j);
                            if p == last {
                                assert(self.keys@[j as int] == q);
                            } else {
                                assert(self.keys@[p] == q);
                            }
                        }
                    }
                    assert forall|q: u64| self.keys@.contains(q) implies self@[q] == old(self)@[q] by {
                        let p = key_pos(self.keys@, q);
                        assert(0 <= p < self.keys@.len() && self.keys@[p] == q);
                        let sp = if p == j { last } else { p };
                        lemma_key_pos(keys0, sp);
                    }
                    assert(self@ =~= old(self)@.remove(k));
                }
                Some(v)
            },
            None => {
                proof {
                    assert(old(self)@.remove(k) =~= old(self)@);
                }
                None
            },
        }
    }

    /// The keys, in the order they are stored.
    pub fn keys(&self) -> (r: Vec<u64>)
        requires
            self.wf(),
        ensures
            r@ == self.key_seq(),
    {
        let mut out: Vec<u64> = Vec::new();
        let mut j: usize = 0;
        while j < self.keys.len()
            invariant
                j <= self.keys@.len(),
                out@ == self.keys@.subrange(0, j as int),
            decreases self.keys@.len() - j,
        {
            out.push(self.keys[j]);
            j = j + 1;
            proof {
                assert(out@ =~= self.keys@.subrange(0, j as int));
            }
        }
        proof {
            assert(self.keys@.subrange(0, j as int) =~= self.keys@);
        }
        out
    }
}

} // verus!
