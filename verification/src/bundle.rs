//! Bundles: several components given together, by id.

use vstd::prelude::*;
use crate::component::ComponentId;
use crate::archetype::archetype::pos_of;
use crate::archetype::key::{ArchetypeKey, strictly_sorted, raw_ids};

verus! {

/// The components a bundle gives, by id; when an id repeats, the later
/// value wins.
pub open spec fn bundle_view<V>(b: Seq<(ComponentId, V)>) -> Map<u64, V>
    decreases b.len(),
{
    if b.len() == 0 {
        Map::empty()
    } else {
        bundle_view(b.drop_last()).insert(b.last().0.0, b.last().1)
    }
}

/// The ids of a bundle, in order.
pub open spec fn bundle_ids<V>(b: Seq<(ComponentId, V)>) -> Seq<u64> {
    b.map_values(|p: (ComponentId, V)| p.0.0)
}

/// The position of the last occurrence of an id, or -1.
pub open spec fn last_index(s: Seq<u64>, id: u64) -> int
    decreases s.len(),
{
    if s.len() == 0 {
        -1
    } else if s.last() == id {
        s.len() - 1
    } else {
        last_index(s.drop_last(), id)
    }
}

/// `last_index` finds the last occurrence, when there is one.
pub proof fn lemma_last_index(s: Seq<u64>, id: u64)
    ensures
        s.contains(id) <==> last_index(s, id) >= 0,
        -1 <= last_index(s, id) < s.len(),
        last_index(s, id) >= 0 ==> s[last_index(s, id)] == id,
        forall|k: int| last_index(s, id) < k < s.len() ==> s[k] != id,
    decreases s.len(),
{
    if s.len() > 0 {
        lemma_last_index(s.drop_last(), id);
        if s.last() != id {
            let li = last_index(s.drop_last(), id);
            assert(li < s.len() - 1);
            if li >= 0 {
                assert(s.drop_last()[li] == id);
                assert(s[li] == s.drop_last()[li]);
            }
            assert forall|k: int| li < k < s.len() implies s[k] != id by {
                if k < s.len() - 1 {
                    assert(s[k] == s.drop_last()[k]);
                }
            }
            if s.contains(id) {
                let k = choose|k: int| 0 <= k < s.len() && s[k] == id;
                assert(s.drop_last()[k] == id);
            }
            if s.drop_last().contains(id) {
                let k = choose|k: int| 0 <= k < s.drop_last().len() && s.drop_last()[k] == id;
                assert(s[k] == id);
            }
        } else {
            assert(s[s.len() - 1] == id);
        }
    }
}

/// A bundle gives exactly its ids, each with the value of its last
/// occurrence.
pub proof fn lemma_bundle_view<V>(b: Seq<(ComponentId, V)>)
    ensures
        bundle_view(b).dom() == bundle_ids(b).to_set(),
        forall|id: u64| #[trigger] bundle_view(b).contains_key(id) ==> last_index(bundle_ids(b), id) >= 0
            && bundle_view(b)[id] == b[last_index(bundle_ids(b), id)].1,
    decreases b.len(),
{
    if b.len() > 0 {
        let d = b.drop_last();
        lemma_bundle_view(d);
        assert(bundle_ids(b).drop_last() =~= bundle_ids(d));
        assert(bundle_ids(b) =~= bundle_ids(d).push(b.last().0.0));
        bundle_ids(d).lemma_push_to_set_commute(b.last().0.0);
        assert forall|id: u64| #[trigger] bundle_view(b).contains_key(id) implies last_index(bundle_ids(b), id) >= 0
            && bundle_view(b)[id] == b[last_index(bundle_ids(b), id)].1 by {
            lemma_last_index(bundle_ids(d), id);
            if id != b.last().0.0 {
                assert(bundle_view(d).contains_key(id));
            }
        }
        assert(bundle_view(b).dom() =~= bundle_ids(b).to_set());
    } else {
        assert(bundle_view(b).dom() =~= bundle_ids(b).to_set());
    }
}

/// The component ids of a bundle, in order.
pub fn bundle_component_ids<V>(bundle: &Vec<(ComponentId, V)>) -> (r: Vec<ComponentId>)
    ensures
        raw_ids(r@) == bundle_ids(bundle@),
{
    let mut out: Vec<ComponentId> = Vec::new();
    let mut i: usize = 0;
    while i < bundle.len()
        invariant
            i <= bundle@.len(),
            out@.len() == i,
            forall|k: int| 0 <= k < i ==> #[trigger] out@[k] == bundle@[k].0,
        decreases bundle@.len() - i,
    {
        out.push(bundle[i].0);
        i = i + 1;
    }
    proof {
        assert(raw_ids(out@) =~= bundle_ids(bundle@));
    }
    out
}

/// Splits a bundle into its ids and its values, each value held in an
/// `Option` so that it can be moved out by position.
pub fn split_bundle<V>(bundle: Vec<(ComponentId, V)>) -> (r: (Vec<u64>, Vec<Option<V>>))
    ensures
        r.0@ == bundle_ids(bundle@),
        r.1@.len() == bundle@.len(),
        forall|k: int| 0 <= k < r.1@.len() ==> #[trigger] r.1@[k] == Some(bundle@[k].1),
{
    let mut bundle = bundle;
    let ghost orig = bundle@;
    let n = bundle.len();
    let mut rev_ids: Vec<u64> = Vec::new();
    let mut rev_vals: Vec<V> = Vec::new();
    while bundle.len() > 0
        invariant
            bundle@ == orig.subrange(0, bundle@.len() as int),
            bundle@.len() <= n,
            n == orig.len(),
            rev_ids@.len() == n - bundle@.len(),
            rev_vals@.len() == n - bundle@.len(),
            forall|k: int| 0 <= k < rev_ids@.len() ==> #[trigger] rev_ids@[k] == orig[n - 1 - k].0.0,
            forall|k: int| 0 <= k < rev_vals@.len() ==> #[trigger] rev_vals@[k] == orig[n - 1 - k].1,
        decreases bundle@.len(),
    {
        let (id, v) = bundle.pop().unwrap();
        rev_ids.push(id.0);
        rev_vals.push(v);
        proof {
            assert(bundle@ =~= orig.subrange(0, bundle@.len() as int));
        }
    }
    let mut ids: Vec<u64> = Vec::new();
    let mut vals: Vec<Option<V>> = Vec::new();
    while rev_vals.len() > 0
        invariant
            rev_ids@.len() == rev_vals@.len(),
            rev_vals@.len() <= n,
            n == orig.len(),
            ids@.len() == n - rev_vals@.len(),
            vals@.len() == n - rev_vals@.len(),
            forall|k: int| 0 <= k < rev_ids@.len() ==> #[trigger] rev_ids@[k] == orig[n - 1 - k].0.0,
            forall|k: int| 0 <= k < rev_vals@.len() ==> #[trigger] rev_vals@[k] == orig[n - 1 - k].1,
            forall|k: int| 0 <= k < ids@.len() ==> #[trigger] ids@[k] == orig[k].0.0,
            forall|k: int| 0 <= k < vals@.len() ==> #[trigger] vals@[k] == Some(orig[k].1),
        decreases rev_vals@.len(),
    {
        let id = rev_ids.pop().unwrap();
        let v = rev_vals.pop().unwrap();
        ids.push(id);
        vals.push(Some(v));
    }
    proof {
        assert(ids@ =~= bundle_ids(orig));
    }
    (ids, vals)
}

/// Wraps every value in `Some`, keeping the order.
pub fn into_options<V>(values: Vec<V>) -> (r: Vec<Option<V>>)
    ensures
        r@.len() == values@.len(),
        forall|k: int| 0 <= k < r@.len() ==> #[trigger] r@[k] == Some(values@[k]),
{
    let mut values = values;
    let ghost orig = values@;
    let n = values.len();
    let mut rev: Vec<V> = Vec::new();
    while values.len() > 0
        invariant
            values@ == orig.subrange(0, values@.len() as int),
            values@.len() <= n,
            n == orig.len(),
            rev@.len() == n - values@.len(),
            forall|k: int| 0 <= k < rev@.len() ==> #[trigger] rev@[k] == orig[n - 1 - k],
        decreases values@.len(),
    {
        let v = values.pop().unwrap();
        rev.push(v);
        proof {
            assert(values@ =~= orig.subrange(0, values@.len() as int));
        }
    }
    let mut out: Vec<Option<V>> = Vec::new();
    while rev.len() > 0
        invariant
            rev@.len() <= n,
            n == orig.len(),
            out@.len() == n - rev@.len(),
            forall|k: int| 0 <= k < rev@.len() ==> #[trigger] rev@[k] == orig[n - 1 - k],
            forall|k: int| 0 <= k < out@.len() ==> #[trigger] out@[k] == Some(orig[k]),
        decreases rev@.len(),
    {
        let v = rev.pop().unwrap();
        out.push(Some(v));
    }
    out
}

/// Finds the last position of an id.
pub fn find_last(ids: &Vec<u64>, id: u64) -> (r: Option<usize>)
    ensures
        match r {
            Some(k) => k as int == last_index(ids@, id),
            None => last_index(ids@, id) == -1,
        },
{
    proof {
        lemma_last_index(ids@, id);
    }
    let mut i: usize = ids.len();
    while i > 0
        invariant
            i <= ids@.len(),
            forall|k: int| i <= k < ids@.len() ==> ids@[k] != id,
        decreases i,
    {
        if ids[i - 1] == id {
            proof {
                lemma_last_index(ids@, id);
                assert(ids@.contains(id));
                let li = last_index(ids@, id);
                if li < i - 1 {
                    assert(ids@[i - 1] != id);
                } else if li > i - 1 {
                    assert(ids@[li] != id);
                }
            }
            return Some(i - 1);
        }
        i = i - 1;
    }
    proof {
        if ids@.contains(id) {
            let k = choose|k: int| 0 <= k < ids@.len() && ids@[k] == id;
            assert(ids@[k] != id);
        }
    }
    None
}

/// The value a target row takes for an id: the last bundle value for the id
/// if the bundle has it, else the value of the source row.
pub open spec fn row_value<V>(src_ids: Seq<u64>, src_vals: Seq<Option<V>>, b_ids: Seq<u64>, b_vals: Seq<Option<V>>, id: u64) -> V {
    if b_ids.contains(id) {
        b_vals[last_index(b_ids, id)]->0
    } else {
        src_vals[pos_of(src_ids, id)]->0
    }
}

/// Builds the row of a target key, in key order, by moving values out of a
/// source row (in source key order) and a bundle.
pub fn build_row<V>(
    target: &ArchetypeKey,
    src: &ArchetypeKey,
    src_vals: &mut Vec<Option<V>>,
    b_ids: &Vec<u64>,
    b_vals: &mut Vec<Option<V>>,
) -> (r: Vec<V>)
    requires
        strictly_sorted(target.ids()),
        strictly_sorted(src.ids()),
        old(src_vals)@.len() == src.ids().len(),
        b_ids@.len() == old(b_vals)@.len(),
        forall|k: int| 0 <= k < old(b_vals)@.len() ==> (#[trigger] old(b_vals)@[k]) is Some,
        forall|k: int| 0 <= k < old(src_vals)@.len() && (#[trigger] old(src_vals)@[k]) is None ==> !target.id_set().contains(src.ids()[k]),
        forall|id: u64| #[trigger] target.id_set().contains(id) ==> b_ids@.contains(id) || src.id_set().contains(id),
    ensures
        r@.len() == target.ids().len(),
        forall|j: int| 0 <= j < r@.len() ==> #[trigger] r@[j] == row_value(src.ids(), old(src_vals)@, b_ids@, old(b_vals)@, target.ids()[j]),
        final(src_vals)@.len() == old(src_vals)@.len(),
        forall|k: int| 0 <= k < old(src_vals)@.len() ==> (#[trigger] final(src_vals)@[k] == old(src_vals)@[k]
            || (final(src_vals)@[k] is None && target.id_set().contains(src.ids()[k]))),
        final(b_vals)@.len() == old(b_vals)@.len(),
        forall|k: int| 0 <= k < old(b_vals)@.len() ==> (#[trigger] final(b_vals)@[k] == old(b_vals)@[k]
            || (final(b_vals)@[k] is None && target.id_set().contains(b_ids@[k]))),
{
    let ghost src0 = src_vals@;
    let ghost b0 = b_vals@;
    let ghost tids = target.ids();
    let n = target.len();
    let mut out: Vec<V> = Vec::new();
    let mut j: usize = 0;
    while j < n
        invariant
            j <= n,
            n == tids.len(),
            tids == target.ids(),
            strictly_sorted(tids),
            strictly_sorted(src.ids()),
            src_vals@.len() == src0.len(),
            src0.len() == src.ids().len(),
            b_vals@.len() == b0.len(),
            b_ids@.len() == b0.len(),
            forall|k: int| 0 <= k < b0.len() ==> (#[trigger] b0[k]) is Some,
            forall|k: int| 0 <= k < src0.len() && (#[trigger] src0[k]) is None ==> !target.id_set().contains(src.ids()[k]),
            forall|id: u64| #[trigger] target.id_set().contains(id) ==> b_ids@.contains(id) || src.id_set().contains(id),
            forall|k: int| 0 <= k < b0.len() && (#[trigger] b_vals@[k]) is Some ==> b_vals@[k] == b0[k],
            forall|k: int| 0 <= k < b0.len() && (#[trigger] b_vals@[k]) is None ==> tids.subrange(0, j as int).contains(b_ids@[k]),
            forall|k: int| 0 <= k < src0.len() && (#[trigger] src_vals@[k]) is Some ==> src_vals@[k] == src0[k],
            forall|k: int| 0 <= k < src0.len() && (#[trigger] src_vals@[k]) is None ==> (src0[k] is None
                || tids.subrange(0, j as int).contains(src.ids()[k])),
            out@.len() == j,
            forall|q: int| 0 <= q < j ==> #[trigger] out@[q] == row_value(src.ids(), src0, b_ids@, b0, tids[q]),
        decreases n - j,
    {
        let id = target.id_at(j);
        proof {
            assert(target.id_set().contains(id));
            assert(!tids.subrange(0, j as int).contains(id)) by {
                if tids.subrange(0, j as int).contains(id) {
                    let q = choose|q: int| 0 <= q < j && #[trigger] tids.subrange(0, j as int)[q] == id;
                    assert(tids[q] < tids[j as int]);
                }
            }
            assert forall|y: u64| #[trigger] tids.subrange(0, j as int + 1).contains(y) <==> (tids.subrange(0, j as int).contains(y) || y == id) by {
                if tids.subrange(0, j as int + 1).contains(y) {
                    let q = choose|q: int| 0 <= q < j + 1 && #[trigger] tids.subrange(0, j as int + 1)[q] == y;
                    if q < j {
                        assert(tids.subrange(0, j as int)[q] == y);
                    }
                }
                if tids.subrange(0, j as int).contains(y) {
                    let q = choose|q: int| 0 <= q < j && #[trigger] tids.subrange(0, j as int)[q] == y;
                    assert(tids.subrange(0, j as int + 1)[q] == y);
                }
                if y == id {
                    assert(tids.subrange(0, j as int + 1)[j as int] == y);
                }
            }
        }
        let v = match find_last(b_ids, id) {
            Some(k) => {
                proof {
                    lemma_last_index(b_ids@, id);
                    assert(b_ids@[k as int] == id);
                    assert(b_vals@[k as int] is Some);
                }
                let taken = b_vals[k].take();
                proof {
                    assert(b_ids@.contains(id));
                }
                taken.unwrap()
            },
            None => {
                proof {
                    lemma_last_index(b_ids@, id);
                    assert(src.id_set().contains(id));
                }
                let p = src.position(ComponentId(id)).unwrap();
                proof {
                    crate::archetype::archetype::lemma_pos_of_unique(src.ids(), id, p as int);
                    assert(src_vals@[p as int] is Some) by {
                        if src_vals@[p as int] is None {
                            if src0[p as int] is None {
                                assert(!target.id_set().contains(src.ids()[p as int]));
                            }
                        }
                    }
                }
                let taken = src_vals[p].take();
                taken.unwrap()
            },
        };
        out.push(v);
        j = j + 1;
    }
    proof {
        assert(tids.subrange(0, n as int) =~= tids);
        assert forall|k: int| 0 <= k < b0.len() && (#[trigger] b_vals@[k]) is None implies target.id_set().contains(b_ids@[k]) by {
            assert(tids.contains(b_ids@[k]));
        }
        assert forall|k: int| 0 <= k < src0.len() && (#[trigger] src_vals@[k]) is None && src0[k] is Some implies target.id_set().contains(
            src.ids()[k],
        ) by {
            assert(tids.contains(src.ids()[k]));
        }
    }
    out
}

} // verus!
