//! The systems of one phase for sequential execution: event handlers first,
//! then regular systems, each in registration order.

use vstd::prelude::*;
use super::SystemId;
use crate::keyed::{keyed_map, distinct_keys, key_pos, lemma_key_pos, lemma_keyed_len, lemma_keyed_update, lemma_keyed_push, lemma_keyed_remove};

verus! {

/// A registered system with its id and whether it runs.
pub struct RegisteredSystem<S> {
    pub id: SystemId,
    pub system: S,
    pub enabled: bool,
}

/// The raw ids of a list of registered systems.
pub open spec fn registered_ids<S>(list: Seq<RegisteredSystem<S>>) -> Seq<u64> {
    list.map_values(|r: RegisteredSystem<S>| r.id.0)
}

/// The systems of a list.
pub open spec fn registered_systems<S>(list: Seq<RegisteredSystem<S>>) -> Seq<S> {
    list.map_values(|r: RegisteredSystem<S>| r.system)
}

/// Whether each system of a list runs.
pub open spec fn registered_flags<S>(list: Seq<RegisteredSystem<S>>) -> Seq<bool> {
    list.map_values(|r: RegisteredSystem<S>| r.enabled)
}

/// Finds the position of a system id in a list.
pub fn find_registered<S>(list: &Vec<RegisteredSystem<S>>, id: SystemId) -> (r: Option<usize>)
    ensures
        match r {
            Some(p) => (p as int) < list@.len() && list@[p as int].id == id,
            None => !registered_ids(list@).contains(id.0),
        },
{
    let mut i: usize = 0;
    while i < list.len()
        invariant
            i <= list@.len(),
            forall|k: int| 0 <= k < i ==> list@[k].id.0 != id.0,
        decreases list@.len() - i,
    {
        if list[i].id.0 == id.0 {
            return Some(i);
        }
        i = i + 1;
    }
    proof {
        if registered_ids(list@).contains(id.0) {
            let k = choose|k: int| 0 <= k < registered_ids(list@).len() && registered_ids(list@)[k] == id.0;
            assert(list@[k].id.0 == id.0);
        }
    }
    None
}

/// The systems of a phase: event handlers (systems whose first parameter
/// reads events) and regular systems.
pub struct PriorityPass<S> {
    events: Vec<RegisteredSystem<S>>,
    systems: Vec<RegisteredSystem<S>>,
}

impl<S> PriorityPass<S> {
    /// The ids of the event handlers, then of the regular systems.
    pub closed spec fn id_seq(&self) -> Seq<u64> {
        registered_ids(self.events@) + registered_ids(self.systems@)
    }

    /// Whether each system runs, in the order of [`Self::id_seq`].
    pub closed spec fn flag_seq(&self) -> Seq<bool> {
        registered_flags(self.events@) + registered_flags(self.systems@)
    }

    /// The ids of the event handlers, in order.
    pub closed spec fn event_ids(&self) -> Seq<u64> {
        registered_ids(self.events@)
    }

    /// The ids of the regular systems, in order.
    pub closed spec fn system_ids(&self) -> Seq<u64> {
        registered_ids(self.systems@)
    }

    /// Whether each registered system runs, by raw id.
    pub open spec fn enabled_map(&self) -> Map<u64, bool> {
        keyed_map(self.id_seq(), self.flag_seq())
    }

    /// The registered systems, by raw id.
    pub closed spec fn system_map(&self) -> Map<u64, S> {
        keyed_map(self.id_seq(), registered_systems(self.events@) + registered_systems(self.systems@))
    }

    /// The ids of the enabled event handlers, in order: they run before the
    /// regular systems.
    pub closed spec fn event_run_seq(&self) -> Seq<u64> {
        enabled_ids(self.events@)
    }

    /// No id is registered twice.
    pub open spec fn wf(&self) -> bool {
        distinct_keys(self.id_seq())
    }

    /// The regular systems, in order.
    pub closed spec fn system_entries(&self) -> Seq<RegisteredSystem<S>> {
        self.systems@
    }

    /// Systems run in two groups: first the enabled event handlers in the
    /// order they were added, then the enabled regular systems in the order
    /// they were added; disabled systems do not run.
    pub proof fn law_run_order(&self)
        requires
            self.wf(),
        ensures
            self.run_seq() == enabled_in(self.event_ids(), self.enabled_map()) + enabled_in(self.system_ids(), self.enabled_map()),
            self.event_run_seq() == enabled_in(self.event_ids(), self.enabled_map()),
    {
        let keys = self.id_seq();
        let flags = self.flag_seq();
        let n = self.events@.len() as int;
        assert forall|i: int| 0 <= i < self.events@.len() implies self.enabled_map().contains_key(#[trigger] self.events@[i].id.0)
            && self.enabled_map()[self.events@[i].id.0] == self.events@[i].enabled by {
            assert(keys[i] == self.events@[i].id.0);
            lemma_key_pos(keys, i);
            assert(flags[i] == self.events@[i].enabled);
            assert(keys.contains(keys[i]));
        }
        assert forall|j: int| 0 <= j < self.systems@.len() implies self.enabled_map().contains_key(#[trigger] self.systems@[j].id.0)
            && self.enabled_map()[self.systems@[j].id.0] == self.systems@[j].enabled by {
            assert(keys[n + j] == self.systems@[j].id.0);
            lemma_key_pos(keys, n + j);
            assert(flags[n + j] == self.systems@[j].enabled);
            assert(keys.contains(keys[n + j]));
        }
        lemma_enabled_ids_filter(self.events@, self.enabled_map());
        lemma_enabled_ids_filter(self.systems@, self.enabled_map());
    }

    /// The ids of the regular systems are those of its entries.
    pub proof fn lemma_system_ids(&self)
        ensures
            self.system_ids() == registered_ids(self.system_entries()),
    {
    }

    /// Returns the number of regular systems.
    pub fn system_len(&self) -> (r: usize)
        ensures
            r == self.system_entries().len(),
    {
        self.systems.len()
    }

    /// Returns the regular system at a position.
    pub fn system_at(&self, i: usize) -> (r: &RegisteredSystem<S>)
        requires
            (i as int) < self.system_entries().len(),
        ensures
            *r == self.system_entries()[i as int],
    {
        &self.systems[i]
    }

    /// Creates an empty pass.
    pub fn new() -> (r: PriorityPass<S>)
        ensures
            r.wf(),
            r.enabled_map() == Map::<u64, bool>::empty(),
            r.event_ids() == Seq::<u64>::empty(),
            r.system_ids() == Seq::<u64>::empty(),
            r.system_entries() == Seq::<RegisteredSystem<S>>::empty(),
            r.system_map() == Map::<u64, S>::empty(),
    {
        let r = PriorityPass { events: Vec::new(), systems: Vec::new() };
        assert(r.system_map() =~= Map::<u64, S>::empty());
        assert(r.id_seq() =~= Seq::<u64>::empty());
        assert(r.enabled_map() =~= Map::<u64, bool>::empty());
        r
    }

    /// Adds an enabled system with a new id, among the event handlers or the
    /// regular systems.
    pub fn add(&mut self, id: SystemId, system: S, is_event_reader: bool)
        requires
            old(self).wf(),
            !old(self).enabled_map().contains_key(id.0),
        ensures
            final(self).wf(),
            final(self).enabled_map() == old(self).enabled_map().insert(id.0, true),
            is_event_reader ==> final(self).event_ids() == old(self).event_ids().push(id.0)
                && final(self).system_ids() == old(self).system_ids(),
            !is_event_reader ==> final(self).system_ids() == old(self).system_ids().push(id.0)
                && final(self).event_ids() == old(self).event_ids(),
            final(self).system_map() == old(self).system_map().insert(id.0, system),
            is_event_reader ==> final(self).system_entries() == old(self).system_entries(),
            !is_event_reader ==> final(self).system_entries() == old(self).system_entries().push(
                (RegisteredSystem { id, system, enabled: true }),
            ),
    {
        let ghost keys0 = self.id_seq();
        let ghost flags0 = self.flag_seq();
        let ghost sys0 = registered_systems(self.events@) + registered_systems(self.systems@);
        let ghost ne = self.events@.len() as int;
        let entry = RegisteredSystem { id, system, enabled: true };
        if is_event_reader {
            self.events.push(entry);
            proof {
                assert(registered_ids(self.events@) =~= registered_ids(old(self).events@).push(id.0));
                assert(registered_flags(self.events@) =~= registered_flags(old(self).events@).push(true));
                let k1 = keys0.insert(ne, id.0);
                let f1 = flags0.insert(ne, true);
                assert(self.id_seq() =~= k1);
                assert(self.flag_seq() =~= f1);
                lemma_insert_key(keys0, flags0, ne, id.0, true);
                assert(registered_systems(self.events@) =~= registered_systems(old(self).events@).push(system));
                assert(registered_systems(self.events@) + registered_systems(self.systems@) =~= sys0.insert(ne, system));
                lemma_insert_key(keys0, sys0, ne, id.0, system);
            }
        } else {
            self.systems.push(entry);
            proof {
                assert(registered_ids(self.systems@) =~= registered_ids(old(self).systems@).push(id.0));
                assert(registered_flags(self.systems@) =~= registered_flags(old(self).systems@).push(true));
                assert(self.id_seq() =~= keys0.push(id.0));
                assert(self.flag_seq() =~= flags0.push(true));
                lemma_keyed_push(keys0, flags0, id.0, true);
                assert(registered_systems(self.systems@) =~= registered_systems(old(self).systems@).push(system));
                assert(registered_systems(self.events@) + registered_systems(self.systems@) =~= sys0.push(system));
                lemma_keyed_push(keys0, sys0, id.0, system);
            }
        }
    }

    /// Removes a system. Returns whether it was registered.
    pub fn remove(&mut self, id: SystemId) -> (r: bool)
        requires
            old(self).wf(),
        ensures
            final(self).wf(),
            r == old(self).enabled_map().contains_key(id.0),
            final(self).enabled_map() == old(self).enabled_map().remove(id.0),
            final(self).event_ids() == ids_without(old(self).event_ids(), id.0),
            final(self).system_ids() == ids_without(old(self).system_ids(), id.0),
            final(self).system_entries() == entries_without(old(self).system_entries(), id.0),
    {
        let ghost keys0 = self.id_seq();
        let ghost flags0 = self.flag_seq();
        let ne = self.events.len();
        match find_registered(&self.events, id) {
            Some(p) => {
                self.events.remove(p);
                proof {
                    assert(registered_ids(self.events@) =~= registered_ids(old(self).events@).remove(p as int));
                    assert(registered_flags(self.events@) =~= registered_flags(old(self).events@).remove(p as int));
                    assert(self.id_seq() =~= keys0.remove(p as int));
                    assert(self.flag_seq() =~= flags0.remove(p as int));
                    lemma_keyed_remove(keys0, flags0, p as int);
                    assert(keys0[p as int] == id.0);
                    let ev0 = old(self).events@;
                    let sy0 = old(self).systems@;
                    assert forall|i: int| 0 <= i < ev0.len() && i != p implies (#[trigger] ev0[i]).id.0 != id.0 by {
                        assert(keys0[i] == ev0[i].id.0);
                    }
                    lemma_without_at(ev0, id.0, p as int);
                    assert forall|j: int| 0 <= j < registered_ids(sy0).len() implies #[trigger] registered_ids(sy0)[j] != id.0 by {
                        assert(keys0[ne as int + j] == registered_ids(sy0)[j]);
                    }
                    lemma_without_absent(sy0, id.0);
                }
                return true;
            },
            None => {},
        }
        match find_registered(&self.systems, id) {
            Some(p) => {
                self.systems.remove(p);
                proof {
                    let q = ne as int + p as int;
                    assert(registered_ids(self.systems@) =~= registered_ids(old(self).systems@).remove(p as int));
                    assert(registered_flags(self.systems@) =~= registered_flags(old(self).systems@).remove(p as int));
                    assert(self.id_seq() =~= keys0.remove(q));
                    assert(self.flag_seq() =~= flags0.remove(q));
                    lemma_keyed_remove(keys0, flags0, q);
                    assert(keys0[q] == id.0);
                    let sy0 = old(self).systems@;
                    assert forall|i: int| 0 <= i < sy0.len() && i != p implies (#[trigger] sy0[i]).id.0 != id.0 by {
                        assert(keys0[ne as int + i] == sy0[i].id.0);
                    }
                    lemma_without_at(sy0, id.0, p as int);
                    lemma_without_absent(old(self).events@, id.0);
                }
                true
            },
            None => {
                proof {
                    lemma_absent_from_both(registered_ids(old(self).events@), registered_ids(old(self).systems@), id.0);
                    assert(old(self).enabled_map().remove(id.0) =~= old(self).enabled_map());
                    lemma_without_absent(old(self).events@, id.0);
                    lemma_without_absent(old(self).systems@, id.0);
                }
                false
            },
        }
    }

    /// Enables or disables a system. Returns whether it was registered.
    pub fn set_enabled(&mut self, id: SystemId, enabled: bool) -> (r: bool)
        requires
            old(self).wf(),
        ensures
            final(self).wf(),
            r == old(self).enabled_map().contains_key(id.0),
            r ==> final(self).enabled_map() == old(self).enabled_map().insert(id.0, enabled),
            !r ==> final(self).enabled_map() == old(self).enabled_map(),
            final(self).event_ids() == old(self).event_ids(),
            final(self).system_ids() == old(self).system_ids(),
    {
        let ghost keys0 = self.id_seq();
        let ghost flags0 = self.flag_seq();
        let ne = self.events.len();
        match find_registered(&self.events, id) {
            Some(p) => {
                self.events[p].enabled = enabled;
                proof {
                    assert(registered_ids(self.events@) =~= registered_ids(old(self).events@));
                    assert(registered_flags(self.events@) =~= registered_flags(old(self).events@).update(p as int, enabled));
                    assert(self.id_seq() =~= keys0);
                    assert(self.flag_seq() =~= flags0.update(p as int, enabled));
                    lemma_keyed_update(keys0, flags0, p as int, enabled);
                }
                return true;
            },
            None => {},
        }
        match find_registered(&self.systems, id) {
            Some(p) => {
                self.systems[p].enabled = enabled;
                proof {
                    let q = ne as int + p as int;
                    assert(registered_ids(self.systems@) =~= registered_ids(old(self).systems@));
                    assert(registered_flags(self.systems@) =~= registered_flags(old(self).systems@).update(p as int, enabled));
                    assert(self.id_seq() =~= keys0);
                    assert(self.flag_seq() =~= flags0.update(q, enabled));
                    lemma_keyed_update(keys0, flags0, q, enabled);
                    assert(keys0[q] == id.0);
                }
                true
            },
            None => {
                proof {
                    lemma_absent_from_both(registered_ids(old(self).events@), registered_ids(old(self).systems@), id.0);
                }
                false
            },
        }
    }

    /// Returns whether a system is enabled, or `None` if it is not registered.
    pub fn is_enabled(&self, id: SystemId) -> (r: Option<bool>)
        requires
            self.wf(),
        ensures
            r == (if self.enabled_map().contains_key(id.0) { Some(self.enabled_map()[id.0]) } else { None }),
    {
        let ne = self.events.len();
        match find_registered(&self.events, id) {
            Some(p) => {
                proof {
                    assert(self.id_seq()[p as int] == id.0);
                    lemma_key_pos(self.id_seq(), p as int);
                }
                return Some(self.events[p].enabled);
            },
            None => {},
        }
        match find_registered(&self.systems, id) {
            Some(p) => {
                proof {
                    let q = ne as int + p as int;
                    assert(self.id_seq()[q] == id.0);
                    lemma_key_pos(self.id_seq(), q);
                }
                Some(self.systems[p].enabled)
            },
            None => {
                proof {
                    lemma_absent_from_both(registered_ids(self.events@), registered_ids(self.systems@), id.0);
                }
                None
            },
        }
    }

    /// Returns the number of systems, enabled or not.
    pub fn count(&self) -> (r: usize)
        requires
            self.wf(),
            self.id_seq().len() <= usize::MAX,
        ensures
            r == self.enabled_map().len(),
    {
        proof {
            lemma_keyed_len(self.id_seq(), self.flag_seq());
        }
        self.events.len() + self.systems.len()
    }

    /// Removes every system.
    pub fn clear(&mut self)
        ensures
            final(self).wf(),
            final(self).enabled_map() == Map::<u64, bool>::empty(),
    {
        self.events.clear();
        self.systems.clear();
        proof {
            assert(self.id_seq() =~= Seq::<u64>::empty());
            assert(self.enabled_map() =~= Map::<u64, bool>::empty());
        }
    }

    /// The enabled event handlers, then the enabled regular systems, in
    /// order: the order in which the pass runs them.
    pub closed spec fn run_seq(&self) -> Seq<u64> {
        enabled_ids(self.events@) + enabled_ids(self.systems@)
    }

    /// Returns the ids of the systems to run, in the order to run them.
    pub fn run_order(&self) -> (r: Vec<SystemId>)
        ensures
            r@.map_values(|x: SystemId| x.0) == self.run_seq(),
    {
        let mut out: Vec<SystemId> = Vec::new();
        collect_enabled(&self.events, &mut out);
        collect_enabled(&self.systems, &mut out);
        out
    }

    /// Returns the ids of the enabled event handlers, in order.
    pub fn event_order(&self) -> (r: Vec<SystemId>)
        ensures
            r@.map_values(|x: SystemId| x.0) == self.event_run_seq(),
    {
        let mut out: Vec<SystemId> = Vec::new();
        proof {
            assert(out@.map_values(|x: SystemId| x.0) =~= Seq::<u64>::empty());
        }
        collect_enabled(&self.events, &mut out);
        proof {
            assert(out@.map_values(|x: SystemId| x.0) =~= enabled_ids(self.events@));
        }
        out
    }

    /// Returns the event handler registered under an id, for running it;
    /// `None` if no event handler has that id. The regular systems are left
    /// as they are.
    pub fn event_mut(&mut self, id: SystemId) -> (r: Option<&mut S>)
        requires
            old(self).wf(),
        ensures
            r is Some <==> old(self).event_ids().contains(id.0),
            final(self).system_entries() == old(self).system_entries(),
            final(self).system_ids() == old(self).system_ids(),
            final(self).id_seq() == old(self).id_seq(),
            final(self).flag_seq() == old(self).flag_seq(),
            final(self).event_ids() == old(self).event_ids(),
            final(self).run_seq() == old(self).run_seq(),
            final(self).event_run_seq() == old(self).event_run_seq(),
            r matches Some(x) ==> *x == old(self).system_map()[id.0] && final(self).system_map() == old(self).system_map().insert(
                id.0,
                *final(x),
            ),
            r is None ==> final(self).system_map() == old(self).system_map(),
    {
        proof {
            lemma_enabled_ids_frame(self.events@);
        }
        match find_registered(&self.events, id) {
            Some(p) => {
                proof {
                    assert(self.id_seq()[p as int] == id.0);
                    assert(registered_ids(self.events@)[p as int] == id.0);
                    lemma_replace_system(self.events@, self.systems@, p as int, true);
                }
                let entry = &mut self.events[p];
                Some(&mut entry.system)
            },
            None => None,
        }
    }

    /// Returns the regular system at a position, for running it.
    pub fn system_at_mut(&mut self, i: usize) -> (r: &mut S)
        requires
            old(self).wf(),
            (i as int) < old(self).system_entries().len(),
        ensures
            *r == old(self).system_entries()[i as int].system,
            final(self).system_entries() == old(self).system_entries().update(
                i as int,
                RegisteredSystem {
                    id: old(self).system_entries()[i as int].id,
                    system: *final(r),
                    enabled: old(self).system_entries()[i as int].enabled,
                },
            ),
            final(self).id_seq() == old(self).id_seq(),
            final(self).flag_seq() == old(self).flag_seq(),
            final(self).event_ids() == old(self).event_ids(),
            final(self).system_ids() == old(self).system_ids(),
            final(self).run_seq() == old(self).run_seq(),
            final(self).event_run_seq() == old(self).event_run_seq(),
            final(self).system_map() == old(self).system_map().insert(old(self).system_entries()[i as int].id.0, *final(r)),
    {
        proof {
            lemma_enabled_ids_frame(self.systems@);
            lemma_replace_system(self.events@, self.systems@, i as int, false);
        }
        let entry = &mut self.systems[i];
        &mut entry.system
    }

    /// Returns the system registered under an id, for running it.
    pub fn system_mut(&mut self, id: SystemId) -> (r: Option<&mut S>)
        requires
            old(self).wf(),
        ensures
            r is Some <==> old(self).enabled_map().contains_key(id.0),
            final(self).id_seq() == old(self).id_seq(),
            final(self).flag_seq() == old(self).flag_seq(),
            final(self).event_ids() == old(self).event_ids(),
            final(self).system_ids() == old(self).system_ids(),
            final(self).run_seq() == old(self).run_seq(),
            final(self).event_run_seq() == old(self).event_run_seq(),
            r matches Some(x) ==> *x == old(self).system_map()[id.0] && final(self).system_map() == old(self).system_map().insert(
                id.0,
                *final(x),
            ),
            r is None ==> final(self).system_map() == old(self).system_map(),
    {
        proof {
            lemma_enabled_ids_frame(self.events@);
            lemma_enabled_ids_frame(self.systems@);
        }
        match find_registered(&self.events, id) {
            Some(p) => {
                proof {
                    assert(self.id_seq()[p as int] == id.0);
                    lemma_replace_system(self.events@, self.systems@, p as int, true);
                }
                let entry = &mut self.events[p];
                return Some(&mut entry.system);
            },
            None => {},
        }
        match find_registered(&self.systems, id) {
            Some(p) => {
                proof {
                    assert(self.id_seq()[self.events@.len() + p as int] == id.0);
                    lemma_replace_system(self.events@, self.systems@, p as int, false);
                }
                let entry = &mut self.systems[p];
                Some(&mut entry.system)
            },
            None => {
                proof {
                    lemma_absent_from_both(registered_ids(self.events@), registered_ids(self.systems@), id.0);
                }
                None
            },
        }
    }
}

/// Replacing the system at a position, among the event handlers or among
/// the regular systems, by one with the same id sets the map at that id.
pub proof fn lemma_replace_system<S>(ev: Seq<RegisteredSystem<S>>, sy: Seq<RegisteredSystem<S>>, p: int, in_events: bool)
    requires
        distinct_keys(registered_ids(ev) + registered_ids(sy)),
        in_events ==> 0 <= p < ev.len(),
        !in_events ==> 0 <= p < sy.len(),
    ensures
        in_events ==> forall|e2: RegisteredSystem<S>|
            #![trigger ev.update(p, e2)]
            e2.id == ev[p].id ==> registered_ids(ev.update(p, e2)) == registered_ids(ev) && keyed_map(
                registered_ids(ev.update(p, e2)) + registered_ids(sy),
                registered_systems(ev.update(p, e2)) + registered_systems(sy),
            ) == keyed_map(registered_ids(ev) + registered_ids(sy), registered_systems(ev) + registered_systems(sy)).insert(
                ev[p].id.0,
                e2.system,
            ),
        !in_events ==> forall|e2: RegisteredSystem<S>|
            #![trigger sy.update(p, e2)]
            e2.id == sy[p].id ==> registered_ids(sy.update(p, e2)) == registered_ids(sy) && keyed_map(
                registered_ids(ev) + registered_ids(sy.update(p, e2)),
                registered_systems(ev) + registered_systems(sy.update(p, e2)),
            ) == keyed_map(registered_ids(ev) + registered_ids(sy), registered_systems(ev) + registered_systems(sy)).insert(
                sy[p].id.0,
                e2.system,
            ),
{
    let keys = registered_ids(ev) + registered_ids(sy);
    let vals = registered_systems(ev) + registered_systems(sy);
    if in_events {
        assert forall|e2: RegisteredSystem<S>| e2.id == ev[p].id implies registered_ids(ev.update(p, e2)) == registered_ids(ev)
            && keyed_map(
            registered_ids(ev.update(p, e2)) + registered_ids(sy),
            registered_systems(ev.update(p, e2)) + registered_systems(sy),
        ) == keyed_map(keys, vals).insert(ev[p].id.0, e2.system) by {
            assert(registered_ids(ev.update(p, e2)) =~= registered_ids(ev));
            assert(registered_systems(ev.update(p, e2)) + registered_systems(sy) =~= vals.update(p, e2.system));
            assert(keys[p] == ev[p].id.0);
            lemma_keyed_update(keys, vals, p, e2.system);
        }
    } else {
        let n = ev.len() as int;
        assert forall|e2: RegisteredSystem<S>| e2.id == sy[p].id implies registered_ids(sy.update(p, e2)) == registered_ids(sy)
            && keyed_map(
            registered_ids(ev) + registered_ids(sy.update(p, e2)),
            registered_systems(ev) + registered_systems(sy.update(p, e2)),
        ) == keyed_map(keys, vals).insert(sy[p].id.0, e2.system) by {
            assert(registered_ids(sy.update(p, e2)) =~= registered_ids(sy));
            assert(registered_systems(ev) + registered_systems(sy.update(p, e2)) =~= vals.update(n + p, e2.system));
            assert(keys[n + p] == sy[p].id.0);
            lemma_keyed_update(keys, vals, n + p, e2.system);
        }
    }
}

/// The ids of the enabled systems of a list, in order.
pub open spec fn enabled_ids<S>(list: Seq<RegisteredSystem<S>>) -> Seq<u64>
    decreases list.len(),
{
    if list.len() == 0 {
        Seq::empty()
    } else if list.last().enabled {
        enabled_ids(list.drop_last()).push(list.last().id.0)
    } else {
        enabled_ids(list.drop_last())
    }
}

/// The ids of a sequence that a map marks enabled, in order.
pub open spec fn enabled_in(ids: Seq<u64>, m: Map<u64, bool>) -> Seq<u64>
    decreases ids.len(),
{
    if ids.len() == 0 {
        Seq::empty()
    } else if m.contains_key(ids.last()) && m[ids.last()] {
        enabled_in(ids.drop_last(), m).push(ids.last())
    } else {
        enabled_in(ids.drop_last(), m)
    }
}

/// The enabled ids of a list are its ids that a map agreeing with its
/// flags marks enabled.
pub proof fn lemma_enabled_ids_filter<S>(list: Seq<RegisteredSystem<S>>, m: Map<u64, bool>)
    requires
        forall|i: int| 0 <= i < list.len() ==> m.contains_key(#[trigger] list[i].id.0) && m[list[i].id.0] == list[i].enabled,
    ensures
        enabled_ids(list) == enabled_in(registered_ids(list), m),
    decreases list.len(),
{
    if list.len() > 0 {
        let prev = list.drop_last();
        assert forall|i: int| 0 <= i < prev.len() implies m.contains_key(#[trigger] prev[i].id.0) && m[prev[i].id.0]
            == prev[i].enabled by {
            assert(prev[i] == list[i]);
            assert(m.contains_key(list[i].id.0));
        }
        lemma_enabled_ids_filter(prev, m);
        let ids = registered_ids(list);
        assert(ids.drop_last() =~= registered_ids(prev));
        assert(ids.last() == list.last().id.0);
        let last = list[list.len() - 1];
        assert(m.contains_key(last.id.0) && m[last.id.0] == last.enabled);
    }
}

/// Lists that agree on ids and flags enable the same ids.
pub proof fn lemma_enabled_ids_same<S>(l1: Seq<RegisteredSystem<S>>, l2: Seq<RegisteredSystem<S>>)
    requires
        l1.len() == l2.len(),
        forall|k: int| 0 <= k < l1.len() ==> l1[k].id == l2[k].id && l1[k].enabled == l2[k].enabled,
    ensures
        enabled_ids(l1) == enabled_ids(l2),
    decreases l1.len(),
{
    if l1.len() > 0 {
        lemma_enabled_ids_same(l1.drop_last(), l2.drop_last());
    }
}

/// [`lemma_enabled_ids_same`] for every second list at once.
pub proof fn lemma_enabled_ids_frame<S>(l1: Seq<RegisteredSystem<S>>)
    ensures
        forall|l2: Seq<RegisteredSystem<S>>|
            l1.len() == l2.len() && (forall|k: int| 0 <= k < l1.len() ==> l1[k].id == l2[k].id && l1[k].enabled == l2[k].enabled)
                ==> #[trigger] enabled_ids(l2) == enabled_ids(l1),
{
    assert forall|l2: Seq<RegisteredSystem<S>>|
        l1.len() == l2.len() && (forall|k: int| 0 <= k < l1.len() ==> l1[k].id == l2[k].id && l1[k].enabled == l2[k].enabled)
            implies #[trigger] enabled_ids(l2) == enabled_ids(l1) by {
        lemma_enabled_ids_same(l1, l2);
    }
}

/// Appends the ids of the enabled systems of a list, in order.
fn collect_enabled<S>(list: &Vec<RegisteredSystem<S>>, out: &mut Vec<SystemId>)
    ensures
        final(out)@.map_values(|x: SystemId| x.0) == old(out)@.map_values(|x: SystemId| x.0) + enabled_ids(list@),
{
    let mut i: usize = 0;
    while i < list.len()
        invariant
            i <= list@.len(),
            out@.map_values(|x: SystemId| x.0) == old(out)@.map_values(|x: SystemId| x.0) + enabled_ids(list@.subrange(0, i as int)),
        decreases list@.len() - i,
    {
        let ghost before = out@;
        if list[i].enabled {
            out.push(list[i].id);
            proof {
                assert(out@.map_values(|x: SystemId| x.0) =~= before.map_values(|x: SystemId| x.0).push(list@[i as int].id.0));
            }
        }
        proof {
            assert(list@.subrange(0, i as int + 1).drop_last() =~= list@.subrange(0, i as int));
        }
        i = i + 1;
    }
    proof {
        assert(list@.subrange(0, i as int) =~= list@);
    }
}

/// Inserting a new key at a position adds it to the map.
pub proof fn lemma_insert_key<V>(keys: Seq<u64>, vals: Seq<V>, p: int, k: u64, v: V)
    requires
        distinct_keys(keys),
        keys.len() == vals.len(),
        0 <= p <= keys.len(),
        !keyed_map(keys, vals).contains_key(k),
    ensures
        distinct_keys(keys.insert(p, k)),
        keyed_map(keys.insert(p, k), vals.insert(p, v)) == keyed_map(keys, vals).insert(k, v),
{
    let nk = keys.insert(p, k);
    let nv = vals.insert(p, v);
    assert(nk.remove(p) =~= keys);
    assert(nv.remove(p) =~= vals);
    assert forall|i: int, j: int| 0 <= i < nk.len() && 0 <= j < nk.len() && i != j implies nk[i] != nk[j] by {
        if i == p {
            assert(!keys.contains(k));
            let sj = if j < p { j } else { j - 1 };
            assert(keys[sj] == nk[j]);
        } else if j == p {
            assert(!keys.contains(k));
            let si = if i < p { i } else { i - 1 };
            assert(keys[si] == nk[i]);
        } else {
            let si = if i < p { i } else { i - 1 };
            let sj = if j < p { j } else { j - 1 };
            assert(keys[si] == nk[i] && keys[sj] == nk[j]);
        }
    }
    lemma_keyed_remove(nk, nv, p);
    lemma_key_pos(nk, p);
    assert(nk[p] == k);
    assert(keyed_map(nk, nv).contains_key(k));
    assert(keyed_map(nk, nv)[k] == v);
    assert(keyed_map(nk, nv) =~= keyed_map(nk, nv).remove(k).insert(k, v));
}

/// The test that a value is not `k`.
pub open spec fn other_than(k: u64) -> spec_fn(u64) -> bool {
    |x: u64| x != k
}

/// The ids of a sequence with `k` left out, the others kept in their order.
pub open spec fn ids_without(ids: Seq<u64>, k: u64) -> Seq<u64> {
    ids.filter(other_than(k))
}

/// The test that an entry's id is not `k`.
pub open spec fn entry_other_than<S>(k: u64) -> spec_fn(RegisteredSystem<S>) -> bool {
    |r: RegisteredSystem<S>| r.id.0 != k
}

/// The entries of a list with the one under id `k` left out, the others
/// kept in their order.
pub open spec fn entries_without<S>(list: Seq<RegisteredSystem<S>>, k: u64) -> Seq<RegisteredSystem<S>> {
    list.filter(entry_other_than(k))
}

/// Filtering by a test that every element passes keeps the sequence.
pub proof fn lemma_filter_all<T>(s: Seq<T>, keep: spec_fn(T) -> bool)
    requires
        forall|i: int| 0 <= i < s.len() ==> keep(#[trigger] s[i]),
    ensures
        s.filter(keep) == s,
    decreases s.len(),
{
    reveal(Seq::filter);
    if s.len() > 0 {
        lemma_filter_all(s.drop_last(), keep);
        assert(s.drop_last().push(s.last()) =~= s);
    }
}

/// Filtering out the one element that fails a test removes its position.
pub proof fn lemma_filter_one<T>(s: Seq<T>, keep: spec_fn(T) -> bool, p: int)
    requires
        0 <= p < s.len(),
        !keep(s[p]),
        forall|i: int| 0 <= i < s.len() && i != p ==> keep(#[trigger] s[i]),
    ensures
        s.filter(keep) == s.remove(p),
    decreases s.len(),
{
    reveal(Seq::filter);
    if p == s.len() - 1 {
        lemma_filter_all(s.drop_last(), keep);
        assert(s.remove(p) =~= s.drop_last());
    } else {
        lemma_filter_one(s.drop_last(), keep, p);
        assert(s.remove(p) =~= s.drop_last().remove(p).push(s.last()));
    }
}

/// A list none of whose entries has id `k` loses nothing when `k` is left
/// out.
pub proof fn lemma_without_absent<S>(list: Seq<RegisteredSystem<S>>, k: u64)
    requires
        !registered_ids(list).contains(k),
    ensures
        ids_without(registered_ids(list), k) == registered_ids(list),
        entries_without(list, k) == list,
{
    let ids = registered_ids(list);
    assert forall|i: int| 0 <= i < ids.len() implies other_than(k)(#[trigger] ids[i]) by {
        assert(ids.contains(ids[i]));
    }
    lemma_filter_all(ids, other_than(k));
    assert forall|i: int| 0 <= i < list.len() implies entry_other_than::<S>(k)(#[trigger] list[i]) by {
        assert(ids[i] == list[i].id.0);
        assert(ids.contains(ids[i]));
    }
    lemma_filter_all(list, entry_other_than::<S>(k));
}

/// A list whose only entry with id `k` is at `p` loses exactly position
/// `p` when `k` is left out.
pub proof fn lemma_without_at<S>(list: Seq<RegisteredSystem<S>>, k: u64, p: int)
    requires
        0 <= p < list.len(),
        list[p].id.0 == k,
        forall|i: int| 0 <= i < list.len() && i != p ==> (#[trigger] list[i]).id.0 != k,
    ensures
        ids_without(registered_ids(list), k) == registered_ids(list).remove(p),
        entries_without(list, k) == list.remove(p),
{
    let ids = registered_ids(list);
    assert forall|i: int| 0 <= i < ids.len() && i != p implies other_than(k)(#[trigger] ids[i]) by {
        assert(ids[i] == list[i].id.0);
    }
    lemma_filter_one(ids, other_than(k), p);
    assert forall|i: int| 0 <= i < list.len() && i != p implies entry_other_than::<S>(k)(#[trigger] list[i]) by {}
    lemma_filter_one(list, entry_other_than::<S>(k), p);
}

/// A key in neither part of a concatenation is not in it.
pub proof fn lemma_absent_from_both(a: Seq<u64>, b: Seq<u64>, k: u64)
    requires
        !a.contains(k),
        !b.contains(k),
    ensures
        !(a + b).contains(k),
{
    if (a + b).contains(k) {
        let i = choose|i: int| 0 <= i < (a + b).len() && (a + b)[i] == k;
        if i < a.len() {
            assert(a[i] == k);
        } else {
            assert(b[i - a.len()] == k);
        }
    }
}

} // verus!
