//! Single-buffered events: each event type has one queue that systems write
//! to and read from within a frame; the queues are cleared once per frame,
//! so handlers that run before the clear see the previous frame's events and
//! later ones see the events written earlier in the same frame.

use vstd::prelude::*;
use std::marker::PhantomData;
use crate::keyed::KeyedVec;

verus! {

/// Single-buffered event queue for one event type.
pub struct Events<T> {
    buffer: Vec<T>,
}

impl<T> View for Events<T> {
    type V = Seq<T>;

    /// The queued events, oldest first.
    closed spec fn view(&self) -> Seq<T> {
        self.buffer@
    }
}

impl<T> Events<T> {
    /// Creates an empty queue.
    pub fn new() -> (r: Events<T>)
        ensures
            r@ == Seq::<T>::empty(),
    {
        Events { buffer: Vec::new() }
    }

    /// Sends an event.
    pub fn send(&mut self, event: T)
        ensures
            final(self)@ == old(self)@.push(event),
    {
        self.buffer.push(event);
    }

    /// The queued events, oldest first.
    pub fn iter(&self) -> (r: &[T])
        ensures
            r@ == self@,
    {
        self.buffer.as_slice()
    }

    /// Returns the number of events.
    pub fn len(&self) -> (r: usize)
        ensures
            r == self@.len(),
    {
        self.buffer.len()
    }

    /// Returns whether there are no events.
    pub fn is_empty(&self) -> (r: bool)
        ensures
            r == (self@.len() == 0),
    {
        self.buffer.len() == 0
    }

    /// Removes every event.
    pub fn clear(&mut self)
        ensures
            final(self)@ == Seq::<T>::empty(),
    {
        self.buffer.clear();
    }
}

impl<T> Default for Events<T> {
    fn default() -> (r: Events<T>)
        ensures
            r@ == Seq::<T>::empty(),
    {
        Events::new()
    }
}

/// The event queues of every event type, keyed by the event type's id.
pub struct EventStorage<T> {
    queues: KeyedVec<Events<T>>,
}

impl<T> View for EventStorage<T> {
    type V = Map<u64, Events<T>>;

    /// The queue of each event type that has one.
    closed spec fn view(&self) -> Map<u64, Events<T>> {
        self.queues@
    }
}

impl<T> EventStorage<T> {
    /// The keyed queues are well formed.
    pub closed spec fn wf(&self) -> bool {
        self.queues.wf()
    }

    /// Creates a storage with no queues.
    pub fn new() -> (r: EventStorage<T>)
        ensures
            r.wf(),
            r@ == Map::<u64, Events<T>>::empty(),
    {
        EventStorage { queues: KeyedVec::new() }
    }

    /// Returns the queue of an event type, creating an empty one first if
    /// there is none.
    pub fn ensure_queue(&mut self, id: u64) -> (r: &mut Events<T>)
        requires
            old(self).wf(),
        ensures
            final(self).wf(),
            old(self)@.contains_key(id) ==> *r == old(self)@[id],
            !old(self)@.contains_key(id) ==> r@ == Seq::<T>::empty(),
            final(self)@ == old(self)@.insert(id, *final(r)),
    {
        if !self.queues.contains_key(id) {
            let _ = self.queues.insert(id, Events::new());
        }
        self.queues.get_mut(id).unwrap()
    }

    /// Returns the queue of an event type, if it has one.
    pub fn queue(&self, id: u64) -> (r: Option<&Events<T>>)
        requires
            self.wf(),
        ensures
            r == (if self@.contains_key(id) { Some(&self@[id]) } else { None }),
    {
        self.queues.get(id)
    }

    /// Clears every queue; the queues themselves stay.
    pub fn clear_all(&mut self)
        requires
            old(self).wf(),
        ensures
            final(self).wf(),
            final(self)@.dom() == old(self)@.dom(),
            forall|id: u64| #[trigger] final(self)@.contains_key(id) ==> final(self)@[id]@ == Seq::<T>::empty(),
    {
        proof {
            self.queues.lemma_keys();
        }
        let keys = self.queues.keys();
        let mut i: usize = 0;
        while i < keys.len()
            invariant
                i <= keys@.len(),
                self.wf(),
                keys@ == old(self).queues.key_seq(),
                self.queues.key_seq() == old(self).queues.key_seq(),
                self@.dom() == old(self)@.dom(),
                forall|k: int| 0 <= k < i ==> #[trigger] self@[keys@[k]]@ == Seq::<T>::empty(),
            decreases keys@.len() - i,
        {
            let ghost prev = self@;
            proof {
                self.queues.lemma_keys();
                assert(keys@.contains(keys@[i as int]));
            }
            let q = self.queues.get_mut(keys[i]).unwrap();
            q.clear();
            proof {
                let key = keys@[i as int];
                assert(self@ == prev.insert(key, self@[key]));
                assert(self@.dom() =~= old(self)@.dom());
                assert forall|k: int| 0 <= k < i + 1 implies #[trigger] self@[keys@[k]]@ == Seq::<T>::empty() by {
                    if k < i {
                        assert(keys@[k] != key);
                    }
                }
            }
            i = i + 1;
        }
        proof {
            self.queues.lemma_keys();
            assert forall|id: u64| #[trigger] self@.contains_key(id) implies self@[id]@ == Seq::<T>::empty() by {
                assert(keys@.contains(id));
                let k = choose|k: int| 0 <= k < keys@.len() && keys@[k] == id;
            }
        }
    }
}

impl<T> Default for EventStorage<T> {
    fn default() -> (r: EventStorage<T>)
        ensures
            r.wf(),
            r@ == Map::<u64, Events<T>>::empty(),
    {
        EventStorage::new()
    }
}

/// Sends events into one queue.
pub struct EventWriter<'w, T> {
    pub events: &'w mut Events<T>,
}

impl<'w, T> EventWriter<'w, T> {
    /// The queue as it is now.
    pub open spec fn queued(&self) -> Seq<T> {
        self.events@
    }

    /// A writer into a queue; what it leaves in the writer is what the queue
    /// holds afterwards.
    pub fn new(events: &'w mut Events<T>) -> (r: EventWriter<'w, T>)
        ensures
            r.queued() == old(events)@,
            final(events)@ == final(r.events)@,
    {
        EventWriter { events }
    }

    /// Sends an event.
    pub fn send(&mut self, event: T)
        ensures
            final(self).queued() == old(self).queued().push(event),
            final(final(self).events)@ == final(old(self).events)@,
    {
        self.events.send(event);
    }

    /// Sends several events, in order.
    pub fn send_batch(&mut self, events: Vec<T>)
        ensures
            final(self).queued() == old(self).queued() + events@,
            final(final(self).events)@ == final(old(self).events)@,
    {
        let ghost orig = events@;
        let mut slots = crate::bundle::into_options(events);
        let mut i: usize = 0;
        while i < slots.len()
            invariant
                i <= slots@.len(),
                slots@.len() == orig.len(),
                forall|k: int| i <= k < slots@.len() ==> #[trigger] slots@[k] == Some(orig[k]),
                self.queued() == old(self).queued() + orig.subrange(0, i as int),
                final(self.events)@ == final(old(self).events)@,
            decreases slots@.len() - i,
        {
            let e = slots[i].take().unwrap();
            self.events.send(e);
            proof {
                assert(orig.subrange(0, i as int + 1) =~= orig.subrange(0, i as int).push(orig[i as int]));
            }
            i = i + 1;
        }
        proof {
            assert(orig.subrange(0, i as int) =~= orig);
        }
    }
}

/// Marker state of an event writer parameter.
pub struct EventWriterState<T> {
    _marker: PhantomData<T>,
}

impl<T> EventWriterState<T> {
    /// Creates the marker.
    pub fn new() -> (r: EventWriterState<T>) {
        EventWriterState { _marker: PhantomData }
    }
}

/// Reads the events of one queue.
pub struct EventReader<'w, T> {
    events: &'w Events<T>,
}

impl<'w, T> EventReader<'w, T> {
    /// The readable events.
    pub closed spec fn readable(&self) -> Seq<T> {
        self.events@
    }

    /// A reader of a queue.
    pub fn new(events: &'w Events<T>) -> (r: EventReader<'w, T>)
        ensures
            r.readable() == events@,
    {
        EventReader { events }
    }

    /// Returns an iterator over the readable events, oldest first.
    pub fn iter(&self) -> (r: EventIter<'w, T>)
        ensures
            r.remaining() == self.readable(),
    {
        EventIter { items: self.events.iter(), index: 0 }
    }

    /// Returns the number of readable events.
    pub fn len(&self) -> (r: usize)
        ensures
            r == self.readable().len(),
    {
        self.events.len()
    }

    /// Returns whether there are no readable events.
    pub fn is_empty(&self) -> (r: bool)
        ensures
            r == (self.readable().len() == 0),
    {
        self.len() == 0
    }
}

/// Steps through a queue's events.
pub struct EventIter<'a, T> {
    items: &'a [T],
    index: usize,
}

impl<'a, T> EventIter<'a, T> {
    /// The events not handed out yet, in order.
    pub closed spec fn remaining(&self) -> Seq<T> {
        self.items@.subrange(self.index as int, self.items@.len() as int)
    }

    /// The position never passes the end.
    pub closed spec fn wf(&self) -> bool {
        self.index <= self.items@.len()
    }

    /// Hands out the next event, if any.
    pub fn next(&mut self) -> (r: Option<&'a T>)
        requires
            old(self).wf(),
        ensures
            final(self).wf(),
            old(self).remaining().len() == 0 ==> r is None && final(self).remaining() == old(self).remaining(),
            old(self).remaining().len() > 0 ==> r == Some(&old(self).remaining()[0])
                && final(self).remaining() == old(self).remaining().drop_first(),
    {
        if self.index < self.items.len() {
            let item = &self.items[self.index];
            self.index = self.index + 1;
            proof {
                assert(self.remaining() =~= old(self).remaining().drop_first());
            }
            Some(item)
        } else {
            None
        }
    }

    /// The number of events left, as a lower and an upper bound.
    pub fn size_hint(&self) -> (r: (usize, Option<usize>))
        requires
            self.wf(),
        ensures
            r.0 == self.remaining().len(),
            r.1 == Some(r.0),
    {
        let left = self.items.len() - self.index;
        (left, Some(left))
    }
}

/// Marker state of an event reader parameter.
pub struct EventReaderState<T> {
    _marker: PhantomData<T>,
}

impl<T> EventReaderState<T> {
    /// Creates the marker.
    pub fn new() -> (r: EventReaderState<T>) {
        EventReaderState { _marker: PhantomData }
    }
}

} // verus!
