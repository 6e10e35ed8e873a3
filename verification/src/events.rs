//! Frame-buffered event queues and their reader / writer handles.

use vstd::prelude::*;

verus! {

/// A queue of events of one type. Events sent since the last `update` form
/// the live window; `update` retires them while keeping them readable until
/// the next `update`.
pub struct Events<T> {
    pub events: Vec<T>,
    pub start_index: usize,
}

impl<T> Events<T> {
    /// Every event ever sent, oldest first.
    pub open spec fn all_events(self) -> Seq<T> {
        self.events@
    }

    /// The events sent since the last `update`.
    pub open spec fn live(self) -> Seq<T> {
        self.events@.subrange(self.start_index as int, self.events@.len() as int)
    }

    pub open spec fn wf(self) -> bool {
        self.start_index <= self.events@.len()
    }

    pub fn new() -> (r: Self)
        ensures
            r.wf(),
            r.all_events() == Seq::<T>::empty(),
            r.live() == Seq::<T>::empty(),
    {
        let r = Self { events: Vec::new(), start_index: 0 };
        proof {
            assert(r.live() =~= Seq::<T>::empty());
        }
        r
    }

    /// Appends one event to the live window.
    pub fn send(&mut self, event: T)
        requires
            old(self).wf(),
        ensures
            final(self).wf(),
            final(self).all_events() == old(self).all_events().push(event),
            final(self).live() == old(self).live().push(event),
    {
        self.events.push(event);
        proof {
            assert(self.live() =~= old(self).live().push(event));
        }
    }

    /// Discards every event, read or not.
    pub fn clear(&mut self)
        ensures
            final(self).wf(),
            final(self).all_events() == Seq::<T>::empty(),
            final(self).live() == Seq::<T>::empty(),
    {
        self.events.clear();
        self.start_index = 0;
        proof {
            assert(self.live() =~= Seq::<T>::empty());
        }
    }

    /// Retires the current live window: the events stay stored, but the live
    /// window becomes empty until new events are sent.
    pub fn update(&mut self)
        requires
            old(self).wf(),
        ensures
            final(self).wf(),
            final(self).all_events() == old(self).all_events(),
            final(self).live() == Seq::<T>::empty(),
    {
        self.start_index = self.events.len();
        proof {
            assert(self.live() =~= Seq::<T>::empty());
        }
    }

    /// The live events, oldest first.
    pub fn iter(&self) -> (r: &[T])
        requires
            self.wf(),
        ensures
            r@ == self.live(),
    {
        vstd::slice::slice_subrange(self.events.as_slice(), self.start_index, self.events.len())
    }

    /// How many events are live.
    pub fn len(&self) -> (r: usize)
        requires
            self.wf(),
        ensures
            r == self.live().len(),
    {
        self.events.len() - self.start_index
    }

    pub fn is_empty(&self) -> (r: bool)
        requires
            self.wf(),
        ensures
            r == (self.live().len() == 0),
    {
        self.len() == 0
    }
}

/// A cursor over an event queue that hands out only the events not yet read
/// through this reader.
pub struct EventReader {
    pub last_read: usize,
}

impl EventReader {
    /// A reader that starts at the live window of `events`: it will see the
    /// events sent since the queue's last `update`.
    pub fn new<T>(events: &Events<T>) -> (r: Self)
        requires
            events.wf(),
        ensures
            r.last_read == events.start_index,
    {
        Self { last_read: events.start_index }
    }

    /// The events sent since this reader last looked, oldest first; the
    /// reader then stands at the end of the queue.
    pub fn iter<'a, T>(&mut self, events: &'a Events<T>) -> (r: &'a [T])
        requires
            events.wf(),
            old(self).last_read <= events.all_events().len(),
        ensures
            r@ == events.all_events().subrange(
                old(self).last_read as int,
                events.all_events().len() as int,
            ),
            final(self).last_read == events.all_events().len(),
    {
        let start = self.last_read;
        self.last_read = events.events.len();
        vstd::slice::slice_subrange(events.events.as_slice(), start, events.events.len())
    }

    /// How many events this reader has not seen yet.
    pub fn len<T>(&self, events: &Events<T>) -> (r: usize)
        requires
            self.last_read <= events.all_events().len(),
        ensures
            r == events.all_events().len() - self.last_read,
    {
        events.events.len() - self.last_read
    }

    pub fn is_empty<T>(&self, events: &Events<T>) -> (r: bool)
        requires
            self.last_read <= events.all_events().len(),
        ensures
            r == (self.last_read == events.all_events().len()),
    {
        self.len(events) == 0
    }
}

/// A sending handle: forwards events into a queue.
pub struct EventWriter {
    pub sent: usize,
}

impl EventWriter {
    pub fn new() -> (r: Self)
        ensures
            r.sent == 0,
    {
        Self { sent: 0 }
    }

    /// Appends one event to the queue's live window.
    pub fn send<T>(&mut self, events: &mut Events<T>, event: T)
        requires
            old(events).wf(),
        ensures
            final(events).wf(),
            final(events).all_events() == old(events).all_events().push(event),
            final(events).live() == old(events).live().push(event),
            final(self).sent == if old(self).sent < usize::MAX {
                (old(self).sent + 1) as usize
            } else {
                old(self).sent
            },
    {
        events.send(event);
        if self.sent < usize::MAX {
            self.sent = self.sent + 1;
        }
    }
}

} // verus!
