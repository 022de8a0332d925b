//! Event merger: a bounded FIFO queue of scheduler events.  On overflow
//! the oldest tick is dropped in favour of the new event (ticks are
//! idempotent); events that are not ticks are never dropped.

use vstd::prelude::*;
use crate::scheduler::Event;

verus! {

/// A single-consumer FIFO of scheduler events with a fixed capacity.
pub struct EventQueue {
    /// Queued events, oldest first.
    pub items: Vec<Event>,
    /// Most events the queue holds at once.
    pub capacity: usize,
}

impl EventQueue {
    /// The queue never exceeds its capacity, which admits at least one
    /// event.
    pub open spec fn wf(self) -> bool {
        self.items@.len() <= self.capacity && self.capacity >= 1
    }

    /// An empty queue of the given capacity.
    pub fn new(capacity: usize) -> (q: EventQueue)
        requires
            capacity >= 1,
        ensures
            q.wf(),
            q.items@.len() == 0,
            q.capacity == capacity,
    {
        EventQueue { items: Vec::new(), capacity }
    }

    /// How many events are queued.
    pub fn len(&self) -> (n: usize)
        ensures
            n == self.items@.len(),
    {
        self.items.len()
    }

    /// The position of the oldest queued tick, if any.
    fn first_tick(&self) -> (r: Option<usize>)
        ensures
            match r {
                Some(t) => {
                    &&& t < self.items@.len()
                    &&& self.items@[t as int] is Tick
                    &&& forall|u: int| 0 <= u < t ==> !(self.items@[u] is Tick)
                },
                None => forall|u: int| 0 <= u < self.items@.len() ==> !(self.items@[u] is Tick),
            },
    {
        let mut i: usize = 0;
        while i < self.items.len()
            invariant
                i <= self.items@.len(),
                forall|u: int| 0 <= u < i ==> !(self.items@[u] is Tick),
            decreases self.items@.len() - i,
        {
            let is_tick = match &self.items[i] {
                Event::Tick { .. } => true,
                _ => false,
            };
            if is_tick {
                return Some(i);
            }
            i = i + 1;
        }
        None
    }

    /// Enqueues an event.  A full queue sheds its oldest tick to make
    /// room; a tick offered to a full, tick-free queue is coalesced away.
    /// Only an event that is not a tick can come back rejected, and only
    /// when the queue is full of events that are not ticks.
    pub fn push(&mut self, ev: Event) -> (rejected: Option<Event>)
        requires
            old(self).wf(),
        ensures
            final(self).wf(),
            final(self).capacity == old(self).capacity,
            old(self).items@.len() < old(self).capacity ==> rejected is None
                && final(self).items@ == old(self).items@.push(ev),
            old(self).items@.len() == old(self).capacity ==> {
                ||| (exists|t: int|
                    {
                        &&& 0 <= t < old(self).items@.len()
                        &&& (#[trigger] old(self).items@[t]) is Tick
                        &&& final(self).items@ == old(self).items@.remove(t).push(ev)
                    }) && rejected is None
                ||| ((forall|u: int|
                    0 <= u < old(self).items@.len() ==> !((#[trigger] old(self).items@[u])
                        is Tick)) && final(self).items@ == old(self).items@ && (if ev is Tick {
                    rejected is None
                } else {
                    rejected == Some(ev)
                }))
            },
    {
        if self.items.len() < self.capacity {
            self.items.push(ev);
            return None;
        }
        match self.first_tick() {
            Some(t) => {
                self.items.remove(t);
                self.items.push(ev);
                None
            },
            None => {
                let is_tick = match &ev {
                    Event::Tick { .. } => true,
                    _ => false,
                };
                if is_tick {
                    None
                } else {
                    Some(ev)
                }
            },
        }
    }

    /// Removes and returns the oldest event.
    pub fn pop(&mut self) -> (r: Option<Event>)
        requires
            old(self).wf(),
        ensures
            final(self).wf(),
            final(self).capacity == old(self).capacity,
            old(self).items@.len() == 0 ==> r is None && final(self).items@ == old(self).items@,
            old(self).items@.len() > 0 ==> {
                &&& r == Some(old(self).items@[0])
                &&& final(self).items@ == old(self).items@.remove(0)
            },
    {
        if self.items.len() == 0 {
            return None;
        }
        let ev = self.items.remove(0);
        Some(ev)
    }
}

} // verus!
