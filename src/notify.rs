//! Deferred notifications: events queued while the world changes, handed
//! to their consumers in order when those run.
use vstd::prelude::*;

verus! {

/// A queue of events of one kind, waiting for their consumer.
#[derive(Debug)]
pub struct Deferred<T> {
    pending: Vec<T>,
}

impl<T> View for Deferred<T> {
    type V = Seq<T>;

    /// The queued events, oldest first.
    closed spec fn view(&self) -> Seq<T> {
        self.pending@
    }
}

impl<T> Deferred<T> {
    /// An empty queue.
    pub fn new() -> (r: Self)
        ensures
            r@ == Seq::<T>::empty(),
    {
        Deferred { pending: Vec::new() }
    }

    /// Queues `event` for the next run of the consumer.
    pub fn queue_run(&mut self, event: T)
        ensures
            final(self)@ == old(self)@.push(event),
    {
        self.pending.push(event);
    }

    /// Hands every queued event, oldest first, to the consumer's buffer
    /// `events`, and empties the queue.
    pub fn run_now(&mut self, events: &mut Vec<T>)
        ensures
            final(events)@ == old(events)@ + old(self)@,
            final(self)@ == Seq::<T>::empty(),
    {
        events.append(&mut self.pending);
    }

    /// Number of queued events.
    pub fn len(&self) -> (r: usize)
        ensures
            r == self@.len(),
    {
        self.pending.len()
    }
}

} // verus!
