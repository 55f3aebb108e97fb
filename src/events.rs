use vstd::prelude::*;

verus! {

/// Receives the events of a run, one at a time, in the order they happen.
pub trait EventConsumer<E> {
    fn push(&mut self, event: E);
}

/// Keeps every event, in arrival order.
pub struct EventAccumulator<E> {
    pub events: Vec<E>,
}

impl<E> EventAccumulator<E> {
    /// An accumulator that has seen no event.
    pub fn new() -> (r: Self)
        ensures
            r.events@.len() == 0,
    {
        EventAccumulator { events: Vec::new() }
    }
}

impl<E> Default for EventAccumulator<E> {
    fn default() -> (r: Self)
        ensures
            r.events@.len() == 0,
    {
        EventAccumulator::new()
    }
}

impl<E> EventConsumer<E> for EventAccumulator<E> {
    fn push(&mut self, event: E)
        ensures
            final(self).events@ == old(self).events@.push(event),
    {
        self.events.push(event);
    }
}

/// Ignores every event.
pub struct EventBlackHole;

impl<E> EventConsumer<E> for EventBlackHole {
    fn push(&mut self, _event: E) {
    }
}

} // verus!
