use vstd::prelude::*;

use crate::events::OrderEvent;

verus! {

/// The bounded ingress ring: order events queued by the producer and
/// drained, strictly first-in first-out, by the matcher. A push onto a full
/// queue is rejected rather than blocking; a pop from an empty queue
/// returns nothing.
pub struct IngressQueue {
    events: Vec<OrderEvent>,
    capacity: usize,
}

impl View for IngressQueue {
    type V = Seq<OrderEvent>;

    closed spec fn view(&self) -> Seq<OrderEvent> {
        self.events@
    }
}

impl IngressQueue {
    /// The fixed bound the queue was created with.
    pub closed spec fn spec_capacity(&self) -> int {
        self.capacity as int
    }

    pub open spec fn wf(&self) -> bool {
        self@.len() <= self.spec_capacity()
    }

    pub fn new(capacity: usize) -> (q: IngressQueue)
        ensures
            q.wf(),
            q@ == Seq::<OrderEvent>::empty(),
            q.spec_capacity() == capacity as int,
    {
        IngressQueue { events: Vec::new(), capacity }
    }

    pub fn capacity(&self) -> (c: usize)
        ensures
            c as int == self.spec_capacity(),
    {
        self.capacity
    }

    pub fn len(&self) -> (n: usize)
        ensures
            n as int == self@.len(),
    {
        self.events.len()
    }

    pub fn is_empty(&self) -> (r: bool)
        ensures
            r == (self@.len() == 0),
    {
        self.events.len() == 0
    }

    /// Non-blocking push: appended when there is room, rejected at exact
    /// capacity with the queue left unchanged.
    pub fn try_push(&mut self, event: OrderEvent) -> (ok: bool)
        requires
            old(self).wf(),
        ensures
            final(self).wf(),
            final(self).spec_capacity() == old(self).spec_capacity(),
            ok == (old(self)@.len() < old(self).spec_capacity()),
            ok ==> final(self)@ == old(self)@.push(event),
            !ok ==> final(self)@ == old(self)@,
    {
        if self.events.len() < self.capacity {
            self.events.push(event);
            true
        } else {
            false
        }
    }

    /// Non-blocking pop: the oldest event when there is one, preserving
    /// submission order exactly.
    pub fn try_pop(&mut self) -> (r: Option<OrderEvent>)
        requires
            old(self).wf(),
        ensures
            final(self).wf(),
            final(self).spec_capacity() == old(self).spec_capacity(),
            old(self)@.len() == 0 ==> r is None && final(self)@ == old(self)@,
            old(self)@.len() > 0 ==> r == Some(old(self)@[0]) && final(self)@ == old(self)@.drop_first(),
    {
        if self.events.len() == 0 {
            None
        } else {
            let e = self.events.remove(0);
            Some(e)
        }
    }
}

} // verus!
