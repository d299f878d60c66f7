//! The bounded event queue between the transport handlers and the upper
//! layer: first in, first out, with a fixed capacity; a full queue refuses
//! the element, which lets the producer apply back-pressure.

use vstd::prelude::*;

verus! {

pub struct EventQueue<T> {
    items: Vec<T>,
    capacity: usize,
}

impl<T> EventQueue<T> {
    /// The queued elements, oldest first.
    pub closed spec fn view(&self) -> Seq<T> {
        self.items@
    }

    pub closed spec fn cap(&self) -> usize {
        self.capacity
    }

    pub open spec fn wf(&self) -> bool {
        self@.len() <= self.cap()
    }

    pub fn new(capacity: usize) -> (r: EventQueue<T>)
        ensures
            r@ == Seq::<T>::empty(),
            r.cap() == capacity,
            r.wf(),
    {
        EventQueue { items: Vec::new(), capacity }
    }

    pub fn len(&self) -> (r: usize)
        ensures
            r == self@.len(),
    {
        self.items.len()
    }

    /// Enqueues at the back; a full queue hands the element back unchanged.
    pub fn push(&mut self, t: T) -> (r: Result<(), T>)
        requires
            old(self).wf(),
        ensures
            final(self).wf(),
            final(self).cap() == old(self).cap(),
            old(self)@.len() < old(self).cap() ==> r is Ok && final(self)@ == old(self)@.push(t),
            old(self)@.len() >= old(self).cap() ==> (r matches Err(u) && u == t) && final(self)@
                == old(self)@,
    {
        if self.items.len() < self.capacity {
            self.items.push(t);
            Ok(())
        } else {
            Err(t)
        }
    }

    /// Dequeues the oldest element, if any.
    pub fn pop(&mut self) -> (r: Option<T>)
        requires
            old(self).wf(),
        ensures
            final(self).wf(),
            final(self).cap() == old(self).cap(),
            old(self)@.len() == 0 ==> r is None && final(self)@ == old(self)@,
            old(self)@.len() > 0 ==> (r matches Some(t) && t == old(self)@[0]) && final(self)@
                == old(self)@.skip(1),
    {
        if self.items.len() == 0 {
            None
        } else {
            let t = self.items.remove(0);
            proof {
                assert(self.items@ =~= old(self)@.skip(1));
            }
            Some(t)
        }
    }
}

}
