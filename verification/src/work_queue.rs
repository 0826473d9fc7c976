//! The self-feeding work queue's state: pending items plus the count of
//! items handed out but not yet fully expanded. Work is finished only when
//! both are zero; an empty pending list alone proves nothing, because a
//! worker still expanding an item may push more. The blocking, the sentinels
//! and the lock around this state live with the callers; every transition of
//! the state itself is specified here.

use vstd::prelude::*;

verus! {

/// State of the work queue, generic over the item type.
pub struct WorkQueue<T> {
    pub items: Vec<T>,
    pub in_flight: usize,
}

impl<T> WorkQueue<T> {
    /// An empty queue with no work outstanding.
    pub fn new() -> (r: WorkQueue<T>)
        ensures
            r.items@ =~= Seq::<T>::empty(),
            r.in_flight == 0,
    {
        WorkQueue { items: Vec::new(), in_flight: 0 }
    }

    /// Append one item; any worker may feed newly found work back.
    pub fn push(&mut self, item: T)
        ensures
            final(self).items@ == old(self).items@.push(item),
            final(self).in_flight == old(self).in_flight,
    {
        self.items.push(item);
    }

    /// Take one pending item, which then counts as in flight until
    /// `complete` is called for it. Yields nothing when the list is empty.
    pub fn pop(&mut self) -> (r: Option<T>)
        requires
            old(self).in_flight < usize::MAX,
        ensures
            old(self).items@.len() == 0 ==> r is None && final(self).items@ == old(self).items@
                && final(self).in_flight == old(self).in_flight,
            old(self).items@.len() > 0 ==> (r == Some(old(self).items@.last())
                && final(self).items@ == old(self).items@.drop_last() && final(self).in_flight
                == old(self).in_flight + 1),
    {
        match self.items.pop() {
            None => None,
            Some(item) => {
                self.in_flight = self.in_flight + 1;
                Some(item)
            },
        }
    }

    /// Declare one popped item fully expanded: everything it will ever feed
    /// back has been pushed.
    pub fn complete(&mut self)
        requires
            old(self).in_flight > 0,
        ensures
            final(self).items@ == old(self).items@,
            final(self).in_flight == old(self).in_flight - 1,
    {
        self.in_flight = self.in_flight - 1;
    }

    /// No more work can ever appear: nothing pending and nothing in flight.
    pub fn is_finished(&self) -> (r: bool)
        ensures
            r == (self.items@.len() == 0 && self.in_flight == 0),
    {
        self.items.len() == 0 && self.in_flight == 0
    }

    /// How many items are pending.
    pub fn len(&self) -> (r: usize)
        ensures
            r == self.items@.len(),
    {
        self.items.len()
    }
}

} // verus!
