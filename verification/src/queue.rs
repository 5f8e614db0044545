//! The change queue: a bounded first-in, first-out queue from one producer
//! to one consumer.

use vstd::prelude::*;
use std::collections::VecDeque;

verus! {

/// A bounded queue. What is enqueued first is dequeued first; nothing is
/// reordered. When the queue is full the newest item is refused and handed
/// back to the producer, and the queue is left as it was.
#[derive(Debug)]
pub struct ChangeQueue<T> {
    items: VecDeque<T>,
    capacity: usize,
}

impl<T> View for ChangeQueue<T> {
    type V = Seq<T>;

    closed spec fn view(&self) -> Seq<T> {
        self.items@
    }
}

impl<T> ChangeQueue<T> {
    /// The number of items that the queue takes.
    pub closed spec fn spec_capacity(&self) -> usize {
        self.capacity
    }

    /// An empty queue that takes up to `capacity` items.
    pub fn new(capacity: usize) -> (q: Self)
        ensures
            q@ == Seq::<T>::empty(),
            q.spec_capacity() == capacity,
    {
        ChangeQueue { items: VecDeque::new(), capacity }
    }

    /// The number of items that the queue takes.
    pub fn capacity(&self) -> (r: usize)
        ensures
            r == self.spec_capacity(),
    {
        self.capacity
    }

    /// The number of items that wait.
    pub fn len(&self) -> (r: usize)
        ensures
            r == self@.len(),
    {
        self.items.len()
    }

    /// Whether nothing waits.
    pub fn is_empty(&self) -> (r: bool)
        ensures
            r == (self@.len() == 0),
    {
        self.items.len() == 0
    }

    /// Puts an item at the back. A full queue refuses it and hands it back.
    pub fn enqueue(&mut self, item: T) -> (r: Result<(), T>)
        ensures
            final(self).spec_capacity() == old(self).spec_capacity(),
            old(self)@.len() < old(self).spec_capacity() ==> r is Ok && final(self)@ == old(self)@.push(item),
            old(self)@.len() >= old(self).spec_capacity() ==> r == Err::<(), T>(item) && final(self)@ == old(self)@,
    {
        if self.items.len() < self.capacity {
            self.items.push_back(item);
            Ok(())
        } else {
            Err(item)
        }
    }

    /// Takes the item at the front, the oldest that waits.
    pub fn dequeue(&mut self) -> (r: Option<T>)
        ensures
            final(self).spec_capacity() == old(self).spec_capacity(),
            old(self)@.len() == 0 ==> r is None && final(self)@ == old(self)@,
            old(self)@.len() > 0 ==> r == Some(old(self)@.first()) && final(self)@ == old(self)@.drop_first(),
    {
        self.items.pop_front()
    }

    /// Takes back the item at the back, the newest that waits. The producer
    /// cancels a submission this way, as long as it was not consumed.
    pub fn retract(&mut self) -> (r: Option<T>)
        ensures
            final(self).spec_capacity() == old(self).spec_capacity(),
            old(self)@.len() == 0 ==> r is None && final(self)@ == old(self)@,
            old(self)@.len() > 0 ==> r == Some(old(self)@.last()) && final(self)@ == old(self)@.drop_last(),
    {
        self.items.pop_back()
    }
}

/// An item that is enqueued behind others leaves after them: enqueuing at
/// the back and dequeuing at the front do not disturb each other, so items
/// leave in the order in which they came.
pub proof fn lemma_fifo<T>(waiting: Seq<T>, item: T)
    ensures
        waiting.len() > 0 ==> waiting.push(item).first() == waiting.first()
            && waiting.push(item).drop_first() == waiting.drop_first().push(item),
        waiting.len() == 0 ==> waiting.push(item).first() == item && waiting.push(
            item,
        ).drop_first() == waiting,
{
    if waiting.len() > 0 {
        assert(waiting.push(item).drop_first() =~= waiting.drop_first().push(item));
    } else {
        assert(waiting.push(item).drop_first() =~= waiting);
    }
}

} // verus!
