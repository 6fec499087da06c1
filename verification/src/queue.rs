//! A first-in, first-out queue.

use std::collections::VecDeque;
use vstd::prelude::*;

verus! {

/// A queue that hands its items out in the order in which they were put in.
pub struct Queue<T> {
    queue: VecDeque<T>,
}

impl<T> View for Queue<T> {
    type V = Seq<T>;

    /// The waiting items, the oldest first.
    closed spec fn view(&self) -> Seq<T> {
        self.queue@
    }
}

impl<T> Queue<T> {
    /// An empty queue.
    pub fn new() -> (q: Self)
        ensures
            q@ == Seq::<T>::empty(),
    {
        Queue { queue: VecDeque::new() }
    }

    /// Puts `val` behind every item already waiting.
    pub fn enqueue(&mut self, val: T)
        ensures
            final(self)@ == old(self)@.push(val),
    {
        self.queue.push_back(val);
    }

    /// Takes out the item that has waited longest, if there is one.
    pub fn dequeue(&mut self) -> (front: Option<T>)
        ensures
            match front {
                Some(item) => old(self)@.len() > 0 && item == old(self)@[0] && final(self)@
                    == old(self)@.drop_first(),
                None => old(self)@.len() == 0 && final(self)@ == old(self)@,
            },
    {
        self.queue.pop_front()
    }

    /// Whether no item is waiting.
    pub fn is_empty(&self) -> (empty: bool)
        ensures
            empty == (self@.len() == 0),
    {
        broadcast use vstd::std_specs::vecdeque::group_vec_dequeue_axioms;

        self.queue.len() == 0
    }
}

} // verus!
