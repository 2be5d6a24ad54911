//! A first-in, first-out queue over the doubly linked list: enqueueing is a
//! tail insert, dequeueing a head delete.

use crate::linked_list::LinkedList;
use vstd::prelude::*;

verus! {

/// A FIFO queue holding its elements in a linked list; its abstract value is
/// the sequence of queued elements, front first.
pub struct Queue<T> {
    elements: LinkedList<T>,
}

impl<T> View for Queue<T> {
    type V = Seq<T>;

    closed spec fn view(&self) -> Seq<T> {
        self.elements@
    }
}

impl<T> Queue<T> {
    /// The underlying list is well formed.
    pub closed spec fn wf(self) -> bool {
        self.elements.wf()
    }

    /// Creates an empty queue.
    pub fn new() -> (q: Queue<T>)
        ensures
            q.wf(),
            q@ == Seq::<T>::empty(),
    {
        Queue { elements: LinkedList::new() }
    }

    /// Appends `value` at the back of the queue.
    pub fn enqueue(&mut self, value: T)
        requires
            old(self).wf(),
            old(self)@.len() < u32::MAX,
        ensures
            final(self).wf(),
            final(self)@ == old(self)@.push(value),
    {
        proof {
            self.elements.lemma_length_matches_view();
        }
        self.elements.insert_at_tail(value)
    }

    /// Removes and returns the front element, or nothing when the queue is
    /// empty.
    pub fn dequeue(&mut self) -> (r: Option<T>)
        requires
            old(self).wf(),
        ensures
            final(self).wf(),
            old(self)@.len() == 0 ==> r is None && *final(self) == *old(self),
            old(self)@.len() > 0 ==> r == Some(old(self)@[0]) && final(self)@ == old(
                self,
            )@.drop_first(),
    {
        self.elements.delete_head()
    }

    /// A reference to the front element, or nothing when the queue is empty.
    pub fn peek_front(&self) -> (r: Option<&T>)
        requires
            self.wf(),
        ensures
            self@.len() > 0 ==> (r matches Some(v) && *v == self@[0]),
            self@.len() == 0 ==> r is None,
    {
        self.elements.get(0)
    }

    /// The number of queued elements.
    pub fn len(&self) -> (n: usize)
        requires
            self.wf(),
        ensures
            n == self@.len(),
    {
        proof {
            self.elements.lemma_length_matches_view();
        }
        self.elements.length as usize
    }

    /// Whether nothing is queued.
    pub fn is_empty(&self) -> (b: bool)
        requires
            self.wf(),
        ensures
            b == (self@.len() == 0),
    {
        proof {
            self.elements.lemma_length_matches_view();
        }
        self.elements.length == 0
    }
}

impl<T> Default for Queue<T> {
    /// An empty queue.
    fn default() -> (q: Self)
        ensures
            q.wf(),
            q@ == Seq::<T>::empty(),
    {
        Queue::new()
    }
}

} // verus!
