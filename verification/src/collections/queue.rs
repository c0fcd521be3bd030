//! A first-in, first-out queue.
//!
//! The queue is backed by a growable array; its view is the sequence of
//! elements from front to back, so elements leave from the first position of
//! the view.

use vstd::prelude::*;

verus! {

pub struct Queue<T> {
    data: Vec<T>,
}

impl<T> View for Queue<T> {
    type V = Seq<T>;

    closed spec fn view(&self) -> Seq<T> {
        self.data@
    }
}

impl<T> Queue<T> {
    /// Creates an empty queue.
    pub fn new() -> (r: Self)
        ensures
            r@ == Seq::<T>::empty(),
    {
        Queue { data: Vec::new() }
    }

    /// Appends `val` at the back of the queue.
    pub fn enqueue(&mut self, val: T)
        ensures
            final(self)@ == old(self)@.push(val),
    {
        self.data.push(val);
    }

    /// Removes and returns the front element, or `None` when the queue is
    /// empty.
    pub fn dequeue(&mut self) -> (r: Option<T>)
        ensures
            old(self)@.len() == 0 ==> r is None && final(self)@ == old(self)@,
            old(self)@.len() > 0 ==> r == Some(old(self)@[0]) && final(self)@ == old(
                self,
            )@.skip(1),
    {
        if self.data.len() == 0 {
            None
        } else {
            let v = self.data.remove(0);
            proof {
                assert(old(self)@.remove(0) =~= old(self)@.skip(1));
            }
            Some(v)
        }
    }

    /// Returns the number of queued elements.
    pub fn size(&self) -> (r: usize)
        ensures
            r == self@.len(),
    {
        self.data.len()
    }

    /// Returns the number of queued elements.
    pub fn len(&self) -> (r: usize)
        ensures
            r == self@.len(),
    {
        self.size()
    }

    /// Returns whether the queue holds no elements.
    pub fn is_empty(&self) -> (r: bool)
        ensures
            r == (self@.len() == 0),
    {
        self.data.is_empty()
    }

    /// Returns a reference to the front element without removing it, or
    /// `None` when the queue is empty.
    pub fn front(&self) -> (r: Option<&T>)
        ensures
            self@.len() == 0 ==> r is None,
            self@.len() > 0 ==> r == Some(&self@[0]),
    {
        if self.data.len() == 0 {
            None
        } else {
            Some(&self.data[0])
        }
    }
}

} // verus!
