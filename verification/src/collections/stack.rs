//! A last-in, first-out stack.
//!
//! The stack is backed by a growable array; its view is the sequence of
//! elements from bottom to top, so the top of the stack is the last element
//! of the view.

use vstd::prelude::*;

verus! {

pub struct Stack<T> {
    data: Vec<T>,
}

impl<T> View for Stack<T> {
    type V = Seq<T>;

    closed spec fn view(&self) -> Seq<T> {
        self.data@
    }
}

impl<T> Stack<T> {
    /// Creates an empty stack.
    pub fn new() -> (r: Self)
        ensures
            r@ == Seq::<T>::empty(),
    {
        Self { data: Vec::new() }
    }

    /// Places `val` on top of the stack.
    pub fn push(&mut self, val: T)
        ensures
            final(self)@ == old(self)@.push(val),
    {
        self.data.push(val);
    }

    /// Removes and returns the top element, or `None` when the stack is empty.
    pub fn pop(&mut self) -> (r: Option<T>)
        ensures
            old(self)@.len() == 0 ==> r is None && final(self)@ == old(self)@,
            old(self)@.len() > 0 ==> r == Some(old(self)@.last()) && final(self)@ == old(self)@.drop_last(),
    {
        self.data.pop()
    }

    /// Returns the number of elements on the stack.
    pub fn size(&self) -> (r: usize)
        ensures
            r == self@.len(),
    {
        self.data.len()
    }

    /// Returns the number of elements on the stack.
    pub fn len(&self) -> (r: usize)
        ensures
            r == self@.len(),
    {
        self.size()
    }

    /// Returns whether the stack holds no elements.
    pub fn is_empty(&self) -> (r: bool)
        ensures
            r == (self@.len() == 0),
    {
        self.data.is_empty()
    }

    /// Returns a reference to the top element without removing it, or `None`
    /// when the stack is empty.
    pub fn top(&self) -> (r: Option<&T>)
        ensures
            self@.len() == 0 ==> r is None,
            self@.len() > 0 ==> r == Some(&self@.last()),
    {
        if self.data.len() == 0 {
            None
        } else {
            Some(&self.data[self.data.len() - 1])
        }
    }
}

} // verus!
