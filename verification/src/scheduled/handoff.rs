//! The buffer that carries items from one subgraph run to a later one.
use vstd::prelude::*;

verus! {

/// An unbounded buffer of items written by a producer and waiting for a
/// consumer. The consumer takes everything that is waiting in one step, and
/// leaves a fresh, empty buffer for the producer's next items.
#[derive(Debug)]
pub struct VecHandoff<T> {
    input: Vec<T>,
}

impl<T> View for VecHandoff<T> {
    type V = Seq<T>;

    /// The items waiting to be read, oldest first.
    closed spec fn view(&self) -> Seq<T> {
        self.input@
    }
}

impl<T> VecHandoff<T> {
    /// A handoff with nothing waiting.
    pub fn new() -> (handoff: Self)
        ensures
            handoff@ == Seq::<T>::empty(),
    {
        VecHandoff { input: Vec::new() }
    }

    /// Appends one item behind those already waiting. A producer is never
    /// refused or made to wait.
    pub fn give(&mut self, item: T)
        ensures
            final(self)@ == old(self)@.push(item),
    {
        self.input.push(item);
    }

    /// Appends all of `items`, in order, behind those already waiting.
    pub fn give_all(&mut self, items: Vec<T>)
        ensures
            final(self)@ == old(self)@ + items@,
    {
        let mut items = items;
        self.input.append(&mut items);
    }

    /// Whether nothing is waiting to be read.
    pub fn is_bottom(&self) -> (bottom: bool)
        ensures
            bottom == (self@.len() == 0),
    {
        self.input.len() == 0
    }

    /// How many items are waiting to be read.
    pub fn len(&self) -> (n: usize)
        ensures
            n == self@.len(),
    {
        self.input.len()
    }

    /// Hands out everything that is waiting, oldest first, and installs an
    /// empty buffer in its place.
    pub fn take_inner(&mut self) -> (items: Vec<T>)
        ensures
            items@ == old(self)@,
            final(self)@ == Seq::<T>::empty(),
    {
        let mut items: Vec<T> = Vec::new();
        std::mem::swap(&mut self.input, &mut items);
        items
    }
}

} // verus!
