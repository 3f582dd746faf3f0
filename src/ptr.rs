use vstd::prelude::*;

verus! {

/// An owned heap cell whose address stays put while the owner moves.
pub struct NonuniqueBox<T> {
    boxed: Box<T>,
}

impl<T> NonuniqueBox<T> {
    /// The value held on the heap.
    pub closed spec fn value(&self) -> T {
        *self.boxed
    }

    pub fn new(value: T) -> (r: Self)
        ensures
            r.value() == value,
    {
        NonuniqueBox { boxed: Box::new(value) }
    }

    pub fn get(&self) -> (r: &T)
        ensures
            *r == self.value(),
    {
        &self.boxed
    }

    pub fn into_inner(self) -> (r: T)
        ensures
            r == self.value(),
    {
        *self.boxed
    }
}

} // verus!
