use vstd::prelude::*;

verus! {

/// A destination slot: empty at first, then holding a decoded value or the
/// error that stopped it. Once an error is recorded, later values are refused.
pub enum Cell<T, E> {
    Full(T),
    Failed(E),
    Empty,
}

impl<T, E> Cell<T, E> {
    /// Moves the content out, leaving the slot empty.
    pub fn take(&mut self) -> (r: Self)
        ensures
            r == *old(self),
            *final(self) is Empty,
    {
        let mut r = Cell::Empty;
        core::mem::swap(self, &mut r);
        r
    }

    /// Stores a value unless an error was recorded before.
    pub fn set(&mut self, val: T)
        ensures
            *old(self) is Failed ==> *final(self) == *old(self),
            !(*old(self) is Failed) ==> *final(self) == Cell::<T, E>::Full(val),
    {
        if !self.is_err() {
            *self = Cell::Full(val);
        }
    }

    /// Records an error, replacing whatever the slot held.
    pub fn err(&mut self, err: E)
        ensures
            *final(self) == Cell::<T, E>::Failed(err),
    {
        *self = Cell::Failed(err);
    }

    pub fn is_err(&self) -> (r: bool)
        ensures
            r == (*self is Failed),
    {
        match self {
            Cell::Failed(_) => true,
            _ => false,
        }
    }

    /// Applies `f` to a stored value; an error or an empty slot is kept as is.
    pub fn map<F, O>(self, f: F) -> (r: Cell<O, E>) where F: FnOnce(T) -> O
        requires
            self is Full ==> f.requires((self->Full_0,)),
        ensures
            match self {
                Cell::Full(v) => r is Full && f.ensures((v,), r->Full_0),
                Cell::Failed(e) => r == Cell::<O, E>::Failed(e),
                Cell::Empty => r is Empty,
            },
    {
        match self {
            Cell::Full(v) => Cell::Full(f(v)),
            Cell::Failed(e) => Cell::Failed(e),
            Cell::Empty => Cell::Empty,
        }
    }
}

} // verus!
