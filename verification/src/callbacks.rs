//! Computations that report their result through a callback: the active
//! side, which can be cancelled.
use vstd::prelude::*;

verus! {

/// An active computation that does nothing and holds a borrow for `'c`.
pub struct DummyActiveFuture<'c> {
    dummy: &'c (),
}

impl<'c> DummyActiveFuture<'c> {
    /// The borrowed value.
    pub closed spec fn borrowed(&self) -> &'c () {
        self.dummy
    }

    /// An active computation borrowing `dummy`.
    pub fn new(dummy: &'c ()) -> (f: Self)
        ensures
            f.borrowed() == dummy,
    {
        DummyActiveFuture { dummy: dummy }
    }
}

/// An active computation, which may not move while it runs.
pub trait ActiveFuture<'c> {
    /// Cancels the computation.
    fn cancel(&mut self);
}

impl<'c> ActiveFuture<'c> for DummyActiveFuture<'c> {
    /// There is nothing to cancel.
    fn cancel(&mut self)
        ensures
            *final(self) == *old(self),
    {
    }
}

} // verus!
