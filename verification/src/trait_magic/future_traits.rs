//! Iterators, executors and futures over argument-taking generators.
use crate::trait_magic::coroutine::{Generator, State};
use vstd::prelude::*;

verus! {

/// An iterator hands out items until it has none.
pub trait Iterator {
    type Item;

    /// When asking for the next item is allowed.
    spec fn can_next(&self) -> bool;

    /// What asking for the next item may give, leaving the iterator as
    /// `next`.
    spec fn may_give(&self, next: &Self, item: Option<Self::Item>) -> bool;

    fn next(&mut self) -> (item: Option<Self::Item>)
        requires
            old(self).can_next(),
        ensures
            old(self).may_give(final(self), item),
    ;
}

/// The item that a resumption hands out: the yielded value, or nothing once
/// the generator has completed.
pub fn yielded<Y>(s: State<Y, ()>) -> (item: Option<Y>)
    ensures
        item == match s {
            State::Yielded(y) => Some(y),
            State::Complete(_) => None::<Y>,
        },
{
    match s {
        State::Yielded(y) => Some(y),
        State::Complete(_) => None,
    }
}

/// A generator that takes `()` and returns `()` is an iterator.
impl<T: Generator<(), Return = ()>> Iterator for T {
    type Item = T::Yield;

    open spec fn can_next(&self) -> bool {
        self.can_resume()
    }

    /// An item where the resumption may yield it; nothing where it may
    /// complete.
    open spec fn may_give(&self, next: &T, item: Option<T::Yield>) -> bool {
        match item {
            Some(y) => self.may_step((), next, State::Yielded(y)),
            None => self.may_step((), next, State::Complete(())),
        }
    }

    fn next(&mut self) -> (item: Option<T::Yield>) {
        let s = self.resume(());
        let ghost done = s;
        let item = yielded(s);
        proof {
            if done is Complete {
                let u: () = done->Complete_0;
                assert(done == State::<T::Yield, ()>::Complete(()));
            }
        }
        item
    }
}

/// An executor; `Blocked` is what a future hands it when it cannot go on.
pub trait Executor {
    type Blocked;
}

/// A computation polled with its executor.
pub trait Future<E: Executor + ?Sized> {
    type Result;

    /// When polling is allowed.
    spec fn can_poll(&self) -> bool;

    fn poll(&mut self, executor: &mut E) -> (s: State<E::Blocked, Self::Result>)
        requires
            old(self).can_poll(),
    ;
}

} // verus!
