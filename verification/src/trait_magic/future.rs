//! An iterator that never runs dry, and a future that holds its result.
use crate::trait_magic::future_traits::{Executor, Future, Iterator};
use crate::trait_magic::coroutine::State;
use vstd::prelude::*;

verus! {

/// An iterator that hands out 3 forever.
pub struct A<T>(pub T);

impl<T> Iterator for A<T> {
    type Item = usize;

    open spec fn can_next(&self) -> bool {
        true
    }

    /// It gives 3 and stays as it was.
    open spec fn may_give(&self, next: &Self, item: Option<usize>) -> bool {
        item == Some(3usize) && *next == *self
    }

    fn next(&mut self) -> (item: Option<usize>)
        ensures
            item == Some(3usize),
    {
        Some(3)
    }
}

/// A future holding its result. Polling it has no outcome (it always
/// panics), so it may never be polled.
pub struct Pong<T>(pub Option<T>);

impl<T, E: Executor> Future<E> for Pong<T> {
    type Result = T;

    open spec fn can_poll(&self) -> bool {
        false
    }

    fn poll(&mut self, executor: &mut E) -> (s: State<E::Blocked, T>) {
        vstd::pervasive::unreached()
    }
}

} // verus!
