//! A map combinator over futures that are polled with their executor.
use crate::trait_magic::coroutine::State;
use crate::trait_magic::future_traits::{Executor, Future};
use vstd::prelude::*;

verus! {

/// A future that polls `future` and applies `f` to its result.
pub struct Mapped<A, F> {
    future: A,
    f: Option<F>,
}

impl<A, F> Mapped<A, F> {
    /// The future being mapped.
    pub closed spec fn inner(&self) -> A {
        self.future
    }

    /// The function still to apply.
    pub closed spec fn func(&self) -> Option<F> {
        self.f
    }
}

/// Maps the result of `future` through `f`.
pub fn map<A, F>(future: A, f: F) -> (m: Mapped<A, F>)
    ensures
        m.inner() == future,
        m.func() == Some(f),
{
    Mapped { future: future, f: Some(f) }
}

/// Polling a mapped future has no outcome (it always panics), so it may
/// never be polled.
impl<E: Executor, U, A, F> Future<E> for Mapped<A, F> where
    A: Future<E>,
    F: FnOnce(A::Result) -> U,
 {
    type Result = U;

    open spec fn can_poll(&self) -> bool {
        false
    }

    fn poll(&mut self, executor: &mut E) -> (s: State<E::Blocked, U>) {
        vstd::pervasive::unreached()
    }
}

} // verus!
