//! Futures and streams as kinds of generators.
use crate::coroutine::{Executor, Generator, Never};
use vstd::prelude::*;

verus! {

/// A future is a generator that never yields.
pub trait Future<E: Executor>: Generator<E, Yield = Never> {

}

impl<E: Executor, T: Generator<E, Yield = Never>> Future<E> for T {

}

/// A stream is any generator.
pub trait Stream<E: Executor>: Generator<E> {

}

impl<E: Executor, T: Generator<E>> Stream<E> for T {

}

} // verus!
