//! Generators, futures and a small event loop that drives them.
pub mod coroutine;
pub mod demo;
pub mod future;
pub mod future_traits;
pub mod inlining_await;
pub mod borrow_test;
pub mod prime_outlives;
pub mod trait_magic;
pub mod callbacks;
