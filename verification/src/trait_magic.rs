//! A second shape of the same design: generators take their arguments by
//! value, and futures are polled with the executor.
pub mod coroutine;
pub mod demo;
pub mod future;
pub mod future_traits;
