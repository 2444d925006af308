# generators

Generators, futures and a small single-threaded event loop, verified with
Verus.

- `src/coroutine.rs`: the `State` of a resumption, the `Executor` and
  `Generator` traits, the synchronous executor `()`, `run`, and the
  iterator, future and stream views of a generator.
- `src/future_traits.rs`: futures and streams as kinds of generators.
- `src/future.rs`: the `Mapped` combinator, the `EventLoop` with its timers
  (one `tick` at a time), `AsyncSleep`, and the argument-passing executor.
- `src/demo.rs`: small generators that use the above.
- `src/inlining_await.rs`: two generators written out as state machines.
- `src/prime_outlives.rs`, `src/borrow_test.rs`, `src/callbacks.rs`: the
  lifetime and callback experiments.
- `src/trait_magic/`: the variant in which generators take their arguments
  by value.
- `app/`: the program around the library: the driver of the event loop with
  its real sleeps, the thread-sleeping generator, callbacks through raw
  pointers, the global event loop, raw-pointer storage, and host hooks.
