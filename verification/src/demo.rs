//! Small generators that exercise the traits: one that returns at once, one
//! that sleeps, and an iterator that cannot be resumed.
use crate::coroutine::{Executor, Generator, Iterator, Never, State};
use crate::future::{resumable_in, AsyncSleep, EventLoop, EventLoopView, SleepExecutor};
use crate::future_traits::Future;
use vstd::prelude::*;

verus! {

/// A generator whose resumption is the call of a function of the executor.
pub struct ReturnTest<F> {
    next: F,
}

impl<F> ReturnTest<F> {
    /// The function that a resumption calls.
    pub closed spec fn func(&self) -> F {
        self.next
    }
}

impl<E: Executor, F: Fn(&E) -> State<Never, usize, E::Blocked>> Generator<E> for ReturnTest<F> {
    type Yield = Never;

    type Return = usize;

    open spec fn can_resume(&self, executor: &E) -> bool {
        call_requires(self.func(), (executor,))
    }

    /// What the function may give on the executor; the generator and the
    /// executor stay as they were.
    open spec fn may_step(&self, before: &E, next: &Self, after: &E, s: State<Never, usize, E::Blocked>) -> bool {
        &&& call_ensures(self.func(), (before,), s)
        &&& *after == *before
        &&& *next == *self
    }

    fn resume(&mut self, executor: &mut E) -> (s: State<Never, usize, E::Blocked>)
        ensures
            call_ensures(old(self).func(), (&*old(executor),), s),
            *final(executor) == *old(executor),
    {
        proof {
            E::lemma_may_become_reflexive(executor);
        }
        (self.next)(&*executor)
    }
}

/// A `ReturnTest` can be resumed whenever its function can be called on
/// the executor.
proof fn lemma_return_test_resumable<E: Executor, F: Fn(&E) -> State<Never, usize, E::Blocked>>(
    t: ReturnTest<F>,
    e: E,
)
    requires
        call_requires(t.func(), (&e,)),
    ensures
        t.can_resume(&e),
{
}

/// A step of a `ReturnTest` is a result of its function on the executor;
/// the generator and the executor stay as they were.
proof fn lemma_return_test_step<E: Executor, F: Fn(&E) -> State<Never, usize, E::Blocked>>(
    t: ReturnTest<F>,
    before: E,
    next: ReturnTest<F>,
    after: E,
    s: State<Never, usize, E::Blocked>,
)
    ensures
        t.may_step(&before, &next, &after, s) <==> (call_ensures(t.func(), (&before,), s) && after == before
            && next == t),
{
}

/// A future that completes with 3 as soon as it is resumed.
pub fn return_test<E: Executor>() -> (f: impl Future<E, Return = usize>)
    ensures
        forall|e: E| #[trigger] f.can_resume(&e),
        forall|before: E, next, after: E, s: State<Never, usize, E::Blocked>|
            #[trigger] f.may_step(&before, &next, &after, s) ==> s == State::<Never, usize, E::Blocked>::Complete(3)
                && after == before && next == f,
{
    let next = (|executor: &E| -> (s: State<Never, usize, E::Blocked>)
        ensures
            s == State::<Never, usize, E::Blocked>::Complete(3),
        { State::Complete(3) });
    let f = ReturnTest { next: next };
    assert forall|e: E| #[trigger] f.can_resume(&e) by {
        lemma_return_test_resumable(f, e);
    }
    assert forall|before: E, next, after: E, s: State<Never, usize, E::Blocked>|
        #[trigger] f.may_step(&before, &next, &after, s) implies s == State::<Never, usize, E::Blocked>::Complete(3)
            && after == before && next == f by {
        lemma_return_test_step(f, before, next, after, s);
    }
    f
}

/// A generator that, once resumed, starts a sleep of 1000 and completes
/// without waiting for it.
pub struct SleepTest;

impl<E: SleepExecutor> Generator<E> for SleepTest {
    type Yield = Never;

    type Return = ();

    open spec fn can_resume(&self, executor: &E) -> bool {
        executor.can_sleep()
    }

    /// It completes, after one step of a fresh sleep of 1000 from the
    /// executor it found to the one it leaves.
    open spec fn may_step(&self, before: &E, next: &Self, after: &E, s: State<Never, (), E::Blocked>) -> bool {
        &&& s == State::<Never, (), E::Blocked>::Complete(())
        &&& *next == *self
        &&& exists|sleep: E::Sleep, t: State<Never, (), E::Blocked>|
            #[trigger] E::sleep_spec(1000).may_step(before, &sleep, after, t)
    }

    fn resume(&mut self, executor: &mut E) -> (s: State<Never, (), E::Blocked>)
        ensures
            s matches State::Complete(_),
    {
        let mut s = E::sleep(1000);
        s.resume(executor);
        State::Complete(())
    }
}

/// The sleeping generator.
pub fn sleep_test() -> (g: SleepTest)
    ensures
        g == SleepTest,
{
    SleepTest
}

/// The sleeping generator, obtained through another call.
pub fn nested_sleep_test() -> (g: SleepTest)
    ensures
        g == SleepTest,
{
    sleep_test()
}

/// A sleeping generator can be resumed as any task of an event loop.
pub proof fn lemma_sleep_test_resumable(v: EventLoopView<SleepTest>, id: usize)
    ensures
        resumable_in(SleepTest, v, id),
{
}

/// In an event loop, a resumption of the sleeping generator sets one timer
/// of 1000 passes for the running task, and changes nothing else.
pub proof fn lemma_sleep_test_sets_timer<T>(
    before: EventLoop<T>,
    next: SleepTest,
    after: EventLoop<T>,
    s: State<Never, (), ()>,
)
    requires
        SleepTest.may_step(&before, &next, &after, s),
    ensures
        s == State::<Never, (), ()>::Complete(()),
        after@ == before@.with_timer(before@.current->0, 1000),
{
    let (sleep, t) = choose|sleep: AsyncSleep, t: State<Never, (), ()>|
        #[trigger] <EventLoop<T> as SleepExecutor>::sleep_spec(1000).may_step(&before, &sleep, &after, t);
    AsyncSleep::lemma_pending(1000);
}

/// A generator of the synchronous executor that cannot be resumed at all.
pub struct IteratorTest;

impl Generator<()> for IteratorTest {
    type Yield = usize;

    type Return = ();

    /// Resuming this generator is always a misuse.
    open spec fn can_resume(&self, executor: &()) -> bool {
        false
    }

    open spec fn may_step(&self, before: &(), next: &Self, after: &(), s: State<usize, (), Never>) -> bool {
        false
    }

    fn resume(&mut self, executor: &mut ()) -> (s: State<usize, (), Never>) {
        vstd::pervasive::unreached()
    }
}

/// An `IteratorTest` seen as an iterator cannot be asked for an item.
proof fn lemma_iterator_test_exhausted(it: IteratorTest)
    ensures
        !it.can_next(),
{
}

/// The iterator view of `IteratorTest`, which cannot be asked for an item.
pub fn hm2() -> (it: impl Iterator)
    ensures
        !it.can_next(),
{
    let it = IteratorTest;
    proof {
        lemma_iterator_test_exhausted(it);
    }
    it
}

} // verus!
