//! Resumable computations (generators) and the executors that resume them.
use vstd::prelude::*;

verus! {

/// A type with no values. It stands where a generator never yields, or where
/// an executor never blocks: a `State` that carries a `Never` cannot exist.
pub struct Never {
    unreachable: (),
}

impl Never {
    #[verifier::type_invariant]
    pub open spec fn inhabited(self) -> bool {
        false
    }

    /// Turns the impossible value into a value of any type; no call of this
    /// function can ever run, since no `Never` exists.
    pub fn absurd<A>(self) -> A {
        proof {
            use_type_invariant(&self);
        }
        vstd::pervasive::unreached()
    }
}

/// What one resumption of a generator ends in.
pub enum State<Y, R, B> {
    /// The generator produced an intermediate value and can be resumed again.
    Yielded(Y),
    /// The generator finished with its return value.
    Complete(R),
    /// The generator waits for its executor; the executor says why.
    Blocked(B),
}

/// An executor resumes generators; `Blocked` is what a generator hands it
/// when it cannot go on yet.
pub trait Executor: Sized {
    type Blocked;

    /// The executor's own well-formedness, kept by every resumption.
    spec fn inv(&self) -> bool;

    /// What a generator may do to the executor while it is being resumed.
    spec fn may_become(&self, next: &Self) -> bool;

    /// A generator may leave the executor as it found it.
    proof fn lemma_may_become_reflexive(e: &Self)
        ensures
            e.may_become(e),
    ;

    /// Two resumptions in a row do what one resumption may do.
    proof fn lemma_may_become_transitive(a: &Self, b: &Self, c: &Self)
        requires
            a.may_become(b),
            b.may_become(c),
        ensures
            a.may_become(c),
    ;
}

/// A computation that the executor `E` resumes step by step.
pub trait Generator<E: Executor> {
    type Yield;
    type Return;

    /// When resuming is allowed: resuming in any other state is a misuse
    /// (such as polling a finished computation again).
    spec fn can_resume(&self, executor: &E) -> bool;

    /// A step that a resumption of this generator may take: from the
    /// executor `before` to the executor `after`, leaving the generator as
    /// `next` and ending in `s`.
    spec fn may_step(
        &self,
        before: &E,
        next: &Self,
        after: &E,
        s: State<Self::Yield, Self::Return, E::Blocked>,
    ) -> bool;

    /// Runs the computation until it yields, completes or blocks, taking one
    /// of the steps that `may_step` allows. It keeps the executor
    /// well-formed and changes it only as `may_become` allows.
    fn resume(&mut self, executor: &mut E) -> (s: State<Self::Yield, Self::Return, E::Blocked>)
        requires
            old(self).can_resume(old(executor)),
            old(executor).inv(),
        ensures
            old(self).may_step(old(executor), final(self), final(executor), s),
            final(executor).inv(),
            old(executor).may_become(final(executor)),
    ;
}

/// The unit executor is the synchronous one: it takes no input and never
/// blocks.
impl Executor for () {
    type Blocked = Never;

    open spec fn inv(&self) -> bool {
        true
    }

    open spec fn may_become(&self, next: &Self) -> bool {
        true
    }

    proof fn lemma_may_become_reflexive(e: &Self) {
    }

    proof fn lemma_may_become_transitive(a: &Self, b: &Self, c: &Self) {
    }
}

/// The value that a resumption in the synchronous executor completed with:
/// such a resumption neither yields (`Yield` is `Never`) nor blocks.
pub fn completed<R>(s: State<Never, R, Never>) -> (r: R)
    ensures
        s == State::<Never, R, Never>::Complete(r),
{
    match s {
        State::Complete(v) => v,
        State::Yielded(n) => {
            proof {
                use_type_invariant(&n);
            }
            n.absurd()
        },
        State::Blocked(n) => {
            proof {
                use_type_invariant(&n);
            }
            n.absurd()
        },
    }
}

/// Runs a generator that never yields in the synchronous executor `()` and
/// gives its result: a value that the generator may complete with there.
pub fn run<T: Generator<(), Yield = Never>>(generator: T) -> (r: T::Return)
    requires
        generator.can_resume(&()),
    ensures
        exists|next: T| #[trigger] generator.may_step(&(), &next, &(), State::Complete(r)),
{
    let mut generator = generator;
    let mut unit = ();
    completed(generator.resume(&mut unit))
}

/// An iterator hands out items until it has none.
pub trait Iterator {
    type Item;

    /// When asking for the next item is allowed.
    spec fn can_next(&self) -> bool;

    /// What asking for the next item may give, leaving the iterator as
    /// `next`.
    spec fn may_give(&self, next: &Self, item: Option<Self::Item>) -> bool;

    fn next(&mut self) -> (item: Option<Self::Item>)
        requires
            old(self).can_next(),
        ensures
            old(self).may_give(final(self), item),
    ;
}

/// The item that a resumption in the synchronous executor hands out: the
/// yielded value, or nothing once the generator has completed.
pub fn yielded<Y>(s: State<Y, (), Never>) -> (item: Option<Y>)
    ensures
        !(s is Blocked),
        item == match s {
            State::Yielded(y) => Some(y),
            _ => None::<Y>,
        },
{
    match s {
        State::Yielded(y) => Some(y),
        State::Complete(_) => None,
        State::Blocked(n) => {
            proof {
                use_type_invariant(&n);
            }
            None
        },
    }
}

/// An iterator is a generator of the synchronous executor that returns `()`.
impl<T: Generator<(), Return = ()>> Iterator for T {
    type Item = T::Yield;

    open spec fn can_next(&self) -> bool {
        self.can_resume(&())
    }

    /// An item where the resumption may yield it; nothing where it may
    /// complete.
    open spec fn may_give(&self, next: &T, item: Option<T::Yield>) -> bool {
        match item {
            Some(y) => self.may_step(&(), next, &(), State::Yielded(y)),
            None => self.may_step(&(), next, &(), State::Complete(())),
        }
    }

    fn next(&mut self) -> (item: Option<T::Yield>) {
        let mut unit = ();
        let s = self.resume(&mut unit);
        let ghost done = s;
        let item = yielded(s);
        proof {
            if done is Complete {
                let u: () = done->Complete_0;
                assert(u == ());
                assert(done == State::<T::Yield, (), Never>::Complete(()));
            }
        }
        item
    }
}

/// A future is a generator that never yields, resumed by the executor `E`.
pub trait Future<E: Executor> {
    type Result;

    /// When polling is allowed.
    spec fn can_poll(&self, executor: &E) -> bool;

    /// A step that polling may take: from the executor `before` to the
    /// executor `after`, leaving the future as `next` and ending in `s`.
    spec fn may_poll_to(&self, before: &E, next: &Self, after: &E, s: State<Never, Self::Result, E::Blocked>) -> bool;

    fn poll(&mut self, executor: &mut E) -> (s: State<Never, Self::Result, E::Blocked>)
        requires
            old(self).can_poll(old(executor)),
            old(executor).inv(),
        ensures
            old(self).may_poll_to(old(executor), final(self), final(executor), s),
            final(executor).inv(),
            old(executor).may_become(final(executor)),
    ;
}

impl<E: Executor, R, T: Generator<E, Yield = Never, Return = R>> Future<E> for T {
    type Result = R;

    open spec fn can_poll(&self, executor: &E) -> bool {
        self.can_resume(executor)
    }

    open spec fn may_poll_to(&self, before: &E, next: &T, after: &E, s: State<Never, R, E::Blocked>) -> bool {
        self.may_step(before, next, after, s)
    }

    fn poll(&mut self, executor: &mut E) -> (s: State<Never, R, E::Blocked>) {
        self.resume(executor)
    }
}

/// A stream is a generator resumed by the executor `E`.
pub trait Stream<E: Executor> {
    type Yield;
    type Return;

    /// When polling is allowed.
    spec fn can_poll(&self, executor: &E) -> bool;

    /// A step that polling may take: from the executor `before` to the
    /// executor `after`, leaving the stream as `next` and ending in `s`.
    spec fn may_poll_to(&self, before: &E, next: &Self, after: &E, s: State<Self::Yield, Self::Return, E::Blocked>) -> bool;

    fn poll(&mut self, executor: &mut E) -> (s: State<Self::Yield, Self::Return, E::Blocked>)
        requires
            old(self).can_poll(old(executor)),
            old(executor).inv(),
        ensures
            old(self).may_poll_to(old(executor), final(self), final(executor), s),
            final(executor).inv(),
            old(executor).may_become(final(executor)),
    ;
}

impl<E: Executor, Y, R, T: Generator<E, Yield = Y, Return = R>> Stream<E> for T {
    type Yield = Y;
    type Return = R;

    open spec fn can_poll(&self, executor: &E) -> bool {
        self.can_resume(executor)
    }

    open spec fn may_poll_to(&self, before: &E, next: &T, after: &E, s: State<Y, R, E::Blocked>) -> bool {
        self.may_step(before, next, after, s)
    }

    fn poll(&mut self, executor: &mut E) -> (s: State<Y, R, E::Blocked>) {
        self.resume(executor)
    }
}

} // verus!
