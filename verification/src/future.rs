//! A map combinator, an event loop with timers, sleeping in that loop, and
//! an executor that hands its arguments to a generator.
use crate::coroutine::{Executor, Generator, Never, State};
use crate::future_traits::Future;
use vstd::prelude::*;

verus! {

/// A generator that resumes `future` and, once it completes, applies `f`
/// to its result.
pub struct Mapped<A, F> {
    future: A,
    f: Option<F>,
}

impl<A, F> Mapped<A, F> {
    /// The generator being mapped.
    pub closed spec fn inner(&self) -> A {
        self.future
    }

    /// The function still to apply, or `None` once it has been applied.
    pub closed spec fn func(&self) -> Option<F> {
        self.f
    }
}

/// Maps the result of `future` through `f`.
pub fn map<A, F>(future: A, f: F) -> (m: Mapped<A, F>)
    ensures
        m.inner() == future,
        m.func() == Some(f),
{
    Mapped { future: future, f: Some(f) }
}

impl<E: Executor, U, A, F> Generator<E> for Mapped<A, F> where
    A: Generator<E, Yield = Never>,
    F: FnOnce(A::Return) -> U,
 {
    type Return = U;

    type Yield = Never;

    /// A `Mapped` can be resumed when the inner generator can, and, wherever
    /// the inner generator may complete, the function is still there and
    /// accepts that result.
    open spec fn can_resume(&self, executor: &E) -> bool {
        &&& self.inner().can_resume(executor)
        &&& forall|next: A, after: E, r: A::Return|
            #[trigger] self.inner().may_step(executor, &next, &after, State::Complete(r)) ==> {
                &&& self.func() is Some
                &&& call_requires(self.func()->0, (r,))
            }
    }

    /// A step of the inner generator, which the map then holds in its new
    /// state: a block, passed on with the function kept; or the function's
    /// value on a result that the inner generator may complete with, the
    /// function being used up.
    open spec fn may_step(&self, before: &E, next: &Self, after: &E, s: State<Never, U, E::Blocked>) -> bool {
        match s {
            State::Blocked(b) => {
                &&& self.inner().may_step(before, &next.inner(), after, State::Blocked(b))
                &&& next.func() == self.func()
            },
            State::Complete(u) => {
                &&& self.func() is Some
                &&& next.func() is None
                &&& exists|r: A::Return|
                    self.inner().may_step(before, &next.inner(), after, State::Complete(r))
                        && #[trigger] call_ensures(self.func()->0, (r,), u)
            },
            State::Yielded(_) => false,
        }
    }

    fn resume(&mut self, executor: &mut E) -> (s: State<Never, U, E::Blocked>)
        ensures
            s is Blocked ==> final(self).func() == old(self).func(),
            s is Complete ==> final(self).func() is None,
            s is Complete ==> exists|r: A::Return|
                #[trigger] call_ensures(old(self).func()->0, (r,), s->Complete_0),
            !(s is Yielded),
    {
        let inner = self.future.resume(executor);
        let ghost done = inner;
        proof {
            if done is Complete {
                assert(old(self).inner().may_step(
                    old(executor),
                    &self.future,
                    &*executor,
                    State::Complete(done->Complete_0),
                ));
            }
        }
        let s = apply_on_completion(inner, &mut self.f);
        proof {
            if done is Complete {
                assert(call_ensures(old(self).func()->0, (done->Complete_0,), s->Complete_0));
                assert(old(self).inner().may_step(
                    old(executor),
                    &final(self).inner(),
                    final(executor),
                    State::Complete(done->Complete_0),
                ));
            }
        }
        s
    }
}

/// What a `Mapped` makes of one resumption of the generator it maps: a
/// block is passed on and keeps the function; a completion takes the
/// function and completes with its value on the result.
pub fn apply_on_completion<R, U, B, F: FnOnce(R) -> U>(s: State<Never, R, B>, f: &mut Option<F>) -> (t: State<Never, U, B>)
    requires
        s is Complete ==> *old(f) is Some && call_requires(old(f)->0, (s->Complete_0,)),
    ensures
        !(s is Yielded),
        s matches State::Blocked(b) ==> t == State::<Never, U, B>::Blocked(b) && *final(f) == *old(f),
        s matches State::Complete(r) ==> {
            &&& *final(f) is None
            &&& t is Complete
            &&& call_ensures(old(f)->0, (r,), t->Complete_0)
        },
{
    match s {
        State::Blocked(b) => State::Blocked(b),
        State::Complete(r) => {
            let g = f.take().expect("cannot poll Map twice");
            State::Complete(g(r))
        },
        State::Yielded(n) => {
            proof {
                use_type_invariant(&n);
            }
            n.absurd()
        },
    }
}

/// A completion of a `Mapped` comes from a completion of the inner
/// generator, with a result on which the function gave the value.
pub proof fn lemma_mapped_completion<E: Executor, U, A, F>(
    m: Mapped<A, F>,
    before: E,
    next: Mapped<A, F>,
    after: E,
    u: U,
) -> (r: A::Return)
    where
        A: Generator<E, Yield = Never>,
        F: FnOnce(A::Return) -> U,

    requires
        m.may_step(&before, &next, &after, State::Complete(u)),
    ensures
        m.inner().may_step(&before, &next.inner(), &after, State::Complete(r)),
        call_ensures(m.func()->0, (r,), u),
        m.func() is Some,
        next.func() is None,
{
    choose|r: A::Return|
        m.inner().may_step(&before, &next.inner(), &after, State::Complete(r)) && #[trigger] call_ensures(
            m.func()->0,
            (r,),
            u,
        )
}

/// A completion of the inner generator with `r`, on which the function
/// gives `u`, is a step of the `Mapped` that completes with `u` and uses the
/// function up.
pub proof fn lemma_mapped_completes_with<E: Executor, U, A, F>(
    m: Mapped<A, F>,
    before: E,
    next: Mapped<A, F>,
    after: E,
    r: A::Return,
    u: U,
)
    where
        A: Generator<E, Yield = Never>,
        F: FnOnce(A::Return) -> U,

    requires
        m.inner().may_step(&before, &next.inner(), &after, State::Complete(r)),
        m.func() is Some,
        call_ensures(m.func()->0, (r,), u),
        next.func() is None,
    ensures
        m.may_step(&before, &next, &after, State::Complete(u)),
{
    let st = State::<Never, U, E::Blocked>::Complete(u);
    assert(call_ensures(m.func()->0, (r,), st->Complete_0));
}

/// Mapping twice is mapping once through both functions in turn: a step of
/// `map(map(a, f), g)` blocks exactly where a step of `a` blocks, keeping
/// both functions; and it completes with `v` exactly where both functions
/// are there and a step of `a` completes with some `r` on which `f` gives
/// some `u` and `g` gives `v` on `u`, using both functions up.
pub proof fn lemma_map_composition<E: Executor, U, V, A, F, G>(
    mm: Mapped<Mapped<A, F>, G>,
    before: E,
    next: Mapped<Mapped<A, F>, G>,
    after: E,
)
    where
        A: Generator<E, Yield = Never>,
        F: FnOnce(A::Return) -> U,
        G: FnOnce(U) -> V,

    ensures
        forall|b: E::Blocked|
            #[trigger] mm.may_step(&before, &next, &after, State::Blocked(b)) <==> {
                &&& mm.inner().inner().may_step(
                    &before,
                    &next.inner().inner(),
                    &after,
                    State::Blocked(b),
                )
                &&& next.inner().func() == mm.inner().func()
                &&& next.func() == mm.func()
            },
        forall|v: V|
            #[trigger] mm.may_step(&before, &next, &after, State::Complete(v)) <==> {
                &&& mm.inner().func() is Some
                &&& mm.func() is Some
                &&& next.inner().func() is None
                &&& next.func() is None
                &&& exists|r: A::Return, u: U|
                    {
                        &&& mm.inner().inner().may_step(
                            &before,
                            &next.inner().inner(),
                            &after,
                            State::Complete(r),
                        )
                        &&& #[trigger] call_ensures(mm.inner().func()->0, (r,), u)
                        &&& #[trigger] call_ensures(mm.func()->0, (u,), v)
                    }
            },
{
    assert forall|v: V|
        #[trigger] mm.may_step(&before, &next, &after, State::Complete(v)) implies {
            &&& mm.inner().func() is Some
            &&& mm.func() is Some
            &&& next.inner().func() is None
            &&& next.func() is None
            &&& exists|r: A::Return, u: U|
                {
                    &&& mm.inner().inner().may_step(
                        &before,
                        &next.inner().inner(),
                        &after,
                        State::Complete(r),
                    )
                    &&& #[trigger] call_ensures(mm.inner().func()->0, (r,), u)
                    &&& #[trigger] call_ensures(mm.func()->0, (u,), v)
                }
        } by {
        let u = lemma_mapped_completion(mm, before, next, after, v);
        let r = lemma_mapped_completion(mm.inner(), before, next.inner(), after, u);
    }
    assert forall|v: V|
        {
            &&& mm.inner().func() is Some
            &&& mm.func() is Some
            &&& next.inner().func() is None
            &&& next.func() is None
            &&& exists|r: A::Return, u: U|
                {
                    &&& mm.inner().inner().may_step(
                        &before,
                        &next.inner().inner(),
                        &after,
                        State::Complete(r),
                    )
                    &&& #[trigger] call_ensures(mm.inner().func()->0, (r,), u)
                    &&& #[trigger] call_ensures(mm.func()->0, (u,), v)
                }
        } implies #[trigger] mm.may_step(&before, &next, &after, State::Complete(v)) by {
        let (r, u) = choose|r: A::Return, u: U|
            {
                &&& mm.inner().inner().may_step(
                    &before,
                    &next.inner().inner(),
                    &after,
                    State::Complete(r),
                )
                &&& #[trigger] call_ensures(mm.inner().func()->0, (r,), u)
                &&& #[trigger] call_ensures(mm.func()->0, (u,), v)
            };
        lemma_mapped_completes_with(mm.inner(), before, next.inner(), after, r, u);
        lemma_mapped_completes_with(mm, before, next, after, u, v);
    }
}

/// Mapping through a function whose every result is its argument steps as
/// the inner generator does: it blocks exactly where the inner generator
/// blocks, and completes with a value only where the inner generator
/// completes with that same value.
pub proof fn lemma_map_identity<E: Executor, A, F>(
    m: Mapped<A, F>,
    before: E,
    next: Mapped<A, F>,
    after: E,
)
    where
        A: Generator<E, Yield = Never>,
        F: FnOnce(A::Return) -> A::Return,

    requires
        m.func() is Some ==> forall|r: A::Return, u: A::Return|
            #[trigger] call_ensures(m.func()->0, (r,), u) ==> u == r,
    ensures
        forall|b: E::Blocked|
            #[trigger] m.may_step(&before, &next, &after, State::Blocked(b)) <==> {
                &&& m.inner().may_step(&before, &next.inner(), &after, State::Blocked(b))
                &&& next.func() == m.func()
            },
        forall|u: A::Return|
            #[trigger] m.may_step(&before, &next, &after, State::Complete(u)) ==> m.inner().may_step(
                &before,
                &next.inner(),
                &after,
                State::Complete(u),
            ),
{
    assert forall|u: A::Return|
        #[trigger] m.may_step(&before, &next, &after, State::Complete(u)) implies m.inner().may_step(
            &before,
            &next.inner(),
            &after,
            State::Complete(u),
        ) by {
        let r = lemma_mapped_completion(m, before, next, after, u);
    }
}

/// A `Mapped` whose function has been applied cannot be resumed where the
/// inner generator may complete again: a map is polled to completion once.
pub proof fn lemma_mapped_completes_once<E: Executor, U, A, F>(
    m: Mapped<A, F>,
    executor: E,
    next: A,
    after: E,
    r: A::Return,
)
    where
        A: Generator<E, Yield = Never>,
        F: FnOnce(A::Return) -> U,

    requires
        m.func() is None,
        m.inner().may_step(&executor, &next, &after, State::Complete(r)),
    ensures
        !m.can_resume(&executor),
{
}

/// A timer of the event loop: how many passes are left before it fires,
/// and the task that it resumes then.
pub struct Timer {
    pub remaining: u64,
    pub task: usize,
}

/// What one step of the event loop did.
#[derive(PartialEq, Eq, Debug)]
pub enum Tick {
    /// No timer was left: the loop is over.
    Finished,
    /// A pass over the pending timers began.
    PassStarted,
    /// The timer at the cursor had run down: its task was resumed and the
    /// timer taken out of the pending list.
    Fired(usize),
    /// The timer at the cursor was counted down by one.
    CountedDown,
    /// The pass reached the end of the pending timers.
    PassEnded,
}

/// A single-threaded event loop. Tasks are resumed when the loop starts
/// them and whenever a timer they set fires; a pass over the pending timers
/// fires those that have run down and counts the others down by one.
pub struct EventLoop<T> {
    current: Option<usize>,
    cursor: Option<usize>,
    tasks: Vec<Option<T>>,
    timers: Vec<usize>,
    records: Vec<Timer>,
}

/// The abstract state of an event loop.
pub struct EventLoopView<T> {
    /// The task being resumed, if any.
    pub current: Option<usize>,
    /// Where the current pass over the pending timers stands, if one is on.
    pub cursor: Option<usize>,
    /// Every task ever started, by number; the running one is out (`None`).
    pub tasks: Seq<Option<T>>,
    /// The pending timers, by number, in the order they were set.
    pub timers: Seq<usize>,
    /// Every timer ever set, by number.
    pub records: Seq<Timer>,
}

impl<T> View for EventLoop<T> {
    type V = EventLoopView<T>;

    closed spec fn view(&self) -> EventLoopView<T> {
        EventLoopView {
            current: self.current,
            cursor: self.cursor,
            tasks: self.tasks@,
            timers: self.timers@,
            records: self.records@,
        }
    }
}

/// `a` is a prefix of `b`.
pub open spec fn prefix_of<A>(a: Seq<A>, b: Seq<A>) -> bool {
    a.len() <= b.len() && b.take(a.len() as int) == a
}

impl<T> EventLoopView<T> {
    /// The loop is well-formed: exactly the running task is out of its slot,
    /// every timer number and task number in use is in range, no timer is
    /// pending twice, and every list fits the machine's indices.
    pub open spec fn well_formed(self) -> bool {
        &&& self.tasks.len() <= usize::MAX
        &&& self.timers.len() <= usize::MAX
        &&& self.records.len() <= usize::MAX
        &&& (forall|i: int|
            0 <= i < self.tasks.len() ==> (#[trigger] self.tasks[i] is None <==> (
            self.current matches Some(c) && c == i)))
        &&& (self.current matches Some(c) ==> c < self.tasks.len())
        &&& (forall|j: int|
            0 <= j < self.timers.len() ==> #[trigger] self.timers[j] < self.records.len())
        &&& (forall|j: int, k: int|
            0 <= j < k < self.timers.len() ==> #[trigger] self.timers[j] != #[trigger] self.timers[k])
        &&& (forall|k: int|
            0 <= k < self.records.len() ==> #[trigger] self.records[k].task < self.tasks.len())
    }

    /// `next` keeps the running task and the pass, and only adds tasks,
    /// pending timers and timer records.
    pub open spec fn only_grows_to(self, next: Self) -> bool {
        &&& next.current == self.current
        &&& next.cursor == self.cursor
        &&& prefix_of(self.tasks, next.tasks)
        &&& prefix_of(self.timers, next.timers)
        &&& prefix_of(self.records, next.records)
        &&& self.fresh_timers_in(next)
    }

    /// The pending timers that `next` has past those of `self` were all set
    /// after `self`: their numbers are past its records.
    pub open spec fn fresh_timers_in(self, next: Self) -> bool {
        forall|j: int|
            self.timers.len() <= j < next.timers.len() ==> #[trigger] next.timers[j] >= self.records.len()
    }

    /// The pass stands at a pending timer.
    pub open spec fn at_timer(self) -> bool {
        self.cursor matches Some(i) && i < self.timers.len()
    }

    /// The timer record that the cursor points at.
    pub open spec fn cursor_timer(self) -> Timer
        recommends
            self.at_timer(),
    {
        self.records[self.timers[self.cursor->0 as int] as int]
    }

    /// `self` with the cursor set to `cursor`.
    pub open spec fn with_cursor(self, cursor: Option<usize>) -> Self {
        EventLoopView { cursor: cursor, ..self }
    }

    /// `self` after counting down the timer at the cursor and moving on.
    pub open spec fn counted_down(self) -> Self
        recommends
            self.at_timer(),
    {
        let i = self.cursor->0;
        let id = self.timers[i as int];
        EventLoopView {
            cursor: Some((i + 1) as usize),
            records: self.records.update(
                id as int,
                Timer { remaining: (self.records[id as int].remaining - 1) as u64, ..self.records[id as int] },
            ),
            ..self
        }
    }

    /// `self` after `n` count-downs in a row.
    pub open spec fn counted_down_times(self, n: nat) -> Self
        decreases n,
    {
        if n == 0 {
            self
        } else {
            self.counted_down().counted_down_times((n - 1) as nat)
        }
    }

    /// `self` with task `id` taken out of its slot to run.
    pub open spec fn running(self, id: usize) -> Self {
        EventLoopView { current: Some(id), tasks: self.tasks.update(id as int, None), ..self }
    }

    /// `self` with the running task `id` put back, as `task`, and no task
    /// running.
    pub open spec fn stopped(self, id: usize, task: T) -> Self {
        EventLoopView { current: None, tasks: self.tasks.update(id as int, Some(task)), ..self }
    }

    /// `self` without the pending timer at position `i` of the list.
    pub open spec fn without_pending(self, i: int) -> Self {
        EventLoopView { timers: self.timers.remove(i), ..self }
    }

    /// The shape of `next` after the timer at the cursor fired: the timer
    /// left the pending list; what its task did while it ran only added
    /// tasks and timers, and changed no other task; the cursor stays, now at
    /// the next pending timer.
    pub open spec fn fired_to(self, next: Self) -> bool
        recommends
            self.at_timer(),
    {
        let i = self.cursor->0 as int;
        let task = self.cursor_timer().task as int;
        &&& next.current == self.current
        &&& next.cursor == self.cursor
        &&& self.timers.len() <= next.timers.len() + 1
        &&& next.timers.take(i) == self.timers.take(i)
        &&& prefix_of(self.timers.skip(i + 1), next.timers.skip(i))
        &&& forall|j: int|
            self.timers.len() - 1 <= j < next.timers.len() ==> #[trigger] next.timers[j]
                >= self.records.len()
        &&& prefix_of(self.records, next.records)
        &&& self.tasks.len() <= next.tasks.len()
        &&& forall|j: int| 0 <= j < self.tasks.len() && j != task ==> next.tasks[j] == self.tasks[j]
    }

    /// `self` with one more task, `task`, in the next free slot.
    pub open spec fn with_task(self, task: T) -> Self {
        EventLoopView { tasks: self.tasks.push(Some(task)), ..self }
    }

    /// `self` with one more timer: `delta` passes for task `task`.
    pub open spec fn with_timer(self, task: usize, delta: u64) -> Self {
        EventLoopView {
            timers: self.timers.push(self.records.len() as usize),
            records: self.records.push(Timer { remaining: delta, task: task }),
            ..self
        }
    }
}

/// The rest of a pass, from cursor `i`, when none of the timers left has
/// run down: each step counts a timer down, and the pass ends with every
/// timer from `i` on counted down by one and nothing else changed.
proof fn lemma_quiet_pass_from<T>(v: EventLoopView<T>, i: nat)
    requires
        v.well_formed(),
        v.timers.len() <= usize::MAX,
        v.cursor == Some(i as usize),
        i <= v.timers.len(),
        forall|j: int| i <= j < v.timers.len() ==> #[trigger] v.records[v.timers[j] as int].remaining > 0,
    ensures
        ({
            let w = v.counted_down_times((v.timers.len() - i) as nat);
            &&& w.cursor == Some(v.timers.len() as usize)
            &&& w.current == v.current
            &&& w.tasks == v.tasks
            &&& w.timers == v.timers
            &&& w.records.len() == v.records.len()
            &&& forall|j: int|
                i <= j < v.timers.len() ==> #[trigger] w.records[v.timers[j] as int] == Timer {
                    remaining: (v.records[v.timers[j] as int].remaining - 1) as u64,
                    task: v.records[v.timers[j] as int].task,
                }
            &&& forall|k: int|
                0 <= k < v.records.len() && !v.timers.subrange(i as int, v.timers.len() as int).contains(
                    k as usize,
                ) ==> #[trigger] w.records[k] == v.records[k]
        }),
        forall|n: nat|
            n < v.timers.len() - i ==> (#[trigger] v.counted_down_times(n)).at_timer()
                && v.counted_down_times(n).cursor_timer().remaining > 0,
    decreases v.timers.len() - i,
{
    let len = v.timers.len();
    if i == len {
        assert(v.timers.subrange(i as int, len as int).len() == 0);
    } else {
        let u = v.counted_down();
        let id = v.timers[i as int];
        assert(u.well_formed());
        assert forall|j: int| i + 1 <= j < len implies #[trigger] u.records[u.timers[j] as int].remaining > 0 by {
            assert(v.timers[i as int] != v.timers[j]);
        }
        lemma_quiet_pass_from(u, i + 1);
        assert(v.counted_down_times((len - i) as nat) == u.counted_down_times((len - (i + 1)) as nat));
        let w = u.counted_down_times((len - (i + 1)) as nat);
        assert forall|j: int| i <= j < len implies #[trigger] w.records[v.timers[j] as int] == Timer {
            remaining: (v.records[v.timers[j] as int].remaining - 1) as u64,
            task: v.records[v.timers[j] as int].task,
        } by {
            if j == i {
                assert(!v.timers.subrange((i + 1) as int, len as int).contains(id)) by {
                    if v.timers.subrange((i + 1) as int, len as int).contains(id) {
                        let m = choose|m: int| 0 <= m < len - (i + 1) && #[trigger] v.timers.subrange((i + 1) as int, len as int)[m] == id;
                        assert(v.timers[i + 1 + m] == v.timers[i as int]);
                    }
                }
            } else {
                assert(v.timers[i as int] != v.timers[j]);
            }
        }
        assert forall|k: int|
            0 <= k < v.records.len() && !v.timers.subrange(i as int, len as int).contains(k as usize)
            implies #[trigger] w.records[k] == v.records[k] by {
            assert(v.timers.subrange(i as int, len as int)[0] == id);
            assert(k != id);
            if v.timers.subrange((i + 1) as int, len as int).contains(k as usize) {
                let m = choose|m: int| 0 <= m < len - (i + 1) && #[trigger] v.timers.subrange((i + 1) as int, len as int)[m] == k as usize;
                assert(v.timers.subrange(i as int, len as int)[m + 1] == k as usize);
            }
        }
        assert forall|n: nat| n < len - i implies (#[trigger] v.counted_down_times(n)).at_timer()
            && v.counted_down_times(n).cursor_timer().remaining > 0 by {
            if n > 0 {
                assert(v.counted_down_times(n) == u.counted_down_times((n - 1) as nat));
            }
        }
    }
}

/// A pass in which no pending timer has run down: each of its steps counts
/// a timer down, and after as many steps as there are pending timers the
/// cursor is past the last of them, every pending timer has been counted
/// down by one, and nothing else has changed.
pub proof fn lemma_quiet_pass<T>(v: EventLoopView<T>)
    requires
        v.well_formed(),
        v.timers.len() <= usize::MAX,
        v.cursor == Some(0usize),
        forall|j: int| 0 <= j < v.timers.len() ==> #[trigger] v.records[v.timers[j] as int].remaining > 0,
    ensures
        ({
            let w = v.counted_down_times(v.timers.len());
            &&& w.cursor == Some(v.timers.len() as usize)
            &&& w.current == v.current
            &&& w.tasks == v.tasks
            &&& w.timers == v.timers
            &&& w.records.len() == v.records.len()
            &&& forall|j: int|
                0 <= j < v.timers.len() ==> #[trigger] w.records[v.timers[j] as int] == Timer {
                    remaining: (v.records[v.timers[j] as int].remaining - 1) as u64,
                    task: v.records[v.timers[j] as int].task,
                }
            &&& forall|k: int|
                0 <= k < v.records.len() && !v.timers.contains(k as usize) ==> #[trigger] w.records[k]
                    == v.records[k]
        }),
        forall|n: nat|
            n < v.timers.len() ==> (#[trigger] v.counted_down_times(n)).at_timer()
                && v.counted_down_times(n).cursor_timer().remaining > 0,
{
    lemma_quiet_pass_from(v, 0);
    assert(v.timers.subrange(0, v.timers.len() as int) == v.timers);
}

/// A timer that fired stays run down: its record keeps zero passes left
/// whatever the resumed task did, so a sleep waiting on it completes when
/// it is resumed next.
pub proof fn lemma_fired_timer_stays_down<T>(v: EventLoopView<T>, next: EventLoopView<T>)
    requires
        v.well_formed(),
        v.at_timer(),
        v.cursor_timer().remaining == 0,
        v.fired_to(next),
    ensures
        next.records[v.timers[v.cursor->0 as int] as int].remaining == 0,
{
    let id = v.timers[v.cursor->0 as int] as int;
    assert(next.records.take(v.records.len() as int)[id] == v.records[id]);
}

impl<T> Executor for EventLoop<T> {
    type Blocked = ();

    open spec fn inv(&self) -> bool {
        self@.well_formed()
    }

    /// While a task runs, the loop keeps the running task and the pass; tasks,
    /// pending timers and timer records are only ever added, and each timer
    /// added is a fresh one.
    open spec fn may_become(&self, next: &Self) -> bool {
        self@.only_grows_to(next@)
    }

    proof fn lemma_may_become_reflexive(e: &Self) {
        assert(e@.tasks.take(e@.tasks.len() as int) == e@.tasks);
        assert(e@.timers.take(e@.timers.len() as int) == e@.timers);
        assert(e@.records.take(e@.records.len() as int) == e@.records);
    }

    proof fn lemma_may_become_transitive(a: &Self, b: &Self, c: &Self) {
        assert(c@.tasks.take(a@.tasks.len() as int) == a@.tasks) by {
            assert(c@.tasks.take(a@.tasks.len() as int) == c@.tasks.take(
                b@.tasks.len() as int,
            ).take(a@.tasks.len() as int));
        }
        assert(c@.timers.take(a@.timers.len() as int) == a@.timers) by {
            assert(c@.timers.take(a@.timers.len() as int) == c@.timers.take(
                b@.timers.len() as int,
            ).take(a@.timers.len() as int));
        }
        assert(c@.records.take(a@.records.len() as int) == a@.records) by {
            assert(c@.records.take(a@.records.len() as int) == c@.records.take(
                b@.records.len() as int,
            ).take(a@.records.len() as int));
        }
        assert forall|j: int| a@.timers.len() <= j < c@.timers.len() implies #[trigger] c@.timers[j]
            >= a@.records.len() by {
            if j < b@.timers.len() {
                assert(c@.timers.take(b@.timers.len() as int)[j] == b@.timers[j]);
            }
        }
    }
}

impl<T> EventLoop<T> {
    /// An event loop with no task and no timer.
    pub fn new() -> (l: EventLoop<T>)
        ensures
            l.inv(),
            l@.current is None,
            l@.cursor is None,
            l@.tasks.len() == 0,
            l@.timers.len() == 0,
            l@.records.len() == 0,
    {
        EventLoop {
            current: None,
            cursor: None,
            tasks: Vec::new(),
            timers: Vec::new(),
            records: Vec::new(),
        }
    }

    /// The task being resumed, if any.
    pub fn running_task(&self) -> (c: Option<usize>)
        ensures
            c == self@.current,
    {
        self.current
    }

    /// Sets a timer that resumes `task` after `delta` passes, and gives its
    /// number.
    fn timer(&mut self, task: usize, delta: u64) -> (id: usize)
        requires
            old(self).inv(),
            task < old(self)@.tasks.len(),
        ensures
            final(self).inv(),
            id == old(self)@.records.len(),
            final(self)@ == old(self)@.with_timer(task, delta),
    {
        let id = self.records.len();
        self.records.push(Timer { remaining: delta, task: task });
        self.timers.push(id);
        proof {
            assert(self.records@.len() == self.records.len());
            assert(self.timers@.len() == self.timers.len());
        }
        id
    }
}

/// `task` can be resumed as task `id` of a loop in state `v`: in every
/// well-formed loop whose state is `v` with that task taken out to run.
pub open spec fn resumable_in<T: Generator<EventLoop<T>, Yield = Never, Return = ()>>(
    task: T,
    v: EventLoopView<T>,
    id: usize,
) -> bool {
    forall|e: EventLoop<T>| e.inv() && e@ == v.running(id) ==> #[trigger] task.can_resume(&e)
}

/// `next` is the loop in state `v` after its task `id` was resumed once and
/// ended in `s`: the task was taken out of its slot to run, took a step that
/// it may take from that loop, changed the loop only as a running task may,
/// and was put back in the state that step left it in, with no task running
/// any more.
pub open spec fn resumed<T: Generator<EventLoop<T>, Yield = Never, Return = ()>>(
    v: EventLoopView<T>,
    id: usize,
    s: State<Never, (), ()>,
    next: EventLoopView<T>,
) -> bool {
    exists|e: EventLoop<T>, mid: EventLoop<T>, t: T|
        #![trigger v.tasks[id as int]->0.may_step(&e, &t, &mid, s)]
        {
            &&& e.inv()
            &&& e@ == v.running(id)
            &&& v.tasks[id as int]->0.may_step(&e, &t, &mid, s)
            &&& e.may_become(&mid)
            &&& mid.inv()
            &&& next == mid@.stopped(id, t)
        }
}

/// `next` is the loop in state `v` after one tick that reported `t`. Between
/// passes: with no timer pending the loop is over and stays as it is;
/// otherwise a pass starts at the first pending timer. Within a pass: past
/// the last pending timer the pass ends; a timer with passes left is counted
/// down by one and the cursor moves on; a timer that has run down fires: its
/// task is resumed once, then the timer leaves the pending list, and the
/// cursor stays.
pub open spec fn ticked<T: Generator<EventLoop<T>, Yield = Never, Return = ()>>(
    v: EventLoopView<T>,
    t: Tick,
    next: EventLoopView<T>,
) -> bool {
    next.well_formed() && if v.cursor is None {
        if v.timers.len() == 0 {
            t == Tick::Finished && next == v
        } else {
            t == Tick::PassStarted && next == v.with_cursor(Some(0))
        }
    } else if !v.at_timer() {
        t == Tick::PassEnded && next == v.with_cursor(None)
    } else if v.cursor_timer().remaining > 0 {
        t == Tick::CountedDown && next == v.counted_down()
    } else {
        &&& t == Tick::Fired(v.cursor_timer().task)
        &&& v.fired_to(next)
        &&& exists|ran: EventLoopView<T>, s: State<Never, (), ()>|
            #[trigger] resumed(v, v.cursor_timer().task, s, ran) && next == ran.without_pending(
                v.cursor->0 as int,
            )
    }
}

/// `vs` is a run of ticks: each view follows the one before it by the tick
/// in `ts` at the same place.
pub open spec fn tick_run<T: Generator<EventLoop<T>, Yield = Never, Return = ()>>(
    vs: Seq<EventLoopView<T>>,
    ts: Seq<Tick>,
) -> bool {
    &&& vs.len() == ts.len() + 1
    &&& forall|k: int| 0 <= k < ts.len() ==> ticked(vs[k], #[trigger] ts[k], vs[k + 1])
}

/// A sleeping task wakes after its passes: when the only pending timer of
/// a loop between passes has `d` passes left, the next `3 * d + 1` ticks
/// (`d` passes that count it down, and the start of one more) fire nothing,
/// and the tick after them fires the timer, now run down, and resumes its
/// task, which is still the one that was waiting.
pub proof fn lemma_lone_timer_fires<T: Generator<EventLoop<T>, Yield = Never, Return = ()>>(
    vs: Seq<EventLoopView<T>>,
    ts: Seq<Tick>,
    d: nat,
)
    requires
        tick_run(vs, ts),
        ts.len() == 3 * d + 2,
        vs[0].well_formed(),
        vs[0].cursor is None,
        vs[0].timers.len() == 1,
        vs[0].records[vs[0].timers[0] as int].remaining == d,
    ensures
        forall|k: int| 0 <= k < 3 * d + 1 ==> !(#[trigger] ts[k] is Fired),
        ts[3 * d as int + 1] == Tick::Fired(vs[0].records[vs[0].timers[0] as int].task),
        vs[3 * d as int + 1].tasks == vs[0].tasks,
        vs[3 * d as int + 1].timers == vs[0].timers,
        vs[3 * d as int + 1].cursor == Some(0usize),
        vs[3 * d as int + 1].records.len() == vs[0].records.len(),
        vs[3 * d as int + 1].records[vs[0].timers[0] as int] == (Timer {
            remaining: 0,
            task: vs[0].records[vs[0].timers[0] as int].task,
        }),
        exists|ran: EventLoopView<T>, s: State<Never, (), ()>|
            #[trigger] resumed(vs[3 * d as int + 1], vs[0].records[vs[0].timers[0] as int].task, s, ran)
                && vs[3 * d as int + 2] == ran.without_pending(0),
    decreases d,
{
    let v = vs[0];
    let id = v.timers[0];
    let task = v.records[id as int].task;
    assert(ticked(vs[0], ts[0], vs[1]));
    assert(ticked(vs[1], ts[1], vs[2]));
    if d == 0 {
        assert(vs[1] == v.with_cursor(Some(0)));
        assert(vs[1].cursor_timer() == v.records[id as int]);
    } else {
        assert(ticked(vs[2], ts[2], vs[3]));
        assert(vs[3] == vs[1].counted_down().with_cursor(None));
        assert(vs[3].records == v.records.update(
            id as int,
            Timer { remaining: (d - 1) as u64, task: task },
        ));
        assert(vs[3].well_formed()) by {
            assert forall|k: int| 0 <= k < vs[3].records.len() implies #[trigger] vs[3].records[k].task
                < vs[3].tasks.len() by {
                if k != id {
                    assert(vs[3].records[k] == v.records[k]);
                }
            }
        }
        let vs2 = vs.subrange(3, vs.len() as int);
        let ts2 = ts.subrange(3, ts.len() as int);
        assert forall|k: int| 0 <= k < ts2.len() implies ticked(vs2[k], #[trigger] ts2[k], vs2[k + 1]) by {
            assert(ticked(vs[k + 3], ts[k + 3], vs[k + 3 + 1]));
        }
        lemma_lone_timer_fires(vs2, ts2, (d - 1) as nat);
        assert forall|k: int| 0 <= k < 3 * d + 1 implies !(#[trigger] ts[k] is Fired) by {
            if k >= 3 {
                assert(ts[k] == ts2[k - 3]);
            }
        }
        assert(vs2[3 * (d - 1) + 1 as int] == vs[3 * d as int + 1]);
        assert(vs2[3 * (d - 1) + 2 as int] == vs[3 * d as int + 2]);
        assert(ts2[3 * (d - 1) + 1 as int] == ts[3 * d as int + 1]);
    }
}

/// The loop in state `v` stands at the pending timer `id`.
pub open spec fn visits<T>(v: EventLoopView<T>, id: usize) -> bool {
    v.at_timer() && v.timers[v.cursor->0 as int] == id
}

/// How many of the first `k` views of `vs` stand at timer `id`.
pub open spec fn visit_count<T>(vs: Seq<EventLoopView<T>>, id: usize, k: nat) -> nat
    decreases k,
{
    if k == 0 {
        0
    } else {
        visit_count(vs, id, (k - 1) as nat) + if visits(vs[k - 1], id) {
            1nat
        } else {
            0nat
        }
    }
}

/// One tick seen from timer `id`: a visit with passes left counts it down
/// and keeps it pending; a visit at zero fires it, resuming its task, and
/// takes it out of the pending list for good; a tick elsewhere leaves its
/// record alone and neither adds nor removes it.
proof fn lemma_tick_at_timer<T: Generator<EventLoop<T>, Yield = Never, Return = ()>>(
    v: EventLoopView<T>,
    t: Tick,
    w: EventLoopView<T>,
    id: usize,
)
    requires
        ticked(v, t, w),
        v.well_formed(),
        id < v.records.len(),
    ensures
        w.well_formed(),
        id < w.records.len(),
        w.records[id as int].task == v.records[id as int].task,
        visits(v, id) ==> v.timers.contains(id),
        visits(v, id) && v.records[id as int].remaining > 0 ==> w.records[id as int].remaining
            == v.records[id as int].remaining - 1 && w.timers.contains(id),
        visits(v, id) && v.records[id as int].remaining == 0 ==> t == Tick::Fired(
            v.records[id as int].task,
        ) && !w.timers.contains(id),
        !visits(v, id) ==> w.records[id as int].remaining == v.records[id as int].remaining && (
        w.timers.contains(id) <==> v.timers.contains(id)),
{
    if visits(v, id) {
        assert(v.timers[v.cursor->0 as int] == id);
    }
    if v.cursor is Some && v.at_timer() && v.cursor_timer().remaining == 0 {
        let i = v.cursor->0 as int;
        assert(w.records.take(v.records.len() as int)[id as int] == v.records[id as int]);
        if visits(v, id) {
            assert forall|q: int| 0 <= q < w.timers.len() implies w.timers[q] != id by {
                if q < i {
                    assert(w.timers.take(i)[q] == v.timers.take(i)[q]);
                } else if q < v.timers.len() - 1 {
                    assert(w.timers.skip(i)[q - i] == v.timers.skip(i + 1)[q - i]);
                } else {
                    assert(w.timers[q] >= v.records.len());
                }
            }
        } else {
            if v.timers.contains(id) {
                let p = choose|p: int| 0 <= p < v.timers.len() && v.timers[p] == id;
                if p < i {
                    assert(w.timers.take(i)[p] == v.timers.take(i)[p]);
                    assert(w.timers[p] == id);
                } else {
                    assert(p > i);
                    assert(w.timers.skip(i)[p - 1 - i] == v.timers.skip(i + 1)[p - 1 - i]);
                    assert(w.timers[p - 1] == id);
                }
            }
            if w.timers.contains(id) {
                let q = choose|q: int| 0 <= q < w.timers.len() && w.timers[q] == id;
                if q < i {
                    assert(w.timers.take(i)[q] == v.timers.take(i)[q]);
                    assert(v.timers[q] == id);
                } else if q < v.timers.len() - 1 {
                    assert(w.timers.skip(i)[q - i] == v.timers.skip(i + 1)[q - i]);
                    assert(v.timers[q + 1] == id);
                } else {
                    assert(w.timers[q] >= v.records.len());
                }
            }
        }
    }
}

/// After the first `k` ticks of `vs`, timer `id`, pending at the start with
/// `d` passes left, has been visited `c` times: while `c <= d` it is still
/// pending with `d - c` passes left; once `c > d` it is pending no more. The
/// loop stays well-formed and the timer keeps its task.
pub open spec fn timer_counted<T>(vs: Seq<EventLoopView<T>>, id: usize, k: nat) -> bool {
    let c = visit_count(vs, id, k);
    let d = vs[0].records[id as int].remaining;
    &&& vs[k as int].well_formed()
    &&& id < vs[k as int].records.len()
    &&& vs[k as int].records[id as int].task == vs[0].records[id as int].task
    &&& c <= d ==> vs[k as int].timers.contains(id) && vs[k as int].records[id as int].remaining == d - c
    &&& c > d ==> !vs[k as int].timers.contains(id)
}

/// How a pending timer fires, whatever the tasks do: take any run of ticks
/// from a well-formed loop in which timer `id` is pending with `d` passes
/// left. Each visit of the pass to that timer before the last counts it
/// down by one, so that after `c <= d` visits it is still pending with
/// `d - c` passes left; its `(d + 1)`-th visit fires it and resumes its
/// task; after that it is never pending again.
pub proof fn lemma_timer_fires_on_visit<T: Generator<EventLoop<T>, Yield = Never, Return = ()>>(
    vs: Seq<EventLoopView<T>>,
    ts: Seq<Tick>,
    id: usize,
)
    requires
        tick_run(vs, ts),
        vs[0].well_formed(),
        id < vs[0].records.len(),
        vs[0].timers.contains(id),
    ensures
        forall|k: nat| k <= ts.len() ==> #[trigger] timer_counted(vs, id, k),
        forall|k: int|
            0 <= k < ts.len() && visits(vs[k], id) && visit_count(vs, id, k as nat)
                == vs[0].records[id as int].remaining ==> #[trigger] ts[k] == Tick::Fired(
                vs[0].records[id as int].task,
            ),
{
    let d = vs[0].records[id as int].remaining;
    let task = vs[0].records[id as int].task;
    assert forall|k: nat| k <= ts.len() implies #[trigger] timer_counted(vs, id, k) by {
        lemma_timer_upto(vs, ts, id, k);
    }
    assert forall|k: int|
        0 <= k < ts.len() && visits(vs[k], id) && visit_count(vs, id, k as nat) == d implies #[trigger] ts[k]
            == Tick::Fired(task) by {
        lemma_timer_upto(vs, ts, id, k as nat);
        assert(ticked(vs[k], ts[k], vs[k + 1]));
        lemma_tick_at_timer(vs[k], ts[k], vs[k + 1], id);
    }
}

/// The first `k` ticks of the run in `lemma_timer_fires_on_visit`.
proof fn lemma_timer_upto<T: Generator<EventLoop<T>, Yield = Never, Return = ()>>(
    vs: Seq<EventLoopView<T>>,
    ts: Seq<Tick>,
    id: usize,
    k: nat,
)
    requires
        tick_run(vs, ts),
        vs[0].well_formed(),
        id < vs[0].records.len(),
        vs[0].timers.contains(id),
        k <= ts.len(),
    ensures
        timer_counted(vs, id, k),
    decreases k,
{
    if k > 0 {
        let j = (k - 1) as int;
        lemma_timer_upto(vs, ts, id, (k - 1) as nat);
        assert(ticked(vs[j], ts[j], vs[j + 1]));
        lemma_tick_at_timer(vs[j], ts[j], vs[j + 1], id);
    }
}

/// Where a pass stands after its first `m` visits, seen from `v0`, the loop
/// as the pass began: `w` has its cursor at some position `c`; from there on
/// the pending list still holds, in order, the timers of `v0` that the pass
/// has not visited yet, each with the record it had in `v0`; past them come
/// only timers set since `v0`.
spec fn pass_at<T>(v0: EventLoopView<T>, w: EventLoopView<T>, m: nat) -> bool {
    &&& w.well_formed()
    &&& w.cursor is Some
    &&& w.cursor->0 + (v0.timers.len() - m) <= w.timers.len()
    &&& v0.records.len() <= w.records.len()
    &&& forall|q: int|
        w.cursor->0 + (v0.timers.len() - m) <= q < w.timers.len() ==> #[trigger] w.timers[q]
            >= v0.records.len()
    &&& forall|j: int|
        m <= j < v0.timers.len() ==> {
            &&& #[trigger] w.timers[w.cursor->0 + (j - m)] == v0.timers[j]
            &&& w.records[v0.timers[j] as int] == v0.records[v0.timers[j] as int]
        }
}

/// The visit to a timer that has passes left counts it down and moves on.
proof fn lemma_pass_step_counted<T>(v0: EventLoopView<T>, w: EventLoopView<T>, n: EventLoopView<T>, m: nat)
    requires
        v0.well_formed(),
        m < v0.timers.len(),
        pass_at(v0, w, m),
        n == w.counted_down(),
        n.well_formed(),
    ensures
        pass_at(v0, n, m + 1),
{
    let c = w.cursor->0 as int;
    assert forall|j: int| m + 1 <= j < v0.timers.len() implies {
        &&& #[trigger] n.timers[n.cursor->0 + (j - (m + 1))] == v0.timers[j]
        &&& n.records[v0.timers[j] as int] == v0.records[v0.timers[j] as int]
    } by {
        assert(w.timers[c + (j - m)] == v0.timers[j]);
        assert(w.timers[c + (m - m)] == v0.timers[m as int]);
        assert(v0.timers[m as int] != v0.timers[j]);
    }
}

/// The visit to a timer that has run down takes it out of the list; the
/// cursor stays, now at the timer that followed it.
proof fn lemma_pass_step_fired<T>(v0: EventLoopView<T>, w: EventLoopView<T>, n: EventLoopView<T>, m: nat)
    requires
        v0.well_formed(),
        m < v0.timers.len(),
        pass_at(v0, w, m),
        w.at_timer(),
        w.fired_to(n),
        n.well_formed(),
    ensures
        pass_at(v0, n, m + 1),
{
    let c = w.cursor->0 as int;
    assert forall|q: int|
        n.cursor->0 + (v0.timers.len() - (m + 1)) <= q < n.timers.len() implies #[trigger] n.timers[q]
            >= v0.records.len() by {
        if q < w.timers.len() - 1 {
            assert(n.timers.skip(c).take(w.timers.skip(c + 1).len() as int)[q - c]
                == w.timers.skip(c + 1)[q - c]);
            assert(w.timers[q + 1] >= v0.records.len());
        }
    }
    assert forall|j: int| m + 1 <= j < v0.timers.len() implies {
        &&& #[trigger] n.timers[n.cursor->0 + (j - (m + 1))] == v0.timers[j]
        &&& n.records[v0.timers[j] as int] == v0.records[v0.timers[j] as int]
    } by {
        assert(w.timers[c + (j - m)] == v0.timers[j]);
        let q = j - (m + 1);
        assert(n.cursor->0 == c);
        assert(0 <= q < w.timers.skip(c + 1).len());
        assert(w.timers.skip(c + 1)[q] == w.timers[c + (j - m)]);
        assert(n.timers.skip(c).take(w.timers.skip(c + 1).len() as int)[q] == w.timers.skip(c + 1)[q]);
        assert(n.timers.skip(c)[q] == n.timers[c + q]);
        assert(n.timers[n.cursor->0 + (j - (m + 1))] == v0.timers[j]);
        assert(v0.timers[j] < w.records.len());
        assert(n.records.take(w.records.len() as int)[v0.timers[j] as int] == w.records[v0.timers[j] as int]);
    }
}

/// The first `m` visits of the pass in `lemma_pass_visits_every_timer`.
proof fn lemma_pass_upto<T: Generator<EventLoop<T>, Yield = Never, Return = ()>>(
    vs: Seq<EventLoopView<T>>,
    ts: Seq<Tick>,
    m: nat,
)
    requires
        tick_run(vs, ts),
        vs[0].well_formed(),
        vs[0].cursor is None,
        vs[0].timers.len() > 0,
        m <= vs[0].timers.len(),
        m + 1 < vs.len(),
    ensures
        pass_at(vs[0], vs[m + 1 as int], m),
    decreases m,
{
    let v0 = vs[0];
    if m == 0 {
        assert(ticked(vs[0], ts[0], vs[1]));
        assert(vs[1] == v0.with_cursor(Some(0)));
        assert forall|j: int| 0 <= j < v0.timers.len() implies {
            &&& #[trigger] vs[1].timers[vs[1].cursor->0 + (j - 0)] == v0.timers[j]
            &&& vs[1].records[v0.timers[j] as int] == v0.records[v0.timers[j] as int]
        } by {
        }
    } else {
        let p = (m - 1) as nat;
        lemma_pass_upto(vs, ts, p);
        let w = vs[m as int];
        let n = vs[m + 1 as int];
        let id = v0.timers[p as int];
        assert(w.timers[w.cursor->0 + (p - p)] == id);
        assert(ticked(w, ts[m as int], n));
        assert(w.at_timer());
        assert(w.cursor_timer() == v0.records[id as int]);
        if v0.records[id as int].remaining > 0 {
            lemma_pass_step_counted(v0, w, n, p);
        } else {
            lemma_pass_step_fired(v0, w, n, p);
        }
    }
}

/// Every pass visits, in order, each timer that was pending when it began.
/// Take any run of ticks from a well-formed loop between passes with
/// pending timers. The first tick starts a pass; for each `k` below the
/// number of timers pending then, the tick at `k + 1` finds the cursor at
/// the `k`-th of them, its record as it was when the pass began, and either
/// fires it (if it had run down, resuming its task) or counts it down (if
/// passes were left). So a pass with `f` run-down timers and `d` others
/// begins with exactly `f` firings and `d` count-downs, whatever the
/// resumed tasks do meanwhile. When those tasks set no timer during the
/// pass, the tick after these visits ends it.
pub proof fn lemma_pass_visits_every_timer<T: Generator<EventLoop<T>, Yield = Never, Return = ()>>(
    vs: Seq<EventLoopView<T>>,
    ts: Seq<Tick>,
)
    requires
        tick_run(vs, ts),
        vs[0].well_formed(),
        vs[0].cursor is None,
        vs[0].timers.len() > 0,
    ensures
        ts.len() > 0 ==> ts[0] == Tick::PassStarted,
        forall|k: int|
            0 <= k < vs[0].timers.len() && k + 1 < vs.len() ==> {
                &&& #[trigger] visits(vs[k + 1], vs[0].timers[k])
                &&& vs[k + 1].records[vs[0].timers[k] as int] == vs[0].records[vs[0].timers[k] as int]
            },
        forall|k: int|
            0 <= k < vs[0].timers.len() && k + 1 < ts.len() ==> #[trigger] ts[k + 1] == if vs[0].records[vs[0].timers[k] as int].remaining
                == 0 {
                Tick::Fired(vs[0].records[vs[0].timers[k] as int].task)
            } else {
                Tick::CountedDown
            },
        vs[0].timers.len() + 1 < ts.len() && vs[vs[0].timers.len() + 1int].records.len()
            == vs[0].records.len() ==> ts[vs[0].timers.len() + 1int] == Tick::PassEnded,
{
    let v0 = vs[0];
    if ts.len() > 0 {
        assert(ticked(vs[0], ts[0], vs[1]));
    }
    assert forall|k: int| 0 <= k < v0.timers.len() && k + 1 < vs.len() implies {
        &&& #[trigger] visits(vs[k + 1], v0.timers[k])
        &&& vs[k + 1].records[v0.timers[k] as int] == v0.records[v0.timers[k] as int]
    } by {
        lemma_pass_upto(vs, ts, k as nat);
        assert(vs[k + 1].timers[vs[k + 1].cursor->0 + (k - k)] == v0.timers[k]);
    }
    assert forall|k: int| 0 <= k < v0.timers.len() && k + 1 < ts.len() implies #[trigger] ts[k + 1]
        == if v0.records[v0.timers[k] as int].remaining == 0 {
        Tick::Fired(v0.records[v0.timers[k] as int].task)
    } else {
        Tick::CountedDown
    } by {
        lemma_pass_upto(vs, ts, k as nat);
        let w = vs[k + 1];
        assert(w.timers[w.cursor->0 + (k - k)] == v0.timers[k]);
        assert(w.cursor_timer() == v0.records[v0.timers[k] as int]);
        assert(ticked(w, ts[k + 1], vs[k + 2]));
    }
    let len0 = v0.timers.len() as int;
    if len0 + 1 < ts.len() && vs[len0 + 1].records.len() == v0.records.len() {
        lemma_pass_upto(vs, ts, len0 as nat);
        let w = vs[len0 + 1];
        if w.at_timer() {
            let q = w.cursor->0 as int;
            assert(w.timers[q] >= v0.records.len());
            assert(w.timers[q] < w.records.len());
        }
        assert(ticked(w, ts[len0 + 1], vs[len0 + 2]));
    }
}

/// A sleep started as a task wakes after its passes and completes. Start a
/// sleep of `d` passes in a loop with no task running and no timer pending
/// (`v0`, reaching `vs[0]`): its first resumption sets one timer of `d`
/// passes and leaves the task waiting on it. Then the next `3 * d + 1` ticks
/// fire nothing; the one after fires that timer and resumes the sleep, which
/// completes, stays as it was, and leaves no timer pending.
pub proof fn lemma_sleep_task_wakes(
    v0: EventLoopView<AsyncSleep>,
    d: u64,
    s0: State<Never, (), ()>,
    vs: Seq<EventLoopView<AsyncSleep>>,
    ts: Seq<Tick>,
)
    requires
        v0.well_formed(),
        v0.current is None,
        v0.cursor is None,
        v0.timers.len() == 0,
        resumed(v0.with_task(AsyncSleep::pending(d)), v0.tasks.len() as usize, s0, vs[0]),
        tick_run(vs, ts),
        ts.len() == 3 * d + 2,
    ensures
        s0 == State::<Never, (), ()>::Blocked(()),
        forall|k: int| 0 <= k < 3 * d + 1 ==> !(#[trigger] ts[k] is Fired),
        ts[3 * d as int + 1] == Tick::Fired(v0.tasks.len() as usize),
        exists|ran: EventLoopView<AsyncSleep>|
            #[trigger] resumed(vs[3 * d as int + 1], v0.tasks.len() as usize, State::Complete(()), ran)
                && vs[3 * d as int + 2] == ran.without_pending(0)
                && ran.tasks[v0.tasks.len() as int] == vs[0].tasks[v0.tasks.len() as int],
        vs[3 * d as int + 2].timers.len() == 0,
{
    let k = v0.tasks.len() as usize;
    let r = v0.records.len() as usize;
    let pushed = v0.with_task(AsyncSleep::pending(d));
    AsyncSleep::lemma_pending(d);
    let (e, mid, t) = choose|e: EventLoop<AsyncSleep>, mid: EventLoop<AsyncSleep>, t: AsyncSleep|
        #![trigger pushed.tasks[k as int]->0.may_step(&e, &t, &mid, s0)]
        {
            &&& e.inv()
            &&& e@ == pushed.running(k)
            &&& pushed.tasks[k as int]->0.may_step(&e, &t, &mid, s0)
            &&& e.may_become(&mid)
            &&& mid.inv()
            &&& vs[0] == mid@.stopped(k, t)
        };
    assert(pushed.tasks[k as int]->0 == AsyncSleep::pending(d));
    assert(mid@ == e@.with_timer(k, d));
    assert(t.state() == SleepState::Started(r));
    assert(vs[0].timers =~= seq![r]);
    assert(vs[0].records[r as int] == Timer { remaining: d, task: k });
    assert(vs[0].well_formed()) by {
        assert forall|i: int| 0 <= i < vs[0].tasks.len() implies (#[trigger] vs[0].tasks[i] is None
            <==> (vs[0].current matches Some(c) && c == i)) by {
            if i != k {
                assert(vs[0].tasks[i] == mid@.tasks[i]);
            }
        }
    }
    lemma_lone_timer_fires(vs, ts, d as nat);
    let n = 3 * d as int + 1;
    let (ran, s) = choose|ran: EventLoopView<AsyncSleep>, s: State<Never, (), ()>|
        #[trigger] resumed(vs[n], k, s, ran) && vs[n + 1] == ran.without_pending(0);
    let (e2, mid2, t2) = choose|e2: EventLoop<AsyncSleep>, mid2: EventLoop<AsyncSleep>, t2: AsyncSleep|
        #![trigger vs[n].tasks[k as int]->0.may_step(&e2, &t2, &mid2, s)]
        {
            &&& e2.inv()
            &&& e2@ == vs[n].running(k)
            &&& vs[n].tasks[k as int]->0.may_step(&e2, &t2, &mid2, s)
            &&& e2.may_become(&mid2)
            &&& mid2.inv()
            &&& ran == mid2@.stopped(k, t2)
        };
    assert(vs[n].tasks[k as int]->0 == t);
    assert(e2@.records[r as int].remaining == 0);
    assert(s == State::<Never, (), ()>::Complete(()));
    assert(ran.tasks[k as int] == vs[0].tasks[k as int]);
    assert(ran.timers == vs[0].timers);
    assert(vs[n + 1].timers =~= seq![r].remove(0));
}

impl<T: Generator<EventLoop<T>, Yield = Never, Return = ()>> EventLoop<T> {
    /// Resumes task `id` with the loop as its executor.
    fn run_task(&mut self, id: usize)
        requires
            old(self).inv(),
            old(self)@.current is None,
            id < old(self)@.tasks.len(),
            resumable_in(old(self)@.tasks[id as int]->0, old(self)@, id),
        ensures
            exists|s: State<Never, (), ()>| #[trigger] resumed(old(self)@, id, s, final(self)@),
            final(self).inv(),
            final(self)@.current is None,
            final(self)@.cursor == old(self)@.cursor,
            old(self)@.tasks.len() <= final(self)@.tasks.len(),
            forall|i: int|
                0 <= i < old(self)@.tasks.len() && i != id ==> final(self)@.tasks[i]
                    == old(self)@.tasks[i],
            prefix_of(old(self)@.timers, final(self)@.timers),
            old(self)@.fresh_timers_in(final(self)@),
            prefix_of(old(self)@.records, final(self)@.records),
    {
        assert(self@.tasks[id as int] is Some);
        self.current = Some(id);
        let mut task = self.tasks[id].take().unwrap();
        let ghost before = *self;
        assert(self@.tasks =~= old(self)@.tasks.update(id as int, None));
        assert(self@.timers == old(self)@.timers);
        assert(self@.records == old(self)@.records);
        assert(self@.well_formed()) by {
            assert forall|i: int| 0 <= i < self@.tasks.len() implies (#[trigger] self@.tasks[i] is None
                <==> (self@.current matches Some(c) && c == i)) by {
                if i != id {
                    assert(self@.tasks[i] == old(self)@.tasks[i]);
                }
            }
        }
        assert(self@ == old(self)@.running(id));
        assert(task.can_resume(self));
        let ghost t0 = task;
        let s = task.resume(self);
        let ghost mid = *self;
        proof {
            assert(before@.tasks[id as int] is None);
            assert(self@.tasks[id as int] == before@.tasks.take(before@.tasks.len() as int)[id as int]);
        }
        self.tasks[id] = Some(task);
        self.current = None;
        proof {
            assert forall|i: int| 0 <= i < self@.tasks.len() implies (#[trigger] self@.tasks[i] is None
                <==> (self@.current matches Some(c) && c == i)) by {
                if i != id {
                    assert(self@.tasks[i] == before@.tasks.take(before@.tasks.len() as int)[i]
                        || i >= before@.tasks.len());
                }
            }
            assert(prefix_of(old(self)@.timers, self@.timers)) by {
                assert(self@.timers.take(old(self)@.timers.len() as int)
                    == self@.timers.take(before@.timers.len() as int));
            }
            assert(prefix_of(old(self)@.records, self@.records)) by {
                assert(self@.records.take(old(self)@.records.len() as int)
                    == self@.records.take(before@.records.len() as int));
            }
            assert forall|i: int|
                0 <= i < old(self)@.tasks.len() && i != id implies self@.tasks[i]
                    == old(self)@.tasks[i] by {
                assert(self@.tasks[i] == before@.tasks.take(before@.tasks.len() as int)[i]);
            }
            assert(self@ == mid@.stopped(id, task));
            assert(t0 == old(self)@.tasks[id as int]->0);
            assert(t0.may_step(&before, &task, &mid, s));
            assert(resumed(old(self)@, id, s, self@));
        }
    }

    /// Starts `future` as a new task. Called while a task of this loop runs,
    /// it only sets a timer of zero passes for the new task; otherwise it
    /// resumes the new task at once. Driving the timers that follow is
    /// `tick`'s work.
    pub fn run(&mut self, future: T)
        requires
            old(self).inv(),
            old(self)@.current is None ==> resumable_in(
                future,
                old(self)@.with_task(future),
                old(self)@.tasks.len() as usize,
            ),
        ensures
            final(self).inv(),
            final(self)@.current == old(self)@.current,
            final(self)@.cursor == old(self)@.cursor,
            old(self)@.current is Some ==> final(self)@ == old(self)@.with_task(future).with_timer(
                old(self)@.tasks.len() as usize,
                0,
            ),
            old(self)@.current is None ==> {
                &&& exists|s: State<Never, (), ()>|
                    #[trigger] resumed(old(self)@.with_task(future), old(self)@.tasks.len() as usize, s, final(self)@)
                &&& prefix_of(old(self)@.tasks, final(self)@.tasks)
                &&& old(self)@.tasks.len() < final(self)@.tasks.len()
                &&& prefix_of(old(self)@.timers, final(self)@.timers)
                &&& prefix_of(old(self)@.records, final(self)@.records)
            },
    {
        let id = self.tasks.len();
        self.tasks.push(Some(future));
        proof {
            assert(self.tasks@.len() == self.tasks.len());
        }
        if self.current.is_some() {
            self.timer(id, 0);
            return;
        }
        let ghost pushed = self@;
        assert(pushed == old(self)@.with_task(future));
        self.run_task(id);
        proof {
            assert(self@.tasks.take(old(self)@.tasks.len() as int) =~= old(self)@.tasks) by {
                assert forall|i: int| 0 <= i < old(self)@.tasks.len() implies self@.tasks[i]
                    == old(self)@.tasks[i] by {
                    assert(pushed.tasks[i] == old(self)@.tasks[i]);
                }
            }
            assert(self@.timers.take(old(self)@.timers.len() as int) =~= old(self)@.timers);
            assert(self@.records.take(old(self)@.records.len() as int) =~= old(self)@.records);
        }
    }

    /// One step of the loop. Between passes: the loop is over when no timer
    /// is pending, and a new pass starts otherwise. Within a pass: the timer
    /// at the cursor fires when it has run down (its task is resumed, then
    /// the timer leaves the pending list), and is counted down by one
    /// otherwise; past the last pending timer, the pass ends.
    pub fn tick(&mut self) -> (t: Tick)
        requires
            old(self).inv(),
            old(self)@.current is None,
            old(self)@.at_timer() && old(self)@.cursor_timer().remaining == 0 ==> resumable_in(
                old(self)@.tasks[old(self)@.cursor_timer().task as int]->0,
                old(self)@,
                old(self)@.cursor_timer().task,
            ),
        ensures
            final(self).inv(),
            final(self)@.current is None,
            ticked(old(self)@, t, final(self)@),
    {
        match self.cursor {
            None => {
                if self.timers.len() == 0 {
                    Tick::Finished
                } else {
                    self.cursor = Some(0);
                    Tick::PassStarted
                }
            },
            Some(i) => {
                if i < self.timers.len() {
                    let id = self.timers[i];
                    let remaining = self.records[id].remaining;
                    let task = self.records[id].task;
                    if remaining == 0 {
                        let ghost before = self@;
                        self.run_task(task);
                        let ghost ran = self@;
                        self.timers.remove(i);
                        proof {
                            assert(self@ == ran.without_pending(i as int));
                            assert(self@.timers.take(i as int) =~= before.timers.take(i as int)) by {
                                assert(ran.timers.take(before.timers.len() as int) == before.timers);
                                assert forall|j: int| 0 <= j < i implies self@.timers[j] == before.timers[j] by {
                                    assert(ran.timers.take(before.timers.len() as int)[j] == before.timers[j]);
                                }
                            }
                            assert(self@.timers.skip(i as int).take(before.timers.skip(i + 1).len() as int)
                                =~= before.timers.skip(i + 1)) by {
                                assert forall|j: int| 0 <= j < before.timers.len() - i - 1 implies
                                    #[trigger] self@.timers[i + j] == before.timers[i + 1 + j] by {
                                    assert(ran.timers.take(before.timers.len() as int)[i + 1 + j]
                                        == before.timers[i + 1 + j]);
                                }
                            }
                            assert forall|j: int| before.timers.len() - 1 <= j < self@.timers.len()
                                implies #[trigger] self@.timers[j] >= before.records.len() by {
                                assert(self@.timers[j] == ran.timers[j + 1]);
                            }
                        }
                        Tick::Fired(task)
                    } else {
                        self.records[id] = Timer { remaining: remaining - 1, task: task };
                        self.cursor = Some(i + 1);
                        Tick::CountedDown
                    }
                } else {
                    self.cursor = None;
                    Tick::PassEnded
                }
            },
        }
    }
}

/// A generator that completes at once with 1, in any executor.
pub struct RPC;

impl<E: Executor> Generator<E> for RPC {
    type Return = usize;

    type Yield = Never;

    open spec fn can_resume(&self, executor: &E) -> bool {
        true
    }

    /// It completes with 1 and leaves itself and the executor as they were.
    open spec fn may_step(&self, before: &E, next: &Self, after: &E, s: State<Never, usize, E::Blocked>) -> bool {
        &&& s == State::<Never, usize, E::Blocked>::Complete(1)
        &&& *after == *before
        &&& *next == *self
    }

    fn resume(&mut self, executor: &mut E) -> (s: State<Never, usize, E::Blocked>)
        ensures
            s == State::<Never, usize, E::Blocked>::Complete(1),
            *final(executor) == *old(executor),
    {
        proof {
            E::lemma_may_become_reflexive(executor);
        }
        State::Complete(1)
    }
}

/// An executor that can put the running generator to sleep.
pub trait SleepExecutor: Executor {
    type Sleep: Future<Self, Return = ()>;

    /// When a fresh sleep can be resumed in this executor.
    spec fn can_sleep(&self) -> bool;

    /// The sleep of `delta` units of time.
    spec fn sleep_spec(delta: u64) -> Self::Sleep;

    /// A generator that completes once `delta` units of time have passed.
    fn sleep(delta: u64) -> (s: Self::Sleep)
        ensures
            s == Self::sleep_spec(delta),
            forall|e: Self| e.can_sleep() ==> #[trigger] s.can_resume(&e),
    ;
}

/// Where a sleep in the event loop stands.
pub enum SleepState {
    /// Not resumed yet: it will set a timer of this many passes.
    Pending(u64),
    /// Waiting on the timer with this number.
    Started(usize),
}

/// A sleep in the event loop: the first resumption sets a timer for the
/// running task and blocks; later ones complete once that timer has run
/// down, and block until then.
pub struct AsyncSleep(SleepState);

impl AsyncSleep {
    /// Where this sleep stands.
    pub closed spec fn state(&self) -> SleepState {
        self.0
    }

    /// The sleep of `delta` passes that has not been resumed yet.
    pub closed spec fn pending(delta: u64) -> AsyncSleep {
        AsyncSleep(SleepState::Pending(delta))
    }

    /// A pending sleep stands at `Pending(delta)`.
    pub proof fn lemma_pending(delta: u64)
        ensures
            Self::pending(delta).state() == SleepState::Pending(delta),
    {
    }
}

impl<T> SleepExecutor for EventLoop<T> {
    type Sleep = AsyncSleep;

    /// A fresh sleep needs a running task to wake up later.
    open spec fn can_sleep(&self) -> bool {
        self@.current is Some
    }

    /// A pending sleep of `delta` passes.
    open spec fn sleep_spec(delta: u64) -> AsyncSleep {
        AsyncSleep::pending(delta)
    }

    fn sleep(delta: u64) -> (s: AsyncSleep)
        ensures
            s.state() == SleepState::Pending(delta),
    {
        AsyncSleep(SleepState::Pending(delta))
    }
}

impl<T> Generator<EventLoop<T>> for AsyncSleep {
    type Return = ();

    type Yield = Never;

    /// A pending sleep needs a running task; a started one needs its timer
    /// to belong to this loop.
    open spec fn can_resume(&self, executor: &EventLoop<T>) -> bool {
        match self.state() {
            SleepState::Pending(_) => executor@.current is Some,
            SleepState::Started(id) => id < executor@.records.len(),
        }
    }

    /// A pending sleep sets a timer of its passes for the running task,
    /// starts waiting on that timer, and blocks; a started one leaves itself
    /// and the loop as they are, and completes once its timer has run down,
    /// blocking until then.
    open spec fn may_step(
        &self,
        before: &EventLoop<T>,
        next: &Self,
        after: &EventLoop<T>,
        s: State<Never, (), ()>,
    ) -> bool {
        match self.state() {
            SleepState::Pending(delta) => {
                &&& s == State::<Never, (), ()>::Blocked(())
                &&& after@ == before@.with_timer(before@.current->0, delta)
                &&& next.state() == SleepState::Started(before@.records.len() as usize)
            },
            SleepState::Started(id) => {
                &&& after@ == before@
                &&& *next == *self
                &&& s == if before@.records[id as int].remaining == 0 {
                    State::<Never, (), ()>::Complete(())
                } else {
                    State::<Never, (), ()>::Blocked(())
                }
            },
        }
    }

    fn resume(&mut self, executor: &mut EventLoop<T>) -> (s: State<Never, (), ()>)
        ensures
            old(self).state() matches SleepState::Pending(delta) ==> {
                &&& s == State::<Never, (), ()>::Blocked(())
                &&& final(self).state() == SleepState::Started(old(executor)@.records.len() as usize)
                &&& final(executor)@ == old(executor)@.with_timer(old(executor)@.current->0, delta)
            },
            old(self).state() matches SleepState::Started(id) ==> {
                &&& final(self).state() == old(self).state()
                &&& final(executor)@ == old(executor)@
                &&& s == if old(executor)@.records[id as int].remaining == 0 {
                    State::<Never, (), ()>::Complete(())
                } else {
                    State::<Never, (), ()>::Blocked(())
                }
            },
    {
        match self.0 {
            SleepState::Pending(delta) => {
                let task = executor.current.unwrap();
                let id = executor.timer(task, delta);
                self.0 = SleepState::Started(id);
                proof {
                    assert(old(executor)@.tasks.take(old(executor)@.tasks.len() as int)
                        =~= old(executor)@.tasks);
                    assert(executor@.timers.take(old(executor)@.timers.len() as int)
                        =~= old(executor)@.timers);
                    assert(executor@.records.take(old(executor)@.records.len() as int)
                        =~= old(executor)@.records);
                }
                State::Blocked(())
            },
            SleepState::Started(id) => {
                proof {
                    EventLoop::<T>::lemma_may_become_reflexive(executor);
                }
                if executor.records[id].remaining == 0 {
                    State::Complete(())
                } else {
                    State::Blocked(())
                }
            },
        }
    }
}

/// An executor that holds the arguments of a computation until they are
/// taken.
pub struct ArgsExecutor<T>(Option<T>);

impl<T> ArgsExecutor<T> {
    /// The arguments still held, if any.
    pub closed spec fn args(&self) -> Option<T> {
        self.0
    }

    /// An executor holding `args`.
    pub fn new(args: T) -> (e: Self)
        ensures
            e.args() == Some(args),
    {
        ArgsExecutor(Some(args))
    }
}

impl<T> Executor for ArgsExecutor<T> {
    type Blocked = Never;

    open spec fn inv(&self) -> bool {
        true
    }

    /// Arguments can be taken, never put back or replaced.
    open spec fn may_become(&self, next: &Self) -> bool {
        next.args() is None || next.args() == self.args()
    }

    proof fn lemma_may_become_reflexive(e: &Self) {
    }

    proof fn lemma_may_become_transitive(a: &Self, b: &Self, c: &Self) {
    }
}

/// Arguments are handed out once: after they are taken, extracting them
/// again is not allowed.
pub proof fn lemma_args_extracted_once<T>(executor: ArgsExecutor<T>)
    requires
        executor.args() is None,
    ensures
        !ArgsExtractor.can_resume(&executor),
{
}

/// A generator that completes with the arguments of its executor.
pub struct ArgsExtractor;

impl<T> Generator<ArgsExecutor<T>> for ArgsExtractor {
    type Yield = Never;

    type Return = T;

    /// The arguments can be extracted once.
    open spec fn can_resume(&self, executor: &ArgsExecutor<T>) -> bool {
        executor.args() is Some
    }

    /// It completes with the arguments, which leave the executor.
    open spec fn may_step(
        &self,
        before: &ArgsExecutor<T>,
        next: &Self,
        after: &ArgsExecutor<T>,
        s: State<Never, T, Never>,
    ) -> bool {
        &&& s == State::<Never, T, Never>::Complete(before.args()->0)
        &&& after.args() is None
        &&& *next == *self
    }

    fn resume(&mut self, executor: &mut ArgsExecutor<T>) -> (s: State<Never, T, Never>)
        ensures
            s == State::<Never, T, Never>::Complete(old(executor).args()->0),
            final(executor).args() is None,
    {
        State::Complete(executor.0.take().expect("arguments already extracted"))
    }
}

} // verus!
