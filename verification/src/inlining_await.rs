//! Two generators written out by hand as state machines, the second
//! awaiting the first. Every resumption that the functions below allow
//! corresponds to one call of the host's `hello` hook; the caller makes
//! that call, since it only has an effect outside the machine.
use vstd::prelude::*;

verus! {

/// What a resumption gives: nothing yet, or the final value.
pub enum Res<T> {
    Blocked,
    Val(T),
}

/// The first generator: it blocks five times, counting its resumptions.
pub struct GenA(usize);

impl GenA {
    /// How many times it has been resumed.
    pub closed spec fn step(&self) -> usize {
        self.0
    }
}

/// The first generator, not yet resumed.
pub fn gen_a() -> (g: GenA)
    ensures
        g.step() == 0,
{
    GenA(0)
}

/// Whether `gen_a_resume` may be called on `g`: it has a resumption left.
pub fn gen_a_can_resume(g: &GenA) -> (b: bool)
    ensures
        b == (g.step() < 5),
{
    g.0 < 5
}

/// Resumes the first generator: it blocks and counts the resumption. It has
/// no state for a sixth resumption, so at most five are allowed.
pub fn gen_a_resume(g: &mut GenA) -> (r: Res<usize>)
    requires
        old(g).step() < 5,
    ensures
        r is Blocked,
        final(g).step() == old(g).step() + 1,
{
    match g.0 {
        0 => {
            g.0 = 1;
            Res::Blocked
        },
        1 => {
            g.0 = 2;
            Res::Blocked
        },
        2 => {
            g.0 = 3;
            Res::Blocked
        },
        3 => {
            g.0 = 4;
            Res::Blocked
        },
        _ => {
            g.0 = 5;
            Res::Blocked
        },
    }
}

/// The second generator: it counts one, then awaits the first generator
/// and adds its value, then gives the count.
pub struct GenB {
    state: usize,
    count: usize,
    a: GenA,
}

impl GenB {
    /// Where the machine stands: 0 before the start, 1 while awaiting the
    /// first generator, 2 once that gave its value.
    pub closed spec fn phase(&self) -> usize {
        self.state
    }

    /// The running count.
    pub closed spec fn count(&self) -> usize {
        self.count
    }

    /// The awaited generator.
    pub closed spec fn awaited(&self) -> GenA {
        self.a
    }

    /// The states that `gen_b` and `gen_b_resume` can lead to.
    pub open spec fn valid(&self) -> bool {
        &&& self.phase() <= 2
        &&& self.phase() == 0 ==> self.count() == 0
        &&& self.awaited().step() <= 5
    }
}

/// The second generator, not yet resumed.
pub fn gen_b() -> (g: GenB)
    ensures
        g.valid(),
        g.phase() == 0,
        g.count() == 0,
        g.awaited().step() == 0,
{
    GenB { state: 0, count: 0, a: gen_a() }
}

/// Whether `gen_b_resume` may be called on `g`: unless it awaits the first
/// generator, or that one has a resumption left.
pub fn gen_b_can_resume(g: &GenB) -> (b: bool)
    ensures
        b == (g.phase() != 1 || g.awaited().step() < 5),
{
    g.state != 1 || gen_a_can_resume(&g.a)
}

/// Resumes the second generator. In phase 1 it resumes the awaited
/// generator, which must then have a resumption left.
pub fn gen_b_resume(g: &mut GenB) -> (r: Res<usize>)
    requires
        old(g).valid(),
        old(g).phase() == 1 ==> old(g).awaited().step() < 5,
    ensures
        final(g).valid(),
        old(g).phase() == 0 ==> {
            &&& r is Blocked
            &&& final(g).phase() == 1
            &&& final(g).count() == 1
            &&& final(g).awaited() == old(g).awaited()
        },
        old(g).phase() == 1 ==> {
            &&& r is Blocked
            &&& final(g).phase() == 1
            &&& final(g).count() == old(g).count()
            &&& final(g).awaited().step() == old(g).awaited().step() + 1
        },
        old(g).phase() == 2 ==> {
            &&& r == Res::Val(old(g).count())
            &&& *final(g) == *old(g)
        },
{
    match g.state {
        0 => {
            g.count = g.count + 1;
            g.state = 1;
            Res::Blocked
        },
        1 => {
            match gen_a_resume(&mut g.a) {
                Res::Blocked => {
                    g.state = 1;
                    Res::Blocked
                },
                Res::Val(v) => {
                    g.state = 2;
                    g.count = g.count + v;
                    Res::Blocked
                },
            }
        },
        _ => Res::Val(g.count),
    }
}

} // verus!
