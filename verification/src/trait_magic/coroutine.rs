//! Generators that take an argument on each resumption.
use vstd::prelude::*;

verus! {

/// What one resumption ends in.
pub enum State<Y, R> {
    Yielded(Y),
    Complete(R),
}

/// A computation resumed with an argument of type `Args`.
pub trait Generator<Args> {
    type Yield;
    type Return;

    /// When resuming is allowed.
    spec fn can_resume(&self) -> bool;

    /// A step that a resumption with `args` may take, leaving the generator
    /// as `next` and ending in `s`.
    spec fn may_step(&self, args: Args, next: &Self, s: State<Self::Yield, Self::Return>) -> bool;

    fn resume(&mut self, args: Args) -> (s: State<Self::Yield, Self::Return>)
        requires
            old(self).can_resume(),
        ensures
            old(self).may_step(args, final(self), s),
    ;
}

/// A type that can be resumed as a generator.
pub trait AsGenerator<Args> {
    type Yield;
    type Return;

    /// When resuming is allowed.
    spec fn can_resume(&self) -> bool;

    /// A step that a resumption with `args` may take, leaving the generator
    /// as `next` and ending in `s`.
    spec fn may_step(&self, args: Args, next: &Self, s: State<Self::Yield, Self::Return>) -> bool;

    fn resume(&mut self, args: Args) -> (s: State<Self::Yield, Self::Return>)
        requires
            old(self).can_resume(),
        ensures
            old(self).may_step(args, final(self), s),
    ;
}

} // verus!
