//! A generator trait whose "primed" form may outlive the borrows of the
//! generator it came from.
use vstd::prelude::*;

verus! {

/// A generator that can be turned into its primed form. (The primed form
/// is itself a generator in every impl here; the bound is not written on
/// `Prime`, since an impl whose primed form is its own type would then
/// depend on itself.)
pub trait Gen: Sized {
    type Prime;

    fn prime(self) -> Self::Prime;
}

/// A generator that borrows its number.
pub struct Test<'a>(&'a usize);

/// A generator that owns its number.
pub struct TestP(usize);

impl<'a> Test<'a> {
    /// The borrowed number.
    pub closed spec fn number(&self) -> usize {
        *self.0
    }
}

impl TestP {
    /// The owned number.
    pub closed spec fn number(&self) -> usize {
        self.0
    }

    /// Reads the owned number.
    pub fn value(&self) -> (n: usize)
        ensures
            n == self.number(),
    {
        self.0
    }
}

impl Gen for TestP {
    type Prime = TestP;

    /// An owning generator is already primed.
    fn prime(self) -> (p: TestP)
        ensures
            p == self,
    {
        self
    }
}

impl<'a> Gen for Test<'a> {
    type Prime = TestP;

    /// Priming copies the borrowed number, so that the result owns it.
    fn prime(self) -> (p: TestP)
        ensures
            p.number() == self.number(),
    {
        TestP(*self.0)
    }
}

/// A generator borrowing `a`.
pub fn test<'a>(a: &'a usize) -> (g: Test<'a>)
    ensures
        g.number() == *a,
{
    Test(a)
}

/// An owning generator of 5, whatever `a` is.
pub fn test_wrapper<'a>(a: &'a usize) -> (g: TestP)
    ensures
        g.number() == 5,
{
    TestP(5)
}

/// The number that `a` hands to `test_wrapper`.
pub const TESTA: usize = 5;

/// The generator that `test_wrapper` gives for `TESTA`.
pub fn a() -> (g: TestP)
    ensures
        g.number() == 5,
{
    let a: usize = 4;
    test_wrapper(&TESTA)
}

} // verus!
