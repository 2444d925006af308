//! Handles that stand for a borrow of an event loop, and how a handle is
//! narrowed to a shorter borrow.
use std::marker::PhantomData;
use vstd::prelude::*;

verus! {

/// An event loop holding one number.
pub struct EventLoop(pub usize);

/// A handle that stands for a mutable borrow of an event loop for `'h`.
pub struct Handle<'h>(PhantomData<&'h mut EventLoop>);

/// A handle for the borrow of `_ev`.
pub fn get_handle<'h>(_ev: &'h mut EventLoop) -> (h: Handle<'h>)
    ensures
        *final(_ev) == *old(_ev),
{
    Handle(PhantomData)
}

/// Narrows a borrow of a borrow to the outer, shorter borrow of the loop.
pub fn shrink_ref<'h, 's>(h: &'s mut &'h mut EventLoop) -> (r: &'s mut EventLoop)
    ensures
        *r == **old(h),
        **final(h) == *final(r),
{
    *h
}

/// Narrows a handle to the shorter borrow of the handle itself.
pub fn shrink_handle<'h, 's>(h: &'s mut Handle<'h>) -> (n: Handle<'s>)
    ensures
        *final(h) == *old(h),
{
    Handle(PhantomData)
}

/// A handle that is tied to no borrow at all. Every such handle stands for
/// the same global loop, so a caller keeps at most one alive at a time.
pub fn get_global_handle() -> (h: Handle<'static>) {
    Handle(PhantomData)
}

} // verus!
