//! The list in which the threads that are about to be unparked are collected.

use smallvec::SmallVec;
use vstd::prelude::*;

verus! {

/// `smallvec::SmallVec`, a vector that keeps its first `N` items in place.
#[verifier::external_type_specification]
#[verifier::external_body]
#[verifier::reject_recursive_types(T)]
pub struct ExSmallVec<T, const N: usize>(smallvec::SmallVec<T, N>);

/// The items of a small vector, in order.
pub uninterp spec fn small_vec_items(items: SmallVec<usize, 8>) -> Seq<usize>;

/// `SmallVec::new`: the vector that holds nothing.
#[verifier::external_body]
fn small_vec_new() -> (items: SmallVec<usize, 8>)
    ensures
        small_vec_items(items) == Seq::<usize>::empty(),
{
    SmallVec::new()
}

/// `SmallVec::push`: appends one item. The bound keeps the capacity that it asks for, the next
/// power of two, within what a layout of `usize`s can describe; past that it panics.
#[verifier::external_body]
fn small_vec_push(items: &mut SmallVec<usize, 8>, item: usize)
    requires
        small_vec_items(*old(items)).len() < usize::MAX / 64,
    ensures
        small_vec_items(*final(items)) == small_vec_items(*old(items)).push(item),
{
    items.push(item)
}

/// `SmallVec::len`: the number of items.
#[verifier::external_body]
fn small_vec_len(items: &SmallVec<usize, 8>) -> (len: usize)
    ensures
        len == small_vec_items(*items).len(),
{
    items.len()
}

/// `SmallVec::as_slice`: the items as a slice, in order.
#[verifier::external_body]
fn small_vec_as_slice(items: &SmallVec<usize, 8>) -> (slice: &[usize])
    ensures
        slice@ == small_vec_items(*items),
{
    items.as_slice()
}

/// A list of threads. Up to eight of them are held without an allocation.
pub struct ThreadList {
    items: SmallVec<usize, 8>,
}

impl View for ThreadList {
    type V = Seq<usize>;

    closed spec fn view(&self) -> Seq<usize> {
        small_vec_items(self.items)
    }
}

impl ThreadList {
    /// A list without threads.
    pub fn new() -> (list: ThreadList)
        ensures
            list@ == Seq::<usize>::empty(),
    {
        ThreadList { items: small_vec_new() }
    }

    /// Appends a thread.
    pub fn push(&mut self, thread: usize)
        requires
            old(self)@.len() < usize::MAX / 64,
        ensures
            final(self)@ == old(self)@.push(thread),
    {
        small_vec_push(&mut self.items, thread);
    }

    /// The number of threads.
    pub fn len(&self) -> (len: usize)
        ensures
            len == self@.len(),
    {
        small_vec_len(&self.items)
    }

    /// The threads, in the order in which they were appended.
    pub fn as_slice(&self) -> (slice: &[usize])
        ensures
            slice@ == self@,
    {
        small_vec_as_slice(&self.items)
    }
}

} // verus!
