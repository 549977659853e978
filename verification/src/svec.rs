//! Small inline vectors of backend handles.
//!
//! Child-order lists are short in the common case, so they are kept in a
//! `smallvec::SmallVec` with eight inline slots: an ordinary growable vector
//! of `u64` handles.  The verifier sees the container as opaque; the
//! wrappers below state what each operation does to the contents.

use vstd::prelude::*;

verus! {

/// An ordered list of backend handles, stored inline while it is short.
#[verifier::external_body]
pub struct HandleList {
    items: smallvec::SmallVec<[u64; 8]>,
}

/// The sequence of handles a `HandleList` holds, in order.
pub uninterp spec fn elems(v: HandleList) -> Seq<u64>;

impl HandleList {
    /// Relies on smallvec::SmallVec::new: constructs an empty vector.
    #[verifier::external_body]
    pub fn new() -> (r: HandleList)
        ensures
            elems(r) == Seq::<u64>::empty(),
    {
        HandleList { items: smallvec::SmallVec::new() }
    }

    /// Relies on smallvec::SmallVec::push: appends one item at the end.
    #[verifier::external_body]
    pub fn push(&mut self, h: u64)
        ensures
            elems(*final(self)) == elems(*old(self)).push(h),
    {
        self.items.push(h)
    }

    /// Relies on smallvec::SmallVec::len: the number of items held.
    #[verifier::external_body]
    pub fn len(&self) -> (r: usize)
        ensures
            r == elems(*self).len(),
    {
        self.items.len()
    }

    /// Relies on smallvec::SmallVec's Deref to a slice for indexing.
    #[verifier::external_body]
    pub fn get(&self, i: usize) -> (r: u64)
        requires
            i < elems(*self).len(),
    ensures
            r == elems(*self)[i as int],
    {
        self.items[i]
    }
}

} // verus!
