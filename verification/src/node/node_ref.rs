//! An owned handle to a part of a term of the first term representation.

use vstd::prelude::*;

verus! {

/// A handle that owns one part of a term.
#[derive(Debug)]
pub struct NodeRef<T> {
    pub inner: Box<T>,
}

impl<T: View> View for NodeRef<T> {
    type V = T::V;

    open spec fn view(&self) -> T::V {
        self.inner@
    }
}

impl<T> NodeRef<T> {
    /// A handle owning `item`.
    pub fn new(item: T) -> (r: Self)
        ensures
            *r.inner == item,
    {
        NodeRef { inner: Box::new(item) }
    }

    /// The item the handle owns.
    pub fn borrow(&self) -> (r: &T)
        ensures
            *r == *self.inner,
    {
        &*self.inner
    }

    /// The item the handle owns, for changing it in place.
    pub fn borrow_mut(&mut self) -> (r: &mut T)
        ensures
            *r == *old(self).inner,
            *final(self).inner == *final(r),
    {
        &mut *self.inner
    }
}

} // verus!
