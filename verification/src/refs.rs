use vstd::prelude::*;
use core::marker::PhantomData;

verus! {

/// Typed handle to an element stored in a container. The phantom tag
/// records which widget kind the handle was issued for, so lookups give
/// back the same kind; the identity itself is one opaque key.
pub struct ElementRef<T> {
    index: u64,
    ty: PhantomData<T>,
}

impl<T> ElementRef<T> {
    /// The opaque key this handle carries.
    pub closed spec fn id(self) -> u64 {
        self.index
    }

    pub(crate) fn make(index: u64) -> (r: ElementRef<T>)
        ensures
            r.id() == index,
    {
        ElementRef { index, ty: PhantomData }
    }

    /// The raw key, for callers that track identities themselves.
    pub fn raw(&self) -> (r: u64)
        ensures
            r == self.id(),
    {
        self.index
    }
}

impl<T> Clone for ElementRef<T> {
    fn clone(&self) -> (r: Self)
        ensures
            r.id() == self.id(),
    {
        ElementRef { index: self.index, ty: PhantomData }
    }
}

impl<T> Default for ElementRef<T> {
    fn default() -> (r: Self)
        ensures
            r.id() == 0,
    {
        ElementRef { index: 0, ty: PhantomData }
    }
}

} // verus!
