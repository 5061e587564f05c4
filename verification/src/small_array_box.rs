//! A small-array container: elements live in the inline branch up to a
//! fixed capacity and spill to the heap branch beyond it.
//!
//! An untagged union that re-derives its active branch from
//! `len <= INLINE_LEN` at every access would save the tag's space, but any
//! incorrect branch decision there corrupts memory.  This implementation
//! keeps an explicit tag and proves, through `wf`, that the tag always
//! agrees with the length threshold, so every access path reads the branch
//! that the length selects.
use vstd::prelude::*;

verus! {

/// Relies on `Vec::into_boxed_slice`: keeps the elements in order, drops
/// excess capacity.
#[verifier::external_body]
fn vec_into_boxed_slice<T>(v: Vec<T>) -> (r: Box<[T]>)
    ensures
        r@ == v@,
{
    v.into_boxed_slice()
}

#[derive(Clone)]
enum SmallArrayBoxInner<T> {
    Inline(Vec<T>),
    Heap(Vec<T>),
}

/// * `INLINE_LEN` - Number of elements that can be stored inline.
#[derive(Clone)]
pub struct SmallArrayBox<T, const INLINE_LEN: usize> {
    storage: SmallArrayBoxInner<T>,
}

impl<T, const INLINE_LEN: usize> View for SmallArrayBox<T, INLINE_LEN> {
    type V = Seq<T>;

    closed spec fn view(&self) -> Seq<T> {
        match self.storage {
            SmallArrayBoxInner::Inline(v) => v@,
            SmallArrayBoxInner::Heap(v) => v@,
        }
    }
}

impl<T, const INLINE_LEN: usize> SmallArrayBox<T, INLINE_LEN> {
    /// The representation invariant: the active branch is exactly the one
    /// that the length selects.
    pub closed spec fn wf(self) -> bool {
        match self.storage {
            SmallArrayBoxInner::Inline(v) => v@.len() <= INLINE_LEN,
            SmallArrayBoxInner::Heap(v) => v@.len() > INLINE_LEN,
        }
    }

    /// True when the elements are stored inline.
    pub closed spec fn spec_is_inline(self) -> bool {
        self.storage is Inline
    }

    /// Probe for the active branch.
    pub fn is_inline(&self) -> (r: bool)
        ensures
            r == self.spec_is_inline(),
    {
        match &self.storage {
            SmallArrayBoxInner::Inline(_) => true,
            SmallArrayBoxInner::Heap(_) => false,
        }
    }

    pub fn new_empty() -> (r: Self)
        ensures
            r.wf(),
            r@ == Seq::<T>::empty(),
            r.spec_is_inline(),
    {
        SmallArrayBox { storage: SmallArrayBoxInner::Inline(Vec::new()) }
    }

    /// Builds the container from an owned buffer: up to `INLINE_LEN`
    /// elements stay inline, more spill to the heap branch.
    pub fn new(elems: Vec<T>) -> (r: Self)
        ensures
            r.wf(),
            r@ == elems@,
            r.spec_is_inline() <==> elems@.len() <= INLINE_LEN,
    {
        if elems.len() <= INLINE_LEN {
            SmallArrayBox { storage: SmallArrayBoxInner::Inline(elems) }
        } else {
            SmallArrayBox { storage: SmallArrayBoxInner::Heap(elems) }
        }
    }

    /// Builds the container from a boxed slice.
    pub fn from_box(boxed: Box<[T]>) -> (r: Self)
        ensures
            r.wf(),
            r@ == boxed@,
            r.spec_is_inline() <==> boxed@.len() <= INLINE_LEN,
    {
        Self::new(boxed.into_vec())
    }

    /// Consumes the container and returns the elements as a boxed slice.
    pub fn into_boxed_slice(self) -> (r: Box<[T]>)
        ensures
            r@ == self@,
    {
        match self.storage {
            SmallArrayBoxInner::Inline(v) => vec_into_boxed_slice(v),
            SmallArrayBoxInner::Heap(v) => vec_into_boxed_slice(v),
        }
    }

    /// Number of stored elements.
    pub fn len(&self) -> (r: usize)
        ensures
            r == self@.len(),
    {
        match &self.storage {
            SmallArrayBoxInner::Inline(v) => v.len(),
            SmallArrayBoxInner::Heap(v) => v.len(),
        }
    }

    /// A read view of all elements; both branches expose the same
    /// contiguous sequence.
    pub fn as_slice(&self) -> (r: &[T])
        ensures
            r@ == self@,
    {
        match &self.storage {
            SmallArrayBoxInner::Inline(v) => v.as_slice(),
            SmallArrayBoxInner::Heap(v) => v.as_slice(),
        }
    }

    /// A write view of all elements, aliasing the same memory that
    /// [`Self::as_slice`] exposes.  Writing through the view cannot change
    /// the element count, so a well-formed container stays well-formed.
    pub fn as_mut_slice(&mut self) -> (r: &mut [T])
        ensures
            r@ == old(self)@,
            final(r)@ == final(self)@,
            final(self).spec_is_inline() == old(self).spec_is_inline(),
            old(self).wf() && final(r)@.len() == old(self)@.len() ==> final(self).wf(),
    {
        match &mut self.storage {
            SmallArrayBoxInner::Inline(v) => v.as_mut_slice(),
            SmallArrayBoxInner::Heap(v) => v.as_mut_slice(),
        }
    }
}

impl<T, const INLINE_LEN: usize> Default for SmallArrayBox<T, INLINE_LEN> {
    fn default() -> (r: Self)
        ensures
            r.wf(),
            r@ == Seq::<T>::empty(),
            r.spec_is_inline(),
    {
        SmallArrayBox::new_empty()
    }
}

} // verus!
