//! Trusted interface to [`thin_vec::ThinVec`], the growable buffer type that
//! backs the string containers.
//!
//! `ThinVec` behaves like `std::vec::Vec` but stores its length and capacity
//! in the heap allocation itself.  The containers in this crate only need a
//! byte buffer (`ThinVec<u8>`) and an offset table (`ThinVec<u32>`), so the
//! trusted wrappers below are written for those two element types; each one
//! relies on a single `thin_vec` method and states what that method does to
//! the buffer's contents.
use vstd::prelude::*;

verus! {

#[verifier::external_type_specification]
#[verifier::external_body]
#[verifier::reject_recursive_types(T)]
pub struct ExThinVec<T>(thin_vec::ThinVec<T>);

/// The bytes held by a `ThinVec<u8>`, in order.
pub uninterp spec fn byte_buf(v: thin_vec::ThinVec<u8>) -> Seq<u8>;

/// The offsets held by a `ThinVec<u32>`, in order.
pub uninterp spec fn end_buf(v: thin_vec::ThinVec<u32>) -> Seq<u32>;

/// Relies on `ThinVec::new`: creates an empty vector.
#[verifier::external_body]
pub(crate) fn byte_buf_new() -> (r: thin_vec::ThinVec<u8>)
    ensures
        byte_buf(r) == Seq::<u8>::empty(),
{
    thin_vec::ThinVec::new()
}

/// Relies on `ThinVec::as_slice`: exposes the whole buffer as a slice.
#[verifier::external_body]
pub(crate) fn byte_buf_as_slice(v: &thin_vec::ThinVec<u8>) -> (r: &[u8])
    ensures
        r@ == byte_buf(*v),
{
    v.as_slice()
}

/// Relies on `ThinVec::push`: appends one element at the end.
#[verifier::external_body]
pub(crate) fn byte_buf_push(v: &mut thin_vec::ThinVec<u8>, b: u8)
    requires
        byte_buf(*old(v)).len() < u32::MAX,
    ensures
        byte_buf(*final(v)) == byte_buf(*old(v)).push(b),
{
    v.push(b)
}

/// Relies on `ThinVec::extend_from_slice`: appends a copy of the slice.
#[verifier::external_body]
pub(crate) fn byte_buf_extend(v: &mut thin_vec::ThinVec<u8>, s: &[u8])
    requires
        byte_buf(*old(v)).len() + s@.len() <= u32::MAX,
    ensures
        byte_buf(*final(v)) == byte_buf(*old(v)) + s@,
{
    v.extend_from_slice(s)
}

/// Relies on `ThinVec::reserve`: grows the capacity, keeps the contents.
#[verifier::external_body]
pub(crate) fn byte_buf_reserve(v: &mut thin_vec::ThinVec<u8>, additional: usize)
    requires
        byte_buf(*old(v)).len() + additional <= u32::MAX,
    ensures
        byte_buf(*final(v)) == byte_buf(*old(v)),
{
    v.reserve(additional)
}

/// Relies on `ThinVec::shrink_to_fit`: trims the capacity, keeps the contents.
#[verifier::external_body]
pub(crate) fn byte_buf_shrink_to_fit(v: &mut thin_vec::ThinVec<u8>)
    ensures
        byte_buf(*final(v)) == byte_buf(*old(v)),
{
    v.shrink_to_fit()
}

/// Relies on `ThinVec::clone`: copies the buffer.
#[verifier::external_body]
pub(crate) fn byte_buf_clone(v: &thin_vec::ThinVec<u8>) -> (r: thin_vec::ThinVec<u8>)
    ensures
        byte_buf(r) == byte_buf(*v),
{
    v.clone()
}

/// Relies on `ThinVec::new`: creates an empty vector.
#[verifier::external_body]
pub(crate) fn end_buf_new() -> (r: thin_vec::ThinVec<u32>)
    ensures
        end_buf(r) == Seq::<u32>::empty(),
{
    thin_vec::ThinVec::new()
}

/// Relies on `ThinVec::as_slice`: exposes the whole offset table as a slice.
#[verifier::external_body]
pub(crate) fn end_buf_as_slice(v: &thin_vec::ThinVec<u32>) -> (r: &[u32])
    ensures
        r@ == end_buf(*v),
{
    v.as_slice()
}

/// Relies on `ThinVec::push`: appends one element at the end.
#[verifier::external_body]
pub(crate) fn end_buf_push(v: &mut thin_vec::ThinVec<u32>, end: u32)
    requires
        end_buf(*old(v)).len() < u32::MAX,
    ensures
        end_buf(*final(v)) == end_buf(*old(v)).push(end),
{
    v.push(end)
}

/// Relies on `ThinVec::reserve`: grows the capacity, keeps the contents.
#[verifier::external_body]
pub(crate) fn end_buf_reserve(v: &mut thin_vec::ThinVec<u32>, additional: usize)
    requires
        end_buf(*old(v)).len() + additional <= u32::MAX,
    ensures
        end_buf(*final(v)) == end_buf(*old(v)),
{
    v.reserve(additional)
}

/// Relies on `ThinVec::shrink_to_fit`: trims the capacity, keeps the contents.
#[verifier::external_body]
pub(crate) fn end_buf_shrink_to_fit(v: &mut thin_vec::ThinVec<u32>)
    ensures
        end_buf(*final(v)) == end_buf(*old(v)),
{
    v.shrink_to_fit()
}

/// Relies on `ThinVec::clone`: copies the offset table.
#[verifier::external_body]
pub(crate) fn end_buf_clone(v: &thin_vec::ThinVec<u32>) -> (r: thin_vec::ThinVec<u32>)
    ensures
        end_buf(r) == end_buf(*v),
{
    v.clone()
}

} // verus!
