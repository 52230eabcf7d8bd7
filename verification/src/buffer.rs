//! Cheaply clonable byte buffers.
//!
//! Values are held as `bytes::Bytes`, so that a copy of a value shares the
//! allocation of the original.  Verus sees such a buffer only through
//! [`bytes_view`], the sequence of bytes it holds; the functions below are the
//! only places where a buffer is made, copied or read, and their contracts are
//! taken on trust from the `bytes` crate.

use bytes::Bytes;
use vstd::prelude::*;

verus! {

#[verifier::external_type_specification]
#[verifier::external_body]
pub struct ExBytes(Bytes);

/// The bytes that a buffer holds.
pub uninterp spec fn bytes_view(b: Bytes) -> Seq<u8>;

/// `Bytes::from(Vec<u8>)`: takes the vector over; the buffer holds exactly
/// the vector's bytes.
#[verifier::external_body]
pub(crate) fn bytes_from_vec(v: Vec<u8>) -> (b: Bytes)
    ensures
        bytes_view(b) == v@,
{
    Bytes::from(v)
}

/// `Bytes::new()`: the empty buffer.
#[verifier::external_body]
pub(crate) fn bytes_empty() -> (b: Bytes)
    ensures
        bytes_view(b) == Seq::<u8>::empty(),
{
    Bytes::new()
}

/// `Bytes::clone`: a second handle to the same bytes.
#[verifier::external_body]
pub(crate) fn bytes_clone(b: &Bytes) -> (c: Bytes)
    ensures
        bytes_view(c) == bytes_view(*b),
{
    b.clone()
}

/// `Bytes::len`: the number of bytes held.
#[verifier::external_body]
pub(crate) fn bytes_len(b: &Bytes) -> (n: usize)
    ensures
        n == bytes_view(*b).len(),
{
    b.len()
}

/// The buffer's bytes copied into a vector, through `Deref<Target = [u8]>`.
#[verifier::external_body]
pub(crate) fn bytes_to_vec(b: &Bytes) -> (v: Vec<u8>)
    ensures
        v@ == bytes_view(*b),
{
    b.to_vec()
}

} // verus!
