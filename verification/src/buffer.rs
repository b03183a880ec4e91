//! The byte buffer that every decoder reads from, and the few operations on it
//! that the decoders rely on.
//!
//! The buffer is `bytes::Bytes`. Its behaviour is not proved here: each function
//! in this module states what the corresponding `bytes` operation does, over the
//! sequence of bytes that the buffer still holds.

use bytes::Buf;
use bytes::Bytes;
use vstd::prelude::*;

verus! {

#[verifier::external_type_specification]
#[verifier::external_body]
pub struct ExBytes(bytes::Bytes);

/// The bytes that a buffer holds and has not handed out yet, in reading order.
pub uninterp spec fn unread(b: Bytes) -> Seq<u8>;

/// The unsigned integer that a run of bytes denotes in big-endian order (most
/// significant byte first).
pub open spec fn be_value(s: Seq<u8>) -> nat
    decreases s.len(),
{
    if s.len() == 0 {
        0
    } else {
        be_value(s.drop_last()) * 256 + s.last() as nat
    }
}

/// `Bytes::from(Vec<u8>)`: the buffer holds exactly the bytes of the vector.
#[verifier::external_body]
pub(crate) fn from_vec(v: Vec<u8>) -> (b: Bytes)
    ensures
        unread(b) == v@,
{
    Bytes::from(v)
}

/// `Bytes::clone`: the clone holds the same bytes as the buffer it was made from.
#[verifier::external_body]
pub(crate) fn duplicate(b: &Bytes) -> (c: Bytes)
    ensures
        unread(c) == unread(*b),
{
    b.clone()
}

/// `Buf::remaining`: the number of bytes that the buffer still holds.
#[verifier::external_body]
pub(crate) fn remaining(b: &Bytes) -> (n: usize)
    ensures
        n == unread(*b).len(),
{
    b.remaining()
}

/// `Bytes::as_ref`: the buffer's bytes as a slice, the buffer left as it is.
#[verifier::external_body]
pub(crate) fn as_slice(b: &Bytes) -> (s: &[u8])
    ensures
        s@ == unread(*b),
{
    b.as_ref()
}

/// `Buf::get_u8`: hands out the first byte and advances past it. The call
/// panics on an empty buffer, which the precondition excludes.
#[verifier::external_body]
pub(crate) fn get_u8(b: &mut Bytes) -> (v: u8)
    requires
        unread(*old(b)).len() >= 1,
    ensures
        v == unread(*old(b))[0],
        unread(*final(b)) == unread(*old(b)).skip(1),
{
    b.get_u8()
}

/// `Buf::get_u32`: hands out the first four bytes as a big-endian integer and
/// advances past them. The call panics on fewer than four bytes, which the
/// precondition excludes.
#[verifier::external_body]
pub(crate) fn get_u32(b: &mut Bytes) -> (v: u32)
    requires
        unread(*old(b)).len() >= 4,
    ensures
        v == be_value(unread(*old(b)).take(4)),
        unread(*final(b)) == unread(*old(b)).skip(4),
{
    b.get_u32()
}

/// `Buf::get_u64`: hands out the first eight bytes as a big-endian integer and
/// advances past them. The call panics on fewer than eight bytes, which the
/// precondition excludes.
#[verifier::external_body]
pub(crate) fn get_u64(b: &mut Bytes) -> (v: u64)
    requires
        unread(*old(b)).len() >= 8,
    ensures
        v == be_value(unread(*old(b)).take(8)),
        unread(*final(b)) == unread(*old(b)).skip(8),
{
    b.get_u64()
}

/// `Buf::copy_to_bytes` followed by a copy into a vector: hands out the first
/// `len` bytes and advances past them. The call panics when the buffer holds
/// fewer than `len` bytes, which the precondition excludes.
#[verifier::external_body]
pub(crate) fn take_vec(b: &mut Bytes, len: usize) -> (v: Vec<u8>)
    requires
        len <= unread(*old(b)).len(),
    ensures
        v@ == unread(*old(b)).take(len as int),
        unread(*final(b)) == unread(*old(b)).skip(len as int),
{
    b.copy_to_bytes(len).to_vec()
}

} // verus!
