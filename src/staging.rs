//! The transmit staging buffer: a `bytes::BytesMut` into which outbound
//! segments are packed before a datagram is shipped.

use vstd::prelude::*;
use bytes::BytesMut;

verus! {

#[verifier::external_type_specification]
#[verifier::external_body]
pub struct ExBytesMut(BytesMut);

/// The bytes that a `BytesMut` currently holds, in order.
pub uninterp spec fn staged(b: BytesMut) -> Seq<u8>;

/// Relies on `BytesMut::with_capacity`: the new buffer holds no bytes.
#[verifier::external_body]
pub(crate) fn staging_with_capacity(capacity: usize) -> (r: BytesMut)
    ensures
        staged(r) == Seq::<u8>::empty(),
{
    BytesMut::with_capacity(capacity)
}

/// Relies on `BytesMut::len`: the number of bytes held.
#[verifier::external_body]
pub(crate) fn staging_len(b: &BytesMut) -> (r: usize)
    ensures
        r == staged(*b).len(),
{
    b.len()
}

/// Relies on `BytesMut::extend_from_slice`: the bytes are appended at the end.
#[verifier::external_body]
pub(crate) fn staging_put(b: &mut BytesMut, s: &[u8])
    ensures
        staged(*final(b)) == staged(*old(b)) + s@,
{
    b.extend_from_slice(s)
}

/// Relies on `BytesMut::split`: the returned half holds every byte that was
/// held, and the buffer is left empty.
#[verifier::external_body]
pub(crate) fn staging_take(b: &mut BytesMut) -> (r: Vec<u8>)
    ensures
        r@ == staged(*old(b)),
        staged(*final(b)) == Seq::<u8>::empty(),
{
    b.split().to_vec()
}

} // verus!
