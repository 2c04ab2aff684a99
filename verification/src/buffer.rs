//! Byte buffers that are filled and given away without copying.
use bytes::{Bytes, BytesMut};
use vstd::prelude::*;

verus! {

/// A buffer of the crate `bytes`.
#[verifier::external_type_specification]
#[verifier::external_body]
pub struct ExBytesMut(BytesMut);

/// Bytes of the crate `bytes` that no longer change.
#[verifier::external_type_specification]
#[verifier::external_body]
pub struct ExBytes(Bytes);

/// What a buffer holds.
pub uninterp spec fn buf_contents(buf: BytesMut) -> Seq<u8>;

/// What frozen bytes are.
pub uninterp spec fn bytes_contents(bytes: Bytes) -> Seq<u8>;

/// `BytesMut::with_capacity`: a buffer that holds nothing yet.
#[verifier::external_body]
pub(crate) fn buf_with_capacity(capacity: usize) -> (r: BytesMut)
    requires
        capacity <= isize::MAX,
    ensures
        buf_contents(r) == Seq::<u8>::empty(),
{
    BytesMut::with_capacity(capacity)
}

/// `BytesMut::resize`: bytes past the new length are dropped, and those that are
/// missing are added, all of one value.
#[verifier::external_body]
pub(crate) fn buf_resize(buf: &mut BytesMut, len: usize, value: u8)
    requires
        len <= isize::MAX,
    ensures
        buf_contents(*final(buf)) == Seq::new(
            len as nat,
            |i: int|
                if i < buf_contents(*old(buf)).len() {
                    buf_contents(*old(buf))[i]
                } else {
                    value
                },
        ),
{
    buf.resize(len, value)
}

/// `BytesMut::deref_mut`, and the slice that it gives overwritten as a whole by
/// `copy_from_slice`.
#[verifier::external_body]
pub(crate) fn buf_fill(buf: &mut BytesMut, src: &[u8])
    requires
        src@.len() == buf_contents(*old(buf)).len(),
    ensures
        buf_contents(*final(buf)) == src@,
{
    buf.copy_from_slice(src)
}

/// `BytesMut::deref`: what the buffer holds, as a slice.
#[verifier::external_body]
pub(crate) fn buf_as_slice(buf: &BytesMut) -> (r: &[u8])
    ensures
        r@ == buf_contents(*buf),
{
    buf
}

/// `BytesMut::split`: what the buffer holds is given away, and it holds nothing.
#[verifier::external_body]
pub(crate) fn buf_split(buf: &mut BytesMut) -> (r: BytesMut)
    ensures
        buf_contents(r) == buf_contents(*old(buf)),
        buf_contents(*final(buf)) == Seq::<u8>::empty(),
{
    buf.split()
}

/// `BytesMut::freeze`: the same bytes, which no longer change.
#[verifier::external_body]
pub(crate) fn buf_freeze(buf: BytesMut) -> (r: Bytes)
    ensures
        bytes_contents(r) == buf_contents(buf),
{
    buf.freeze()
}

/// `Bytes::deref`: the bytes as a slice.
#[verifier::external_body]
pub(crate) fn bytes_as_slice(bytes: &Bytes) -> (r: &[u8])
    ensures
        r@ == bytes_contents(*bytes),
{
    bytes
}

} // verus!
