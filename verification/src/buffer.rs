//! The growable byte buffer in which frames are assembled.

use crate::endian::u64_be;
use bytes::{BufMut, BytesMut};
use vstd::prelude::*;

verus! {

/// `bytes::BytesMut`: a buffer of bytes that grows as bytes are put in it.
/// Nothing is known of a buffer but what it holds.
#[verifier::external_type_specification]
#[verifier::external_body]
pub struct ExBytesMut(BytesMut);

/// The bytes that a buffer holds, first written first.
pub uninterp spec fn buffered(buf: BytesMut) -> Seq<u8>;

/// `BytesMut::new`: a buffer that holds no byte.
#[verifier::external_body]
pub(crate) fn buffer_new() -> (buf: BytesMut)
    ensures
        buffered(buf) == Seq::<u8>::empty(),
{
    BytesMut::new()
}

/// `BufMut::put_slice` on a `BytesMut`: the bytes of `src` follow what the
/// buffer held, which grows as needed, up to `isize::MAX` bytes.
#[verifier::external_body]
pub(crate) fn buffer_put_slice(buf: &mut BytesMut, src: &[u8])
    requires
        buffered(*old(buf)).len() + src@.len() <= isize::MAX,
    ensures
        buffered(*final(buf)) == buffered(*old(buf)) + src@,
{
    buf.put_slice(src)
}

/// `BufMut::put_u8` on a `BytesMut`: the byte follows what the buffer held.
#[verifier::external_body]
pub(crate) fn buffer_put_u8(buf: &mut BytesMut, n: u8)
    requires
        buffered(*old(buf)).len() + 1 <= isize::MAX,
    ensures
        buffered(*final(buf)) == buffered(*old(buf)).push(n),
{
    buf.put_u8(n)
}

/// `BufMut::put_u64` on a `BytesMut`: the eight bytes of `n`, most
/// significant first, follow what the buffer held.
#[verifier::external_body]
pub(crate) fn buffer_put_u64(buf: &mut BytesMut, n: u64)
    requires
        buffered(*old(buf)).len() + 8 <= isize::MAX,
    ensures
        buffered(*final(buf)) == buffered(*old(buf)) + u64_be(n),
{
    buf.put_u64(n)
}

/// `Deref` of a `BytesMut`: the bytes that the buffer holds, as a slice.
#[verifier::external_body]
pub(crate) fn buffer_bytes(buf: &BytesMut) -> (bytes: &[u8])
    ensures
        bytes@ == buffered(*buf),
{
    &buf[..]
}

} // verus!
