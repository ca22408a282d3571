//! The byte buffers of the `bytes` crate, as far as the codec uses them.
//!
//! Nothing in this file is proved: each item states what the crate's
//! documentation and source say of one of its functions.

use bytes::{BufMut, Bytes, BytesMut};
use vstd::prelude::*;

verus! {

/// `bytes::Bytes`, a handle on bytes that no longer change. Nothing of its
/// inside is known here but what `bytes_of` names.
#[verifier::external_type_specification]
#[verifier::external_body]
pub struct ExBytes(bytes::Bytes);

/// `bytes::BytesMut`, a buffer that grows as bytes are written to it.
/// Nothing of its inside is known here but what `written` names.
#[verifier::external_type_specification]
#[verifier::external_body]
pub struct ExBytesMut(bytes::BytesMut);

/// The bytes that a `Bytes` holds, first to last.
pub uninterp spec fn bytes_of(b: Bytes) -> Seq<u8>;

/// The bytes written to a `BytesMut` so far, first to last.
pub uninterp spec fn written(b: BytesMut) -> Seq<u8>;

/// The two bytes of `n`, most significant first.
pub open spec fn be16(n: u16) -> Seq<u8> {
    seq![(n >> 8) as u8, (n & 0xff) as u8]
}

/// The four bytes of `n`, most significant first.
pub open spec fn be32(n: u32) -> Seq<u8> {
    seq![(n >> 24) as u8, ((n >> 16) & 0xff) as u8, ((n >> 8) & 0xff) as u8, (n & 0xff) as u8]
}

/// `Bytes::as_ref`: the slice that a `Bytes` stands for holds its bytes.
#[verifier::external_body]
pub(crate) fn as_slice(b: &Bytes) -> (s: &[u8])
    ensures
        s@ == bytes_of(*b),
{
    b.as_ref()
}

/// `Bytes::slice`: a handle on the bytes from `begin` up to `end`. The call
/// panics unless `begin <= end <= len`.
#[verifier::external_body]
pub(crate) fn slice(b: &Bytes, begin: usize, end: usize) -> (r: Bytes)
    requires
        begin <= end <= bytes_of(*b).len(),
    ensures
        bytes_of(r) == bytes_of(*b).subrange(begin as int, end as int),
{
    b.slice(begin..end)
}

/// `Bytes::new`: a buffer that holds no byte.
pub assume_specification[ Bytes::new ]() -> (b: Bytes)
    ensures
        bytes_of(b) == Seq::<u8>::empty(),
;

/// `Bytes::clone`: a second handle on the same bytes.
pub assume_specification[ <Bytes as Clone>::clone ](b: &Bytes) -> (r: Bytes)
    ensures
        bytes_of(r) == bytes_of(*b),
;

/// `BytesMut::new`: a buffer to which nothing has been written.
pub assume_specification[ BytesMut::new ]() -> (b: BytesMut)
    ensures
        written(b) == Seq::<u8>::empty(),
;

/// `BytesMut::len`: the number of bytes written.
pub assume_specification[ BytesMut::len ](b: &BytesMut) -> (n: usize)
    ensures
        n == written(*b).len(),
;

/// `BytesMut::extend_from_slice`: appends the slice. The buffer grows as
/// needed, up to `isize::MAX` bytes.
pub assume_specification[ BytesMut::extend_from_slice ](b: &mut BytesMut, extend: &[u8])
    requires
        written(*old(b)).len() + extend@.len() <= isize::MAX,
    ensures
        written(*final(b)) == written(*old(b)) + extend@,
;

/// `BytesMut::freeze`: the same bytes, no longer writable.
pub assume_specification[ BytesMut::freeze ](b: BytesMut) -> (r: Bytes)
    ensures
        bytes_of(r) == written(b),
;

/// `BufMut::put_u8` on a `BytesMut`: appends one byte.
#[verifier::external_body]
pub(crate) fn put_u8(b: &mut BytesMut, n: u8)
    requires
        written(*old(b)).len() + 1 <= isize::MAX,
    ensures
        written(*final(b)) == written(*old(b)).push(n),
{
    b.put_u8(n)
}

/// `BufMut::put_u16` on a `BytesMut`: appends `n` in big-endian order.
#[verifier::external_body]
pub(crate) fn put_u16(b: &mut BytesMut, n: u16)
    requires
        written(*old(b)).len() + 2 <= isize::MAX,
    ensures
        written(*final(b)) == written(*old(b)) + be16(n),
{
    b.put_u16(n)
}

/// `BufMut::put_u32` on a `BytesMut`: appends `n` in big-endian order.
#[verifier::external_body]
pub(crate) fn put_u32(b: &mut BytesMut, n: u32)
    requires
        written(*old(b)).len() + 4 <= isize::MAX,
    ensures
        written(*final(b)) == written(*old(b)) + be32(n),
{
    b.put_u32(n)
}

} // verus!
