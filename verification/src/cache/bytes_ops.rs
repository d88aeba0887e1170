//! The calls the cache makes on `bytes::Bytes` and `bytes::BytesMut`.

use bytes::{Bytes, BytesMut};
use vstd::prelude::*;

verus! {

/// `bytes::Bytes`, an immutable shared byte buffer.
#[verifier::external_type_specification]
#[verifier::external_body]
pub struct ExBytes(Bytes);

/// `bytes::BytesMut`, a growable byte buffer.
#[verifier::external_type_specification]
#[verifier::external_body]
pub struct ExBytesMut(BytesMut);

/// The bytes that a `Bytes` holds.
pub uninterp spec fn content(b: Bytes) -> Seq<u8>;

/// The bytes written to a `BytesMut` so far.
pub uninterp spec fn written(b: BytesMut) -> Seq<u8>;

/// `Bytes::len`: the number of bytes held.
#[verifier::external_body]
pub(crate) fn bytes_len(b: &Bytes) -> (n: usize)
    ensures
        n == content(*b).len(),
{
    b.len()
}

/// `Bytes::new`: an empty buffer.
#[verifier::external_body]
pub(crate) fn bytes_empty() -> (b: Bytes)
    ensures
        content(b) == Seq::<u8>::empty(),
{
    Bytes::new()
}

/// `Bytes::clone`: another handle on the same bytes.
#[verifier::external_body]
pub(crate) fn bytes_clone(b: &Bytes) -> (r: Bytes)
    ensures
        content(r) == content(*b),
{
    b.clone()
}

/// `Bytes::slice` on a half-open range: the bytes `lo..hi`. The call panics
/// when the range does not lie within the buffer.
#[verifier::external_body]
pub(crate) fn bytes_slice(b: &Bytes, lo: usize, hi: usize) -> (r: Bytes)
    requires
        lo <= hi <= content(*b).len(),
    ensures
        content(r) == content(*b).subrange(lo as int, hi as int),
{
    b.slice(lo..hi)
}

/// `BytesMut::with_capacity`: an empty buffer. The call panics when the
/// capacity exceeds what an allocation may hold.
#[verifier::external_body]
pub(crate) fn buffer_with_capacity(capacity: usize) -> (b: BytesMut)
    requires
        capacity <= isize::MAX,
    ensures
        written(b) == Seq::<u8>::empty(),
{
    BytesMut::with_capacity(capacity)
}

/// `BytesMut::extend_from_slice` on the slice `lo..hi` of a `Bytes`: appends
/// those bytes. The call panics when the grown buffer exceeds what an
/// allocation may hold, and taking the slice panics when it is out of range.
#[verifier::external_body]
pub(crate) fn buffer_extend(buf: &mut BytesMut, b: &Bytes, lo: usize, hi: usize)
    requires
        lo <= hi <= content(*b).len(),
        written(*old(buf)).len() + (hi - lo) <= isize::MAX,
    ensures
        written(*final(buf)) == written(*old(buf)) + content(*b).subrange(lo as int, hi as int),
{
    buf.extend_from_slice(&b[lo..hi])
}

/// `BytesMut::freeze`: the written bytes as an immutable buffer.
#[verifier::external_body]
pub(crate) fn buffer_freeze(buf: BytesMut) -> (b: Bytes)
    ensures
        content(b) == written(buf),
{
    buf.freeze()
}

} // verus!
