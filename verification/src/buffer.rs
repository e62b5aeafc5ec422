//! Byte buffers.
//!
//! The log codec moves bytes between buffers without copying them more than
//! once, so it keeps them in `bytes::BytesMut`.  No proof can look inside that
//! type: what a buffer holds is named by [`contents`], and every operation the
//! codec performs on a buffer goes through one of the functions below, whose
//! contracts are taken on trust from the `bytes` crate.

use bytes::BytesMut;
use vstd::prelude::*;

verus! {

/// `bytes::BytesMut`, taken as it is: nothing is said of what is inside.
#[verifier::external_type_specification]
#[verifier::external_body]
pub struct ExBytesMut(bytes::BytesMut);

/// The bytes a buffer holds, first to last.
pub uninterp spec fn contents(buf: BytesMut) -> Seq<u8>;

/// `BytesMut::from(&[u8])`: a buffer holding a copy of the slice.
#[verifier::external_body]
pub(crate) fn buffer_from(src: &[u8]) -> (buf: BytesMut)
    ensures
        contents(buf) == src@,
{
    BytesMut::from(src)
}

/// `BytesMut::len`: the number of bytes held.
#[verifier::external_body]
pub(crate) fn buffer_len(buf: &BytesMut) -> (len: usize)
    ensures
        len == contents(*buf).len(),
{
    buf.len()
}

/// `AsRef<[u8]>` of `BytesMut`: the bytes held, as a slice.
#[verifier::external_body]
pub(crate) fn buffer_slice(buf: &BytesMut) -> (slice: &[u8])
    ensures
        slice@ == contents(*buf),
{
    buf.as_ref()
}

/// `Clone` of `BytesMut`: a buffer holding a copy of the same bytes.
#[verifier::external_body]
pub(crate) fn buffer_clone(buf: &BytesMut) -> (copy: BytesMut)
    ensures
        contents(copy) == contents(*buf),
{
    buf.clone()
}

/// `BytesMut::split_to`: the first `at` bytes leave the buffer and are
/// returned; the buffer keeps the rest.  The crate panics when `at` exceeds
/// the length, which the precondition excludes.
#[verifier::external_body]
pub(crate) fn buffer_split_to(buf: &mut BytesMut, at: usize) -> (head: BytesMut)
    requires
        at <= contents(*old(buf)).len(),
    ensures
        contents(head) == contents(*old(buf)).subrange(0, at as int),
        contents(*final(buf)) == contents(*old(buf)).subrange(
            at as int,
            contents(*old(buf)).len() as int,
        ),
{
    buf.split_to(at)
}

/// `BytesMut::advance`: the first `cnt` bytes are dropped.  The crate panics
/// when `cnt` exceeds the length, which the precondition excludes.
#[verifier::external_body]
pub(crate) fn buffer_advance(buf: &mut BytesMut, cnt: usize)
    requires
        cnt <= contents(*old(buf)).len(),
    ensures
        contents(*final(buf)) == contents(*old(buf)).subrange(
            cnt as int,
            contents(*old(buf)).len() as int,
        ),
{
    buf.advance(cnt)
}

/// `BytesMut::truncate`: the first `len` bytes are kept; a `len` beyond the
/// end changes nothing.
#[verifier::external_body]
pub(crate) fn buffer_truncate(buf: &mut BytesMut, len: usize)
    ensures
        len <= contents(*old(buf)).len() ==> contents(*final(buf)) == contents(*old(buf)).subrange(
            0,
            len as int,
        ),
        len > contents(*old(buf)).len() ==> contents(*final(buf)) == contents(*old(buf)),
{
    buf.truncate(len)
}

/// `BytesMut::unsplit`: the bytes of `tail` are appended to the buffer.  The
/// crate grows the buffer as needed and panics only when the new length
/// overflows, which the precondition excludes.
#[verifier::external_body]
pub(crate) fn buffer_unsplit(buf: &mut BytesMut, tail: BytesMut)
    requires
        contents(*old(buf)).len() + contents(tail).len() <= usize::MAX,
    ensures
        contents(*final(buf)) == contents(*old(buf)) + contents(tail),
{
    buf.unsplit(tail)
}

} // verus!
