use bytes::Buf;
use bytes::BytesMut;
use vstd::prelude::*;

verus! {

#[verifier::external_type_specification]
#[verifier::external_body]
pub struct ExBytesMut(BytesMut);

/// The bytes that a `BytesMut` holds, in order.
pub uninterp spec fn buffered(b: BytesMut) -> Seq<u8>;

/// The bytes of a `BytesMut`, read through its `Deref` to `[u8]`.
#[verifier::external_body]
pub(crate) fn buffer_bytes(b: &BytesMut) -> (s: &[u8])
    ensures
        s@ == buffered(*b),
{
    b
}

/// `Buf::advance` on a `BytesMut`: drops the first `count` bytes. It panics
/// past the end, which `requires` rules out.
#[verifier::external_body]
pub(crate) fn buffer_advance(b: &mut BytesMut, count: usize)
    requires
        count <= buffered(*old(b)).len(),
    ensures
        buffered(*final(b)) == buffered(*old(b)).skip(count as int),
{
    b.advance(count);
}

/// `BytesMut::split_to`: the first `at` bytes move to the result, the rest
/// stay. It panics when `at` exceeds the length, which `requires` rules out.
#[verifier::external_body]
pub(crate) fn buffer_split_to(b: &mut BytesMut, at: usize) -> (head: BytesMut)
    requires
        at <= buffered(*old(b)).len(),
    ensures
        buffered(head) == buffered(*old(b)).take(at as int),
        buffered(*final(b)) == buffered(*old(b)).skip(at as int),
{
    b.split_to(at)
}

/// `BytesMut::reserve`: makes room for `additional` more bytes without
/// changing what the buffer holds. It panics when the new capacity overflows;
/// `requires` keeps the requested length below `isize::MAX`. How much it
/// allocates is left unstated, and so is the abort of the process when the
/// allocator cannot provide the memory.
#[verifier::external_body]
pub(crate) fn buffer_reserve(b: &mut BytesMut, additional: usize)
    requires
        buffered(*old(b)).len() + additional <= isize::MAX,
    ensures
        buffered(*final(b)) == buffered(*old(b)),
{
    b.reserve(additional);
}

} // verus!
