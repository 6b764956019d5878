//! The byte buffer in which a transaction is put together.
use crate::wire::big_endian;
use bytes::BytesMut;
use vstd::prelude::*;

verus! {

/// A byte buffer.
#[verifier::external_type_specification]
#[verifier::external_body]
pub struct ExBytesMut(BytesMut);

/// The bytes that a buffer holds.
pub uninterp spec fn buffered(buffer: BytesMut) -> Seq<u8>;

/// The number of bytes for which a buffer was made. It holds that many without growing.
pub uninterp spec fn made_for(buffer: BytesMut) -> nat;

/// `BytesMut::with_capacity`: an empty buffer that can hold `capacity` bytes without growing.
/// No allocation is larger than `isize::MAX` bytes.
pub assume_specification[ BytesMut::with_capacity ](capacity: usize) -> (buffer: BytesMut)
    requires
        capacity <= isize::MAX,
    ensures
        buffered(buffer) == Seq::<u8>::empty(),
        made_for(buffer) == capacity,
;

/// `BytesMut::len`: the number of bytes in the buffer.
pub assume_specification[ BytesMut::len ](buffer: &BytesMut) -> (len: usize)
    ensures
        len == buffered(*buffer).len(),
;

/// `BytesMut::extend_from_slice`: puts the bytes of the slice at the end of the buffer. Within
/// the number of bytes for which the buffer was made it does not grow, so that nothing can go
/// wrong.
pub assume_specification[ BytesMut::extend_from_slice ](buffer: &mut BytesMut, extend: &[u8])
    requires
        buffered(*old(buffer)).len() + extend@.len() <= made_for(*old(buffer)),
    ensures
        buffered(*final(buffer)) == buffered(*old(buffer)) + extend@,
        made_for(*final(buffer)) == made_for(*old(buffer)),
;

/// Puts one byte at the end of the buffer.
///
/// Calls `BufMut::put_u8`, which does that, and does not grow the buffer within the number of
/// bytes for which it was made.
#[verifier::external_body]
pub(crate) fn put_u8(buffer: &mut BytesMut, byte: u8)
    requires
        buffered(*old(buffer)).len() + 1 <= made_for(*old(buffer)),
    ensures
        buffered(*final(buffer)) == buffered(*old(buffer)).push(byte),
        made_for(*final(buffer)) == made_for(*old(buffer)),
{
    bytes::BufMut::put_u8(buffer, byte)
}

/// Puts the eight bytes of a word, most significant first, at the end of the buffer.
///
/// Calls `BufMut::put_u64`, which does that, and does not grow the buffer within the number of
/// bytes for which it was made.
#[verifier::external_body]
pub(crate) fn put_u64(buffer: &mut BytesMut, word: u64)
    requires
        buffered(*old(buffer)).len() + 8 <= made_for(*old(buffer)),
    ensures
        buffered(*final(buffer)) == buffered(*old(buffer)) + big_endian(word as nat, 8),
        made_for(*final(buffer)) == made_for(*old(buffer)),
{
    bytes::BufMut::put_u64(buffer, word)
}

/// The bytes of a buffer that is complete.
///
/// Calls `BytesMut::freeze`, which keeps the bytes as they are.
#[verifier::external_body]
pub(crate) fn freeze(buffer: BytesMut) -> (bytes: Vec<u8>)
    ensures
        bytes@ == buffered(buffer),
{
    buffer.freeze().to_vec()
}

} // verus!
