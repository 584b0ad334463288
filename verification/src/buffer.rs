//! The byte buffer that frames are read from and written to, with what this
//! library takes for granted of it.
//!
//! The buffer is `bytes::BytesMut`. Nothing here is proved: each contract
//! states what the buffer's own code and documentation say.

use vstd::prelude::*;
use bytes::{Buf, BufMut, BytesMut};

verus! {

/// `bytes::BytesMut`, a growable buffer of bytes, as a type that contracts
/// can speak of.
#[verifier::external_type_specification]
#[verifier::external_body]
pub struct ExBytesMut(bytes::BytesMut);

/// The bytes that a buffer holds, from the first that is still unread to the
/// last that was written.
pub uninterp spec fn buffer_bytes(buffer: BytesMut) -> Seq<u8>;

/// The two bytes of `n`, the high one first.
pub open spec fn be16(n: u16) -> Seq<u8> {
    seq![(n / 256) as u8, (n % 256) as u8]
}

/// The four bytes of `n`, the highest first.
pub open spec fn be32(n: u32) -> Seq<u8> {
    seq![
        (n / 16777216) as u8,
        (n / 65536 % 256) as u8,
        (n / 256 % 256) as u8,
        (n % 256) as u8,
    ]
}

/// `BytesMut::len`: the number of bytes that the buffer holds.
pub assume_specification[ BytesMut::len ](buffer: &BytesMut) -> (len: usize)
    ensures
        len == buffer_bytes(*buffer).len(),
;

/// `BytesMut::is_empty`: whether the buffer holds no byte.
pub assume_specification[ BytesMut::is_empty ](buffer: &BytesMut) -> (empty: bool)
    ensures
        empty == (buffer_bytes(*buffer).len() == 0),
;

/// `BytesMut::reserve`: makes room for more bytes and leaves those that
/// the buffer holds as they are. It panics where the room asked for is more
/// than a `usize` can count.
pub assume_specification[ BytesMut::reserve ](buffer: &mut BytesMut, additional: usize)
    requires
        buffer_bytes(*old(buffer)).len() + additional <= usize::MAX,
    ensures
        buffer_bytes(*final(buffer)) == buffer_bytes(*old(buffer)),
;

/// `BytesMut::extend_from_slice`: appends the bytes of the slice.
pub assume_specification[ BytesMut::extend_from_slice ](buffer: &mut BytesMut, extend: &[u8])
    requires
        buffer_bytes(*old(buffer)).len() + extend@.len() <= usize::MAX,
    ensures
        buffer_bytes(*final(buffer)) == buffer_bytes(*old(buffer)) + extend@,
;

/// The buffer's bytes as a slice, by `Deref`.
#[verifier::external_body]
pub(crate) fn buffer_slice(buffer: &BytesMut) -> (bytes: &[u8])
    ensures
        bytes@ == buffer_bytes(*buffer),
{
    &buffer[..]
}

/// Stores `byte` at index `i`, by `DerefMut`. It panics where the buffer
/// holds no byte there.
#[verifier::external_body]
pub(crate) fn buffer_set(buffer: &mut BytesMut, i: usize, byte: u8)
    requires
        i < buffer_bytes(*old(buffer)).len(),
    ensures
        buffer_bytes(*final(buffer)) == buffer_bytes(*old(buffer)).update(i as int, byte),
{
    buffer[i] = byte;
}

/// `Buf::advance`: drops the first `count` bytes. It panics where the buffer
/// holds fewer.
#[verifier::external_body]
pub(crate) fn buffer_advance(buffer: &mut BytesMut, count: usize)
    requires
        count <= buffer_bytes(*old(buffer)).len(),
    ensures
        buffer_bytes(*final(buffer)) == buffer_bytes(*old(buffer)).skip(count as int),
{
    buffer.advance(count)
}

/// `BufMut::put_u8`: appends one byte.
#[verifier::external_body]
pub(crate) fn buffer_put_u8(buffer: &mut BytesMut, n: u8)
    requires
        buffer_bytes(*old(buffer)).len() + 1 <= usize::MAX,
    ensures
        buffer_bytes(*final(buffer)) == buffer_bytes(*old(buffer)).push(n),
{
    buffer.put_u8(n)
}

/// `BufMut::put_u16`: appends the two bytes of `n`, the high one first.
#[verifier::external_body]
pub(crate) fn buffer_put_u16(buffer: &mut BytesMut, n: u16)
    requires
        buffer_bytes(*old(buffer)).len() + 2 <= usize::MAX,
    ensures
        buffer_bytes(*final(buffer)) == buffer_bytes(*old(buffer)) + be16(n),
{
    buffer.put_u16(n)
}

/// `BufMut::put_u32`: appends the four bytes of `n`, the highest first.
#[verifier::external_body]
pub(crate) fn buffer_put_u32(buffer: &mut BytesMut, n: u32)
    requires
        buffer_bytes(*old(buffer)).len() + 4 <= usize::MAX,
    ensures
        buffer_bytes(*final(buffer)) == buffer_bytes(*old(buffer)) + be32(n),
{
    buffer.put_u32(n)
}

} // verus!
