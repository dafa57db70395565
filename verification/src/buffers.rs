//! Byte buffers of the `bytes` crate, as `prost` re-exports it.
//!
//! [`Bytes`] and [`BytesMut`] are opaque here. What they hold is named by
//! [`bytes_seq`] and [`bytes_mut_seq`], and every operation the library uses
//! is described over those two names. The contracts in this file are believed,
//! not proved.

use prost::bytes::{Buf, BufMut, Bytes, BytesMut};
use vstd::prelude::*;

use crate::wire::be_bytes;

verus! {

/// `prost::bytes::Bytes`: a cheaply cloneable, immutable run of bytes.
#[verifier::external_type_specification]
#[verifier::external_body]
pub struct ExBytes(Bytes);

/// `prost::bytes::BytesMut`: a growable byte buffer.
#[verifier::external_type_specification]
#[verifier::external_body]
pub struct ExBytesMut(BytesMut);

/// The bytes that a [`Bytes`] handle refers to.
pub uninterp spec fn bytes_seq(bytes: Bytes) -> Seq<u8>;

/// The bytes written to a [`BytesMut`] and not split off yet.
pub uninterp spec fn bytes_mut_seq(buf: BytesMut) -> Seq<u8>;

/// `Bytes::new`: a handle on no bytes.
#[verifier::external_body]
pub(crate) fn bytes_new() -> (bytes: Bytes)
    ensures
        bytes_seq(bytes) == Seq::<u8>::empty(),
{
    Bytes::new()
}

/// `Bytes::from` on a vector: a handle on the vector's bytes.
#[verifier::external_body]
pub(crate) fn bytes_from_vec(content: Vec<u8>) -> (bytes: Bytes)
    ensures
        bytes_seq(bytes) == content@,
{
    Bytes::from(content)
}

/// `Bytes::copy_from_slice`: a handle on a copy of the slice.
#[verifier::external_body]
pub(crate) fn bytes_copy(slice: &[u8]) -> (bytes: Bytes)
    ensures
        bytes_seq(bytes) == slice@,
{
    Bytes::copy_from_slice(slice)
}

/// `Bytes::len`: the number of bytes.
#[verifier::external_body]
pub(crate) fn bytes_len(bytes: &Bytes) -> (len: usize)
    ensures
        len == bytes_seq(*bytes).len(),
{
    bytes.len()
}

/// `Bytes::deref`: the bytes as a slice.
#[verifier::external_body]
pub(crate) fn bytes_slice(bytes: &Bytes) -> (slice: &[u8])
    ensures
        slice@ == bytes_seq(*bytes),
{
    bytes
}

/// `Bytes::split_to`: takes the first `at` bytes off the front. The outside
/// function panics when fewer than `at` bytes are there.
#[verifier::external_body]
pub(crate) fn bytes_split_to(bytes: &mut Bytes, at: usize) -> (head: Bytes)
    requires
        at <= bytes_seq(*old(bytes)).len(),
    ensures
        bytes_seq(head) == bytes_seq(*old(bytes)).take(at as int),
        bytes_seq(*final(bytes)) == bytes_seq(*old(bytes)).skip(at as int),
{
    bytes.split_to(at)
}

/// `Buf::advance` on `Bytes`: drops the first `count` bytes. The outside
/// function panics when fewer than `count` bytes are there.
#[verifier::external_body]
pub(crate) fn bytes_advance(bytes: &mut Bytes, count: usize)
    requires
        count <= bytes_seq(*old(bytes)).len(),
    ensures
        bytes_seq(*final(bytes)) == bytes_seq(*old(bytes)).skip(count as int),
{
    bytes.advance(count)
}

/// `BytesMut::new`: an empty buffer.
#[verifier::external_body]
pub(crate) fn bytes_mut_new() -> (buf: BytesMut)
    ensures
        bytes_mut_seq(buf) == Seq::<u8>::empty(),
{
    BytesMut::new()
}

/// `BytesMut::with_capacity`: an empty buffer with room for `capacity` bytes.
/// The outside function panics when no allocation can be that large.
#[verifier::external_body]
pub(crate) fn bytes_mut_with_capacity(capacity: usize) -> (buf: BytesMut)
    requires
        capacity <= isize::MAX,
    ensures
        bytes_mut_seq(buf) == Seq::<u8>::empty(),
{
    BytesMut::with_capacity(capacity)
}

/// `BytesMut::reserve`: makes room for `additional` more bytes and changes no
/// content. The outside function panics when no allocation can be that large.
#[verifier::external_body]
pub(crate) fn bytes_mut_reserve(buf: &mut BytesMut, additional: usize)
    requires
        bytes_mut_seq(*old(buf)).len() + additional <= isize::MAX,
    ensures
        bytes_mut_seq(*final(buf)) == bytes_mut_seq(*old(buf)),
{
    buf.reserve(additional)
}

/// `BytesMut::extend_from_slice`: appends a copy of the slice. The outside
/// function panics when no allocation can be that large.
#[verifier::external_body]
pub(crate) fn bytes_mut_extend(buf: &mut BytesMut, slice: &[u8])
    requires
        bytes_mut_seq(*old(buf)).len() + slice@.len() <= isize::MAX,
    ensures
        bytes_mut_seq(*final(buf)) == bytes_mut_seq(*old(buf)) + slice@,
{
    buf.extend_from_slice(slice)
}

/// `BufMut::put_slice` on `BytesMut`: appends a copy of the slice. The outside
/// function panics when no allocation can be that large.
#[verifier::external_body]
pub(crate) fn bytes_mut_put_slice(buf: &mut BytesMut, slice: &[u8])
    requires
        bytes_mut_seq(*old(buf)).len() + slice@.len() <= isize::MAX,
    ensures
        bytes_mut_seq(*final(buf)) == bytes_mut_seq(*old(buf)) + slice@,
{
    buf.put_slice(slice)
}

/// `BufMut::put_u8` on `BytesMut`: appends one byte. The outside function
/// panics when no allocation can be that large.
#[verifier::external_body]
pub(crate) fn bytes_mut_put_u8(buf: &mut BytesMut, byte: u8)
    requires
        bytes_mut_seq(*old(buf)).len() + 1 <= isize::MAX,
    ensures
        bytes_mut_seq(*final(buf)) == bytes_mut_seq(*old(buf)).push(byte),
{
    buf.put_u8(byte)
}

/// `BufMut::put_u32` on `BytesMut`: appends the four bytes of `value`, most
/// significant first. The outside function panics when no allocation can be
/// that large.
#[verifier::external_body]
pub(crate) fn bytes_mut_put_u32(buf: &mut BytesMut, value: u32)
    requires
        bytes_mut_seq(*old(buf)).len() + 4 <= isize::MAX,
    ensures
        bytes_mut_seq(*final(buf)) == bytes_mut_seq(*old(buf)) + be_bytes(value as nat),
{
    buf.put_u32(value)
}

/// `BytesMut::split`: takes the whole content out and leaves nothing behind.
#[verifier::external_body]
pub(crate) fn bytes_mut_split(buf: &mut BytesMut) -> (taken: BytesMut)
    ensures
        bytes_mut_seq(taken) == bytes_mut_seq(*old(buf)),
        bytes_mut_seq(*final(buf)) == Seq::<u8>::empty(),
{
    buf.split()
}

/// `BytesMut::freeze`: the same bytes as an immutable handle.
#[verifier::external_body]
pub(crate) fn bytes_mut_freeze(buf: BytesMut) -> (bytes: Bytes)
    ensures
        bytes_seq(bytes) == bytes_mut_seq(buf),
{
    buf.freeze()
}

} // verus!
