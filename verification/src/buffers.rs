//! Byte buffers of the `bytes` crate, and what is taken to be true of them.
//!
//! [`bytes::Bytes`] is an immutable, cheaply shared run of bytes; [`bytes::BytesMut`] is one that
//! grows at its end and is cut at its front.

use crate::codec;
use bytes::{Buf, BufMut, Bytes, BytesMut};
use vstd::prelude::*;
use vstd::utf8;

verus! {

/// `bytes::Bytes`, opaque: see [`bytes_contents`].
#[verifier::external_type_specification]
#[verifier::external_body]
pub struct ExBytes(bytes::Bytes);

/// `bytes::BytesMut`, opaque: see [`bytes_mut_contents`].
#[verifier::external_type_specification]
#[verifier::external_body]
pub struct ExBytesMut(bytes::BytesMut);

/// The bytes that a `Bytes` holds.
pub uninterp spec fn bytes_contents(b: Bytes) -> Seq<u8>;

/// The bytes that a `BytesMut` holds.
pub uninterp spec fn bytes_mut_contents(b: BytesMut) -> Seq<u8>;

/// Whether a `BytesMut` is as `BytesMut::with_capacity` made it, but for bytes put behind its end:
/// nothing was cut off it.
pub uninterp spec fn bytes_mut_uncut(b: BytesMut) -> bool;

/// `bytes::Bytes::copy_from_slice` holds a copy of the slice.
pub assume_specification[ bytes::Bytes::copy_from_slice ](data: &[u8]) -> (b: bytes::Bytes)
    ensures
        bytes_contents(b) == data@,
;

/// `bytes::Bytes::len` is the number of bytes held.
pub assume_specification[ bytes::Bytes::len ](b: &bytes::Bytes) -> (n: usize)
    ensures
        n == bytes_contents(*b).len(),
;

/// `bytes::BytesMut::with_capacity` makes an empty buffer. It panics where the capacity is more than
/// an allocation can be.
pub assume_specification[ bytes::BytesMut::with_capacity ](capacity: usize) -> (b: bytes::BytesMut)
    requires
        capacity <= isize::MAX,
    ensures
        bytes_mut_contents(b) == Seq::<u8>::empty(),
        bytes_mut_uncut(b),
;

/// `bytes::BytesMut::len` is the number of bytes held.
pub assume_specification[ bytes::BytesMut::len ](b: &bytes::BytesMut) -> (n: usize)
    ensures
        n == bytes_mut_contents(*b).len(),
;

/// `bytes::BytesMut::split_to` cuts the first `at` bytes off and returns them. It panics where there
/// are not so many.
pub assume_specification[ bytes::BytesMut::split_to ](b: &mut bytes::BytesMut, at: usize) -> (front:
    bytes::BytesMut)
    requires
        at <= bytes_mut_contents(*old(b)).len(),
    ensures
        bytes_mut_contents(front) == bytes_mut_contents(*old(b)).take(at as int),
        bytes_mut_contents(*final(b)) == bytes_mut_contents(*old(b)).skip(at as int),
;

/// `bytes::BytesMut::split_off` keeps the first `at` bytes and returns those behind them. It panics
/// where `at` is more than the buffer's capacity, which is no less than what it holds.
pub assume_specification[ bytes::BytesMut::split_off ](b: &mut bytes::BytesMut, at: usize) -> (back:
    bytes::BytesMut)
    requires
        at <= bytes_mut_contents(*old(b)).len(),
    ensures
        bytes_mut_contents(back) == bytes_mut_contents(*old(b)).skip(at as int),
        bytes_mut_contents(*final(b)) == bytes_mut_contents(*old(b)).take(at as int),
;

/// `bytes::BytesMut::freeze` makes the buffer immutable, with the bytes that it holds.
pub assume_specification[ bytes::BytesMut::freeze ](b: bytes::BytesMut) -> (frozen: bytes::Bytes)
    ensures
        bytes_contents(frozen) == bytes_mut_contents(b),
;

/// The bytes of a `Bytes` as a slice: `AsRef<[u8]>` of `bytes::Bytes`.
#[verifier::external_body]
pub(crate) fn bytes_slice(b: &Bytes) -> (s: &[u8])
    ensures
        s@ == bytes_contents(*b),
{
    b.as_ref()
}

/// The bytes of a `BytesMut` as a slice: `AsRef<[u8]>` of `bytes::BytesMut`.
#[verifier::external_body]
pub(crate) fn bytes_mut_slice(b: &BytesMut) -> (s: &[u8])
    ensures
        s@ == bytes_mut_contents(*b),
{
    b.as_ref()
}

/// `bytes::Bytes::slice` with a range that is open at its end: the bytes from `begin` on, shared
/// with `b`. It panics where `begin` lies behind the end.
#[verifier::external_body]
pub(crate) fn bytes_from(b: &Bytes, begin: usize) -> (tail: Bytes)
    requires
        begin <= bytes_contents(*b).len(),
    ensures
        bytes_contents(tail) == bytes_contents(*b).skip(begin as int),
{
    b.slice(begin..)
}

/// `bytes::Buf::advance` of `bytes::BytesMut` drops the first `count` bytes. It panics where there
/// are not so many.
#[verifier::external_body]
pub(crate) fn bytes_mut_advance(b: &mut BytesMut, count: usize)
    requires
        count <= bytes_mut_contents(*old(b)).len(),
    ensures
        bytes_mut_contents(*final(b)) == bytes_mut_contents(*old(b)).skip(count as int),
{
    b.advance(count)
}

/// `bytes::BufMut::put_u8` of `bytes::BytesMut` puts one byte behind the others. It may panic
/// where the buffer would be more than half as long as an allocation can be, for it doubles its room
/// when it grows.
#[verifier::external_body]
pub(crate) fn put_u8(b: &mut BytesMut, n: u8)
    requires
        bytes_mut_uncut(*old(b)),
        bytes_mut_contents(*old(b)).len() + 1 <= isize::MAX / 2,
    ensures
        bytes_mut_contents(*final(b)) == bytes_mut_contents(*old(b)).push(n),
        bytes_mut_uncut(*final(b)),
{
    b.put_u8(n)
}

/// `bytes::BufMut::put_u16` of `bytes::BytesMut` puts two bytes behind the others, the more
/// significant one first. It may panic where the buffer would be more than half as long as an allocation
/// can be, for it doubles its room when it grows.
#[verifier::external_body]
pub(crate) fn put_u16(b: &mut BytesMut, n: u16)
    requires
        bytes_mut_uncut(*old(b)),
        bytes_mut_contents(*old(b)).len() + 2 <= isize::MAX / 2,
    ensures
        bytes_mut_contents(*final(b)) == bytes_mut_contents(*old(b)) + codec::be16(n),
        bytes_mut_uncut(*final(b)),
{
    b.put_u16(n)
}

/// `bytes::BufMut::put_slice` of `bytes::BytesMut` puts the bytes of `src` behind the others. It may
/// panic where the buffer would be more than half as long as an allocation can be, for it doubles
/// its room when it grows.
#[verifier::external_body]
pub(crate) fn put_slice(b: &mut BytesMut, src: &[u8])
    requires
        bytes_mut_uncut(*old(b)),
        bytes_mut_contents(*old(b)).len() + src@.len() <= isize::MAX / 2,
    ensures
        bytes_mut_contents(*final(b)) == bytes_mut_contents(*old(b)) + src@,
        bytes_mut_uncut(*final(b)),
{
    b.put_slice(src)
}

/// What `String::from_utf8_lossy` makes of some bytes.
pub uninterp spec fn lossy_text(bytes: Seq<u8>) -> Seq<char>;

/// `String::from_utf8_lossy` reads bytes as UTF-8: valid bytes are read as what they spell, and
/// invalid ones are replaced.
#[verifier::external_body]
pub(crate) fn from_utf8_lossy(bytes: &[u8]) -> (text: String)
    ensures
        text@ == lossy_text(bytes@),
        utf8::valid_utf8(bytes@) ==> text@ == utf8::decode_utf8(bytes@),
{
    String::from_utf8_lossy(bytes).into_owned()
}

} // verus!
