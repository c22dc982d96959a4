//! The growable output buffer of the encoders: `bytes::BytesMut`, held
//! behind trusted declarations. `buf_bytes` names what a buffer holds; every
//! wrapper states how one `bytes` call changes that content.

use bytes::BufMut;
use vstd::prelude::*;

verus! {

#[verifier::external_type_specification]
#[verifier::external_body]
pub struct ExBytesMut(bytes::BytesMut);

/// The bytes a `BytesMut` holds, front to back.
pub uninterp spec fn buf_bytes(b: bytes::BytesMut) -> Seq<u8>;

/// Big-endian bytes of a 16-bit word.
pub open spec fn be2(n: u16) -> Seq<u8> {
    seq![(n / 0x100) as u8, (n % 0x100) as u8]
}

/// Big-endian bytes of a 32-bit word.
pub open spec fn be4(n: u32) -> Seq<u8> {
    seq![
        (n / 0x100_0000 % 0x100) as u8,
        (n / 0x1_0000 % 0x100) as u8,
        (n / 0x100 % 0x100) as u8,
        (n % 0x100) as u8,
    ]
}

/// Big-endian bytes of a 64-bit word.
pub open spec fn be8(n: u64) -> Seq<u8> {
    be4((n / 0x1_0000_0000) as u32) + be4((n % 0x1_0000_0000) as u32)
}

/// Big-endian bytes of a 128-bit word.
pub open spec fn be16(n: u128) -> Seq<u8> {
    be8((n / 0x1_0000_0000_0000_0000) as u64) + be8((n % 0x1_0000_0000_0000_0000) as u64)
}

/// Two's-complement reading of a signed 16-bit value.
pub open spec fn as_u16(v: i16) -> u16 {
    if v >= 0 {
        v as u16
    } else {
        (v + 0x1_0000) as u16
    }
}

/// Two's-complement reading of a signed 32-bit value.
pub open spec fn as_u32(v: i32) -> u32 {
    if v >= 0 {
        v as u32
    } else {
        (v + 0x1_0000_0000) as u32
    }
}

/// Two's-complement reading of a signed 64-bit value.
pub open spec fn as_u64(v: i64) -> u64 {
    if v >= 0 {
        v as u64
    } else {
        (v + 0x1_0000_0000_0000_0000) as u64
    }
}

/// Relies on `BytesMut::new`: a buffer that holds no bytes.
#[verifier::external_body]
pub(crate) fn buf_new() -> (r: bytes::BytesMut)
    ensures
        buf_bytes(r) == Seq::<u8>::empty(),
{
    bytes::BytesMut::new()
}

/// Relies on `BufMut::put_u8` for `BytesMut`: appends the byte.
#[verifier::external_body]
pub(crate) fn buf_put_u8(buf: &mut bytes::BytesMut, b: u8)
    requires
        buf_bytes(*old(buf)).len() + 1 <= usize::MAX,
    ensures
        buf_bytes(*final(buf)) == buf_bytes(*old(buf)).push(b),
{
    buf.put_u8(b)
}

/// Relies on `BufMut::put_slice` for `BytesMut`: appends the slice.
#[verifier::external_body]
pub(crate) fn buf_put_slice(buf: &mut bytes::BytesMut, s: &[u8])
    requires
        buf_bytes(*old(buf)).len() + s@.len() <= usize::MAX,
    ensures
        buf_bytes(*final(buf)) == buf_bytes(*old(buf)) + s@,
{
    buf.put_slice(s)
}

/// Relies on `BufMut::put_u16` for `BytesMut`: appends two big-endian bytes.
#[verifier::external_body]
pub(crate) fn buf_put_u16(buf: &mut bytes::BytesMut, v: u16)
    requires
        buf_bytes(*old(buf)).len() + 2 <= usize::MAX,
    ensures
        buf_bytes(*final(buf)) == buf_bytes(*old(buf)) + be2(v),
{
    buf.put_u16(v)
}

/// Relies on `BufMut::put_u32` for `BytesMut`: appends four big-endian bytes.
#[verifier::external_body]
pub(crate) fn buf_put_u32(buf: &mut bytes::BytesMut, v: u32)
    requires
        buf_bytes(*old(buf)).len() + 4 <= usize::MAX,
    ensures
        buf_bytes(*final(buf)) == buf_bytes(*old(buf)) + be4(v),
{
    buf.put_u32(v)
}

/// Relies on `BufMut::put_u128` for `BytesMut`: appends sixteen big-endian
/// bytes.
#[verifier::external_body]
pub(crate) fn buf_put_u128(buf: &mut bytes::BytesMut, v: u128)
    requires
        buf_bytes(*old(buf)).len() + 16 <= usize::MAX,
    ensures
        buf_bytes(*final(buf)) == buf_bytes(*old(buf)) + be16(v),
{
    buf.put_u128(v)
}

/// Relies on `BufMut::put_i16` for `BytesMut`: appends the two's-complement
/// big-endian bytes.
#[verifier::external_body]
pub(crate) fn buf_put_i16(buf: &mut bytes::BytesMut, v: i16)
    requires
        buf_bytes(*old(buf)).len() + 2 <= usize::MAX,
    ensures
        buf_bytes(*final(buf)) == buf_bytes(*old(buf)) + be2(as_u16(v)),
{
    buf.put_i16(v)
}

/// Relies on `BufMut::put_i32` for `BytesMut`: appends the two's-complement
/// big-endian bytes.
#[verifier::external_body]
pub(crate) fn buf_put_i32(buf: &mut bytes::BytesMut, v: i32)
    requires
        buf_bytes(*old(buf)).len() + 4 <= usize::MAX,
    ensures
        buf_bytes(*final(buf)) == buf_bytes(*old(buf)) + be4(as_u32(v)),
{
    buf.put_i32(v)
}

/// Relies on `BufMut::put_i64` for `BytesMut`: appends the two's-complement
/// big-endian bytes.
#[verifier::external_body]
pub(crate) fn buf_put_i64(buf: &mut bytes::BytesMut, v: i64)
    requires
        buf_bytes(*old(buf)).len() + 8 <= usize::MAX,
    ensures
        buf_bytes(*final(buf)) == buf_bytes(*old(buf)) + be8(as_u64(v)),
{
    buf.put_i64(v)
}

/// Relies on `<[u8]>::to_vec` through `BytesMut`'s deref to a slice: copies
/// the buffer's bytes out.
#[verifier::external_body]
pub(crate) fn buf_to_vec(buf: &bytes::BytesMut) -> (r: Vec<u8>)
    ensures
        r@ == buf_bytes(*buf),
{
    buf.to_vec()
}

} // verus!
