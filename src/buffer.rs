//! Byte buffers of the `bytes` crate and big-endian reads of `byteorder`,
//! seen by the verifier through the sequences of bytes they hold.

use byteorder::{BigEndian, ByteOrder};
use bytes::{Buf, BufMut, Bytes, BytesMut};
use vstd::prelude::*;

verus! {

#[verifier::external_type_specification]
#[verifier::external_body]
pub struct ExBytes(Bytes);

#[verifier::external_type_specification]
#[verifier::external_body]
pub struct ExBytesMut(BytesMut);

/// The bytes held by an immutable buffer.
pub uninterp spec fn bytes_view(b: Bytes) -> Seq<u8>;

/// The bytes held by a growable buffer.
pub uninterp spec fn bytes_mut_view(b: BytesMut) -> Seq<u8>;

/// Largest total size a buffer may grow to: `BytesMut::reserve` panics when
/// the allocation it asks for passes it. That allocation also counts bytes
/// already taken from the front of the same allocation, which no process
/// can hold anywhere near this many of.
pub open spec fn buf_limit() -> int {
    isize::MAX as int
}

/// The four big-endian bytes of `x`.
pub open spec fn u32_be(x: u32) -> Seq<u8> {
    seq![(x >> 24u32) as u8, (x >> 16u32) as u8, (x >> 8u32) as u8, x as u8]
}

/// The two big-endian bytes of `x`.
pub open spec fn u16_be(x: u16) -> Seq<u8> {
    seq![(x >> 8u16) as u8, x as u8]
}

/// The integer whose big-endian bytes are the first four of `s`.
pub open spec fn be_u32(s: Seq<u8>) -> u32
    recommends
        s.len() >= 4,
{
    ((s[0] as u32) << 24u32) | ((s[1] as u32) << 16u32) | ((s[2] as u32) << 8u32) | (s[3] as u32)
}

/// The integer whose big-endian bytes are the first two of `s`.
pub open spec fn be_u16(s: Seq<u8>) -> u16
    recommends
        s.len() >= 2,
{
    ((s[0] as u16) << 8u16) | (s[1] as u16)
}

/// Relies on `BytesMut::new`: an empty buffer.
#[verifier::external_body]
pub(crate) fn buf_new() -> (r: BytesMut)
    ensures
        bytes_mut_view(r) == Seq::<u8>::empty(),
{
    BytesMut::new()
}

/// Relies on `BytesMut::len`: the number of bytes held.
#[verifier::external_body]
pub(crate) fn buf_len(b: &BytesMut) -> (r: usize)
    ensures
        r == bytes_mut_view(*b).len(),
{
    b.len()
}

/// Relies on `Bytes::len`: the number of bytes held.
#[verifier::external_body]
pub(crate) fn bytes_len(b: &Bytes) -> (r: usize)
    ensures
        r == bytes_view(*b).len(),
{
    b.len()
}

/// Relies on indexing a `BytesMut` through its slice: the byte at `i`.
#[verifier::external_body]
pub(crate) fn buf_byte(b: &BytesMut, i: usize) -> (r: u8)
    requires
        i < bytes_mut_view(*b).len(),
    ensures
        r == bytes_mut_view(*b)[i as int],
{
    b[i]
}

/// Relies on `BytesMut::split_to`: the first `at` bytes are handed out and
/// the rest stay.
#[verifier::external_body]
pub(crate) fn buf_split_to(b: &mut BytesMut, at: usize) -> (r: BytesMut)
    requires
        at <= bytes_mut_view(*old(b)).len(),
    ensures
        bytes_mut_view(r) == bytes_mut_view(*old(b)).take(at as int),
        bytes_mut_view(*final(b)) == bytes_mut_view(*old(b)).skip(at as int),
{
    b.split_to(at)
}

/// Relies on `Buf::advance` for `BytesMut`: the first `n` bytes are dropped.
#[verifier::external_body]
pub(crate) fn buf_advance(b: &mut BytesMut, n: usize)
    requires
        n <= bytes_mut_view(*old(b)).len(),
    ensures
        bytes_mut_view(*final(b)) == bytes_mut_view(*old(b)).skip(n as int),
{
    b.advance(n)
}

/// Relies on `BytesMut::freeze`: the same bytes, now immutable.
#[verifier::external_body]
pub(crate) fn buf_freeze(b: BytesMut) -> (r: Bytes)
    ensures
        bytes_view(r) == bytes_mut_view(b),
{
    b.freeze()
}

/// Relies on `Bytes::from(Vec<u8>)`: the same bytes.
#[verifier::external_body]
pub(crate) fn bytes_from_vec(v: Vec<u8>) -> (r: Bytes)
    ensures
        bytes_view(r) == v@,
{
    Bytes::from(v)
}

/// Relies on `BufMut::put_u8` for `BytesMut`: appends one byte.
#[verifier::external_body]
pub(crate) fn buf_put_u8(b: &mut BytesMut, x: u8)
    requires
        bytes_mut_view(*old(b)).len() + 1 <= buf_limit(),
    ensures
        bytes_mut_view(*final(b)) == bytes_mut_view(*old(b)).push(x),
{
    b.put_u8(x)
}

/// Relies on `BufMut::put_u16` for `BytesMut`: appends `x` in big-endian order.
#[verifier::external_body]
pub(crate) fn buf_put_u16(b: &mut BytesMut, x: u16)
    requires
        bytes_mut_view(*old(b)).len() + 2 <= buf_limit(),
    ensures
        bytes_mut_view(*final(b)) == bytes_mut_view(*old(b)) + u16_be(x),
{
    b.put_u16(x)
}

/// Relies on `BufMut::put_u32` for `BytesMut`: appends `x` in big-endian order.
#[verifier::external_body]
pub(crate) fn buf_put_u32(b: &mut BytesMut, x: u32)
    requires
        bytes_mut_view(*old(b)).len() + 4 <= buf_limit(),
    ensures
        bytes_mut_view(*final(b)) == bytes_mut_view(*old(b)) + u32_be(x),
{
    b.put_u32(x)
}

/// Relies on `BytesMut::extend_from_slice`: appends the bytes of `s`.
#[verifier::external_body]
pub(crate) fn buf_extend(b: &mut BytesMut, s: &[u8])
    requires
        bytes_mut_view(*old(b)).len() + s@.len() <= buf_limit(),
    ensures
        bytes_mut_view(*final(b)) == bytes_mut_view(*old(b)) + s@,
{
    b.extend_from_slice(s)
}

/// Relies on `BytesMut::extend_from_slice`: appends the bytes of `s`.
#[verifier::external_body]
pub(crate) fn buf_extend_bytes(b: &mut BytesMut, s: &Bytes)
    requires
        bytes_mut_view(*old(b)).len() + bytes_view(*s).len() <= buf_limit(),
    ensures
        bytes_mut_view(*final(b)) == bytes_mut_view(*old(b)) + bytes_view(*s),
{
    b.extend_from_slice(s)
}

/// Relies on `byteorder::BigEndian::read_u32`: the first four bytes, big-endian.
#[verifier::external_body]
pub(crate) fn read_u32_be(b: &BytesMut) -> (r: u32)
    requires
        bytes_mut_view(*b).len() >= 4,
    ensures
        r == be_u32(bytes_mut_view(*b)),
{
    BigEndian::read_u32(b)
}

/// Relies on `byteorder::BigEndian::read_u16`: the first two bytes, big-endian.
#[verifier::external_body]
pub(crate) fn read_u16_be(b: &BytesMut) -> (r: u16)
    requires
        bytes_mut_view(*b).len() >= 2,
    ensures
        r == be_u16(bytes_mut_view(*b)),
{
    BigEndian::read_u16(b)
}

/// Reading back the big-endian bytes of a `u32` gives the same integer.
pub proof fn lemma_u32_be_round_trip(x: u32)
    ensures
        be_u32(u32_be(x)) == x,
{
    let s = u32_be(x);
    let (a, b, c, d) = (s[0], s[1], s[2], s[3]);
    assert(a == (x >> 24u32) as u8 && b == (x >> 16u32) as u8 && c == (x >> 8u32) as u8 && d == x as u8);
    assert(((((x >> 24u32) as u8) as u32) << 24u32) | ((((x >> 16u32) as u8) as u32) << 16u32)
        | ((((x >> 8u32) as u8) as u32) << 8u32) | ((x as u8) as u32) == x) by (bit_vector);
}

/// Reading back the big-endian bytes of a `u16` gives the same integer.
pub proof fn lemma_u16_be_round_trip(x: u16)
    ensures
        be_u16(u16_be(x)) == x,
{
    let s = u16_be(x);
    assert(s[0] == (x >> 8u16) as u8 && s[1] == x as u8);
    assert(((((x >> 8u16) as u8) as u16) << 8u16) | ((x as u8) as u16) == x) by (bit_vector);
}

} // verus!
