//! The `bytes` crate's buffers as the codecs see them.
//!
//! `BytesMut` and `Bytes` are declared to the verifier as opaque types; what
//! each holds is named by `bytes_mut_view` and `bytes_view`. Every method the
//! codecs call goes through one wrapper below, whose contract restates what
//! the `bytes` crate documents for that method.

use bytes::{Buf, BufMut, Bytes, BytesMut};
use vstd::prelude::*;

verus! {

#[verifier::external_type_specification]
#[verifier::external_body]
pub struct ExBytesMut(bytes::BytesMut);

#[verifier::external_type_specification]
#[verifier::external_body]
pub struct ExBytes(bytes::Bytes);

/// The bytes a `BytesMut` holds, first to last.
pub uninterp spec fn bytes_mut_view(b: BytesMut) -> Seq<u8>;

/// The bytes a `Bytes` holds, first to last.
pub uninterp spec fn bytes_view(b: Bytes) -> Seq<u8>;

/// The big-endian value of two bytes.
pub open spec fn be_u16(hi: u8, lo: u8) -> u16 {
    (hi as u16 * 256 + lo as u16) as u16
}

/// The two bytes of `v`, most significant first.
pub open spec fn be_bytes(v: u16) -> Seq<u8> {
    seq![(v / 256) as u8, (v % 256) as u8]
}

/// Reading back the two bytes of `v` gives `v`.
pub proof fn lemma_be_round_trip(v: u16)
    ensures
        be_bytes(v).len() == 2,
        be_u16(be_bytes(v)[0], be_bytes(v)[1]) == v,
{
}

/// `BytesMut::new`: an empty buffer.
#[verifier::external_body]
pub(crate) fn bytes_mut_new() -> (b: BytesMut)
    ensures
        bytes_mut_view(b) == Seq::<u8>::empty(),
{
    BytesMut::new()
}

/// `BytesMut::len`: the number of bytes held.
#[verifier::external_body]
pub(crate) fn bytes_mut_len(b: &BytesMut) -> (n: usize)
    ensures
        n == bytes_mut_view(*b).len(),
{
    b.len()
}

/// `Buf::remaining` on a `BytesMut`: the number of bytes left to read, which
/// for a `BytesMut` is its length.
#[verifier::external_body]
pub(crate) fn bytes_mut_remaining(b: &BytesMut) -> (n: usize)
    ensures
        n == bytes_mut_view(*b).len(),
{
    b.remaining()
}

/// `Buf::has_remaining` on a `BytesMut`: whether any byte is left to read.
#[verifier::external_body]
pub(crate) fn bytes_mut_has_remaining(b: &BytesMut) -> (r: bool)
    ensures
        r == (bytes_mut_view(*b).len() > 0),
{
    b.has_remaining()
}

/// `BytesMut::clear`: drops every byte held.
#[verifier::external_body]
pub(crate) fn bytes_mut_clear(b: &mut BytesMut)
    ensures
        bytes_mut_view(*final(b)) == Seq::<u8>::empty(),
{
    b.clear()
}

/// `BytesMut::reserve`: makes room for `additional` more bytes; the bytes
/// held do not change. It panics when the new capacity overflows, which the
/// `requires` rules out.
#[verifier::external_body]
pub(crate) fn bytes_mut_reserve(b: &mut BytesMut, additional: usize)
    requires
        bytes_mut_view(*old(b)).len() + additional <= isize::MAX,
    ensures
        bytes_mut_view(*final(b)) == bytes_mut_view(*old(b)),
{
    b.reserve(additional)
}

/// `BufMut::put_u8` on a `BytesMut`: appends one byte. It panics when the
/// buffer would grow past `isize::MAX` bytes, which the `requires` rules out.
#[verifier::external_body]
pub(crate) fn bytes_mut_put_u8(b: &mut BytesMut, n: u8)
    requires
        bytes_mut_view(*old(b)).len() + 1 <= isize::MAX,
    ensures
        bytes_mut_view(*final(b)) == bytes_mut_view(*old(b)).push(n),
{
    b.put_u8(n)
}

/// `BufMut::put_u16` on a `BytesMut`: appends the two bytes of `n`,
/// most significant first.
#[verifier::external_body]
pub(crate) fn bytes_mut_put_u16(b: &mut BytesMut, n: u16)
    requires
        bytes_mut_view(*old(b)).len() + 2 <= isize::MAX,
    ensures
        bytes_mut_view(*final(b)) == bytes_mut_view(*old(b)) + be_bytes(n),
{
    b.put_u16(n)
}

/// `Buf::get_u8` on a `BytesMut`: removes and returns the first byte. It
/// panics on an empty buffer, which the `requires` rules out.
#[verifier::external_body]
pub(crate) fn bytes_mut_get_u8(b: &mut BytesMut) -> (v: u8)
    requires
        bytes_mut_view(*old(b)).len() >= 1,
    ensures
        v == bytes_mut_view(*old(b))[0],
        bytes_mut_view(*final(b)) == bytes_mut_view(*old(b)).drop_first(),
{
    b.get_u8()
}

/// `Buf::get_u16` on a `BytesMut`: removes the first two bytes and returns
/// them read as a big-endian number. It panics with fewer than two bytes,
/// which the `requires` rules out.
#[verifier::external_body]
pub(crate) fn bytes_mut_get_u16(b: &mut BytesMut) -> (v: u16)
    requires
        bytes_mut_view(*old(b)).len() >= 2,
    ensures
        v == be_u16(bytes_mut_view(*old(b))[0], bytes_mut_view(*old(b))[1]),
        bytes_mut_view(*final(b)) == bytes_mut_view(*old(b)).skip(2),
{
    b.get_u16()
}

/// `BytesMut::clone`: a new buffer holding the same bytes.
#[verifier::external_body]
pub(crate) fn bytes_mut_clone(b: &BytesMut) -> (c: BytesMut)
    ensures
        bytes_mut_view(c) == bytes_mut_view(*b),
{
    b.clone()
}

/// `BytesMut::freeze`: the same bytes as an immutable `Bytes`.
#[verifier::external_body]
pub(crate) fn bytes_mut_freeze(b: BytesMut) -> (r: Bytes)
    ensures
        bytes_view(r) == bytes_mut_view(b),
{
    b.freeze()
}

/// `Buf::remaining` on a `Bytes`: its length.
#[verifier::external_body]
pub(crate) fn bytes_remaining(b: &Bytes) -> (n: usize)
    ensures
        n == bytes_view(*b).len(),
{
    b.remaining()
}

/// `AsRef<[u8]>::as_ref` on a `Bytes`: its bytes as a slice.
#[verifier::external_body]
pub(crate) fn bytes_as_slice(b: &Bytes) -> (s: &[u8])
    ensures
        s@ == bytes_view(*b),
{
    b.as_ref()
}

} // verus!
