//! Big-endian integer encodings and the `bytes` crate calls that read and
//! write them.
use vstd::prelude::*;

use bytes::{Buf, BufMut, Bytes};

verus! {

/// The two big-endian bytes of a 16-bit integer.
pub open spec fn be16(v: u16) -> Seq<u8> {
    seq![(v / 256) as u8, (v % 256) as u8]
}

/// The 16-bit integer held by two big-endian bytes.
pub open spec fn be16_value(hi: u8, lo: u8) -> u16 {
    (hi as int * 256 + lo as int) as u16
}

/// The four big-endian bytes of a 32-bit integer.
pub open spec fn be32(v: u32) -> Seq<u8> {
    seq![
        (v / 0x100_0000) as u8,
        ((v / 0x1_0000) % 256) as u8,
        ((v / 256) % 256) as u8,
        (v % 256) as u8,
    ]
}

/// The 32-bit integer held by four big-endian bytes.
pub open spec fn be32_value(b0: u8, b1: u8, b2: u8, b3: u8) -> u32 {
    (b0 as int * 0x100_0000 + b1 as int * 0x1_0000 + b2 as int * 256 + b3 as int) as u32
}

/// Reading back the two bytes of a 16-bit integer gives the integer.
pub proof fn lemma_be16_roundtrip(v: u16)
    ensures
        be16(v).len() == 2,
        be16_value(be16(v)[0], be16(v)[1]) == v,
{
}

/// Reading back the four bytes of a 32-bit integer gives the integer.
pub proof fn lemma_be32_roundtrip(v: u32)
    ensures
        be32(v).len() == 4,
        be32_value(be32(v)[0], be32(v)[1], be32(v)[2], be32(v)[3]) == v,
{
}

/// `bytes::Bytes`, a shared buffer of bytes, known to Verus only through
/// `bytes_view` and the calls below.
#[verifier::external_type_specification]
#[verifier::external_body]
pub struct ExBytes(Bytes);

/// The bytes that a `Bytes` buffer holds.
pub uninterp spec fn bytes_view(b: Bytes) -> Seq<u8>;

/// `BufMut::put_u16` on a `Vec<u8>`: the vector grows by the two big-endian
/// bytes of `v` (the crate writes `v.to_be_bytes()` with `extend_from_slice`).
#[verifier::external_body]
pub(crate) fn put_u16(buf: &mut Vec<u8>, v: u16)
    ensures
        final(buf)@ == old(buf)@ + be16(v),
{
    buf.put_u16(v)
}

/// `BufMut::put_u32` on a `Vec<u8>`: the vector grows by the four big-endian
/// bytes of `v`.
#[verifier::external_body]
pub(crate) fn put_u32(buf: &mut Vec<u8>, v: u32)
    ensures
        final(buf)@ == old(buf)@ + be32(v),
{
    buf.put_u32(v)
}

/// `BufMut::put_slice` on a `Vec<u8>`: the vector grows by `src`.
#[verifier::external_body]
pub(crate) fn put_slice(buf: &mut Vec<u8>, src: &[u8])
    ensures
        final(buf)@ == old(buf)@ + src@,
{
    buf.put_slice(src)
}

/// `Buf::get_u16` on a byte slice: the first two bytes read big-endian. The
/// crate panics on a slice shorter than two bytes.
#[verifier::external_body]
pub(crate) fn get_u16(buf: &[u8]) -> (v: u16)
    requires
        buf@.len() >= 2,
    ensures
        v == be16_value(buf@[0], buf@[1]),
{
    let mut cursor = buf;
    cursor.get_u16()
}

/// `Buf::get_u32` on a byte slice: the first four bytes read big-endian. The
/// crate panics on a slice shorter than four bytes.
#[verifier::external_body]
pub(crate) fn get_u32(buf: &[u8]) -> (v: u32)
    requires
        buf@.len() >= 4,
    ensures
        v == be32_value(buf@[0], buf@[1], buf@[2], buf@[3]),
{
    let mut cursor = buf;
    cursor.get_u32()
}

/// `Bytes::from(Vec<u8>)`: the buffer holds the vector's bytes.
#[verifier::external_body]
pub(crate) fn bytes_from_vec(v: Vec<u8>) -> (b: Bytes)
    ensures
        bytes_view(b) == v@,
{
    Bytes::from(v)
}

/// `Bytes::copy_from_slice`: the buffer holds a copy of the slice.
#[verifier::external_body]
pub(crate) fn bytes_copy_from_slice(s: &[u8]) -> (b: Bytes)
    ensures
        bytes_view(b) == s@,
{
    Bytes::copy_from_slice(s)
}

/// `<Bytes as AsRef<[u8]>>::as_ref`: the slice of the buffer's bytes.
#[verifier::external_body]
pub(crate) fn bytes_as_slice(b: &Bytes) -> (s: &[u8])
    ensures
        s@ == bytes_view(*b),
{
    b.as_ref()
}

/// `<Bytes as Clone>::clone`: a handle to the same bytes.
#[verifier::external_body]
pub(crate) fn bytes_clone(b: &Bytes) -> (c: Bytes)
    ensures
        bytes_view(c) == bytes_view(*b),
{
    b.clone()
}

} // verus!
