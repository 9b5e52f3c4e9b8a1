//! The byte buffers of the `bytes` crate, as the rest of the library sees them.
//!
//! `Bytes` and `BytesMut` are opaque to Verus; what they hold is named by
//! `bytes_contents` and `bytes_mut_contents`, and each method that the library
//! calls is reached through a small wrapper whose contract says what it does
//! to those contents.

use bytes::{BufMut, Bytes, BytesMut};
use vstd::prelude::*;

verus! {

#[verifier::external_type_specification]
#[verifier::external_body]
pub struct ExBytes(bytes::Bytes);

/// The bytes that a `Bytes` value holds, in order.
pub uninterp spec fn bytes_contents(b: Bytes) -> Seq<u8>;

/// The contents of each buffer of a sequence, in order.
pub open spec fn contents_of_all(v: Seq<Bytes>) -> Seq<Seq<u8>> {
    Seq::new(v.len(), |i: int| bytes_contents(v[i]))
}

/// Borrows the bytes of `b` as a slice (`<Bytes as AsRef<[u8]>>::as_ref`).
/// Claimed: the slice holds exactly the contents of `b`.
#[verifier::external_body]
pub fn bytes_as_slice(b: &Bytes) -> (s: &[u8])
    ensures
        s@ == bytes_contents(*b),
{
    b.as_ref()
}

/// Turns a vector into a `Bytes` buffer (`<Bytes as From<Vec<u8>>>::from`).
/// Claimed: the buffer holds exactly the bytes of the vector.
#[verifier::external_body]
pub fn bytes_from_vec(v: Vec<u8>) -> (b: Bytes)
    ensures
        bytes_contents(b) == v@,
{
    Bytes::from(v)
}

/// A view of the bytes `start..end` of `b` (`Bytes::slice`), which panics
/// unless `start <= end <= len`. Claimed: the result holds that subrange.
#[verifier::external_body]
pub fn bytes_slice(b: &Bytes, start: usize, end: usize) -> (r: Bytes)
    requires
        start <= end <= bytes_contents(*b).len(),
    ensures
        bytes_contents(r) == bytes_contents(*b).subrange(start as int, end as int),
{
    b.slice(start..end)
}

#[verifier::external_type_specification]
#[verifier::external_body]
pub struct ExBytesMut(bytes::BytesMut);

/// The bytes that a `BytesMut` buffer holds, in order.
pub uninterp spec fn bytes_mut_contents(b: BytesMut) -> Seq<u8>;

/// The eight big-endian bytes of a `u64`.
pub open spec fn be_u64_bytes(v: u64) -> Seq<u8> {
    Seq::new(8, |i: int| ((v as int / pow256(7 - i)) % 0x100int) as u8)
}

/// `256` to the power `n`.
pub open spec fn pow256(n: int) -> int
    decreases n,
{
    if n <= 0 {
        1
    } else {
        0x100 * pow256(n - 1)
    }
}

/// `BytesMut::new`. Claimed: the new buffer is empty.
#[verifier::external_body]
pub fn bytes_mut_new() -> (b: BytesMut)
    ensures
        bytes_mut_contents(b) =~= Seq::<u8>::empty(),
{
    BytesMut::new()
}

/// `BufMut::put_u32` on a `BytesMut`, which writes `n` in big-endian order
/// and panics only when the buffer cannot grow. Claimed: the buffer gains
/// the four big-endian bytes of `n` at its end.
#[verifier::external_body]
pub fn bytes_mut_put_u32(b: &mut BytesMut, n: u32)
    requires
        bytes_mut_contents(*old(b)).len() + 4 <= usize::MAX,
    ensures
        bytes_mut_contents(*final(b)) == bytes_mut_contents(*old(b)) + crate::framing::be_u32_bytes(n as int),
{
    b.put_u32(n);
}

/// `BufMut::put_u64` on a `BytesMut`, which writes `n` in big-endian order.
/// Claimed: the buffer gains the eight big-endian bytes of `n` at its end.
#[verifier::external_body]
pub fn bytes_mut_put_u64(b: &mut BytesMut, n: u64)
    requires
        bytes_mut_contents(*old(b)).len() + 8 <= usize::MAX,
    ensures
        bytes_mut_contents(*final(b)) == bytes_mut_contents(*old(b)) + be_u64_bytes(n),
{
    b.put_u64(n);
}

/// `BufMut::put_slice` on a `BytesMut` (an `extend_from_slice`). Claimed:
/// the buffer gains the bytes of `src` at its end.
#[verifier::external_body]
pub fn bytes_mut_put_slice(b: &mut BytesMut, src: &[u8])
    requires
        bytes_mut_contents(*old(b)).len() + src@.len() <= usize::MAX,
    ensures
        bytes_mut_contents(*final(b)) == bytes_mut_contents(*old(b)) + src@,
{
    b.put_slice(src);
}

/// Borrows the bytes of a `BytesMut` as a slice (`<BytesMut as AsRef<[u8]>>::as_ref`).
/// Claimed: the slice holds exactly the contents of `b`.
#[verifier::external_body]
pub fn bytes_mut_as_slice(b: &BytesMut) -> (s: &[u8])
    ensures
        s@ == bytes_mut_contents(*b),
{
    b.as_ref()
}

} // verus!
