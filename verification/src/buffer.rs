//! Trusted view of `tokio_util::bytes::BytesMut`, the growable byte buffer
//! that decoders consume from the front and encoders append to.
//!
//! Every item here is a thin wrapper over one documented `BytesMut` (or
//! `bytes::Buf`/`BufMut`) operation; `buf_view` names the bytes the buffer
//! holds, front to back.

use vstd::prelude::*;

use tokio_util::bytes::{Buf, BufMut, BytesMut};

verus! {

#[verifier::external_type_specification]
#[verifier::external_body]
pub struct ExBytesMut(BytesMut);

/// The bytes a buffer holds, front to back.
pub uninterp spec fn buf_view(b: BytesMut) -> Seq<u8>;

/// Relies on `BytesMut::new`: creates an empty buffer.
#[verifier::external_body]
pub fn buf_new() -> (b: BytesMut)
    ensures
        buf_view(b) == Seq::<u8>::empty(),
{
    BytesMut::new()
}

/// Relies on `BytesMut::len`: the number of bytes contained in the buffer.
#[verifier::external_body]
pub fn buf_len(b: &BytesMut) -> (n: usize)
    ensures
        n == buf_view(*b).len(),
{
    b.len()
}

/// Relies on `BytesMut`'s slice indexing (via `Deref<Target = [u8]>`):
/// reads the byte at position `i` without consuming it.
#[verifier::external_body]
pub fn buf_get(b: &BytesMut, i: usize) -> (x: u8)
    requires
        i < buf_view(*b).len(),
    ensures
        x == buf_view(*b)[i as int],
{
    b[i]
}

/// Relies on `bytes::Buf::advance` for `BytesMut`: discards the first `n`
/// bytes; panics if `n` exceeds the length, which the precondition excludes.
#[verifier::external_body]
pub fn buf_advance(b: &mut BytesMut, n: usize)
    requires
        n <= buf_view(*old(b)).len(),
    ensures
        buf_view(*final(b)) == buf_view(*old(b)).skip(n as int),
{
    Buf::advance(b, n)
}

/// Relies on `BytesMut::split_to`: afterwards `b` holds the bytes from `n`
/// on and the result holds the first `n`; panics if `n` exceeds the length,
/// which the precondition excludes.
#[verifier::external_body]
pub fn buf_split_to(b: &mut BytesMut, n: usize) -> (r: BytesMut)
    requires
        n <= buf_view(*old(b)).len(),
    ensures
        buf_view(r) == buf_view(*old(b)).take(n as int),
        buf_view(*final(b)) == buf_view(*old(b)).skip(n as int),
{
    b.split_to(n)
}

/// Relies on `bytes::BufMut::put_u8` for `BytesMut`: appends one byte,
/// growing the buffer; panics only when the buffer cannot grow by one byte,
/// which the precondition excludes.
#[verifier::external_body]
pub fn buf_put_u8(b: &mut BytesMut, x: u8)
    requires
        buf_view(*old(b)).len() < usize::MAX,
    ensures
        buf_view(*final(b)) == buf_view(*old(b)).push(x),
{
    BufMut::put_u8(b, x)
}

/// Relies on `BytesMut::extend_from_slice`: appends the slice's bytes,
/// growing the buffer; panics only when the new capacity overflows `usize`,
/// which the precondition excludes.
#[verifier::external_body]
pub fn buf_extend(b: &mut BytesMut, v: &Vec<u8>)
    requires
        buf_view(*old(b)).len() + v@.len() <= usize::MAX,
    ensures
        buf_view(*final(b)) == buf_view(*old(b)) + v@,
{
    b.extend_from_slice(v.as_slice())
}

/// Relies on `BytesMut::reserve`: a capacity hint; leaves the contents
/// unchanged; panics only when the new capacity overflows `usize`, which the
/// precondition excludes.
#[verifier::external_body]
pub fn buf_reserve(b: &mut BytesMut, n: usize)
    requires
        buf_view(*old(b)).len() + n <= usize::MAX,
    ensures
        buf_view(*final(b)) == buf_view(*old(b)),
{
    b.reserve(n)
}

/// Relies on slice `to_vec` (via `Deref<Target = [u8]>`): copies the
/// buffer's bytes out without consuming them.
#[verifier::external_body]
pub fn buf_to_vec(b: &BytesMut) -> (v: Vec<u8>)
    ensures
        v@ == buf_view(*b),
{
    b.to_vec()
}

} // verus!
