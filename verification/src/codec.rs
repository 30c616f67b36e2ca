//! The resumable decode contract and the encode contract.
//!
//! A decoder may be handed a buffer that holds only part of a value's
//! encoding.  It then returns `Ok(None)` ("need more bytes") and may cache
//! already-decoded sub-fields in its own state; the bytes absorbed that way
//! are named by `Decode::consumed`.  Feeding the same stream in chunks of any
//! size therefore yields exactly the value that a one-shot decode of the
//! whole stream would: every call is pinned to `Decode::dec` applied to the
//! concatenation of the absorbed bytes and the buffer's bytes, and a call
//! that returns `Ok(None)` loses nothing.  No sub-field is ever decoded
//! twice, because absorbed bytes never re-enter a sub-decoder.

use vstd::prelude::*;

use tokio_util::bytes::BytesMut;

use crate::buffer::buf_view;

verus! {

/// Errors of the wire codec.
#[derive(Clone, Copy, Debug, PartialEq, Eq, Structural)]
pub enum CodecError {
    /// A varint's group count, or the significant bits of its terminal
    /// group, exceed the declared bit width (recorded for diagnostics).
    Overflow(u8),
    /// A boolean, option-status or result-status byte outside `{0, 1}`.
    InvalidTag(u8),
    /// Length-prefixed bytes are not valid UTF-8.
    InvalidText,
    /// Bytes that do not form a valid Unicode scalar value.
    InvalidScalar,
    /// A declared length or count does not fit the platform's size type.
    LengthOverflow,
}

/// Outcome of decoding one value from the front of a complete byte stream.
pub enum Decoded<V> {
    /// The stream ends before the value does.
    NeedMore,
    /// The stream starts with malformed input.
    Fail(CodecError),
    /// The value, and how many bytes its encoding occupies.
    Val(V, nat),
}

/// A resumable decoder.
///
/// `dec` is the one-shot meaning of the wire format: a pure function of the
/// byte stream alone, fixed by the decoder's type.  `decode` must behave as
/// `dec` applied to everything seen so far — the bytes absorbed into decoder
/// state (`consumed`) followed by the buffer — whatever the chunking.
pub trait Decode: Sized {
    type Item;

    type V;

    /// Mathematical view of a decoded item.
    spec fn vw(i: Self::Item) -> Self::V;

    /// One-shot decode of a complete stream's front.
    spec fn dec(s: Seq<u8>) -> Decoded<Self::V>;

    /// The bytes absorbed into decoder state for the value in flight;
    /// empty when the decoder is fresh.
    spec fn consumed(&self) -> Seq<u8>;

    /// State invariant; implies that `dec(consumed())` still needs more.
    spec fn inv(&self) -> bool;

    /// A decoded value never occupies more bytes than the stream holds.
    proof fn lemma_dec_len(s: Seq<u8>)
        ensures
            Self::dec(s) matches Decoded::Val(v, l) ==> l <= s.len(),
    ;

    /// A determined outcome does not change when more bytes arrive.
    proof fn lemma_dec_extend(s: Seq<u8>, t: Seq<u8>)
        ensures
            Self::dec(s) is Val ==> Self::dec(s + t) == Self::dec(s),
            Self::dec(s) is Fail ==> Self::dec(s + t) == Self::dec(s),
    ;

    /// Nothing decodes from nothing.
    proof fn lemma_dec_empty()
        ensures
            Self::dec(Seq::<u8>::empty()) is NeedMore,
    ;

    /// A decoded value is determined by the bytes it spans: the stream can
    /// be cut anywhere at or past it without changing the outcome.
    proof fn lemma_dec_restrict(s: Seq<u8>, j: int)
        requires
            Self::dec(s) matches Decoded::Val(v, l) && l <= j <= s.len(),
        ensures
            Self::dec(s.take(j)) == Self::dec(s),
    ;

    /// A well-formed decoder's absorbed bytes never already determine an
    /// outcome: what is in flight still needs more.
    proof fn lemma_inv_pending(&self)
        requires
            self.inv(),
        ensures
            Self::dec(self.consumed()) is NeedMore,
    ;

    /// Decode one value from the front of `src`, resuming any value in
    /// flight.  `Ok(Some(v))`: the stream that was seen decodes to `v`, the
    /// buffer is advanced exactly past its encoding, and the decoder is
    /// fresh again.  `Ok(None)`: the stream seen so far is a proper prefix
    /// of an encoding; no byte is lost.  `Err(e)`: the stream is malformed;
    /// the decoder's state is poisoned and must be discarded.
    fn decode(&mut self, src: &mut BytesMut) -> (r: Result<Option<Self::Item>, CodecError>)
        requires
            old(self).inv(),
        ensures
            match r {
                Ok(Some(item)) => {
                    &&& final (self).inv()
                    &&& final (self).consumed() == Seq::<u8>::empty()
                    &&& Self::dec(old(self).consumed() + buf_view(*old(src))) matches Decoded::Val(
                        v,
                        l,
                    ) && v == Self::vw(item) && buf_view(*final (src)) == (old(self).consumed()
                        + buf_view(*old(src))).skip(l as int)
                },
                Ok(None) => {
                    &&& final (self).inv()
                    &&& Self::dec(old(self).consumed() + buf_view(*old(src))) is NeedMore
                    &&& final (self).consumed() + buf_view(*final (src)) == old(self).consumed()
                        + buf_view(*old(src))
                },
                Err(e) => Self::dec(old(self).consumed() + buf_view(*old(src)))
                    == Decoded::<Self::V>::Fail(e),
            },
    ;
}

/// An encoder.  Encoders are stateless and total but for lengths that do not
/// fit their 32-bit prefix: `enc` gives the bytes a value's encoding
/// occupies, and `enc_ok` says whether the value is encodable at all.
pub trait Encode: Sized {
    type Item;

    type V;

    /// Mathematical view of an item to encode.
    spec fn vw(i: Self::Item) -> Self::V;

    /// Whether the value is encodable (every length fits its prefix).
    spec fn enc_ok(v: Self::V) -> bool;

    /// The value's encoding.
    spec fn enc(v: Self::V) -> Seq<u8>;

    /// Append `item`'s encoding to `dst`.  The precondition is the machine
    /// limit alone: the grown buffer must still be addressable.
    fn encode(&mut self, item: &Self::Item, dst: &mut BytesMut) -> (r: Result<(), CodecError>)
        requires
            buf_view(*old(dst)).len() + Self::enc(Self::vw(*item)).len() <= usize::MAX,
        ensures
            match r {
                Ok(()) => Self::enc_ok(Self::vw(*item)) && buf_view(*final (dst)) == buf_view(
                    *old(dst),
                ) + Self::enc(Self::vw(*item)),
                Err(e) => !Self::enc_ok(Self::vw(*item)) && e == CodecError::LengthOverflow,
            },
    ;
}

} // verus!
