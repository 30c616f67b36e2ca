//! Primitive value codecs: booleans and option/result status tags (one byte
//! in `{0, 1}`), raw single bytes for the 8-bit integers, and LEB128
//! varints for the wider integers; little-endian flag blocks; and the
//! stateless encoder over all of them.

use vstd::arithmetic::power2::{lemma2_to64, lemma2_to64_rest, pow2};
use vstd::prelude::*;

use tokio_util::bytes::BytesMut;

use crate::buffer::{
    buf_advance, buf_extend, buf_get, buf_len, buf_put_u8, buf_reserve, buf_split_to, buf_to_vec,
    buf_view,
};
use crate::codec::{CodecError, Decode, Decoded, Encode};
use crate::core_codec::CoreNameEncoder;
use crate::utf8::Utf8Codec;
use crate::varint::{
    bits_to_i16, bits_to_i32, bits_to_i64, bits_to_i8, from_bits, sleb_bytes, sleb_dec,
    sleb_decode_raw, sleb_vec, to_bits, uleb_bytes, uleb_dec, uleb_decode_raw, uleb_vec,
    lemma_sleb_dec_extend, lemma_sleb_dec_len, lemma_sleb_dec_needmore, lemma_sleb_dec_restrict,
    lemma_uleb_dec_extend, lemma_uleb_dec_len, lemma_uleb_dec_needmore, lemma_uleb_dec_restrict,
};

verus! {

/// One-byte codec for booleans: `0` or `1`; any other byte is invalid.
#[derive(Clone, Copy, PartialEq, Eq, Structural, Debug)]
pub struct BoolCodec;

impl Encode for BoolCodec {
    type Item = bool;

    type V = bool;

    open spec fn vw(i: bool) -> bool {
        i
    }

    open spec fn enc_ok(v: bool) -> bool {
        true
    }

    open spec fn enc(v: bool) -> Seq<u8> {
        seq![if v { 1u8 } else { 0u8 }]
    }

    fn encode(&mut self, item: &bool, dst: &mut BytesMut) -> (r: Result<(), CodecError>) {
        let b: u8 = if *item {
            1
        } else {
            0
        };
        buf_put_u8(dst, b);
        proof {
            assert(buf_view(*dst) =~= buf_view(*old(dst)) + Self::enc(*item));
        }
        Ok(())
    }
}

impl Decode for BoolCodec {
    type Item = bool;

    type V = bool;

    open spec fn vw(i: bool) -> bool {
        i
    }

    open spec fn dec(s: Seq<u8>) -> Decoded<bool> {
        if s.len() == 0 {
            Decoded::NeedMore
        } else if s[0] == 0 {
            Decoded::Val(false, 1)
        } else if s[0] == 1 {
            Decoded::Val(true, 1)
        } else {
            Decoded::Fail(CodecError::InvalidTag(s[0]))
        }
    }

    open spec fn consumed(&self) -> Seq<u8> {
        Seq::empty()
    }

    open spec fn inv(&self) -> bool {
        true
    }

    proof fn lemma_dec_len(s: Seq<u8>) {
    }

    proof fn lemma_dec_extend(s: Seq<u8>, t: Seq<u8>) {
        if s.len() > 0 {
            assert((s + t)[0] == s[0]);
        }
    }

    proof fn lemma_dec_restrict(s: Seq<u8>, j: int) {
        if s.len() > 0 {
            assert(s.take(j)[0] == s[0]);
        }
    }

    proof fn lemma_dec_empty() {
    }

    proof fn lemma_inv_pending(&self) {
    }

    fn decode(&mut self, src: &mut BytesMut) -> (r: Result<Option<bool>, CodecError>) {
        proof {
            assert(Seq::<u8>::empty() + buf_view(*src) =~= buf_view(*src));
        }
        let ghost s0 = buf_view(*src);
        let len = buf_len(src);
        if len == 0 {
            buf_reserve(src, 1);
            return Ok(None);
        }
        let b = buf_get(src, 0);
        if b == 0 {
            buf_advance(src, 1);
            Ok(Some(false))
        } else if b == 1 {
            buf_advance(src, 1);
            Ok(Some(true))
        } else {
            Err(CodecError::InvalidTag(b))
        }
    }
}

/// One raw byte for an unsigned 8-bit integer, no varint framing.
#[derive(Clone, Copy, PartialEq, Eq, Structural, Debug)]
pub struct U8Codec;

impl Encode for U8Codec {
    type Item = u8;

    type V = u8;

    open spec fn vw(i: u8) -> u8 {
        i
    }

    open spec fn enc_ok(v: u8) -> bool {
        true
    }

    open spec fn enc(v: u8) -> Seq<u8> {
        seq![v]
    }

    fn encode(&mut self, item: &u8, dst: &mut BytesMut) -> (r: Result<(), CodecError>) {
        buf_put_u8(dst, *item);
        proof {
            assert(buf_view(*dst) =~= buf_view(*old(dst)) + Self::enc(*item));
        }
        Ok(())
    }
}

impl Decode for U8Codec {
    type Item = u8;

    type V = u8;

    open spec fn vw(i: u8) -> u8 {
        i
    }

    open spec fn dec(s: Seq<u8>) -> Decoded<u8> {
        if s.len() == 0 {
            Decoded::NeedMore
        } else {
            Decoded::Val(s[0], 1)
        }
    }

    open spec fn consumed(&self) -> Seq<u8> {
        Seq::empty()
    }

    open spec fn inv(&self) -> bool {
        true
    }

    proof fn lemma_dec_len(s: Seq<u8>) {
    }

    proof fn lemma_dec_extend(s: Seq<u8>, t: Seq<u8>) {
        if s.len() > 0 {
            assert((s + t)[0] == s[0]);
        }
    }

    proof fn lemma_dec_restrict(s: Seq<u8>, j: int) {
        if s.len() > 0 {
            assert(s.take(j)[0] == s[0]);
        }
    }

    proof fn lemma_dec_empty() {
    }

    proof fn lemma_inv_pending(&self) {
    }

    fn decode(&mut self, src: &mut BytesMut) -> (r: Result<Option<u8>, CodecError>) {
        proof {
            assert(Seq::<u8>::empty() + buf_view(*src) =~= buf_view(*src));
        }
        let len = buf_len(src);
        if len == 0 {
            buf_reserve(src, 1);
            return Ok(None);
        }
        let b = buf_get(src, 0);
        buf_advance(src, 1);
        Ok(Some(b))
    }
}

/// One raw byte for a signed 8-bit integer: its two's-complement pattern.
#[derive(Clone, Copy, PartialEq, Eq, Structural, Debug)]
pub struct S8Codec;

impl Encode for S8Codec {
    type Item = i8;

    type V = i8;

    open spec fn vw(i: i8) -> i8 {
        i
    }

    open spec fn enc_ok(v: i8) -> bool {
        true
    }

    open spec fn enc(v: i8) -> Seq<u8> {
        seq![to_bits(v as int, 8) as u8]
    }

    fn encode(&mut self, item: &i8, dst: &mut BytesMut) -> (r: Result<(), CodecError>) {
        proof {
            lemma2_to64();
        }
        let x = *item;
        let b: u8 = if x >= 0 {
            x as u8
        } else {
            255 - ((-1 - x) as u8)
        };
        buf_put_u8(dst, b);
        proof {
            assert(buf_view(*dst) =~= buf_view(*old(dst)) + Self::enc(*item));
        }
        Ok(())
    }
}

impl Decode for S8Codec {
    type Item = i8;

    type V = i8;

    open spec fn vw(i: i8) -> i8 {
        i
    }

    open spec fn dec(s: Seq<u8>) -> Decoded<i8> {
        if s.len() == 0 {
            Decoded::NeedMore
        } else {
            Decoded::Val(from_bits(s[0] as nat, 8) as i8, 1)
        }
    }

    open spec fn consumed(&self) -> Seq<u8> {
        Seq::empty()
    }

    open spec fn inv(&self) -> bool {
        true
    }

    proof fn lemma_dec_len(s: Seq<u8>) {
    }

    proof fn lemma_dec_extend(s: Seq<u8>, t: Seq<u8>) {
        if s.len() > 0 {
            assert((s + t)[0] == s[0]);
        }
    }

    proof fn lemma_dec_restrict(s: Seq<u8>, j: int) {
        if s.len() > 0 {
            assert(s.take(j)[0] == s[0]);
        }
    }

    proof fn lemma_dec_empty() {
    }

    proof fn lemma_inv_pending(&self) {
    }

    fn decode(&mut self, src: &mut BytesMut) -> (r: Result<Option<i8>, CodecError>) {
        proof {
            assert(Seq::<u8>::empty() + buf_view(*src) =~= buf_view(*src));
            lemma2_to64();
        }
        let len = buf_len(src);
        if len == 0 {
            buf_reserve(src, 1);
            return Ok(None);
        }
        let b = buf_get(src, 0);
        buf_advance(src, 1);
        Ok(Some(bits_to_i8(b)))
    }
}


/// Unsigned 16-bit integers as LEB128 varints at width 16.
#[derive(Clone, Copy, PartialEq, Eq, Structural, Debug)]
pub struct U16Codec;

impl Encode for U16Codec {
    type Item = u16;

    type V = u16;

    open spec fn vw(i: u16) -> u16 {
        i
    }

    open spec fn enc_ok(v: u16) -> bool {
        true
    }

    open spec fn enc(v: u16) -> Seq<u8> {
        uleb_bytes(v as nat)
    }

    fn encode(&mut self, item: &u16, dst: &mut BytesMut) -> (r: Result<(), CodecError>) {
        let t = uleb_vec(*item as u128);
        buf_extend(dst, &t);
        Ok(())
    }
}

impl Decode for U16Codec {
    type Item = u16;

    type V = u16;

    open spec fn vw(i: u16) -> u16 {
        i
    }

    open spec fn dec(s: Seq<u8>) -> Decoded<u16> {
        match uleb_dec(s, 16, 0) {
            Decoded::NeedMore => Decoded::NeedMore,
            Decoded::Fail(e) => Decoded::Fail(e),
            Decoded::Val(v, l) => Decoded::Val(v as u16, l),
        }
    }

    open spec fn consumed(&self) -> Seq<u8> {
        Seq::empty()
    }

    open spec fn inv(&self) -> bool {
        true
    }

    proof fn lemma_dec_len(s: Seq<u8>) {
        lemma_uleb_dec_len(s, 16, 0);
    }

    proof fn lemma_dec_extend(s: Seq<u8>, t: Seq<u8>) {
        lemma_uleb_dec_extend(s, t, 16, 0);
    }

    proof fn lemma_dec_restrict(s: Seq<u8>, j: int) {
        lemma_uleb_dec_restrict(s, 16, 0, j);
    }

    proof fn lemma_dec_empty() {
    }

    proof fn lemma_inv_pending(&self) {
    }

    fn decode(&mut self, src: &mut BytesMut) -> (r: Result<Option<u16>, CodecError>) {
        proof {
            assert(Seq::<u8>::empty() + buf_view(*src) =~= buf_view(*src));
        }
        let _len = buf_len(src);
        let ghost s0 = buf_view(*src);
        match uleb_decode_raw(src, 16) {
            Ok(Some((v, l))) => {
                proof {
                    lemma2_to64();
                    lemma2_to64_rest();
                    assert(s0.skip(l as int) =~= (Seq::<u8>::empty() + s0).skip(l as int));
                }
                buf_advance(src, l);
                Ok(Some(v as u16))
            },
            Ok(None) => {
                proof {
                    lemma_uleb_dec_needmore(s0, 16, 0);
                }
                buf_reserve(src, 1);
                Ok(None)
            },
            Err(e) => Err(e),
        }
    }
}

/// Unsigned 32-bit integers as LEB128 varints at width 32.
#[derive(Clone, Copy, PartialEq, Eq, Structural, Debug)]
pub struct U32Codec;

impl Encode for U32Codec {
    type Item = u32;

    type V = u32;

    open spec fn vw(i: u32) -> u32 {
        i
    }

    open spec fn enc_ok(v: u32) -> bool {
        true
    }

    open spec fn enc(v: u32) -> Seq<u8> {
        uleb_bytes(v as nat)
    }

    fn encode(&mut self, item: &u32, dst: &mut BytesMut) -> (r: Result<(), CodecError>) {
        let t = uleb_vec(*item as u128);
        buf_extend(dst, &t);
        Ok(())
    }
}

impl Decode for U32Codec {
    type Item = u32;

    type V = u32;

    open spec fn vw(i: u32) -> u32 {
        i
    }

    open spec fn dec(s: Seq<u8>) -> Decoded<u32> {
        match uleb_dec(s, 32, 0) {
            Decoded::NeedMore => Decoded::NeedMore,
            Decoded::Fail(e) => Decoded::Fail(e),
            Decoded::Val(v, l) => Decoded::Val(v as u32, l),
        }
    }

    open spec fn consumed(&self) -> Seq<u8> {
        Seq::empty()
    }

    open spec fn inv(&self) -> bool {
        true
    }

    proof fn lemma_dec_len(s: Seq<u8>) {
        lemma_uleb_dec_len(s, 32, 0);
    }

    proof fn lemma_dec_extend(s: Seq<u8>, t: Seq<u8>) {
        lemma_uleb_dec_extend(s, t, 32, 0);
    }

    proof fn lemma_dec_restrict(s: Seq<u8>, j: int) {
        lemma_uleb_dec_restrict(s, 32, 0, j);
    }

    proof fn lemma_dec_empty() {
    }

    proof fn lemma_inv_pending(&self) {
    }

    fn decode(&mut self, src: &mut BytesMut) -> (r: Result<Option<u32>, CodecError>) {
        proof {
            assert(Seq::<u8>::empty() + buf_view(*src) =~= buf_view(*src));
        }
        let _len = buf_len(src);
        let ghost s0 = buf_view(*src);
        match uleb_decode_raw(src, 32) {
            Ok(Some((v, l))) => {
                proof {
                    lemma2_to64();
                    lemma2_to64_rest();
                    assert(s0.skip(l as int) =~= (Seq::<u8>::empty() + s0).skip(l as int));
                }
                buf_advance(src, l);
                Ok(Some(v as u32))
            },
            Ok(None) => {
                proof {
                    lemma_uleb_dec_needmore(s0, 32, 0);
                }
                buf_reserve(src, 1);
                Ok(None)
            },
            Err(e) => Err(e),
        }
    }
}

/// Unsigned 64-bit integers as LEB128 varints at width 64.
#[derive(Clone, Copy, PartialEq, Eq, Structural, Debug)]
pub struct U64Codec;

impl Encode for U64Codec {
    type Item = u64;

    type V = u64;

    open spec fn vw(i: u64) -> u64 {
        i
    }

    open spec fn enc_ok(v: u64) -> bool {
        true
    }

    open spec fn enc(v: u64) -> Seq<u8> {
        uleb_bytes(v as nat)
    }

    fn encode(&mut self, item: &u64, dst: &mut BytesMut) -> (r: Result<(), CodecError>) {
        let t = uleb_vec(*item as u128);
        buf_extend(dst, &t);
        Ok(())
    }
}

impl Decode for U64Codec {
    type Item = u64;

    type V = u64;

    open spec fn vw(i: u64) -> u64 {
        i
    }

    open spec fn dec(s: Seq<u8>) -> Decoded<u64> {
        match uleb_dec(s, 64, 0) {
            Decoded::NeedMore => Decoded::NeedMore,
            Decoded::Fail(e) => Decoded::Fail(e),
            Decoded::Val(v, l) => Decoded::Val(v as u64, l),
        }
    }

    open spec fn consumed(&self) -> Seq<u8> {
        Seq::empty()
    }

    open spec fn inv(&self) -> bool {
        true
    }

    proof fn lemma_dec_len(s: Seq<u8>) {
        lemma_uleb_dec_len(s, 64, 0);
    }

    proof fn lemma_dec_extend(s: Seq<u8>, t: Seq<u8>) {
        lemma_uleb_dec_extend(s, t, 64, 0);
    }

    proof fn lemma_dec_restrict(s: Seq<u8>, j: int) {
        lemma_uleb_dec_restrict(s, 64, 0, j);
    }

    proof fn lemma_dec_empty() {
    }

    proof fn lemma_inv_pending(&self) {
    }

    fn decode(&mut self, src: &mut BytesMut) -> (r: Result<Option<u64>, CodecError>) {
        proof {
            assert(Seq::<u8>::empty() + buf_view(*src) =~= buf_view(*src));
        }
        let _len = buf_len(src);
        let ghost s0 = buf_view(*src);
        match uleb_decode_raw(src, 64) {
            Ok(Some((v, l))) => {
                proof {
                    lemma2_to64();
                    lemma2_to64_rest();
                    assert(s0.skip(l as int) =~= (Seq::<u8>::empty() + s0).skip(l as int));
                }
                buf_advance(src, l);
                Ok(Some(v as u64))
            },
            Ok(None) => {
                proof {
                    lemma_uleb_dec_needmore(s0, 64, 0);
                }
                buf_reserve(src, 1);
                Ok(None)
            },
            Err(e) => Err(e),
        }
    }
}

/// Signed 16-bit integers as signed LEB128 varints at width 16.
#[derive(Clone, Copy, PartialEq, Eq, Structural, Debug)]
pub struct S16Codec;

impl Encode for S16Codec {
    type Item = i16;

    type V = i16;

    open spec fn vw(i: i16) -> i16 {
        i
    }

    open spec fn enc_ok(v: i16) -> bool {
        true
    }

    open spec fn enc(v: i16) -> Seq<u8> {
        sleb_bytes(v as int)
    }

    fn encode(&mut self, item: &i16, dst: &mut BytesMut) -> (r: Result<(), CodecError>) {
        let t = sleb_vec(*item as i128);
        buf_extend(dst, &t);
        Ok(())
    }
}

impl Decode for S16Codec {
    type Item = i16;

    type V = i16;

    open spec fn vw(i: i16) -> i16 {
        i
    }

    open spec fn dec(s: Seq<u8>) -> Decoded<i16> {
        match sleb_dec(s, 16, 0) {
            Decoded::NeedMore => Decoded::NeedMore,
            Decoded::Fail(e) => Decoded::Fail(e),
            Decoded::Val(v, l) => Decoded::Val(v as i16, l),
        }
    }

    open spec fn consumed(&self) -> Seq<u8> {
        Seq::empty()
    }

    open spec fn inv(&self) -> bool {
        true
    }

    proof fn lemma_dec_len(s: Seq<u8>) {
        lemma_sleb_dec_len(s, 16, 0);
    }

    proof fn lemma_dec_extend(s: Seq<u8>, t: Seq<u8>) {
        lemma_sleb_dec_extend(s, t, 16, 0);
    }

    proof fn lemma_dec_restrict(s: Seq<u8>, j: int) {
        lemma_sleb_dec_restrict(s, 16, 0, j);
    }

    proof fn lemma_dec_empty() {
    }

    proof fn lemma_inv_pending(&self) {
    }

    fn decode(&mut self, src: &mut BytesMut) -> (r: Result<Option<i16>, CodecError>) {
        proof {
            assert(Seq::<u8>::empty() + buf_view(*src) =~= buf_view(*src));
        }
        let _len = buf_len(src);
        let ghost s0 = buf_view(*src);
        match sleb_decode_raw(src, 16) {
            Ok(Some((bits, l))) => {
                proof {
                    lemma2_to64();
                    lemma2_to64_rest();
                    assert(s0.skip(l as int) =~= (Seq::<u8>::empty() + s0).skip(l as int));
                }
                buf_advance(src, l);
                Ok(Some(bits_to_i16(bits)))
            },
            Ok(None) => {
                proof {
                    lemma_sleb_dec_needmore(s0, 16, 0);
                }
                buf_reserve(src, 1);
                Ok(None)
            },
            Err(e) => Err(e),
        }
    }
}

/// Signed 32-bit integers as signed LEB128 varints at width 32.
#[derive(Clone, Copy, PartialEq, Eq, Structural, Debug)]
pub struct S32Codec;

impl Encode for S32Codec {
    type Item = i32;

    type V = i32;

    open spec fn vw(i: i32) -> i32 {
        i
    }

    open spec fn enc_ok(v: i32) -> bool {
        true
    }

    open spec fn enc(v: i32) -> Seq<u8> {
        sleb_bytes(v as int)
    }

    fn encode(&mut self, item: &i32, dst: &mut BytesMut) -> (r: Result<(), CodecError>) {
        let t = sleb_vec(*item as i128);
        buf_extend(dst, &t);
        Ok(())
    }
}

impl Decode for S32Codec {
    type Item = i32;

    type V = i32;

    open spec fn vw(i: i32) -> i32 {
        i
    }

    open spec fn dec(s: Seq<u8>) -> Decoded<i32> {
        match sleb_dec(s, 32, 0) {
            Decoded::NeedMore => Decoded::NeedMore,
            Decoded::Fail(e) => Decoded::Fail(e),
            Decoded::Val(v, l) => Decoded::Val(v as i32, l),
        }
    }

    open spec fn consumed(&self) -> Seq<u8> {
        Seq::empty()
    }

    open spec fn inv(&self) -> bool {
        true
    }

    proof fn lemma_dec_len(s: Seq<u8>) {
        lemma_sleb_dec_len(s, 32, 0);
    }

    proof fn lemma_dec_extend(s: Seq<u8>, t: Seq<u8>) {
        lemma_sleb_dec_extend(s, t, 32, 0);
    }

    proof fn lemma_dec_restrict(s: Seq<u8>, j: int) {
        lemma_sleb_dec_restrict(s, 32, 0, j);
    }

    proof fn lemma_dec_empty() {
    }

    proof fn lemma_inv_pending(&self) {
    }

    fn decode(&mut self, src: &mut BytesMut) -> (r: Result<Option<i32>, CodecError>) {
        proof {
            assert(Seq::<u8>::empty() + buf_view(*src) =~= buf_view(*src));
        }
        let _len = buf_len(src);
        let ghost s0 = buf_view(*src);
        match sleb_decode_raw(src, 32) {
            Ok(Some((bits, l))) => {
                proof {
                    lemma2_to64();
                    lemma2_to64_rest();
                    assert(s0.skip(l as int) =~= (Seq::<u8>::empty() + s0).skip(l as int));
                }
                buf_advance(src, l);
                Ok(Some(bits_to_i32(bits)))
            },
            Ok(None) => {
                proof {
                    lemma_sleb_dec_needmore(s0, 32, 0);
                }
                buf_reserve(src, 1);
                Ok(None)
            },
            Err(e) => Err(e),
        }
    }
}

/// Signed 64-bit integers as signed LEB128 varints at width 64.
#[derive(Clone, Copy, PartialEq, Eq, Structural, Debug)]
pub struct S64Codec;

impl Encode for S64Codec {
    type Item = i64;

    type V = i64;

    open spec fn vw(i: i64) -> i64 {
        i
    }

    open spec fn enc_ok(v: i64) -> bool {
        true
    }

    open spec fn enc(v: i64) -> Seq<u8> {
        sleb_bytes(v as int)
    }

    fn encode(&mut self, item: &i64, dst: &mut BytesMut) -> (r: Result<(), CodecError>) {
        let t = sleb_vec(*item as i128);
        buf_extend(dst, &t);
        Ok(())
    }
}

impl Decode for S64Codec {
    type Item = i64;

    type V = i64;

    open spec fn vw(i: i64) -> i64 {
        i
    }

    open spec fn dec(s: Seq<u8>) -> Decoded<i64> {
        match sleb_dec(s, 64, 0) {
            Decoded::NeedMore => Decoded::NeedMore,
            Decoded::Fail(e) => Decoded::Fail(e),
            Decoded::Val(v, l) => Decoded::Val(v as i64, l),
        }
    }

    open spec fn consumed(&self) -> Seq<u8> {
        Seq::empty()
    }

    open spec fn inv(&self) -> bool {
        true
    }

    proof fn lemma_dec_len(s: Seq<u8>) {
        lemma_sleb_dec_len(s, 64, 0);
    }

    proof fn lemma_dec_extend(s: Seq<u8>, t: Seq<u8>) {
        lemma_sleb_dec_extend(s, t, 64, 0);
    }

    proof fn lemma_dec_restrict(s: Seq<u8>, j: int) {
        lemma_sleb_dec_restrict(s, 64, 0, j);
    }

    proof fn lemma_dec_empty() {
    }

    proof fn lemma_inv_pending(&self) {
    }

    fn decode(&mut self, src: &mut BytesMut) -> (r: Result<Option<i64>, CodecError>) {
        proof {
            assert(Seq::<u8>::empty() + buf_view(*src) =~= buf_view(*src));
        }
        let _len = buf_len(src);
        let ghost s0 = buf_view(*src);
        match sleb_decode_raw(src, 64) {
            Ok(Some((bits, l))) => {
                proof {
                    lemma2_to64();
                    lemma2_to64_rest();
                    assert(s0.skip(l as int) =~= (Seq::<u8>::empty() + s0).skip(l as int));
                }
                buf_advance(src, l);
                Ok(Some(bits_to_i64(bits)))
            },
            Ok(None) => {
                proof {
                    lemma_sleb_dec_needmore(s0, 64, 0);
                }
                buf_reserve(src, 1);
                Ok(None)
            },
            Err(e) => Err(e),
        }
    }
}


/// Encoder for optional values: a presence byte (`1` present, `0` absent),
/// then the payload when present.
#[derive(Clone, Copy, PartialEq, Eq, Debug)]
pub struct OptionEncoder<T>(pub T);

impl<T: Encode> Encode for OptionEncoder<T> {
    type Item = Option<T::Item>;

    type V = Option<T::V>;

    open spec fn vw(i: Option<T::Item>) -> Option<T::V> {
        match i {
            None => None,
            Some(x) => Some(T::vw(x)),
        }
    }

    open spec fn enc_ok(v: Option<T::V>) -> bool {
        match v {
            None => true,
            Some(x) => T::enc_ok(x),
        }
    }

    open spec fn enc(v: Option<T::V>) -> Seq<u8> {
        match v {
            None => seq![0u8],
            Some(x) => seq![1u8] + T::enc(x),
        }
    }

    fn encode(&mut self, item: &Option<T::Item>, dst: &mut BytesMut) -> (r: Result<
        (),
        CodecError,
    >) {
        match item {
            None => {
                buf_put_u8(dst, 0);
                proof {
                    assert(buf_view(*dst) =~= buf_view(*old(dst)) + Self::enc(Self::vw(*item)));
                }
                Ok(())
            },
            Some(x) => {
                let ghost d0 = buf_view(*dst);
                buf_put_u8(dst, 1);
                proof {
                    assert(buf_view(*dst) =~= d0 + seq![1u8]);
                }
                match self.0.encode(x, dst) {
                    Ok(()) => {
                        proof {
                            assert(buf_view(*dst) =~= d0 + Self::enc(Self::vw(*item)));
                        }
                        Ok(())
                    },
                    Err(e) => Err(e),
                }
            },
        }
    }
}

/// Resumable decoder for optional values: the presence byte is read once
/// and cached, then the payload decoder runs (and resumes) when present.
pub struct OptionDecoder<T> {
    dec: T,
    is_some: bool,
}

impl<T: Decode> OptionDecoder<T> {
    /// The payload decoder back.
    pub fn into_inner(self) -> T {
        self.dec
    }

    /// A fresh decoder around a fresh payload decoder.
    pub fn new(decoder: T) -> (r: Self)
        requires
            decoder.inv(),
            decoder.consumed() == Seq::<u8>::empty(),
        ensures
            r.inv(),
            r.consumed() == Seq::<u8>::empty(),
    {
        Self { dec: decoder, is_some: false }
    }
}

impl<T: Decode> Decode for OptionDecoder<T> {
    type Item = Option<T::Item>;

    type V = Option<T::V>;

    open spec fn vw(i: Option<T::Item>) -> Option<T::V> {
        match i {
            None => None,
            Some(x) => Some(T::vw(x)),
        }
    }

    open spec fn dec(s: Seq<u8>) -> Decoded<Option<T::V>> {
        if s.len() == 0 {
            Decoded::NeedMore
        } else if s[0] == 0 {
            Decoded::Val(None, 1)
        } else if s[0] == 1 {
            match T::dec(s.skip(1)) {
                Decoded::NeedMore => Decoded::NeedMore,
                Decoded::Fail(e) => Decoded::Fail(e),
                Decoded::Val(v, l) => Decoded::Val(Some(v), (l + 1) as nat),
            }
        } else {
            Decoded::Fail(CodecError::InvalidTag(s[0]))
        }
    }

    closed spec fn consumed(&self) -> Seq<u8> {
        if self.is_some {
            seq![1u8] + self.dec.consumed()
        } else {
            Seq::empty()
        }
    }

    closed spec fn inv(&self) -> bool {
        &&& self.dec.inv()
        &&& !self.is_some ==> self.dec.consumed() == Seq::<u8>::empty()
    }

    proof fn lemma_dec_len(s: Seq<u8>) {
        if s.len() > 0 && s[0] == 1 {
            T::lemma_dec_len(s.skip(1));
        }
    }

    proof fn lemma_dec_extend(s: Seq<u8>, t: Seq<u8>) {
        if s.len() > 0 {
            assert((s + t)[0] == s[0]);
            if s[0] == 1 {
                assert((s + t).skip(1) =~= s.skip(1) + t);
                T::lemma_dec_extend(s.skip(1), t);
            }
        }
    }

    proof fn lemma_dec_restrict(s: Seq<u8>, j: int) {
        if s.len() > 0 {
            assert(s.take(j)[0] == s[0]);
            if s[0] == 1 {
                T::lemma_dec_len(s.skip(1));
                assert(s.take(j).skip(1) =~= s.skip(1).take(j - 1));
                T::lemma_dec_restrict(s.skip(1), j - 1);
            }
        }
    }

    proof fn lemma_dec_empty() {
    }

    proof fn lemma_inv_pending(&self) {
        if self.is_some {
            self.dec.lemma_inv_pending();
            let c = self.consumed();
            assert(c[0] == 1);
            assert(c.skip(1) =~= self.dec.consumed());
        }
    }

    fn decode(&mut self, src: &mut BytesMut) -> (r: Result<Option<Option<T::Item>>, CodecError>) {
        let ghost me0 = *self;
        let ghost s0 = buf_view(*src);
        let ghost total = me0.consumed() + s0;
        if !self.is_some {
            proof {
                assert(total =~= s0);
            }
            let len = buf_len(src);
            if len == 0 {
                buf_reserve(src, 1);
                proof {
                    assert(self.consumed() + buf_view(*src) =~= total);
                }
                return Ok(None);
            }
            let b = buf_get(src, 0);
            if b == 0 {
                buf_advance(src, 1);
                proof {
                    assert(buf_view(*src) =~= total.skip(1));
                }
                return Ok(Some(None));
            }
            if b != 1 {
                return Err(CodecError::InvalidTag(b));
            }
            buf_advance(src, 1);
            self.is_some = true;
            proof {
                assert(buf_view(*src) =~= s0.skip(1));
                assert(total.skip(1) =~= s0.skip(1));
            }
        }
        // the presence byte has been absorbed; decode the payload
        let ghost tc = self.dec.consumed();
        let ghost sv = buf_view(*src);
        proof {
            assert(total[0] == 1);
            assert(total.skip(1) =~= tc + sv);
        }
        match self.dec.decode(src) {
            Ok(Some(v)) => {
                self.is_some = false;
                proof {
                    T::lemma_dec_len(tc + sv);
                    let tl = match T::dec(tc + sv) {
                        Decoded::Val(tv, tl) => tl,
                        _ => 0,
                    };
                    assert((tc + sv).skip(tl as int) =~= total.skip(tl as int + 1));
                }
                Ok(Some(Some(v)))
            },
            Ok(None) => {
                proof {
                    assert(self.consumed() + buf_view(*src) =~= seq![1u8] + (
                    self.dec.consumed() + buf_view(*src)));
                    assert(total =~= seq![1u8] + (tc + sv));
                }
                Ok(None)
            },
            Err(e) => Err(e),
        }
    }
}

/// Encoder for fallible results: `0` then the success payload, or `1` then
/// the failure payload (note the polarity differs from options).
#[derive(Clone, Copy, PartialEq, Eq, Debug)]
pub struct ResultEncoder<O, E> {
    pub ok: O,
    pub err: E,
}

impl<O: Encode, E: Encode> Encode for ResultEncoder<O, E> {
    type Item = Result<O::Item, E::Item>;

    type V = Result<O::V, E::V>;

    open spec fn vw(i: Result<O::Item, E::Item>) -> Result<O::V, E::V> {
        match i {
            Ok(x) => Ok(O::vw(x)),
            Err(x) => Err(E::vw(x)),
        }
    }

    open spec fn enc_ok(v: Result<O::V, E::V>) -> bool {
        match v {
            Ok(x) => O::enc_ok(x),
            Err(x) => E::enc_ok(x),
        }
    }

    open spec fn enc(v: Result<O::V, E::V>) -> Seq<u8> {
        match v {
            Ok(x) => seq![0u8] + O::enc(x),
            Err(x) => seq![1u8] + E::enc(x),
        }
    }

    fn encode(&mut self, item: &Result<O::Item, E::Item>, dst: &mut BytesMut) -> (r: Result<
        (),
        CodecError,
    >) {
        let ghost d0 = buf_view(*dst);
        match item {
            Ok(x) => {
                buf_put_u8(dst, 0);
                proof {
                    assert(buf_view(*dst) =~= d0 + seq![0u8]);
                }
                match self.ok.encode(x, dst) {
                    Ok(()) => {
                        proof {
                            assert(buf_view(*dst) =~= d0 + Self::enc(Self::vw(*item)));
                        }
                        Ok(())
                    },
                    Err(e) => Err(e),
                }
            },
            Err(x) => {
                buf_put_u8(dst, 1);
                proof {
                    assert(buf_view(*dst) =~= d0 + seq![1u8]);
                }
                match self.err.encode(x, dst) {
                    Ok(()) => {
                        proof {
                            assert(buf_view(*dst) =~= d0 + Self::enc(Self::vw(*item)));
                        }
                        Ok(())
                    },
                    Err(e) => Err(e),
                }
            },
        }
    }
}

/// Resumable decoder for fallible results: the status byte is read once and
/// cached, then exactly one of the two payload decoders runs and resumes.
pub struct ResultDecoder<O, E> {
    ok: O,
    err: E,
    is_ok: Option<bool>,
}

impl<O: Decode, E: Decode> ResultDecoder<O, E> {
    /// Both payload decoders back.
    pub fn into_inner(self) -> (O, E) {
        (self.ok, self.err)
    }

    /// The success payload decoder back.
    pub fn into_ok(self) -> O {
        self.ok
    }

    /// The failure payload decoder back.
    pub fn into_err(self) -> E {
        self.err
    }

    /// A fresh decoder around fresh payload decoders.
    pub fn new(ok: O, err: E) -> (r: Self)
        requires
            ok.inv(),
            ok.consumed() == Seq::<u8>::empty(),
            err.inv(),
            err.consumed() == Seq::<u8>::empty(),
        ensures
            r.inv(),
            r.consumed() == Seq::<u8>::empty(),
    {
        Self { ok, err, is_ok: None }
    }
}

impl<O: Decode, E: Decode> Decode for ResultDecoder<O, E> {
    type Item = Result<O::Item, E::Item>;

    type V = Result<O::V, E::V>;

    open spec fn vw(i: Result<O::Item, E::Item>) -> Result<O::V, E::V> {
        match i {
            Ok(x) => Ok(O::vw(x)),
            Err(x) => Err(E::vw(x)),
        }
    }

    open spec fn dec(s: Seq<u8>) -> Decoded<Result<O::V, E::V>> {
        if s.len() == 0 {
            Decoded::NeedMore
        } else if s[0] == 0 {
            match O::dec(s.skip(1)) {
                Decoded::NeedMore => Decoded::NeedMore,
                Decoded::Fail(e) => Decoded::Fail(e),
                Decoded::Val(v, l) => Decoded::Val(Ok(v), (l + 1) as nat),
            }
        } else if s[0] == 1 {
            match E::dec(s.skip(1)) {
                Decoded::NeedMore => Decoded::NeedMore,
                Decoded::Fail(e) => Decoded::Fail(e),
                Decoded::Val(v, l) => Decoded::Val(Err(v), (l + 1) as nat),
            }
        } else {
            Decoded::Fail(CodecError::InvalidTag(s[0]))
        }
    }

    closed spec fn consumed(&self) -> Seq<u8> {
        match self.is_ok {
            None => Seq::empty(),
            Some(true) => seq![0u8] + self.ok.consumed(),
            Some(false) => seq![1u8] + self.err.consumed(),
        }
    }

    closed spec fn inv(&self) -> bool {
        &&& self.ok.inv()
        &&& self.err.inv()
        &&& !(self.is_ok matches Some(true)) ==> self.ok.consumed() == Seq::<u8>::empty()
        &&& !(self.is_ok matches Some(false)) ==> self.err.consumed() == Seq::<u8>::empty()
    }

    proof fn lemma_dec_len(s: Seq<u8>) {
        if s.len() > 0 && s[0] == 0 {
            O::lemma_dec_len(s.skip(1));
        }
        if s.len() > 0 && s[0] == 1 {
            E::lemma_dec_len(s.skip(1));
        }
    }

    proof fn lemma_dec_extend(s: Seq<u8>, t: Seq<u8>) {
        if s.len() > 0 {
            assert((s + t)[0] == s[0]);
            assert((s + t).skip(1) =~= s.skip(1) + t);
            if s[0] == 0 {
                O::lemma_dec_extend(s.skip(1), t);
            }
            if s[0] == 1 {
                E::lemma_dec_extend(s.skip(1), t);
            }
        }
    }

    proof fn lemma_dec_restrict(s: Seq<u8>, j: int) {
        if s.len() > 0 {
            assert(s.take(j)[0] == s[0]);
            assert(s.take(j).skip(1) =~= s.skip(1).take(j - 1));
            if s[0] == 0 {
                O::lemma_dec_len(s.skip(1));
                O::lemma_dec_restrict(s.skip(1), j - 1);
            }
            if s[0] == 1 {
                E::lemma_dec_len(s.skip(1));
                E::lemma_dec_restrict(s.skip(1), j - 1);
            }
        }
    }

    proof fn lemma_dec_empty() {
    }

    proof fn lemma_inv_pending(&self) {
        let c = self.consumed();
        if self.is_ok matches Some(true) {
            self.ok.lemma_inv_pending();
            assert(c[0] == 0);
            assert(c.skip(1) =~= self.ok.consumed());
        }
        if self.is_ok matches Some(false) {
            self.err.lemma_inv_pending();
            assert(c[0] == 1);
            assert(c.skip(1) =~= self.err.consumed());
        }
    }

    fn decode(&mut self, src: &mut BytesMut) -> (r: Result<
        Option<Result<O::Item, E::Item>>,
        CodecError,
    >) {
        let ghost me0 = *self;
        let ghost s0 = buf_view(*src);
        let ghost total = me0.consumed() + s0;
        if self.is_ok.is_none() {
            proof {
                assert(total =~= s0);
            }
            let len = buf_len(src);
            if len == 0 {
                buf_reserve(src, 1);
                proof {
                    assert(self.consumed() + buf_view(*src) =~= total);
                }
                return Ok(None);
            }
            let b = buf_get(src, 0);
            if b == 0 {
                self.is_ok = Some(true);
            } else if b == 1 {
                self.is_ok = Some(false);
            } else {
                return Err(CodecError::InvalidTag(b));
            }
            buf_advance(src, 1);
            proof {
                assert(buf_view(*src) =~= s0.skip(1));
                assert(total.skip(1) =~= s0.skip(1));
            }
        }
        let ghost sv = buf_view(*src);
        if self.is_ok == Some(true) {
            let ghost tc = self.ok.consumed();
            proof {
                assert(total[0] == 0);
                assert(total.skip(1) =~= tc + sv);
            }
            match self.ok.decode(src) {
                Ok(Some(v)) => {
                    self.is_ok = None;
                    proof {
                        O::lemma_dec_len(tc + sv);
                        let tl = match O::dec(tc + sv) {
                            Decoded::Val(tv, tl) => tl,
                            _ => 0,
                        };
                        assert((tc + sv).skip(tl as int) =~= total.skip(tl as int + 1));
                    }
                    Ok(Some(Ok(v)))
                },
                Ok(None) => {
                    proof {
                        assert(self.consumed() + buf_view(*src) =~= seq![0u8] + (
                        self.ok.consumed() + buf_view(*src)));
                        assert(total =~= seq![0u8] + (tc + sv));
                    }
                    Ok(None)
                },
                Err(e) => Err(e),
            }
        } else {
            let ghost tc = self.err.consumed();
            proof {
                assert(total[0] == 1);
                assert(total.skip(1) =~= tc + sv);
            }
            match self.err.decode(src) {
                Ok(Some(v)) => {
                    self.is_ok = None;
                    proof {
                        E::lemma_dec_len(tc + sv);
                        let tl = match E::dec(tc + sv) {
                            Decoded::Val(tv, tl) => tl,
                            _ => 0,
                        };
                        assert((tc + sv).skip(tl as int) =~= total.skip(tl as int + 1));
                    }
                    Ok(Some(Err(v)))
                },
                Ok(None) => {
                    proof {
                        assert(self.consumed() + buf_view(*src) =~= seq![1u8] + (
                        self.err.consumed() + buf_view(*src)));
                        assert(total =~= seq![1u8] + (tc + sv));
                    }
                    Ok(None)
                },
                Err(e) => Err(e),
            }
        }
    }
}


/// Encoder for a pair of values, back to back with no framing.  Wider
/// tuples nest pairs.
#[derive(Clone, Copy, PartialEq, Eq, Debug)]
pub struct TupleEncoder<T>(pub T);

impl<A: Encode, B: Encode> Encode for TupleEncoder<(A, B)> {
    type Item = (A::Item, B::Item);

    type V = (A::V, B::V);

    open spec fn vw(i: (A::Item, B::Item)) -> (A::V, B::V) {
        (A::vw(i.0), B::vw(i.1))
    }

    open spec fn enc_ok(v: (A::V, B::V)) -> bool {
        A::enc_ok(v.0) && B::enc_ok(v.1)
    }

    open spec fn enc(v: (A::V, B::V)) -> Seq<u8> {
        A::enc(v.0) + B::enc(v.1)
    }

    fn encode(&mut self, item: &(A::Item, B::Item), dst: &mut BytesMut) -> (r: Result<
        (),
        CodecError,
    >) {
        let ghost d0 = buf_view(*dst);
        match self.0.0.encode(&item.0, dst) {
            Ok(()) => {
                match self.0.1.encode(&item.1, dst) {
                    Ok(()) => {
                        proof {
                            assert(buf_view(*dst) =~= d0 + Self::enc(Self::vw(*item)));
                        }
                        Ok(())
                    },
                    Err(e) => Err(e),
                }
            },
            Err(e) => Err(e),
        }
    }
}

/// Resumable decoder for a pair of values decoded back to back.  The first
/// value, once decoded, is cached in its slot and never decoded again;
/// wider tuples nest pairs.
pub struct TupleDecoder<A: Decode, B: Decode> {
    dec: (A, B),
    first: Option<A::Item>,
    head: Ghost<Seq<u8>>,
}

impl<A: Decode, B: Decode> TupleDecoder<A, B> {
    /// Both sub-decoders back.
    pub fn into_inner(self) -> (A, B) {
        self.dec
    }

    /// A fresh decoder around fresh sub-decoders.
    pub fn new(decoder: (A, B)) -> (r: Self)
        requires
            decoder.0.inv(),
            decoder.0.consumed() == Seq::<u8>::empty(),
            decoder.1.inv(),
            decoder.1.consumed() == Seq::<u8>::empty(),
        ensures
            r.inv(),
            r.consumed() == Seq::<u8>::empty(),
    {
        Self { dec: decoder, first: None, head: Ghost(Seq::empty()) }
    }
}

impl<A: Decode, B: Decode> Decode for TupleDecoder<A, B> {
    type Item = (A::Item, B::Item);

    type V = (A::V, B::V);

    open spec fn vw(i: (A::Item, B::Item)) -> (A::V, B::V) {
        (A::vw(i.0), B::vw(i.1))
    }

    open spec fn dec(s: Seq<u8>) -> Decoded<(A::V, B::V)> {
        match A::dec(s) {
            Decoded::NeedMore => Decoded::NeedMore,
            Decoded::Fail(e) => Decoded::Fail(e),
            Decoded::Val(va, la) => match B::dec(s.skip(la as int)) {
                Decoded::NeedMore => Decoded::NeedMore,
                Decoded::Fail(e) => Decoded::Fail(e),
                Decoded::Val(vb, lb) => Decoded::Val(((va, vb)), (la + lb) as nat),
            },
        }
    }

    closed spec fn consumed(&self) -> Seq<u8> {
        self.head@ + (match self.first {
            None => self.dec.0.consumed(),
            Some(_) => self.dec.1.consumed(),
        })
    }

    closed spec fn inv(&self) -> bool {
        &&& self.dec.0.inv()
        &&& self.dec.1.inv()
        &&& match self.first {
            None => self.head@ == Seq::<u8>::empty() && self.dec.1.consumed()
                == Seq::<u8>::empty(),
            Some(x) => A::dec(self.head@) == Decoded::<A::V>::Val(A::vw(x), self.head@.len())
                && self.dec.0.consumed() == Seq::<u8>::empty(),
        }
    }

    proof fn lemma_dec_len(s: Seq<u8>) {
        A::lemma_dec_len(s);
        match A::dec(s) {
            Decoded::Val(va, la) => {
                B::lemma_dec_len(s.skip(la as int));
            },
            _ => {},
        }
    }

    proof fn lemma_dec_extend(s: Seq<u8>, t: Seq<u8>) {
        A::lemma_dec_extend(s, t);
        A::lemma_dec_len(s);
        match A::dec(s) {
            Decoded::Val(va, la) => {
                assert((s + t).skip(la as int) =~= s.skip(la as int) + t);
                B::lemma_dec_extend(s.skip(la as int), t);
            },
            _ => {},
        }
    }

    proof fn lemma_dec_empty() {
        A::lemma_dec_empty();
    }

    proof fn lemma_dec_restrict(s: Seq<u8>, j: int) {
        A::lemma_dec_len(s);
        match A::dec(s) {
            Decoded::Val(va, la) => {
                A::lemma_dec_restrict(s, j);
                B::lemma_dec_len(s.skip(la as int));
                assert(s.take(j).skip(la as int) =~= s.skip(la as int).take(j - la));
                B::lemma_dec_restrict(s.skip(la as int), j - la);
            },
            _ => {},
        }
    }

    proof fn lemma_inv_pending(&self) {
        match self.first {
            None => {
                self.dec.0.lemma_inv_pending();
                assert(self.consumed() =~= self.dec.0.consumed());
            },
            Some(x) => {
                self.dec.1.lemma_inv_pending();
                let h = self.head@;
                let bc = self.dec.1.consumed();
                A::lemma_dec_extend(h, bc);
                assert((h + bc).skip(h.len() as int) =~= bc);
            },
        }
    }

    fn decode(&mut self, src: &mut BytesMut) -> (r: Result<
        Option<(A::Item, B::Item)>,
        CodecError,
    >) {
        let ghost me0 = *self;
        let ghost s0 = buf_view(*src);
        let ghost total = me0.consumed() + s0;
        if self.first.is_none() {
            let ghost ac = self.dec.0.consumed();
            proof {
                assert(total =~= ac + s0);
            }
            match self.dec.0.decode(src) {
                Ok(Some(va)) => {
                    proof {
                        A::lemma_dec_len(ac + s0);
                    }
                    let ghost la = (match A::dec(ac + s0) {
                        Decoded::Val(av, al) => al,
                        _ => 0,
                    });
                    self.head = Ghost((ac + s0).take(la as int));
                    self.first = Some(va);
                    proof {
                        A::lemma_dec_restrict(ac + s0, la as int);
                        assert(buf_view(*src) =~= total.skip(la as int));
                    }
                },
                Ok(None) => {
                    proof {
                        assert(self.consumed() + buf_view(*src) =~= self.dec.0.consumed()
                            + buf_view(*src));
                    }
                    return Ok(None);
                },
                Err(e) => {
                    return Err(e);
                },
            }
        }
        // the first slot is filled with the bytes in `head` behind it
        let ghost h = self.head@;
        let ghost bc = self.dec.1.consumed();
        let ghost sv = buf_view(*src);
        proof {
            A::lemma_dec_extend(h, bc + sv);
            assert(h + (bc + sv) =~= self.consumed() + sv);
            assert((h + (bc + sv)).skip(h.len() as int) =~= bc + sv);
            if self.first.is_some() && me0.first.is_none() {
                // the first slot was filled this call
                assert(self.consumed() + sv =~= total.take(h.len() as int) + total.skip(
                    h.len() as int,
                ));
                assert(self.consumed() + sv =~= total);
            }
        }
        let ghost me1 = *self;
        match self.dec.1.decode(src) {
            Ok(Some(vb)) => {
                let va = self.first.take().unwrap();
                self.head = Ghost(Seq::empty());
                proof {
                    B::lemma_dec_len(bc + sv);
                    let lb = (match B::dec(bc + sv) {
                        Decoded::Val(bv, bl) => bl,
                        _ => 0,
                    });
                    assert((bc + sv).skip(lb as int) =~= total.skip(h.len() as int + lb as int));
                    assert(self.consumed() =~= Seq::<u8>::empty());
                }
                Ok(Some((va, vb)))
            },
            Ok(None) => {
                proof {
                    assert(self.consumed() + buf_view(*src) =~= h + (self.dec.1.consumed()
                        + buf_view(*src)));
                    assert(total =~= h + (bc + sv));
                }
                Ok(None)
            },
            Err(e) => Err(e),
        }
    }
}


/// Little-endian byte representation of `v` in `w` bytes.
pub open spec fn le_bytes(v: nat, w: nat) -> Seq<u8>
    decreases w,
{
    if w == 0 {
        Seq::empty()
    } else {
        seq![(v % 256) as u8] + le_bytes(v / 256, (w - 1) as nat)
    }
}

/// The little-endian bytes of `x`, `w` bytes worth.
pub fn le_vec(x: u128, w: usize) -> (r: Vec<u8>)
    ensures
        r@ == le_bytes(x as nat, w as nat),
        r@.len() == w,
{
    let mut r: Vec<u8> = Vec::new();
    let mut cur: u128 = x;
    let mut i: usize = 0;
    loop
        invariant
            i <= w,
            r@.len() == i,
            r@ + le_bytes(cur as nat, (w - i) as nat) == le_bytes(x as nat, w as nat),
        decreases w - i,
    {
        if i >= w {
            proof {
                assert(le_bytes(cur as nat, 0) =~= Seq::<u8>::empty());
                assert(r@ =~= le_bytes(x as nat, w as nat));
            }
            return r;
        }
        let ghost pre = r@;
        r.push((cur % 256) as u8);
        proof {
            assert(le_bytes(cur as nat, (w - i) as nat) == seq![(cur as nat % 256) as u8]
                + le_bytes(cur as nat / 256, (w - i - 1) as nat));
            assert(r@ + le_bytes((cur / 256) as nat, (w - i - 1) as nat) =~= pre + le_bytes(
                cur as nat,
                (w - i) as nat,
            ));
        }
        cur = cur / 256;
        i = i + 1;
    }
}

/// Encoder for flag blocks: fixed-width integers as little-endian bytes,
/// and raw byte runs appended unchanged.
#[derive(Clone, Copy, PartialEq, Eq, Structural, Debug)]
pub struct FlagEncoder;

impl FlagEncoder {
    /// Append one byte of flags.
    pub fn encode_u8(&mut self, item: u8, dst: &mut BytesMut) -> (r: Result<(), CodecError>)
        requires
            buf_view(*old(dst)).len() + 1 <= usize::MAX,
        ensures
            r == Ok::<(), CodecError>(()),
            buf_view(*final (dst)) == buf_view(*old(dst)) + le_bytes(item as nat, 1),
    {
        let t = le_vec(item as u128, 1);
        buf_extend(dst, &t);
        Ok(())
    }

    /// Append two bytes of flags, little endian.
    pub fn encode_u16(&mut self, item: u16, dst: &mut BytesMut) -> (r: Result<(), CodecError>)
        requires
            buf_view(*old(dst)).len() + 2 <= usize::MAX,
        ensures
            r == Ok::<(), CodecError>(()),
            buf_view(*final (dst)) == buf_view(*old(dst)) + le_bytes(item as nat, 2),
    {
        let t = le_vec(item as u128, 2);
        buf_extend(dst, &t);
        Ok(())
    }

    /// Append four bytes of flags, little endian.
    pub fn encode_u32(&mut self, item: u32, dst: &mut BytesMut) -> (r: Result<(), CodecError>)
        requires
            buf_view(*old(dst)).len() + 4 <= usize::MAX,
        ensures
            r == Ok::<(), CodecError>(()),
            buf_view(*final (dst)) == buf_view(*old(dst)) + le_bytes(item as nat, 4),
    {
        let t = le_vec(item as u128, 4);
        buf_extend(dst, &t);
        Ok(())
    }

    /// Append eight bytes of flags, little endian.
    pub fn encode_u64(&mut self, item: u64, dst: &mut BytesMut) -> (r: Result<(), CodecError>)
        requires
            buf_view(*old(dst)).len() + 8 <= usize::MAX,
        ensures
            r == Ok::<(), CodecError>(()),
            buf_view(*final (dst)) == buf_view(*old(dst)) + le_bytes(item as nat, 8),
    {
        let t = le_vec(item as u128, 8);
        buf_extend(dst, &t);
        Ok(())
    }

    /// Append sixteen bytes of flags, little endian.
    pub fn encode_u128(&mut self, item: u128, dst: &mut BytesMut) -> (r: Result<(), CodecError>)
        requires
            buf_view(*old(dst)).len() + 16 <= usize::MAX,
        ensures
            r == Ok::<(), CodecError>(()),
            buf_view(*final (dst)) == buf_view(*old(dst)) + le_bytes(item as nat, 16),
    {
        let t = le_vec(item, 16);
        buf_extend(dst, &t);
        Ok(())
    }

    /// Append raw flag bytes unchanged.
    pub fn encode_bytes(&mut self, item: &Vec<u8>, dst: &mut BytesMut) -> (r: Result<
        (),
        CodecError,
    >)
        requires
            buf_view(*old(dst)).len() + item@.len() <= usize::MAX,
        ensures
            r == Ok::<(), CodecError>(()),
            buf_view(*final (dst)) == buf_view(*old(dst)) + item@,
    {
        buf_extend(dst, item);
        Ok(())
    }
}

/// Decoder for a block of `N` flags: `N / 8` bytes, rounded up, split off
/// the front of the buffer unchanged.
pub struct FlagDecoder<const N: usize>;

/// The byte count of a block of `N` flags.
pub open spec fn flag_block_len(n: int) -> int {
    if n % 8 == 0 {
        n / 8
    } else {
        n / 8 + 1
    }
}

impl<const N: usize> FlagDecoder<N> {
    /// Split one flag block off the front of the buffer: `NeedMore` until
    /// the whole block is present, then exactly its bytes.
    pub fn decode(&mut self, src: &mut BytesMut) -> (r: Result<Option<Vec<u8>>, CodecError>)
        ensures
            buf_view(*old(src)).len() < flag_block_len(N as int) ==> r == Ok::<
                Option<Vec<u8>>,
                CodecError,
            >(None) && buf_view(*final (src)) == buf_view(*old(src)),
            buf_view(*old(src)).len() >= flag_block_len(N as int) ==> (r matches Ok(Some(out))
                && out@ == buf_view(*old(src)).take(flag_block_len(N as int)) && buf_view(
                *final (src),
            ) == buf_view(*old(src)).skip(flag_block_len(N as int))),
    {
        let n: usize = if N % 8 == 0 {
            N / 8
        } else {
            N / 8 + 1
        };
        let len = buf_len(src);
        if len < n {
            buf_reserve(src, n - len);
            return Ok(None);
        }
        let taken = buf_split_to(src, n);
        let out = buf_to_vec(&taken);
        Ok(Some(out))
    }
}


/// Read a boolean off its tag byte: `0` or `1`, anything else invalid.
pub fn bool_from_byte(b: u8) -> (r: Result<bool, CodecError>)
    ensures
        b == 0 ==> r == Ok::<bool, CodecError>(false),
        b == 1 ==> r == Ok::<bool, CodecError>(true),
        b > 1 ==> r == Err::<bool, CodecError>(CodecError::InvalidTag(b)),
{
    match b {
        0 => Ok(false),
        1 => Ok(true),
        _ => Err(CodecError::InvalidTag(b)),
    }
}

/// Read an option's presence off its status byte: `1` present, `0` absent.
pub fn option_status_from_byte(b: u8) -> (r: Result<bool, CodecError>)
    ensures
        b == 0 ==> r == Ok::<bool, CodecError>(false),
        b == 1 ==> r == Ok::<bool, CodecError>(true),
        b > 1 ==> r == Err::<bool, CodecError>(CodecError::InvalidTag(b)),
{
    match b {
        0 => Ok(false),
        1 => Ok(true),
        _ => Err(CodecError::InvalidTag(b)),
    }
}

/// Read a result's side off its status byte: `0` is success, `1` failure —
/// the polarity is inverted relative to an option's presence byte.
pub fn result_status_from_byte(b: u8) -> (r: Result<bool, CodecError>)
    ensures
        b == 0 ==> r == Ok::<bool, CodecError>(true),
        b == 1 ==> r == Ok::<bool, CodecError>(false),
        b > 1 ==> r == Err::<bool, CodecError>(CodecError::InvalidTag(b)),
{
    match b {
        0 => Ok(true),
        1 => Ok(false),
        _ => Err(CodecError::InvalidTag(b)),
    }
}

/// Stateless encoder over every primitive value, one method per type.
#[derive(Clone, Copy, PartialEq, Eq, Structural, Debug)]
pub struct PrimValEncoder;

impl PrimValEncoder {
    /// Append a boolean as one tag byte.
    pub fn encode_bool(&mut self, item: bool, dst: &mut BytesMut) -> (r: Result<(), CodecError>)
        requires
            buf_view(*old(dst)).len() + 1 <= usize::MAX,
        ensures
            r is Ok,
            buf_view(*final (dst)) == buf_view(*old(dst)) + <BoolCodec as Encode>::enc(item),
    {
        let mut c = BoolCodec;
        c.encode(&item, dst)
    }

    /// Append a signed 8-bit integer as one raw byte.
    pub fn encode_s8(&mut self, item: i8, dst: &mut BytesMut) -> (r: Result<(), CodecError>)
        requires
            buf_view(*old(dst)).len() + 1 <= usize::MAX,
        ensures
            r is Ok,
            buf_view(*final (dst)) == buf_view(*old(dst)) + <S8Codec as Encode>::enc(item),
    {
        let mut c = S8Codec;
        c.encode(&item, dst)
    }

    /// Append an unsigned 8-bit integer as one raw byte.
    pub fn encode_u8(&mut self, item: u8, dst: &mut BytesMut) -> (r: Result<(), CodecError>)
        requires
            buf_view(*old(dst)).len() + 1 <= usize::MAX,
        ensures
            r is Ok,
            buf_view(*final (dst)) == buf_view(*old(dst)) + <U8Codec as Encode>::enc(item),
    {
        let mut c = U8Codec;
        c.encode(&item, dst)
    }

    /// Append a signed 16-bit integer as a signed varint.
    pub fn encode_s16(&mut self, item: i16, dst: &mut BytesMut) -> (r: Result<(), CodecError>)
        requires
            buf_view(*old(dst)).len() + sleb_bytes(item as int).len() <= usize::MAX,
        ensures
            r is Ok,
            buf_view(*final (dst)) == buf_view(*old(dst)) + sleb_bytes(item as int),
    {
        let mut c = S16Codec;
        c.encode(&item, dst)
    }

    /// Append an unsigned 16-bit integer as an unsigned varint.
    pub fn encode_u16(&mut self, item: u16, dst: &mut BytesMut) -> (r: Result<(), CodecError>)
        requires
            buf_view(*old(dst)).len() + uleb_bytes(item as nat).len() <= usize::MAX,
        ensures
            r is Ok,
            buf_view(*final (dst)) == buf_view(*old(dst)) + uleb_bytes(item as nat),
    {
        let mut c = U16Codec;
        c.encode(&item, dst)
    }

    /// Append a signed 32-bit integer as a signed varint.
    pub fn encode_s32(&mut self, item: i32, dst: &mut BytesMut) -> (r: Result<(), CodecError>)
        requires
            buf_view(*old(dst)).len() + sleb_bytes(item as int).len() <= usize::MAX,
        ensures
            r is Ok,
            buf_view(*final (dst)) == buf_view(*old(dst)) + sleb_bytes(item as int),
    {
        let mut c = S32Codec;
        c.encode(&item, dst)
    }

    /// Append an unsigned 32-bit integer as an unsigned varint.
    pub fn encode_u32(&mut self, item: u32, dst: &mut BytesMut) -> (r: Result<(), CodecError>)
        requires
            buf_view(*old(dst)).len() + uleb_bytes(item as nat).len() <= usize::MAX,
        ensures
            r is Ok,
            buf_view(*final (dst)) == buf_view(*old(dst)) + uleb_bytes(item as nat),
    {
        let mut c = U32Codec;
        c.encode(&item, dst)
    }

    /// Append a signed 64-bit integer as a signed varint.
    pub fn encode_s64(&mut self, item: i64, dst: &mut BytesMut) -> (r: Result<(), CodecError>)
        requires
            buf_view(*old(dst)).len() + sleb_bytes(item as int).len() <= usize::MAX,
        ensures
            r is Ok,
            buf_view(*final (dst)) == buf_view(*old(dst)) + sleb_bytes(item as int),
    {
        let mut c = S64Codec;
        c.encode(&item, dst)
    }

    /// Append an unsigned 64-bit integer as an unsigned varint.
    pub fn encode_u64(&mut self, item: u64, dst: &mut BytesMut) -> (r: Result<(), CodecError>)
        requires
            buf_view(*old(dst)).len() + uleb_bytes(item as nat).len() <= usize::MAX,
        ensures
            r is Ok,
            buf_view(*final (dst)) == buf_view(*old(dst)) + uleb_bytes(item as nat),
    {
        let mut c = U64Codec;
        c.encode(&item, dst)
    }

    /// Append a character as its raw UTF-8 bytes.
    pub fn encode_char(&mut self, item: char, dst: &mut BytesMut) -> (r: Result<(), CodecError>)
        requires
            buf_view(*old(dst)).len() + 4 <= usize::MAX,
        ensures
            r is Ok,
            buf_view(*final (dst)) == buf_view(*old(dst))
                + vstd::utf8::encode_scalar(item as u32),
    {
        proof {
            vstd::utf8::char_is_scalar(item);
            assert(vstd::utf8::encode_scalar(item as u32).len() <= 4);
        }
        let mut c = Utf8Codec;
        c.encode(&item, dst)
    }

    /// Append a string as a name: its UTF-8 byte length as a 32-bit varint,
    /// then the bytes.
    pub fn encode_str(&mut self, item: &String, dst: &mut BytesMut) -> (r: Result<
        (),
        CodecError,
    >)
        requires
            buf_view(*old(dst)).len() + 5 + vstd::utf8::encode_utf8(item@).len() <= usize::MAX,
        ensures
            r is Ok ==> vstd::utf8::encode_utf8(item@).len() <= u32::MAX && buf_view(
                *final (dst),
            ) == buf_view(*old(dst)) + <CoreNameEncoder as Encode>::enc(item@),
            r matches Err(e) ==> vstd::utf8::encode_utf8(item@).len() > u32::MAX && e
                == CodecError::LengthOverflow,
    {
        let bytes_len = item.as_str().len();
        if bytes_len > u32::MAX as usize {
            return Err(CodecError::LengthOverflow);
        }
        proof {
            let n = vstd::utf8::encode_utf8(item@).len();
            lemma2_to64();
            lemma2_to64_rest();
            assert(pow2(35) == pow2(32) * 8) by {
                vstd::arithmetic::power2::lemma_pow2_adds(32, 3);
            }
            assert(n < pow2(35));
            crate::varint::lemma_uleb_bytes_len_bound(n, 5);
        }
        let mut c = CoreNameEncoder;
        c.encode(item, dst)
    }
}

} // verus!
