//! Unicode scalar values on the wire: one character as its 1–4 UTF-8
//! bytes, no framing.  Decoding rejects malformed leading or continuation
//! bytes, overlong encodings, surrogates, and out-of-range codepoints.

use vstd::prelude::*;
use vstd::utf8::{
    char_u32_cast, codepoint_width_1, codepoint_width_2, codepoint_width_3, codepoint_width_4,
    encode_scalar, has_width_1_encoding, has_width_2_encoding, has_width_3_encoding,
    has_width_4_encoding, is_continuation_byte, is_leading_byte_width_1, is_leading_byte_width_2,
    is_leading_byte_width_3, is_leading_byte_width_4, is_scalar, not_overlong_encoding,
    not_surrogate,
};

use tokio_util::bytes::BytesMut;

use crate::buffer::{buf_advance, buf_get, buf_len, buf_put_u8, buf_reserve, buf_view};
use crate::codec::{CodecError, Decode, Decoded, Encode};

verus! {

/// Relies on `char::from_u32`: `Some` exactly for Unicode scalar values
/// (not a surrogate, at most `0x10FFFF`), and the character casts back to
/// the same number.
pub assume_specification[ char::from_u32 ](v: u32) -> (r: Option<char>)
    ensures
        r is Some <==> is_scalar(v),
        r matches Some(c) ==> c as u32 == v,
;

/// Decode one character from the front of a stream.
pub open spec fn char_dec(s: Seq<u8>) -> Decoded<char> {
    if s.len() == 0 {
        Decoded::NeedMore
    } else if is_leading_byte_width_1(s[0]) {
        Decoded::Val(codepoint_width_1(s[0]) as char, 1)
    } else if is_leading_byte_width_2(s[0]) {
        if s.len() < 2 {
            Decoded::NeedMore
        } else if !is_continuation_byte(s[1]) {
            Decoded::Fail(CodecError::InvalidText)
        } else {
            let cp = codepoint_width_2(s[0], s[1]);
            if !not_overlong_encoding(cp, 2) || !not_surrogate(cp) {
                Decoded::Fail(CodecError::InvalidScalar)
            } else {
                Decoded::Val(cp as char, 2)
            }
        }
    } else if is_leading_byte_width_3(s[0]) {
        if s.len() < 3 {
            Decoded::NeedMore
        } else if !is_continuation_byte(s[1]) || !is_continuation_byte(s[2]) {
            Decoded::Fail(CodecError::InvalidText)
        } else {
            let cp = codepoint_width_3(s[0], s[1], s[2]);
            if !not_overlong_encoding(cp, 3) || !not_surrogate(cp) {
                Decoded::Fail(CodecError::InvalidScalar)
            } else {
                Decoded::Val(cp as char, 3)
            }
        }
    } else if is_leading_byte_width_4(s[0]) {
        if s.len() < 4 {
            Decoded::NeedMore
        } else if !is_continuation_byte(s[1]) || !is_continuation_byte(s[2])
            || !is_continuation_byte(s[3]) {
            Decoded::Fail(CodecError::InvalidText)
        } else {
            let cp = codepoint_width_4(s[0], s[1], s[2], s[3]);
            if !not_overlong_encoding(cp, 4) || !not_surrogate(cp) {
                Decoded::Fail(CodecError::InvalidScalar)
            } else {
                Decoded::Val(cp as char, 4)
            }
        }
    } else {
        Decoded::Fail(CodecError::InvalidText)
    }
}

/// Codec for one character as its raw UTF-8 bytes.
#[derive(Clone, Copy, PartialEq, Eq, Structural, Debug)]
pub struct Utf8Codec;

impl Encode for Utf8Codec {
    type Item = char;

    type V = char;

    open spec fn vw(i: char) -> char {
        i
    }

    open spec fn enc_ok(v: char) -> bool {
        true
    }

    open spec fn enc(v: char) -> Seq<u8> {
        encode_scalar(v as u32)
    }

    fn encode(&mut self, item: &char, dst: &mut BytesMut) -> (r: Result<(), CodecError>) {
        let u = *item as u32;
        proof {
            vstd::utf8::char_is_scalar(*item);
        }
        let ghost d0 = buf_view(*dst);
        if u <= 0x7F {
            buf_put_u8(dst, (u & 0x7F) as u8);
            proof {
                assert(buf_view(*dst) =~= d0 + encode_scalar(u));
            }
        } else if u <= 0x7FF {
            buf_put_u8(dst, 0xC0 | ((u >> 6) & 0x1F) as u8);
            buf_put_u8(dst, 0x80 | (u & 0x3F) as u8);
            proof {
                assert(buf_view(*dst) =~= d0 + encode_scalar(u));
            }
        } else if u <= 0xFFFF {
            proof {
                assert(has_width_3_encoding(u));
            }
            buf_put_u8(dst, 0xE0 | ((u >> 12) & 0x0F) as u8);
            buf_put_u8(dst, 0x80 | ((u >> 6) & 0x3F) as u8);
            buf_put_u8(dst, 0x80 | (u & 0x3F) as u8);
            proof {
                assert(buf_view(*dst) =~= d0 + encode_scalar(u));
            }
        } else {
            proof {
                assert(has_width_4_encoding(u));
            }
            buf_put_u8(dst, 0xF0 | ((u >> 18) & 0x7) as u8);
            buf_put_u8(dst, 0x80 | ((u >> 12) & 0x3F) as u8);
            buf_put_u8(dst, 0x80 | ((u >> 6) & 0x3F) as u8);
            buf_put_u8(dst, 0x80 | (u & 0x3F) as u8);
            proof {
                assert(buf_view(*dst) =~= d0 + encode_scalar(u));
            }
        }
        Ok(())
    }
}

impl Decode for Utf8Codec {
    type Item = char;

    type V = char;

    open spec fn vw(i: char) -> char {
        i
    }

    open spec fn dec(s: Seq<u8>) -> Decoded<char> {
        char_dec(s)
    }

    open spec fn consumed(&self) -> Seq<u8> {
        Seq::empty()
    }

    open spec fn inv(&self) -> bool {
        true
    }

    proof fn lemma_dec_len(s: Seq<u8>) {
    }

    proof fn lemma_dec_extend(s: Seq<u8>, t: Seq<u8>) {
        if s.len() > 0 {
            assert((s + t)[0] == s[0]);
            if s.len() > 1 {
                assert((s + t)[1] == s[1]);
            }
            if s.len() > 2 {
                assert((s + t)[2] == s[2]);
            }
            if s.len() > 3 {
                assert((s + t)[3] == s[3]);
            }
        }
    }

    proof fn lemma_dec_empty() {
    }

    proof fn lemma_dec_restrict(s: Seq<u8>, j: int) {
        if s.len() > 0 {
            assert(s.take(j)[0] == s[0]);
            if j > 1 && s.len() > 1 {
                assert(s.take(j)[1] == s[1]);
            }
            if j > 2 && s.len() > 2 {
                assert(s.take(j)[2] == s[2]);
            }
            if j > 3 && s.len() > 3 {
                assert(s.take(j)[3] == s[3]);
            }
        }
    }

    proof fn lemma_inv_pending(&self) {
    }

    fn decode(&mut self, src: &mut BytesMut) -> (r: Result<Option<char>, CodecError>) {
        proof {
            assert(Seq::<u8>::empty() + buf_view(*src) =~= buf_view(*src));
            broadcast use vstd::utf8::char_u32_cast;

        }
        let ghost s = buf_view(*src);
        let len = buf_len(src);
        if len == 0 {
            buf_reserve(src, 1);
            return Ok(None);
        }
        let b = buf_get(src, 0);
        if b <= 0x7F {
            let cp: u32 = (b & 0x7F) as u32;
            proof {
                assert(b & 0x7F == b) by (bit_vector)
                    requires
                        b <= 0x7F,
                ;
                assert(cp == codepoint_width_1(s[0]));
            }
            let c = char::from_u32(cp).unwrap();
            proof {
                char_u32_cast(c, cp);
            }
            buf_advance(src, 1);
            return Ok(Some(c));
        }
        if 0xC0 <= b && b <= 0xDF {
            if len < 2 {
                buf_reserve(src, 2 - len);
                return Ok(None);
            }
            let b2 = buf_get(src, 1);
            if !(0x80 <= b2 && b2 <= 0xBF) {
                return Err(CodecError::InvalidText);
            }
            let cp: u32 = (((b & 0x1F) as u32) << 6) | ((b2 & 0x3F) as u32);
            proof {
                assert(cp == codepoint_width_2(s[0], s[1]));
            }
            if cp < 0x80 {
                return Err(CodecError::InvalidScalar);
            }
            proof {
                assert(cp <= 0x7FF) by (bit_vector)
                    requires
                        cp == (((b & 0x1F) as u32) << 6) | ((b2 & 0x3F) as u32),
                ;
            }
            let c = char::from_u32(cp).unwrap();
            proof {
                char_u32_cast(c, cp);
            }
            buf_advance(src, 2);
            return Ok(Some(c));
        }
        if 0xE0 <= b && b <= 0xEF {
            if len < 3 {
                buf_reserve(src, 3 - len);
                return Ok(None);
            }
            let b2 = buf_get(src, 1);
            let b3 = buf_get(src, 2);
            if !(0x80 <= b2 && b2 <= 0xBF) || !(0x80 <= b3 && b3 <= 0xBF) {
                return Err(CodecError::InvalidText);
            }
            let cp: u32 = (((b & 0x0F) as u32) << 12) | (((b2 & 0x3F) as u32) << 6) | ((b3
                & 0x3F) as u32);
            proof {
                assert(cp == codepoint_width_3(s[0], s[1], s[2]));
            }
            if cp < 0x800 || (0xD800 <= cp && cp <= 0xDFFF) {
                return Err(CodecError::InvalidScalar);
            }
            proof {
                assert(cp <= 0xFFFF) by (bit_vector)
                    requires
                        cp == (((b & 0x0F) as u32) << 12) | (((b2 & 0x3F) as u32) << 6) | ((b3
                            & 0x3F) as u32),
                ;
            }
            let c = char::from_u32(cp).unwrap();
            proof {
                char_u32_cast(c, cp);
            }
            buf_advance(src, 3);
            return Ok(Some(c));
        }
        if 0xF0 <= b && b <= 0xF7 {
            if len < 4 {
                buf_reserve(src, 4 - len);
                return Ok(None);
            }
            let b2 = buf_get(src, 1);
            let b3 = buf_get(src, 2);
            let b4 = buf_get(src, 3);
            if !(0x80 <= b2 && b2 <= 0xBF) || !(0x80 <= b3 && b3 <= 0xBF) || !(0x80 <= b4 && b4
                <= 0xBF) {
                return Err(CodecError::InvalidText);
            }
            let cp: u32 = (((b & 0x07) as u32) << 18) | (((b2 & 0x3F) as u32) << 12) | (((b3
                & 0x3F) as u32) << 6) | ((b4 & 0x3F) as u32);
            proof {
                assert(cp == codepoint_width_4(s[0], s[1], s[2], s[3]));
            }
            if cp < 0x10000 || cp > 0x10FFFF {
                return Err(CodecError::InvalidScalar);
            }
            let c = char::from_u32(cp).unwrap();
            proof {
                char_u32_cast(c, cp);
            }
            buf_advance(src, 4);
            return Ok(Some(c));
        }
        Err(CodecError::InvalidText)
    }
}

} // verus!
