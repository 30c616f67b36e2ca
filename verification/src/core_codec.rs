//! Length-prefixed wire shapes: names (UTF-8 text behind a 32-bit varint
//! byte length) and vectors (a 32-bit varint element count followed by the
//! elements back to back), with a byte-run fast path.

use vstd::arithmetic::power2::{lemma2_to64, lemma2_to64_rest, pow2};
use vstd::prelude::*;
use vstd::utf8::{decode_utf8, encode_utf8, valid_utf8};

use tokio_util::bytes::BytesMut;

use crate::buffer::{
    buf_advance, buf_extend, buf_len, buf_reserve, buf_split_to, buf_to_vec, buf_view,
};
use crate::codec::{CodecError, Decode, Decoded, Encode};
use crate::varint::{
    lemma_uleb_dec_extend, lemma_uleb_dec_len, lemma_uleb_dec_needmore, lemma_uleb_dec_restrict,
    lemma_uleb_round_trip, uleb_bytes, uleb_dec, uleb_decode_raw, uleb_vec,
};

verus! {

/// Relies on `String::from_utf8`: succeeds exactly on valid UTF-8, and the
/// string then holds the decoded characters.
#[verifier::external_body]
fn string_from_utf8(bytes: Vec<u8>) -> (r: Option<String>)
    ensures
        r is Some <==> valid_utf8(bytes@),
        r matches Some(s) ==> s@ == decode_utf8(bytes@),
{
    String::from_utf8(bytes).ok()
}

/// Encoder for a raw byte run behind its 32-bit varint byte count.
#[derive(Clone, Copy, PartialEq, Eq, Structural, Debug)]
pub struct CoreVecEncoderBytes;

impl Encode for CoreVecEncoderBytes {
    type Item = Vec<u8>;

    type V = Seq<u8>;

    open spec fn vw(i: Vec<u8>) -> Seq<u8> {
        i@
    }

    open spec fn enc_ok(v: Seq<u8>) -> bool {
        v.len() <= u32::MAX
    }

    open spec fn enc(v: Seq<u8>) -> Seq<u8> {
        uleb_bytes(v.len()) + v
    }

    fn encode(&mut self, item: &Vec<u8>, dst: &mut BytesMut) -> (r: Result<(), CodecError>) {
        let n = item.len();
        if n > u32::MAX as usize {
            return Err(CodecError::LengthOverflow);
        }
        let t = uleb_vec(n as u128);
        let ghost d0 = buf_view(*dst);
        buf_extend(dst, &t);
        buf_extend(dst, item);
        proof {
            assert(buf_view(*dst) =~= d0 + Self::enc(item@));
        }
        Ok(())
    }
}

/// Resumable decoder for a raw byte run behind its 32-bit varint byte
/// count: the count is read once and cached, then that many bytes are
/// split off whole.
pub struct CoreVecDecoderBytes {
    remaining: usize,
    head: Ghost<Seq<u8>>,
}

impl CoreVecDecoderBytes {
    /// A fresh decoder.
    pub fn new() -> (r: Self)
        ensures
            r.inv(),
            r.consumed() == Seq::<u8>::empty(),
    {
        CoreVecDecoderBytes { remaining: 0, head: Ghost(Seq::empty()) }
    }
}

impl Decode for CoreVecDecoderBytes {
    type Item = Vec<u8>;

    type V = Seq<u8>;

    open spec fn vw(i: Vec<u8>) -> Seq<u8> {
        i@
    }

    open spec fn dec(s: Seq<u8>) -> Decoded<Seq<u8>> {
        match uleb_dec(s, 32, 0) {
            Decoded::NeedMore => Decoded::NeedMore,
            Decoded::Fail(e) => Decoded::Fail(e),
            Decoded::Val(m, l) => if m > usize::MAX {
                Decoded::Fail(CodecError::LengthOverflow)
            } else if s.len() < l + m {
                Decoded::NeedMore
            } else {
                Decoded::Val(s.subrange(l as int, (l + m) as int), (l + m) as nat)
            },
        }
    }

    closed spec fn consumed(&self) -> Seq<u8> {
        self.head@
    }

    closed spec fn inv(&self) -> bool {
        if self.remaining == 0 {
            self.head@ == Seq::<u8>::empty()
        } else {
            uleb_dec(self.head@, 32, 0) == Decoded::<nat>::Val(
                self.remaining as nat,
                self.head@.len(),
            )
        }
    }

    proof fn lemma_dec_len(s: Seq<u8>) {
        lemma_uleb_dec_len(s, 32, 0);
    }

    proof fn lemma_dec_extend(s: Seq<u8>, t: Seq<u8>) {
        lemma_uleb_dec_extend(s, t, 32, 0);
        lemma_uleb_dec_len(s, 32, 0);
        match uleb_dec(s, 32, 0) {
            Decoded::Val(m, l) => {
                if m <= usize::MAX && s.len() >= l + m {
                    assert((s + t).subrange(l as int, (l + m) as int) =~= s.subrange(
                        l as int,
                        (l + m) as int,
                    ));
                }
            },
            _ => {},
        }
    }

    proof fn lemma_dec_empty() {
    }

    proof fn lemma_dec_restrict(s: Seq<u8>, j: int) {
        lemma_uleb_dec_len(s, 32, 0);
        match uleb_dec(s, 32, 0) {
            Decoded::Val(m, l) => {
                lemma_uleb_dec_restrict(s, 32, 0, j);
                if m <= usize::MAX && s.len() >= l + m {
                    assert(s.take(j).subrange(l as int, (l + m) as int) =~= s.subrange(
                        l as int,
                        (l + m) as int,
                    ));
                }
            },
            _ => {},
        }
    }

    proof fn lemma_inv_pending(&self) {
        if self.remaining > 0 {
            lemma_uleb_dec_len(self.head@, 32, 0);
        }
    }

    fn decode(&mut self, src: &mut BytesMut) -> (r: Result<Option<Vec<u8>>, CodecError>) {
        let ghost me0 = *self;
        let ghost s0 = buf_view(*src);
        let ghost total = me0.consumed() + s0;
        let _len = buf_len(src);
        if self.remaining == 0 {
            proof {
                assert(total =~= s0);
            }
            match uleb_decode_raw(src, 32) {
                Ok(Some((m, l))) => {
                    proof {
                        lemma2_to64();
                        lemma2_to64_rest();
                    }
                    buf_advance(src, l);
                    if m == 0 {
                        let out: Vec<u8> = Vec::new();
                        proof {
                            assert(s0.subrange(l as int, l as int) =~= out@);
                            assert(buf_view(*src) =~= total.skip(l as int));
                        }
                        return Ok(Some(out));
                    }
                    self.remaining = m as usize;
                    self.head = Ghost(s0.take(l as int));
                    proof {
                        lemma_uleb_dec_restrict(s0, 32, 0, l as int);
                    }
                },
                Ok(None) => {
                    proof {
                        lemma_uleb_dec_needmore(s0, 32, 0);
                        assert(self.consumed() + buf_view(*src) =~= total);
                    }
                    buf_reserve(src, 1);
                    return Ok(None);
                },
                Err(e) => {
                    return Err(e);
                },
            }
        }
        // the count is cached in `remaining`, its bytes in `head`
        let ghost h = self.head@;
        let ghost sv = buf_view(*src);
        proof {
            lemma_uleb_dec_extend(h, sv, 32, 0);
            lemma_uleb_dec_len(h, 32, 0);
            assert(h + sv =~= self.consumed() + sv);
            assert(h + sv =~= total);
        }
        let need = self.remaining;
        let len = buf_len(src);
        if len < need {
            buf_reserve(src, need - len);
            proof {
                assert(self.consumed() + buf_view(*src) =~= total);
            }
            return Ok(None);
        }
        let taken = buf_split_to(src, need);
        let out = buf_to_vec(&taken);
        self.remaining = 0;
        self.head = Ghost(Seq::empty());
        proof {
            assert(out@ =~= total.subrange(h.len() as int, h.len() + need));
            assert(buf_view(*src) =~= total.skip(h.len() + need));
            assert(self.consumed() =~= Seq::<u8>::empty());
        }
        Ok(Some(out))
    }
}

/// Encoder for a name: UTF-8 text behind its 32-bit varint byte length.
#[derive(Clone, Copy, PartialEq, Eq, Structural, Debug)]
pub struct CoreNameEncoder;

impl Encode for CoreNameEncoder {
    type Item = String;

    type V = Seq<char>;

    open spec fn vw(i: String) -> Seq<char> {
        i@
    }

    open spec fn enc_ok(v: Seq<char>) -> bool {
        encode_utf8(v).len() <= u32::MAX
    }

    open spec fn enc(v: Seq<char>) -> Seq<u8> {
        uleb_bytes(encode_utf8(v).len()) + encode_utf8(v)
    }

    fn encode(&mut self, item: &String, dst: &mut BytesMut) -> (r: Result<(), CodecError>) {
        let bytes = item.as_str().as_bytes_vec();
        let n = bytes.len();
        if n > u32::MAX as usize {
            return Err(CodecError::LengthOverflow);
        }
        let t = uleb_vec(n as u128);
        let ghost d0 = buf_view(*dst);
        buf_extend(dst, &t);
        buf_extend(dst, &bytes);
        proof {
            assert(buf_view(*dst) =~= d0 + Self::enc(item@));
        }
        Ok(())
    }
}

/// Resumable decoder for a name: the length-prefixed bytes are gathered as
/// a byte run, then validated as UTF-8 — short input is never a UTF-8
/// error, but invalid UTF-8 is terminal.
pub struct CoreNameDecoder(CoreVecDecoderBytes);

impl CoreNameDecoder {
    /// A fresh decoder.
    pub fn new() -> (r: Self)
        ensures
            r.inv(),
            r.consumed() == Seq::<u8>::empty(),
    {
        CoreNameDecoder(CoreVecDecoderBytes::new())
    }
}

impl Decode for CoreNameDecoder {
    type Item = String;

    type V = Seq<char>;

    open spec fn vw(i: String) -> Seq<char> {
        i@
    }

    open spec fn dec(s: Seq<u8>) -> Decoded<Seq<char>> {
        match CoreVecDecoderBytes::dec(s) {
            Decoded::NeedMore => Decoded::NeedMore,
            Decoded::Fail(e) => Decoded::Fail(e),
            Decoded::Val(bs, l) => if valid_utf8(bs) {
                Decoded::Val(decode_utf8(bs), l)
            } else {
                Decoded::Fail(CodecError::InvalidText)
            },
        }
    }

    closed spec fn consumed(&self) -> Seq<u8> {
        self.0.consumed()
    }

    closed spec fn inv(&self) -> bool {
        self.0.inv()
    }

    proof fn lemma_dec_len(s: Seq<u8>) {
        CoreVecDecoderBytes::lemma_dec_len(s);
    }

    proof fn lemma_dec_extend(s: Seq<u8>, t: Seq<u8>) {
        CoreVecDecoderBytes::lemma_dec_extend(s, t);
    }

    proof fn lemma_dec_empty() {
        CoreVecDecoderBytes::lemma_dec_empty();
    }

    proof fn lemma_dec_restrict(s: Seq<u8>, j: int) {
        CoreVecDecoderBytes::lemma_dec_restrict(s, j);
    }

    proof fn lemma_inv_pending(&self) {
        self.0.lemma_inv_pending();
    }

    fn decode(&mut self, src: &mut BytesMut) -> (r: Result<Option<String>, CodecError>) {
        match self.0.decode(src) {
            Ok(Some(bytes)) => {
                match string_from_utf8(bytes) {
                    Some(s) => Ok(Some(s)),
                    None => Err(CodecError::InvalidText),
                }
            },
            Ok(None) => Ok(None),
            Err(e) => Err(e),
        }
    }
}


/// The elements of a vector, encoded back to back.
pub open spec fn enc_elems<E: Encode>(v: Seq<E::V>) -> Seq<u8>
    decreases v.len(),
{
    if v.len() == 0 {
        Seq::empty()
    } else {
        E::enc(v[0]) + enc_elems::<E>(v.drop_first())
    }
}

/// Splitting a view sequence splits its encoding.
proof fn lemma_enc_elems_split<E: Encode>(v: Seq<E::V>, i: int)
    requires
        0 <= i <= v.len(),
    ensures
        enc_elems::<E>(v) == enc_elems::<E>(v.take(i)) + enc_elems::<E>(v.skip(i)),
    decreases i,
{
    if i == 0 {
        assert(v.take(0) =~= Seq::<E::V>::empty());
        assert(v.skip(0) =~= v);
        assert(enc_elems::<E>(v) =~= enc_elems::<E>(v.take(0)) + enc_elems::<E>(v.skip(0)));
    } else {
        lemma_enc_elems_split::<E>(v.drop_first(), i - 1);
        assert(v.take(i)[0] == v[0]);
        assert(v.take(i).drop_first() =~= v.drop_first().take(i - 1));
        assert(v.skip(i) =~= v.drop_first().skip(i - 1));
        assert(enc_elems::<E>(v.take(i)) == E::enc(v[0]) + enc_elems::<E>(
            v.drop_first().take(i - 1),
        ));
        assert(E::enc(v[0]) + (enc_elems::<E>(v.drop_first().take(i - 1)) + enc_elems::<E>(
            v.drop_first().skip(i - 1),
        )) =~= (E::enc(v[0]) + enc_elems::<E>(v.drop_first().take(i - 1))) + enc_elems::<E>(
            v.drop_first().skip(i - 1),
        ));
    }
}

/// Encoder for a vector: a 32-bit varint element count, then each element
/// through the element encoder, back to back.
#[derive(Clone, Copy, PartialEq, Eq, Debug)]
pub struct CoreVecEncoder<E>(pub E);

impl<E: Encode> Encode for CoreVecEncoder<E> {
    type Item = Vec<E::Item>;

    type V = Seq<E::V>;

    open spec fn vw(i: Vec<E::Item>) -> Seq<E::V> {
        i@.map_values(|x: E::Item| E::vw(x))
    }

    open spec fn enc_ok(v: Seq<E::V>) -> bool {
        v.len() <= u32::MAX && (forall|i: int| 0 <= i < v.len() ==> E::enc_ok(#[trigger] v[i]))
    }

    open spec fn enc(v: Seq<E::V>) -> Seq<u8> {
        uleb_bytes(v.len()) + enc_elems::<E>(v)
    }

    fn encode(&mut self, item: &Vec<E::Item>, dst: &mut BytesMut) -> (r: Result<(), CodecError>) {
        let ghost vs = Self::vw(*item);
        let n = item.len();
        if n > u32::MAX as usize {
            return Err(CodecError::LengthOverflow);
        }
        let t = uleb_vec(n as u128);
        let ghost d0 = buf_view(*dst);
        buf_extend(dst, &t);
        let mut i: usize = 0;
        proof {
            assert(enc_elems::<E>(vs.take(0)) =~= Seq::<u8>::empty());
            assert(buf_view(*dst) =~= d0 + uleb_bytes(vs.len()) + enc_elems::<E>(vs.take(0)));
        }
        loop
            invariant
                i <= item@.len(),
                vs == Self::vw(*item),
                vs.len() == item@.len(),
                vs.len() <= u32::MAX,
                buf_view(*dst) == d0 + uleb_bytes(vs.len()) + enc_elems::<E>(vs.take(i as int)),
                forall|k: int| 0 <= k < i ==> E::enc_ok(#[trigger] vs[k]),
                d0.len() + Self::enc(vs).len() <= usize::MAX,
                d0 == buf_view(*old(dst)),
            decreases item@.len() - i,
        {
            if i >= item.len() {
                proof {
                    assert(vs.take(vs.len() as int) =~= vs);
                    assert(buf_view(*dst) =~= d0 + Self::enc(vs));
                }
                return Ok(());
            }
            proof {
                lemma_enc_elems_split::<E>(vs, i as int);
                assert(vs.skip(i as int)[0] == vs[i as int]);
                assert(enc_elems::<E>(vs.skip(i as int)) == E::enc(vs[i as int]) + enc_elems::<
                    E,
                >(vs.skip(i as int).drop_first()));
                assert(E::vw(item@[i as int]) == vs[i as int]);
            }
            match self.0.encode(&item[i], dst) {
                Ok(()) => {
                    proof {
                        lemma_enc_elems_split::<E>(vs.take(i as int + 1), i as int);
                        assert(vs.take(i as int + 1).take(i as int) =~= vs.take(i as int));
                        assert(vs.take(i as int + 1).skip(i as int) =~= seq![vs[i as int]]);
                        assert(enc_elems::<E>(seq![vs[i as int]]) =~= E::enc(vs[i as int])) by {
                            assert(seq![vs[i as int]].drop_first() =~= Seq::<E::V>::empty());
                            assert(enc_elems::<E>(Seq::<E::V>::empty()) == Seq::<u8>::empty());
                            assert(seq![vs[i as int]][0] == vs[i as int]);
                            assert(E::enc(vs[i as int]) + Seq::<u8>::empty() =~= E::enc(
                                vs[i as int],
                            ));
                        }
                        assert(buf_view(*dst) =~= d0 + uleb_bytes(vs.len()) + enc_elems::<E>(
                            vs.take(i as int + 1),
                        ));
                    }
                    i = i + 1;
                },
                Err(e) => {
                    return Err(e);
                },
            }
        }
    }
}


/// Decode `m` elements back to back from the front of `s`.
pub open spec fn dec_elems<T: Decode>(s: Seq<u8>, m: nat) -> Decoded<Seq<T::V>>
    decreases m,
{
    if m == 0 {
        Decoded::Val(Seq::empty(), 0)
    } else {
        match T::dec(s) {
            Decoded::NeedMore => Decoded::NeedMore,
            Decoded::Fail(e) => Decoded::Fail(e),
            Decoded::Val(v, l) => match dec_elems::<T>(s.skip(l as int), (m - 1) as nat) {
                Decoded::NeedMore => Decoded::NeedMore,
                Decoded::Fail(e) => Decoded::Fail(e),
                Decoded::Val(vs, l2) => Decoded::Val(seq![v] + vs, (l + l2) as nat),
            },
        }
    }
}

/// Decoded elements span no more bytes than the stream holds, and as many
/// values as asked for.
proof fn lemma_dec_elems_len<T: Decode>(s: Seq<u8>, m: nat)
    ensures
        dec_elems::<T>(s, m) matches Decoded::Val(vs, l) ==> l <= s.len() && vs.len() == m,
    decreases m,
{
    if m > 0 {
        T::lemma_dec_len(s);
        match T::dec(s) {
            Decoded::Val(v, l) => {
                lemma_dec_elems_len::<T>(s.skip(l as int), (m - 1) as nat);
            },
            _ => {},
        }
    }
}

/// A determined element run does not change when more bytes arrive.
proof fn lemma_dec_elems_extend<T: Decode>(s: Seq<u8>, t: Seq<u8>, m: nat)
    ensures
        !(dec_elems::<T>(s, m) is NeedMore) ==> dec_elems::<T>(s + t, m) == dec_elems::<T>(s, m),
    decreases m,
{
    if m > 0 {
        T::lemma_dec_extend(s, t);
        T::lemma_dec_len(s);
        match T::dec(s) {
            Decoded::Val(v, l) => {
                assert((s + t).skip(l as int) =~= s.skip(l as int) + t);
                lemma_dec_elems_extend::<T>(s.skip(l as int), t, (m - 1) as nat);
            },
            _ => {},
        }
    }
}

/// A decoded element run is determined by the bytes it spans.
proof fn lemma_dec_elems_restrict<T: Decode>(s: Seq<u8>, j: int, m: nat)
    requires
        dec_elems::<T>(s, m) matches Decoded::Val(vs, l) && l <= j <= s.len(),
    ensures
        dec_elems::<T>(s.take(j), m) == dec_elems::<T>(s, m),
    decreases m,
{
    if m > 0 {
        T::lemma_dec_len(s);
        match T::dec(s) {
            Decoded::Val(v, l1) => {
                lemma_dec_elems_len::<T>(s.skip(l1 as int), (m - 1) as nat);
                T::lemma_dec_restrict(s, j);
                assert(s.take(j).skip(l1 as int) =~= s.skip(l1 as int).take(j - l1));
                lemma_dec_elems_restrict::<T>(s.skip(l1 as int), j - l1, (m - 1) as nat);
            },
            _ => {},
        }
    }
}

/// A completed element run stitches onto whatever follows: decoding `m`
/// elements from the run's bytes plus a rest behaves as the `k` completed
/// elements followed by `m - k` elements from the rest.
proof fn lemma_dec_elems_append<T: Decode>(s: Seq<u8>, vs: Seq<T::V>, k: nat, rest: Seq<u8>, m: nat)
    requires
        dec_elems::<T>(s, k) == Decoded::<Seq<T::V>>::Val(vs, s.len() as nat),
        k <= m,
    ensures
        dec_elems::<T>(s + rest, m) == (match dec_elems::<T>(rest, (m - k) as nat) {
            Decoded::NeedMore => Decoded::<Seq<T::V>>::NeedMore,
            Decoded::Fail(e) => Decoded::<Seq<T::V>>::Fail(e),
            Decoded::Val(vs2, l2) => Decoded::<Seq<T::V>>::Val(vs + vs2, (s.len() + l2) as nat),
        }),
    decreases k,
{
    if k == 0 {
        assert(s.len() == 0);
        assert(s + rest =~= rest);
        assert(vs =~= Seq::<T::V>::empty());
        match dec_elems::<T>(rest, m) {
            Decoded::Val(vs2, l2) => {
                assert(vs + vs2 =~= vs2);
            },
            _ => {},
        }
    } else {
        T::lemma_dec_len(s);
        match T::dec(s) {
            Decoded::Val(v, l1) => {
                T::lemma_dec_extend(s, rest);
                assert((s + rest).skip(l1 as int) =~= s.skip(l1 as int) + rest);
                match dec_elems::<T>(s.skip(l1 as int), (k - 1) as nat) {
                    Decoded::Val(tail, ltail) => {
                        assert(ltail == s.skip(l1 as int).len());
                        lemma_dec_elems_append::<T>(
                            s.skip(l1 as int),
                            tail,
                            (k - 1) as nat,
                            rest,
                            (m - 1) as nat,
                        );
                        match dec_elems::<T>(rest, (m - k) as nat) {
                            Decoded::Val(vs2, l2) => {
                                assert(seq![v] + (tail + vs2) =~= vs + vs2);
                            },
                            _ => {},
                        }
                    },
                    _ => {
                        assert(false);
                    },
                }
            },
            _ => {
                assert(false);
            },
        }
    }
}

/// Resumable decoder for a vector: the 32-bit varint element count is read
/// once and cached, then elements are decoded one at a time, each appended
/// to the result and never decoded twice; a zero count yields an empty
/// vector at once.
pub struct CoreVecDecoder<T: Decode> {
    dec: T,
    ret: Vec<T::Item>,
    cap: usize,
    head: Ghost<Seq<u8>>,
}

impl<T: Decode> CoreVecDecoder<T> {
    /// A fresh decoder around a fresh element decoder.
    pub fn new(decoder: T) -> (r: Self)
        requires
            decoder.inv(),
            decoder.consumed() == Seq::<u8>::empty(),
        ensures
            r.inv(),
            r.consumed() == Seq::<u8>::empty(),
    {
        Self { dec: decoder, ret: Vec::new(), cap: 0, head: Ghost(Seq::empty()) }
    }

    /// The element decoder back.
    pub fn into_inner(self) -> T {
        self.dec
    }
}

impl<T: Decode> Decode for CoreVecDecoder<T> {
    type Item = Vec<T::Item>;

    type V = Seq<T::V>;

    open spec fn vw(i: Vec<T::Item>) -> Seq<T::V> {
        i@.map_values(|x: T::Item| T::vw(x))
    }

    open spec fn dec(s: Seq<u8>) -> Decoded<Seq<T::V>> {
        match uleb_dec(s, 32, 0) {
            Decoded::NeedMore => Decoded::NeedMore,
            Decoded::Fail(e) => Decoded::Fail(e),
            Decoded::Val(m, l) => if m > usize::MAX {
                Decoded::Fail(CodecError::LengthOverflow)
            } else {
                match dec_elems::<T>(s.skip(l as int), m) {
                    Decoded::NeedMore => Decoded::NeedMore,
                    Decoded::Fail(e) => Decoded::Fail(e),
                    Decoded::Val(vs, l2) => Decoded::Val(vs, (l + l2) as nat),
                }
            },
        }
    }

    closed spec fn consumed(&self) -> Seq<u8> {
        self.head@ + self.dec.consumed()
    }

    closed spec fn inv(&self) -> bool {
        &&& self.dec.inv()
        &&& if self.cap == 0 {
            self.ret@.len() == 0 && self.head@ == Seq::<u8>::empty() && self.dec.consumed()
                == Seq::<u8>::empty()
        } else {
            match uleb_dec(self.head@, 32, 0) {
                Decoded::Val(m, l) => {
                    &&& m == self.ret@.len() + self.cap
                    &&& m <= usize::MAX
                    &&& l <= self.head@.len()
                    &&& dec_elems::<T>(self.head@.skip(l as int), self.ret@.len() as nat)
                        == Decoded::<Seq<T::V>>::Val(
                        self.ret@.map_values(|x: T::Item| T::vw(x)),
                        (self.head@.len() - l) as nat,
                    )
                },
                _ => false,
            }
        }
    }

    proof fn lemma_dec_len(s: Seq<u8>) {
        lemma_uleb_dec_len(s, 32, 0);
        match uleb_dec(s, 32, 0) {
            Decoded::Val(m, l) => {
                if m <= usize::MAX {
                    lemma_dec_elems_len::<T>(s.skip(l as int), m);
                }
            },
            _ => {},
        }
    }

    proof fn lemma_dec_extend(s: Seq<u8>, t: Seq<u8>) {
        lemma_uleb_dec_extend(s, t, 32, 0);
        lemma_uleb_dec_len(s, 32, 0);
        match uleb_dec(s, 32, 0) {
            Decoded::Val(m, l) => {
                if m <= usize::MAX {
                    assert((s + t).skip(l as int) =~= s.skip(l as int) + t);
                    lemma_dec_elems_extend::<T>(s.skip(l as int), t, m);
                }
            },
            _ => {},
        }
    }

    proof fn lemma_dec_empty() {
    }

    proof fn lemma_dec_restrict(s: Seq<u8>, j: int) {
        lemma_uleb_dec_len(s, 32, 0);
        match uleb_dec(s, 32, 0) {
            Decoded::Val(m, l) => {
                lemma_uleb_dec_restrict(s, 32, 0, j);
                if m <= usize::MAX {
                    lemma_dec_elems_len::<T>(s.skip(l as int), m);
                    assert(s.take(j).skip(l as int) =~= s.skip(l as int).take(j - l));
                    match dec_elems::<T>(s.skip(l as int), m) {
                        Decoded::Val(vs, l2) => {
                            lemma_dec_elems_restrict::<T>(s.skip(l as int), j - l, m);
                        },
                        _ => {},
                    }
                }
            },
            _ => {},
        }
    }

    proof fn lemma_inv_pending(&self) {
        if self.cap == 0 {
            assert(self.consumed() =~= Seq::<u8>::empty());
        } else {
            let h = self.head@;
            let tc = self.dec.consumed();
            self.dec.lemma_inv_pending();
            lemma_uleb_dec_extend(h, tc, 32, 0);
            lemma_uleb_dec_len(h, 32, 0);
            assert(self.consumed() == h + tc);
            match uleb_dec(h, 32, 0) {
                Decoded::Val(m, l) => {
                    assert((h + tc).skip(l as int) =~= h.skip(l as int) + tc);
                    lemma_dec_elems_append::<T>(
                        h.skip(l as int),
                        self.ret@.map_values(|x: T::Item| T::vw(x)),
                        self.ret@.len() as nat,
                        tc,
                        m,
                    );
                },
                _ => {},
            }
        }
    }

    fn decode(&mut self, src: &mut BytesMut) -> (r: Result<Option<Vec<T::Item>>, CodecError>) {
        let ghost me0 = *self;
        let ghost s0 = buf_view(*src);
        let ghost total = me0.consumed() + s0;
        let _len = buf_len(src);
        if self.cap == 0 {
            proof {
                assert(total =~= s0);
            }
            match uleb_decode_raw(src, 32) {
                Ok(Some((m, l))) => {
                    proof {
                        lemma2_to64();
                        lemma2_to64_rest();
                    }
                    buf_advance(src, l);
                    if m == 0 {
                        let out: Vec<T::Item> = Vec::new();
                        proof {
                            assert(out@.map_values(|x: T::Item| T::vw(x)) =~= Seq::<
                                T::V,
                            >::empty());
                            assert(buf_view(*src) =~= total.skip(l as int));
                        }
                        return Ok(Some(out));
                    }
                    self.cap = m as usize;
                    self.head = Ghost(s0.take(l as int));
                    proof {
                        lemma_uleb_dec_restrict(s0, 32, 0, l as int);
                        assert(self.head@.skip(l as int) =~= Seq::<u8>::empty());
                        assert(self.ret@.map_values(|x: T::Item| T::vw(x)) =~= Seq::<
                            T::V,
                        >::empty());
                        assert(buf_view(*src) =~= s0.skip(l as int));
                    }
                },
                Ok(None) => {
                    proof {
                        lemma_uleb_dec_needmore(s0, 32, 0);
                        assert(self.consumed() + buf_view(*src) =~= total);
                    }
                    buf_reserve(src, 1);
                    return Ok(None);
                },
                Err(e) => {
                    return Err(e);
                },
            }
        }
        proof {
            assert(self.consumed() + buf_view(*src) =~= total);
        }
        #[verifier::loop_isolation(false)]
        loop
            invariant
                self.inv(),
                self.cap > 0,
                self.consumed() + buf_view(*src) == total,
            decreases self.cap,
        {
            let ghost h = self.head@;
            let ghost vs0 = self.ret@.map_values(|x: T::Item| T::vw(x));
            let ghost k0 = self.ret@.len();
            let ghost tc = self.dec.consumed();
            let ghost sv = buf_view(*src);
            let ghost m_l = (match uleb_dec(h, 32, 0) {
                Decoded::Val(m, l) => (m, l),
                _ => (0, 0),
            });
            proof {
                lemma_uleb_dec_len(h, 32, 0);
                lemma_uleb_dec_extend(h, tc + sv, 32, 0);
                assert(h + (tc + sv) =~= total);
                assert((h + (tc + sv)).skip(m_l.1 as int) =~= h.skip(m_l.1 as int) + (tc + sv));
            }
            match self.dec.decode(src) {
                Ok(Some(v)) => {
                    proof {
                        T::lemma_dec_len(tc + sv);
                    }
                    let ghost tl = (match T::dec(tc + sv) {
                        Decoded::Val(tv, tl) => tl,
                        _ => 0,
                    });
                    let ghost e = (tc + sv).take(tl as int);
                    proof {
                        T::lemma_dec_restrict(tc + sv, tl as int);
                        assert(T::dec(e) == Decoded::<T::V>::Val(T::vw(v), e.len() as nat));
                    }
                    self.ret.push(v);
                    self.head = Ghost(h + e);
                    let newcap = self.cap - 1;
                    self.cap = newcap;
                    proof {
                        // the run of completed elements now spans `head`
                        lemma_uleb_dec_extend(h, e, 32, 0);
                        assert((h + e).skip(m_l.1 as int) =~= h.skip(m_l.1 as int) + e);
                        lemma_dec_elems_append::<T>(
                            h.skip(m_l.1 as int),
                            vs0,
                            k0 as nat,
                            e,
                            (k0 + 1) as nat,
                        );
                        assert(dec_elems::<T>(e, 1) == Decoded::<Seq<T::V>>::Val(
                            seq![T::vw(v)],
                            e.len() as nat,
                        )) by {
                            assert(e.skip(e.len() as int) =~= Seq::<u8>::empty());
                            assert(dec_elems::<T>(e.skip(e.len() as int), 0) == Decoded::<
                                Seq<T::V>,
                            >::Val(Seq::empty(), 0));
                            assert(seq![T::vw(v)] + Seq::<T::V>::empty() =~= seq![T::vw(v)]);
                        }
                        assert(vs0 + seq![T::vw(v)] =~= self.ret@.map_values(
                            |x: T::Item| T::vw(x),
                        ));
                        assert(self.consumed() + buf_view(*src) =~= total) by {
                            assert(e + (tc + sv).skip(tl as int) =~= tc + sv);
                        }
                    }
                    if newcap == 0 {
                        let mut out: Vec<T::Item> = Vec::new();
                        core::mem::swap(&mut out, &mut self.ret);
                        self.head = Ghost(Seq::empty());
                        proof {
                            let h2 = h + e;
                            let sv2 = buf_view(*src);
                            lemma_uleb_dec_extend(h2, sv2, 32, 0);
                            assert(h2 + sv2 =~= total);
                            assert((h2 + sv2).skip(m_l.1 as int) =~= h2.skip(m_l.1 as int)
                                + sv2);
                            lemma_dec_elems_append::<T>(
                                h2.skip(m_l.1 as int),
                                vs0 + seq![T::vw(v)],
                                (k0 + 1) as nat,
                                sv2,
                                (k0 + 1) as nat,
                            );
                            assert((vs0 + seq![T::vw(v)]) + Seq::<T::V>::empty() =~= vs0 + seq![
                                T::vw(v),
                            ]);
                            assert(buf_view(*src) =~= total.skip(h2.len() as int));
                            assert(self.consumed() =~= Seq::<u8>::empty());
                        }
                        return Ok(Some(out));
                    }
                },
                Ok(None) => {
                    proof {
                        lemma_dec_elems_append::<T>(
                            h.skip(m_l.1 as int),
                            vs0,
                            k0 as nat,
                            tc + sv,
                            m_l.0,
                        );
                        assert(self.consumed() + buf_view(*src) =~= h + (self.dec.consumed()
                            + buf_view(*src)));
                    }
                    return Ok(None);
                },
                Err(e) => {
                    proof {
                        lemma_dec_elems_append::<T>(
                            h.skip(m_l.1 as int),
                            vs0,
                            k0 as nat,
                            tc + sv,
                            m_l.0,
                        );
                    }
                    return Err(e);
                },
            }
        }
    }
}


/// Text round trip: decoding an encoded name yields the characters back,
/// spanning exactly the encoding.
pub proof fn lemma_name_round_trip(v: Seq<char>)
    requires
        encode_utf8(v).len() <= u32::MAX,
    ensures
        CoreNameDecoder::dec(<CoreNameEncoder as Encode>::enc(v)) == Decoded::<Seq<char>>::Val(
            v,
            <CoreNameEncoder as Encode>::enc(v).len() as nat,
        ),
{
    lemma2_to64();
    lemma2_to64_rest();
    let bs = encode_utf8(v);
    let p = uleb_bytes(bs.len());
    lemma_uleb_round_trip(bs.len(), 32);
    lemma_uleb_dec_extend(p, bs, 32, 0);
    assert(p + bs =~= <CoreNameEncoder as Encode>::enc(v));
    assert((p + bs).subrange(p.len() as int, (p.len() + bs.len()) as int) =~= bs);
    vstd::utf8::encode_utf8_valid_utf8(v);
    vstd::utf8::encode_utf8_decode_utf8(v);
}

} // verus!
