use tokio_util::bytes::BytesMut;

use wasm_codec::codec::{CodecError, Decode};
use wasm_codec::varint::{
    put_i128_leb128, put_i16_leb128, put_i32_leb128, put_i64_leb128, put_i8_leb128,
    put_u128_leb128, put_u16_leb128, put_u32_leb128, put_u64_leb128, put_u8_leb128,
    sleb_decode_raw, uleb_decode_raw, Leb128DecoderU128, Leb128DecoderU16, Leb128DecoderU32,
    Leb128DecoderU64, Leb128DecoderU8, Leb128Encoder,
};

fn buf(bytes: &[u8]) -> BytesMut {
    BytesMut::from(bytes)
}

#[test]
fn unsigned_leb128() {
    const ENCODED: [u8; 3] = [0xe5, 0x8e, 0x26];

    let v = Leb128DecoderU32
        .decode(&mut buf(&ENCODED))
        .expect("failed to decode u32");
    assert_eq!(v, Some(624_485));

    let v = Leb128DecoderU64
        .decode(&mut buf(&ENCODED))
        .expect("failed to decode u64");
    assert_eq!(v, Some(624_485));

    let mut out = vec![];
    put_u32_leb128(&mut out, 624_485);
    assert_eq!(out, ENCODED);

    let mut out = vec![];
    put_u64_leb128(&mut out, 624_485);
    assert_eq!(out, ENCODED);

    let v = Leb128DecoderU8
        .decode(&mut buf(&[0xff, 0x01]))
        .expect("failed to read u8");
    assert_eq!(v, Some(u8::MAX));

    let v = Leb128DecoderU8
        .decode(&mut buf(&[0x7f]))
        .expect("failed to read u8");
    assert_eq!(v, Some(0x7f));

    let v = Leb128DecoderU8
        .decode(&mut buf(&[0xff, 0x00]))
        .expect("failed to read u8");
    assert_eq!(v, Some(0x7f));

    Leb128DecoderU8
        .decode(&mut buf(&[0xff, 0x02]))
        .expect_err("u8 read should have failed, since it encoded 9 bits");

    let v = Leb128DecoderU16
        .decode(&mut buf(&[0xff, 0xff, 0x01]))
        .expect("failed to read u16");
    assert_eq!(v, Some(0x7fff));

    let v = Leb128DecoderU16
        .decode(&mut buf(&[0xff, 0xff, 0x02]))
        .expect("failed to read u16");
    assert_eq!(v, Some(0xbfff));

    let v = Leb128DecoderU16
        .decode(&mut buf(&[0xff, 0xff, 0x03]))
        .expect("failed to read u16");
    assert_eq!(v, Some(u16::MAX));

    Leb128DecoderU16
        .decode(&mut buf(&[0xff, 0xff, 0x04]))
        .expect_err("u16 read should have failed, since it encoded 17 bits");

    let v = Leb128DecoderU32
        .decode(&mut buf(&[0xff, 0xff, 0xff, 0xff, 0x0f]))
        .expect("failed to read u32");
    assert_eq!(v, Some(u32::MAX));

    Leb128DecoderU32
        .decode(&mut buf(&[0xff, 0xff, 0xff, 0xff, 0x10]))
        .expect_err("u32 read should have failed, since it encoded 33 bits");

    let v = Leb128DecoderU64
        .decode(&mut buf(&[
            0xff, 0xff, 0xff, 0xff, 0xff, 0xff, 0xff, 0xff, 0xff, 0x01,
        ]))
        .expect("failed to read u64");
    assert_eq!(v, Some(u64::MAX));

    Leb128DecoderU64
        .decode(&mut buf(&[
            0xff, 0xff, 0xff, 0xff, 0xff, 0xff, 0xff, 0xff, 0xff, 0x02,
        ]))
        .expect_err("u64 read should have failed, since it encoded 65 bits");

    let v = Leb128DecoderU128
        .decode(&mut buf(&[
            0xff, 0xff, 0xff, 0xff, 0xff, 0xff, 0xff, 0xff, 0xff, 0xff, 0xff, 0xff, 0xff, 0xff,
            0xff, 0xff, 0xff, 0xff, 0x03,
        ]))
        .expect("failed to read u128");
    assert_eq!(v, Some(u128::MAX));

    Leb128DecoderU128
        .decode(&mut buf(&[
            0xff, 0xff, 0xff, 0xff, 0xff, 0xff, 0xff, 0xff, 0xff, 0xff, 0xff, 0xff, 0xff, 0xff,
            0xff, 0xff, 0xff, 0xff, 0x04,
        ]))
        .expect_err("u128 read should have failed, since it encoded 129 bits");
}

fn read_i8(bytes: &[u8]) -> Result<Option<i8>, CodecError> {
    let mut b = buf(bytes);
    match sleb_decode_raw(&b, 8)? {
        None => Ok(None),
        Some((bits, l)) => {
            let _ = b.split_to(l);
            Ok(Some(wasm_codec::varint::bits_to_i8(bits as u8)))
        }
    }
}

fn read_i16(bytes: &[u8]) -> Result<Option<i16>, CodecError> {
    match sleb_decode_raw(&buf(bytes), 16)? {
        None => Ok(None),
        Some((bits, _)) => Ok(Some(wasm_codec::varint::bits_to_i16(bits))),
    }
}

fn read_i32(bytes: &[u8]) -> Result<Option<i32>, CodecError> {
    match sleb_decode_raw(&buf(bytes), 32)? {
        None => Ok(None),
        Some((bits, _)) => Ok(Some(wasm_codec::varint::bits_to_i32(bits))),
    }
}

fn read_i64(bytes: &[u8]) -> Result<Option<i64>, CodecError> {
    match sleb_decode_raw(&buf(bytes), 64)? {
        None => Ok(None),
        Some((bits, _)) => Ok(Some(wasm_codec::varint::bits_to_i64(bits))),
    }
}

fn read_i128(bytes: &[u8]) -> Result<Option<i128>, CodecError> {
    match sleb_decode_raw(&buf(bytes), 128)? {
        None => Ok(None),
        Some((bits, _)) => Ok(Some(wasm_codec::varint::bits_to_i128(bits))),
    }
}

#[test]
fn signed_leb128() {
    const ENCODED: [u8; 3] = [0xc0, 0xbb, 0x78];

    let v = read_i32(&ENCODED).expect("failed to read i32");
    assert_eq!(v, Some(-123_456));

    let v = read_i64(&ENCODED).expect("failed to read i64");
    assert_eq!(v, Some(-123_456));

    let mut out = vec![];
    put_i32_leb128(&mut out, -123_456);
    assert_eq!(out, ENCODED);

    let mut out = vec![];
    put_i64_leb128(&mut out, -123_456);
    assert_eq!(out, ENCODED);

    let mut out = vec![];
    put_i64_leb128(&mut out, -1);
    assert_eq!(out, [0x7f]);

    let mut out = vec![];
    put_i64_leb128(&mut out, -2);
    assert_eq!(out, [0x7e]);

    let v = read_i8(&[0x7f]).expect("failed to read i8");
    assert_eq!(v, Some(-1));

    let v = read_i8(&[0xff, 0x00]).expect("failed to read i8");
    assert_eq!(v, Some(0x7f));

    // the terminal group must be a correct sign extension: `0x01` leaves
    // stray zero bits above the sign
    read_i8(&[0xff, 0x01]).expect_err("i8 read should have failed: stray bits in terminal group");

    read_i8(&[0xff, 0x02]).expect_err("i8 read should have failed, since it encoded 9 bits");

    let v = read_i16(&[0xff, 0xff, 0x01]).expect("failed to read i16");
    assert_eq!(v, Some(0x7fff));

    read_i16(&[0xff, 0xff, 0x04])
        .expect_err("i16 read should have failed, since it encoded 17 bits");

    let v = read_i32(&[0x7f]).expect("failed to read i32");
    assert_eq!(v, Some(-1));

    let v = read_i32(&[0x7e]).expect("failed to read i32");
    assert_eq!(v, Some(-2));

    // -1 and -2 at full five-group width, sign-extended terminal group
    let v = read_i32(&[0xff, 0xff, 0xff, 0xff, 0x7f]).expect("failed to read i32");
    assert_eq!(v, Some(-1));

    let v = read_i32(&[0xfe, 0xff, 0xff, 0xff, 0x7f]).expect("failed to read i32");
    assert_eq!(v, Some(-2));

    read_i32(&[0xff, 0xff, 0xff, 0xff, 0x10])
        .expect_err("i32 read should have failed, since it encoded 33 bits");

    read_i64(&[0xff, 0xff, 0xff, 0xff, 0xff, 0xff, 0xff, 0xff, 0xff, 0x02])
        .expect_err("i64 read should have failed, since it encoded 65 bits");

    read_i128(&[
        0xff, 0xff, 0xff, 0xff, 0xff, 0xff, 0xff, 0xff, 0xff, 0xff, 0xff, 0xff, 0xff, 0xff, 0xff,
        0xff, 0xff, 0xff, 0x04,
    ])
    .expect_err("i128 read should have failed, since it encoded 129 bits");
}

#[test]
fn unsigned() {
    let v = uleb_decode_raw(&buf(&[0x01]), 2).expect("failed to read u2");
    assert_eq!(v, Some((1, 1)));

    let v = uleb_decode_raw(&buf(&[0x02]), 2).expect("failed to read u2");
    assert_eq!(v, Some((2, 1)));

    // the full two bits are usable: 3 fits a 2-bit width
    let v = uleb_decode_raw(&buf(&[0x03]), 2).expect("failed to read u2");
    assert_eq!(v, Some((3, 1)));

    uleb_decode_raw(&buf(&[0b100]), 2)
        .expect_err("u2 read should have failed, since it encoded 3 bits");

    uleb_decode_raw(&buf(&[0x80, 0x80, 0x01]), 9)
        .expect_err("u9 read should have failed, since it used over 9 bits");

    let v = uleb_decode_raw(&buf(&[0x80, 0x80, 0x80, 0x80, 0x80, 0x01]), 64)
        .expect("failed to read u64");
    assert_eq!(v, Some((0b1000_0000_0000_0000_0000_0000_0000_0000_0000, 6)));
}

#[test]
fn round_trip_all_widths() {
    for v in [0u8, 1, 0x7f, 0x80, u8::MAX] {
        let mut out = vec![];
        put_u8_leb128(&mut out, v);
        let got = Leb128DecoderU8.decode(&mut buf(&out)).unwrap();
        assert_eq!(got, Some(v));
    }
    for v in [0u16, 1, 0x7f, 0x80, 0x3fff, 0x4000, u16::MAX] {
        let mut out = vec![];
        put_u16_leb128(&mut out, v);
        let got = Leb128DecoderU16.decode(&mut buf(&out)).unwrap();
        assert_eq!(got, Some(v));
    }
    for v in [0u32, 1, 624_485, u32::MAX] {
        let mut out = vec![];
        put_u32_leb128(&mut out, v);
        let got = Leb128DecoderU32.decode(&mut buf(&out)).unwrap();
        assert_eq!(got, Some(v));
    }
    for v in [0u64, 1, 1 << 35, u64::MAX] {
        let mut out = vec![];
        put_u64_leb128(&mut out, v);
        let got = Leb128DecoderU64.decode(&mut buf(&out)).unwrap();
        assert_eq!(got, Some(v));
    }
    for v in [0u128, 1, 1 << 100, u128::MAX] {
        let mut out = vec![];
        put_u128_leb128(&mut out, v);
        let got = Leb128DecoderU128.decode(&mut buf(&out)).unwrap();
        assert_eq!(got, Some(v));
    }
    for v in [i8::MIN, -65, -64, -2, -1, 0, 1, 63, 64, i8::MAX] {
        let mut out = vec![];
        put_i8_leb128(&mut out, v);
        assert_eq!(read_i8(&out).unwrap(), Some(v));
    }
    for v in [i16::MIN, -8193, -1, 0, 8191, i16::MAX] {
        let mut out = vec![];
        put_i16_leb128(&mut out, v);
        assert_eq!(read_i16(&out).unwrap(), Some(v));
    }
    for v in [i32::MIN, -123_456, -1, 0, 123_456, i32::MAX] {
        let mut out = vec![];
        put_i32_leb128(&mut out, v);
        assert_eq!(read_i32(&out).unwrap(), Some(v));
    }
    for v in [i64::MIN, -1, 0, 1 << 40, i64::MAX] {
        let mut out = vec![];
        put_i64_leb128(&mut out, v);
        assert_eq!(read_i64(&out).unwrap(), Some(v));
    }
    for v in [i128::MIN, -1, 0, 1 << 99, i128::MAX] {
        let mut out = vec![];
        put_i128_leb128(&mut out, v);
        assert_eq!(read_i128(&out).unwrap(), Some(v));
    }
}

#[test]
fn overflow_boundary() {
    // 2^8 - 1 fits an 8-bit width, one more significant bit does not
    let v = Leb128DecoderU8.decode(&mut buf(&[0xff, 0x01])).unwrap();
    assert_eq!(v, Some(255));
    let e = Leb128DecoderU8.decode(&mut buf(&[0xff, 0x02])).unwrap_err();
    assert_eq!(e, CodecError::Overflow(8));

    let v = Leb128DecoderU32
        .decode(&mut buf(&[0xff, 0xff, 0xff, 0xff, 0x0f]))
        .unwrap();
    assert_eq!(v, Some(u32::MAX));
    let e = Leb128DecoderU32
        .decode(&mut buf(&[0xff, 0xff, 0xff, 0xff, 0x10]))
        .unwrap_err();
    assert_eq!(e, CodecError::Overflow(32));
}

#[test]
fn chunked_feeding() {
    // one byte at a time: every call but the last says "need more", and
    // nothing is consumed meanwhile
    let mut out = vec![];
    put_u32_leb128(&mut out, 624_485);
    let mut b = BytesMut::new();
    for (i, byte) in out.iter().enumerate() {
        b.extend_from_slice(&[*byte]);
        let before = b.len();
        let got = Leb128DecoderU32.decode(&mut b).expect("malformed varint");
        if i + 1 < out.len() {
            assert_eq!(got, None);
            assert_eq!(b.len(), before);
        } else {
            assert_eq!(got, Some(624_485));
            assert_eq!(b.len(), 0);
        }
    }
}

#[test]
fn encoder_methods() {
    let mut b = BytesMut::new();
    Leb128Encoder.encode_u32(624_485, &mut b).unwrap();
    assert_eq!(&b[..], [0xe5, 0x8e, 0x26]);

    let mut b = BytesMut::new();
    Leb128Encoder.encode_i32(-123_456, &mut b).unwrap();
    assert_eq!(&b[..], [0xc0, 0xbb, 0x78]);

    let mut b = BytesMut::new();
    Leb128Encoder.encode_i8(-128, &mut b).unwrap();
    assert_eq!(&b[..], [0x80, 0x7f]);
    assert_eq!(read_i8(&[0x80, 0x7f]).unwrap(), Some(-128));
}
