use tokio_util::bytes::BytesMut;

use wasm_codec::codec::{CodecError, Decode, Encode};
use wasm_codec::core_codec::{CoreNameDecoder, CoreNameEncoder};
use wasm_codec::values::{
    bool_from_byte, option_status_from_byte, result_status_from_byte, BoolCodec, FlagDecoder,
    FlagEncoder, OptionDecoder, OptionEncoder, PrimValEncoder, ResultDecoder, ResultEncoder,
    S8Codec, TupleDecoder, TupleEncoder, U32Codec, U8Codec,
};

fn buf(bytes: &[u8]) -> BytesMut {
    BytesMut::from(bytes)
}

#[test]
fn tuple() {
    let mut b = BytesMut::new();
    TupleEncoder((
        BoolCodec,
        TupleEncoder((
            U8Codec,
            TupleEncoder((
                CoreNameEncoder,
                TupleEncoder((
                    U32Codec,
                    ResultEncoder {
                        ok: BoolCodec,
                        err: CoreNameEncoder,
                    },
                )),
            )),
        )),
    ))
    .encode(
        &(
            true,
            (
                0xfeu8,
                (
                    "test".to_string(),
                    (0x42u32, Result::<bool, String>::Ok(true)),
                ),
            ),
        ),
        &mut b,
    )
    .expect("failed to encode tuple");
    assert_eq!(&b[..], b"\x01\xfe\x04test\x42\0\x01");

    let (a, (v8, (s, (v32, res)))) = TupleDecoder::new((
        BoolCodec,
        TupleDecoder::new((
            U8Codec,
            TupleDecoder::new((
                CoreNameDecoder::new(),
                TupleDecoder::new((
                    U32Codec,
                    ResultDecoder::new(BoolCodec, CoreNameDecoder::new()),
                )),
            )),
        )),
    ))
    .decode(&mut b)
    .expect("failed to decode tuple")
    .expect("short tuple read");
    assert!(a);
    assert_eq!(v8, 0xfe);
    assert_eq!(s, "test");
    assert_eq!(v32, 0x42);
    assert_eq!(res, Ok(true));
}

#[test]
fn bool_codec() {
    let mut b = BytesMut::new();
    BoolCodec.encode(&true, &mut b).unwrap();
    BoolCodec.encode(&false, &mut b).unwrap();
    assert_eq!(&b[..], [1, 0]);
    assert_eq!(BoolCodec.decode(&mut b).unwrap(), Some(true));
    assert_eq!(BoolCodec.decode(&mut b).unwrap(), Some(false));
    assert_eq!(BoolCodec.decode(&mut b).unwrap(), None);

    let e = BoolCodec.decode(&mut buf(&[2])).unwrap_err();
    assert_eq!(e, CodecError::InvalidTag(2));
}

#[test]
fn status_bytes() {
    assert_eq!(bool_from_byte(0), Ok(false));
    assert_eq!(bool_from_byte(1), Ok(true));
    assert_eq!(bool_from_byte(7), Err(CodecError::InvalidTag(7)));

    assert_eq!(option_status_from_byte(0), Ok(false));
    assert_eq!(option_status_from_byte(1), Ok(true));
    assert_eq!(option_status_from_byte(2), Err(CodecError::InvalidTag(2)));

    // a result's polarity is inverted: 0 is success
    assert_eq!(result_status_from_byte(0), Ok(true));
    assert_eq!(result_status_from_byte(1), Ok(false));
    assert_eq!(result_status_from_byte(2), Err(CodecError::InvalidTag(2)));
}

#[test]
fn s8_codec() {
    let mut b = BytesMut::new();
    S8Codec.encode(&-1i8, &mut b).unwrap();
    S8Codec.encode(&127i8, &mut b).unwrap();
    S8Codec.encode(&-128i8, &mut b).unwrap();
    assert_eq!(&b[..], [0xff, 0x7f, 0x80]);
    assert_eq!(S8Codec.decode(&mut b).unwrap(), Some(-1));
    assert_eq!(S8Codec.decode(&mut b).unwrap(), Some(127));
    assert_eq!(S8Codec.decode(&mut b).unwrap(), Some(-128));
}

#[test]
fn option_codec() {
    let mut b = BytesMut::new();
    OptionEncoder(U32Codec)
        .encode(&Some(624_485u32), &mut b)
        .unwrap();
    OptionEncoder(U32Codec).encode(&None, &mut b).unwrap();
    assert_eq!(&b[..], [0x01, 0xe5, 0x8e, 0x26, 0x00]);

    let mut d = OptionDecoder::new(U32Codec);
    assert_eq!(d.decode(&mut b).unwrap(), Some(Some(624_485)));
    assert_eq!(d.decode(&mut b).unwrap(), Some(None));
    assert_eq!(d.decode(&mut b).unwrap(), None);

    let e = OptionDecoder::new(U32Codec)
        .decode(&mut buf(&[0x02]))
        .unwrap_err();
    assert_eq!(e, CodecError::InvalidTag(2));
}

#[test]
fn option_resumes_mid_payload() {
    // the presence byte is read once; the payload resumes across calls
    let mut d = OptionDecoder::new(U32Codec);
    let mut b = buf(&[0x01, 0xe5]);
    assert_eq!(d.decode(&mut b).unwrap(), None);
    b.extend_from_slice(&[0x8e]);
    assert_eq!(d.decode(&mut b).unwrap(), None);
    b.extend_from_slice(&[0x26]);
    assert_eq!(d.decode(&mut b).unwrap(), Some(Some(624_485)));
}

#[test]
fn result_codec() {
    let enc = ResultEncoder {
        ok: U32Codec,
        err: CoreNameEncoder,
    };
    let mut b = BytesMut::new();
    let mut e = enc;
    e.encode(&Ok(7u32), &mut b).unwrap();
    let mut e = enc;
    e.encode(&Err("no".to_string()), &mut b).unwrap();
    assert_eq!(&b[..], b"\x00\x07\x01\x02no");

    let mut d = ResultDecoder::new(U32Codec, CoreNameDecoder::new());
    assert_eq!(d.decode(&mut b).unwrap(), Some(Ok(7)));
    assert_eq!(d.decode(&mut b).unwrap(), Some(Err("no".to_string())));

    let e = ResultDecoder::new(U32Codec, CoreNameDecoder::new())
        .decode(&mut buf(&[0x02]))
        .unwrap_err();
    assert_eq!(e, CodecError::InvalidTag(2));
}

#[test]
fn flags() {
    let mut b = BytesMut::new();
    FlagEncoder.encode_u8(0xa5, &mut b).unwrap();
    FlagEncoder.encode_u16(0x1234, &mut b).unwrap();
    FlagEncoder.encode_u32(0xdead_beef, &mut b).unwrap();
    assert_eq!(&b[..], [0xa5, 0x34, 0x12, 0xef, 0xbe, 0xad, 0xde]);

    let mut d8: FlagDecoder<8> = FlagDecoder;
    let got = d8.decode(&mut b).unwrap();
    assert_eq!(got, Some(vec![0xa5]));

    let mut d9: FlagDecoder<9> = FlagDecoder;
    let got = d9.decode(&mut b).unwrap();
    assert_eq!(got, Some(vec![0x34, 0x12]));

    let mut d1: FlagDecoder<1> = FlagDecoder;
    assert_eq!(d1.decode(&mut b).unwrap(), Some(vec![0xef]));

    let mut d24: FlagDecoder<24> = FlagDecoder;
    assert_eq!(d24.decode(&mut b).unwrap(), Some(vec![0xbe, 0xad, 0xde]));
    assert_eq!(d24.decode(&mut b).unwrap(), None);
}

#[test]
fn prim_val_encoder() {
    let mut b = BytesMut::new();
    PrimValEncoder.encode_bool(true, &mut b).unwrap();
    PrimValEncoder.encode_u8(0xfe, &mut b).unwrap();
    PrimValEncoder
        .encode_str(&"test".to_string(), &mut b)
        .unwrap();
    PrimValEncoder.encode_u32(0x42, &mut b).unwrap();
    PrimValEncoder.encode_s32(-123_456, &mut b).unwrap();
    PrimValEncoder.encode_char('€', &mut b).unwrap();
    assert_eq!(&b[..], b"\x01\xfe\x04test\x42\xc0\xbb\x78\xe2\x82\xac");
}
