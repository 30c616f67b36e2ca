use tokio_util::bytes::BytesMut;

use wasm_codec::codec::{CodecError, Decode, Encode};
use wasm_codec::core_codec::{
    CoreNameDecoder, CoreNameEncoder, CoreVecDecoder, CoreVecDecoderBytes, CoreVecEncoder,
    CoreVecEncoderBytes,
};
use wasm_codec::utf8::Utf8Codec;

fn buf(bytes: &[u8]) -> BytesMut {
    BytesMut::from(bytes)
}

#[test]
fn string() {
    let mut b = buf(b"\x04test");
    let s = CoreNameDecoder::new()
        .decode(&mut b)
        .expect("failed to read string");
    assert_eq!(s.as_deref(), Some("test"));

    let mut b = BytesMut::new();
    CoreNameEncoder
        .encode(&"test".to_string(), &mut b)
        .expect("failed to write string");
    assert_eq!(&b[..], b"\x04test");

    let mut tx = BytesMut::new();
    for s in ["foo", "", "test", "bar", "∆íêçà≈ê", "baz"] {
        CoreNameEncoder
            .encode(&s.to_string(), &mut tx)
            .expect("failed to send");
    }
    assert_eq!(
        &tx[..],
        "\x03foo\0\x04test\x03bar\x10∆íêçà≈ê\x03baz".as_bytes()
    );

    let mut d = CoreNameDecoder::new();
    for expected in ["foo", "", "test", "bar", "∆íêçà≈ê", "baz"] {
        let s = d.decode(&mut tx).expect("failed to get string");
        assert_eq!(s.as_deref(), Some(expected));
    }
    assert_eq!(d.decode(&mut tx).expect("failed to get EOF"), None);
}

#[test]
fn vec() {
    let mut tx = BytesMut::new();
    let all = vec![
        "foo".to_string(),
        String::new(),
        "test".to_string(),
        "bar".to_string(),
        "∆íêçà≈ê".to_string(),
        "baz".to_string(),
    ];
    CoreVecEncoder(CoreNameEncoder)
        .encode(&all, &mut tx)
        .expect("failed to send the full list");
    CoreVecEncoder(CoreNameEncoder)
        .encode(&Vec::<String>::new(), &mut tx)
        .expect("failed to send []");
    CoreVecEncoder(CoreNameEncoder)
        .encode(&vec!["test".to_string()], &mut tx)
        .expect("failed to send [`test`]");
    CoreVecEncoder(CoreNameEncoder)
        .encode(&Vec::<String>::new(), &mut tx)
        .expect("failed to send []");

    assert_eq!(
        &tx[..],
        "\x06\x03foo\0\x04test\x03bar\x10∆íêçà≈ê\x03baz\0\x01\x04test\0".as_bytes()
    );

    let mut rx = CoreVecDecoder::new(CoreNameDecoder::new());
    let got = rx.decode(&mut tx).expect("failed to get the full list");
    assert_eq!(got, Some(all));

    let got = rx.decode(&mut tx).expect("failed to get []");
    assert_eq!(got, Some(Vec::new()));

    let got = rx.decode(&mut tx).expect("failed to get [`test`]");
    assert_eq!(got, Some(vec!["test".to_string()]));

    let got = rx.decode(&mut tx).expect("failed to get []");
    assert_eq!(got, Some(Vec::new()));

    assert_eq!(rx.decode(&mut tx).expect("failed to get EOF"), None);
}

#[test]
fn codec() {
    for c in ['$', '@', 'И', 'ह', '€', '한', '𐍈'] {
        let mut b = BytesMut::new();
        Utf8Codec.encode(&c, &mut b).expect("failed to write char");
        let mut expected = [0u8; 4];
        let expected = c.encode_utf8(&mut expected).as_bytes();
        assert_eq!(&b[..], expected);
        let got = Utf8Codec.decode(&mut b).expect("failed to read char");
        assert_eq!(got, Some(c));
        assert_eq!(b.len(), 0);
    }
}

#[test]
fn utf8_rejects_malformed() {
    // stray continuation byte as a lead
    let e = Utf8Codec.decode(&mut buf(&[0x80])).unwrap_err();
    assert_eq!(e, CodecError::InvalidText);

    // bad continuation byte
    let e = Utf8Codec.decode(&mut buf(&[0xc3, 0x28])).unwrap_err();
    assert_eq!(e, CodecError::InvalidText);

    // overlong encoding of NUL
    let e = Utf8Codec.decode(&mut buf(&[0xc0, 0x80])).unwrap_err();
    assert_eq!(e, CodecError::InvalidScalar);

    // surrogate
    let e = Utf8Codec
        .decode(&mut buf(&[0xed, 0xa0, 0x80]))
        .unwrap_err();
    assert_eq!(e, CodecError::InvalidScalar);

    // a short prefix of a valid character is not an error
    assert_eq!(Utf8Codec.decode(&mut buf(&[0xe2, 0x82])).unwrap(), None);
}

#[test]
fn name_rejects_invalid_utf8() {
    // three length-prefixed bytes that are not UTF-8
    let e = CoreNameDecoder::new()
        .decode(&mut buf(&[0x03, 0xff, 0xfe, 0xfd]))
        .unwrap_err();
    assert_eq!(e, CodecError::InvalidText);

    // short input is never a UTF-8 error
    let mut d = CoreNameDecoder::new();
    assert_eq!(d.decode(&mut buf(&[0x03, 0xff])).unwrap(), None);
}

#[test]
fn bytes_codec() {
    let mut b = BytesMut::new();
    CoreVecEncoderBytes
        .encode(&vec![1, 2, 3], &mut b)
        .expect("failed to write bytes");
    assert_eq!(&b[..], [0x03, 1, 2, 3]);
    let mut d = CoreVecDecoderBytes::new();
    assert_eq!(d.decode(&mut b).unwrap(), Some(vec![1, 2, 3]));
    assert_eq!(d.decode(&mut b).unwrap(), None);

    // a zero count yields an empty run without waiting for more bytes
    let mut d = CoreVecDecoderBytes::new();
    assert_eq!(d.decode(&mut buf(&[0x00])).unwrap(), Some(Vec::new()));
}

#[test]
fn composite_resumption_at_every_split() {
    // a vector of names decoded across every possible split point yields
    // the one-shot value, with no sub-field decoded twice
    let mut whole = BytesMut::new();
    let list = vec!["foo".to_string(), String::new(), "test".to_string()];
    CoreVecEncoder(CoreNameEncoder)
        .encode(&list, &mut whole)
        .unwrap();
    let bytes: Vec<u8> = whole.to_vec();

    let mut oneshot = CoreVecDecoder::new(CoreNameDecoder::new());
    let expected = oneshot.decode(&mut buf(&bytes)).unwrap();
    assert_eq!(expected, Some(list.clone()));

    for split in 0..=bytes.len() {
        let mut d = CoreVecDecoder::new(CoreNameDecoder::new());
        let mut b = buf(&bytes[..split]);
        let first = d.decode(&mut b).unwrap();
        if split == bytes.len() {
            assert_eq!(first, Some(list.clone()));
            continue;
        }
        assert_eq!(first, None);
        b.extend_from_slice(&bytes[split..]);
        let second = d.decode(&mut b).unwrap();
        assert_eq!(second, Some(list.clone()));
        assert_eq!(b.len(), 0);
    }

    // and one byte at a time
    let mut d = CoreVecDecoder::new(CoreNameDecoder::new());
    let mut b = BytesMut::new();
    for (i, byte) in bytes.iter().enumerate() {
        b.extend_from_slice(&[*byte]);
        let got = d.decode(&mut b).unwrap();
        if i + 1 < bytes.len() {
            assert_eq!(got, None);
        } else {
            assert_eq!(got, Some(list.clone()));
        }
    }
}

#[test]
fn text_scenario() {
    // the 4-character ASCII string `test` is exactly these 5 bytes
    let mut b = BytesMut::new();
    CoreNameEncoder
        .encode(&"test".to_string(), &mut b)
        .unwrap();
    assert_eq!(&b[..], [0x04, b't', b'e', b's', b't']);
    let got = CoreNameDecoder::new().decode(&mut b).unwrap();
    assert_eq!(got.as_deref(), Some("test"));
}

#[test]
fn vector_scenario() {
    // a 3-count prefix, then each element's own length-prefixed encoding
    let list = vec!["foo".to_string(), String::new(), "test".to_string()];
    let mut b = BytesMut::new();
    CoreVecEncoder(CoreNameEncoder).encode(&list, &mut b).unwrap();
    assert_eq!(&b[..], b"\x03\x03foo\0\x04test");
    let got = CoreVecDecoder::new(CoreNameDecoder::new())
        .decode(&mut b)
        .unwrap();
    assert_eq!(got, Some(list));
}
