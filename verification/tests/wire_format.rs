use valcodec::Error;
use valcodec::Value;
use valcodec::decode_from;
use valcodec::encode_to;

fn encoding_of(v: Value) -> Vec<u8> {
    let mut buf: Vec<u8> = Vec::new();
    assert!(encode_to(&mut buf, v).is_ok());
    buf
}

fn decoding_of(bytes: &[u8]) -> Result<Value, Error> {
    let buf: Vec<u8> = bytes.to_vec();
    let mut pos: usize = 0;
    decode_from(&buf, &mut pos)
}

#[test]
fn integers_use_the_narrowest_family() {
    assert_eq!(encoding_of(Value::Integer(0)), vec![0x00]);
    assert_eq!(encoding_of(Value::Integer(100)), vec![0x64]);
    assert_eq!(encoding_of(Value::Integer(127)), vec![0x7F]);
    assert_eq!(encoding_of(Value::Integer(-1)), vec![0xFF]);
    assert_eq!(encoding_of(Value::Integer(-5)), vec![0xFB]);
    assert_eq!(encoding_of(Value::Integer(-32)), vec![0xE0]);
    assert_eq!(encoding_of(Value::Integer(-33)), vec![0xD0, 0xDF]);
    assert_eq!(encoding_of(Value::Integer(-128)), vec![0xD0, 0x80]);
    assert_eq!(encoding_of(Value::Integer(128)), vec![0xD1, 0x00, 0x80]);
    assert_eq!(encoding_of(Value::Integer(300)), vec![0xD1, 0x01, 0x2C]);
    assert_eq!(encoding_of(Value::Integer(-32768)), vec![0xD1, 0x80, 0x00]);
    assert_eq!(encoding_of(Value::Integer(32768)), vec![0xD2, 0x00, 0x00, 0x80, 0x00]);
    assert_eq!(encoding_of(Value::Integer(-2147483648)), vec![0xD2, 0x80, 0x00, 0x00, 0x00]);
    assert_eq!(
        encoding_of(Value::Integer(2147483648)),
        vec![0xD3, 0x00, 0x00, 0x00, 0x00, 0x80, 0x00, 0x00, 0x00]
    );
    assert_eq!(
        encoding_of(Value::Integer(i64::MIN as i128)),
        vec![0xD3, 0x80, 0x00, 0x00, 0x00, 0x00, 0x00, 0x00, 0x00]
    );
}

#[test]
fn integer_out_of_range_is_rejected() {
    let mut buf: Vec<u8> = vec![0xAA];
    let r = encode_to(&mut buf, Value::Integer(i64::MAX as i128 + 1));
    assert!(matches!(r, Err(Error::OutOfRange)));
    assert_eq!(buf, vec![0xAA]);
    let r = encode_to(&mut buf, Value::Integer(i64::MIN as i128 - 1));
    assert!(matches!(r, Err(Error::OutOfRange)));
    assert_eq!(buf, vec![0xAA]);
}

#[test]
fn string_tier_boundaries() {
    let s31 = encoding_of(Value::String(vec![b'a'; 31]));
    assert_eq!(s31[0], 0xBF);
    assert_eq!(s31.len(), 32);
    let s32 = encoding_of(Value::String(vec![b'a'; 32]));
    assert_eq!(&s32[0..2], &[0xD9, 32]);
    let s255 = encoding_of(Value::String(vec![b'a'; 255]));
    assert_eq!(&s255[0..2], &[0xD9, 255]);
    let s256 = encoding_of(Value::String(vec![b'a'; 256]));
    assert_eq!(&s256[0..3], &[0xDA, 0x01, 0x00]);
    let s65535 = encoding_of(Value::String(vec![b'a'; 65535]));
    assert_eq!(&s65535[0..3], &[0xDA, 0xFF, 0xFF]);
    let s65536 = encoding_of(Value::String(vec![b'a'; 65536]));
    assert_eq!(&s65536[0..5], &[0xDB, 0x00, 0x01, 0x00, 0x00]);
}

#[test]
fn bytes_tier_boundaries() {
    let b255 = encoding_of(Value::Bytes(vec![7u8; 255]));
    assert_eq!(&b255[0..2], &[0xC4, 255]);
    let b256 = encoding_of(Value::Bytes(vec![7u8; 256]));
    assert_eq!(&b256[0..3], &[0xC5, 0x01, 0x00]);
    let b65535 = encoding_of(Value::Bytes(vec![7u8; 65535]));
    assert_eq!(&b65535[0..3], &[0xC5, 0xFF, 0xFF]);
    let b65536 = encoding_of(Value::Bytes(vec![7u8; 65536]));
    assert_eq!(&b65536[0..5], &[0xC6, 0x00, 0x01, 0x00, 0x00]);
}

#[test]
fn array_tier_boundaries() {
    let a15 = encoding_of(Value::Array((0..15).map(|_| Value::Null).collect()));
    assert_eq!(a15[0], 0x9F);
    assert_eq!(a15.len(), 16);
    let a16 = encoding_of(Value::Array((0..16).map(|_| Value::Null).collect()));
    assert_eq!(&a16[0..3], &[0xDC, 0x00, 0x10]);
    let a65536 = encoding_of(Value::Array((0..65536).map(|_| Value::Null).collect()));
    assert_eq!(&a65536[0..5], &[0xDD, 0x00, 0x01, 0x00, 0x00]);
    assert_eq!(a65536.len(), 5 + 65536);
}

#[test]
fn map_tier_boundaries() {
    let entries15: Vec<(Value, Value)> =
        (0..15).map(|i| (Value::Integer(i), Value::Null)).collect();
    let m15 = encoding_of(Value::Mapping(entries15));
    assert_eq!(m15[0], 0x8F);
    let entries16: Vec<(Value, Value)> =
        (0..16).map(|i| (Value::Integer(i), Value::Null)).collect();
    let m16 = encoding_of(Value::Mapping(entries16));
    assert_eq!(&m16[0..3], &[0xDE, 0x00, 0x10]);
}

#[test]
fn lone_multibyte_tag_is_truncated() {
    for t in [0x81u8, 0x91, 0xA1, 0xC4, 0xC5, 0xC6, 0xCA, 0xCB, 0xCC, 0xCD, 0xCE, 0xCF, 0xD0,
        0xD1, 0xD2, 0xD3, 0xD9, 0xDA, 0xDB, 0xDC, 0xDD, 0xDE, 0xDF] {
        assert!(
            matches!(decoding_of(&[t]), Err(Error::Truncated)),
            "tag {:#x} should be truncated",
            t
        );
    }
}

#[test]
fn short_payload_is_truncated() {
    assert!(matches!(decoding_of(&[0xA2, 0x61]), Err(Error::Truncated)));
    assert!(matches!(decoding_of(&[0xD1, 0x01]), Err(Error::Truncated)));
    assert!(matches!(decoding_of(&[0xC5, 0x00, 0x02, 0xAA]), Err(Error::Truncated)));
    assert!(matches!(decoding_of(&[0x92, 0xC0]), Err(Error::Truncated)));
    assert!(matches!(decoding_of(&[]), Err(Error::Truncated)));
}

#[test]
fn invalid_utf8_is_rejected() {
    assert!(matches!(decoding_of(&[0xA1, 0xFF]), Err(Error::InvalidUtf8)));
    // An overlong two-byte form of '/' is not UTF-8 text either.
    assert!(matches!(decoding_of(&[0xA2, 0xC0, 0xAF]), Err(Error::InvalidUtf8)));
    // A UTF-16 surrogate is excluded.
    assert!(matches!(decoding_of(&[0xA3, 0xED, 0xA0, 0x80]), Err(Error::InvalidUtf8)));
}

#[test]
fn multibyte_utf8_is_accepted() {
    let text = "héllo ✓ 𝄞";
    let buf = encoding_of(Value::String(text.as_bytes().to_vec()));
    match decoding_of(&buf) {
        Ok(Value::String(b)) => assert_eq!(b, text.as_bytes()),
        _ => panic!("expected a string"),
    }
}

#[test]
fn reserved_tags_are_rejected() {
    for t in [0xC1u8, 0xC7, 0xC8, 0xC9, 0xD4, 0xD5, 0xD6, 0xD7, 0xD8] {
        assert!(
            matches!(decoding_of(&[t]), Err(Error::UnsupportedTag)),
            "tag {:#x} should be unsupported",
            t
        );
        assert!(matches!(decoding_of(&[t, 0x00, 0x01]), Err(Error::UnsupportedTag)));
    }
}

#[test]
fn unsigned_widening_keeps_the_value() {
    let mut bytes = vec![0xCF];
    bytes.extend_from_slice(&[0xFF; 8]);
    match decoding_of(&bytes) {
        Ok(Value::Integer(i)) => assert_eq!(i, u64::MAX as i128),
        _ => panic!("expected an integer"),
    }
    assert!(matches!(decoding_of(&[0xCC, 0xFF]), Ok(Value::Integer(255))));
    assert!(matches!(decoding_of(&[0xCD, 0xFF, 0xFF]), Ok(Value::Integer(65535))));
    assert!(matches!(
        decoding_of(&[0xCE, 0xFF, 0xFF, 0xFF, 0xFF]),
        Ok(Value::Integer(4294967295))
    ));
}

#[test]
fn signed_payloads_sign_extend() {
    assert!(matches!(decoding_of(&[0xD0, 0x80]), Ok(Value::Integer(-128))));
    assert!(matches!(decoding_of(&[0xD0, 0x7F]), Ok(Value::Integer(127))));
    assert!(matches!(decoding_of(&[0xD1, 0xFF, 0xFF]), Ok(Value::Integer(-1))));
    let mut bytes = vec![0xD3, 0x80];
    bytes.extend_from_slice(&[0x00; 7]);
    match decoding_of(&bytes) {
        Ok(Value::Integer(i)) => assert_eq!(i, i64::MIN as i128),
        _ => panic!("expected an integer"),
    }
}

#[test]
fn duplicate_map_keys_keep_the_later_value() {
    // A two-entry fixed map whose entries share the key "a".
    let bytes = [0x82, 0xA1, 0x61, 0x01, 0xA1, 0x61, 0x02];
    match decoding_of(&bytes) {
        Ok(Value::Mapping(entries)) => {
            assert_eq!(entries.len(), 1);
            assert!(matches!(&entries[0].0, Value::String(k) if k == b"a"));
            assert!(matches!(entries[0].1, Value::Integer(2)));
        },
        _ => panic!("expected a map"),
    }
}
