use valcodec::Error;
use valcodec::Value;
use valcodec::decode_from;
use valcodec::encode_to;
use valcodec::value_eq;

#[test]
fn it_works() {
    assert_eq!(2 + 2, 4);
}

fn encoding_of(v: Value) -> Vec<u8> {
    let mut buf: Vec<u8> = Vec::new();
    assert!(encode_to(&mut buf, v).is_ok());
    buf
}

fn decoding_of(bytes: &[u8]) -> Result<Value, Error> {
    let buf: Vec<u8> = bytes.to_vec();
    let mut pos: usize = 0;
    let r = decode_from(&buf, &mut pos);
    if r.is_ok() {
        assert_eq!(pos, buf.len());
    } else {
        assert_eq!(pos, 0);
    }
    r
}

#[test]
fn scalars_encode_to_single_tags() {
    assert_eq!(encoding_of(Value::Null), vec![0xC0]);
    assert_eq!(encoding_of(Value::Boolean(false)), vec![0xC2]);
    assert_eq!(encoding_of(Value::Boolean(true)), vec![0xC3]);
}

#[test]
fn scalars_decode_from_single_tags() {
    assert!(matches!(decoding_of(&[0xC0]), Ok(Value::Null)));
    assert!(matches!(decoding_of(&[0xC2]), Ok(Value::Boolean(false))));
    assert!(matches!(decoding_of(&[0xC3]), Ok(Value::Boolean(true))));
}

#[test]
fn float_encodes_as_double() {
    let bits = (1.5f64).to_bits();
    let buf = encoding_of(Value::Float(bits));
    assert_eq!(buf[0], 0xCB);
    assert_eq!(&buf[1..], &bits.to_be_bytes());
}

#[test]
fn float32_widens_to_double() {
    let mut bytes = vec![0xCA];
    bytes.extend_from_slice(&(1.5f32).to_bits().to_be_bytes());
    match decoding_of(&bytes) {
        Ok(Value::Float(bits)) => assert_eq!(bits, (1.5f64).to_bits()),
        other => panic!("expected a float, got {:?}", other.is_ok()),
    }
}

#[test]
fn float32_subnormal_widens_exactly() {
    // The smallest positive single-precision subnormal.
    let f = f32::from_bits(1);
    let mut bytes = vec![0xCA];
    bytes.extend_from_slice(&f.to_bits().to_be_bytes());
    match decoding_of(&bytes) {
        Ok(Value::Float(bits)) => assert_eq!(bits, (f as f64).to_bits()),
        other => panic!("expected a float, got {:?}", other.is_ok()),
    }
}

#[test]
fn float32_nan_stays_nan() {
    let mut bytes = vec![0xCA];
    bytes.extend_from_slice(&0x7FC00000u32.to_be_bytes());
    match decoding_of(&bytes) {
        Ok(Value::Float(bits)) => assert!(f64::from_bits(bits).is_nan()),
        other => panic!("expected a float, got {:?}", other.is_ok()),
    }
}

#[test]
fn positions_advance_across_values() {
    let buf: Vec<u8> = vec![0x05, 0xC3];
    let mut pos: usize = 0;
    assert!(matches!(decode_from(&buf, &mut pos), Ok(Value::Integer(5))));
    assert_eq!(pos, 1);
    assert!(matches!(decode_from(&buf, &mut pos), Ok(Value::Boolean(true))));
    assert_eq!(pos, 2);
    assert!(matches!(decode_from(&buf, &mut pos), Err(Error::Truncated)));
    assert_eq!(pos, 2);
}

#[test]
fn map_equality_ignores_entry_order() {
    let a = Value::Mapping(vec![
        (Value::String(b"x".to_vec()), Value::Integer(1)),
        (Value::String(b"y".to_vec()), Value::Integer(2)),
    ]);
    let b = Value::Mapping(vec![
        (Value::String(b"y".to_vec()), Value::Integer(2)),
        (Value::String(b"x".to_vec()), Value::Integer(1)),
    ]);
    let c = Value::Mapping(vec![
        (Value::String(b"y".to_vec()), Value::Integer(3)),
        (Value::String(b"x".to_vec()), Value::Integer(1)),
    ]);
    assert!(value_eq(&a, &b));
    assert!(value_eq(&b, &a));
    assert!(!value_eq(&a, &c));
    assert!(!value_eq(&a, &Value::Null));
}

#[test]
fn empty_composites_encode_and_decode() {
    assert_eq!(encoding_of(Value::String(vec![])), vec![0xA0]);
    assert_eq!(encoding_of(Value::Bytes(vec![])), vec![0xC4, 0x00]);
    assert_eq!(encoding_of(Value::Array(vec![])), vec![0x90]);
    assert_eq!(encoding_of(Value::Mapping(vec![])), vec![0x80]);
    assert!(matches!(decoding_of(&[0xA0]), Ok(Value::String(b)) if b.is_empty()));
    assert!(matches!(decoding_of(&[0x90]), Ok(Value::Array(a)) if a.is_empty()));
    assert!(matches!(decoding_of(&[0x80]), Ok(Value::Mapping(m)) if m.is_empty()));
}
