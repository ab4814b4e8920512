use valcodec::Value;
use valcodec::decode_from;
use valcodec::encode_to;
use valcodec::value_eq;

fn round_trip(v: Value, w: Value) {
    let mut buf: Vec<u8> = Vec::new();
    assert!(encode_to(&mut buf, v).is_ok());
    let mut pos: usize = 0;
    let back = decode_from(&buf, &mut pos).expect("decoding an encoding succeeds");
    assert_eq!(pos, buf.len(), "the whole encoding is consumed");
    assert!(value_eq(&back, &w), "the decoded value equals the encoded one");
}

fn sample_scalars() -> Vec<Value> {
    vec![
        Value::Null,
        Value::Boolean(true),
        Value::Boolean(false),
        Value::Integer(0),
        Value::Integer(127),
        Value::Integer(-32),
        Value::Integer(-33),
        Value::Integer(300),
        Value::Integer(-30000),
        Value::Integer(1 << 30),
        Value::Integer(i64::MAX as i128),
        Value::Integer(i64::MIN as i128),
        Value::Float((3.25f64).to_bits()),
        Value::Float((-0.0f64).to_bits()),
        Value::String(b"".to_vec()),
        Value::String(b"hello".to_vec()),
        Value::String("ünïcödé ✓".as_bytes().to_vec()),
        Value::Bytes(vec![]),
        Value::Bytes(vec![0xFF, 0x00, 0x80]),
    ]
}

#[test]
fn scalars_round_trip() {
    let vs = sample_scalars();
    let ws = sample_scalars();
    for (v, w) in vs.into_iter().zip(ws.into_iter()) {
        round_trip(v, w);
    }
}

#[test]
fn composites_round_trip() {
    let v = Value::Array(vec![
        Value::Integer(1),
        Value::String(b"two".to_vec()),
        Value::Array(vec![Value::Null, Value::Boolean(true)]),
    ]);
    let w = Value::Array(vec![
        Value::Integer(1),
        Value::String(b"two".to_vec()),
        Value::Array(vec![Value::Null, Value::Boolean(true)]),
    ]);
    round_trip(v, w);
}

#[test]
fn maps_round_trip() {
    let make = || {
        Value::Mapping(vec![
            (Value::String(b"name".to_vec()), Value::String(b"codec".to_vec())),
            (Value::Integer(7), Value::Array(vec![Value::Integer(-1), Value::Integer(256)])),
            (
                Value::Array(vec![Value::Integer(1)]),
                Value::Mapping(vec![(Value::Null, Value::Bytes(vec![9, 8]))]),
            ),
        ])
    };
    round_trip(make(), make());
}

#[test]
fn long_collections_round_trip() {
    let v = Value::Array((0..1000).map(Value::Integer).collect());
    let w = Value::Array((0..1000).map(Value::Integer).collect());
    round_trip(v, w);
    let v = Value::String(vec![b'z'; 70000]);
    let w = Value::String(vec![b'z'; 70000]);
    round_trip(v, w);
    let entries = |n: i128| (0..n).map(|i| (Value::Integer(i), Value::Integer(-i))).collect();
    round_trip(Value::Mapping(entries(100)), Value::Mapping(entries(100)));
}

#[test]
fn map_round_trip_is_order_independent() {
    let ab = Value::Mapping(vec![
        (Value::String(b"a".to_vec()), Value::Integer(1)),
        (Value::String(b"b".to_vec()), Value::Integer(2)),
    ]);
    let ba = Value::Mapping(vec![
        (Value::String(b"b".to_vec()), Value::Integer(2)),
        (Value::String(b"a".to_vec()), Value::Integer(1)),
    ]);
    let mut buf_ab: Vec<u8> = Vec::new();
    assert!(
        encode_to(
            &mut buf_ab,
            Value::Mapping(vec![
                (Value::String(b"a".to_vec()), Value::Integer(1)),
                (Value::String(b"b".to_vec()), Value::Integer(2)),
            ]),
        )
        .is_ok()
    );
    let mut pos: usize = 0;
    let back = decode_from(&buf_ab, &mut pos).unwrap();
    assert!(value_eq(&back, &ab));
    assert!(value_eq(&back, &ba));
}
