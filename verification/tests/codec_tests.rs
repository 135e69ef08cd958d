use cliff::codec::{DecodeError, MsgPackCodec};
use cliff::parsing::{encode_value, get_value_size};
use cliff::Value;

fn decode_exact(bytes: &[u8]) -> Value {
    let mut codec = MsgPackCodec {};
    let mut buffer = bytes.to_vec();
    let decoded = codec
        .decode(&mut buffer)
        .expect("decoding failed")
        .expect("value should be complete");
    assert!(buffer.is_empty(), "exact buffer should be fully consumed");
    decoded
}

#[test]
fn encode_integer_127_is_single_byte() {
    let encoded = encode_value(&Value::UInt(127));
    assert_eq!(encoded, vec![0x7f]);
    assert_eq!(decode_exact(&[0x7f]), Value::UInt(127));
}

#[test]
fn encode_small_map_round_trips_in_order() {
    let map = Value::Dict(vec![
        (Value::Str(b"client_id".to_vec()), Value::UInt(3)),
        (Value::Str(b"guess".to_vec()), Value::UInt(42)),
    ]);
    let encoded = encode_value(&map);
    let decoded = decode_exact(&encoded);
    match decoded {
        Value::Dict(pairs) => {
            assert_eq!(pairs.len(), 2);
            assert_eq!(pairs[0].0, Value::Str(b"client_id".to_vec()));
            assert_eq!(pairs[0].1, Value::UInt(3));
            assert_eq!(pairs[1].0, Value::Str(b"guess".to_vec()));
            assert_eq!(pairs[1].1, Value::UInt(42));
        }
        other => panic!("expected a map, got {:?}", other),
    }
}

#[test]
fn integer_encodings_are_canonical() {
    assert_eq!(encode_value(&Value::UInt(0)), vec![0x00]);
    assert_eq!(encode_value(&Value::UInt(200)), vec![0xcc, 200]);
    assert_eq!(encode_value(&Value::UInt(0x1234)), vec![0xcd, 0x12, 0x34]);
    assert_eq!(
        encode_value(&Value::UInt(0xDEADBEEF)),
        vec![0xce, 0xde, 0xad, 0xbe, 0xef]
    );
    assert_eq!(
        encode_value(&Value::UInt(u64::MAX)),
        vec![0xcf, 0xff, 0xff, 0xff, 0xff, 0xff, 0xff, 0xff, 0xff]
    );
    assert_eq!(encode_value(&Value::Int(-5)), vec![0xfb]);
    assert_eq!(encode_value(&Value::Int(-100)), vec![0xd0, 0x9c]);
    assert_eq!(encode_value(&Value::Int(-200)), vec![0xd1, 0xff, 0x38]);
    assert_eq!(
        encode_value(&Value::Int(-70000)),
        vec![0xd2, 0xff, 0xfe, 0xee, 0x90]
    );
    assert_eq!(
        encode_value(&Value::Int(i64::MIN)),
        vec![0xd3, 0x80, 0x00, 0x00, 0x00, 0x00, 0x00, 0x00, 0x00]
    );
}

#[test]
fn scalar_values_round_trip() {
    let samples = vec![
        Value::Nil,
        Value::Bool(true),
        Value::Bool(false),
        Value::UInt(0),
        Value::UInt(127),
        Value::UInt(128),
        Value::UInt(65535),
        Value::UInt(65536),
        Value::UInt(u64::MAX),
        Value::Int(-1),
        Value::Int(-32),
        Value::Int(-33),
        Value::Int(-128),
        Value::Int(-129),
        Value::Int(-32768),
        Value::Int(-32769),
        Value::Int(i64::MIN),
        Value::F32(0x3f800000),
        Value::F64(0x3ff0000000000000),
        Value::Str(Vec::new()),
        Value::Str(b"hello".to_vec()),
        Value::Str(vec![b'x'; 32]),
        Value::Str(vec![b'y'; 300]),
        Value::Bin(vec![1, 2, 3]),
        Value::Bin(vec![9; 700]),
        Value::Ext(5, vec![0xaa]),
        Value::Ext(-1, vec![0; 16]),
        Value::Ext(7, vec![1, 2, 3]),
    ];
    for value in samples {
        let encoded = encode_value(&value);
        assert_eq!(decode_exact(&encoded), value, "round trip of {:?}", value);
    }
}

#[test]
fn nested_containers_round_trip() {
    let value = Value::Array(vec![
        Value::UInt(1),
        Value::Array(vec![Value::Nil, Value::Str(b"deep".to_vec())]),
        Value::Dict(vec![(
            Value::Str(b"k".to_vec()),
            Value::Array(vec![Value::Int(-7), Value::Bool(true)]),
        )]),
    ]);
    let encoded = encode_value(&value);
    assert_eq!(decode_exact(&encoded), value);
}

#[test]
fn signed_encodings_decode_to_normal_form() {
    // A non-canonical signed field holding a non-negative value decodes
    // to the unsigned form of that integer.
    assert_eq!(decode_exact(&[0xd0, 0x05]), Value::UInt(5));
    assert_eq!(decode_exact(&[0xd1, 0x00, 0x80]), Value::UInt(128));
    assert_eq!(decode_exact(&[0xcc, 0x05]), Value::UInt(5));
}

#[test]
fn reserved_tag_is_a_decode_error() {
    let mut codec = MsgPackCodec {};
    let mut buffer = vec![0xc1];
    assert_eq!(codec.decode(&mut buffer), Err(DecodeError::Invalid));
}

#[test]
fn mis_sized_range_is_a_decode_error() {
    // Two complete values in a range that should hold exactly one.
    assert_eq!(cliff::codec::decode(&[0x01, 0x02]), Err(DecodeError::WrongSize));
    assert_eq!(cliff::codec::decode(&[]), Err(DecodeError::Invalid));
}

#[test]
fn codec_waits_for_missing_bytes() {
    let mut codec = MsgPackCodec {};
    let mut buffer = vec![0xcd, 0x12];
    assert_eq!(codec.decode(&mut buffer), Ok(None));
    assert_eq!(buffer, vec![0xcd, 0x12]);
    buffer.push(0x34);
    assert_eq!(codec.decode(&mut buffer), Ok(Some(Value::UInt(0x1234))));
    assert!(buffer.is_empty());
}

#[test]
fn codec_consumes_one_value_at_a_time() {
    let mut codec = MsgPackCodec {};
    let mut buffer = Vec::new();
    codec.encode(&Value::UInt(7), &mut buffer);
    codec.encode(&Value::Str(b"ok".to_vec()), &mut buffer);
    assert_eq!(codec.decode(&mut buffer), Ok(Some(Value::UInt(7))));
    assert_eq!(
        codec.decode(&mut buffer),
        Ok(Some(Value::Str(b"ok".to_vec())))
    );
    assert_eq!(codec.decode(&mut buffer), Ok(None));
}

#[test]
fn sizer_reports_insufficient_data_for_partial_compound() {
    // A two-element array whose second element has not arrived yet.
    assert_eq!(get_value_size(&[0x92, 0x01]), None);
    // Same array, fully arrived.
    assert_eq!(get_value_size(&[0x92, 0x01, 0x02]), Some(3));
    // An element that would extend past the visible bytes.
    assert_eq!(get_value_size(&[0x91, 0xa5, b'a']), None);
}

#[test]
fn sizer_counts_every_family() {
    assert_eq!(get_value_size(&[0x00]), Some(1));
    assert_eq!(get_value_size(&[0xc0]), Some(1));
    assert_eq!(get_value_size(&[0xe5]), Some(1));
    assert_eq!(get_value_size(&[0xcc]), Some(2));
    assert_eq!(get_value_size(&[0xcd]), Some(3));
    assert_eq!(get_value_size(&[0xce]), Some(5));
    assert_eq!(get_value_size(&[0xcf]), Some(9));
    assert_eq!(get_value_size(&[0xa3]), Some(4));
    assert_eq!(get_value_size(&[0xd9, 0x10]), Some(18));
    assert_eq!(get_value_size(&[0xd9]), None);
    assert_eq!(get_value_size(&[0xda, 0x01, 0x00]), Some(0x103));
    assert_eq!(get_value_size(&[0xd6]), Some(6));
    assert_eq!(get_value_size(&[0xc7, 0x05]), Some(8));
    assert_eq!(get_value_size(&[0x90]), Some(1));
    assert_eq!(get_value_size(&[0x80]), Some(1));
}

#[test]
fn agrees_with_reference_messagepack_encoder() {
    let ours = encode_value(&Value::Array(vec![
        Value::UInt(1),
        Value::Str(b"ab".to_vec()),
        Value::Nil,
        Value::Int(-3),
    ]));
    let reference = rmpv::Value::Array(vec![
        rmpv::Value::from(1u64),
        rmpv::Value::from("ab"),
        rmpv::Value::Nil,
        rmpv::Value::from(-3i64),
    ]);
    let mut theirs = Vec::new();
    rmpv::encode::write_value(&mut theirs, &reference).unwrap();
    assert_eq!(ours, theirs);
}

#[test]
fn float_bit_patterns_round_trip() {
    let bits = 1.5f64.to_bits();
    let encoded = encode_value(&Value::F64(bits));
    assert_eq!(encoded[0], 0xcb);
    match decode_exact(&encoded) {
        Value::F64(back) => assert_eq!(f64::from_bits(back), 1.5),
        other => panic!("expected a 64-bit float, got {:?}", other),
    }

    let bits32 = 0.25f32.to_bits();
    let encoded32 = encode_value(&Value::F32(bits32));
    assert_eq!(encoded32[0], 0xca);
    match decode_exact(&encoded32) {
        Value::F32(back) => assert_eq!(f32::from_bits(back), 0.25),
        other => panic!("expected a 32-bit float, got {:?}", other),
    }
}

#[test]
fn well_formedness_is_decided_executably() {
    assert!(Value::UInt(5).is_well_formed());
    assert!(Value::Int(-5).is_well_formed());
    // A non-negative integer in the signed form has no canonical
    // encoding: its well-formed representation is the unsigned one.
    assert!(!Value::Int(5).is_well_formed());
    assert!(Value::Array(vec![Value::Nil, Value::Int(-1)]).is_well_formed());
    assert!(!Value::Array(vec![Value::Nil, Value::Int(1)]).is_well_formed());
    assert!(!Value::Dict(vec![(Value::Str(b"k".to_vec()), Value::Int(0))]).is_well_formed());
}
