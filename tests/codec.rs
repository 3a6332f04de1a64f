use ext_tables::codec::{deserialize_value, serialize_value, CodecError, Value};

fn round_trip(v: Value) {
    let bytes = serialize_value(&v).unwrap();
    assert_eq!(deserialize_value(&bytes).unwrap(), v);
}

#[test]
fn round_trip_every_kind() {
    round_trip(Value::Nil);
    round_trip(Value::Boolean(true));
    round_trip(Value::Boolean(false));
    round_trip(Value::Integer(0));
    round_trip(Value::Integer(-1));
    round_trip(Value::Integer(i64::MIN));
    round_trip(Value::Integer(i64::MAX));
    round_trip(Value::Float(1.5f64.to_bits()));
    round_trip(Value::Float(f64::NAN.to_bits()));
    round_trip(Value::String(Vec::new()));
    round_trip(Value::String(b"counter".to_vec()));
    round_trip(Value::String(vec![0, 255, 4, 0]));
}

#[test]
fn decode_empty_is_nil() {
    assert_eq!(deserialize_value(&[]), Ok(Value::Nil));
}

#[test]
fn decode_unknown_tag_fails() {
    assert_eq!(deserialize_value(&[255]), Err(CodecError::InvalidEncoding));
    assert_eq!(deserialize_value(&[5, 1, 2]), Err(CodecError::InvalidEncoding));
}

#[test]
fn decode_truncated_payload_fails() {
    assert_eq!(deserialize_value(&[1]), Err(CodecError::InvalidEncoding));
    assert_eq!(deserialize_value(&[2, 1, 0, 0]), Err(CodecError::InvalidEncoding));
    assert_eq!(deserialize_value(&[3, 0, 0, 0, 0, 0, 0, 0]), Err(CodecError::InvalidEncoding));
    assert_eq!(deserialize_value(&[4, 3, 0, 0, 0, b'a', b'b']), Err(CodecError::InvalidEncoding));
    assert_eq!(deserialize_value(&[4, 1, 0]), Err(CodecError::InvalidEncoding));
}

#[test]
fn exact_encodings() {
    assert_eq!(serialize_value(&Value::Nil).unwrap(), vec![0]);
    assert_eq!(serialize_value(&Value::Boolean(true)).unwrap(), vec![1, 1]);
    assert_eq!(serialize_value(&Value::Integer(1)).unwrap(), vec![2, 1, 0, 0, 0, 0, 0, 0, 0]);
    assert_eq!(
        serialize_value(&Value::Integer(-2)).unwrap(),
        vec![2, 0xfe, 0xff, 0xff, 0xff, 0xff, 0xff, 0xff, 0xff]
    );
    assert_eq!(
        serialize_value(&Value::Float(1.0f64.to_bits())).unwrap(),
        vec![3, 0, 0, 0, 0, 0, 0, 0xf0, 0x3f]
    );
    assert_eq!(
        serialize_value(&Value::String(b"ab".to_vec())).unwrap(),
        vec![4, 2, 0, 0, 0, b'a', b'b']
    );
}

#[test]
fn decode_ignores_trailing_bytes_and_reads_nonzero_as_true() {
    assert_eq!(deserialize_value(&[1, 7, 9]), Ok(Value::Boolean(true)));
    assert_eq!(deserialize_value(&[0, 1, 2]), Ok(Value::Nil));
}

#[test]
fn encode_rejects_other_kinds() {
    assert_eq!(serialize_value(&Value::Other), Err(CodecError::UnsupportedType));
}
