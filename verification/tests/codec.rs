use tremor_runtime::codec::{encode_value, lookup, Codec};
use tremor_runtime::error::ErrorKind;
use tremor_runtime::value::Value;

fn sample_value() -> Value {
    Value::Record(vec![
        (b"name".to_vec(), Value::Text(b"badger".to_vec())),
        (b"count".to_vec(), Value::UInt(3)),
        (
            b"tags".to_vec(),
            Value::Array(vec![Value::Null, Value::UInt(9), Value::Text(b"x".to_vec())]),
        ),
    ])
}

#[test]
fn round_trip_nested_value() {
    let v = sample_value();
    let c = Codec::Binary;
    let bytes = c.encode(&v);
    let back = c.decode(&bytes, 0).expect("decode").expect("value");
    assert!(back.deep_eq(&v));
}

#[test]
fn round_trip_scalars() {
    let c = Codec::Binary;
    for v in [Value::Null, Value::UInt(0), Value::UInt(u64::MAX), Value::Text(Vec::new())] {
        let bytes = c.encode(&v);
        let back = c.decode(&bytes, 0).expect("decode").expect("value");
        assert!(back.deep_eq(&v));
    }
}

#[test]
fn uint_wire_format_is_tagged_big_endian() {
    let bytes = encode_value(&Value::UInt(5));
    assert_eq!(bytes, vec![1, 0, 0, 0, 0, 0, 0, 0, 5]);
}

#[test]
fn empty_input_decodes_to_no_value() {
    let c = Codec::Binary;
    assert!(matches!(c.decode(&Vec::new(), 0), Ok(None)));
}

#[test]
fn bad_tag_is_a_decode_error() {
    let c = Codec::Binary;
    assert!(matches!(c.decode(&vec![9u8], 0), Err(ErrorKind::Decode)));
}

#[test]
fn trailing_bytes_are_a_decode_error() {
    let c = Codec::Binary;
    let mut bytes = c.encode(&Value::Null);
    bytes.push(0);
    assert!(matches!(c.decode(&bytes, 0), Err(ErrorKind::Decode)));
}

#[test]
fn truncated_input_is_a_decode_error() {
    let c = Codec::Binary;
    let v = sample_value();
    let mut bytes = c.encode(&v);
    bytes.pop();
    assert!(matches!(c.decode(&bytes, 0), Err(ErrorKind::Decode)));
}

#[test]
fn lookup_resolves_binary_only() {
    assert_eq!(lookup("binary"), Ok(Codec::Binary));
    assert_eq!(lookup("json"), Err(ErrorKind::Config));
}

#[test]
fn error_messages_name_their_kind() {
    assert_eq!(ErrorKind::Decode.message(), "decode error");
    assert_eq!(ErrorKind::Config.message(), "configuration error");
}
