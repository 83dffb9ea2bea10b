use warp_cache::codec::{
    deserialize, deserialize_one, pickle_payload, serialize, serialize_element, wrap_pickle,
    CodecError, Value,
};

fn same(a: &Value, b: &Value) -> bool {
    match (a, b) {
        (Value::Nil, Value::Nil) => true,
        (Value::Bool(x), Value::Bool(y)) => x == y,
        (Value::Int(x), Value::Int(y)) => x == y,
        (Value::Float(x), Value::Float(y)) => x == y,
        (Value::Str(x), Value::Str(y)) => x == y,
        (Value::Bytes(x), Value::Bytes(y)) => x == y,
        (Value::Tuple(x), Value::Tuple(y)) => {
            x.len() == y.len() && x.iter().zip(y.iter()).all(|(p, q)| same(p, q))
        }
        (Value::Unsupported, Value::Unsupported) => true,
        _ => false,
    }
}

fn round_trip(v: Value) {
    let bytes = serialize(&v).unwrap();
    let back = deserialize(&bytes).unwrap().unwrap();
    assert!(same(&v, &back));
}

#[test]
fn encodings_of_the_kinds() {
    assert_eq!(serialize(&Value::Nil).unwrap(), vec![1]);
    assert_eq!(serialize(&Value::Bool(false)).unwrap(), vec![2]);
    assert_eq!(serialize(&Value::Bool(true)).unwrap(), vec![3]);
    assert_eq!(
        serialize(&Value::Int(0x0102_0304_0506_0708)).unwrap(),
        vec![4, 8, 7, 6, 5, 4, 3, 2, 1]
    );
    assert_eq!(serialize(&Value::Int(-1)).unwrap(), vec![4, 255, 255, 255, 255, 255, 255, 255, 255]);
    assert_eq!(
        serialize(&Value::Float(1.5f64.to_bits())).unwrap(),
        [vec![5u8], 1.5f64.to_le_bytes().to_vec()].concat()
    );
    assert_eq!(
        serialize(&Value::Str("hé".to_string())).unwrap(),
        vec![6, 3, 0, 0, 0, b'h', 0xc3, 0xa9]
    );
    assert_eq!(serialize(&Value::Bytes(vec![9, 8])).unwrap(), vec![7, 2, 0, 0, 0, 9, 8]);
    assert_eq!(
        serialize(&Value::Tuple(vec![Value::Nil, Value::Int(1)])).unwrap(),
        vec![8, 2, 1, 4, 1, 0, 0, 0, 0, 0, 0, 0]
    );
    assert_eq!(serialize(&Value::Tuple(vec![])).unwrap(), vec![8, 0]);
}

#[test]
fn round_trips() {
    round_trip(Value::Nil);
    round_trip(Value::Bool(true));
    round_trip(Value::Bool(false));
    round_trip(Value::Int(0));
    round_trip(Value::Int(i64::MIN));
    round_trip(Value::Int(i64::MAX));
    round_trip(Value::Float(0.1f64.to_bits()));
    round_trip(Value::Float(f64::NAN.to_bits()));
    round_trip(Value::Float((-0.0f64).to_bits()));
    round_trip(Value::Str(String::new()));
    round_trip(Value::Str("grüße, 世界".to_string()));
    round_trip(Value::Bytes(vec![]));
    round_trip(Value::Bytes((0..=255u8).collect()));
    round_trip(Value::Tuple(vec![]));
    round_trip(Value::Tuple(vec![
        Value::Nil,
        Value::Bool(true),
        Value::Int(-5),
        Value::Float(2.5f64.to_bits()),
        Value::Str("x".to_string()),
        Value::Bytes(vec![0, 1]),
        Value::Tuple(vec![Value::Tuple(vec![Value::Int(7)]), Value::Nil]),
    ]));
    round_trip(Value::Tuple((0..255).map(Value::Int).collect()));
}

#[test]
fn values_without_an_encoding() {
    assert!(serialize(&Value::Unsupported).is_none());
    assert!(serialize(&Value::Tuple(vec![Value::Int(1), Value::Unsupported])).is_none());
    assert!(serialize(&Value::Tuple(vec![Value::Tuple(vec![Value::Unsupported])])).is_none());
    assert!(serialize(&Value::Tuple((0..256).map(Value::Int).collect())).is_none());
}

#[test]
fn truncated_bytes_are_errors() {
    assert_eq!(deserialize(&[]).unwrap_err(), CodecError::Truncated);
    assert_eq!(deserialize(&[4, 1, 2, 3]).unwrap_err(), CodecError::Truncated);
    assert_eq!(deserialize(&[5, 1, 2, 3, 4, 5, 6, 7]).unwrap_err(), CodecError::Truncated);
    assert_eq!(deserialize(&[6, 1, 0]).unwrap_err(), CodecError::Truncated);
    assert_eq!(deserialize(&[6, 2, 0, 0, 0, b'a']).unwrap_err(), CodecError::Truncated);
    assert_eq!(deserialize(&[7, 1, 0, 0, 0]).unwrap_err(), CodecError::Truncated);
    assert_eq!(deserialize(&[8]).unwrap_err(), CodecError::Truncated);
    assert_eq!(deserialize(&[8, 2, 1]).unwrap_err(), CodecError::Truncated);
    assert_eq!(deserialize(&[8, 1, 8, 1]).unwrap_err(), CodecError::Truncated);
    assert_eq!(
        deserialize(&[7, 0xff, 0xff, 0xff, 0xff, 1, 2]).unwrap_err(),
        CodecError::Truncated
    );
}

#[test]
fn unknown_tags_are_errors() {
    assert_eq!(deserialize(&[9]).unwrap_err(), CodecError::InvalidTag);
    assert_eq!(deserialize(&[255, 1, 2]).unwrap_err(), CodecError::InvalidTag);
    assert_eq!(deserialize(&[8, 1, 0]).unwrap_err(), CodecError::InvalidTag);
    assert_eq!(deserialize(&[8, 2, 1, 77]).unwrap_err(), CodecError::InvalidTag);
    assert_eq!(deserialize_one(&[0, 1, 2]).unwrap_err(), CodecError::InvalidTag);
}

#[test]
fn strings_must_be_utf8() {
    assert_eq!(deserialize(&[6, 1, 0, 0, 0, 0xff]).unwrap_err(), CodecError::InvalidUtf8);
    assert_eq!(deserialize(&[6, 2, 0, 0, 0, 0xc3, 0x28]).unwrap_err(), CodecError::InvalidUtf8);
    assert_eq!(
        deserialize(&[8, 1, 6, 1, 0, 0, 0, 0x80]).unwrap_err(),
        CodecError::InvalidUtf8
    );
    match deserialize(&[6, 2, 0, 0, 0, 0xc3, 0xa9]).unwrap().unwrap() {
        Value::Str(s) => assert_eq!(s, "é"),
        _ => panic!("expected a string"),
    }
    // Bytes need not be UTF-8.
    match deserialize(&[7, 1, 0, 0, 0, 0xff]).unwrap().unwrap() {
        Value::Bytes(b) => assert_eq!(b, vec![0xff]),
        _ => panic!("expected bytes"),
    }
}

#[test]
fn bytes_behind_the_value_are_ignored() {
    assert!(same(&deserialize(&[1, 9, 9]).unwrap().unwrap(), &Value::Nil));
    let (v, used) = deserialize_one(&[4, 5, 0, 0, 0, 0, 0, 0, 0, 3]).unwrap();
    assert!(same(&v, &Value::Int(5)));
    assert_eq!(used, 9);
    let (v, used) = deserialize_one(&[8, 2, 2, 3, 1]).unwrap();
    assert!(same(&v, &Value::Tuple(vec![Value::Bool(false), Value::Bool(true)])));
    assert_eq!(used, 4);
}

#[test]
fn externally_serialized_bytes() {
    let wrapped = wrap_pickle(&[10, 20, 30]);
    assert_eq!(wrapped, vec![0, 10, 20, 30]);
    assert!(deserialize(&wrapped).unwrap().is_none());
    assert_eq!(pickle_payload(&wrapped), &[10, 20, 30]);
    assert_eq!(wrap_pickle(&[]), vec![0]);
    assert_eq!(pickle_payload(&[0]), &[] as &[u8]);
    assert!(deserialize(&[0]).unwrap().is_none());
}

#[test]
fn a_failed_tuple_leaves_the_buffer_as_it_was() {
    let mut buf = vec![9u8, 9];
    let bad = Value::Tuple(vec![
        Value::Int(1),
        Value::Str("abc".to_string()),
        Value::Tuple(vec![Value::Nil, Value::Unsupported]),
    ]);
    assert!(!serialize_element(&bad, &mut buf));
    assert_eq!(buf, vec![9, 9]);
    assert!(serialize_element(&Value::Bool(true), &mut buf));
    assert_eq!(buf, vec![9, 9, 3]);
}

#[test]
fn texts_of_the_codec_errors() {
    assert_eq!(CodecError::InvalidUtf8.message(), "invalid UTF-8");
    assert_eq!(CodecError::Truncated.message(), "truncated payload");
    assert_eq!(CodecError::InvalidTag.message(), "invalid tag");
}
