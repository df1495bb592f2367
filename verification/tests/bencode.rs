use wasm_canvas::nrepl::bencode::{decode, decode_bytes, encode, encode_to_vec, DecodeError, Value};

#[test]
fn encode_string() {
    let v = Value::string("hello");
    assert_eq!(encode_to_vec(&v), b"5:hello");
}

#[test]
fn encode_integer() {
    let v = Value::Int(42);
    assert_eq!(encode_to_vec(&v), b"i42e");
}

#[test]
fn encode_negative_integer() {
    let v = Value::Int(-7);
    assert_eq!(encode_to_vec(&v), b"i-7e");
}

#[test]
fn encode_dict() {
    let v = Value::dict(vec![("op", Value::string("eval"))]);
    assert_eq!(encode_to_vec(&v), b"d2:op4:evale");
}

#[test]
fn encode_list() {
    let v = Value::List(vec![Value::string("done")]);
    assert_eq!(encode_to_vec(&v), b"l4:donee");
}

#[test]
fn decode_string() {
    let v = decode_bytes(b"5:hello").unwrap();
    assert_eq!(v, Value::string("hello"));
}

#[test]
fn decode_integer() {
    let v = decode_bytes(b"i42e").unwrap();
    assert_eq!(v, Value::Int(42));
}

#[test]
fn decode_dict() {
    let v = decode_bytes(b"d2:op4:evale").unwrap();
    assert_eq!(v.get_str("op"), Some("eval"));
}

#[test]
fn decode_nested() {
    let v = decode_bytes(b"d6:statusl4:doneee").unwrap();
    let list = v.get("status").unwrap().as_list().unwrap();
    assert_eq!(list.len(), 1);
    assert_eq!(list[0].as_str(), Some("done"));
}

#[test]
fn roundtrip() {
    let original = Value::dict(vec![
        ("code", Value::string("(+ 1 2)")),
        ("id", Value::string("msg-1")),
        ("op", Value::string("eval")),
        ("session", Value::string("sess-abc")),
    ]);
    let encoded = encode_to_vec(&original);
    let decoded = decode_bytes(&encoded).unwrap();
    assert_eq!(original, decoded);
}

#[test]
fn decode_incomplete() {
    assert!(decode_bytes(b"5:hel").is_err());
}

#[test]
fn dict_keys_are_sorted_and_replaced() {
    let v = Value::dict(vec![("b", Value::Int(1)), ("a", Value::Int(2)), ("b", Value::Int(3))]);
    assert_eq!(encode_to_vec(&v), b"d1:ai2e1:bi3ee");
    let d = v.as_dict().unwrap();
    assert_eq!(d.len(), 2);
    assert_eq!(d[0].0, "a");
    assert_eq!(v.get("b").unwrap().as_i64(), Some(3));
    assert!(v.get("c").is_none());
}

#[test]
fn decoded_dict_is_sorted() {
    let v = decode_bytes(b"d1:bi1e1:ai2e1:bi5ee").unwrap();
    assert_eq!(encode_to_vec(&v), b"d1:ai2e1:bi5ee");
}

#[test]
fn integer_forms() {
    assert_eq!(decode_bytes(b"i-0e").unwrap(), Value::Int(0));
    assert_eq!(decode_bytes(b"i+5e").unwrap(), Value::Int(5));
    assert_eq!(decode_bytes(b"i007e").unwrap(), Value::Int(7));
    assert_eq!(decode_bytes(b"i-9223372036854775808e").unwrap(), Value::Int(i64::MIN));
    assert_eq!(encode_to_vec(&Value::Int(i64::MIN)), b"i-9223372036854775808e");
    let n = decode_bytes(b"i9223372036854775808e");
    assert!(matches!(n, Err(DecodeError::InvalidFormat(ref m)) if m == "invalid integer: 9223372036854775808"));
}

#[test]
fn decode_error_messages() {
    assert!(matches!(decode_bytes(b""), Err(DecodeError::UnexpectedEof)));
    assert!(matches!(decode_bytes(b"i12"), Err(DecodeError::UnexpectedEof)));
    assert!(matches!(decode_bytes(b"x"), Err(DecodeError::InvalidFormat(ref m)) if m == "unexpected byte: x"));
    assert!(matches!(decode_bytes(b"ie"), Err(DecodeError::InvalidFormat(ref m)) if m == "invalid integer: "));
    assert!(matches!(decode_bytes(b"3x"), Err(DecodeError::InvalidFormat(ref m)) if m == "expected digit or ':', got 'x'"));
    assert!(matches!(decode_bytes(b"i\xffe"), Err(DecodeError::InvalidFormat(ref m)) if m == "invalid integer bytes"));
    assert!(matches!(decode_bytes(b"d1:\xffi1ee"), Err(DecodeError::InvalidFormat(ref m)) if m == "dict key not utf8"));
    assert!(matches!(decode_bytes(b"dx1:ae"), Err(DecodeError::InvalidFormat(ref m)) if m == "invalid length: x1"));
    assert!(matches!(decode_bytes(b"dxy:ae"), Err(DecodeError::InvalidFormat(ref m)) if m == "expected digit or ':', got 'y'"));
    assert!(matches!(decode_bytes(b"d-1:ae"), Err(DecodeError::InvalidFormat(ref m)) if m == "invalid length: -1"));
    assert!(matches!(decode_bytes(b"l"), Err(DecodeError::UnexpectedEof)));
}

#[test]
fn decode_reports_consumed_bytes() {
    let (v, n) = decode(b"4:spamtrailing").unwrap();
    assert_eq!(v, Value::string("spam"));
    assert_eq!(n, 6);
}

#[test]
fn encode_appends() {
    let mut buf = b"x".to_vec();
    encode(&Value::Int(1), &mut buf);
    assert_eq!(buf, b"xi1e");
}

#[test]
fn accessors() {
    let v = Value::Bytes(vec![0xff]);
    assert_eq!(v.as_str(), None);
    assert_eq!(Value::Int(3).as_str(), None);
    assert_eq!(Value::Int(3).as_i64(), Some(3));
    assert!(Value::Int(3).as_list().is_none());
    assert!(Value::Int(3).as_dict().is_none());
    assert_eq!(Value::string("z").get_str("k"), None);
}

#[test]
fn every_strict_prefix_ends_too_soon() {
    let v = Value::dict(vec![
        ("code", Value::string("(+ 1 2)")),
        ("n", Value::Int(-42)),
        ("status", Value::List(vec![Value::string("done"), Value::Int(7)])),
    ]);
    let encoded = encode_to_vec(&v);
    for k in 0..encoded.len() {
        assert!(matches!(decode_bytes(&encoded[..k]), Err(DecodeError::UnexpectedEof)), "prefix {}", k);
    }
    assert!(matches!(decode_bytes(b"5:hel"), Err(DecodeError::UnexpectedEof)));
}
