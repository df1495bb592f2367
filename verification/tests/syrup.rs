use wasm_canvas::ocapn::shown::debug_string;
use wasm_canvas::ocapn::syrup::{decode, encode, DecodeError, SyrupValue};

fn roundtrip(val: &SyrupValue) -> SyrupValue {
    let bytes = encode(val);
    let (decoded, consumed) = decode(&bytes).unwrap();
    assert_eq!(consumed, bytes.len());
    decoded
}

#[test]
fn test_bool() {
    assert_eq!(roundtrip(&SyrupValue::Bool(true)), SyrupValue::Bool(true));
    assert_eq!(roundtrip(&SyrupValue::Bool(false)), SyrupValue::Bool(false));
}

#[test]
fn test_integer() {
    assert_eq!(roundtrip(&SyrupValue::Integer(0)), SyrupValue::Integer(0));
    assert_eq!(roundtrip(&SyrupValue::Integer(42)), SyrupValue::Integer(42));
    assert_eq!(roundtrip(&SyrupValue::Integer(-7)), SyrupValue::Integer(-7));
    assert_eq!(roundtrip(&SyrupValue::Integer(12345)), SyrupValue::Integer(12345));
}

#[test]
fn test_float64() {
    let f = |x: f64| SyrupValue::Float64(x.to_bits());
    assert_eq!(roundtrip(&f(3.14)), f(3.14));
    assert_eq!(roundtrip(&f(0.0)), f(0.0));
    assert_eq!(roundtrip(&f(-1.5)), f(-1.5));
}

#[test]
fn test_float32() {
    let v = SyrupValue::Float32(1.0f32.to_bits());
    assert_eq!(roundtrip(&v), SyrupValue::Float32(1.0f32.to_bits()));
}

#[test]
fn test_bytestring() {
    let val = SyrupValue::Bytestring(vec![0xDE, 0xAD, 0xBE, 0xEF]);
    assert_eq!(roundtrip(&val), val);
    assert_eq!(roundtrip(&SyrupValue::Bytestring(vec![])), SyrupValue::Bytestring(vec![]));
}

#[test]
fn test_string() {
    let val = SyrupValue::String("hello world".into());
    assert_eq!(roundtrip(&val), val);
    assert_eq!(roundtrip(&SyrupValue::String(String::new())), SyrupValue::String(String::new()));
}

#[test]
fn test_symbol() {
    let val = SyrupValue::Symbol("op:deliver-only".into());
    assert_eq!(roundtrip(&val), val);
}

#[test]
fn test_list() {
    let val = SyrupValue::List(vec![
        SyrupValue::Integer(1),
        SyrupValue::String("two".into()),
        SyrupValue::Bool(true),
    ]);
    assert_eq!(roundtrip(&val), val);
    assert_eq!(roundtrip(&SyrupValue::List(vec![])), SyrupValue::List(vec![]));
}

#[test]
fn test_dict() {
    let val = SyrupValue::Dict(vec![(SyrupValue::Symbol("key".into()), SyrupValue::Integer(42))]);
    assert_eq!(roundtrip(&val), val);
}

#[test]
fn test_record() {
    let val = SyrupValue::Record {
        label: Box::new(SyrupValue::Symbol("op:start-session".into())),
        fields: vec![SyrupValue::String("v1".into())],
    };
    assert_eq!(roundtrip(&val), val);
}

#[test]
fn test_nested() {
    let val = SyrupValue::List(vec![SyrupValue::Record {
        label: Box::new(SyrupValue::Symbol("pair".into())),
        fields: vec![SyrupValue::Integer(1), SyrupValue::List(vec![SyrupValue::Bool(false)])],
    }]);
    assert_eq!(roundtrip(&val), val);
}

#[test]
fn syrup_exact_encodings() {
    assert_eq!(encode(&SyrupValue::Integer(42)), b"42+".to_vec());
    assert_eq!(encode(&SyrupValue::Integer(-7)), b"7-".to_vec());
    assert_eq!(encode(&SyrupValue::String("hi".into())), b"2\"hi".to_vec());
    assert_eq!(encode(&SyrupValue::Symbol("op".into())), b"2'op".to_vec());
    assert_eq!(encode(&SyrupValue::Bytestring(vec![1, 2])), vec![b'2', b':', 1, 2]);
    assert_eq!(encode(&SyrupValue::List(vec![SyrupValue::Bool(true)])), b"[t]".to_vec());
    assert_eq!(
        encode(&SyrupValue::Float32(0x3f80_0000)),
        vec![b'F', 0x3f, 0x80, 0x00, 0x00]
    );
}

#[test]
fn syrup_decode_errors() {
    assert_eq!(decode(b"").unwrap_err(), DecodeError::UnexpectedEnd);
    assert_eq!(decode(b"5:ab").unwrap_err(), DecodeError::UnexpectedEnd);
    assert_eq!(decode(b"x").unwrap_err(), DecodeError::InvalidByte(b'x'));
    assert_eq!(decode(b"3?").unwrap_err(), DecodeError::InvalidByte(b'?'));
    assert_eq!(decode(&[b'1', b'"', 0xff]).unwrap_err(), DecodeError::Utf8Error);
    assert_eq!(decode(b"99999999999999999999999+").unwrap_err(), DecodeError::InvalidNumber);
    assert_eq!(decode(b"[t").unwrap_err(), DecodeError::UnexpectedEnd);
}

#[test]
fn syrup_decode_stops_after_value() {
    let (v, n) = decode(b"t[]").unwrap();
    assert_eq!(v, SyrupValue::Bool(true));
    assert_eq!(n, 1);
}

#[test]
fn shown_text_is_the_debug_text() {
    let values = vec![
        SyrupValue::Bool(true),
        SyrupValue::Integer(-42),
        SyrupValue::Integer(i64::MIN),
        SyrupValue::Float64(4607182418800017408),
        SyrupValue::Float32(1065353216),
        SyrupValue::Bytestring(vec![1, 2, 255]),
        SyrupValue::Bytestring(vec![]),
        SyrupValue::String("a\"b\\c\nd\te\r\u{0}\u{1b}\u{7f}é".to_string()),
        SyrupValue::Symbol("fetch".to_string()),
        SyrupValue::List(vec![SyrupValue::Integer(1), SyrupValue::List(vec![])]),
        SyrupValue::Dict(vec![(SyrupValue::Symbol("k".to_string()), SyrupValue::Bool(false))]),
        SyrupValue::Record {
            label: Box::new(SyrupValue::Symbol("op".to_string())),
            fields: vec![SyrupValue::Integer(3), SyrupValue::String(String::new())],
        },
    ];
    for v in &values {
        assert_eq!(debug_string(v), format!("{:?}", v));
    }
}
