use wasm_canvas::nrepl::bencode::{decode_bytes, encode_to_vec, DecodeError, Value};
use wasm_canvas::nrepl::client::{
    clone_request, completions_request, describe_request, eval_request, info_request, is_done,
    load_file_request, new_session_of, ns_list_request, switch_ns_request, RequestIds,
};

#[test]
fn message_ids_count_up() {
    let mut ids = RequestIds::new();
    assert_eq!(ids.next_id(), "msg-1");
    assert_eq!(ids.next_id(), "msg-2");
    assert_eq!(ids.sent, 2);
    let mut far = RequestIds { sent: 99 };
    assert_eq!(far.next_id(), "msg-100");
}

#[test]
fn request_encodings() {
    assert_eq!(encode_to_vec(&clone_request("msg-1")), b"d2:id5:msg-12:op5:clonee".to_vec());
    assert_eq!(
        encode_to_vec(&eval_request("msg-2", "s1", "(+ 1 2)")),
        b"d4:code7:(+ 1 2)2:id5:msg-22:op4:eval7:session2:s1e".to_vec()
    );
    assert_eq!(encode_to_vec(&describe_request("x")), b"d2:id1:x2:op8:describee".to_vec());
    assert_eq!(
        encode_to_vec(&completions_request("a", "s", "de")),
        b"d2:id1:a2:op11:completions6:prefix2:de7:session1:se".to_vec()
    );
    assert_eq!(
        encode_to_vec(&info_request("a", "s", "car")),
        b"d2:id1:a2:op4:info7:session1:s6:symbol3:care".to_vec()
    );
    assert_eq!(encode_to_vec(&ns_list_request("a", "s")), b"d2:id1:a2:op7:ns-list7:session1:se".to_vec());
    assert_eq!(
        encode_to_vec(&switch_ns_request("a", "s", "user")),
        b"d2:id1:a2:ns4:user2:op9:switch-ns7:session1:se".to_vec()
    );
    assert_eq!(
        encode_to_vec(&load_file_request("a", "s", "f.scm", "(x)")),
        b"d4:file3:(x)9:file-path5:f.scm2:id1:a2:op9:load-file7:session1:se".to_vec()
    );
}

#[test]
fn done_status_ends_exchange() {
    let done = decode_bytes(b"d6:statusl4:doneee").unwrap();
    assert!(is_done(&done));
    let both = decode_bytes(b"d6:statusl10:eval-error4:doneee").unwrap();
    assert!(is_done(&both));
    let not_done = decode_bytes(b"d6:statusl10:eval-erroree").unwrap();
    assert!(!is_done(&not_done));
    let no_status = decode_bytes(b"d5:value1:3e").unwrap();
    assert!(!is_done(&no_status));
    let not_list = decode_bytes(b"d6:status4:donee").unwrap();
    assert!(!is_done(&not_list));
    assert!(!is_done(&Value::Int(1)));
}

#[test]
fn new_session_from_last_response() {
    let first = decode_bytes(b"d11:new-session9:session-9e").unwrap();
    let last = decode_bytes(b"d11:new-session9:session-1e").unwrap();
    assert_eq!(new_session_of(&vec![first, last]), Some("session-1".to_string()));
    assert_eq!(new_session_of(&vec![]), None);
    let without = decode_bytes(b"d2:id1:1e").unwrap();
    assert_eq!(new_session_of(&vec![without]), None);
}

#[test]
fn values_read_as_text() {
    assert_eq!(Value::string("hi").display(), "hi");
    assert_eq!(Value::Bytes(vec![0xff, 0xfe]).display(), "<bytes:2>");
    assert_eq!(Value::Int(-42).display(), "-42");
    assert_eq!(Value::Int(i64::MIN).display(), "-9223372036854775808");
    assert_eq!(Value::List(vec![Value::Int(1), Value::string("a")]).display(), "[1, a]");
    assert_eq!(Value::List(vec![]).display(), "[]");
    let d = decode_bytes(b"d1:ai1e1:bl1:xee").unwrap();
    assert_eq!(d.display(), "{a: 1, b: [x]}");
}

#[test]
fn decode_error_texts() {
    assert_eq!(DecodeError::UnexpectedEof.message(), "unexpected end of input");
    assert_eq!(DecodeError::InvalidFormat("bad".to_string()).message(), "invalid bencode: bad");
    match decode_bytes(b"x") {
        Err(e) => assert_eq!(e.message(), "invalid bencode: unexpected byte: x"),
        Ok(_) => panic!("expected an error"),
    }
}
