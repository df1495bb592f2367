use wasm_canvas::ocapn::syrup::SyrupValue;
use wasm_canvas::ocapn::types::{Descriptor, OCapNMessage, SwissNum};

#[test]
fn test_swiss_num_roundtrip() {
    let sn = SwissNum::random();
    let hex = sn.to_hex();
    let back = SwissNum::from_hex(&hex).unwrap();
    assert_eq!(sn, back);
}

#[test]
fn test_op_deliver_roundtrip() {
    let msg = OCapNMessage::OpDeliver {
        to_desc: Descriptor::Export(0),
        args: vec![
            SyrupValue::Symbol("deliver-to".into()),
            SyrupValue::Bytestring(vec![0xAB; 16]),
            SyrupValue::Symbol("get".into()),
        ],
        request_id: 12345,
    };
    let bytes = msg.encode();
    let decoded = OCapNMessage::decode(&bytes).unwrap();
    assert_eq!(msg, decoded);
}

#[test]
fn swiss_hex_is_lowercase_pairs() {
    let mut b = [0u8; 16];
    b[0] = 0xAB;
    b[15] = 0x01;
    assert_eq!(SwissNum(b).to_hex(), "ab000000000000000000000000000001");
    assert_eq!(SwissNum::from_hex("AB000000000000000000000000000001"), Some(SwissNum(b)));
    assert_eq!(SwissNum::from_hex("ab"), None);
    assert_eq!(SwissNum::from_hex("zz000000000000000000000000000001"), None);
}

#[test]
fn swiss_random_differs_from_its_argument_free_call() {
    let a = SwissNum::random();
    let b = SwissNum::random();
    assert_eq!(a.to_hex().len(), 32);
    assert_ne!(a, b);
}

#[test]
fn swiss_syrup_form() {
    let sn = SwissNum([7; 16]);
    assert_eq!(sn.to_syrup(), SyrupValue::Bytestring(vec![7; 16]));
    assert_eq!(SwissNum::from_syrup(&SyrupValue::Bytestring(vec![7; 16])), Some(sn));
    assert_eq!(SwissNum::from_syrup(&SyrupValue::Bytestring(vec![7; 15])), None);
    assert_eq!(SwissNum::from_syrup(&SyrupValue::Integer(7)), None);
}

#[test]
fn descriptor_syrup_roundtrip() {
    for d in [Descriptor::Export(3), Descriptor::ImportObject(9)] {
        assert_eq!(Descriptor::from_syrup(&d.to_syrup()), Some(d));
    }
    assert_eq!(
        Descriptor::Export(5).to_syrup(),
        SyrupValue::Record {
            label: Box::new(SyrupValue::Symbol("desc:export".into())),
            fields: vec![SyrupValue::Integer(5)],
        }
    );
}

#[test]
fn message_roundtrips() {
    let msgs = vec![
        OCapNMessage::OpStartSession { session_pubkey: vec![1, 2, 3] },
        OCapNMessage::OpDeliverOnly { to_desc: Descriptor::ImportObject(2), args: vec![] },
        OCapNMessage::OpDeliverResult { request_id: 7, value: SyrupValue::Bool(false) },
        OCapNMessage::OpAbort { reason: "bye".into() },
    ];
    for m in msgs {
        let bytes = m.encode();
        assert_eq!(OCapNMessage::decode(&bytes).unwrap(), m);
    }
}
