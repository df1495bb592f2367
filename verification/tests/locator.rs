use wasm_canvas::ocapn::locator::OCapNLocator;
use wasm_canvas::ocapn::types::SwissNum;

#[test]
fn test_parse_with_swiss() {
    let sn = SwissNum([0xab; 16]);
    let uri = format!("ocapn://12D3peer.libp2p/s/{}", sn.to_hex());
    let loc = OCapNLocator::parse(&uri).unwrap();
    assert_eq!(loc.designator, "12D3peer");
    assert_eq!(loc.transport, "libp2p");
    assert_eq!(loc.swiss_num, Some(sn));
}

#[test]
fn test_parse_without_swiss() {
    let loc = OCapNLocator::parse("ocapn://node1.libp2p").unwrap();
    assert_eq!(loc.designator, "node1");
    assert_eq!(loc.transport, "libp2p");
    assert_eq!(loc.swiss_num, None);
}

#[test]
fn test_roundtrip() {
    let sn = SwissNum::random();
    let loc = OCapNLocator {
        designator: "peer123".into(),
        transport: "libp2p".into(),
        swiss_num: Some(sn),
    };
    let uri = loc.to_uri();
    let parsed = OCapNLocator::parse(&uri).unwrap();
    assert_eq!(loc, parsed);
}

#[test]
fn test_invalid_uris() {
    assert!(OCapNLocator::parse("http://foo.bar").is_none());
    assert!(OCapNLocator::parse("ocapn://noperiod").is_none());
    assert!(OCapNLocator::parse("ocapn://.transport").is_none());
    assert!(OCapNLocator::parse("ocapn://designator.").is_none());
}

#[test]
fn locator_uri_text_is_exact() {
    let loc = OCapNLocator {
        designator: "peerX".into(),
        transport: "tcp".into(),
        swiss_num: Some(SwissNum([0x01; 16])),
    };
    assert_eq!(loc.to_uri(), "ocapn://peerX.tcp/s/01010101010101010101010101010101");
    let bare = OCapNLocator { designator: "a".into(), transport: "b".into(), swiss_num: None };
    assert_eq!(bare.to_uri(), "ocapn://a.b");
}

#[test]
fn locator_bad_swiss_is_dropped() {
    let loc = OCapNLocator::parse("ocapn://a.b/s/zz").unwrap();
    assert_eq!(loc.swiss_num, None);
    let loc = OCapNLocator::parse("ocapn://a.b/s/0101").unwrap();
    assert_eq!(loc.swiss_num, None);
    let loc = OCapNLocator::parse("ocapn://x.y.z/other").unwrap();
    assert_eq!(loc.designator, "x.y");
    assert_eq!(loc.transport, "z");
    assert_eq!(loc.swiss_num, None);
}
