use wasm_canvas::ocapn::session::{OCapNObject, SessionManager};
use wasm_canvas::ocapn::syrup::SyrupValue;
use wasm_canvas::ocapn::types::{Descriptor, OCapNMessage, SwissNum};
use wasm_canvas::transport::{
    answer_request, call_result_of, deliver_reply, deliver_target, NoRepaint, OCapNReq, OCapNResp, PeerTable,
    RelayBook, RelayStep, RepaintSignal, SeqTracker,
};

struct Echo;

impl OCapNObject for Echo {
    fn deliver(&self, args: &[SyrupValue]) -> Result<Option<SyrupValue>, String> {
        Ok(Some(SyrupValue::List(args.to_vec())))
    }
}

struct Silent;

impl OCapNObject for Silent {
    fn deliver(&self, _args: &[SyrupValue]) -> Result<Option<SyrupValue>, String> {
        Ok(None)
    }
}

struct Broken;

impl OCapNObject for Broken {
    fn deliver(&self, _args: &[SyrupValue]) -> Result<Option<SyrupValue>, String> {
        Err("broken".to_string())
    }
}

fn deliver_to(swiss: &SwissNum, rest: Vec<SyrupValue>, id: u64) -> Vec<u8> {
    let mut args = vec![SyrupValue::Symbol("deliver-to".to_string()), swiss.to_syrup()];
    args.extend(rest);
    OCapNMessage::OpDeliver { to_desc: Descriptor::Export(0), args, request_id: id }.encode()
}

#[test]
fn repaint_signal_of_headless_mode() {
    let s: Box<dyn RepaintSignal> = Box::new(NoRepaint);
    s.request_repaint();
    let r = OCapNReq(vec![1, 2]);
    let a = OCapNResp(r.0.clone());
    assert_eq!(a.0, vec![1, 2]);
}

#[test]
fn stale_sequence_numbers_are_dropped() {
    let mut t = SeqTracker::new();
    assert!(t.accept("peer-a", "controls", 1));
    assert!(!t.accept("peer-a", "controls", 1));
    assert!(t.accept("peer-a", "controls", 3));
    assert!(!t.accept("peer-a", "controls", 2));
    assert!(t.accept("peer-a", "other", 2));
    assert!(t.accept("peer-b", "controls", 2));
    assert!(!t.accept("peer-c", "controls", 0));
}

#[test]
fn deliver_to_request_is_answered() {
    let mut mgr = SessionManager::new();
    let (_pos, swiss) = mgr.local_session_mut().export_object(Box::new(Echo));
    let req = deliver_to(&swiss, vec![SyrupValue::Integer(7)], 5);
    let (reply, received) = answer_request(&mgr, &req);
    assert!(received.is_some());
    let answer = OCapNMessage::decode(&reply).unwrap();
    assert_eq!(
        answer,
        OCapNMessage::OpDeliverResult { request_id: 5, value: SyrupValue::List(vec![SyrupValue::Integer(7)]) }
    );
    assert_eq!(call_result_of(&reply), Some((5, SyrupValue::List(vec![SyrupValue::Integer(7)]))));
}

#[test]
fn no_value_is_answered_false() {
    let mut mgr = SessionManager::new();
    let (_pos, swiss) = mgr.local_session_mut().export_object(Box::new(Silent));
    let (reply, _) = answer_request(&mgr, &deliver_to(&swiss, vec![], 9));
    assert_eq!(call_result_of(&reply), Some((9, SyrupValue::Bool(false))));
}

#[test]
fn failed_or_unknown_delivery_gets_empty_answer() {
    let mut mgr = SessionManager::new();
    let (_pos, swiss) = mgr.local_session_mut().export_object(Box::new(Broken));
    let (reply, received) = answer_request(&mgr, &deliver_to(&swiss, vec![], 1));
    assert!(reply.is_empty());
    assert!(received.is_some());
    let unknown = SwissNum([7u8; 16]);
    let (reply, _) = answer_request(&mgr, &deliver_to(&unknown, vec![], 2));
    assert!(reply.is_empty());
}

#[test]
fn other_requests_get_empty_answer() {
    let mgr = SessionManager::new();
    let abort = OCapNMessage::OpAbort { reason: "bye".to_string() }.encode();
    let (reply, received) = answer_request(&mgr, &abort);
    assert!(reply.is_empty());
    assert_eq!(received, Some(OCapNMessage::OpAbort { reason: "bye".to_string() }));
    let (reply, received) = answer_request(&mgr, b"garbage");
    assert!(reply.is_empty());
    assert!(received.is_none());
    let wrong_method = OCapNMessage::OpDeliver {
        to_desc: Descriptor::Export(0),
        args: vec![SyrupValue::Symbol("fetch".to_string()), SyrupValue::Bytestring(vec![0; 16])],
        request_id: 3,
    };
    assert_eq!(deliver_target(&wrong_method), None);
    let short_swiss = OCapNMessage::OpDeliver {
        to_desc: Descriptor::Export(0),
        args: vec![SyrupValue::Symbol("deliver-to".to_string()), SyrupValue::Bytestring(vec![0; 15])],
        request_id: 3,
    };
    assert_eq!(deliver_target(&short_swiss), None);
}

#[test]
fn replies_of_outcomes() {
    assert!(deliver_reply(1, Err("no".to_string())).is_empty());
    assert!(deliver_reply(1, Ok(Some(SyrupValue::Integer(i64::MIN)))).is_empty());
    let r = deliver_reply(4, Ok(Some(SyrupValue::String("hi".to_string()))));
    assert_eq!(call_result_of(&r), Some((4, SyrupValue::String("hi".to_string()))));
    assert_eq!(call_result_of(&[]), None);
    let abort = OCapNMessage::OpAbort { reason: "x".to_string() }.encode();
    assert_eq!(call_result_of(&abort), None);
}

#[test]
fn peer_table_reads_back_writes() {
    let mut t = PeerTable::new();
    t.insert("relay-1".to_string(), "/ip4/1.2.3.4/tcp/1".to_string());
    assert!(t.contains("relay-1"));
    assert_eq!(t.get("relay-1"), Some("/ip4/1.2.3.4/tcp/1".to_string()));
    t.insert("relay-1".to_string(), "/ip4/5.6.7.8/tcp/2".to_string());
    assert_eq!(t.get("relay-1"), Some("/ip4/5.6.7.8/tcp/2".to_string()));
    assert_eq!(t.remove("relay-1"), Some("/ip4/5.6.7.8/tcp/2".to_string()));
    assert!(!t.contains("relay-1"));
    assert_eq!(t.remove("relay-1"), None);
}

#[test]
fn relay_dialed_then_connected() {
    let mut book = RelayBook::new();
    match book.connect_relay(Some("R".to_string()), "/dns/relay/tcp/4001/p2p/R".to_string(), false) {
        RelayStep::DialRelay { relay, addr } => {
            assert_eq!(relay, "R");
            book.dialing(relay, addr);
        }
        _ => panic!("expected a dial"),
    }
    let (circuit, discover) = book.connected("R");
    assert_eq!(circuit, Some("/dns/relay/tcp/4001/p2p/R".to_string()));
    assert!(discover);
    let (again, _) = book.connected("R");
    assert_eq!(again, None);
    assert!(book.register_with("R"));
    assert!(!book.register_with("S"));
    assert_eq!(book.discovered("R", "peer-x", "me"), Some("/dns/relay/tcp/4001/p2p/R".to_string()));
    assert_eq!(book.discovered("R", "me", "me"), None);
    assert_eq!(book.discovered("S", "peer-x", "me"), None);
}

#[test]
fn relay_already_connected_or_unnamed() {
    let mut book = RelayBook::new();
    match book.connect_relay(Some("R".to_string()), "/ip4/1.1.1.1/tcp/1/p2p/R".to_string(), true) {
        RelayStep::ListenVia { relay, addr } => {
            assert_eq!(relay, "R");
            assert_eq!(addr, "/ip4/1.1.1.1/tcp/1/p2p/R");
        }
        _ => panic!("expected to listen"),
    }
    match book.connect_relay(None, "/ip4/2.2.2.2/tcp/1".to_string(), false) {
        RelayStep::Dial { addr } => assert_eq!(addr, "/ip4/2.2.2.2/tcp/1"),
        _ => panic!("expected a plain dial"),
    }
    assert!(!book.register_with("/ip4/2.2.2.2/tcp/1"));
}
