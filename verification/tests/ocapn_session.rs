use std::sync::{Arc, Mutex};
use wasm_canvas::ocapn::locator::OCapNLocator;
use wasm_canvas::ocapn::session::{BootstrapObject, OCapNObject, Session, SessionManager};
use wasm_canvas::ocapn::syrup::SyrupValue;
use wasm_canvas::ocapn::types::{Descriptor, OCapNMessage, SwissNum};

struct EchoObject;

impl OCapNObject for EchoObject {
    fn deliver(&self, args: &[SyrupValue]) -> Result<Option<SyrupValue>, String> {
        Ok(Some(SyrupValue::List(args.to_vec())))
    }
}

struct ValueHolder(SyrupValue);

impl OCapNObject for ValueHolder {
    fn deliver(&self, _args: &[SyrupValue]) -> Result<Option<SyrupValue>, String> {
        Ok(Some(self.0.clone()))
    }
}

struct SlotObject {
    value: Arc<Mutex<SyrupValue>>,
}

impl OCapNObject for SlotObject {
    fn deliver(&self, args: &[SyrupValue]) -> Result<Option<SyrupValue>, String> {
        let method = args.first().and_then(|a| {
            if let SyrupValue::Symbol(s) = a {
                Some(s.as_str())
            } else {
                None
            }
        });
        match method {
            Some("set") if args.len() >= 2 => {
                *self.value.lock().unwrap() = args[1].clone();
                Ok(None)
            }
            _ => Ok(Some(self.value.lock().unwrap().clone())),
        }
    }
}

#[test]
fn test_session_export_and_deliver() {
    let mut session = Session::new(Box::new(EchoObject));
    let result = session
        .deliver(&Descriptor::Export(0), &[SyrupValue::String("hello".into())])
        .unwrap();
    assert_eq!(result, Some(SyrupValue::List(vec![SyrupValue::String("hello".into())])));

    let (pos, swiss) = session.export_object(Box::new(ValueHolder(SyrupValue::Integer(42))));
    assert_eq!(pos, 1);

    let result = session.deliver(&Descriptor::Export(pos), &[]).unwrap();
    assert_eq!(result, Some(SyrupValue::Integer(42)));

    assert_eq!(session.lookup_by_swiss(&swiss), Some(1));
}

#[test]
fn session_test_session_export_and_deliver() {
    let mut session = Session::new(Box::new(EchoObject));
    let result = session
        .deliver(&Descriptor::Export(0), &[SyrupValue::String("hello".into())])
        .unwrap();
    assert_eq!(result, Some(SyrupValue::List(vec![SyrupValue::String("hello".into())])));
    let (pos, swiss) = session.export_object(Box::new(ValueHolder(SyrupValue::Integer(42))));
    assert_eq!(pos, 1);
    let result = session.deliver(&Descriptor::Export(pos), &[]).unwrap();
    assert_eq!(result, Some(SyrupValue::Integer(42)));
    assert_eq!(session.lookup_by_swiss(&swiss), Some(1));
}

#[test]
fn test_bootstrap_fetch() {
    let mut bootstrap = BootstrapObject::new();
    let sn = SwissNum::random();
    bootstrap.register(sn.clone(), 5);

    let result = bootstrap
        .deliver(&[SyrupValue::Symbol("fetch".into()), sn.to_syrup()])
        .unwrap();

    assert_eq!(result, Some(Descriptor::Export(5).to_syrup()));
}

#[test]
fn test_bootstrap_fetch_not_found() {
    let bootstrap = BootstrapObject::new();
    let sn = SwissNum::random();
    let result = bootstrap.deliver(&[SyrupValue::Symbol("fetch".into()), sn.to_syrup()]);
    assert!(result.is_err());
}

#[test]
fn test_session_manager_lifecycle() {
    let mut mgr = SessionManager::new();
    mgr.set_local_peer_id("peer-abc".into());

    assert_eq!(mgr.session_count(), 0);

    mgr.create_session("remote-1", Box::new(EchoObject));
    assert_eq!(mgr.session_count(), 1);
    assert!(mgr.get_session("remote-1").is_some());
    assert!(mgr.get_session("remote-2").is_none());

    mgr.remove_session("remote-1");
    assert_eq!(mgr.session_count(), 0);
}

#[test]
fn session_test_session_manager_lifecycle() {
    let mut mgr = SessionManager::new();
    mgr.set_local_peer_id("peer-abc".into());
    assert_eq!(mgr.session_count(), 0);
    mgr.create_session("remote-1", Box::new(EchoObject));
    assert_eq!(mgr.session_count(), 1);
    mgr.remove_session("remote-1");
    assert_eq!(mgr.session_count(), 0);
}

#[test]
fn test_deliver_by_swiss() {
    let mut mgr = SessionManager::new();
    let (_, swiss) = mgr.local_session_mut().export_object(Box::new(ValueHolder(SyrupValue::Integer(42))));
    let result = mgr.deliver_by_swiss(&swiss, &[]).unwrap();
    assert_eq!(result, Some(SyrupValue::Integer(42)));
}

#[test]
fn test_local_export_and_deliver_by_swiss() {
    let mut mgr = SessionManager::new();
    mgr.set_local_peer_id("12D3KooW_test".into());

    let (pos, swiss) = mgr.local_session_mut().export_object(Box::new(ValueHolder(SyrupValue::Integer(42))));
    assert_eq!(pos, 1);

    let result = mgr.deliver_by_swiss(&swiss, &[]).unwrap();
    assert_eq!(result, Some(SyrupValue::Integer(42)));
}

#[test]
fn test_local_deliver_unknown_swiss() {
    let mgr = SessionManager::new();
    let unknown = SwissNum::random();
    let result = mgr.deliver_by_swiss(&unknown, &[]);
    assert!(result.is_err());
}

#[test]
fn test_end_to_end_export_send_deliver() {
    let mut mgr_a = SessionManager::new();
    mgr_a.set_local_peer_id("peer-A".into());

    let val = SyrupValue::String("secret-data".into());
    let (_pos, swiss) = mgr_a.local_session_mut().export_object(Box::new(ValueHolder(val)));

    let uri = format!("ocapn://peer-A.libp2p/s/{}", swiss.to_hex());

    let locator = OCapNLocator::parse(&uri).unwrap();
    assert_eq!(locator.designator, "peer-A");
    let target_swiss = locator.swiss_num.unwrap();

    let msg = OCapNMessage::OpDeliverOnly {
        to_desc: Descriptor::Export(0),
        args: vec![
            SyrupValue::Symbol("deliver-to".into()),
            target_swiss.to_syrup(),
            SyrupValue::Symbol("get".into()),
        ],
    };

    let wire = msg.encode();
    let received = OCapNMessage::decode(&wire).unwrap();

    if let OCapNMessage::OpDeliverOnly { args, .. } = &received {
        assert!(args.len() >= 2);
        if let SyrupValue::Symbol(method) = &args[0] {
            assert_eq!(method, "deliver-to");
            let recv_swiss = SwissNum::from_syrup(&args[1]).unwrap();
            let remaining = &args[2..];
            let result = mgr_a.deliver_by_swiss(&recv_swiss, remaining).unwrap();
            assert_eq!(result, Some(SyrupValue::String("secret-data".into())));
        }
    } else {
        panic!("expected OpDeliverOnly");
    }
}

#[test]
fn test_deliver_to_invalid_export() {
    let session = Session::new(Box::new(EchoObject));
    let result = session.deliver(&Descriptor::Export(999), &[]);
    assert!(result.is_err());
}

#[test]
fn test_deliver_to_import_fails() {
    let session = Session::new(Box::new(EchoObject));
    let result = session.deliver(&Descriptor::ImportObject(0), &[]);
    assert!(result.is_err());
}

#[test]
fn test_exported_slot_get_set() {
    let val = Arc::new(Mutex::new(SyrupValue::Integer(42)));
    let slot = SlotObject { value: Arc::clone(&val) };

    let result = slot.deliver(&[]).unwrap();
    assert_eq!(result, Some(SyrupValue::Integer(42)));

    let result = slot
        .deliver(&[SyrupValue::Symbol("set".into()), SyrupValue::Integer(100)])
        .unwrap();
    assert_eq!(result, None);

    let result = slot.deliver(&[]).unwrap();
    assert_eq!(result, Some(SyrupValue::Integer(100)));

    assert_eq!(*val.lock().unwrap(), SyrupValue::Integer(100));
}

#[test]
fn test_exported_slot_via_session_manager() {
    let mut mgr = SessionManager::new();
    mgr.set_local_peer_id("test-peer".into());

    let val = Arc::new(Mutex::new(SyrupValue::String("hello".into())));
    let slot = SlotObject { value: Arc::clone(&val) };
    let (_pos, swiss) = mgr.local_session_mut().export_object(Box::new(slot));

    let result = mgr
        .deliver_by_swiss(&swiss, &[SyrupValue::Symbol("set".into()), SyrupValue::String("world".into())])
        .unwrap();
    assert_eq!(result, None);

    assert_eq!(*val.lock().unwrap(), SyrupValue::String("world".into()));

    let result = mgr.deliver_by_swiss(&swiss, &[]).unwrap();
    assert_eq!(result, Some(SyrupValue::String("world".into())));
}

#[test]
fn test_export_object_keyed_stable() {
    let mut session = Session::new(Box::new(EchoObject));

    let (pos1, swiss1) =
        session.export_object_keyed("node:1:export:0".into(), Box::new(ValueHolder(SyrupValue::Integer(42))));
    assert_eq!(pos1, 1);

    let (pos2, swiss2) =
        session.export_object_keyed("node:1:export:0".into(), Box::new(ValueHolder(SyrupValue::Integer(100))));
    assert_eq!(pos2, pos1);
    assert_eq!(swiss2, swiss1);

    let result = session.deliver(&Descriptor::Export(pos2), &[]).unwrap();
    assert_eq!(result, Some(SyrupValue::Integer(100)));

    let (pos3, swiss3) =
        session.export_object_keyed("node:1:export:1".into(), Box::new(ValueHolder(SyrupValue::Integer(200))));
    assert_ne!(pos3, pos1);
    assert_ne!(swiss3, swiss1);
}

#[test]
fn test_ensure_session_idempotent() {
    let mut mgr = SessionManager::new();
    assert_eq!(mgr.session_count(), 0);

    mgr.ensure_session("peer-1");
    assert_eq!(mgr.session_count(), 1);

    mgr.ensure_session("peer-1");
    assert_eq!(mgr.session_count(), 1);

    mgr.ensure_session("peer-2");
    assert_eq!(mgr.session_count(), 2);
}

#[test]
fn test_session_cleanup_on_remove() {
    let mut mgr = SessionManager::new();
    mgr.ensure_session("peer-1");
    mgr.ensure_session("peer-2");
    assert_eq!(mgr.session_count(), 2);

    mgr.remove_session("peer-1");
    assert_eq!(mgr.session_count(), 1);
    assert!(mgr.get_session("peer-1").is_none());
    assert!(mgr.get_session("peer-2").is_some());
}

#[test]
fn session_error_messages_are_exact() {
    let session = Session::new(Box::new(EchoObject));
    assert_eq!(session.deliver(&Descriptor::Export(999), &[]).unwrap_err(), "no export at position 999");
    assert_eq!(
        session.deliver(&Descriptor::ImportObject(4), &[]).unwrap_err(),
        "cannot deliver to import 4: not a local object"
    );
    let mgr = SessionManager::new();
    let sn = SwissNum([0x0f; 16]);
    assert_eq!(
        mgr.deliver_by_swiss(&sn, &[]).unwrap_err(),
        "swiss-num 0f0f0f0f0f0f0f0f0f0f0f0f0f0f0f0f not found in local exports"
    );
}

#[test]
fn bootstrap_errors_are_exact() {
    let mut b = BootstrapObject::new();
    assert_eq!(b.deliver(&[]).unwrap_err(), "bootstrap: expected (fetch swiss-num)");
    assert_eq!(
        b.deliver(&[SyrupValue::Symbol("fetch".into()), SyrupValue::Integer(1)]).unwrap_err(),
        "bootstrap: invalid swiss-num"
    );
    assert_eq!(
        b.deliver(&[SyrupValue::Symbol("fetch".into()), SwissNum([1; 16]).to_syrup()]).unwrap_err(),
        "bootstrap: swiss-num not found"
    );
    assert_eq!(
        b.deliver(&[SyrupValue::Symbol("get".into()), SyrupValue::Integer(1)]).unwrap_err(),
        format!("bootstrap: unknown method {:?}", SyrupValue::Symbol("get".into()))
    );
    b.register(SwissNum([1; 16]), 3);
    b.register(SwissNum([1; 16]), 8);
    assert_eq!(
        b.deliver(&[SyrupValue::Symbol("fetch".into()), SwissNum([1; 16]).to_syrup()]).unwrap(),
        Some(Descriptor::Export(8).to_syrup())
    );
}

#[test]
fn keyed_swiss_and_imports() {
    let mut session = Session::new(Box::new(EchoObject));
    assert_eq!(session.keyed_swiss("k"), None);
    let (_, sw) = session.export_object_keyed("k".into(), Box::new(EchoObject));
    assert_eq!(session.keyed_swiss("k"), Some(sw));
    assert_eq!(session.add_import(SyrupValue::Integer(1)), 0);
    assert_eq!(session.add_import(SyrupValue::Integer(2)), 1);
    assert_eq!(session.lookup_by_swiss(session.bootstrap_swiss()), Some(0));
}

#[test]
fn manager_peer_id_and_local_session() {
    let mut mgr = SessionManager::new();
    assert_eq!(mgr.local_peer_id(), None);
    mgr.set_local_peer_id("me".into());
    assert_eq!(mgr.local_peer_id(), Some("me"));
    let b = *mgr.local_session().bootstrap_swiss();
    assert_eq!(mgr.local_session().lookup_by_swiss(&b), Some(0));
    assert!(mgr.get_session_mut("nobody").is_none());
    mgr.ensure_session("p");
    assert!(mgr.get_session_mut("p").is_some());
}
