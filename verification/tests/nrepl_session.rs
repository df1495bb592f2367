use wasm_canvas::nrepl::bencode::Value;
use wasm_canvas::nrepl::session::{
    handle_message, Completion, EchoEvaluator, EvalResult, Evaluator, LoadFileResult, NodeState,
    SessionManager, SymbolInfo,
};

#[test]
fn create_session() {
    let mut mgr = SessionManager::new();
    let id = mgr.create_session();
    assert!(mgr.has_session(&id));
    assert_eq!(mgr.session_count(), 1);
}

#[test]
fn close_session() {
    let mut mgr = SessionManager::new();
    let id = mgr.create_session();
    assert!(mgr.close_session(&id));
    assert!(!mgr.has_session(&id));
    assert_eq!(mgr.session_count(), 0);
}

#[test]
fn eval_in_session() {
    let mut mgr = SessionManager::new();
    let eval = EchoEvaluator;
    let session = mgr.create_session();
    let msg = Value::dict(vec![
        ("op", Value::string("eval")),
        ("id", Value::string("1")),
        ("session", Value::string(&session)),
        ("code", Value::string("hello")),
    ]);
    let responses = handle_message(&msg, &mut mgr, &eval);
    assert_eq!(responses.len(), 1);
    assert_eq!(responses[0].get_str("value"), Some("hello"));
}

#[test]
fn eval_unknown_session() {
    let mut mgr = SessionManager::new();
    let eval = EchoEvaluator;
    let msg = Value::dict(vec![
        ("op", Value::string("eval")),
        ("id", Value::string("1")),
        ("session", Value::string("nonexistent")),
        ("code", Value::string("hello")),
    ]);
    let responses = handle_message(&msg, &mut mgr, &eval);
    let status = responses[0].get("status").unwrap().as_list().unwrap();
    assert!(status.iter().any(|v| v.as_str() == Some("unknown-session")));
}

#[test]
fn describe_ops() {
    let mut mgr = SessionManager::new();
    let eval = EchoEvaluator;
    let msg = Value::dict(vec![("op", Value::string("describe")), ("id", Value::string("1"))]);
    let responses = handle_message(&msg, &mut mgr, &eval);
    let ops = responses[0].get("ops").unwrap().as_dict().unwrap();
    let has = |k: &str| ops.iter().any(|(name, _)| name == k);
    assert!(has("eval"));
    assert!(has("clone"));
    assert!(has("close"));
    assert!(has("describe"));
}

#[test]
fn session_ids_count_up() {
    let mut mgr = SessionManager::new();
    assert_eq!(mgr.create_session(), "session-1");
    assert_eq!(mgr.create_session(), "session-2");
    assert!(!mgr.close_session("session-9"));
    assert!(mgr.close_session("session-1"));
    assert_eq!(mgr.create_session(), "session-3");
    assert_eq!(mgr.session_count(), 2);
}

#[test]
fn clone_and_close_messages() {
    let mut mgr = SessionManager::new();
    let eval = EchoEvaluator;
    let msg = Value::dict(vec![("op", Value::string("clone")), ("id", Value::string("7"))]);
    let r = handle_message(&msg, &mut mgr, &eval);
    assert_eq!(r.len(), 1);
    assert_eq!(r[0].get_str("new-session"), Some("session-1"));
    assert_eq!(r[0].get_str("id"), Some("7"));
    let close = Value::dict(vec![("op", Value::string("close")), ("session", Value::string("session-1"))]);
    let r = handle_message(&close, &mut mgr, &eval);
    assert_eq!(r[0].get_str("id"), Some("unknown"));
    assert_eq!(r[0].get_str("session"), Some("session-1"));
    assert_eq!(mgr.session_count(), 0);
}

#[test]
fn unknown_op_reply() {
    let mut mgr = SessionManager::new();
    let eval = EchoEvaluator;
    let msg = Value::dict(vec![("op", Value::string("frobnicate"))]);
    let r = handle_message(&msg, &mut mgr, &eval);
    let status = r[0].get("status").unwrap().as_list().unwrap();
    let words: Vec<&str> = status.iter().map(|v| v.as_str().unwrap()).collect();
    assert_eq!(words, vec!["error", "unknown-op", "done"]);
}

struct Rich;

impl Evaluator for Rich {
    fn eval(&self, _session_id: &str, code: &str) -> EvalResult {
        EvalResult {
            value: Some(format!("v:{}", code)),
            out: Some("printed".into()),
            err: Some("warned".into()),
            ex: Some("boom".into()),
        }
    }
    fn completions(&self, _s: &str, prefix: &str, _ns: Option<&str>) -> Vec<Completion> {
        vec![Completion { candidate: format!("{}x", prefix), ns: None, kind: Some("var".into()) }]
    }
    fn info(&self, _s: &str, symbol: &str, _ns: Option<&str>) -> Option<SymbolInfo> {
        Some(SymbolInfo { name: symbol.into(), ns: Some("user".into()), file: None, doc: None })
    }
    fn load_file(&self, _s: &str, _path: &str, _content: &str) -> LoadFileResult {
        LoadFileResult { value: Some("ok".into()), error: None }
    }
    fn ns_list(&self, _s: &str) -> Vec<String> {
        vec!["a".into(), "b".into()]
    }
    fn switch_ns(&self, _s: &str, ns: &str) -> bool {
        ns == "a"
    }
    fn create_node(
        &self,
        _canvas: &str,
        _label: &str,
        _code: &str,
        _exports: &[String],
        _imports: &[(String, String)],
    ) -> Result<String, String> {
        Err("create-node not implemented".into())
    }
    fn delete_node(&self, _canvas: &str, _label: &str) -> Result<(), String> {
        Err("delete-node not implemented".into())
    }
    fn update_node(
        &self,
        _canvas: &str,
        _label: &str,
        _code: Option<&str>,
        _exports: Option<&[String]>,
        _imports: Option<&[(String, String)]>,
    ) -> Result<(), String> {
        Err("update-node not implemented".into())
    }
    fn node_state(&self, _canvas: &str, _label: &str) -> Option<NodeState> {
        None
    }
    fn compute_node(&self, _canvas: &str, _label: &str) -> Result<(), String> {
        Err("compute not implemented".into())
    }
}

#[test]
fn eval_replies_in_order() {
    let mut mgr = SessionManager::new();
    let sid = mgr.create_session();
    let msg = Value::dict(vec![
        ("op", Value::string("eval")),
        ("session", Value::string(&sid)),
        ("code", Value::string("c")),
    ]);
    let r = handle_message(&msg, &mut mgr, &Rich);
    assert_eq!(r.len(), 3);
    assert_eq!(r[0].get_str("out"), Some("printed"));
    assert_eq!(r[1].get_str("err"), Some("warned"));
    assert_eq!(r[2].get_str("value"), Some("v:c"));
    assert_eq!(r[2].get_str("ex"), Some("boom"));
    let status = r[2].get("status").unwrap().as_list().unwrap();
    assert_eq!(status[0].as_str(), Some("eval-error"));
}

#[test]
fn evaluator_ops() {
    let mut mgr = SessionManager::new();
    let ask = |mgr: &mut SessionManager, pairs: Vec<(&str, Value)>| handle_message(&Value::dict(pairs), mgr, &Rich);
    let r = ask(&mut mgr, vec![("op", Value::string("completions")), ("prefix", Value::string("ab"))]);
    let cs = r[0].get("completions").unwrap().as_list().unwrap();
    assert_eq!(cs[0].get_str("candidate"), Some("abx"));
    assert_eq!(cs[0].get_str("type"), Some("var"));
    let r = ask(&mut mgr, vec![("op", Value::string("info")), ("symbol", Value::string("f"))]);
    assert_eq!(r[0].get_str("name"), Some("f"));
    assert_eq!(r[0].get_str("ns"), Some("user"));
    let r = ask(&mut mgr, vec![("op", Value::string("load-file"))]);
    assert_eq!(r[0].get_str("value"), Some("ok"));
    let r = ask(&mut mgr, vec![("op", Value::string("ns-list"))]);
    assert_eq!(r[0].get("ns-list").unwrap().as_list().unwrap().len(), 2);
    let r = ask(&mut mgr, vec![("op", Value::string("switch-ns")), ("ns", Value::string("b"))]);
    let st = r[0].get("status").unwrap().as_list().unwrap();
    assert_eq!(st[1].as_str(), Some("namespace-not-found"));
    let r = ask(&mut mgr, vec![("op", Value::string("create-node"))]);
    assert_eq!(r[0].get_str("ex"), Some("create-node not implemented"));
    let r = ask(&mut mgr, vec![("op", Value::string("node-state"))]);
    let st = r[0].get("status").unwrap().as_list().unwrap();
    assert_eq!(st[1].as_str(), Some("no-such-node"));
    let r = ask(&mut mgr, vec![("op", Value::string("compute"))]);
    assert_eq!(r[0].get_str("ex"), Some("compute not implemented"));
}

#[test]
fn echo_evaluator_offers_nothing_else() {
    let mut mgr = SessionManager::new();
    let ask = |mgr: &mut SessionManager, op: &str| {
        handle_message(&Value::dict(vec![("op", Value::string(op)), ("prefix", Value::string("de"))]), mgr, &EchoEvaluator)
    };
    let r = ask(&mut mgr, "completions");
    assert_eq!(r[0].get("completions").unwrap().as_list().unwrap().len(), 0);
    let r = ask(&mut mgr, "load-file");
    assert_eq!(r[0].get_str("ex"), Some("load-file not implemented"));
    let r = ask(&mut mgr, "delete-node");
    assert_eq!(r[0].get_str("ex"), Some("delete-node not implemented"));
    let r = ask(&mut mgr, "update-node");
    assert_eq!(r[0].get_str("ex"), Some("update-node not implemented"));
}
