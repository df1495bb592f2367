use wasm_canvas::nrepl::bencode::Value;
use wasm_canvas::nrepl::client::{clone_request, describe_request, eval_request, new_session_of, RequestIds};
use wasm_canvas::nrepl::session::{
    handle_message, Completion, EvalResult, Evaluator, LoadFileResult, NodeState, SessionManager, SymbolInfo,
};

struct TestEvaluator;

impl Evaluator for TestEvaluator {
    fn eval(&self, _session_id: &str, code: &str) -> EvalResult {
        match code.trim() {
            "(+ 1 2)" => EvalResult { value: Some("3".into()), out: None, err: None, ex: None },
            "(println \"hello\")" => EvalResult {
                value: Some("nil".into()),
                out: Some("hello\n".into()),
                err: None,
                ex: None,
            },
            "(/ 1 0)" => EvalResult { value: None, out: None, err: None, ex: Some("division by zero".into()) },
            _ => EvalResult { value: Some(format!("echo: {}", code)), out: None, err: None, ex: None },
        }
    }
    fn completions(&self, _s: &str, _prefix: &str, _ns: Option<&str>) -> Vec<Completion> {
        Vec::new()
    }
    fn info(&self, _s: &str, _symbol: &str, _ns: Option<&str>) -> Option<SymbolInfo> {
        None
    }
    fn load_file(&self, _s: &str, _path: &str, _content: &str) -> LoadFileResult {
        LoadFileResult { value: None, error: Some("load-file not implemented".into()) }
    }
    fn ns_list(&self, _s: &str) -> Vec<String> {
        Vec::new()
    }
    fn switch_ns(&self, _s: &str, _ns: &str) -> bool {
        false
    }
    fn create_node(
        &self,
        _canvas: &str,
        _label: &str,
        _code: &str,
        _exports: &[String],
        _imports: &[(String, String)],
    ) -> Result<String, String> {
        Err("create-node not implemented".into())
    }
    fn delete_node(&self, _canvas: &str, _label: &str) -> Result<(), String> {
        Err("delete-node not implemented".into())
    }
    fn update_node(
        &self,
        _canvas: &str,
        _label: &str,
        _code: Option<&str>,
        _exports: Option<&[String]>,
        _imports: Option<&[(String, String)]>,
    ) -> Result<(), String> {
        Err("update-node not implemented".into())
    }
    fn node_state(&self, _canvas: &str, _label: &str) -> Option<NodeState> {
        None
    }
    fn compute_node(&self, _canvas: &str, _label: &str) -> Result<(), String> {
        Err("compute not implemented".into())
    }
}

fn clone_session(mgr: &mut SessionManager, ids: &mut RequestIds) -> String {
    let id = ids.next_id();
    let responses = handle_message(&clone_request(&id), mgr, &TestEvaluator);
    new_session_of(&responses).expect("no new-session in clone response")
}

fn eval(mgr: &mut SessionManager, ids: &mut RequestIds, session: &str, code: &str) -> Vec<Value> {
    let id = ids.next_id();
    handle_message(&eval_request(&id, session, code), mgr, &TestEvaluator)
}

#[test]
fn connect_and_clone() {
    let mut mgr = SessionManager::new();
    let mut ids = RequestIds::new();
    let session = clone_session(&mut mgr, &mut ids);
    assert!(session.starts_with("session-"));
}

#[test]
fn eval_simple() {
    let mut mgr = SessionManager::new();
    let mut ids = RequestIds::new();
    let session = clone_session(&mut mgr, &mut ids);
    let responses = eval(&mut mgr, &mut ids, &session, "(+ 1 2)");
    let last = responses.last().unwrap();
    assert_eq!(last.get_str("value"), Some("3"));
}

#[test]
fn eval_with_stdout() {
    let mut mgr = SessionManager::new();
    let mut ids = RequestIds::new();
    let session = clone_session(&mut mgr, &mut ids);
    let responses = eval(&mut mgr, &mut ids, &session, "(println \"hello\")");
    let has_out = responses.iter().any(|r| r.get_str("out") == Some("hello\n"));
    assert!(has_out, "expected stdout message, got: {:?}", responses);
}

#[test]
fn eval_error() {
    let mut mgr = SessionManager::new();
    let mut ids = RequestIds::new();
    let session = clone_session(&mut mgr, &mut ids);
    let responses = eval(&mut mgr, &mut ids, &session, "(/ 1 0)");
    let last = responses.last().unwrap();
    let status = last.get("status").unwrap().as_list().unwrap();
    assert!(status.iter().any(|v| v.as_str() == Some("eval-error")));
    assert_eq!(last.get_str("ex"), Some("division by zero"));
}

#[test]
fn multiple_sessions() {
    let mut mgr = SessionManager::new();
    let mut ids1 = RequestIds::new();
    let mut ids2 = RequestIds::new();
    let s1 = clone_session(&mut mgr, &mut ids1);
    let s2 = clone_session(&mut mgr, &mut ids2);
    assert_ne!(s1, s2);

    let r1 = eval(&mut mgr, &mut ids1, &s1, "client-1");
    let r2 = eval(&mut mgr, &mut ids2, &s2, "client-2");
    assert_eq!(r1.last().unwrap().get_str("value"), Some("echo: client-1"));
    assert_eq!(r2.last().unwrap().get_str("value"), Some("echo: client-2"));
}

#[test]
fn describe() {
    let mut mgr = SessionManager::new();
    let mut ids = RequestIds::new();
    let id = ids.next_id();
    let responses = handle_message(&describe_request(&id), &mut mgr, &TestEvaluator);
    let resp = responses.last().unwrap();
    let ops = resp.get("ops").unwrap().as_dict().unwrap();
    assert!(ops.iter().any(|(k, _)| k == "eval"));
    assert!(ops.iter().any(|(k, _)| k == "clone"));
}
