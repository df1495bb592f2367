use wasm_canvas::agent::{env_assignment, eval_answer, exchange_answer, parse_port, tool_request, unknown_tool, ToolInput};
use wasm_canvas::nrepl::bencode::{decode_bytes, encode_to_vec, Value};

fn input() -> ToolInput {
    ToolInput { name: None, canvas: None, label: None, code: None, exports: None, imports: None }
}

fn encoded(name: &str, input: &ToolInput) -> Option<Vec<u8>> {
    tool_request(name, "s1", input).map(|v| encode_to_vec(&v))
}

#[test]
fn simple_tool_requests() {
    assert_eq!(
        encoded("list_canvases", &input()),
        Some(b"d2:id4:tool2:op13:list-canvases7:session2:s1e".to_vec())
    );
    assert_eq!(encoded("list_nodes", &input()), Some(b"d2:id4:tool2:op7:ns-list7:session2:s1e".to_vec()));
    let mut named = input();
    named.name = Some("main".to_string());
    assert_eq!(
        encoded("create_canvas", &named),
        Some(b"d2:id4:tool4:name4:main2:op13:create-canvas7:session2:s1e".to_vec())
    );
    assert_eq!(
        encoded("create_canvas", &input()),
        Some(b"d2:id4:tool4:name0:2:op13:create-canvas7:session2:s1e".to_vec())
    );
}

#[test]
fn node_tool_requests() {
    let mut i = input();
    i.canvas = Some("main".to_string());
    i.label = Some("gain".to_string());
    assert_eq!(
        encoded("delete_node", &i),
        Some(b"d6:canvas4:main2:id4:tool5:label4:gain2:op11:delete-node7:session2:s1e".to_vec())
    );
    assert_eq!(
        encoded("compute_node", &i),
        Some(b"d6:canvas4:main2:id4:tool5:label4:gain2:op7:compute7:session2:s1e".to_vec())
    );
    assert_eq!(
        encoded("node_state", &i),
        Some(b"d6:canvas4:main2:id4:tool5:label4:gain2:op10:node-state7:session2:s1e".to_vec())
    );
}

#[test]
fn create_node_keeps_only_well_formed_items() {
    let mut i = input();
    i.canvas = Some("c".to_string());
    i.label = Some("l".to_string());
    i.code = Some("(x)".to_string());
    i.exports = Some(vec![Some("x".to_string()), None, Some("y".to_string())]);
    i.imports = Some(vec![
        Some(vec![Some("c2".to_string()), Some("m".to_string())]),
        Some(vec![Some("only-one".to_string())]),
        Some(vec![Some("a".to_string()), None]),
        None,
    ]);
    assert_eq!(
        encoded("create_node", &i),
        Some(
            b"d6:canvas1:c4:code3:(x)7:exportsl1:x1:ye2:id4:tool7:importsll2:c21:mee5:label1:l2:op11:create-node7:session2:s1e"
                .to_vec()
        )
    );
    assert_eq!(
        encoded("create_node", &input()),
        Some(b"d6:canvas0:4:code0:7:exportsle2:id4:tool7:importsle5:label0:2:op11:create-node7:session2:s1e".to_vec())
    );
}

#[test]
fn update_node_sends_only_given_fields() {
    let mut i = input();
    i.canvas = Some("c".to_string());
    i.label = Some("l".to_string());
    assert_eq!(
        encoded("update_node", &i),
        Some(b"d6:canvas1:c2:id4:tool5:label1:l2:op11:update-node7:session2:s1e".to_vec())
    );
    i.code = Some("(y)".to_string());
    i.exports = Some(vec![]);
    assert_eq!(
        encoded("update_node", &i),
        Some(b"d6:canvas1:c4:code3:(y)7:exportsle2:id4:tool5:label1:l2:op11:update-node7:session2:s1e".to_vec())
    );
}

#[test]
fn other_tools_send_no_plain_request() {
    assert!(tool_request("eval_scheme", "s", &input()).is_none());
    assert!(tool_request("nope", "s", &input()).is_none());
    assert_eq!(unknown_tool("nope"), "Unknown tool: nope");
}

#[test]
fn eval_answers() {
    let ok = decode_bytes(b"d5:value1:3e").unwrap();
    let err = decode_bytes(b"d2:ex4:boom6:statusl4:doneee").unwrap();
    assert_eq!(eval_answer(&vec![ok]), "3");
    assert_eq!(eval_answer(&vec![err]), "Error: boom");
    let a = decode_bytes(b"d5:value1:1e").unwrap();
    let b = decode_bytes(b"d5:value1:2e").unwrap();
    assert_eq!(eval_answer(&vec![a, b]), "1\n2");
    let done = decode_bytes(b"d6:statusl4:doneee").unwrap();
    assert_eq!(eval_answer(&vec![done]), "ok");
    assert_eq!(eval_answer(&vec![]), "ok");
}

#[test]
fn exchange_answers() {
    assert_eq!(exchange_answer(&vec![]), "No response");
    let last = decode_bytes(b"d2:id4:tool5:value1:9e").unwrap();
    assert_eq!(exchange_answer(&vec![Value::Int(1), last]), "{id: tool, value: 9}");
}

#[test]
fn env_file_lines() {
    assert_eq!(env_assignment("  LLM_API_KEY = abc  "), Some(("LLM_API_KEY".to_string(), "abc".to_string())));
    assert_eq!(env_assignment("# comment=1"), None);
    assert_eq!(env_assignment("   "), None);
    assert_eq!(env_assignment("NOVALUE="), None);
    assert_eq!(env_assignment("no equals"), None);
    assert_eq!(env_assignment("A=b=c"), Some(("A".to_string(), "b=c".to_string())));
}

#[test]
fn port_files() {
    assert_eq!(parse_port("7888\n"), Some(7888));
    assert_eq!(parse_port(" +80 "), Some(80));
    assert_eq!(parse_port("65535"), Some(65535));
    assert_eq!(parse_port("65536"), None);
    assert_eq!(parse_port("999999999999"), None);
    assert_eq!(parse_port("-1"), None);
    assert_eq!(parse_port("+"), None);
    assert_eq!(parse_port(""), None);
    assert_eq!(parse_port("12a"), None);
}
