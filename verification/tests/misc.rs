use wasm_canvas::bridge::slot_update;
use wasm_canvas::db::{escape_surql, is_safe_table_name, NameEntry};
use wasm_canvas::ocapn::syrup::SyrupValue;
use wasm_canvas::debug_log::{DebugLog, MAX_ENTRIES};
use wasm_canvas::file_watcher::{is_node_file, label_matches, node_event, FileEvent};
use wasm_canvas::graph_runtime::{is_ident_char, rename_identifier_in_code};
use wasm_canvas::nrepl_commands::{channel, NreplCommand};
use wasm_canvas::panels::{parse_hex_color, PanelState, ScriptViewMode};
use wasm_canvas::persistence::{
    db_path_for, find_sexp_end, parse_connection_form, parse_endpoint, parse_quoted, read_token, skip_ws,
    skip_ws_preserve_newlines, UndoHistory,
};
use wasm_canvas::render::{button_action, StoreAction};
use wasm_canvas::scheme_convert::{parse_port_declarations, parse_single_decl};

#[test]
fn rename_whole_identifiers_only() {
    assert_eq!(rename_identifier_in_code("(define x (+ x 1))", "x", "y"), "(define y (+ y 1))");
    assert_eq!(rename_identifier_in_code("(define xs (car x))", "x", "y"), "(define xs (car y))");
    assert_eq!(rename_identifier_in_code("(display \"x\") ; x here\nx", "x", "z"), "(display \"x\") ; x here\nz");
    assert_eq!(rename_identifier_in_code("(list #\\x x)", "x", "q"), "(list #\\x q)");
    assert_eq!(rename_identifier_in_code("\"a\\\"x\" x", "x", "w"), "\"a\\\"x\" w");
    assert_eq!(rename_identifier_in_code("set-x! x", "x", "v"), "set-x! v");
    assert!(is_ident_char('a') && is_ident_char('!') && is_ident_char('-'));
    assert!(!is_ident_char('(') && !is_ident_char(' '));
}

#[test]
fn undo_and_redo_history() {
    let mut h = UndoHistory::new(3);
    assert!(!h.can_undo());
    h.push("a".to_string());
    h.push("b".to_string());
    assert!(h.can_undo());
    assert_eq!(h.undo(), Some("a".to_string()));
    assert!(!h.can_undo());
    assert!(h.can_redo());
    assert_eq!(h.redo(), Some("b".to_string()));
    assert_eq!(h.redo(), None);
    h.push("c".to_string());
    h.push("d".to_string());
    assert_eq!(h.undo(), Some("c".to_string()));
    assert_eq!(h.undo(), Some("b".to_string()));
    assert_eq!(h.undo(), None);
    h.push("e".to_string());
    assert!(!h.can_redo());
    assert_eq!(h.undo(), Some("b".to_string()));
}

#[test]
fn scm_scanners() {
    let src = b"  (node 1 \"a\\\"b\") rest";
    assert_eq!(skip_ws(src, 0), 2);
    assert_eq!(read_token(src, 3), (&b"node"[..], 7));
    assert_eq!(find_sexp_end(src, 2), Some(16));
    assert_eq!(parse_quoted(src, 10), ("a\"b".to_string(), 16));
    assert_eq!(parse_quoted(b"\"tab\\there\\n\"", 0), ("tab\there\n".to_string(), 13));
    assert_eq!(find_sexp_end(b"(a \"(\" ; )\n b)", 0), Some(13));
    assert_eq!(find_sexp_end(b"(a (b)", 0), None);
    assert_eq!(skip_ws_preserve_newlines(b"  \t\nx", 0), 4);
    assert_eq!(skip_ws_preserve_newlines(b" \r\n\nx", 0), 3);
}

#[test]
fn connection_forms() {
    assert_eq!(parse_endpoint(b"(from 3 \"out\")"), Ok((3, "out".to_string())));
    assert_eq!(parse_endpoint(b"(to x \"in\")"), Err("Bad node id in endpoint: x".to_string()));
    let c = parse_connection_form(b"(connection 7 (from 1 \"out\") (to 2 \"in\"))").unwrap();
    assert_eq!((c.id, c.from_node, c.from_port.as_str(), c.to_node, c.to_port.as_str()), (7, 1, "out", 2, "in"));
    assert_eq!(
        parse_connection_form(b"(connection q (from 1 \"out\") (to 2 \"in\"))").err(),
        Some("Bad connection id: q".to_string())
    );
    assert_eq!(parse_connection_form(b"(connection 4 (from 1 \"out\")").err(), Some("Bad to in connection 4".to_string()));
}

#[test]
fn database_file_beside_graph() {
    assert_eq!(db_path_for("/home/u/graph.json"), "/home/u/graph.db.json");
    assert_eq!(db_path_for("graph.scm"), "graph.db.json");
}

#[test]
fn debug_log_keeps_the_newest() {
    let mut log = DebugLog::new();
    log.log("test", "one");
    log.log("test", "two");
    assert_eq!(log.entries().len(), 2);
    assert_eq!(log.entries()[0].message, "one");
    for i in 0..MAX_ENTRIES {
        log.log("loop", &format!("m{}", i));
    }
    assert_eq!(log.entries().len(), MAX_ENTRIES);
    assert_eq!(log.entries()[0].message, "m0");
    assert_eq!(log.entries()[MAX_ENTRIES - 1].source, "loop");
    log.clear();
    assert!(log.entries().is_empty());
}

#[test]
fn port_declarations_in_code() {
    let d = parse_single_decl("(input gain f64)").unwrap();
    assert_eq!((d.name.as_str(), d.port_type.as_str()), ("gain", "f64"));
    assert!(parse_single_decl("(input gain)").is_none());
    assert!(parse_single_decl("input gain f64").is_none());
    let (ins, outs) = parse_port_declarations("(input a f64)\n  (output b string)\n(define c 1)\n(input d bool)");
    let ins: Vec<(String, String)> = ins.into_iter().map(|p| (p.name, p.port_type)).collect();
    let outs: Vec<(String, String)> = outs.into_iter().map(|p| (p.name, p.port_type)).collect();
    assert_eq!(ins, vec![("a".to_string(), "f64".to_string()), ("d".to_string(), "bool".to_string())]);
    assert_eq!(outs, vec![("b".to_string(), "string".to_string())]);
}

#[test]
fn node_file_events() {
    assert!(is_node_file("/home/u/.canvas/nodes/main/gain.scm"));
    assert!(!is_node_file("/home/u/.canvas/nodes/main/gain.wit"));
    assert!(!is_node_file("/home/u/.canvas/nodes/main/Makefile"));
    match node_event("/home/u/.canvas/nodes/main/gain-knob.scm", "(x)".to_string()) {
        Some(FileEvent::NodeChanged { canvas, label, code }) => {
            assert_eq!(canvas, "main");
            assert_eq!(label, "gain-knob");
            assert_eq!(code, "(x)");
        }
        None => panic!("expected an event"),
    }
    assert!(node_event("/", String::new()).is_none());
    assert!(label_matches("gain knob", false, "gain-knob"));
    assert!(!label_matches("gain knob", true, "gain-knob"));
    assert!(!label_matches("gain", false, "gain-knob"));
}

#[test]
fn button_store_actions() {
    assert!(matches!(button_action("append", "k".into(), "v".into()), StoreAction::Append { ref key, ref value } if key == "k" && value == "v"));
    assert!(matches!(button_action("delete", "k".into(), "v".into()), StoreAction::Delete { ref key } if key == "k"));
    assert!(matches!(button_action("set", "k".into(), "v".into()), StoreAction::Assign { ref key, ref value } if key == "k" && value == "v"));
    assert!(matches!(button_action("anything", "k".into(), "".into()), StoreAction::Assign { .. }));
}

#[test]
fn name_entries_need_every_field() {
    let e = NameEntry::from_fields(Some("h"), Some("n"), Some("c"), Some("l"), Some("(define n 1)")).unwrap();
    assert_eq!((e.hash.as_str(), e.name.as_str(), e.form.as_str()), ("h", "n", "(define n 1)"));
    assert!(NameEntry::from_fields(Some("h"), None, Some("c"), Some("l"), Some("f")).is_none());
}

#[test]
fn panels_at_start() {
    let p = PanelState::new();
    assert!(p.show_library && p.show_inspector && p.show_log && !p.show_debug);
    assert!(p.library_search.is_empty());
    assert_eq!(p.selected_node, None);
    assert_eq!(p.script_view, ScriptViewMode::Rendered);
}

#[test]
fn command_channel_carries_commands() {
    let (tx, rx) = channel();
    let (reply_tx, reply_rx) = std::sync::mpsc::channel();
    tx.send(NreplCommand::ListCanvases { reply: reply_tx }).unwrap();
    match rx.recv().unwrap() {
        NreplCommand::ListCanvases { reply } => reply.send(vec!["main".to_string()]).unwrap(),
        _ => panic!("unexpected command"),
    }
    assert_eq!(reply_rx.recv().unwrap(), vec!["main".to_string()]);
}

#[test]
fn hex_colors() {
    assert_eq!(parse_hex_color("#ff8000"), (255, 128, 0));
    assert_eq!(parse_hex_color("##0A0b0C"), (10, 11, 12));
    assert_eq!(parse_hex_color("#zz0000"), (128, 0, 0));
    assert_eq!(parse_hex_color("+f+e+d"), (15, 14, 13));
    assert_eq!(parse_hex_color("#fff"), (128, 128, 128));
    assert_eq!(parse_hex_color("12345678"), (0x12, 0x34, 0x56));
}

#[test]
fn slot_set_or_get() {
    let set = [SyrupValue::Symbol("set".to_string()), SyrupValue::Integer(100)];
    assert_eq!(slot_update(&set), Some(SyrupValue::Integer(100)));
    assert_eq!(slot_update(&[]), None);
    assert_eq!(slot_update(&[SyrupValue::Symbol("set".to_string())]), None);
    assert_eq!(slot_update(&[SyrupValue::Symbol("get".to_string()), SyrupValue::Integer(1)]), None);
    assert_eq!(slot_update(&[SyrupValue::String("set".to_string()), SyrupValue::Integer(1)]), None);
}

#[test]
fn query_text_safety() {
    assert!(is_safe_table_name("kv_store-2"));
    assert!(is_safe_table_name("données"));
    assert!(!is_safe_table_name(""));
    assert!(!is_safe_table_name("kv; DROP"));
    assert_eq!(escape_surql("it's"), "it\\'s");
    assert_eq!(escape_surql("a\\b"), "a\\\\b");
    assert_eq!(escape_surql("plain"), "plain");
}

#[test]
fn renaming_there_and_back_restores_the_code() {
    let code = "(define x (+ x 1)) ; x stays\n(display \"x\") #\\x (f x-y x)";
    let there = rename_identifier_in_code(code, "x", "count");
    assert_eq!(there, "(define count (+ count 1)) ; x stays\n(display \"x\") #\\x (f x-y count)");
    assert_eq!(rename_identifier_in_code(&there, "count", "x"), code);
}

#[test]
fn undo_availability_after_pushes() {
    for (capacity, pushes, can_undo) in [(1usize, 3usize, false), (2, 1, false), (2, 2, true), (3, 5, true), (4, 0, false)] {
        let mut h = UndoHistory::new(capacity);
        for i in 0..pushes {
            h.push(format!("s{}", i));
        }
        assert_eq!(h.can_undo(), can_undo);
        assert!(!h.can_redo());
    }
}

#[test]
fn debug_log_keeps_old_entries_whole() {
    let mut log = DebugLog::new();
    log.log("first", "a");
    let kept: Vec<(u64, &str, String)> =
        log.entries().iter().map(|e| (e.elapsed_ms, e.source, e.message.clone())).collect();
    log.log("second", "b");
    assert_eq!(log.entries().len(), 2);
    assert_eq!((log.entries()[0].elapsed_ms, log.entries()[0].source, log.entries()[0].message.clone()), kept[0]);
    assert_eq!(log.entries()[1].source, "second");
    assert_eq!(log.entries()[1].message, "b");
    assert!(log.entries()[0].elapsed_ms <= log.entries()[1].elapsed_ms);
}
