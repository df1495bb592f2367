use wasm_canvas::nrepl_eval::{builtin_info, completions_matching, node_namespace, split_namespace, Symbol};

fn sym(name: &str, kind: &str, module: Option<&str>) -> Symbol {
    (name.to_string(), kind.to_string(), module.map(|m| m.to_string()))
}

#[test]
fn completions_keep_matching_symbols_in_order() {
    let symbols = vec![
        sym("draw-line", "function", None),
        sym("text", "function", None),
        sym("draw-rect", "function", None),
        sym("helper", "var", Some("util-node")),
    ];
    let got = completions_matching(&symbols, "draw");
    let names: Vec<&str> = got.iter().map(|c| c.candidate.as_str()).collect();
    assert_eq!(names, vec!["draw-line", "draw-rect"]);
    assert_eq!(got[0].kind.as_deref(), Some("function"));
    assert_eq!(got[0].ns, None);

    let got = completions_matching(&symbols, "he");
    assert_eq!(got.len(), 1);
    assert_eq!(got[0].ns.as_deref(), Some("util-node"));
    assert_eq!(got[0].kind.as_deref(), Some("var"));

    assert_eq!(completions_matching(&symbols, "").len(), 4);
    assert!(completions_matching(&symbols, "zzz").is_empty());
}

#[test]
fn node_namespace_dashes_spaces() {
    assert_eq!(node_namespace("main", "My Node"), "main/My-Node");
    assert_eq!(node_namespace("c", "plain"), "c/plain");
}

#[test]
fn split_namespace_at_first_slash() {
    assert_eq!(split_namespace("main/My-Node"), Some(("main".to_string(), "My-Node".to_string())));
    assert_eq!(split_namespace("a/b/c"), Some(("a".to_string(), "b/c".to_string())));
    assert_eq!(split_namespace("/x"), Some((String::new(), "x".to_string())));
    assert_eq!(split_namespace("nothing"), None);
}

#[test]
fn builtin_info_names_kind() {
    let table = vec![
        ("text".to_string(), "function".to_string()),
        ("store-get".to_string(), "function".to_string()),
        ("text".to_string(), "macro".to_string()),
    ];
    let info = builtin_info(&table, "text").unwrap();
    assert_eq!(info.name, "text");
    assert_eq!(info.ns.as_deref(), Some("canvas"));
    assert_eq!(info.file, None);
    assert_eq!(info.doc.as_deref(), Some("Built-in function from canvas libraries"));
    assert!(builtin_info(&table, "missing").is_none());
}
