use std::path::PathBuf;
use wasm_canvas::registry::{
    parse_wit_ports, parse_wit_type, sub_category, BuiltinKind, NodeRegistry, NodeTemplate, PortType,
};

fn names(ps: &[wasm_canvas::registry::PortDef]) -> Vec<(String, PortType)> {
    ps.iter().map(|p| (p.name.clone(), p.port_type)).collect()
}

#[test]
fn wit_type_names() {
    assert_eq!(parse_wit_type("f64"), Ok(PortType::F64));
    assert_eq!(parse_wit_type("f32"), Ok(PortType::F32));
    assert_eq!(parse_wit_type("s64"), Ok(PortType::I64));
    assert_eq!(parse_wit_type("i64"), Ok(PortType::I64));
    assert_eq!(parse_wit_type("s32"), Ok(PortType::I32));
    assert_eq!(parse_wit_type("i32"), Ok(PortType::I32));
    assert_eq!(parse_wit_type("bool"), Ok(PortType::Bool));
    assert_eq!(parse_wit_type("string"), Ok(PortType::Str));
    assert_eq!(parse_wit_type("u8"), Err("Unsupported WIT type: u8".to_string()));
}

#[test]
fn wit_ports_of_first_export() {
    let wit = "package demo:lerp;\n\nworld node {\n  export run: func(a: f64, b: f64, t: f32) -> f64;\n  export other: func(x: bool) -> bool;\n}\n";
    let (ins, outs) = parse_wit_ports(wit).unwrap();
    assert_eq!(
        names(&ins),
        vec![("a".to_string(), PortType::F64), ("b".to_string(), PortType::F64), ("t".to_string(), PortType::F32)]
    );
    assert_eq!(names(&outs), vec![("out".to_string(), PortType::F64)]);
}

#[test]
fn wit_tuple_results() {
    let wit = "export run: func(x: s32) -> (f64, bool);";
    let (ins, outs) = parse_wit_ports(wit).unwrap();
    assert_eq!(names(&ins), vec![("x".to_string(), PortType::I32)]);
    assert_eq!(
        names(&outs),
        vec![("out0".to_string(), PortType::F64), ("out1".to_string(), PortType::Bool)]
    );
}

#[test]
fn wit_without_params_or_results() {
    let (ins, outs) = parse_wit_ports("export run: func();").unwrap();
    assert!(ins.is_empty());
    assert!(outs.is_empty());
    let (ins, outs) = parse_wit_ports("  export run: func( ) -> string;\r\n").unwrap();
    assert!(ins.is_empty());
    assert_eq!(names(&outs), vec![("out".to_string(), PortType::Str)]);
}

#[test]
fn wit_without_export() {
    let (ins, outs) = parse_wit_ports("import log: func(msg: string);\nworld x {}").unwrap();
    assert!(ins.is_empty());
    assert!(outs.is_empty());
}

#[test]
fn wit_unsupported_types() {
    assert_eq!(
        parse_wit_ports("export run: func(a: u8) -> f64;").err(),
        Some("Unsupported WIT type: u8".to_string())
    );
    assert_eq!(
        parse_wit_ports("export run: func(a: f64) -> list<u8>;").err(),
        Some("Unsupported WIT type: list<u8>".to_string())
    );
    assert_eq!(parse_wit_ports("export run: func() -> ();").err(), Some("Unsupported WIT type: ".to_string()));
}

#[test]
fn wit_param_without_colon_is_skipped() {
    let (ins, _) = parse_wit_ports("export run: func(a: f64, junk) -> f64;").unwrap();
    assert_eq!(names(&ins), vec![("a".to_string(), PortType::F64)]);
}

#[test]
fn builtins_are_registered() {
    let mut reg = NodeRegistry::new(PathBuf::from("/tmp/nodes"));
    reg.register_builtins();
    let c = reg.get("Const").unwrap();
    assert_eq!(c.category, "Built-in");
    assert_eq!(c.builtin, Some(BuiltinKind::Const));
    assert!(c.inputs.is_empty());
    assert_eq!(names(&c.outputs), vec![("out".to_string(), PortType::F64)]);
    let o = reg.get("Output").unwrap();
    assert_eq!(names(&o.inputs), vec![("in".to_string(), PortType::F64)]);
    assert!(o.outputs.is_empty());
    let s = reg.get("Script").unwrap();
    assert_eq!(s.builtin, Some(BuiltinKind::Script));
    assert!(reg.get("Missing").is_none());
    reg.register_builtins();
    assert_eq!(reg.templates.len(), 3);
}

fn template(name: &str, category: &str) -> NodeTemplate {
    NodeTemplate {
        name: name.to_string(),
        category: category.to_string(),
        path: None,
        inputs: vec![],
        outputs: vec![],
        wasm_bytes: None,
        builtin: None,
    }
}

#[test]
fn insert_replaces_same_name() {
    let mut reg = NodeRegistry::new(PathBuf::from("nodes"));
    reg.insert(template("lerp", "math"));
    reg.insert(template("lerp", "other"));
    assert_eq!(reg.templates.len(), 1);
    assert_eq!(reg.get("lerp").unwrap().category, "other");
}

#[test]
fn wit_node_is_added_or_refused() {
    let mut reg = NodeRegistry::new(PathBuf::from("nodes"));
    let r = reg.add_wit_node(
        "lerp".to_string(),
        "math".to_string(),
        PathBuf::from("nodes/math/lerp.wit"),
        "export run: func(a: f64, b: f64, t: f64) -> f64;",
        Some(vec![0, 97, 115, 109]),
    );
    assert_eq!(r, Ok(()));
    let t = reg.get("lerp").unwrap();
    assert_eq!(t.category, "math");
    assert_eq!(t.path, Some(PathBuf::from("nodes/math/lerp.wit")));
    assert_eq!(t.inputs.len(), 3);
    assert_eq!(t.wasm_bytes, Some(vec![0, 97, 115, 109]));
    let bad = reg.add_wit_node("bad".to_string(), "".to_string(), PathBuf::from("bad.wit"), "export run: func(a: u8);", None);
    assert_eq!(bad, Err("Unsupported WIT type: u8".to_string()));
    assert!(reg.get("bad").is_none());
}

#[test]
fn wasm_is_reloaded_for_known_nodes() {
    let mut reg = NodeRegistry::new(PathBuf::from("nodes"));
    reg.insert(template("sqrt", "math"));
    assert!(reg.set_wasm("sqrt", vec![1, 2, 3]));
    assert_eq!(reg.get("sqrt").unwrap().wasm_bytes, Some(vec![1, 2, 3]));
    assert!(!reg.set_wasm("nope", vec![4]));
}

#[test]
fn grouped_builtin_first_then_by_name() {
    let mut reg = NodeRegistry::new(PathBuf::from("nodes"));
    reg.insert(template("sub", "math"));
    reg.insert(template("div", "math"));
    reg.insert(template("echo", "audio"));
    reg.register_builtins();
    let groups = reg.grouped_templates();
    let cats: Vec<&str> = groups.iter().map(|(c, _)| c.as_str()).collect();
    assert_eq!(cats, vec!["Built-in", "audio", "math"]);
    let builtin: Vec<&str> = groups[0].1.iter().map(|t| t.name.as_str()).collect();
    assert_eq!(builtin, vec!["Const", "Output", "Script"]);
    let math: Vec<&str> = groups[2].1.iter().map(|t| t.name.as_str()).collect();
    assert_eq!(math, vec!["div", "sub"]);
}

#[test]
fn nested_categories() {
    assert_eq!(sub_category("", "math"), "math");
    assert_eq!(sub_category("math", "trig"), "math/trig");
}
