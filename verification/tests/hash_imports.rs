use wasm_canvas::graph_runtime::{
    accept_definition, add_hash_import, def_channel, hash_hex_text, migrate_hash_imports, missing_def_requests,
    parse_hash_hex, unresolved_hash_imports, DefChannel, HashImport, DEF_REQUEST_CHANNEL, DEF_RESPONSE_CHANNEL,
};

fn imp(hash: &str, name: &str) -> HashImport {
    HashImport { hash: hash.to_string(), local_name: name.to_string() }
}

fn pairs(v: &[HashImport]) -> Vec<(String, String)> {
    v.iter().map(|i| (i.hash.clone(), i.local_name.clone())).collect()
}

fn strings(v: &[&str]) -> Vec<String> {
    v.iter().map(|s| s.to_string()).collect()
}

#[test]
fn add_hash_import_replaces_same_hash() {
    let mut imports = vec![imp("aa", "x"), imp("bb", "y")];
    add_hash_import(&mut imports, "aa", "z");
    assert_eq!(pairs(&imports), vec![("bb".to_string(), "y".to_string()), ("aa".to_string(), "z".to_string())]);
    add_hash_import(&mut imports, "cc", "w");
    assert_eq!(imports.len(), 3);
    assert_eq!(imports[2].hash, "cc");
}

#[test]
fn unresolved_imports_are_those_not_known() {
    let imports = vec![imp("a", "x"), imp("b", "y"), imp("c", "z")];
    let known = strings(&["a", "q"]);
    assert_eq!(unresolved_hash_imports(&imports, &known), strings(&["b", "c"]));
    assert!(unresolved_hash_imports(&imports, &strings(&["a", "b", "c"])).is_empty());
}

#[test]
fn missing_definitions_are_requested_once() {
    let per_node = vec![strings(&["b", "c"]), strings(&["c", "d"]), strings(&["b"]), vec![]];
    assert_eq!(missing_def_requests(&per_node), strings(&["b", "c", "d"]));
    assert!(missing_def_requests(&vec![]).is_empty());
}

#[test]
fn hash_text_is_sixteen_lowercase_digits() {
    assert_eq!(hash_hex_text(255), "00000000000000ff");
    assert_eq!(hash_hex_text(0), "0000000000000000");
    assert_eq!(hash_hex_text(u64::MAX), "ffffffffffffffff");
    assert_eq!(hash_hex_text(0x0123_4567_89ab_cdef), format!("{:016x}", 0x0123_4567_89ab_cdefu64));
}

#[test]
fn hash_text_reads_as_from_str_radix_does() {
    let cases = [
        "ff", "+FF", "+", "", "-1", "10000000000000000", "ffffffffffffffff", "0g", "00000000000000ff", "++1",
        "aBc", " 1", "é",
    ];
    for c in cases {
        assert_eq!(parse_hash_hex(c), u64::from_str_radix(c, 16).ok(), "case {:?}", c);
    }
    for h in [0u64, 1, 255, 0xdead_beef, u64::MAX] {
        assert_eq!(parse_hash_hex(&hash_hex_text(h)), Some(h));
    }
}

#[test]
fn received_definitions_need_a_matching_hash() {
    let d = accept_definition("00000000000000ff", 255, Some("square"), None).unwrap();
    assert_eq!(d.hash, 255);
    assert_eq!(d.name, "square");
    assert_eq!(d.form, "Simple");
    assert!(d.register);
    let d = accept_definition("ff", 255, None, Some("Lambda")).unwrap();
    assert_eq!(d.name, "");
    assert_eq!(d.form, "Lambda");
    assert!(!d.register);
    assert!(accept_definition("fe", 255, Some("square"), None).is_none());
    assert!(accept_definition("not-hex", 255, None, None).is_none());
}

#[test]
fn definition_channels() {
    assert_eq!(def_channel(DEF_REQUEST_CHANNEL), DefChannel::Request);
    assert_eq!(def_channel("__def/response"), DefChannel::Response);
    assert_eq!(DEF_RESPONSE_CHANNEL, "__def/response");
    assert_eq!(def_channel("main/node"), DefChannel::Other);
}

#[test]
fn migration_appends_new_hashes_once() {
    let imports = vec![imp(&hash_hex_text(1), "one")];
    let defs = vec![(1u64, "uno".to_string()), (2u64, "two".to_string()), (2u64, "dos".to_string())];
    let (new_imports, added) = migrate_hash_imports(&imports, &defs);
    assert_eq!(
        pairs(&new_imports),
        vec![(hash_hex_text(1), "one".to_string()), (hash_hex_text(2), "two".to_string())]
    );
    assert_eq!(added, vec![(hash_hex_text(2), "two".to_string())]);
}
