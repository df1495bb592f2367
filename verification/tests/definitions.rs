use wasm_canvas::definitions::{rename_definition_in_code, rename_export, rename_in_consumer};
use wasm_canvas::graph_runtime::HashImport;

fn imp(hash: &str, name: &str) -> HashImport {
    HashImport { hash: hash.to_string(), local_name: name.to_string() }
}

#[test]
fn definitions_are_renamed_where_defined() {
    let code = "(define sq (lambda (x) (* x x)))\n(define (sq2 x) (sq x))\n(define (sq x) x)";
    assert_eq!(
        rename_definition_in_code(code, "sq", "square"),
        "(define square (lambda (x) (* x x)))\n(define (sq2 x) (sq x))\n(define (square x) x)"
    );
    assert_eq!(rename_definition_in_code("(define a 1)", "b", "c"), "(define a 1)");
    let code = "(define x 1)(define x 2)";
    assert_eq!(rename_definition_in_code(code, "x", "y"), code.replace("(define x ", "(define y "));
}

#[test]
fn exports_are_renamed_once() {
    let mut exports = vec!["a".to_string(), "b".to_string(), "a".to_string()];
    rename_export(&mut exports, "a", "z");
    assert_eq!(exports, vec!["z".to_string(), "b".to_string(), "a".to_string()]);
    rename_export(&mut exports, "q", "r");
    assert_eq!(exports, vec!["z".to_string(), "b".to_string(), "a".to_string()]);
}

#[test]
fn consumers_follow_a_renamed_definition() {
    let mut imports = vec![imp("h1", "sq"), imp("h2", "sq"), imp("h1", "other")];
    let mut code = String::from("(display (sq 3)) ; sq");
    assert!(rename_in_consumer(&mut imports, &mut code, "h1", "sq", "square"));
    assert_eq!(imports[0].local_name, "square");
    assert_eq!(imports[1].local_name, "sq");
    assert_eq!(imports[2].local_name, "other");
    assert_eq!(code, "(display (square 3)) ; sq");

    let mut imports = vec![imp("h3", "f")];
    let mut code = String::from("(f 1)");
    assert!(!rename_in_consumer(&mut imports, &mut code, "h1", "sq", "square"));
    assert_eq!(code, "(f 1)");
    assert_eq!(imports[0].local_name, "f");
}

#[test]
fn renaming_a_definition_to_itself_changes_nothing() {
    let code = "(define x 1)\n(define (f x) (+ x 1))";
    assert_eq!(rename_definition_in_code(code, "x", "x"), code);
    assert_eq!(rename_definition_in_code(code, "f", "f"), code);
}
