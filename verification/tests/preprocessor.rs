use wasm_canvas::preprocessor::{escape_scheme_string, preprocess, process_inline};

#[test]
fn test_basic_preprocess() {
    let input = r#"(input x f64)
(output result f64)

(define result (* x 2))

# My Analysis

The result is @result.

---

| name | value |
|------|-------|
| x    | @x    |

@(plot-line '(1 2 3) "test")
"#;
    let output = preprocess(input);
    println!("--- preprocessed ---\n{}\n---", output);

    assert!(!output.contains("(input x f64)"));
    assert!(!output.contains("(output result f64)"));
    assert!(output.contains("(define result (* x 2))"));
    assert!(output.contains("(render"));
    assert!(output.contains("(bold \"My Analysis\")"));
    assert!(output.contains("(text \"The result is \" result \".\")"));
    assert!(output.contains("(hr)"));
    assert!(output.contains("(table"));
    assert!(output.contains("(plot-line '(1 2 3) \"test\")"));
}

#[test]
fn test_inline_expressions() {
    assert_eq!(process_inline("hello @name world"), "\"hello \" name \" world\"");
    assert_eq!(process_inline("sum = @(+ x y)!"), "\"sum = \" (+ x y) \"!\"");
    assert_eq!(process_inline("no at signs"), "\"no at signs\"");
}

#[test]
fn preprocess_whole_output() {
    let out = preprocess("(define a 1)\n# T\n| h |\n| c |\n\ntext");
    assert_eq!(
        out,
        "(define a 1)\n(render\n  (bold \"T\")\n  (table (list \"h\") (list (list \"c\")))\n  (text \"text\")\n)"
    );
}

#[test]
fn preprocess_subheading_and_rules() {
    let out = preprocess("## Sub\n***\n___");
    assert_eq!(out, "(render\n  (bold \"Sub\")\n  (hr)\n  (hr)\n)");
    assert_eq!(preprocess("## Sub"), "(render\n  (bold \"Sub\")\n)");
}

#[test]
fn preprocess_scheme_only() {
    assert_eq!(preprocess("(define x 1)\n  (define y 2)  \n"), "(define x 1)\n(define y 2)\n");
    assert_eq!(preprocess(""), "");
}

#[test]
fn scheme_after_render_stays_scheme() {
    let out = preprocess("hello\n(define z 3)");
    assert_eq!(out, "(define z 3)\n(render\n  (text \"hello\")\n)");
    assert_eq!(preprocess("# T\n(define y 2)"), "(define y 2)\n(render\n  (bold \"T\")\n)");
}

#[test]
fn inline_edge_cases() {
    assert_eq!(process_inline(""), "\"\"");
    assert_eq!(process_inline("a@"), "\"a@\"");
    assert_eq!(process_inline("a@ b"), "\"a\" \"@ b\"");
    assert_eq!(process_inline("@@x"), "\"@\" x");
    assert_eq!(process_inline("q\"b\\"), "\"q\\\"b\\\\\"");
    assert_eq!(process_inline("@(f (g 1) 2) end"), "(f (g 1) 2) \" end\"");
    assert_eq!(process_inline("@(open"), "(open");
}

#[test]
fn escape_doubles_backslashes_and_quotes() {
    assert_eq!(escape_scheme_string("a\\b\"c"), "a\\\\b\\\"c");
}

#[test]
fn separator_rows_are_skipped() {
    let out = preprocess("| a | b |\n|:--|--:|\n| 1 | 2 |");
    assert_eq!(
        out,
        "(render\n  (table (list \"a\" \"b\") (list (list \"1\" \"2\")))\n)"
    );
}

#[test]
fn only_declarations_preprocess_as_empty() {
    assert_eq!(preprocess("(input x f64)\n  (output y f64)"), preprocess(""));
    assert_eq!(preprocess("(input x f64)\n# Title\n(output y f64)"), preprocess("# Title"));
}
