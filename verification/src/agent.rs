use crate::nrepl::bencode::{
    bytes_text, insert_all, lemma_value_models, pair_models, value_models, Bencode, Value,
};
use crate::text::{
    chars_of, find_char, first_index_of, is_first_index, push_char, push_str, string_from, string_of, trim,
    trim_chars,
};
use crate::preprocessor::{joined, texts};
use crate::text::text_eq;
use vstd::prelude::*;
use vstd::utf8::encode_utf8;

verus! {

/// The input of a tool call, as plain values: each text field is present
/// where the call gave a string for it; `exports` holds the items of an
/// array (each a string or not), and `imports` the items of an array, each
/// an array of items (each a string or not) or not an array.
pub struct ToolInput {
    pub name: Option<String>,
    pub canvas: Option<String>,
    pub label: Option<String>,
    pub code: Option<String>,
    pub exports: Option<Vec<Option<String>>>,
    pub imports: Option<Vec<Option<Vec<Option<String>>>>>,
}

/// A text field, empty where it is missing.
pub open spec fn text_or_empty(t: Option<String>) -> Seq<char> {
    match t {
        Some(s) => s@,
        None => Seq::empty(),
    }
}

/// The byte string of a text.
pub open spec fn text_value(t: Seq<char>) -> Bencode {
    Bencode::Bytes(encode_utf8(t))
}

/// The strings among array items, as byte strings, in order.
pub open spec fn string_items(items: Seq<Option<String>>) -> Seq<Bencode>
    decreases items.len(),
{
    if items.len() == 0 {
        Seq::empty()
    } else {
        let rest = string_items(items.drop_last());
        match items.last() {
            Some(s) => rest.push(text_value(s@)),
            None => rest,
        }
    }
}

/// The import pairs among array items: arrays of exactly two strings,
/// each as a list of two byte strings, in order.
pub open spec fn pair_items(items: Seq<Option<Vec<Option<String>>>>) -> Seq<Bencode>
    decreases items.len(),
{
    if items.len() == 0 {
        Seq::empty()
    } else {
        let rest = pair_items(items.drop_last());
        match items.last() {
            Some(p) => if p@.len() == 2 && p@[0] is Some && p@[1] is Some {
                rest.push(Bencode::List(seq![text_value(p@[0]->0@), text_value(p@[1]->0@)]))
            } else {
                rest
            },
            None => rest,
        }
    }
}

/// A list of the strings among array items; empty where there is no array.
pub open spec fn string_list(items: Option<Vec<Option<String>>>) -> Bencode {
    match items {
        Some(v) => Bencode::List(string_items(v@)),
        None => Bencode::List(Seq::empty()),
    }
}

/// A list of the import pairs among array items; empty where there is no array.
pub open spec fn pair_list(items: Option<Vec<Option<Vec<Option<String>>>>>) -> Bencode {
    match items {
        Some(v) => Bencode::List(pair_items(v@)),
        None => Bencode::List(Seq::empty()),
    }
}

/// The fields with the code, where there is code.
pub open spec fn add_code(fields: Seq<(Seq<char>, Bencode)>, code: Option<String>) -> Seq<(Seq<char>, Bencode)> {
    match code {
        Some(c) => fields.push(("code"@, text_value(c@))),
        None => fields,
    }
}

/// The fields with the exported names, where an array of them is given.
pub open spec fn add_exports(
    fields: Seq<(Seq<char>, Bencode)>,
    exports: Option<Vec<Option<String>>>,
) -> Seq<(Seq<char>, Bencode)> {
    match exports {
        Some(e) => fields.push(("exports"@, Bencode::List(string_items(e@)))),
        None => fields,
    }
}

/// The fields with the imports, where an array of them is given.
pub open spec fn add_imports(
    fields: Seq<(Seq<char>, Bencode)>,
    imports: Option<Vec<Option<Vec<Option<String>>>>>,
) -> Seq<(Seq<char>, Bencode)> {
    match imports {
        Some(i) => fields.push(("imports"@, Bencode::List(pair_items(i@)))),
        None => fields,
    }
}

/// A dictionary of the fields, inserted in order.
pub open spec fn dict_of(fields: Seq<(Seq<char>, Bencode)>) -> Bencode {
    Bencode::Dict(insert_all(Seq::empty(), fields))
}

/// The nREPL request that a tool call sends, with id `tool`, or none for a
/// tool that sends no plain request (`eval_scheme`) and for an unknown tool.
pub open spec fn tool_request_model(name: Seq<char>, session: Seq<char>, input: ToolInput) -> Option<Bencode> {
    let id = ("id"@, text_value("tool"@));
    let sess = ("session"@, text_value(session));
    let canvas = ("canvas"@, text_value(text_or_empty(input.canvas)));
    let label = ("label"@, text_value(text_or_empty(input.label)));
    if name == "list_canvases"@ {
        Some(dict_of(seq![id, ("op"@, text_value("list-canvases"@)), sess]))
    } else if name == "create_canvas"@ {
        Some(
            dict_of(
                seq![id, ("name"@, text_value(text_or_empty(input.name))), ("op"@, text_value("create-canvas"@)), sess],
            ),
        )
    } else if name == "list_nodes"@ {
        Some(dict_of(seq![id, ("op"@, text_value("ns-list"@)), sess]))
    } else if name == "create_node"@ {
        Some(
            dict_of(
                seq![
                    canvas,
                    ("code"@, text_value(text_or_empty(input.code))),
                    ("exports"@, string_list(input.exports)),
                    id,
                    ("imports"@, pair_list(input.imports)),
                    label,
                    ("op"@, text_value("create-node"@)),
                    sess,
                ],
            ),
        )
    } else if name == "update_node"@ {
        let base = seq![canvas, id, label, ("op"@, text_value("update-node"@)), sess];
        Some(dict_of(add_imports(add_exports(add_code(base, input.code), input.exports), input.imports)))
    } else if name == "delete_node"@ {
        Some(dict_of(seq![canvas, id, label, ("op"@, text_value("delete-node"@)), sess]))
    } else if name == "compute_node"@ {
        Some(dict_of(seq![canvas, id, label, ("op"@, text_value("compute"@)), sess]))
    } else if name == "node_state"@ {
        Some(dict_of(seq![canvas, id, label, ("op"@, text_value("node-state"@)), sess]))
    } else {
        None
    }
}

fn text_field(t: &Option<String>) -> (r: Value)
    ensures
        r@ == text_value(text_or_empty(*t)),
{
    proof {
        reveal_strlit("");
    }
    match t {
        Some(s) => {
            assert(*t == Some(*s));
            Value::string(s.as_str())
        },
        None => Value::string(""),
    }
}

fn strings_value(items: &Vec<Option<String>>) -> (r: Value)
    ensures
        r@ == Bencode::List(string_items(items@)),
{
    let mut out: Vec<Value> = Vec::new();
    let mut i: usize = 0;
    assert(items@.take(0) =~= Seq::<Option<String>>::empty());
    while i < items.len()
        invariant
            i <= items@.len(),
            value_models(out@) == string_items(items@.take(i as int)),
        decreases items@.len() - i,
    {
        let ghost before = out@;
        assert(items@.take(i + 1).drop_last() =~= items@.take(i as int));
        match &items[i] {
            Some(s) => {
                let v = Value::string(s.as_str());
                out.push(v);
                assert(out@.drop_last() =~= before);
            },
            None => {},
        }
        i = i + 1;
    }
    assert(items@.take(i as int) =~= items@);
    Value::List(out)
}

fn pairs_value(items: &Vec<Option<Vec<Option<String>>>>) -> (r: Value)
    ensures
        r@ == Bencode::List(pair_items(items@)),
{
    let mut out: Vec<Value> = Vec::new();
    let mut i: usize = 0;
    assert(items@.take(0) =~= Seq::<Option<Vec<Option<String>>>>::empty());
    while i < items.len()
        invariant
            i <= items@.len(),
            value_models(out@) == pair_items(items@.take(i as int)),
        decreases items@.len() - i,
    {
        let ghost before = out@;
        assert(items@.take(i + 1).drop_last() =~= items@.take(i as int));
        assert(items@.take(i + 1).last() == items@[i as int]);
        match &items[i] {
            Some(p) => {
                assert(items@[i as int] == Some(*p));
                if p.len() == 2 {
                    match (&p[0], &p[1]) {
                        (Some(a), Some(b)) => {
                            assert(p@[0] == Some(*a) && p@[1] == Some(*b));
                            let pair = vec![Value::string(a.as_str()), Value::string(b.as_str())];
                            proof {
                                lemma_value_models(pair@);
                                assert(value_models(pair@) =~= seq![text_value(a@), text_value(b@)]);
                            }
                            let ghost lv = Value::List(pair);
                            out.push(Value::List(pair));
                            assert(out@.drop_last() =~= before);
                            assert(value_models(out@) == value_models(before).push(lv@));
                            assert(lv@ == Bencode::List(seq![text_value(a@), text_value(b@)]));
                            assert(value_models(out@) == pair_items(items@.take(i + 1)));
                        },
                        _ => {
                            assert(value_models(out@) == pair_items(items@.take(i + 1)));
                        },
                    }
                } else {
                    assert(value_models(out@) == pair_items(items@.take(i + 1)));
                }
            },
            None => {
                assert(value_models(out@) == pair_items(items@.take(i + 1)));
            },
        }
        i = i + 1;
    }
    assert(items@.take(i as int) =~= items@);
    Value::List(out)
}

/// The nREPL request of a tool call: `list_canvases`, `create_canvas`,
/// `list_nodes` (the namespace list), `create_node`, `update_node` (only
/// the fields given), `delete_node`, `compute_node` and `node_state`; none
/// for another tool.
pub fn tool_request(name: &str, session: &str, input: &ToolInput) -> (r: Option<Value>)
    ensures
        match r {
            Some(v) => tool_request_model(name@, session@, *input) == Some(v@),
            None => tool_request_model(name@, session@, *input) is None,
        },
{
    let t = crate::text::text_eq(name, "list_canvases");
    if t {
        let pairs = vec![("id", Value::string("tool")), ("op", Value::string("list-canvases")), ("session", Value::string(session))];
        proof {
            assert(pair_models(pairs@) =~= seq![
                ("id"@, text_value("tool"@)),
                ("op"@, text_value("list-canvases"@)),
                ("session"@, text_value(session@)),
            ]);
        }
        return Some(Value::dict(pairs));
    }
    if crate::text::text_eq(name, "create_canvas") {
        let pairs = vec![
            ("id", Value::string("tool")),
            ("name", text_field(&input.name)),
            ("op", Value::string("create-canvas")),
            ("session", Value::string(session)),
        ];
        proof {
            assert(pair_models(pairs@) =~= seq![
                ("id"@, text_value("tool"@)),
                ("name"@, text_value(text_or_empty(input.name))),
                ("op"@, text_value("create-canvas"@)),
                ("session"@, text_value(session@)),
            ]);
        }
        return Some(Value::dict(pairs));
    }
    if crate::text::text_eq(name, "list_nodes") {
        let pairs = vec![("id", Value::string("tool")), ("op", Value::string("ns-list")), ("session", Value::string(session))];
        proof {
            assert(pair_models(pairs@) =~= seq![
                ("id"@, text_value("tool"@)),
                ("op"@, text_value("ns-list"@)),
                ("session"@, text_value(session@)),
            ]);
        }
        return Some(Value::dict(pairs));
    }
    if crate::text::text_eq(name, "create_node") {
        let exports = match &input.exports {
            Some(e) => strings_value(e),
            None => {
                let none: Vec<Value> = Vec::new();
                assert(value_models(none@) =~= Seq::<Bencode>::empty());
                Value::List(none)
            },
        };
        let imports = match &input.imports {
            Some(i) => pairs_value(i),
            None => {
                let none: Vec<Value> = Vec::new();
                assert(value_models(none@) =~= Seq::<Bencode>::empty());
                Value::List(none)
            },
        };
        assert(exports@ == string_list(input.exports));
        assert(imports@ == pair_list(input.imports));
        let pairs = vec![
            ("canvas", text_field(&input.canvas)),
            ("code", text_field(&input.code)),
            ("exports", exports),
            ("id", Value::string("tool")),
            ("imports", imports),
            ("label", text_field(&input.label)),
            ("op", Value::string("create-node")),
            ("session", Value::string(session)),
        ];
        proof {
            assert(pair_models(pairs@) =~= seq![
                ("canvas"@, text_value(text_or_empty(input.canvas))),
                ("code"@, text_value(text_or_empty(input.code))),
                ("exports"@, string_list(input.exports)),
                ("id"@, text_value("tool"@)),
                ("imports"@, pair_list(input.imports)),
                ("label"@, text_value(text_or_empty(input.label))),
                ("op"@, text_value("create-node"@)),
                ("session"@, text_value(session@)),
            ]);
        }
        return Some(Value::dict(pairs));
    }
    if crate::text::text_eq(name, "update_node") {
        let mut pairs = vec![
            ("canvas", text_field(&input.canvas)),
            ("id", Value::string("tool")),
            ("label", text_field(&input.label)),
            ("op", Value::string("update-node")),
            ("session", Value::string(session)),
        ];
        let ghost base = seq![
            ("canvas"@, text_value(text_or_empty(input.canvas))),
            ("id"@, text_value("tool"@)),
            ("label"@, text_value(text_or_empty(input.label))),
            ("op"@, text_value("update-node"@)),
            ("session"@, text_value(session@)),
        ];
        assert(pair_models(pairs@) =~= base);
        let ghost with_code = add_code(base, input.code);
        match &input.code {
            Some(c) => {
                pairs.push(("code", Value::string(c.as_str())));
            },
            None => {},
        }
        assert(pair_models(pairs@) =~= with_code);
        let ghost with_exports = add_exports(with_code, input.exports);
        match &input.exports {
            Some(e) => {
                pairs.push(("exports", strings_value(e)));
            },
            None => {},
        }
        assert(pair_models(pairs@) =~= with_exports);
        let ghost with_imports = add_imports(with_exports, input.imports);
        match &input.imports {
            Some(i) => {
                pairs.push(("imports", pairs_value(i)));
            },
            None => {},
        }
        assert(pair_models(pairs@) =~= with_imports);
        return Some(Value::dict(pairs));
    }
    let op = if crate::text::text_eq(name, "delete_node") {
        "delete-node"
    } else if crate::text::text_eq(name, "compute_node") {
        "compute"
    } else if crate::text::text_eq(name, "node_state") {
        "node-state"
    } else {
        return None;
    };
    let pairs = vec![
        ("canvas", text_field(&input.canvas)),
        ("id", Value::string("tool")),
        ("label", text_field(&input.label)),
        ("op", Value::string(op)),
        ("session", Value::string(session)),
    ];
    proof {
        assert(pair_models(pairs@) =~= seq![
            ("canvas"@, text_value(text_or_empty(input.canvas))),
            ("id"@, text_value("tool"@)),
            ("label"@, text_value(text_or_empty(input.label))),
            ("op"@, text_value(op@)),
            ("session"@, text_value(session@)),
        ]);
    }
    Some(Value::dict(pairs))
}

/// The text under `key` in a response, where it is a UTF-8 byte string.
pub open spec fn response_text(b: Bencode, key: Seq<char>) -> Option<Seq<char>> {
    match b {
        Bencode::Dict(es) => match crate::nrepl::bencode::dict_lookup(es, key) {
            Some(v) => bytes_text(v),
            None => None,
        },
        _ => None,
    }
}

/// The lines that an evaluation's responses give: each value on a line,
/// and each error as `Error: ...` on a line.
pub open spec fn eval_lines(responses: Seq<Bencode>) -> Seq<char>
    decreases responses.len(),
{
    if responses.len() == 0 {
        Seq::empty()
    } else {
        let r = responses.last();
        let v = match response_text(r, "value"@) {
            Some(t) => t.push('\n'),
            None => Seq::empty(),
        };
        let e = match response_text(r, "ex"@) {
            Some(t) => "Error: "@ + t.push('\n'),
            None => Seq::empty(),
        };
        eval_lines(responses.drop_last()) + v + e
    }
}

/// The answer of an `eval_scheme` call: its lines without white space at
/// the ends, or `ok` where there are none.
pub open spec fn eval_answer_text(responses: Seq<Bencode>) -> Seq<char> {
    if eval_lines(responses).len() == 0 {
        "ok"@
    } else {
        trim(eval_lines(responses))
    }
}

/// The answer of an `eval_scheme` call from its responses.
pub fn eval_answer(responses: &Vec<Value>) -> (r: String)
    ensures
        r@ == eval_answer_text(value_models(responses@)),
{
    proof {
        lemma_value_models(responses@);
    }
    let mut out = String::new();
    let mut i: usize = 0;
    assert(value_models(responses@.take(0)) =~= Seq::<Bencode>::empty());
    while i < responses.len()
        invariant
            i <= responses@.len(),
            value_models(responses@).len() == responses@.len(),
            forall|j: int| 0 <= j < responses@.len() ==> #[trigger] value_models(responses@)[j] == responses@[j]@,
            out@ == eval_lines(value_models(responses@.take(i as int))),
        decreases responses@.len() - i,
    {
        let ghost before = out@;
        let r = &responses[i];
        match r.get_str("value") {
            Some(v) => {
                push_str(&mut out, v);
                push_char(&mut out, '\n');
            },
            None => {},
        }
        match r.get_str("ex") {
            Some(e) => {
                push_str(&mut out, "Error: ");
                push_str(&mut out, e);
                push_char(&mut out, '\n');
            },
            None => {},
        }
        proof {
            lemma_value_models(responses@.take(i + 1));
            let m = value_models(responses@.take(i + 1));
            assert(responses@.take(i + 1).drop_last() =~= responses@.take(i as int));
            assert(m == value_models(responses@.take(i as int)).push(responses@[i as int]@));
            assert(m.drop_last() =~= value_models(responses@.take(i as int)));
            assert(m.last() == r@);
            assert(out@ =~= eval_lines(m));
        }
        i = i + 1;
    }
    assert(responses@.take(i as int) =~= responses@);
    let cs = crate::text::chars_of(out.as_str());
    if cs.len() == 0 {
        string_from("ok")
    } else {
        let t = trim_chars(cs.as_slice(), 0, cs.len());
        assert(cs@.subrange(0, cs@.len() as int) =~= cs@);
        crate::text::string_of(t.as_slice())
    }
}

/// The answer of a call of a tool that does not exist.
pub fn unknown_tool(name: &str) -> (r: String)
    ensures
        r@ == "Unknown tool: "@ + name@,
{
    let mut s = string_from("Unknown tool: ");
    push_str(&mut s, name);
    s
}

/// The answer of a tool call whose request was answered: how the last
/// response reads, or `No response` where there was none.
pub fn exchange_answer(responses: &Vec<Value>) -> (r: String)
    ensures
        responses@.len() == 0 ==> r@ == "No response"@,
        responses@.len() > 0 ==> r@ == crate::nrepl::bencode::display_text(responses@.last()@),
{
    if responses.len() == 0 {
        string_from("No response")
    } else {
        responses[responses.len() - 1].display()
    }
}

// ---------------------------------------------------------------------
// The agent's command line and settings
// ---------------------------------------------------------------------

/// A `KEY=value` line of an `.env` file, both sides without white space at
/// the ends; a blank line, a comment (`#`), a line without `=` and one with
/// an empty value set nothing.
pub open spec fn env_assignment_of(line: Seq<char>) -> Option<(Seq<char>, Seq<char>)> {
    let l = trim(line);
    if l.len() == 0 || l[0] == '#' {
        None
    } else {
        match first_index_of(l, '=') {
            None => None,
            Some(k) => {
                let val = trim(l.skip(k + 1));
                if val.len() == 0 {
                    None
                } else {
                    Some((trim(l.take(k)), val))
                }
            },
        }
    }
}

/// The key and value that an `.env` line sets.
pub fn env_assignment(line: &str) -> (r: Option<(String, String)>)
    ensures
        match r {
            Some((k, v)) => env_assignment_of(line@) == Some((k@, v@)),
            None => env_assignment_of(line@) is None,
        },
{
    let cs = chars_of(line);
    let l = trim_chars(cs.as_slice(), 0, cs.len());
    assert(cs@.subrange(0, cs@.len() as int) =~= cs@);
    if l.len() == 0 || l[0] == '#' {
        return None;
    }
    match find_char(l.as_slice(), '=') {
        None => None,
        Some(k) => {
            assert(is_first_index(l@, '=', k as int));
            let val = trim_chars(l.as_slice(), k + 1, l.len());
            assert(l@.skip(k + 1) =~= l@.subrange(k + 1, l@.len() as int));
            if val.len() == 0 {
                None
            } else {
                let key = trim_chars(l.as_slice(), 0, k);
                assert(l@.take(k as int) =~= l@.subrange(0, k as int));
                Some((string_of(key.as_slice()), string_of(val.as_slice())))
            }
        },
    }
}

/// Whether every character is an ASCII digit.
pub open spec fn all_ascii_digits(s: Seq<char>) -> bool {
    forall|i: int| 0 <= i < s.len() ==> '0' <= #[trigger] s[i] <= '9'
}

/// The number that ASCII digits write.
pub open spec fn digits_number(s: Seq<char>) -> nat
    decreases s.len(),
{
    if s.len() == 0 {
        0
    } else {
        digits_number(s.drop_last()) * 10 + ((s.last() as int - 48) as nat)
    }
}

/// The port number in the text of an `.nrepl-port` file, as `u16::from_str`
/// reads it after white space at the ends is dropped: an optional `+`, then
/// one or more digits of value at most 65535.
pub open spec fn port_of(content: Seq<char>) -> Option<u16> {
    let t = trim(content);
    let d = if t.len() > 0 && t[0] == '+' {
        t.skip(1)
    } else {
        t
    };
    if d.len() > 0 && all_ascii_digits(d) && digits_number(d) <= 65535 {
        Some(digits_number(d) as u16)
    } else {
        None
    }
}

/// The port number written in an `.nrepl-port` file.
pub fn parse_port(content: &str) -> (r: Option<u16>)
    ensures
        r == port_of(content@),
{
    let cs = chars_of(content);
    let t = trim_chars(cs.as_slice(), 0, cs.len());
    assert(cs@.subrange(0, cs@.len() as int) =~= cs@);
    let start: usize = if t.len() > 0 && t[0] == '+' { 1 } else { 0 };
    let ghost d = t@.skip(start as int);
    assert(t@.skip(0) =~= t@);
    assert(d == (if t@.len() > 0 && t@[0] == '+' { t@.skip(1) } else { t@ }));
    if start >= t.len() {
        return None;
    }
    let mut acc: u32 = 0;
    let mut i: usize = start;
    assert(t@.subrange(start as int, start as int) =~= Seq::<char>::empty());
    while i < t.len()
        invariant
            start <= i <= t@.len(),
            d == t@.skip(start as int),
            t@ == trim(content@),
            d == (if t@.len() > 0 && t@[0] == '+' { t@.skip(1) } else { t@ }),
            all_ascii_digits(t@.subrange(start as int, i as int)),
            acc == if digits_number(t@.subrange(start as int, i as int)) > 65535 {
                65536
            } else {
                digits_number(t@.subrange(start as int, i as int))
            },
        decreases t@.len() - i,
    {
        let c = t[i];
        if c < '0' || c > '9' {
            assert(d[i - start] == c);
            assert(!all_ascii_digits(d));
            return None;
        }
        let ghost p = t@.subrange(start as int, i as int);
        let ghost q = t@.subrange(start as int, i + 1);
        assert(q.drop_last() =~= p);
        assert(q.last() == c);
        let digit: u32 = (c as u32) - 48;
        proof {
            assert(digits_number(q) == digits_number(p) * 10 + digit);
            assert(digits_number(p) * 10 >= digits_number(p)) by (nonlinear_arith);
        }
        if acc == 65536 {
            acc = 65536;
        } else {
            let next = acc * 10 + digit;
            acc = if next > 65535 { 65536 } else { next };
        }
        i = i + 1;
    }
    assert(t@.subrange(start as int, i as int) =~= d);
    if acc > 65535 {
        None
    } else {
        Some(acc as u16)
    }
}


/// A block of message content in the agent's conversation. `input` is the
/// JSON text of a tool call's arguments.
pub enum Block {
    Text { text: String },
    ToolUse { id: String, name: String, input: String },
    ToolResult { tool_use_id: String, content: String },
    Other,
}

/// A block as plain values.
pub enum BlockView {
    Text(Seq<char>),
    ToolUse(Seq<char>, Seq<char>, Seq<char>),
    ToolResult(Seq<char>, Seq<char>),
    Other,
}

impl View for Block {
    type V = BlockView;

    open spec fn view(&self) -> BlockView {
        match self {
            Block::Text { text } => BlockView::Text(text@),
            Block::ToolUse { id, name, input } => BlockView::ToolUse(id@, name@, input@),
            Block::ToolResult { tool_use_id, content } => BlockView::ToolResult(tool_use_id@, content@),
            Block::Other => BlockView::Other,
        }
    }
}

/// The views of some blocks.
pub open spec fn block_views(v: Seq<Block>) -> Seq<BlockView> {
    Seq::new(v.len(), |i: int| v[i]@)
}

/// The content of a message: a plain text, a list of blocks, or neither.
pub enum Content {
    Text(String),
    Blocks(Vec<Block>),
    Other,
}

/// A message of the agent's conversation; `role` is absent where the message
/// gave no string for it.
pub struct Message {
    pub role: Option<String>,
    pub content: Content,
}

/// A tool call in the chat-completions format.
pub struct ToolCall {
    pub id: String,
    pub name: String,
    pub arguments: String,
}

/// A tool call as plain values: id, name, arguments.
pub type CallView = (Seq<char>, Seq<char>, Seq<char>);

/// The views of some tool calls.
pub open spec fn call_views(v: Seq<ToolCall>) -> Seq<CallView> {
    Seq::new(v.len(), |i: int| (v[i].id@, v[i].name@, v[i].arguments@))
}

/// A message in the chat-completions format. An assistant message has no
/// content where it said nothing, and no tool calls where it made none.
pub enum ChatMessage {
    System { content: String },
    User { content: String },
    Tool { tool_call_id: String, content: String },
    Assistant { content: Option<String>, tool_calls: Option<Vec<ToolCall>> },
}

/// A chat-completions message as plain values.
pub enum ChatView {
    System(Seq<char>),
    User(Seq<char>),
    Tool(Seq<char>, Seq<char>),
    Assistant(Option<Seq<char>>, Option<Seq<CallView>>),
}

impl View for ChatMessage {
    type V = ChatView;

    open spec fn view(&self) -> ChatView {
        match self {
            ChatMessage::System { content } => ChatView::System(content@),
            ChatMessage::User { content } => ChatView::User(content@),
            ChatMessage::Tool { tool_call_id, content } => ChatView::Tool(tool_call_id@, content@),
            ChatMessage::Assistant { content, tool_calls } => ChatView::Assistant(
                match content {
                    Some(c) => Some(c@),
                    None => None,
                },
                match tool_calls {
                    Some(v) => Some(call_views(v@)),
                    None => None,
                },
            ),
        }
    }
}

/// The views of some chat messages.
pub open spec fn chat_views(v: Seq<ChatMessage>) -> Seq<ChatView> {
    Seq::new(v.len(), |i: int| v[i]@)
}

/// The texts of the text blocks, in order.
pub open spec fn text_parts(bs: Seq<BlockView>) -> Seq<Seq<char>>
    decreases bs.len(),
{
    if bs.len() == 0 {
        Seq::empty()
    } else {
        let r = text_parts(bs.drop_last());
        match bs.last() {
            BlockView::Text(t) => r.push(t),
            _ => r,
        }
    }
}

/// The tool uses among the blocks, as (id, name, arguments), in order.
pub open spec fn tool_uses(bs: Seq<BlockView>) -> Seq<CallView>
    decreases bs.len(),
{
    if bs.len() == 0 {
        Seq::empty()
    } else {
        let r = tool_uses(bs.drop_last());
        match bs.last() {
            BlockView::ToolUse(id, name, input) => r.push((id, name, input)),
            _ => r,
        }
    }
}

/// The tool results among the blocks, as tool messages, in order.
pub open spec fn tool_messages(bs: Seq<BlockView>) -> Seq<ChatView>
    decreases bs.len(),
{
    if bs.len() == 0 {
        Seq::empty()
    } else {
        let r = tool_messages(bs.drop_last());
        match bs.last() {
            BlockView::ToolResult(id, content) => r.push(ChatView::Tool(id, content)),
            _ => r,
        }
    }
}

/// An assistant turn in the chat-completions format: its texts joined by
/// newlines, if it has any, and its tool uses as tool calls, if it has any.
pub open spec fn assistant_chat(bs: Seq<BlockView>) -> ChatView {
    let t = text_parts(bs);
    let c = tool_uses(bs);
    ChatView::Assistant(
        if t.len() > 0 {
            Some(joined(t, seq!['\n']))
        } else {
            None
        },
        if c.len() > 0 {
            Some(c)
        } else {
            None
        },
    )
}

/// The role of a message, `user` where it has none.
pub open spec fn role_of(m: Message) -> Seq<char> {
    match m.role {
        Some(r) => r@,
        None => "user"@,
    }
}

/// The chat-completions messages one message of the conversation becomes: a
/// user text stays a user message, the tool results a user sends become tool
/// messages, and an assistant's blocks become one assistant message; anything
/// else is left out.
pub open spec fn chat_of_message(m: Message) -> Seq<ChatView> {
    if role_of(m) == "user"@ {
        match m.content {
            Content::Text(t) => seq![ChatView::User(t@)],
            Content::Blocks(bs) => tool_messages(block_views(bs@)),
            Content::Other => Seq::empty(),
        }
    } else if role_of(m) == "assistant"@ {
        match m.content {
            Content::Blocks(bs) => seq![assistant_chat(block_views(bs@))],
            _ => Seq::empty(),
        }
    } else {
        Seq::empty()
    }
}

/// The chat-completions messages of a conversation, in order.
pub open spec fn chat_of(msgs: Seq<Message>) -> Seq<ChatView>
    decreases msgs.len(),
{
    if msgs.len() == 0 {
        Seq::empty()
    } else {
        chat_of(msgs.drop_last()) + chat_of_message(msgs.last())
    }
}

fn join_lines(parts: &Vec<String>) -> (r: String)
    ensures
        r@ == joined(texts(parts@), seq!['\n']),
{
    let ghost ps = texts(parts@);
    let mut out = String::new();
    let mut i: usize = 0;
    assert(ps.take(0) =~= Seq::<Seq<char>>::empty());
    while i < parts.len()
        invariant
            i <= parts@.len(),
            ps == texts(parts@),
            out@ == joined(ps.take(i as int), seq!['\n']),
        decreases parts@.len() - i,
    {
        let ghost before = out@;
        if i > 0 {
            push_char(&mut out, '\n');
        }
        push_str(&mut out, parts[i].as_str());
        assert(ps.take(i + 1).drop_last() =~= ps.take(i as int));
        assert(ps.take(i + 1).last() == parts@[i as int]@);
        if i == 0 {
            assert(ps.take(1)[0] == parts@[0]@);
            assert(out@ =~= joined(ps.take(1), seq!['\n']));
        } else {
            assert(out@ =~= joined(ps.take(i + 1), seq!['\n']));
        }
        i = i + 1;
    }
    assert(ps.take(i as int) =~= ps);
    out
}

/// The texts and the tool uses of some blocks.
fn texts_and_calls(bs: &Vec<Block>) -> (r: (Vec<String>, Vec<ToolCall>))
    ensures
        texts(r.0@) == text_parts(block_views(bs@)),
        call_views(r.1@) == tool_uses(block_views(bs@)),
{
    let ghost vs = block_views(bs@);
    let mut parts: Vec<String> = Vec::new();
    let mut calls: Vec<ToolCall> = Vec::new();
    let mut i: usize = 0;
    assert(vs.take(0) =~= Seq::<BlockView>::empty());
    assert(texts(parts@) =~= Seq::<Seq<char>>::empty());
    assert(call_views(calls@) =~= Seq::<CallView>::empty());
    while i < bs.len()
        invariant
            i <= bs@.len(),
            vs == block_views(bs@),
            texts(parts@) == text_parts(vs.take(i as int)),
            call_views(calls@) == tool_uses(vs.take(i as int)),
        decreases bs@.len() - i,
    {
        assert(vs.take(i + 1).drop_last() =~= vs.take(i as int));
        assert(vs.take(i + 1).last() == bs@[i as int]@);
        match &bs[i] {
            Block::Text { text } => {
                let ghost before = texts(parts@);
                parts.push(text.clone());
                assert(texts(parts@) =~= before.push(text@));
            },
            Block::ToolUse { id, name, input } => {
                let ghost before = call_views(calls@);
                calls.push(ToolCall { id: id.clone(), name: name.clone(), arguments: input.clone() });
                assert(call_views(calls@) =~= before.push((id@, name@, input@)));
            },
            _ => {},
        }
        i = i + 1;
    }
    assert(vs.take(i as int) =~= vs);
    (parts, calls)
}

fn push_tool_messages(out: &mut Vec<ChatMessage>, bs: &Vec<Block>)
    ensures
        chat_views(final(out)@) == chat_views(old(out)@) + tool_messages(block_views(bs@)),
{
    let ghost vs = block_views(bs@);
    let ghost start = chat_views(out@);
    let mut i: usize = 0;
    assert(vs.take(0) =~= Seq::<BlockView>::empty());
    assert(chat_views(out@) =~= start + tool_messages(vs.take(0)));
    while i < bs.len()
        invariant
            i <= bs@.len(),
            vs == block_views(bs@),
            start == chat_views(old(out)@),
            chat_views(out@) == start + tool_messages(vs.take(i as int)),
        decreases bs@.len() - i,
    {
        assert(vs.take(i + 1).drop_last() =~= vs.take(i as int));
        assert(vs.take(i + 1).last() == bs@[i as int]@);
        match &bs[i] {
            Block::ToolResult { tool_use_id, content } => {
                let ghost before = chat_views(out@);
                out.push(ChatMessage::Tool { tool_call_id: tool_use_id.clone(), content: content.clone() });
                assert(chat_views(out@) =~= before.push(ChatView::Tool(tool_use_id@, content@)));
                assert(chat_views(out@) =~= start + tool_messages(vs.take(i + 1)));
            },
            _ => {},
        }
        i = i + 1;
    }
    assert(vs.take(i as int) =~= vs);
}

fn push_chat_message(out: &mut Vec<ChatMessage>, m: &Message)
    ensures
        chat_views(final(out)@) == chat_views(old(out)@) + chat_of_message(*m),
{
    let is_user = match &m.role {
        Some(r) => text_eq(r.as_str(), "user"),
        None => true,
    };
    if is_user {
        match &m.content {
            Content::Text(t) => {
                let ghost before = chat_views(out@);
                out.push(ChatMessage::User { content: t.clone() });
                assert(chat_views(out@) =~= before + seq![ChatView::User(t@)]);
            },
            Content::Blocks(bs) => {
                push_tool_messages(out, bs);
            },
            Content::Other => {
                assert(chat_views(out@) =~= chat_views(out@) + Seq::<ChatView>::empty());
            },
        }
        return ;
    }
    let is_assistant = match &m.role {
        Some(r) => text_eq(r.as_str(), "assistant"),
        None => false,
    };
    if !is_assistant {
        assert(chat_of_message(*m) =~= Seq::<ChatView>::empty());
        assert(chat_views(out@) =~= chat_views(out@) + chat_of_message(*m));
        return ;
    }
    match &m.content {
        Content::Blocks(bs) => {
            let (parts, calls) = texts_and_calls(bs);
            let content = if parts.len() > 0 {
                Some(join_lines(&parts))
            } else {
                None
            };
            let tool_calls = if calls.len() > 0 {
                Some(calls)
            } else {
                None
            };
            let ghost before = chat_views(out@);
            let msg = ChatMessage::Assistant { content, tool_calls };
            assert(msg@ == assistant_chat(block_views(bs@)));
            out.push(msg);
            assert(chat_views(out@) =~= before + seq![assistant_chat(block_views(bs@))]);
        },
        _ => {
            assert(chat_of_message(*m) =~= Seq::<ChatView>::empty());
            assert(chat_views(out@) =~= chat_views(out@) + chat_of_message(*m));
        },
    }
}

/// The conversation in the chat-completions format: the system prompt first,
/// then what each message becomes, in order.
pub fn to_chat_messages(system: &str, messages: &Vec<Message>) -> (r: Vec<ChatMessage>)
    ensures
        chat_views(r@) == seq![ChatView::System(system@)] + chat_of(messages@),
{
    let mut out: Vec<ChatMessage> = Vec::new();
    out.push(ChatMessage::System { content: string_from(system) });
    let ghost head = seq![ChatView::System(system@)];
    let mut i: usize = 0;
    assert(messages@.take(0) =~= Seq::<Message>::empty());
    assert(chat_views(out@) =~= head + chat_of(messages@.take(0)));
    while i < messages.len()
        invariant
            i <= messages@.len(),
            head == seq![ChatView::System(system@)],
            chat_views(out@) == head + chat_of(messages@.take(i as int)),
        decreases messages@.len() - i,
    {
        let ghost before = chat_views(out@);
        push_chat_message(&mut out, &messages[i]);
        assert(messages@.take(i + 1).drop_last() =~= messages@.take(i as int));
        assert(messages@.take(i + 1).last() == messages@[i as int]);
        assert(chat_views(out@) =~= head + chat_of(messages@.take(i + 1)));
        i = i + 1;
    }
    assert(messages@.take(i as int) =~= messages@);
    out
}


/// What `serde_json` reads from a text, written back as text: the compact
/// form of the JSON value, if the text is one.
pub uninterp spec fn json_compact(text: Seq<char>) -> Option<Seq<char>>;

/// `serde_json::from_str::<serde_json::Value>`, with the value read held as
/// the text that `serde_json::to_string` writes for it (compact, object keys
/// in serde_json's map order). Only that the answer depends on the text
/// alone is claimed.
#[verifier::external_body]
fn compact_json(text: &str) -> (r: Option<String>)
    ensures
        match r {
            Some(t) => json_compact(text@) == Some(t@),
            None => json_compact(text@) is None,
        },
{
    match serde_json::from_str::<serde_json::Value>(text) {
        Ok(v) => Some(serde_json::to_string(&v).unwrap_or_default()),
        Err(_) => None,
    }
}

/// The first choice of a chat-completions reply, as plain values: its finish
/// reason and content where they are strings, and its tool calls.
pub struct ChatReply {
    pub finish_reason: Option<String>,
    pub content: Option<String>,
    pub tool_calls: Vec<ToolCall>,
}

/// Why the model stopped: to use tools, or at the end of its turn.
#[derive(Debug, Clone, Copy, PartialEq, Eq, Structural)]
pub enum StopReason {
    ToolUse,
    EndTurn,
}

/// A reply of the model in the agent's own format.
pub struct AgentReply {
    pub stop_reason: StopReason,
    pub content: Vec<Block>,
}

/// The stop reason a finish reason stands for: tool use for `tool_calls`
/// and `function_call`, the end of the turn otherwise.
pub open spec fn stop_reason_of(finish: Option<String>) -> StopReason {
    match finish {
        Some(f) => if f@ == "tool_calls"@ || f@ == "function_call"@ {
            StopReason::ToolUse
        } else {
            StopReason::EndTurn
        },
        None => StopReason::EndTurn,
    }
}

/// The arguments of a tool call as the agent keeps them: the JSON value
/// they hold, in compact form, or an empty object where they hold none.
pub open spec fn arguments_or_empty(args: Seq<char>) -> Seq<char> {
    match json_compact(args) {
        Some(t) => t,
        None => "{}"@,
    }
}

/// The blocks of a reply: its content as a text block where it is a
/// non-empty text, then a tool-use block for each tool call, in order.
pub open spec fn reply_blocks(r: ChatReply) -> Seq<BlockView> {
    let text = match r.content {
        Some(t) => if t@.len() > 0 {
            seq![BlockView::Text(t@)]
        } else {
            Seq::empty()
        },
        None => Seq::empty(),
    };
    text + Seq::new(
        r.tool_calls@.len(),
        |i: int|
            BlockView::ToolUse(
                r.tool_calls@[i].id@,
                r.tool_calls@[i].name@,
                arguments_or_empty(r.tool_calls@[i].arguments@),
            ),
    )
}

/// A chat-completions reply in the agent's own format.
pub fn from_chat_reply(reply: &ChatReply) -> (r: AgentReply)
    ensures
        r.stop_reason == stop_reason_of(reply.finish_reason),
        block_views(r.content@) == reply_blocks(*reply),
{
    let stop_reason = match &reply.finish_reason {
        Some(f) => if text_eq(f.as_str(), "tool_calls") || text_eq(f.as_str(), "function_call") {
            StopReason::ToolUse
        } else {
            StopReason::EndTurn
        },
        None => StopReason::EndTurn,
    };
    let mut content: Vec<Block> = Vec::new();
    match &reply.content {
        Some(t) => {
            if chars_of(t.as_str()).len() > 0 {
                content.push(Block::Text { text: t.clone() });
            }
        },
        None => {},
    }
    let ghost text_part = block_views(content@);
    let ghost calls = reply.tool_calls@;
    let ghost uses = Seq::new(
        calls.len(),
        |i: int| BlockView::ToolUse(calls[i].id@, calls[i].name@, arguments_or_empty(calls[i].arguments@)),
    );
    assert(text_part == reply_blocks(*reply).take(text_part.len() as int));
    let mut i: usize = 0;
    assert(block_views(content@) =~= text_part + uses.take(0));
    while i < reply.tool_calls.len()
        invariant
            i <= calls.len(),
            calls == reply.tool_calls@,
            uses == Seq::new(
                calls.len(),
                |k: int| BlockView::ToolUse(calls[k].id@, calls[k].name@, arguments_or_empty(calls[k].arguments@)),
            ),
            block_views(content@) == text_part + uses.take(i as int),
        decreases calls.len() - i,
    {
        let call = &reply.tool_calls[i];
        let input = match compact_json(call.arguments.as_str()) {
            Some(t) => t,
            None => string_from("{}"),
        };
        let ghost before = block_views(content@);
        content.push(Block::ToolUse { id: call.id.clone(), name: call.name.clone(), input });
        assert(block_views(content@) =~= before.push(uses[i as int]));
        assert(text_part + uses.take(i + 1) =~= (text_part + uses.take(i as int)).push(uses[i as int]));
        i = i + 1;
    }
    assert(uses.take(i as int) =~= uses);
    assert(block_views(content@) =~= reply_blocks(*reply));
    AgentReply { stop_reason, content }
}

/// What the agent does next with a reply: at the end of its turn it shows
/// the texts; otherwise it runs the tools the reply asks for.
pub enum AgentStep {
    Finish(Vec<String>),
    RunTools(Vec<ToolCall>),
}

/// The next step for a reply: the texts of its blocks at the end of a turn,
/// the tool uses of its blocks (id, name, arguments) otherwise.
pub fn agent_step(reply: &AgentReply) -> (r: AgentStep)
    ensures
        match reply.stop_reason {
            StopReason::EndTurn => r matches AgentStep::Finish(t) && texts(t@) == text_parts(
                block_views(reply.content@),
            ),
            StopReason::ToolUse => r matches AgentStep::RunTools(c) && call_views(c@) == tool_uses(
                block_views(reply.content@),
            ),
        },
{
    let (parts, calls) = texts_and_calls(&reply.content);
    match reply.stop_reason {
        StopReason::EndTurn => AgentStep::Finish(parts),
        StopReason::ToolUse => AgentStep::RunTools(calls),
    }
}

fn copy_block(b: &Block) -> (r: Block)
    ensures
        r@ == b@,
{
    match b {
        Block::Text { text } => Block::Text { text: text.clone() },
        Block::ToolUse { id, name, input } => Block::ToolUse { id: id.clone(), name: name.clone(), input: input.clone() },
        Block::ToolResult { tool_use_id, content } => Block::ToolResult {
            tool_use_id: tool_use_id.clone(),
            content: content.clone(),
        },
        Block::Other => Block::Other,
    }
}

/// The assistant's turn as a message of the conversation: role `assistant`,
/// the reply's blocks as its content.
pub fn assistant_turn(reply: &AgentReply) -> (r: Message)
    ensures
        r.role matches Some(role) && role@ == "assistant"@,
        r.content matches Content::Blocks(bs) && block_views(bs@) == block_views(reply.content@),
{
    let mut bs: Vec<Block> = Vec::new();
    let mut i: usize = 0;
    while i < reply.content.len()
        invariant
            i <= reply.content@.len(),
            block_views(bs@) == block_views(reply.content@).take(i as int),
        decreases reply.content@.len() - i,
    {
        let ghost before = block_views(bs@);
        bs.push(copy_block(&reply.content[i]));
        assert(block_views(bs@) =~= before.push(reply.content@[i as int]@));
        assert(block_views(reply.content@).take(i + 1) =~= block_views(reply.content@).take(i as int).push(
            reply.content@[i as int]@,
        ));
        i = i + 1;
    }
    assert(block_views(reply.content@).take(i as int) =~= block_views(reply.content@));
    Message { role: Some(string_from("assistant")), content: Content::Blocks(bs) }
}

/// The results of the tools a reply asked for, as the user's next message:
/// one tool-result block per (tool use id, result), in order.
pub fn tool_results_message(results: &Vec<(String, String)>) -> (r: Message)
    ensures
        r.role matches Some(role) && role@ == "user"@,
        r.content matches Content::Blocks(bs) && block_views(bs@) == Seq::new(
            results@.len(),
            |i: int| BlockView::ToolResult(results@[i].0@, results@[i].1@),
        ),
{
    let ghost want = Seq::new(results@.len(), |i: int| BlockView::ToolResult(results@[i].0@, results@[i].1@));
    let mut bs: Vec<Block> = Vec::new();
    let mut i: usize = 0;
    while i < results.len()
        invariant
            i <= results@.len(),
            want == Seq::new(results@.len(), |k: int| BlockView::ToolResult(results@[k].0@, results@[k].1@)),
            block_views(bs@) == want.take(i as int),
        decreases results@.len() - i,
    {
        let ghost before = block_views(bs@);
        bs.push(Block::ToolResult { tool_use_id: results[i].0.clone(), content: results[i].1.clone() });
        assert(block_views(bs@) =~= before.push(want[i as int]));
        assert(want.take(i + 1) =~= want.take(i as int).push(want[i as int]));
        i = i + 1;
    }
    assert(want.take(i as int) =~= want);
    Message { role: Some(string_from("user")), content: Content::Blocks(bs) }
}


proof fn lemma_blocks_concat(a: Seq<BlockView>, b: Seq<BlockView>)
    ensures
        text_parts(a + b) == text_parts(a) + text_parts(b),
        tool_uses(a + b) == tool_uses(a) + tool_uses(b),
    decreases b.len(),
{
    if b.len() == 0 {
        assert(a + b =~= a);
        assert(text_parts(a) + text_parts(b) =~= text_parts(a));
        assert(tool_uses(a) + tool_uses(b) =~= tool_uses(a));
    } else {
        lemma_blocks_concat(a, b.drop_last());
        assert((a + b).drop_last() =~= a + b.drop_last());
        assert((a + b).last() == b.last());
        match b.last() {
            BlockView::Text(t) => {
                assert(text_parts(a) + text_parts(b) =~= (text_parts(a) + text_parts(b.drop_last())).push(t));
                assert(tool_uses(a) + tool_uses(b) =~= tool_uses(a) + tool_uses(b.drop_last()));
            },
            BlockView::ToolUse(id, name, input) => {
                assert(tool_uses(a) + tool_uses(b) =~= (tool_uses(a) + tool_uses(b.drop_last())).push(
                    (id, name, input),
                ));
                assert(text_parts(a) + text_parts(b) =~= text_parts(a) + text_parts(b.drop_last()));
            },
            _ => {
                assert(text_parts(a) + text_parts(b) =~= text_parts(a) + text_parts(b.drop_last()));
                assert(tool_uses(a) + tool_uses(b) =~= tool_uses(a) + tool_uses(b.drop_last()));
            },
        }
    }
}

/// The tool-use blocks of some tool calls.
pub open spec fn use_blocks(calls: Seq<ToolCall>) -> Seq<BlockView> {
    Seq::new(
        calls.len(),
        |i: int| BlockView::ToolUse(calls[i].id@, calls[i].name@, arguments_or_empty(calls[i].arguments@)),
    )
}

/// The tool calls of some tool calls taken into the agent's format: their
/// arguments in compact form.
pub open spec fn kept_calls(calls: Seq<ToolCall>) -> Seq<CallView> {
    Seq::new(calls.len(), |i: int| (calls[i].id@, calls[i].name@, arguments_or_empty(calls[i].arguments@)))
}

proof fn lemma_use_blocks(calls: Seq<ToolCall>)
    ensures
        text_parts(use_blocks(calls)) == Seq::<Seq<char>>::empty(),
        tool_uses(use_blocks(calls)) == kept_calls(calls),
    decreases calls.len(),
{
    if calls.len() > 0 {
        let d = calls.drop_last();
        lemma_use_blocks(d);
        assert(use_blocks(calls).drop_last() =~= use_blocks(d));
        assert(kept_calls(calls) =~= kept_calls(d).push(kept_calls(calls).last()));
    } else {
        assert(kept_calls(calls) =~= Seq::<CallView>::empty());
    }
}

/// Taking a reply into the agent's format and back to the chat-completions
/// format gives the assistant message the model sent: its text where it was
/// not empty, and its tool calls where it made any, each call's arguments
/// written in compact JSON (an empty object where they were not JSON).
pub proof fn lemma_reply_round_trip(r: ChatReply)
    ensures
        assistant_chat(reply_blocks(r)) == ChatView::Assistant(
            match r.content {
                Some(t) => if t@.len() > 0 {
                    Some(t@)
                } else {
                    None
                },
                None => None,
            },
            if r.tool_calls@.len() > 0 {
                Some(kept_calls(r.tool_calls@))
            } else {
                None
            },
        ),
{
    let text = match r.content {
        Some(t) => if t@.len() > 0 {
            seq![BlockView::Text(t@)]
        } else {
            Seq::empty()
        },
        None => Seq::empty(),
    };
    assert(reply_blocks(r) == text + use_blocks(r.tool_calls@));
    lemma_blocks_concat(text, use_blocks(r.tool_calls@));
    lemma_use_blocks(r.tool_calls@);
    if text.len() > 0 {
        let e = text.drop_last();
        assert(e =~= Seq::<BlockView>::empty());
        assert(tool_uses(e) =~= Seq::<CallView>::empty());
        assert(text_parts(e) =~= Seq::<Seq<char>>::empty());
        assert(text_parts(text) =~= seq![r.content->0@]);
        assert(joined(text_parts(text), seq!['\n']) == r.content->0@);
    }
    assert(tool_uses(text) =~= Seq::<CallView>::empty());
    assert(text_parts(reply_blocks(r)) =~= text_parts(text));
    assert(tool_uses(reply_blocks(r)) =~= kept_calls(r.tool_calls@));
    assert(kept_calls(r.tool_calls@).len() == r.tool_calls@.len());
}

} // verus!
