use crate::preprocessor::trailing_count;
use crate::text::{
    key_less, lemma_key_less_asymmetric, lemma_key_less_irreflexive, lemma_key_less_total,
    lemma_key_less_transitive,
    char_texts, chars_of, decimal_text, find_char, first_index_of, has_prefix, is_first_index, push_decimal_text,
    push_str, slice_chars, split_at, split_chars, starts, string_from, string_of, trim, trim_chars,
};
use std::path::PathBuf;
use vstd::prelude::*;

verus! {

#[verifier::external_type_specification]
#[verifier::external_body]
pub struct ExPathBuf(PathBuf);

/// The type of a node port.
#[derive(Debug, Clone, Copy, PartialEq, Eq)]
pub enum PortType {
    F64,
    F32,
    I64,
    I32,
    Bool,
    Str,
}

/// A named, typed port of a node.
#[derive(Debug, Clone)]
pub struct PortDef {
    pub name: String,
    pub port_type: PortType,
}

/// The kind of a built-in node.
#[derive(Debug, Clone, Copy, PartialEq, Eq)]
pub enum BuiltinKind {
    Const,
    Output,
    Script,
}

/// A kind of node that can be placed on a canvas.
#[derive(Debug, Clone)]
pub struct NodeTemplate {
    pub name: String,
    pub category: String,
    pub path: Option<PathBuf>,
    pub inputs: Vec<PortDef>,
    pub outputs: Vec<PortDef>,
    pub wasm_bytes: Option<Vec<u8>>,
    pub builtin: Option<BuiltinKind>,
}

/// Names and types of ports.
pub open spec fn port_views(ps: Seq<PortDef>) -> Seq<(Seq<char>, PortType)> {
    Seq::new(ps.len(), |i: int| (ps[i].name@, ps[i].port_type))
}

/// The port type a WIT type name stands for.
pub open spec fn wit_type(s: Seq<char>) -> Option<PortType> {
    if s == "f64"@ {
        Some(PortType::F64)
    } else if s == "f32"@ {
        Some(PortType::F32)
    } else if s == "s64"@ || s == "i64"@ {
        Some(PortType::I64)
    } else if s == "s32"@ || s == "i32"@ {
        Some(PortType::I32)
    } else if s == "bool"@ {
        Some(PortType::Bool)
    } else if s == "string"@ {
        Some(PortType::Str)
    } else {
        None
    }
}

/// The message for a WIT type with no port type.
pub open spec fn unsupported(s: Seq<char>) -> Seq<char> {
    "Unsupported WIT type: "@ + s
}

fn is_lit(s: &[char], lit: &str) -> (r: bool)
    ensures
        r == (s@ == lit@),
{
    let l = chars_of(lit);
    if l.len() != s.len() {
        return false;
    }
    let mut i: usize = 0;
    while i < l.len()
        invariant
            i <= l@.len(),
            l@.len() == s@.len(),
            l@ == lit@,
            forall|j: int| 0 <= j < i ==> s@[j] == l@[j],
        decreases l@.len() - i,
    {
        if s[i] != l[i] {
            return false;
        }
        i = i + 1;
    }
    assert(s@ =~= lit@);
    true
}

/// The port type a WIT type name stands for, if any.
fn port_type_of(c: &[char]) -> (r: Option<PortType>)
    ensures
        r == wit_type(c@),
{
    if is_lit(c, "f64") {
        Some(PortType::F64)
    } else if is_lit(c, "f32") {
        Some(PortType::F32)
    } else if is_lit(c, "s64") || is_lit(c, "i64") {
        Some(PortType::I64)
    } else if is_lit(c, "s32") || is_lit(c, "i32") {
        Some(PortType::I32)
    } else if is_lit(c, "bool") {
        Some(PortType::Bool)
    } else if is_lit(c, "string") {
        Some(PortType::Str)
    } else {
        None
    }
}

fn unsupported_message(typ: &[char]) -> (r: String)
    ensures
        r@ == unsupported(typ@),
{
    let mut msg = string_from("Unsupported WIT type: ");
    let t = string_of(typ);
    push_str(&mut msg, t.as_str());
    msg
}

/// The port type of a WIT type name, or the message for an unsupported one.
pub fn parse_wit_type(s: &str) -> (r: Result<PortType, String>)
    ensures
        match r {
            Ok(t) => wit_type(s@) == Some(t),
            Err(e) => wit_type(s@) is None && e@ == unsupported(s@),
        },
{
    let cs = chars_of(s);
    match port_type_of(cs.as_slice()) {
        Some(t) => Ok(t),
        None => Err(unsupported_message(cs.as_slice())),
    }
}

/// Whether `p` occurs in `s`.
pub open spec fn has_sub(s: Seq<char>, p: Seq<char>) -> bool {
    exists|i: int| 0 <= i && i + p.len() <= s.len() && #[trigger] s.subrange(i, i + p.len()) == p
}

/// `i` is the first place where `->` occurs in `s`.
pub open spec fn is_first_arrow(s: Seq<char>, i: int) -> bool {
    &&& 0 <= i
    &&& i + 1 < s.len()
    &&& s[i] == '-'
    &&& s[i + 1] == '>'
    &&& forall|j: int| 0 <= j < i ==> !(#[trigger] s[j] == '-' && s[j + 1] == '>')
}

/// The first place where `->` occurs in `s`.
pub open spec fn first_arrow(s: Seq<char>) -> Option<int> {
    if exists|i: int| is_first_arrow(s, i) {
        Some(choose|i: int| is_first_arrow(s, i))
    } else {
        None
    }
}

/// `s` without any `c` at its end.
pub open spec fn strip_end(s: Seq<char>, c: char) -> Seq<char> {
    s.take(s.len() - trailing_count(s, c))
}

/// Parameters `name: type` from comma-separated pieces; a piece without `:`
/// is skipped, and the first unsupported type is an error.
pub open spec fn params_from(pieces: Seq<Seq<char>>) -> Result<Seq<(Seq<char>, PortType)>, Seq<char>>
    decreases pieces.len(),
{
    if pieces.len() == 0 {
        Ok(Seq::empty())
    } else {
        let q = trim(pieces[0]);
        match first_index_of(q, ':') {
            None => params_from(pieces.skip(1)),
            Some(k) => {
                let name = trim(q.take(k));
                let typ = trim(q.skip(k + 1));
                match wit_type(typ) {
                    None => Err(unsupported(typ)),
                    Some(t) => match params_from(pieces.skip(1)) {
                        Ok(rest) => Ok(seq![(name, t)] + rest),
                        Err(e) => Err(e),
                    },
                }
            },
        }
    }
}

/// Return types from comma-separated pieces, named `out0`, `out1`, ... from `i` on.
pub open spec fn outs_from(pieces: Seq<Seq<char>>, i: nat) -> Result<Seq<(Seq<char>, PortType)>, Seq<char>>
    decreases pieces.len(),
{
    if pieces.len() == 0 {
        Ok(Seq::empty())
    } else {
        let typ = trim(pieces[0]);
        match wit_type(typ) {
            None => Err(unsupported(typ)),
            Some(t) => match outs_from(pieces.skip(1), i + 1) {
                Ok(rest) => Ok(seq![("out"@ + decimal_text(i), t)] + rest),
                Err(e) => Err(e),
            },
        }
    }
}

/// The input ports of an export line: the parameters between its first `(`
/// and its first `)`.
pub open spec fn line_inputs(l: Seq<char>) -> Result<Seq<(Seq<char>, PortType)>, Seq<char>> {
    match (first_index_of(l, '('), first_index_of(l, ')')) {
        (Some(ps), Some(pe)) => {
            let p = l.subrange(ps + 1, pe);
            if trim(p).len() == 0 {
                Ok(Seq::empty())
            } else {
                params_from(split_at(p, ','))
            }
        },
        _ => Ok(Seq::empty()),
    }
}

/// The output ports of an export line: what follows its first `->`, one port
/// `out` or a tuple `(a, b, ...)` of ports `out0`, `out1`, ...
pub open spec fn line_outputs(l: Seq<char>) -> Result<Seq<(Seq<char>, PortType)>, Seq<char>> {
    match first_arrow(l) {
        None => Ok(Seq::empty()),
        Some(a) => {
            let r = trim(strip_end(trim(l.skip(a + 2)), ';'));
            if r.len() > 0 && r[0] == '(' && r.last() == ')' {
                outs_from(split_at(r.subrange(1, r.len() - 1), ','), 0)
            } else {
                match wit_type(r) {
                    None => Err(unsupported(r)),
                    Some(t) => Ok(seq![("out"@, t)]),
                }
            }
        },
    }
}

/// A line that declares an exported function.
pub open spec fn export_line(l: Seq<char>) -> bool {
    has_sub(l, "func("@) && starts(l, "export "@)
}

/// The ports of the first exported function among trimmed lines.
pub open spec fn wit_scan(lines: Seq<Seq<char>>) -> Result<(Seq<(Seq<char>, PortType)>, Seq<(Seq<char>, PortType)>), Seq<char>>
    decreases lines.len(),
{
    if lines.len() == 0 {
        Ok((Seq::empty(), Seq::empty()))
    } else {
        let l = trim(lines[0]);
        if export_line(l) {
            match line_inputs(l) {
                Err(e) => Err(e),
                Ok(ins) => match line_outputs(l) {
                    Err(e) => Err(e),
                    Ok(outs) => Ok((ins, outs)),
                },
            }
        } else {
            wit_scan(lines.skip(1))
        }
    }
}

/// The first export line has its first `)` before its first `(`, where
/// reading its parameters cannot go.
pub open spec fn wit_unreadable(lines: Seq<Seq<char>>) -> bool
    decreases lines.len(),
{
    if lines.len() == 0 {
        false
    } else {
        let l = trim(lines[0]);
        if export_line(l) {
            match (first_index_of(l, '('), first_index_of(l, ')')) {
                (Some(ps), Some(pe)) => pe < ps,
                _ => false,
            }
        } else {
            wit_unreadable(lines.skip(1))
        }
    }
}

/// Port names and types from a parse of ports.
pub open spec fn ports_view(
    r: Result<(Vec<PortDef>, Vec<PortDef>), String>,
) -> Result<(Seq<(Seq<char>, PortType)>, Seq<(Seq<char>, PortType)>), Seq<char>> {
    match r {
        Ok((a, b)) => Ok((port_views(a@), port_views(b@))),
        Err(e) => Err(e@),
    }
}

/// `r` with `acc` in front of the ports it yields.
pub open spec fn after(
    acc: Seq<(Seq<char>, PortType)>,
    r: Result<Seq<(Seq<char>, PortType)>, Seq<char>>,
) -> Result<Seq<(Seq<char>, PortType)>, Seq<char>> {
    match r {
        Ok(rest) => Ok(acc + rest),
        Err(e) => Err(e),
    }
}

/// Port names and types from a parse of one list of ports.
pub open spec fn list_view(r: Result<Vec<PortDef>, String>) -> Result<
    Seq<(Seq<char>, PortType)>,
    Seq<char>,
> {
    match r {
        Ok(v) => Ok(port_views(v@)),
        Err(e) => Err(e@),
    }
}

fn read_params(pieces: &Vec<Vec<char>>) -> (r: Result<Vec<PortDef>, String>)
    ensures
        list_view(r) == params_from(char_texts(pieces@)),
{
    let ghost all = char_texts(pieces@);
    let mut out: Vec<PortDef> = Vec::new();
    let mut k: usize = 0;
    assert(all.skip(0) =~= all);
    assert(port_views(out@) =~= Seq::<(Seq<char>, PortType)>::empty());
    proof {
        match params_from(all) {
            Ok(v) => assert(Seq::<(Seq<char>, PortType)>::empty() + v =~= v),
            Err(_) => {},
        }
    }
    while k < pieces.len()
        invariant
            k <= pieces@.len(),
            all == char_texts(pieces@),
            after(port_views(out@), params_from(all.skip(k as int))) == params_from(all),
        decreases pieces@.len() - k,
    {
        let ghost rest = all.skip(k as int);
        let ghost before = port_views(out@);
        assert(rest.skip(1) =~= all.skip(k + 1));
        assert(rest[0] == pieces@[k as int]@);
        let p = &pieces[k];
        let q = trim_chars(p.as_slice(), 0, p.len());
        assert(p@.subrange(0, p@.len() as int) =~= p@);
        match find_char(q.as_slice(), ':') {
            None => {},
            Some(c) => {
                assert(is_first_index(q@, ':', c as int));
                let name = trim_chars(q.as_slice(), 0, c);
                let typ = trim_chars(q.as_slice(), c + 1, q.len());
                assert(q@.take(c as int) =~= q@.subrange(0, c as int));
                assert(q@.skip(c + 1) =~= q@.subrange(c + 1, q@.len() as int));
                match port_type_of(typ.as_slice()) {
                    None => {
                        return Err(unsupported_message(typ.as_slice()));
                    },
                    Some(t) => {
                        let nm = string_of(name.as_slice());
                        out.push(PortDef { name: nm, port_type: t });
                        let ghost x = (name@, t);
                        assert(port_views(out@) =~= before.push(x));
                        proof {
                            match params_from(all.skip(k + 1)) {
                                Ok(v) => assert(before.push(x) + v =~= before + (seq![x] + v)),
                                Err(_) => {},
                            }
                        }
                    },
                }
            },
        }
        k = k + 1;
    }
    assert(all.skip(k as int) =~= Seq::<Seq<char>>::empty());
    assert(port_views(out@) + Seq::<(Seq<char>, PortType)>::empty() =~= port_views(out@));
    Ok(out)
}

fn read_outs(pieces: &Vec<Vec<char>>) -> (r: Result<Vec<PortDef>, String>)
    ensures
        list_view(r) == outs_from(char_texts(pieces@), 0),
{
    let ghost all = char_texts(pieces@);
    let mut out: Vec<PortDef> = Vec::new();
    let mut k: usize = 0;
    assert(all.skip(0) =~= all);
    assert(port_views(out@) =~= Seq::<(Seq<char>, PortType)>::empty());
    proof {
        match outs_from(all, 0) {
            Ok(v) => assert(Seq::<(Seq<char>, PortType)>::empty() + v =~= v),
            Err(_) => {},
        }
    }
    while k < pieces.len()
        invariant
            k <= pieces@.len(),
            all == char_texts(pieces@),
            after(port_views(out@), outs_from(all.skip(k as int), k as nat)) == outs_from(all, 0),
        decreases pieces@.len() - k,
    {
        let ghost rest = all.skip(k as int);
        let ghost before = port_views(out@);
        assert(rest.skip(1) =~= all.skip(k + 1));
        assert(rest[0] == pieces@[k as int]@);
        let p = &pieces[k];
        let typ = trim_chars(p.as_slice(), 0, p.len());
        assert(p@.subrange(0, p@.len() as int) =~= p@);
        match port_type_of(typ.as_slice()) {
            None => {
                return Err(unsupported_message(typ.as_slice()));
            },
            Some(t) => {
                let mut nm = string_from("out");
                push_decimal_text(&mut nm, k as u64);
                out.push(PortDef { name: nm, port_type: t });
                let ghost x = ("out"@ + decimal_text(k as nat), t);
                assert(port_views(out@) =~= before.push(x));
                proof {
                    match outs_from(all.skip(k + 1), (k + 1) as nat) {
                        Ok(v) => assert(before.push(x) + v =~= before + (seq![x] + v)),
                        Err(_) => {},
                    }
                }
            },
        }
        k = k + 1;
    }
    assert(all.skip(k as int) =~= Seq::<Seq<char>>::empty());
    assert(port_views(out@) + Seq::<(Seq<char>, PortType)>::empty() =~= port_views(out@));
    Ok(out)
}

/// The characters of `t` without any `c` at the end.
fn strip_end_chars(t: &[char], c: char) -> (r: Vec<char>)
    ensures
        r@ == strip_end(t@, c),
{
    let mut e: usize = t.len();
    assert(t@.take(e as int) =~= t@);
    while e > 0 && t[e - 1] == c
        invariant
            e <= t@.len(),
            trailing_count(t@, c) == (t@.len() - e) + trailing_count(t@.take(e as int), c),
        decreases e,
    {
        assert(t@.take(e as int).drop_last() =~= t@.take(e - 1));
        e = e - 1;
    }
    assert(trailing_count(t@.take(e as int), c) == 0);
    let mut out: Vec<char> = Vec::new();
    let mut i: usize = 0;
    while i < e
        invariant
            i <= e <= t@.len(),
            out@ == t@.take(i as int),
        decreases e - i,
    {
        out.push(t[i]);
        i = i + 1;
        assert(out@ =~= t@.take(i as int));
    }
    out
}

/// The first place where `->` occurs.
fn find_arrow(t: &[char]) -> (r: Option<usize>)
    ensures
        match r {
            Some(i) => first_arrow(t@) == Some(i as int),
            None => first_arrow(t@) is None,
        },
{
    let mut i: usize = 0;
    while t.len() - i > 1
        invariant
            i <= t@.len(),
            forall|j: int| 0 <= j < i && j + 1 < t@.len() ==> !(#[trigger] t@[j] == '-' && t@[j + 1] == '>'),
        decreases t@.len() - i,
    {
        if t[i] == '-' && t[i + 1] == '>' {
            proof {
                assert(is_first_arrow(t@, i as int));
                let k = choose|k: int| is_first_arrow(t@, k);
                if k < i {
                    assert(t@[k] == '-' && t@[k + 1] == '>');
                } else if k > i {
                    assert(!(t@[i as int] == '-' && t@[i + 1] == '>'));
                }
            }
            return Some(i);
        }
        i = i + 1;
    }
    proof {
        if exists|k: int| is_first_arrow(t@, k) {
            let k = choose|k: int| is_first_arrow(t@, k);
            assert(t@[k] == '-' && t@[k + 1] == '>');
        }
    }
    None
}

/// Whether the text `p` occurs in `t`.
fn contains_text(t: &Vec<char>, p: &str) -> (r: bool)
    requires
        p@.len() > 0,
    ensures
        r == has_sub(t@, p@),
{
    let pc = chars_of(p);
    if pc.len() > t.len() {
        proof {
            if has_sub(t@, p@) {
                let i = choose|i: int| 0 <= i && i + p@.len() <= t@.len() && #[trigger] t@.subrange(i, i + p@.len()) == p@;
            }
        }
        return false;
    }
    let mut i: usize = 0;
    while i <= t.len() - pc.len()
        invariant
            pc@ == p@,
            0 < pc@.len() <= t@.len(),
            i <= t@.len() - pc@.len() + 1,
            forall|j: int| 0 <= j < i && j + pc@.len() <= t@.len() ==> #[trigger] t@.subrange(j, j + pc@.len()) != pc@,
        decreases t@.len() - i,
    {
        if crate::graph_runtime::matches_at(t, &pc, i) {
            return true;
        }
        i = i + 1;
    }
    proof {
        if has_sub(t@, p@) {
            let j = choose|j: int| 0 <= j && j + p@.len() <= t@.len() && #[trigger] t@.subrange(j, j + p@.len()) == p@;
            assert(j < i);
        }
    }
    false
}

/// The first `)` of `l` does not come before its first `(`.
pub open spec fn parens_in_order(l: Seq<char>) -> bool {
    match (first_index_of(l, '('), first_index_of(l, ')')) {
        (Some(ps), Some(pe)) => ps <= pe,
        _ => true,
    }
}

fn read_line_inputs(l: &Vec<char>) -> (r: Result<Vec<PortDef>, String>)
    requires
        parens_in_order(l@),
    ensures
        list_view(r) == line_inputs(l@),
{
    let none: Vec<PortDef> = Vec::new();
    assert(port_views(none@) =~= Seq::<(Seq<char>, PortType)>::empty());
    match find_char(l.as_slice(), '(') {
        None => Ok(none),
        Some(ps) => match find_char(l.as_slice(), ')') {
            None => Ok(none),
            Some(pe) => {
                assert(l@[ps as int] == '(' && l@[pe as int] == ')');
                let tp = trim_chars(l.as_slice(), ps + 1, pe);
                if tp.len() == 0 {
                    Ok(none)
                } else {
                    let p = slice_chars(l.as_slice(), ps + 1, pe);
                    let pieces = split_chars(p.as_slice(), ',');
                    read_params(&pieces)
                }
            },
        },
    }
}

fn read_line_outputs(l: &Vec<char>) -> (r: Result<Vec<PortDef>, String>)
    ensures
        list_view(r) == line_outputs(l@),
{
    match find_arrow(l.as_slice()) {
        None => {
            let none: Vec<PortDef> = Vec::new();
            assert(port_views(none@) =~= Seq::<(Seq<char>, PortType)>::empty());
            Ok(none)
        },
        Some(a) => {
            let n = l.len();
            assert(is_first_arrow(l@, a as int));
            assert(a + 2 <= n);
            let t1 = trim_chars(l.as_slice(), a + 2, n);
            assert(l@.subrange(a + 2, l@.len() as int) =~= l@.skip(a + 2));
            let t2 = strip_end_chars(t1.as_slice(), ';');
            let r = trim_chars(t2.as_slice(), 0, t2.len());
            assert(t2@.subrange(0, t2@.len() as int) =~= t2@);
            if r.len() > 0 && r[0] == '(' && r[r.len() - 1] == ')' {
                let inner = slice_chars(r.as_slice(), 1, r.len() - 1);
                let pieces = split_chars(inner.as_slice(), ',');
                read_outs(&pieces)
            } else {
                match port_type_of(r.as_slice()) {
                    None => Err(unsupported_message(r.as_slice())),
                    Some(t) => {
                        let out = vec![PortDef { name: string_from("out"), port_type: t }];
                        assert(port_views(out@) =~= seq![("out"@, t)]);
                        Ok(out)
                    },
                }
            }
        },
    }
}

/// Whether the ports of a WIT text can be read: its first export line does
/// not have its first `)` before its first `(`.
pub fn wit_readable(wit_text: &str) -> (r: bool)
    ensures
        r == !wit_unreadable(split_at(wit_text@, '\n')),
{
    let cs = chars_of(wit_text);
    let lines = split_chars(cs.as_slice(), '\n');
    let ghost all = char_texts(lines@);
    let mut k: usize = 0;
    assert(all.skip(0) =~= all);
    while k < lines.len()
        invariant
            k <= lines@.len(),
            all == char_texts(lines@),
            all == split_at(wit_text@, '\n'),
            wit_unreadable(all.skip(k as int)) == wit_unreadable(all),
        decreases lines@.len() - k,
    {
        let ghost rest = all.skip(k as int);
        assert(rest.skip(1) =~= all.skip(k + 1));
        assert(rest[0] == lines@[k as int]@);
        let line = &lines[k];
        let l = trim_chars(line.as_slice(), 0, line.len());
        assert(line@.subrange(0, line@.len() as int) =~= line@);
        proof {
            reveal_strlit("func(");
        }
        if contains_text(&l, "func(") && has_prefix(l.as_slice(), "export ") {
            return match (find_char(l.as_slice(), '('), find_char(l.as_slice(), ')')) {
                (Some(ps), Some(pe)) => ps <= pe,
                _ => true,
            };
        }
        k = k + 1;
    }
    assert(all.skip(k as int) =~= Seq::<Seq<char>>::empty());
    true
}

/// The input and output ports of the first exported function in a WIT
/// text, `export name: func(a: f64, ...) -> f64;`, or the message for the
/// first type that no port can carry.
pub fn parse_wit_ports(wit_text: &str) -> (r: Result<(Vec<PortDef>, Vec<PortDef>), String>)
    requires
        !wit_unreadable(split_at(wit_text@, '\n')),
    ensures
        ports_view(r) == wit_scan(split_at(wit_text@, '\n')),
{
    let cs = chars_of(wit_text);
    let lines = split_chars(cs.as_slice(), '\n');
    let ghost all = char_texts(lines@);
    let mut k: usize = 0;
    assert(all.skip(0) =~= all);
    while k < lines.len()
        invariant
            k <= lines@.len(),
            all == char_texts(lines@),
            all == split_at(wit_text@, '\n'),
            wit_scan(all.skip(k as int)) == wit_scan(all),
            !wit_unreadable(all.skip(k as int)),
        decreases lines@.len() - k,
    {
        let ghost rest = all.skip(k as int);
        assert(rest.skip(1) =~= all.skip(k + 1));
        assert(rest[0] == lines@[k as int]@);
        let line = &lines[k];
        let l = trim_chars(line.as_slice(), 0, line.len());
        assert(line@.subrange(0, line@.len() as int) =~= line@);
        proof {
            reveal_strlit("func(");
        }
        if contains_text(&l, "func(") && has_prefix(l.as_slice(), "export ") {
            let ins = read_line_inputs(&l);
            match ins {
                Err(e) => {
                    return Err(e);
                },
                Ok(ins) => {
                    let outs = read_line_outputs(&l);
                    match outs {
                        Err(e) => {
                            return Err(e);
                        },
                        Ok(outs) => {
                            return Ok((ins, outs));
                        },
                    }
                },
            }
        }
        k = k + 1;
    }
    assert(all.skip(k as int) =~= Seq::<Seq<char>>::empty());
    let none: Vec<PortDef> = Vec::new();
    let also_none: Vec<PortDef> = Vec::new();
    assert(port_views(none@) =~= Seq::<(Seq<char>, PortType)>::empty());
    assert(port_views(also_none@) =~= Seq::<(Seq<char>, PortType)>::empty());
    Ok((none, also_none))
}

/// Templates by name; a later template takes the place of an earlier one
/// with the same name.
pub open spec fn table(s: Seq<NodeTemplate>) -> Map<Seq<char>, NodeTemplate>
    decreases s.len(),
{
    if s.len() == 0 {
        Map::empty()
    } else {
        table(s.drop_last()).insert(s.last().name@, s.last())
    }
}

/// No two templates share a name.
pub open spec fn distinct_names(s: Seq<NodeTemplate>) -> bool {
    forall|i: int, j: int| 0 <= i < j < s.len() ==> s[i].name@ != s[j].name@
}

/// The names in the table are those of the templates, and with distinct
/// names each template is found under its own.
pub proof fn lemma_table(s: Seq<NodeTemplate>)
    ensures
        forall|k: Seq<char>|
            table(s).contains_key(k) <==> exists|i: int| 0 <= i < s.len() && #[trigger] s[i].name@ == k,
        distinct_names(s) ==> forall|i: int| 0 <= i < s.len() ==> #[trigger] table(s)[s[i].name@] == s[i],
    decreases s.len(),
{
    if s.len() > 0 {
        let p = s.drop_last();
        lemma_table(p);
        assert forall|k: Seq<char>|
            table(s).contains_key(k) <==> exists|i: int| 0 <= i < s.len() && #[trigger] s[i].name@ == k by {
            assert(table(s) == table(p).insert(s.last().name@, s.last()));
            if table(s).contains_key(k) {
                if k == s.last().name@ {
                    assert(s[s.len() - 1].name@ == k);
                } else {
                    assert(table(p).contains_key(k));
                    let i = choose|i: int| 0 <= i < p.len() && #[trigger] p[i].name@ == k;
                    assert(s[i] == p[i]);
                }
            }
            if exists|i: int| 0 <= i < s.len() && #[trigger] s[i].name@ == k {
                let i = choose|i: int| 0 <= i < s.len() && #[trigger] s[i].name@ == k;
                if i < s.len() - 1 {
                    assert(p[i] == s[i]);
                }
            }
        }
        if distinct_names(s) {
            assert(distinct_names(p)) by {
                assert forall|i: int, j: int| 0 <= i < j < p.len() implies p[i].name@ != p[j].name@ by {
                    assert(p[i] == s[i] && p[j] == s[j]);
                }
            }
            assert forall|i: int| 0 <= i < s.len() implies #[trigger] table(s)[s[i].name@] == s[i] by {
                assert(table(s) == table(p).insert(s.last().name@, s.last()));
                if i < s.len() - 1 {
                    assert(p[i] == s[i]);
                    assert(s[i].name@ != s[s.len() - 1].name@);
                    assert(table(p)[p[i].name@] == p[i]);
                }
            }
        }
    }
}

proof fn lemma_table_update(s: Seq<NodeTemplate>, i: int, t: NodeTemplate)
    requires
        distinct_names(s),
        0 <= i < s.len(),
        s[i].name@ == t.name@,
    ensures
        distinct_names(s.update(i, t)),
        table(s.update(i, t)) == table(s).insert(t.name@, t),
{
    let u = s.update(i, t);
    assert forall|a: int| 0 <= a < u.len() implies #[trigger] u[a].name@ == s[a].name@ by {}
    assert(distinct_names(u)) by {
        assert forall|a: int, b: int| 0 <= a < b < u.len() implies u[a].name@ != u[b].name@ by {
            assert(u[a].name@ == s[a].name@ && u[b].name@ == s[b].name@);
        }
    }
    lemma_table(s);
    lemma_table(u);
    let m = table(s).insert(t.name@, t);
    assert forall|k: Seq<char>| #[trigger] table(u).contains_key(k) == m.contains_key(k) by {
        if table(u).contains_key(k) {
            let j = choose|j: int| 0 <= j < u.len() && #[trigger] u[j].name@ == k;
            assert(s[j].name@ == k);
        }
        if table(s).contains_key(k) {
            let j = choose|j: int| 0 <= j < s.len() && #[trigger] s[j].name@ == k;
            assert(u[j].name@ == k);
        }
        if k == t.name@ {
            assert(u[i].name@ == k);
        }
    }
    assert forall|k: Seq<char>| #[trigger] table(u).contains_key(k) implies table(u)[k] == m[k] by {
        let j = choose|j: int| 0 <= j < u.len() && #[trigger] u[j].name@ == k;
        assert(table(u)[u[j].name@] == u[j]);
        if j == i {
        } else {
            assert(s[j].name@ == k);
            assert(table(s)[s[j].name@] == s[j]);
        }
    }
    assert(table(u) =~= m);
}

proof fn lemma_table_push(s: Seq<NodeTemplate>, t: NodeTemplate)
    requires
        distinct_names(s),
        forall|j: int| 0 <= j < s.len() ==> #[trigger] s[j].name@ != t.name@,
    ensures
        distinct_names(s.push(t)),
        table(s.push(t)) == table(s).insert(t.name@, t),
{
    assert(s.push(t).drop_last() =~= s);
}

/// `a` is listed before `b`: `Built-in` first, the others by name.
pub open spec fn category_before(a: Seq<char>, b: Seq<char>) -> bool {
    if (a == "Built-in"@) != (b == "Built-in"@) {
        a == "Built-in"@
    } else {
        key_less(a, b)
    }
}

proof fn lemma_category_order(a: Seq<char>, b: Seq<char>, c: Seq<char>)
    ensures
        !category_before(a, a),
        category_before(a, b) ==> !category_before(b, a),
        a == b || category_before(a, b) || category_before(b, a),
        category_before(a, b) && category_before(b, c) ==> category_before(a, c),
{
    lemma_key_less_irreflexive(a);
    lemma_key_less_asymmetric(a, b);
    lemma_key_less_total(a, b);
    if key_less(a, b) && key_less(b, c) {
        lemma_key_less_transitive(a, b, c);
    }
}

/// The texts of strings.
pub open spec fn texts(v: Seq<String>) -> Seq<Seq<char>> {
    Seq::new(v.len(), |i: int| v[i]@)
}

/// Categories in listing order, none twice.
pub open spec fn categories_sorted(v: Seq<Seq<char>>) -> bool {
    forall|i: int, j: int| 0 <= i < j < v.len() ==> category_before(#[trigger] v[i], #[trigger] v[j])
}

/// Templates in order of their names, none twice.
pub open spec fn names_sorted(g: Seq<&NodeTemplate>) -> bool {
    forall|i: int, j: int| 0 <= i < j < g.len() ==> key_less(#[trigger] g[i].name@, #[trigger] g[j].name@)
}

/// `t` is the template of its name in `m`.
pub open spec fn in_table(m: Map<Seq<char>, NodeTemplate>, t: NodeTemplate) -> bool {
    m.contains_key(t.name@) && m[t.name@] == t
}

/// A group of the listing: at least one template of `m`, all of category
/// `cat`, in order of their names.
pub open spec fn group_ok(m: Map<Seq<char>, NodeTemplate>, cat: Seq<char>, g: Seq<&NodeTemplate>) -> bool {
    &&& g.len() > 0
    &&& names_sorted(g)
    &&& forall|j: int| 0 <= j < g.len() ==> in_table(m, *#[trigger] g[j]) && g[j].category@ == cat
}

/// `t` is in one of the groups.
pub open spec fn listed(r: Seq<(String, Vec<&NodeTemplate>)>, t: NodeTemplate) -> bool {
    exists|i: int, j: int| 0 <= i < r.len() && 0 <= j < r[i].1@.len() && *#[trigger] r[i].1@[j] == t
}

/// The category names of a listing.
pub open spec fn group_names(r: Seq<(String, Vec<&NodeTemplate>)>) -> Seq<Seq<char>> {
    Seq::new(r.len(), |i: int| r[i].0@)
}

fn category_less(a: &str, b: &str) -> (r: bool)
    ensures
        r == category_before(a@, b@),
{
    let ab = crate::text::text_eq(a, "Built-in");
    let bb = crate::text::text_eq(b, "Built-in");
    if ab != bb {
        ab
    } else {
        crate::text::text_less(a, b)
    }
}

/// Adds `c` to sorted categories unless it is there.
fn insert_category(cats: &mut Vec<String>, c: &String)
    requires
        categories_sorted(texts(old(cats)@)),
    ensures
        categories_sorted(texts(final(cats)@)),
        forall|x: Seq<char>| #[trigger] texts(final(cats)@).contains(x) <==> texts(old(cats)@).contains(x) || x == c@,
{
    let ghost v = texts(cats@);
    let mut i: usize = 0;
    while i < cats.len() && category_less(cats[i].as_str(), c.as_str())
        invariant
            i <= cats@.len(),
            cats@ == old(cats)@,
            v == texts(cats@),
            forall|j: int| 0 <= j < i ==> category_before(#[trigger] v[j], c@),
        decreases cats@.len() - i,
    {
        i = i + 1;
    }
    if i < cats.len() && crate::text::text_eq(cats[i].as_str(), c.as_str()) {
        assert(v[i as int] == c@);
        return;
    }
    proof {
        if i < v.len() {
            lemma_category_order(v[i as int], c@, c@);
        }
    }
    let cc = c.clone();
    cats.insert(i, cc);
    let ghost w = texts(cats@);
    assert(w =~= v.insert(i as int, c@));
    assert forall|a: int, b: int| 0 <= a < b < w.len() implies category_before(#[trigger] w[a], #[trigger] w[b]) by {
        if b == i {
            assert(w[a] == v[a]);
        } else if a == i {
            assert(w[b] == v[b - 1]);
            if b - 1 > i {
                lemma_category_order(c@, v[i as int], v[b - 1]);
            }
        } else if b < i {
            assert(w[a] == v[a] && w[b] == v[b]);
        } else if a < i {
            assert(w[a] == v[a] && w[b] == v[b - 1]);
            lemma_category_order(v[a], c@, v[i as int]);
            if b - 1 > i {
                lemma_category_order(v[a], v[i as int], v[b - 1]);
            }
        } else {
            assert(w[a] == v[a - 1] && w[b] == v[b - 1]);
        }
    }
    assert forall|x: Seq<char>| #[trigger] w.contains(x) <==> v.contains(x) || x == c@ by {
        if w.contains(x) {
            let a = choose|a: int| 0 <= a < w.len() && w[a] == x;
            if a < i {
                assert(v[a] == x);
            } else if a > i {
                assert(v[a - 1] == x);
            }
        }
        if v.contains(x) {
            let a = choose|a: int| 0 <= a < v.len() && v[a] == x;
            if a < i {
                assert(w[a] == x);
            } else {
                assert(w[a + 1] == x);
            }
        }
        if x == c@ {
            assert(w[i as int] == x);
        }
    }
}

/// Adds `t` to templates sorted by name, where its name is not yet; gives
/// the place it took.
fn insert_by_name<'a>(group: &mut Vec<&'a NodeTemplate>, t: &'a NodeTemplate) -> (p: usize)
    requires
        names_sorted(old(group)@),
        forall|j: int| 0 <= j < old(group)@.len() ==> #[trigger] old(group)@[j].name@ != t.name@,
    ensures
        p <= old(group)@.len(),
        final(group)@ == old(group)@.insert(p as int, t),
        names_sorted(final(group)@),
{
    let ghost v = group@;
    let mut i: usize = 0;
    while i < group.len() && crate::text::text_less(group[i].name.as_str(), t.name.as_str())
        invariant
            i <= group@.len(),
            group@ == old(group)@,
            v == group@,
            forall|j: int| 0 <= j < i ==> key_less(#[trigger] v[j].name@, t.name@),
        decreases group@.len() - i,
    {
        i = i + 1;
    }
    proof {
        if i < v.len() {
            lemma_key_less_total(v[i as int].name@, t.name@);
        }
    }
    group.insert(i, t);
    let ghost w = group@;
    assert forall|a: int, b: int| 0 <= a < b < w.len() implies key_less(#[trigger] w[a].name@, #[trigger] w[b].name@) by {
        if b == i {
            assert(w[a] == v[a]);
        } else if a == i {
            assert(w[b] == v[b - 1]);
            if b - 1 > i {
                lemma_key_less_transitive(t.name@, v[i as int].name@, v[b - 1].name@);
            }
        } else if b < i {
            assert(w[a] == v[a] && w[b] == v[b]);
        } else if a < i {
            assert(w[a] == v[a] && w[b] == v[b - 1]);
            lemma_key_less_transitive(v[a].name@, t.name@, v[i as int].name@);
            if b - 1 > i {
                lemma_key_less_transitive(v[a].name@, v[i as int].name@, v[b - 1].name@);
            }
        } else {
            assert(w[a] == v[a - 1] && w[b] == v[b - 1]);
        }
    }
    i
}

/// `g` holds `t`.
pub open spec fn has_template(g: Seq<&NodeTemplate>, t: NodeTemplate) -> bool {
    exists|j: int| 0 <= j < g.len() && *#[trigger] g[j] == t
}

/// One of the first `k` templates of `s` is `t`.
pub open spec fn among(s: Seq<NodeTemplate>, k: int, t: NodeTemplate) -> bool {
    exists|k2: int| 0 <= k2 < k && #[trigger] s[k2] == t
}

/// `g` holds every template of `s` in category `cat`.
pub open spec fn group_complete(s: Seq<NodeTemplate>, cat: Seq<char>, g: Seq<&NodeTemplate>) -> bool {
    forall|k2: int| 0 <= k2 < s.len() && (#[trigger] s[k2]).category@ == cat ==> has_template(g, s[k2])
}

proof fn lemma_group_in_table(s: Seq<NodeTemplate>, cat: Seq<char>, g: Seq<&NodeTemplate>)
    requires
        distinct_names(s),
        forall|j: int| 0 <= j < g.len() ==> (#[trigger] g[j]).category@ == cat && among(s, s.len() as int, *g[j]),
    ensures
        forall|j: int| 0 <= j < g.len() ==> in_table(table(s), *#[trigger] g[j]) && g[j].category@ == cat,
{
    lemma_table(s);
    assert forall|j: int| 0 <= j < g.len() implies in_table(table(s), *#[trigger] g[j]) && g[j].category@ == cat by {
        assert(among(s, s.len() as int, *g[j]));
        let k2 = choose|k2: int| 0 <= k2 < s.len() && #[trigger] s[k2] == *g[j];
        assert(table(s)[s[k2].name@] == s[k2]);
    }
}

/// The templates of category `c`, in order of their names.
fn collect_group<'a>(templates: &'a Vec<NodeTemplate>, c: &String) -> (g: Vec<&'a NodeTemplate>)
    requires
        distinct_names(templates@),
    ensures
        names_sorted(g@),
        forall|j: int| 0 <= j < g@.len() ==> (#[trigger] g@[j]).category@ == c@ && among(templates@, templates@.len() as int, *g@[j]),
        group_complete(templates@, c@, g@),
{
    let ghost s = templates@;
    let mut g: Vec<&NodeTemplate> = Vec::new();
    let mut k: usize = 0;
    while k < templates.len()
        invariant
            k <= s.len(),
            s == templates@,
            distinct_names(s),
            names_sorted(g@),
            forall|j: int| 0 <= j < g@.len() ==> (#[trigger] g@[j]).category@ == c@ && among(s, k as int, *g@[j]),
            forall|k2: int| 0 <= k2 < k && (#[trigger] s[k2]).category@ == c@ ==> has_template(g@, s[k2]),
        decreases s.len() - k,
    {
        if crate::text::text_eq(templates[k].category.as_str(), c.as_str()) {
            let ghost old_g = g@;
            assert forall|j: int| 0 <= j < old_g.len() implies #[trigger] old_g[j].name@ != s[k as int].name@ by {
                assert(among(s, k as int, *old_g[j]));
                let k2 = choose|k2: int| 0 <= k2 < k && #[trigger] s[k2] == *old_g[j];
                assert(s[k2].name@ != s[k as int].name@);
            }
            let pos = insert_by_name(&mut g, &templates[k]);
            assert forall|j: int| 0 <= j < g@.len() implies (#[trigger] g@[j]).category@ == c@ && among(s, k + 1, *g@[j]) by {
                if j < pos {
                    assert(g@[j] == old_g[j]);
                    assert(among(s, k as int, *old_g[j]));
                    let k2 = choose|k2: int| 0 <= k2 < k && #[trigger] s[k2] == *old_g[j];
                    assert(s[k2] == *g@[j]);
                } else if j == pos {
                    assert(g@[j] == s[k as int]);
                    assert(s[k as int] == *g@[j]);
                } else {
                    assert(g@[j] == old_g[j - 1]);
                    assert(among(s, k as int, *old_g[j - 1]));
                    let k2 = choose|k2: int| 0 <= k2 < k && #[trigger] s[k2] == *old_g[j - 1];
                    assert(s[k2] == *g@[j]);
                }
            }
            assert forall|k2: int| 0 <= k2 < k + 1 && (#[trigger] s[k2]).category@ == c@ implies has_template(g@, s[k2]) by {
                if k2 == k {
                    assert(*g@[pos as int] == s[k2]);
                } else {
                    assert(has_template(old_g, s[k2]));
                    let j = choose|j: int| 0 <= j < old_g.len() && *#[trigger] old_g[j] == s[k2];
                    if j < pos {
                        assert(*g@[j] == s[k2]);
                    } else {
                        assert(*g@[j + 1] == s[k2]);
                    }
                }
            }
        }
        k = k + 1;
    }
    g
}

/// The nodes that can be placed on a canvas: the built-in ones and those
/// read from WIT files under a directory.
pub struct NodeRegistry {
    pub templates: Vec<NodeTemplate>,
    pub nodes_dir: PathBuf,
}

impl View for NodeRegistry {
    type V = Map<Seq<char>, NodeTemplate>;

    open spec fn view(&self) -> Map<Seq<char>, NodeTemplate> {
        table(self.templates@)
    }
}

/// A built-in template: no file, no module, in the category `Built-in`.
pub open spec fn is_builtin(
    t: NodeTemplate,
    name: Seq<char>,
    kind: BuiltinKind,
    ins: Seq<(Seq<char>, PortType)>,
    outs: Seq<(Seq<char>, PortType)>,
) -> bool {
    &&& t.name@ == name
    &&& t.category@ == "Built-in"@
    &&& t.path is None
    &&& port_views(t.inputs@) == ins
    &&& port_views(t.outputs@) == outs
    &&& t.wasm_bytes is None
    &&& t.builtin == Some(kind)
}

/// A template read from a WIT file.
pub open spec fn is_wit_template(
    t: NodeTemplate,
    name: Seq<char>,
    category: Seq<char>,
    path: PathBuf,
    ins: Seq<(Seq<char>, PortType)>,
    outs: Seq<(Seq<char>, PortType)>,
    wasm: Option<Vec<u8>>,
) -> bool {
    &&& t.name@ == name
    &&& t.category@ == category
    &&& t.path == Some(path)
    &&& port_views(t.inputs@) == ins
    &&& port_views(t.outputs@) == outs
    &&& t.wasm_bytes == wasm
    &&& t.builtin is None
}

/// The category of the nodes in directory `dir` within `category`.
pub open spec fn sub_category_of(category: Seq<char>, dir: Seq<char>) -> Seq<char> {
    if category.len() == 0 {
        dir
    } else {
        category.push('/') + dir
    }
}

/// The category of the nodes in directory `dir_name` within `category`:
/// the directory's name at the top, else `category/dir_name`.
pub fn sub_category(category: &str, dir_name: &str) -> (r: String)
    ensures
        r@ == sub_category_of(category@, dir_name@),
{
    let mut out = string_from(category);
    if chars_of(category).len() > 0 {
        crate::text::push_char(&mut out, '/');
    }
    push_str(&mut out, dir_name);
    out
}

impl NodeRegistry {
    /// No two templates share a name.
    pub open spec fn wf(&self) -> bool {
        distinct_names(self.templates@)
    }

    /// An empty registry for the nodes under `nodes_dir`.
    pub fn new(nodes_dir: PathBuf) -> (r: NodeRegistry)
        ensures
            r.wf(),
            r@ == Map::<Seq<char>, NodeTemplate>::empty(),
            r.nodes_dir == nodes_dir,
    {
        NodeRegistry { templates: Vec::new(), nodes_dir }
    }

    /// The template with the given name.
    pub fn get(&self, name: &str) -> (r: Option<&NodeTemplate>)
        requires
            self.wf(),
        ensures
            match r {
                Some(t) => self@.contains_key(name@) && self@[name@] == *t,
                None => !self@.contains_key(name@),
            },
    {
        proof {
            lemma_table(self.templates@);
        }
        let mut i: usize = 0;
        while i < self.templates.len()
            invariant
                i <= self.templates@.len(),
                self.wf(),
                forall|j: int| 0 <= j < i ==> #[trigger] self.templates@[j].name@ != name@,
            decreases self.templates@.len() - i,
        {
            if crate::text::text_eq(self.templates[i].name.as_str(), name) {
                proof {
                    lemma_table(self.templates@);
                    assert(table(self.templates@)[self.templates@[i as int].name@] == self.templates@[i as int]);
                }
                return Some(&self.templates[i]);
            }
            i = i + 1;
        }
        proof {
            lemma_table(self.templates@);
        }
        None
    }

    /// Adds a template, in place of any with the same name.
    pub fn insert(&mut self, t: NodeTemplate)
        requires
            old(self).wf(),
        ensures
            final(self).wf(),
            final(self)@ == old(self)@.insert(t.name@, t),
            final(self).nodes_dir == old(self).nodes_dir,
    {
        let mut i: usize = 0;
        while i < self.templates.len()
            invariant
                i <= self.templates@.len(),
                self.templates@ == old(self).templates@,
                self.nodes_dir == old(self).nodes_dir,
                distinct_names(self.templates@),
                forall|j: int| 0 <= j < i ==> #[trigger] self.templates@[j].name@ != t.name@,
            decreases self.templates@.len() - i,
        {
            if crate::text::text_eq(self.templates[i].name.as_str(), t.name.as_str()) {
                proof {
                    lemma_table_update(self.templates@, i as int, t);
                }
                self.templates.set(i, t);
                return;
            }
            i = i + 1;
        }
        proof {
            lemma_table_push(self.templates@, t);
        }
        self.templates.push(t);
    }

    /// Adds the built-in nodes: `Const` with output `out`, `Output` with
    /// input `in`, both of type `f64`, and `Script`.
    pub fn register_builtins(&mut self)
        requires
            old(self).wf(),
        ensures
            final(self).wf(),
            final(self).nodes_dir == old(self).nodes_dir,
            final(self)@.dom() == old(self)@.dom().insert("Const"@).insert("Output"@).insert("Script"@),
            forall|k: Seq<char>|
                old(self)@.contains_key(k) && k != "Const"@ && k != "Output"@ && k != "Script"@
                    ==> final(self)@[k] == old(self)@[k],
            is_builtin(final(self)@["Const"@], "Const"@, BuiltinKind::Const, seq![], seq![("out"@, PortType::F64)]),
            is_builtin(final(self)@["Output"@], "Output"@, BuiltinKind::Output, seq![("in"@, PortType::F64)], seq![]),
            is_builtin(final(self)@["Script"@], "Script"@, BuiltinKind::Script, seq![], seq![]),
    {
        proof {
            reveal_strlit("Const");
            reveal_strlit("Output");
            reveal_strlit("Script");
            assert("Const"@.len() != "Output"@.len());
            assert("Const"@.len() != "Script"@.len());
            assert("Output"@[0] != "Script"@[0]);
        }
        let c = NodeTemplate {
            name: string_from("Const"),
            category: string_from("Built-in"),
            path: None,
            inputs: Vec::new(),
            outputs: vec![PortDef { name: string_from("out"), port_type: PortType::F64 }],
            wasm_bytes: None,
            builtin: Some(BuiltinKind::Const),
        };
        assert(port_views(c.inputs@) =~= seq![]);
        assert(port_views(c.outputs@) =~= seq![("out"@, PortType::F64)]);
        let ghost cv = c;
        self.insert(c);
        let o = NodeTemplate {
            name: string_from("Output"),
            category: string_from("Built-in"),
            path: None,
            inputs: vec![PortDef { name: string_from("in"), port_type: PortType::F64 }],
            outputs: Vec::new(),
            wasm_bytes: None,
            builtin: Some(BuiltinKind::Output),
        };
        assert(port_views(o.inputs@) =~= seq![("in"@, PortType::F64)]);
        assert(port_views(o.outputs@) =~= seq![]);
        let ghost ov = o;
        self.insert(o);
        let sc = NodeTemplate {
            name: string_from("Script"),
            category: string_from("Built-in"),
            path: None,
            inputs: Vec::new(),
            outputs: Vec::new(),
            wasm_bytes: None,
            builtin: Some(BuiltinKind::Script),
        };
        assert(port_views(sc.inputs@) =~= seq![]);
        assert(port_views(sc.outputs@) =~= seq![]);
        self.insert(sc);
        assert(self@["Const"@] == cv);
        assert(self@["Output"@] == ov);
        assert(final(self)@.dom() =~= old(self)@.dom().insert("Const"@).insert("Output"@).insert("Script"@));
    }

    /// Adds the node that a WIT file describes, named `stem`, with the ports
    /// of its first exported function; or, where a port has a type no port
    /// can carry, leaves the registry as it was and gives the message.
    pub fn add_wit_node(
        &mut self,
        stem: String,
        category: String,
        path: PathBuf,
        wit_text: &str,
        wasm_bytes: Option<Vec<u8>>,
    ) -> (r: Result<(), String>)
        requires
            old(self).wf(),
            !wit_unreadable(split_at(wit_text@, '\n')),
        ensures
            final(self).wf(),
            final(self).nodes_dir == old(self).nodes_dir,
            match wit_scan(split_at(wit_text@, '\n')) {
                Err(e) => r matches Err(m) && m@ == e && final(self)@ == old(self)@,
                Ok((ins, outs)) => {
                    &&& r is Ok
                    &&& final(self)@.dom() == old(self)@.dom().insert(stem@)
                    &&& forall|k: Seq<char>|
                        old(self)@.contains_key(k) && k != stem@ ==> final(self)@[k] == old(self)@[k]
                    &&& is_wit_template(final(self)@[stem@], stem@, category@, path, ins, outs, wasm_bytes)
                },
            },
    {
        match parse_wit_ports(wit_text) {
            Err(e) => Err(e),
            Ok((inputs, outputs)) => {
                let t = NodeTemplate {
                    name: stem,
                    category,
                    path: Some(path),
                    inputs,
                    outputs,
                    wasm_bytes,
                    builtin: None,
                };
                self.insert(t);
                assert(final(self)@.dom() =~= old(self)@.dom().insert(stem@));
                Ok(())
            },
        }
    }

    /// The templates grouped by category: `Built-in` first, the other
    /// categories by name, and in each group the templates by name.
    pub fn grouped_templates(&self) -> (r: Vec<(String, Vec<&NodeTemplate>)>)
        requires
            self.wf(),
        ensures
            categories_sorted(group_names(r@)),
            forall|i: int| 0 <= i < r@.len() ==> group_ok(self@, #[trigger] r@[i].0@, r@[i].1@),
            forall|k: Seq<char>| #[trigger] self@.contains_key(k) ==> listed(r@, self@[k]),
    {
        let ghost s = self.templates@;
        let mut cats: Vec<String> = Vec::new();
        let mut k: usize = 0;
        assert(texts(cats@) =~= Seq::<Seq<char>>::empty());
        while k < self.templates.len()
            invariant
                k <= s.len(),
                s == self.templates@,
                categories_sorted(texts(cats@)),
                forall|x: Seq<char>|
                    #[trigger] texts(cats@).contains(x) <==> exists|k2: int| 0 <= k2 < k && #[trigger] s[k2].category@ == x,
            decreases s.len() - k,
        {
            insert_category(&mut cats, &self.templates[k].category);
            assert forall|x: Seq<char>|
                #[trigger] texts(cats@).contains(x) <==> exists|k2: int| 0 <= k2 < k + 1 && #[trigger] s[k2].category@ == x by {
                if x == s[k as int].category@ {
                    assert(0 <= k < k + 1 && s[k as int].category@ == x);
                }
                if exists|k2: int| 0 <= k2 < k + 1 && #[trigger] s[k2].category@ == x {
                    let k2 = choose|k2: int| 0 <= k2 < k + 1 && #[trigger] s[k2].category@ == x;
                    if k2 < k {
                        assert(0 <= k2 < k && s[k2].category@ == x);
                    }
                }
            }
            k = k + 1;
        }
        let mut r: Vec<(String, Vec<&NodeTemplate>)> = Vec::new();
        let mut ci: usize = 0;
        while ci < cats.len()
            invariant
                ci <= cats@.len(),
                r@.len() == ci,
                s == self.templates@,
                self.wf(),
                categories_sorted(texts(cats@)),
                forall|x: Seq<char>|
                    #[trigger] texts(cats@).contains(x) <==> exists|k2: int| 0 <= k2 < s.len() && #[trigger] s[k2].category@ == x,
                forall|i: int| 0 <= i < ci ==> #[trigger] r@[i].0@ == cats@[i]@,
                forall|i: int| 0 <= i < ci ==> group_ok(self@, #[trigger] r@[i].0@, r@[i].1@),
                forall|i: int| 0 <= i < ci ==> group_complete(s, #[trigger] r@[i].0@, r@[i].1@),
            decreases cats@.len() - ci,
        {
            let c = &cats[ci];
            let g = collect_group(&self.templates, c);
            proof {
                assert(texts(cats@)[ci as int] == c@);
                assert(texts(cats@).contains(c@));
                let k0 = choose|k2: int| 0 <= k2 < s.len() && #[trigger] s[k2].category@ == c@;
                assert(has_template(g@, s[k0]));
                lemma_group_in_table(s, c@, g@);
            }
            let name = c.clone();
            let ghost old_r = r@;
            r.push((name, g));
            assert forall|i: int| 0 <= i < ci + 1 implies #[trigger] r@[i].0@ == cats@[i]@ by {
                if i < ci {
                    assert(r@[i] == old_r[i]);
                }
            }
            assert forall|i: int| 0 <= i < ci + 1 implies group_ok(self@, #[trigger] r@[i].0@, r@[i].1@) by {
                if i < ci {
                    assert(r@[i] == old_r[i]);
                }
            }
            assert forall|i: int| 0 <= i < ci + 1 implies group_complete(s, #[trigger] r@[i].0@, r@[i].1@) by {
                if i < ci {
                    assert(r@[i] == old_r[i]);
                }
            }
            ci = ci + 1;
        }
        proof {
            lemma_table(s);
            assert(group_names(r@) =~= texts(cats@));
            assert forall|key: Seq<char>| #[trigger] self@.contains_key(key) implies listed(r@, self@[key]) by {
                let k2 = choose|k2: int| 0 <= k2 < s.len() && #[trigger] s[k2].name@ == key;
                assert(table(s)[s[k2].name@] == s[k2]);
                let x = s[k2].category@;
                assert(exists|k3: int| 0 <= k3 < s.len() && #[trigger] s[k3].category@ == x);
                assert(texts(cats@).contains(x));
                let i = choose|i: int| 0 <= i < texts(cats@).len() && texts(cats@)[i] == x;
                assert(r@[i].0@ == cats@[i]@);
                assert(group_complete(s, r@[i].0@, r@[i].1@));
                assert(has_template(r@[i].1@, s[k2]));
                let j = choose|j: int| 0 <= j < r@[i].1@.len() && *#[trigger] r@[i].1@[j] == s[k2];
                assert(*r@[i].1@[j] == self@[key]);
            }
        }
        r
    }

    /// Gives the template named `stem` a new module; whether there is one.
    pub fn set_wasm(&mut self, stem: &str, bytes: Vec<u8>) -> (r: bool)
        requires
            old(self).wf(),
        ensures
            final(self).wf(),
            final(self).nodes_dir == old(self).nodes_dir,
            r == old(self)@.contains_key(stem@),
            final(self)@.dom() == old(self)@.dom(),
            forall|k: Seq<char>| old(self)@.contains_key(k) && k != stem@ ==> final(self)@[k] == old(self)@[k],
            r ==> final(self)@[stem@] == (NodeTemplate { wasm_bytes: Some(bytes), ..old(self)@[stem@] }),
    {
        proof {
            lemma_table(self.templates@);
        }
        let mut i: usize = 0;
        while i < self.templates.len()
            invariant
                i <= self.templates@.len(),
                self.templates@ == old(self).templates@,
                self.nodes_dir == old(self).nodes_dir,
                self.wf(),
                forall|j: int| 0 <= j < i ==> #[trigger] self.templates@[j].name@ != stem@,
            decreases self.templates@.len() - i,
        {
            if crate::text::text_eq(self.templates[i].name.as_str(), stem) {
                let ghost s = self.templates@;
                proof {
                    lemma_table(s);
                    assert(table(s)[s[i as int].name@] == s[i as int]);
                }
                self.templates[i].wasm_bytes = Some(bytes);
                proof {
                    assert(self.templates@ =~= s.update(i as int, self.templates@[i as int]));
                    lemma_table_update(s, i as int, self.templates@[i as int]);
                    assert(final(self)@.dom() =~= old(self)@.dom());
                }
                return true;
            }
            i = i + 1;
        }
        proof {
            lemma_table(self.templates@);
            assert(!final(self)@.contains_key(stem@));
        }
        false
    }
}

} // verus!
