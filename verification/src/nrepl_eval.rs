use crate::file_watcher::dashed;
use crate::nrepl::session::{opt_text, Completion, CompletionView, SymbolInfo, SymbolView};
use crate::text::{chars_of, find_char, first_index_of, has_prefix, is_first_index, push_char, push_str, slice_chars, starts, string_from, string_of, text_eq};
use vstd::prelude::*;

verus! {

/// A symbol a session can use: its name, its kind, and the module it comes from.
pub type Symbol = (String, String, Option<String>);

/// The completions of `prefix` among symbols: each symbol whose name starts
/// with it, in order, with its kind and module.
pub open spec fn completions_of(symbols: Seq<Symbol>, prefix: Seq<char>) -> Seq<CompletionView>
    decreases symbols.len(),
{
    if symbols.len() == 0 {
        Seq::empty()
    } else {
        let rest = completions_of(symbols.drop_last(), prefix);
        let s = symbols.last();
        if starts(s.0@, prefix) {
            rest.push(CompletionView { candidate: s.0@, ns: opt_text(s.2), kind: Some(s.1@) })
        } else {
            rest
        }
    }
}

/// The views of completions.
pub open spec fn completion_views(cs: Seq<Completion>) -> Seq<CompletionView> {
    Seq::new(cs.len(), |i: int| cs[i]@)
}

fn copy_opt(t: &Option<String>) -> (r: Option<String>)
    ensures
        opt_text(r) == opt_text(*t),
{
    match t {
        Some(s) => Some(s.clone()),
        None => None,
    }
}

/// The completions of `prefix` among the symbols of a session.
pub fn completions_matching(symbols: &Vec<Symbol>, prefix: &str) -> (r: Vec<Completion>)
    ensures
        completion_views(r@) == completions_of(symbols@, prefix@),
{
    let mut out: Vec<Completion> = Vec::new();
    let mut i: usize = 0;
    assert(symbols@.take(0) =~= Seq::<Symbol>::empty());
    assert(completion_views(out@) =~= Seq::<CompletionView>::empty());
    while i < symbols.len()
        invariant
            i <= symbols@.len(),
            completion_views(out@) == completions_of(symbols@.take(i as int), prefix@),
        decreases symbols@.len() - i,
    {
        let ghost before = completion_views(out@);
        assert(symbols@.take(i + 1).drop_last() =~= symbols@.take(i as int));
        assert(symbols@.take(i + 1).last() == symbols@[i as int]);
        let name_chars = chars_of(symbols[i].0.as_str());
        if has_prefix(name_chars.as_slice(), prefix) {
            let c = Completion {
                candidate: symbols[i].0.clone(),
                ns: copy_opt(&symbols[i].2),
                kind: Some(symbols[i].1.clone()),
            };
            out.push(c);
            assert(completion_views(out@) =~= before.push(out@.last()@));
        }
        i = i + 1;
    }
    assert(symbols@.take(i as int) =~= symbols@);
    out
}

/// The namespace of a script node: `canvas/label` with spaces in the label
/// as dashes.
pub open spec fn namespace_of(canvas: Seq<char>, label: Seq<char>) -> Seq<char> {
    canvas.push('/') + dashed(label)
}

/// The namespace of the script node `label` on `canvas`.
pub fn node_namespace(canvas: &str, label: &str) -> (r: String)
    ensures
        r@ == namespace_of(canvas@, label@),
{
    let mut out = string_from(canvas);
    push_char(&mut out, '/');
    let cs = chars_of(label);
    let mut i: usize = 0;
    let ghost start = out@;
    while i < cs.len()
        invariant
            i <= cs@.len(),
            cs@ == label@,
            out@ == start + dashed(cs@.take(i as int)),
        decreases cs@.len() - i,
    {
        let c = if cs[i] == ' ' { '-' } else { cs[i] };
        push_char(&mut out, c);
        i = i + 1;
        assert(dashed(cs@.take(i as int)) =~= dashed(cs@.take(i - 1)).push(c));
        assert(out@ =~= start + dashed(cs@.take(i as int)));
    }
    assert(cs@.take(i as int) =~= cs@);
    out
}

/// The canvas and label a namespace `canvas/label` names: the text before
/// and after its first `/`.
pub open spec fn namespace_parts(ns: Seq<char>) -> Option<(Seq<char>, Seq<char>)> {
    match first_index_of(ns, '/') {
        Some(k) => Some((ns.take(k), ns.skip(k + 1))),
        None => None,
    }
}

/// The canvas and label of a namespace, split at its first `/`.
pub fn split_namespace(ns: &str) -> (r: Option<(String, String)>)
    ensures
        match r {
            Some((c, l)) => namespace_parts(ns@) == Some((c@, l@)),
            None => namespace_parts(ns@) is None,
        },
{
    let cs = chars_of(ns);
    let n = cs.len();
    match find_char(cs.as_slice(), '/') {
        Some(k) => {
            assert(is_first_index(cs@, '/', k as int));
            assert(k < n);
            let head = slice_chars(cs.as_slice(), 0, k);
            let tail = slice_chars(cs.as_slice(), k + 1, n);
            assert(head@ =~= cs@.take(k as int));
            assert(tail@ =~= cs@.skip(k + 1));
            Some((string_of(head.as_slice()), string_of(tail.as_slice())))
        },
        None => None,
    }
}

/// The line of documentation `info` gives for a built-in of kind `kind`.
pub open spec fn builtin_doc(kind: Seq<char>) -> Seq<char> {
    "Built-in "@ + kind + " from canvas libraries"@
}

/// The first entry of a table of built-ins (name, kind) named `symbol`.
pub open spec fn first_builtin(table: Seq<(String, String)>, symbol: Seq<char>) -> Option<int> {
    if exists|i: int| 0 <= i < table.len() && #[trigger] table[i].0@ == symbol {
        Some(choose|i: int| 0 <= i < table.len() && #[trigger] table[i].0@ == symbol
            && forall|j: int| 0 <= j < i ==> table[j].0@ != symbol)
    } else {
        None
    }
}

/// What `info` answers for a built-in: its name, the `canvas` namespace, no
/// file, and a line naming its kind.
pub open spec fn builtin_view(name: Seq<char>, kind: Seq<char>) -> SymbolView {
    SymbolView { name, ns: Some("canvas"@), file: None, doc: Some(builtin_doc(kind)) }
}

/// Information on `symbol` when the table of built-ins names it: taken from
/// its first entry there.
pub fn builtin_info(table: &Vec<(String, String)>, symbol: &str) -> (r: Option<SymbolInfo>)
    ensures
        match first_builtin(table@, symbol@) {
            Some(i) => r is Some && r->0@ == builtin_view(symbol@, table@[i].1@),
            None => r is None,
        },
{
    let mut i: usize = 0;
    while i < table.len()
        invariant
            i <= table@.len(),
            forall|j: int| 0 <= j < i ==> table@[j].0@ != symbol@,
        decreases table@.len() - i,
    {
        if text_eq(table[i].0.as_str(), symbol) {
            proof {
                let k = choose|k: int| 0 <= k < table@.len() && #[trigger] table@[k].0@ == symbol@
                    && forall|j: int| 0 <= j < k ==> table@[j].0@ != symbol@;
                assert(0 <= i < table@.len() && table@[i as int].0@ == symbol@
                    && forall|j: int| 0 <= j < i ==> table@[j].0@ != symbol@);
                if k < i {
                    assert(table@[k].0@ != symbol@);
                } else if k > i {
                    assert(table@[i as int].0@ != symbol@);
                }
            }
            let mut doc = string_from("Built-in ");
            push_str(&mut doc, table[i].1.as_str());
            push_str(&mut doc, " from canvas libraries");
            return Some(SymbolInfo {
                name: string_from(symbol),
                ns: Some(string_from("canvas")),
                file: None,
                doc: Some(doc),
            });
        }
        i = i + 1;
    }
    None
}

} // verus!
