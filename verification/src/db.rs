use crate::text::{alphanumeric, chars_of, is_alphanumeric, push_char, string_from};
use vstd::prelude::*;

verus! {

/// An entry of the database of definition names.
#[derive(Debug, Clone)]
pub struct NameEntry {
    pub hash: String,
    pub name: String,
    pub canvas: String,
    pub node_label: String,
    pub form: String,
}

impl NameEntry {
    /// The entry of a stored record's fields; none where a field is missing.
    pub fn from_fields(
        hash: Option<&str>,
        name: Option<&str>,
        canvas: Option<&str>,
        node_label: Option<&str>,
        form: Option<&str>,
    ) -> (r: Option<NameEntry>)
        ensures
            r is Some <==> (hash is Some && name is Some && canvas is Some && node_label is Some
                && form is Some),
            r matches Some(e) ==> (e.hash@ == hash->0@ && e.name@ == name->0@ && e.canvas@ == canvas->0@
                && e.node_label@ == node_label->0@ && e.form@ == form->0@),
    {
        match (hash, name, canvas, node_label, form) {
            (Some(h), Some(n), Some(c), Some(l), Some(f)) => Some(
                NameEntry {
                    hash: string_from(h),
                    name: string_from(n),
                    canvas: string_from(c),
                    node_label: string_from(l),
                    form: string_from(f),
                },
            ),
            _ => None,
        }
    }
}

/// A character of a safe table name: alphanumeric, `_` or `-`.
pub open spec fn table_name_char(c: char) -> bool {
    alphanumeric(c) || c == '_' || c == '-'
}

/// Whether a table name is safe to put in a query: not empty, and only
/// alphanumeric characters, `_` and `-`.
pub fn is_safe_table_name(name: &str) -> (r: bool)
    ensures
        r == (name@.len() > 0 && forall|i: int| 0 <= i < name@.len() ==> table_name_char(#[trigger] name@[i])),
{
    let cs = chars_of(name);
    if cs.len() == 0 {
        return false;
    }
    let mut i: usize = 0;
    while i < cs.len()
        invariant
            i <= cs@.len(),
            cs@ == name@,
            forall|j: int| 0 <= j < i ==> table_name_char(#[trigger] cs@[j]),
        decreases cs@.len() - i,
    {
        let c = cs[i];
        if !(is_alphanumeric(c) || c == '_' || c == '-') {
            return false;
        }
        i = i + 1;
    }
    true
}

/// The text of one character inside single quotes: `\` and `'` get a
/// backslash before them.
pub open spec fn quoted_char(c: char) -> Seq<char> {
    if c == '\\' || c == '\'' {
        seq!['\\', c]
    } else {
        seq![c]
    }
}

/// A text made safe to stand inside single quotes of a query.
pub open spec fn escaped(s: Seq<char>) -> Seq<char>
    decreases s.len(),
{
    if s.len() == 0 {
        Seq::empty()
    } else {
        escaped(s.drop_last()) + quoted_char(s.last())
    }
}

/// Escape a text for use inside single quotes of a query.
pub fn escape_surql(s: &str) -> (r: String)
    ensures
        r@ == escaped(s@),
{
    let cs = chars_of(s);
    let mut out = String::new();
    let mut i: usize = 0;
    assert(cs@.take(0) =~= Seq::<char>::empty());
    while i < cs.len()
        invariant
            i <= cs@.len(),
            cs@ == s@,
            out@ == escaped(cs@.take(i as int)),
        decreases cs@.len() - i,
    {
        let c = cs[i];
        if c == '\\' || c == '\'' {
            push_char(&mut out, '\\');
        }
        push_char(&mut out, c);
        assert(cs@.take(i + 1).drop_last() =~= cs@.take(i as int));
        assert(out@ =~= escaped(cs@.take(i + 1)));
        i = i + 1;
    }
    assert(cs@.take(i as int) =~= cs@);
    out
}

} // verus!
