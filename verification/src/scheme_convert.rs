use crate::text::{
    char_texts, chars_of, has_prefix, is_white_space, split_at, split_chars, starts, string_of, trim,
    trim_chars, white_space,
};
use vstd::prelude::*;

verus! {

/// A port declared in Scheme code by `(input name type)` or `(output name type)`.
#[derive(Debug, Clone)]
pub struct PortDecl {
    pub name: String,
    pub port_type: String,
}

/// The white-space separated words of `s` from here on, `cur` being the word
/// in progress (as `str::split_whitespace` gives them).
pub open spec fn words_from(s: Seq<char>, cur: Seq<char>) -> Seq<Seq<char>>
    decreases s.len(),
{
    if s.len() == 0 {
        if cur.len() > 0 {
            seq![cur]
        } else {
            Seq::empty()
        }
    } else if white_space(s[0]) {
        (if cur.len() > 0 {
            seq![cur]
        } else {
            Seq::empty()
        }) + words_from(s.skip(1), Seq::empty())
    } else {
        words_from(s.skip(1), cur.push(s[0]))
    }
}

/// The white-space separated words of `s`.
pub open spec fn words(s: Seq<char>) -> Seq<Seq<char>> {
    words_from(s, Seq::empty())
}

/// A declaration `(kind name type ...)`: its name and type.
pub open spec fn single_decl(s: Seq<char>) -> Option<(Seq<char>, Seq<char>)> {
    let t = trim(s);
    if t.len() >= 2 && t[0] == '(' && t.last() == ')' {
        let w = words(t.subrange(1, t.len() - 1));
        if w.len() >= 3 {
            Some((w[1], w[2]))
        } else {
            None
        }
    } else {
        None
    }
}

/// The declarations among lines starting with `prefix`, in order.
pub open spec fn decls_with(lines: Seq<Seq<char>>, prefix: Seq<char>) -> Seq<(Seq<char>, Seq<char>)>
    decreases lines.len(),
{
    if lines.len() == 0 {
        Seq::empty()
    } else {
        let rest = decls_with(lines.drop_last(), prefix);
        let t = trim(lines.last());
        if starts(t, prefix) {
            match single_decl(t) {
                Some(d) => rest.push(d),
                None => rest,
            }
        } else {
            rest
        }
    }
}

/// Names and types of declarations.
pub open spec fn decl_texts(ds: Seq<PortDecl>) -> Seq<(Seq<char>, Seq<char>)> {
    Seq::new(ds.len(), |i: int| (ds[i].name@, ds[i].port_type@))
}

fn words_of(s: &[char]) -> (r: Vec<Vec<char>>)
    ensures
        char_texts(r@) == words(s@),
{
    let mut out: Vec<Vec<char>> = Vec::new();
    let mut cur: Vec<char> = Vec::new();
    let mut i: usize = 0;
    assert(s@.skip(0) =~= s@);
    assert(char_texts(out@) + words_from(s@.skip(0), cur@) =~= words(s@));
    while i < s.len()
        invariant
            i <= s@.len(),
            char_texts(out@) + words_from(s@.skip(i as int), cur@) == words(s@),
        decreases s@.len() - i,
    {
        let ghost rest = s@.skip(i as int);
        let ghost before = char_texts(out@);
        let ghost c0 = cur@;
        assert(rest.skip(1) =~= s@.skip(i + 1));
        assert(rest[0] == s@[i as int]);
        if is_white_space(s[i]) {
            if cur.len() > 0 {
                let w = cur;
                out.push(w);
                cur = Vec::new();
                assert(char_texts(out@) =~= before.push(c0));
                assert(char_texts(out@) + words_from(s@.skip(i + 1), cur@) =~= before + (seq![c0]
                    + words_from(rest.skip(1), Seq::empty())));
            } else {
                assert(cur@ =~= Seq::<char>::empty());
                assert(char_texts(out@) + words_from(s@.skip(i + 1), cur@) =~= before + (
                Seq::<Seq<char>>::empty() + words_from(rest.skip(1), Seq::empty())));
            }
        } else {
            cur.push(s[i]);
        }
        i = i + 1;
    }
    assert(s@.skip(i as int) =~= Seq::<char>::empty());
    if cur.len() > 0 {
        let ghost before = char_texts(out@);
        let ghost c0 = cur@;
        out.push(cur);
        assert(char_texts(out@) =~= before + seq![c0]);
    } else {
        assert(char_texts(out@) + Seq::<Seq<char>>::empty() =~= char_texts(out@));
    }
    out
}

/// Parse `(input name type)` or `(output name type)`: the name and type.
pub fn parse_single_decl(s: &str) -> (r: Option<PortDecl>)
    ensures
        match r {
            Some(d) => single_decl(s@) == Some((d.name@, d.port_type@)),
            None => single_decl(s@) is None,
        },
{
    let cs = chars_of(s);
    let t = trim_chars(cs.as_slice(), 0, cs.len());
    assert(cs@.subrange(0, cs@.len() as int) =~= cs@);
    if t.len() < 2 || t[0] != '(' || t[t.len() - 1] != ')' {
        return None;
    }
    let inner = &t.as_slice()[1..t.len() - 1];
    assert(inner@ =~= t@.subrange(1, t@.len() - 1));
    let w = words_of(inner);
    if w.len() >= 3 {
        assert(char_texts(w@)[1] == w@[1]@ && char_texts(w@)[2] == w@[2]@);
        Some(PortDecl { name: string_of(w[1].as_slice()), port_type: string_of(w[2].as_slice()) })
    } else {
        None
    }
}

/// The `(input name type)` and `(output name type)` declarations of Scheme
/// code, each kind in the order of its lines.
pub fn parse_port_declarations(code: &str) -> (r: (Vec<PortDecl>, Vec<PortDecl>))
    ensures
        decl_texts(r.0@) == decls_with(split_at(code@, '\n'), "(input "@),
        decl_texts(r.1@) == decls_with(split_at(code@, '\n'), "(output "@),
{
    let cs = chars_of(code);
    let lines = split_chars(cs.as_slice(), '\n');
    let ghost ls = char_texts(lines@);
    let mut inputs: Vec<PortDecl> = Vec::new();
    let mut outputs: Vec<PortDecl> = Vec::new();
    let mut i: usize = 0;
    assert(ls.take(0) =~= Seq::<Seq<char>>::empty());
    assert(decl_texts(inputs@) =~= Seq::<(Seq<char>, Seq<char>)>::empty());
    assert(decl_texts(outputs@) =~= Seq::<(Seq<char>, Seq<char>)>::empty());
    while i < lines.len()
        invariant
            i <= lines@.len(),
            ls == char_texts(lines@),
            ls == split_at(code@, '\n'),
            decl_texts(inputs@) == decls_with(ls.take(i as int), "(input "@),
            decl_texts(outputs@) == decls_with(ls.take(i as int), "(output "@),
        decreases lines@.len() - i,
    {
        let line = &lines[i];
        let t = trim_chars(line.as_slice(), 0, line.len());
        assert(line@.subrange(0, line@.len() as int) =~= line@);
        let ghost before_in = decl_texts(inputs@);
        let ghost before_out = decl_texts(outputs@);
        let ghost l = ls[i as int];
        assert(ls.take(i + 1).drop_last() =~= ls.take(i as int));
        assert(ls.take(i + 1).last() == l);
        assert(l == line@);
        let text = string_of(t.as_slice());
        assert(trim(t@) =~= t@) by {
            crate::text::lemma_trim_idempotent(line@);
        }
        if has_prefix(t.as_slice(), "(input ") {
            proof {
                reveal_strlit("(input ");
                reveal_strlit("(output ");
            }
            match parse_single_decl(text.as_str()) {
                Some(d) => {
                    inputs.push(d);
                    assert(decl_texts(inputs@) =~= before_in.push(single_decl(t@).unwrap()));
                },
                None => {
                    assert(decl_texts(inputs@) =~= before_in);
                },
            }
            assert(!starts(t@, "(output "@)) by {
                assert(t@.take(7) == "(input "@);
                assert(t@[1] == t@.take(7)[1]);
                assert(t@[1] == 'i');
                if starts(t@, "(output "@) {
                    assert(t@.take(8)[1] == 'o');
                }
            }
        } else if has_prefix(t.as_slice(), "(output ") {
            match parse_single_decl(text.as_str()) {
                Some(d) => {
                    outputs.push(d);
                    assert(decl_texts(outputs@) =~= before_out.push(single_decl(t@).unwrap()));
                },
                None => {
                    assert(decl_texts(outputs@) =~= before_out);
                },
            }
        }
        i = i + 1;
    }
    assert(ls.take(i as int) =~= ls);
    (inputs, outputs)
}

} // verus!
