use crate::graph_runtime::{import_views, matches_at, renamed, rename_identifier_in_code, HashImport, HashImportView};
use crate::preprocessor::texts;
use crate::text::{chars_of, push_char, push_str, starts, string_from, text_eq};
use vstd::prelude::*;

verus! {

/// `s` with every occurrence of `pat` replaced by `rep`, scanning from the
/// left and not overlapping, as `str::replace` documents it.
pub open spec fn replace_all(s: Seq<char>, pat: Seq<char>, rep: Seq<char>) -> Seq<char>
    decreases s.len(),
{
    if s.len() == 0 {
        Seq::empty()
    } else if pat.len() > 0 && starts(s, pat) {
        rep + replace_all(s.skip(pat.len() as int), pat, rep)
    } else {
        seq![s[0]] + replace_all(s.skip(1), pat, rep)
    }
}

/// Replaces every occurrence of the non-empty `pat` in `s` by `rep`.
fn replace_text(s: &str, pat: &str, rep: &str) -> (r: String)
    requires
        pat@.len() > 0,
    ensures
        r@ == replace_all(s@, pat@, rep@),
{
    let cs = chars_of(s);
    let ps = chars_of(pat);
    let mut out = String::new();
    let mut i: usize = 0;
    assert(cs@.skip(0) =~= cs@);
    while i < cs.len()
        invariant
            i <= cs@.len(),
            cs@ == s@,
            ps@ == pat@,
            pat@.len() > 0,
            out@ + replace_all(cs@.skip(i as int), pat@, rep@) == replace_all(s@, pat@, rep@),
        decreases cs@.len() - i,
    {
        let ghost rest = cs@.skip(i as int);
        if matches_at(&cs, &ps, i) {
            proof {
                assert(rest.take(pat@.len() as int) =~= cs@.subrange(i as int, i + pat@.len()));
                assert(rest.skip(pat@.len() as int) =~= cs@.skip(i + pat@.len()));
                assert(out@ + rep@ + replace_all(cs@.skip(i + pat@.len()), pat@, rep@) =~= out@ + replace_all(
                    rest,
                    pat@,
                    rep@,
                ));
            }
            push_str(&mut out, rep);
            i = i + ps.len();
        } else {
            proof {
                if starts(rest, pat@) {
                    assert(rest.take(pat@.len() as int) =~= cs@.subrange(i as int, i + pat@.len()));
                }
                assert(rest.skip(1) =~= cs@.skip(i + 1));
                assert(rest[0] == cs@[i as int]);
                assert(out@.push(cs@[i as int]) + replace_all(cs@.skip(i + 1), pat@, rep@) =~= out@ + replace_all(
                    rest,
                    pat@,
                    rep@,
                ));
            }
            push_char(&mut out, cs[i]);
            i = i + 1;
        }
    }
    assert(cs@.skip(i as int) =~= Seq::<char>::empty());
    assert(out@ + Seq::<char>::empty() =~= out@);
    out
}

/// The code of the node that defines `old`, with its definition renamed:
/// `(define old ` and `(define (old ` become the same with `new`.
pub open spec fn definition_renamed(code: Seq<char>, old: Seq<char>, new: Seq<char>) -> Seq<char> {
    replace_all(
        replace_all(code, "(define "@ + old + " "@, "(define "@ + new + " "@),
        "(define ("@ + old + " "@,
        "(define ("@ + new + " "@,
    )
}

fn framed(head: &str, name: &str) -> (r: String)
    ensures
        r@ == head@ + name@ + " "@,
{
    let mut s = string_from(head);
    push_str(&mut s, name);
    push_char(&mut s, ' ');
    assert(s@ =~= head@ + name@ + " "@) by {
        reveal_strlit(" ");
    }
    s
}

/// Renames the definition of `old` to `new` in the code of the node that
/// defines it.
pub fn rename_definition_in_code(code: &str, old: &str, new: &str) -> (r: String)
    ensures
        r@ == definition_renamed(code@, old@, new@),
{
    let a = framed("(define ", old);
    let b = framed("(define ", new);
    let c = framed("(define (", old);
    let d = framed("(define (", new);
    proof {
        reveal_strlit("(define ");
        reveal_strlit("(define (");
    }
    let once = replace_text(code, a.as_str(), b.as_str());
    replace_text(once.as_str(), c.as_str(), d.as_str())
}

/// The first position of `t` among the texts.
pub open spec fn text_position(v: Seq<Seq<char>>, t: Seq<char>, i: int) -> Option<int>
    decreases v.len() - i,
{
    if i < 0 || i >= v.len() {
        None
    } else if v[i] == t {
        Some(i)
    } else {
        text_position(v, t, i + 1)
    }
}

proof fn lemma_text_position(v: Seq<Seq<char>>, t: Seq<char>, i: int)
    requires
        0 <= i,
    ensures
        text_position(v, t, i) matches Some(p) ==> i <= p < v.len() && v[p] == t,
    decreases v.len() - i,
{
    if i < v.len() && v[i] != t {
        lemma_text_position(v, t, i + 1);
    }
}

/// Renames the first export named `old_name` to `new_name`, where there is one.
pub fn rename_export(exports: &mut Vec<String>, old_name: &str, new_name: &str)
    ensures
        texts(final(exports)@) == match text_position(texts(old(exports)@), old_name@, 0) {
            Some(p) => texts(old(exports)@).update(p, new_name@),
            None => texts(old(exports)@),
        },
{
    let ghost v = texts(exports@);
    proof {
        lemma_text_position(v, old_name@, 0);
    }
    let mut i: usize = 0;
    while i < exports.len()
        invariant
            i <= exports@.len(),
            v == texts(exports@),
            exports@ == old(exports)@,
            text_position(v, old_name@, 0) == text_position(v, old_name@, i as int),
        decreases exports@.len() - i,
    {
        assert(v[i as int] == exports@[i as int]@);
        if text_eq(exports[i].as_str(), old_name) {
            exports.set(i, string_from(new_name));
            assert(texts(exports@) =~= v.update(i as int, new_name@));
            return;
        }
        i = i + 1;
    }
}

/// The imports of a consumer node after renaming `old` to `new` among the
/// imports of the definition `hash`.
pub open spec fn imports_renamed(v: Seq<HashImportView>, hash: Seq<char>, old: Seq<char>, new: Seq<char>) -> Seq<
    HashImportView,
> {
    Seq::new(
        v.len(),
        |i: int|
            if v[i].hash == hash && v[i].local_name == old {
                HashImportView { hash: v[i].hash, local_name: new }
            } else {
                v[i]
            },
    )
}

/// Some import of the definition `hash` goes by the name `old`.
pub open spec fn imports_name(v: Seq<HashImportView>, hash: Seq<char>, old: Seq<char>) -> bool {
    exists|i: int| 0 <= i < v.len() && v[i].hash == hash && v[i].local_name == old
}

/// In a node that imports the definition `hash` under the name `old_name`,
/// the import takes the name `new_name` and the code uses it (as a whole
/// identifier, outside comments and literals); gives whether the node changed.
pub fn rename_in_consumer(imports: &mut Vec<HashImport>, code: &mut String, hash: &str, old_name: &str, new_name: &str) -> (r: bool)
    ensures
        r == imports_name(import_views(old(imports)@), hash@, old_name@),
        import_views(final(imports)@) == imports_renamed(import_views(old(imports)@), hash@, old_name@, new_name@),
        final(code)@ == if r {
            renamed(old(code)@, old_name@, new_name@)
        } else {
            old(code)@
        },
{
    let ghost v = import_views(imports@);
    let mut changed = false;
    let mut i: usize = 0;
    while i < imports.len()
        invariant
            i <= imports@.len(),
            v == import_views(old(imports)@),
            imports@.len() == v.len(),
            forall|j: int| 0 <= j < i ==> #[trigger] imports@[j]@ == imports_renamed(v, hash@, old_name@, new_name@)[j],
            forall|j: int| i <= j < imports@.len() ==> #[trigger] imports@[j]@ == v[j],
            changed == exists|j: int| 0 <= j < i && v[j].hash == hash@ && v[j].local_name == old_name@,
        decreases imports@.len() - i,
    {
        assert(imports@[i as int]@ == v[i as int]);
        if text_eq(imports[i].hash.as_str(), hash) && text_eq(imports[i].local_name.as_str(), old_name) {
            let h = imports[i].hash.clone();
            let ghost before = imports@;
            imports.set(i, HashImport { hash: h, local_name: string_from(new_name) });
            assert forall|j: int| i < j < imports@.len() implies #[trigger] imports@[j]@ == v[j] by {
                assert(imports@[j] == before[j]);
            }
            assert forall|j: int| 0 <= j < i implies #[trigger] imports@[j]@ == imports_renamed(v, hash@, old_name@, new_name@)[j] by {
                assert(imports@[j] == before[j]);
            }
            changed = true;
        }
        i = i + 1;
    }
    assert(import_views(imports@) =~= imports_renamed(v, hash@, old_name@, new_name@));
    if changed {
        let new_code = rename_identifier_in_code(code.as_str(), old_name, new_name);
        *code = new_code;
    }
    changed
}


proof fn lemma_replace_same(s: Seq<char>, pat: Seq<char>)
    ensures
        replace_all(s, pat, pat) == s,
    decreases s.len(),
{
    if s.len() > 0 {
        if pat.len() > 0 && starts(s, pat) {
            lemma_replace_same(s.skip(pat.len() as int), pat);
            assert(pat + s.skip(pat.len() as int) =~= s);
        } else {
            lemma_replace_same(s.skip(1), pat);
            assert(seq![s[0]] + s.skip(1) =~= s);
        }
    }
}

/// Renaming a definition to its own name leaves the code as it was.
pub proof fn lemma_definition_renamed_to_itself(code: Seq<char>, name: Seq<char>)
    ensures
        definition_renamed(code, name, name) == code,
{
    lemma_replace_same(code, "(define "@ + name + " "@);
    lemma_replace_same(code, "(define ("@ + name + " "@);
}

} // verus!
