use crate::text::{alphanumeric, chars_of, is_alphanumeric, push_char, push_str, string_from, text_eq};
use crate::ocapn::types::hex_digit;
use crate::preprocessor::texts;
use vstd::arithmetic::div_mod::{lemma_breakdown, lemma_small_mod};
use vstd::arithmetic::power::{lemma_pow_positive, pow};
use vstd::prelude::*;

verus! {

/// A character of a Scheme identifier.
pub open spec fn ident_char(c: char) -> bool {
    alphanumeric(c) || c == '-' || c == '_' || c == '!' || c == '?' || c == '*' || c == '+'
}

/// Whether `c` is a character of a Scheme identifier.
pub fn is_ident_char(c: char) -> (r: bool)
    ensures
        r == ident_char(c),
{
    is_alphanumeric(c) || c == '-' || c == '_' || c == '!' || c == '?' || c == '*' || c == '+'
}

/// Where the run of identifier characters from `i` ends.
pub open spec fn ident_run_end(cs: Seq<char>, i: int) -> int
    decreases cs.len() - i,
{
    if i < 0 {
        0
    } else if i >= cs.len() || !ident_char(cs[i]) {
        i
    } else {
        ident_run_end(cs, i + 1)
    }
}

pub proof fn lemma_ident_run_end(cs: Seq<char>, i: int)
    requires
        0 <= i,
    ensures
        i <= ident_run_end(cs, i),
        i <= cs.len() ==> ident_run_end(cs, i) <= cs.len(),
    decreases cs.len() - i,
{
    if i < cs.len() && ident_char(cs[i]) {
        lemma_ident_run_end(cs, i + 1);
    }
}

/// An occurrence of `old` at `i` that stands as a whole identifier.
pub open spec fn whole_word_at(cs: Seq<char>, old: Seq<char>, i: int) -> bool {
    &&& old.len() > 0
    &&& 0 <= i
    &&& i + old.len() <= cs.len()
    &&& cs.subrange(i, i + old.len()) == old
    &&& (i == 0 || !ident_char(cs[i - 1]))
    &&& (i + old.len() >= cs.len() || !ident_char(cs[i + old.len()]))
}

/// The renamed text from position `i` on, scanning with the given string and
/// comment state. Comments (`;` to end of line), string literals and `#\`
/// character literals are copied unchanged; whole-word occurrences of `old`
/// elsewhere become `new`.
pub open spec fn rename_scan(
    cs: Seq<char>,
    old: Seq<char>,
    new: Seq<char>,
    i: int,
    in_string: bool,
    in_comment: bool,
) -> Seq<char>
    decreases cs.len() - i,
{
    if i >= cs.len() || i < 0 {
        Seq::empty()
    } else if in_comment {
        seq![cs[i]] + rename_scan(cs, old, new, i + 1, in_string, cs[i] != '\n')
    } else if cs[i] == ';' && !in_string {
        seq![cs[i]] + rename_scan(cs, old, new, i + 1, in_string, true)
    } else if cs[i] == '"' {
        seq![cs[i]] + rename_scan(cs, old, new, i + 1, !in_string, false)
    } else if cs[i] == '#' && i + 1 < cs.len() && cs[i + 1] == '\\' {
        let k = ident_run_end(cs, i + 2);
        proof {
            lemma_ident_run_end(cs, i + 2);
        }
        cs.subrange(i, k) + rename_scan(cs, old, new, k, in_string, false)
    } else if in_string {
        if cs[i] == '\\' && i + 1 < cs.len() {
            seq![cs[i], cs[i + 1]] + rename_scan(cs, old, new, i + 2, in_string, false)
        } else {
            seq![cs[i]] + rename_scan(cs, old, new, i + 1, in_string, false)
        }
    } else if whole_word_at(cs, old, i) {
        new + rename_scan(cs, old, new, i + old.len(), in_string, false)
    } else {
        seq![cs[i]] + rename_scan(cs, old, new, i + 1, in_string, false)
    }
}

/// `code` with every whole-word occurrence of the identifier `old` outside
/// comments, strings and character literals replaced by `new`.
pub open spec fn renamed(code: Seq<char>, old: Seq<char>, new: Seq<char>) -> Seq<char> {
    rename_scan(code, old, new, 0, false, false)
}

pub(crate) fn matches_at(chars: &Vec<char>, old: &Vec<char>, i: usize) -> (r: bool)
    requires
        i <= chars@.len(),
    ensures
        r == (i + old@.len() <= chars@.len() && chars@.subrange(i as int, i + old@.len()) == old@),
{
    if old.len() > chars.len() - i {
        return false;
    }
    let mut k: usize = 0;
    while k < old.len()
        invariant
            k <= old@.len(),
            i <= chars@.len(),
            i + old@.len() <= chars@.len(),
            forall|j: int| 0 <= j < k ==> chars@[i + j] == old@[j],
        decreases old@.len() - k,
    {
        assert(i + k < chars.len());
        if chars[i + k] != old[k] {
            assert(chars@.subrange(i as int, i + old@.len())[k as int] != old@[k as int]);
            return false;
        }
        k = k + 1;
    }
    assert(chars@.subrange(i as int, i + old@.len()) =~= old@);
    true
}

/// Rename the identifier `old` to `new` in Scheme code, leaving comments,
/// string literals and `#\` character literals alone and matching whole
/// identifiers only.
pub fn rename_identifier_in_code(code: &str, old: &str, new: &str) -> (r: String)
    ensures
        r@ == renamed(code@, old@, new@),
{
    let chars = chars_of(code);
    let old_chars = chars_of(old);
    let ghost cs = chars@;
    let mut result = String::new();
    let mut i: usize = 0;
    let mut in_string = false;
    let mut in_comment = false;
    while i < chars.len()
        invariant
            cs == chars@,
            cs == code@,
            old_chars@ == old@,
            i <= cs.len(),
            result@ + rename_scan(cs, old@, new@, i as int, in_string, in_comment) == renamed(cs, old@, new@),
        decreases cs.len() - i,
    {
        let ghost before = result@;
        let ghost i0 = i as int;
        let ghost s0 = in_string;
        let ghost c0 = in_comment;
        if in_comment {
            push_char(&mut result, chars[i]);
            if chars[i] == '\n' {
                in_comment = false;
            }
            i = i + 1;
            assert(result@ + rename_scan(cs, old@, new@, i as int, in_string, in_comment) =~= before
                + rename_scan(cs, old@, new@, i0, s0, c0));
        } else if chars[i] == ';' && !in_string {
            in_comment = true;
            push_char(&mut result, chars[i]);
            i = i + 1;
            assert(result@ + rename_scan(cs, old@, new@, i as int, in_string, in_comment) =~= before
                + rename_scan(cs, old@, new@, i0, s0, c0));
        } else if chars[i] == '"' {
            in_string = !in_string;
            push_char(&mut result, chars[i]);
            i = i + 1;
            assert(result@ + rename_scan(cs, old@, new@, i as int, in_string, in_comment) =~= before
                + rename_scan(cs, old@, new@, i0, s0, c0));
        } else if chars[i] == '#' && i + 1 < chars.len() && chars[i + 1] == '\\' {
            push_char(&mut result, chars[i]);
            push_char(&mut result, chars[i + 1]);
            i = i + 2;
            proof {
                lemma_ident_run_end(cs, i as int);
            }
            while i < chars.len() && is_ident_char(chars[i])
                invariant
                    cs == chars@,
                    0 <= i0,
                    i0 + 2 <= i <= cs.len(),
                    ident_run_end(cs, i0 + 2) == ident_run_end(cs, i as int),
                    result@ == before + cs.subrange(i0, i as int),
                decreases cs.len() - i,
            {
                push_char(&mut result, chars[i]);
                i = i + 1;
                assert(result@ =~= before + cs.subrange(i0, i as int));
            }
            assert(i == ident_run_end(cs, i0 + 2));
            assert(result@ + rename_scan(cs, old@, new@, i as int, in_string, in_comment) =~= before
                + rename_scan(cs, old@, new@, i0, s0, c0));
        } else if in_string {
            if chars[i] == '\\' && i + 1 < chars.len() {
                push_char(&mut result, chars[i]);
                push_char(&mut result, chars[i + 1]);
                i = i + 2;
            } else {
                push_char(&mut result, chars[i]);
                i = i + 1;
            }
            assert(result@ + rename_scan(cs, old@, new@, i as int, in_string, in_comment) =~= before
                + rename_scan(cs, old@, new@, i0, s0, c0));
        } else {
            let n = old_chars.len();
            let hit = n > 0 && matches_at(&chars, &old_chars, i) && (i == 0 || !is_ident_char(chars[i - 1]))
                && (i + n >= chars.len() || !is_ident_char(chars[i + n]));
            assert(hit == whole_word_at(cs, old@, i as int));
            if hit {
                push_str(&mut result, new);
                i = i + n;
            } else {
                push_char(&mut result, chars[i]);
                i = i + 1;
            }
            assert(result@ + rename_scan(cs, old@, new@, i as int, in_string, in_comment) =~= before
                + rename_scan(cs, old@, new@, i0, s0, c0));
        }
    }
    assert(result@ =~= renamed(cs, old@, new@));
    result
}

proof fn lemma_rename_scan_same(cs: Seq<char>, name: Seq<char>, i: int, in_string: bool, in_comment: bool)
    requires
        0 <= i <= cs.len(),
    ensures
        rename_scan(cs, name, name, i, in_string, in_comment) == cs.skip(i),
    decreases cs.len() - i,
{
    if i < cs.len() {
        if in_comment {
            lemma_rename_scan_same(cs, name, i + 1, in_string, cs[i] != '\n');
            assert(cs.skip(i) =~= seq![cs[i]] + cs.skip(i + 1));
        } else if cs[i] == ';' && !in_string {
            lemma_rename_scan_same(cs, name, i + 1, in_string, true);
            assert(cs.skip(i) =~= seq![cs[i]] + cs.skip(i + 1));
        } else if cs[i] == '"' {
            lemma_rename_scan_same(cs, name, i + 1, !in_string, false);
            assert(cs.skip(i) =~= seq![cs[i]] + cs.skip(i + 1));
        } else if cs[i] == '#' && i + 1 < cs.len() && cs[i + 1] == '\\' {
            let k = ident_run_end(cs, i + 2);
            lemma_ident_run_end(cs, i + 2);
            lemma_rename_scan_same(cs, name, k, in_string, false);
            assert(cs.skip(i) =~= cs.subrange(i, k) + cs.skip(k));
        } else if in_string {
            if cs[i] == '\\' && i + 1 < cs.len() {
                lemma_rename_scan_same(cs, name, i + 2, in_string, false);
                assert(cs.skip(i) =~= seq![cs[i], cs[i + 1]] + cs.skip(i + 2));
            } else {
                lemma_rename_scan_same(cs, name, i + 1, in_string, false);
                assert(cs.skip(i) =~= seq![cs[i]] + cs.skip(i + 1));
            }
        } else if whole_word_at(cs, name, i) {
            lemma_rename_scan_same(cs, name, i + name.len(), in_string, false);
            assert(cs.skip(i) =~= cs.subrange(i, i + name.len()) + cs.skip(i + name.len()));
        } else {
            lemma_rename_scan_same(cs, name, i + 1, in_string, false);
            assert(cs.skip(i) =~= seq![cs[i]] + cs.skip(i + 1));
        }
    } else {
        assert(cs.skip(i) =~= Seq::<char>::empty());
    }
}

/// `t` occurs somewhere in `s`.
pub open spec fn occurs_in(s: Seq<char>, t: Seq<char>) -> bool {
    exists|i: int| 0 <= i && i + t.len() <= s.len() && #[trigger] s.subrange(i, i + t.len()) == t
}

/// A non-empty identifier.
pub open spec fn is_identifier(name: Seq<char>) -> bool {
    name.len() > 0 && forall|i: int| 0 <= i < name.len() ==> ident_char(#[trigger] name[i])
}

proof fn lemma_specials_not_ident()
    ensures
        !ident_char(';'),
        !ident_char('"'),
        !ident_char('#'),
        !ident_char('\\'),
{
    reveal(alphanumeric);
}

proof fn lemma_ident_run_facts(cs: Seq<char>, p: int)
    requires
        0 <= p <= cs.len(),
    ensures
        forall|t: int| p <= t < ident_run_end(cs, p) ==> ident_char(#[trigger] cs[t]),
        ident_run_end(cs, p) == cs.len() || !ident_char(cs[ident_run_end(cs, p)]),
    decreases cs.len() - p,
{
    if p < cs.len() && ident_char(cs[p]) {
        lemma_ident_run_facts(cs, p + 1);
    }
}

proof fn lemma_run_end(cs: Seq<char>, p: int, q: int)
    requires
        0 <= p <= q <= cs.len(),
        forall|t: int| p <= t < q ==> ident_char(#[trigger] cs[t]),
        q == cs.len() || !ident_char(cs[q]),
    ensures
        ident_run_end(cs, p) == q,
    decreases q - p,
{
    if p < q {
        lemma_run_end(cs, p + 1, q);
    }
}

/// The first character of the renamed text from `p` is the code's own, or
/// both are identifier characters (where `new` replaced `old`).
proof fn lemma_scan_first(
    cs: Seq<char>,
    old: Seq<char>,
    new: Seq<char>,
    p: int,
    s: bool,
    c: bool,
)
    requires
        0 <= p,
        is_identifier(old),
        is_identifier(new),
    ensures
        p >= cs.len() ==> rename_scan(cs, old, new, p, s, c).len() == 0,
        p < cs.len() ==> rename_scan(cs, old, new, p, s, c).len() > 0 && (rename_scan(cs, old, new, p, s, c)[0]
            == cs[p] || (ident_char(rename_scan(cs, old, new, p, s, c)[0]) && ident_char(cs[p]))),
{
    if p < cs.len() {
        let out = rename_scan(cs, old, new, p, s, c);
        if !c && !(cs[p] == ';' && !s) && cs[p] != '"' && !(cs[p] == '#' && p + 1 < cs.len() && cs[p + 1] == '\\') && !s
            && whole_word_at(cs, old, p) {
            assert(out[0] == new[0]);
            assert(cs.subrange(p, p + old.len())[0] == cs[p]);
            assert(ident_char(new[0]) && ident_char(old[0]));
        } else if !c && !(cs[p] == ';' && !s) && cs[p] != '"' && cs[p] == '#' && p + 1 < cs.len() && cs[p + 1]
            == '\\' {
            lemma_ident_run_end(cs, p + 2);
            assert(out[0] == cs.subrange(p, ident_run_end(cs, p + 2))[0]);
        }
    }
}

/// Where the renamed text from `p` (outside strings and comments, after an
/// identifier character) starts with identifier characters `w`, the code
/// there is `w` itself, copied.
proof fn lemma_ident_prefix(cs: Seq<char>, old: Seq<char>, new: Seq<char>, p: int, w: Seq<char>)
    requires
        0 < p <= cs.len(),
        ident_char(cs[p - 1]),
        is_identifier(old),
        is_identifier(new),
        forall|t: int| 0 <= t < w.len() ==> ident_char(#[trigger] w[t]),
        w.len() <= rename_scan(cs, old, new, p, false, false).len(),
        rename_scan(cs, old, new, p, false, false).take(w.len() as int) == w,
    ensures
        p + w.len() <= cs.len(),
        cs.subrange(p, p + w.len()) == w,
    decreases w.len(),
{
    if w.len() > 0 {
        lemma_specials_not_ident();
        let out = rename_scan(cs, old, new, p, false, false);
        assert(out[0] == w[0]) by {
            assert(out.take(w.len() as int)[0] == out[0]);
        }
        lemma_scan_first(cs, old, new, p, false, false);
        assert(p < cs.len());
        assert(!whole_word_at(cs, old, p));
        if cs[p] == '#' && p + 1 < cs.len() && cs[p + 1] == '\\' {
            lemma_ident_run_end(cs, p + 2);
            assert(out[0] == cs.subrange(p, ident_run_end(cs, p + 2))[0]);
            assert(false);
        }
        assert(out == seq![cs[p]] + rename_scan(cs, old, new, p + 1, false, false));
        let rest = rename_scan(cs, old, new, p + 1, false, false);
        let w2 = w.skip(1);
        assert(rest.take(w2.len() as int) =~= w2) by {
            assert forall|t: int| 0 <= t < w2.len() implies rest.take(w2.len() as int)[t] == w2[t] by {
                assert(out.take(w.len() as int)[t + 1] == w[t + 1]);
                assert(out[t + 1] == rest[t]);
            }
        }
        assert forall|t: int| 0 <= t < w2.len() implies ident_char(#[trigger] w2[t]) by {
            assert(w2[t] == w[t + 1]);
        }
        lemma_ident_prefix(cs, old, new, p + 1, w2);
        assert(cs.subrange(p, p + w.len()) =~= seq![cs[p]] + cs.subrange(p + 1, p + 1 + w2.len()));
        assert(w =~= seq![w[0]] + w2);
    }
}

proof fn lemma_skip_split(r: Seq<char>, j: int, a: Seq<char>, rest: Seq<char>)
    requires
        0 <= j <= r.len(),
        r.skip(j) == a + rest,
    ensures
        j + a.len() <= r.len(),
        r.skip(j + a.len()) == rest,
        forall|t: int| 0 <= t < a.len() ==> #[trigger] r[j + t] == a[t],
{
    assert(r.skip(j).len() == r.len() - j);
    assert((a + rest).len() == a.len() + rest.len());
    assert(j + a.len() <= r.len());
    assert forall|t: int| 0 <= t < a.len() implies #[trigger] r[j + t] == a[t] by {
        assert(r.skip(j)[t] == r[j + t]);
        assert((a + rest)[t] == a[t]);
    }
    assert forall|t: int| 0 <= t < rest.len() implies r.skip(j + a.len())[t] == rest[t] by {
        assert(r.skip(j + a.len())[t] == r[j + a.len() + t]);
        assert(r.skip(j)[a.len() + t] == r[j + a.len() + t]);
        assert((a + rest)[a.len() + t] == rest[t]);
    }
    assert(r.skip(j + a.len()) =~= rest);
}

#[verifier::spinoff_prover]
#[verifier::rlimit(80)]
proof fn lemma_rename_back(
    cs: Seq<char>,
    old: Seq<char>,
    new: Seq<char>,
    r: Seq<char>,
    i: int,
    j: int,
    s: bool,
    c: bool,
)
    requires
        is_identifier(old),
        is_identifier(new),
        !occurs_in(cs, new),
        0 <= i <= cs.len(),
        0 <= j <= r.len(),
        r.skip(j) == rename_scan(cs, old, new, i, s, c),
        (i == 0) == (j == 0),
        i > 0 ==> ident_char(r[j - 1]) == ident_char(cs[i - 1]),
        i > 0 && !s && !c ==> (ident_char(cs[i - 1]) ==> ident_char(r[j - 1])),
    ensures
        rename_scan(r, new, old, j, s, c) == cs.skip(i),
    decreases cs.len() - i,
{
    lemma_specials_not_ident();
    let out = rename_scan(cs, old, new, i, s, c);
    if i >= cs.len() {
        assert(out.len() == 0);
        assert(r.len() == j);
        assert(cs.skip(i) =~= Seq::<char>::empty());
    } else {
        lemma_scan_first(cs, old, new, i, s, c);
        assert(r[j] == out[0]);
        assert(j < r.len());
        if c {
            let rest = rename_scan(cs, old, new, i + 1, s, cs[i] != '\n');
            assert(out == seq![cs[i]] + rest);
            lemma_skip_split(r, j, seq![cs[i]], rest);
            lemma_rename_back(cs, old, new, r, i + 1, j + 1, s, cs[i] != '\n');
            assert(cs.skip(i) =~= seq![cs[i]] + cs.skip(i + 1));
        } else if cs[i] == ';' && !s {
            let rest = rename_scan(cs, old, new, i + 1, s, true);
            assert(out == seq![cs[i]] + rest);
            lemma_skip_split(r, j, seq![cs[i]], rest);
            lemma_rename_back(cs, old, new, r, i + 1, j + 1, s, true);
            assert(cs.skip(i) =~= seq![cs[i]] + cs.skip(i + 1));
        } else if cs[i] == '"' {
            let rest = rename_scan(cs, old, new, i + 1, !s, false);
            assert(out == seq![cs[i]] + rest);
            lemma_skip_split(r, j, seq![cs[i]], rest);
            lemma_rename_back(cs, old, new, r, i + 1, j + 1, !s, false);
            assert(cs.skip(i) =~= seq![cs[i]] + cs.skip(i + 1));
        } else if cs[i] == '#' && i + 1 < cs.len() && cs[i + 1] == '\\' {
            let k = ident_run_end(cs, i + 2);
            lemma_ident_run_end(cs, i + 2);
            lemma_ident_run_facts(cs, i + 2);
            let rest = rename_scan(cs, old, new, k, s, false);
            assert(out == cs.subrange(i, k) + rest);
            let d = k - i;
            lemma_skip_split(r, j, cs.subrange(i, k), rest);
            assert forall|t: int| 0 <= t < d implies #[trigger] r[j + t] == cs[i + t] by {
                assert(r[j + t] == cs.subrange(i, k)[t]);
            }
            lemma_scan_first(cs, old, new, k, s, false);
            if k < cs.len() {
                assert(r[j + d] == rest[0]);
            } else {
                assert(r.len() == j + d);
            }
            assert forall|t: int| j + 2 <= t < j + d implies ident_char(#[trigger] r[t]) by {
                assert(r[j + (t - j)] == cs[i + (t - j)]);
            }
            assert(r[j + (d - 1)] == cs[i + (d - 1)]);
            lemma_run_end(r, j + 2, j + d);
            assert(r.subrange(j, j + d) =~= cs.subrange(i, k));
            lemma_rename_back(cs, old, new, r, k, j + d, s, false);
            assert(cs.skip(i) =~= cs.subrange(i, k) + cs.skip(k));
        } else if s {
            if cs[i] == '\\' && i + 1 < cs.len() {
                let rest = rename_scan(cs, old, new, i + 2, s, false);
                assert(out == seq![cs[i], cs[i + 1]] + rest);
                lemma_skip_split(r, j, seq![cs[i], cs[i + 1]], rest);
                assert(r[j + 1] == cs[i + 1]);
                lemma_rename_back(cs, old, new, r, i + 2, j + 2, s, false);
                assert(cs.skip(i) =~= seq![cs[i], cs[i + 1]] + cs.skip(i + 2));
            } else {
                let rest = rename_scan(cs, old, new, i + 1, s, false);
                assert(out == seq![cs[i]] + rest);
                lemma_skip_split(r, j, seq![cs[i]], rest);
                lemma_scan_first(cs, old, new, i + 1, s, false);
                if cs[i] == '#' && i + 1 < cs.len() {
                    assert(r[j + 1] == rest[0]);
                }
                if cs[i] == '\\' {
                    assert(r.len() == j + 1);
                }
                lemma_rename_back(cs, old, new, r, i + 1, j + 1, s, false);
                assert(cs.skip(i) =~= seq![cs[i]] + cs.skip(i + 1));
            }
        } else if whole_word_at(cs, old, i) {
            let m = i + old.len();
            let rest = rename_scan(cs, old, new, m, s, false);
            assert(out == new + rest);
            let n = new.len();
            lemma_skip_split(r, j, new, rest);
            lemma_scan_first(cs, old, new, m, s, false);
            if m < cs.len() {
                assert(r[j + n] == rest[0]);
            } else {
                assert(r.len() == j + n);
            }
            assert(r.subrange(j, j + n) =~= new);
            assert(r[j] == new[0]);
            assert(whole_word_at(r, new, j));
            assert(old[old.len() - 1] == cs.subrange(i, m)[old.len() - 1]);
            assert(ident_char(old[old.len() - 1]));
            assert(ident_char(new[n - 1]));
            lemma_rename_back(cs, old, new, r, m, j + n, s, false);
            assert(cs.skip(i) =~= cs.subrange(i, m) + cs.skip(m));
        } else {
            let rest = rename_scan(cs, old, new, i + 1, s, false);
            assert(out == seq![cs[i]] + rest);
            lemma_skip_split(r, j, seq![cs[i]], rest);
            lemma_scan_first(cs, old, new, i + 1, s, false);
            if i + 1 < cs.len() {
                assert(r[j + 1] == rest[0]);
            } else {
                assert(r.len() == j + 1);
            }
            if whole_word_at(r, new, j) {
                let n = new.len();
                assert(r[j] == r.subrange(j, j + n)[0]);
                assert(ident_char(cs[i]));
                if i > 0 && ident_char(cs[i - 1]) {
                    assert(ident_char(r[j - 1]));
                    assert(false);
                }
                let w = new.skip(1);
                assert(rest.take(w.len() as int) =~= w) by {
                    assert forall|t: int| 0 <= t < w.len() implies rest.take(w.len() as int)[t] == w[t] by {
                        assert(rest[t] == r.skip(j + 1)[t]);
                        assert(r[j + 1 + t] == r.subrange(j, j + n)[t + 1]);
                    }
                }
                assert forall|t: int| 0 <= t < w.len() implies ident_char(#[trigger] w[t]) by {
                    assert(w[t] == new[t + 1]);
                }
                lemma_ident_prefix(cs, old, new, i + 1, w);
                assert(cs.subrange(i, i + n) =~= seq![cs[i]] + cs.subrange(i + 1, i + 1 + w.len()));
                assert(cs[i] == new[0]);
                assert(cs.subrange(i, i + n) =~= new);
                assert(occurs_in(cs, new));
                assert(false);
            }
            lemma_rename_back(cs, old, new, r, i + 1, j + 1, s, false);
            assert(cs.skip(i) =~= seq![cs[i]] + cs.skip(i + 1));
        }
    }
}

/// Renaming an identifier to a new name that the code does not hold, then
/// back, gives the code back.
pub proof fn lemma_rename_round_trip(code: Seq<char>, old: Seq<char>, new: Seq<char>)
    requires
        is_identifier(old),
        is_identifier(new),
        !occurs_in(code, new),
    ensures
        renamed(renamed(code, old, new), new, old) == code,
{
    let r = renamed(code, old, new);
    assert(r.skip(0) =~= r);
    lemma_rename_back(code, old, new, r, 0, 0, false, false);
    assert(code.skip(0) =~= code);
}

/// Renaming an identifier to itself leaves the code as it was.
pub proof fn lemma_rename_to_itself(code: Seq<char>, name: Seq<char>)
    ensures
        renamed(code, name, name) == code,
{
    lemma_rename_scan_same(code, name, 0, false, false);
    assert(code.skip(0) =~= code);
}


/// A definition a node imports by its content hash, under a local name.
pub struct HashImport {
    pub hash: String,
    pub local_name: String,
}

/// A hash import as plain values.
pub struct HashImportView {
    pub hash: Seq<char>,
    pub local_name: Seq<char>,
}

impl View for HashImport {
    type V = HashImportView;

    open spec fn view(&self) -> HashImportView {
        HashImportView { hash: self.hash@, local_name: self.local_name@ }
    }
}

/// The views of a list of hash imports.
pub open spec fn import_views(v: Seq<HashImport>) -> Seq<HashImportView> {
    Seq::new(v.len(), |i: int| v[i]@)
}

/// No two imports share a hash.
pub open spec fn distinct_hashes(v: Seq<HashImportView>) -> bool {
    forall|i: int, j: int| 0 <= i < j < v.len() ==> v[i].hash != v[j].hash
}

/// Some import has the hash `h`.
pub open spec fn has_hash(v: Seq<HashImportView>, h: Seq<char>) -> bool {
    exists|i: int| 0 <= i < v.len() && v[i].hash == h
}

/// The imports whose hash is not `h`, in order.
pub open spec fn without_hash(v: Seq<HashImportView>, h: Seq<char>) -> Seq<HashImportView>
    decreases v.len(),
{
    if v.len() == 0 {
        Seq::empty()
    } else {
        let r = without_hash(v.drop_last(), h);
        if v.last().hash != h {
            r.push(v.last())
        } else {
            r
        }
    }
}

proof fn lemma_without_hash(v: Seq<HashImportView>, h: Seq<char>)
    ensures
        forall|i: int|
            0 <= i < without_hash(v, h).len() ==> (#[trigger] without_hash(v, h)[i]).hash != h
                && exists|k: int| 0 <= k < v.len() && v[k] == without_hash(v, h)[i],
        distinct_hashes(v) ==> distinct_hashes(without_hash(v, h)),
    decreases v.len(),
{
    if v.len() > 0 {
        let d = v.drop_last();
        lemma_without_hash(d, h);
        let r = without_hash(d, h);
        assert forall|i: int| #![trigger r[i]] 0 <= i < r.len() implies exists|k: int| 0 <= k < v.len() && v[k] == r[i] by {
            let k = choose|k: int| 0 <= k < d.len() && d[k] == r[i];
            assert(v[k] == d[k]);
        }
        if v.last().hash != h {
            let w = r.push(v.last());
            assert(w[r.len() as int] == v[v.len() - 1]);
            if distinct_hashes(v) {
                assert forall|i: int, j: int| 0 <= i < j < w.len() implies w[i].hash != w[j].hash by {
                    if j == r.len() {
                        let k = choose|k: int| 0 <= k < d.len() && d[k] == r[i];
                        assert(v[k] == r[i]);
                    } else {
                        assert(w[i] == r[i] && w[j] == r[j]);
                    }
                }
            }
        }
    }
}

fn copy_import(x: &HashImport) -> (r: HashImport)
    ensures
        r@ == x@,
{
    HashImport { hash: x.hash.clone(), local_name: x.local_name.clone() }
}

/// Adds an import of `hash` under `local_name`, in place of any import of
/// the same hash: the others keep their order and the new one comes last.
pub fn add_hash_import(imports: &mut Vec<HashImport>, hash: &str, local_name: &str)
    ensures
        import_views(final(imports)@) == without_hash(import_views(old(imports)@), hash@).push(
            HashImportView { hash: hash@, local_name: local_name@ },
        ),
{
    let ghost vs = import_views(imports@);
    let mut out: Vec<HashImport> = Vec::new();
    let mut i: usize = 0;
    assert(vs.take(0) =~= Seq::<HashImportView>::empty());
    assert(import_views(out@) =~= Seq::<HashImportView>::empty());
    while i < imports.len()
        invariant
            i <= imports@.len(),
            vs == import_views(imports@),
            import_views(out@) == without_hash(vs.take(i as int), hash@),
        decreases imports@.len() - i,
    {
        assert(vs.take(i + 1).drop_last() =~= vs.take(i as int));
        assert(vs.take(i + 1).last() == imports@[i as int]@);
        if !text_eq(imports[i].hash.as_str(), hash) {
            let ghost before = import_views(out@);
            out.push(copy_import(&imports[i]));
            assert(import_views(out@) =~= before.push(imports@[i as int]@));
        }
        i = i + 1;
    }
    assert(vs.take(i as int) =~= vs);
    let ghost before = import_views(out@);
    out.push(HashImport { hash: string_from(hash), local_name: string_from(local_name) });
    assert(import_views(out@) =~= before.push(HashImportView { hash: hash@, local_name: local_name@ }));
    *imports = out;
}

/// Adding an import by hash keeps the hashes of a node's imports distinct, and
/// leaves exactly one import of that hash: the one just added.
pub proof fn lemma_add_hash_import_distinct(v: Seq<HashImportView>, h: Seq<char>, name: Seq<char>)
    requires
        distinct_hashes(v),
    ensures
        distinct_hashes(without_hash(v, h).push(HashImportView { hash: h, local_name: name })),
        forall|i: int|
            0 <= i < without_hash(v, h).len() + 1 && (#[trigger] without_hash(v, h).push(
                HashImportView { hash: h, local_name: name },
            )[i]).hash == h ==> i == without_hash(v, h).len(),
{
    lemma_without_hash(v, h);
    let r = without_hash(v, h);
    let w = r.push(HashImportView { hash: h, local_name: name });
    assert forall|i: int, j: int| 0 <= i < j < w.len() implies w[i].hash != w[j].hash by {
        if j == r.len() {
            assert(w[i] == r[i]);
        } else {
            assert(w[i] == r[i] && w[j] == r[j]);
        }
    }
    assert forall|i: int| 0 <= i < w.len() && (#[trigger] w[i]).hash == h implies i == r.len() by {
        if i < r.len() {
            assert(w[i] == r[i]);
        }
    }
}


/// The hashes of the imports that no known definition has, in order.
pub open spec fn unresolved(v: Seq<HashImportView>, known: Seq<Seq<char>>) -> Seq<Seq<char>>
    decreases v.len(),
{
    if v.len() == 0 {
        Seq::empty()
    } else {
        let r = unresolved(v.drop_last(), known);
        if known.contains(v.last().hash) {
            r
        } else {
            r.push(v.last().hash)
        }
    }
}

/// Whether `t` is one of the texts of `v`.
pub(crate) fn contains_string(v: &Vec<String>, t: &str) -> (r: bool)
    ensures
        r == texts(v@).contains(t@),
{
    let mut i: usize = 0;
    while i < v.len()
        invariant
            i <= v@.len(),
            forall|j: int| 0 <= j < i ==> v@[j]@ != t@,
        decreases v@.len() - i,
    {
        if text_eq(v[i].as_str(), t) {
            assert(texts(v@)[i as int] == t@);
            return true;
        }
        i = i + 1;
    }
    assert forall|j: int| 0 <= j < texts(v@).len() implies texts(v@)[j] != t@ by {
        assert(texts(v@)[j] == v@[j]@);
    }
    false
}

/// The hashes a node imports that none of the `known` definition hashes
/// resolves, in the order of its imports.
pub fn unresolved_hash_imports(imports: &Vec<HashImport>, known: &Vec<String>) -> (r: Vec<String>)
    ensures
        texts(r@) == unresolved(import_views(imports@), texts(known@)),
{
    let ghost vs = import_views(imports@);
    let mut out: Vec<String> = Vec::new();
    let mut i: usize = 0;
    assert(vs.take(0) =~= Seq::<HashImportView>::empty());
    assert(texts(out@) =~= Seq::<Seq<char>>::empty());
    while i < imports.len()
        invariant
            i <= imports@.len(),
            vs == import_views(imports@),
            texts(out@) == unresolved(vs.take(i as int), texts(known@)),
        decreases imports@.len() - i,
    {
        assert(vs.take(i + 1).drop_last() =~= vs.take(i as int));
        assert(vs.take(i + 1).last() == imports@[i as int]@);
        if !contains_string(known, imports[i].hash.as_str()) {
            let ghost before = texts(out@);
            out.push(imports[i].hash.clone());
            assert(texts(out@) =~= before.push(imports@[i as int].hash@));
        }
        i = i + 1;
    }
    assert(vs.take(i as int) =~= vs);
    out
}

/// The texts of several lists of strings.
pub open spec fn text_lists(v: Seq<Vec<String>>) -> Seq<Seq<Seq<char>>> {
    Seq::new(v.len(), |i: int| texts(v[i]@))
}

/// Lists of texts one after another.
pub open spec fn joined(ls: Seq<Seq<Seq<char>>>) -> Seq<Seq<char>>
    decreases ls.len(),
{
    if ls.len() == 0 {
        Seq::empty()
    } else {
        joined(ls.drop_last()) + ls.last()
    }
}

/// Each text of `s` once, at its first occurrence.
pub open spec fn first_occurrences(s: Seq<Seq<char>>) -> Seq<Seq<char>>
    decreases s.len(),
{
    if s.len() == 0 {
        Seq::empty()
    } else {
        let r = first_occurrences(s.drop_last());
        if r.contains(s.last()) {
            r
        } else {
            r.push(s.last())
        }
    }
}

/// Keeping first occurrences leaves no text twice and loses none.
pub proof fn lemma_first_occurrences(s: Seq<Seq<char>>)
    ensures
        forall|i: int, j: int|
            0 <= i < j < first_occurrences(s).len() ==> first_occurrences(s)[i] != first_occurrences(s)[j],
        forall|t: Seq<char>| first_occurrences(s).contains(t) <==> s.contains(t),
    decreases s.len(),
{
    if s.len() > 0 {
        let d = s.drop_last();
        lemma_first_occurrences(d);
        let r = first_occurrences(d);
        assert forall|t: Seq<char>| first_occurrences(s).contains(t) <==> s.contains(t) by {
            if s.contains(t) && t != s.last() {
                let k = choose|k: int| 0 <= k < s.len() && s[k] == t;
                assert(d[k] == t);
            }
            if d.contains(t) {
                let k = choose|k: int| 0 <= k < d.len() && d[k] == t;
                assert(s[k] == t);
            }
            if !r.contains(s.last()) {
                let w = r.push(s.last());
                assert(w[r.len() as int] == s.last());
                if w.contains(t) {
                    let k = choose|k: int| 0 <= k < w.len() && w[k] == t;
                    if k < r.len() {
                        assert(r[k] == t);
                    }
                }
                if r.contains(t) {
                    let k = choose|k: int| 0 <= k < r.len() && r[k] == t;
                    assert(w[k] == t);
                }
            } else {
                assert(s[s.len() - 1] == s.last());
            }
        }
        if !r.contains(s.last()) {
            let w = r.push(s.last());
            assert forall|i: int, j: int| 0 <= i < j < w.len() implies w[i] != w[j] by {
                if j == r.len() {
                    assert(w[i] == r[i]);
                } else {
                    assert(w[i] == r[i] && w[j] == r[j]);
                }
            }
        }
    }
}

/// The definition hashes to ask peers for: the unresolved hashes of all nodes,
/// each asked for once, in the order first met.
pub fn missing_def_requests(per_node: &Vec<Vec<String>>) -> (r: Vec<String>)
    ensures
        texts(r@) == first_occurrences(joined(text_lists(per_node@))),
        forall|i: int, j: int| 0 <= i < j < r@.len() ==> r@[i]@ != r@[j]@,
        forall|t: Seq<char>| texts(r@).contains(t) <==> joined(text_lists(per_node@)).contains(t),
{
    let ghost ls = text_lists(per_node@);
    let mut out: Vec<String> = Vec::new();
    let mut i: usize = 0;
    assert(ls.take(0) =~= Seq::<Seq<Seq<char>>>::empty());
    assert(texts(out@) =~= Seq::<Seq<char>>::empty());
    while i < per_node.len()
        invariant
            i <= per_node@.len(),
            ls == text_lists(per_node@),
            texts(out@) == first_occurrences(joined(ls.take(i as int))),
        decreases per_node@.len() - i,
    {
        let hashes = &per_node[i];
        let ghost base = joined(ls.take(i as int));
        let ghost l = ls[i as int];
        assert(l == texts(hashes@));
        let mut j: usize = 0;
        assert(base + l.take(0) =~= base);
        while j < hashes.len()
            invariant
                j <= hashes@.len(),
                l == texts(hashes@),
                texts(out@) == first_occurrences(base + l.take(j as int)),
            decreases hashes@.len() - j,
        {
            let ghost before = texts(out@);
            assert((base + l.take(j + 1)).drop_last() =~= base + l.take(j as int));
            assert((base + l.take(j + 1)).last() == hashes@[j as int]@);
            if !contains_string(&out, hashes[j].as_str()) {
                out.push(hashes[j].clone());
                assert(texts(out@) =~= before.push(hashes@[j as int]@));
            }
            j = j + 1;
        }
        assert(l.take(j as int) =~= l);
        assert(ls.take(i + 1).drop_last() =~= ls.take(i as int));
        assert(ls.take(i + 1).last() == l);
        i = i + 1;
    }
    assert(ls.take(i as int) =~= ls);
    proof {
        lemma_first_occurrences(joined(ls));
        assert forall|a: int, b: int| 0 <= a < b < out@.len() implies out@[a]@ != out@[b]@ by {
            assert(texts(out@)[a] == out@[a]@ && texts(out@)[b] == out@[b]@);
        }
    }
    out
}


/// The last `n` hexadecimal digits of `h`, lowercase, most significant first.
pub open spec fn hex_digits(h: nat, n: nat) -> Seq<char>
    decreases n,
{
    if n == 0 {
        Seq::empty()
    } else {
        hex_digits(h / 16, (n - 1) as nat).push(hex_digit((h % 16) as u8))
    }
}

/// A definition hash as sixteen lowercase hexadecimal digits.
pub open spec fn hash_hex(h: u64) -> Seq<char> {
    hex_digits(h as nat, 16)
}

fn push_hex_digits(out: &mut String, h: u64, n: u8)
    ensures
        final(out)@ == old(out)@ + hex_digits(h as nat, n as nat),
    decreases n,
{
    if n > 0 {
        push_hex_digits(out, h / 16, n - 1);
        let d = (h % 16) as u8;
        let c = if d < 10 {
            (d + 48) as char
        } else {
            (d + 87) as char
        };
        let ghost mid = out@;
        push_char(out, c);
        assert(out@ =~= old(out)@ + hex_digits(h as nat, n as nat));
    }
}

/// The text of a definition hash: sixteen lowercase hexadecimal digits.
pub fn hash_hex_text(h: u64) -> (r: String)
    ensures
        r@ == hash_hex(h),
{
    let mut out = String::new();
    push_hex_digits(&mut out, h, 16);
    assert(out@ =~= hash_hex(h));
    out
}

/// The value of a hexadecimal digit, in either case.
pub open spec fn hex_char_value(c: char) -> Option<nat> {
    let u = c as u32;
    if 48 <= u <= 57 {
        Some((u - 48) as nat)
    } else if 97 <= u <= 102 {
        Some((u - 87) as nat)
    } else if 65 <= u <= 70 {
        Some((u - 55) as nat)
    } else {
        None
    }
}

/// Every character is a hexadecimal digit.
pub open spec fn all_hex(s: Seq<char>) -> bool {
    forall|i: int| 0 <= i < s.len() ==> (#[trigger] hex_char_value(s[i])) is Some
}

/// The number that the hexadecimal digits of `s` spell.
pub open spec fn hex_number(s: Seq<char>) -> nat
    decreases s.len(),
{
    if s.len() == 0 {
        0
    } else {
        hex_number(s.drop_last()) * 16 + match hex_char_value(s.last()) {
            Some(d) => d,
            None => 0,
        }
    }
}

/// The digits of a hash text: the text without one leading `+`.
pub open spec fn hex_body(s: Seq<char>) -> Seq<char> {
    if s.len() > 0 && s[0] == '+' {
        s.skip(1)
    } else {
        s
    }
}

/// How a hash text reads as a number, as `u64::from_str_radix(_, 16)`
/// documents it: an optional `+`, then one or more hexadecimal digits whose
/// value fits in a `u64`.
pub open spec fn parse_hex_u64(s: Seq<char>) -> Option<u64> {
    let d = hex_body(s);
    if d.len() > 0 && all_hex(d) && hex_number(d) <= u64::MAX {
        Some(hex_number(d) as u64)
    } else {
        None
    }
}

proof fn lemma_hex_number_grows(s: Seq<char>, i: int, j: int)
    requires
        0 <= i <= j <= s.len(),
    ensures
        hex_number(s.take(i)) <= hex_number(s.take(j)),
    decreases j - i,
{
    if i < j {
        lemma_hex_number_grows(s, i, j - 1);
        assert(s.take(j).drop_last() =~= s.take(j - 1));
    }
}

fn hex_char_value_exec(c: char) -> (r: Option<u64>)
    ensures
        match hex_char_value(c) {
            Some(d) => r == Some(d as u64),
            None => r is None,
        },
{
    let u = c as u32;
    if 48 <= u && u <= 57 {
        Some((u - 48) as u64)
    } else if 97 <= u && u <= 102 {
        Some((u - 87) as u64)
    } else if 65 <= u && u <= 70 {
        Some((u - 55) as u64)
    } else {
        None
    }
}

/// Reads a definition hash from its hexadecimal text.
pub fn parse_hash_hex(s: &str) -> (r: Option<u64>)
    ensures
        r == parse_hex_u64(s@),
{
    let cs = chars_of(s);
    let n = cs.len();
    let start: usize = if n > 0 && cs[0] == '+' {
        1
    } else {
        0
    };
    let ghost body = hex_body(s@);
    assert(body =~= cs@.skip(start as int));
    if start >= n {
        return None;
    }
    let mut v: u64 = 0;
    let mut i: usize = start;
    assert(body.take(0) =~= Seq::<char>::empty());
    while i < n
        invariant
            start <= i <= n,
            n == cs@.len(),
            cs@ == s@,
            body == cs@.skip(start as int),
            body == hex_body(s@),
            v == hex_number(body.take(i - start)),
            forall|k: int| 0 <= k < i - start ==> (#[trigger] hex_char_value(body[k])) is Some,
        decreases n - i,
    {
        assert(body[i - start] == cs@[i as int]);
        match hex_char_value_exec(cs[i]) {
            None => {
                assert(!all_hex(body)) by {
                    assert(hex_char_value(body[i - start]) is None);
                }
                return None;
            },
            Some(d) => {
                assert(body.take(i - start + 1).drop_last() =~= body.take(i - start));
                assert(body.take(i - start + 1).last() == body[i - start]);
                match v.checked_mul(16) {
                    None => {
                        proof {
                            lemma_hex_number_grows(body, i - start + 1, body.len() as int);
                            assert(body.take(body.len() as int) =~= body);
                        }
                        return None;
                    },
                    Some(w) => match w.checked_add(d) {
                        None => {
                            proof {
                                lemma_hex_number_grows(body, i - start + 1, body.len() as int);
                                assert(body.take(body.len() as int) =~= body);
                            }
                            return None;
                        },
                        Some(x) => {
                            v = x;
                        },
                    },
                }
            },
        }
        i = i + 1;
    }
    assert(body.take(i - start) =~= body);
    Some(v)
}

proof fn lemma_hex_digit_value(d: nat)
    requires
        d < 16,
    ensures
        hex_char_value(hex_digit(d as u8)) == Some(d),
{
}

proof fn lemma_hex_digits(h: nat, n: nat)
    ensures
        hex_digits(h, n).len() == n,
        all_hex(hex_digits(h, n)),
        hex_number(hex_digits(h, n)) == h % (pow(16, n) as nat),
    decreases n,
{
    lemma_pow_positive(16, n);
    if n > 0 {
        lemma_hex_digits(h / 16, (n - 1) as nat);
        lemma_hex_digit_value(h % 16);
        lemma_pow_positive(16, (n - 1) as nat);
        let t = hex_digits(h, n);
        let p = hex_digits(h / 16, (n - 1) as nat);
        assert(t.drop_last() =~= p);
        assert forall|i: int| 0 <= i < t.len() implies (#[trigger] hex_char_value(t[i])) is Some by {
            if i < p.len() {
                assert(t[i] == p[i]);
            }
        }
        lemma_breakdown(h as int, 16, pow(16, (n - 1) as nat));
        assert(pow(16, n) == 16 * pow(16, (n - 1) as nat)) by {
            reveal(pow);
        }
    } else {
        assert(pow(16, 0) == 1) by {
            reveal(pow);
        }
        assert(h % 1 == 0);
    }
}

/// Reading back the text of a definition hash gives the hash.
pub proof fn lemma_hash_hex_roundtrip(h: u64)
    ensures
        parse_hex_u64(hash_hex(h)) == Some(h),
{
    lemma_hex_digits(h as nat, 16);
    assert(pow(16, 16) == 0x1_0000_0000_0000_0000) by {
        reveal_with_fuel(pow, 17);
    }
    lemma_small_mod(h as nat, 0x1_0000_0000_0000_0000);
    let t = hash_hex(h);
    assert(hex_number(t) == h);
    assert(hex_char_value(t[0]) is Some);
    assert(t[0] != '+');
    assert(hex_body(t) == t);
}


/// The channel on which peers ask for a definition by hash.
pub const DEF_REQUEST_CHANNEL: &'static str = "__def/request";

/// The channel on which peers answer with a definition.
pub const DEF_RESPONSE_CHANNEL: &'static str = "__def/response";

/// Which of the definition-exchange channels a network message came on.
#[derive(Debug, Clone, Copy, PartialEq, Eq, Structural)]
pub enum DefChannel {
    Request,
    Response,
    Other,
}

/// The definition-exchange channel that `channel` names, if any.
pub fn def_channel(channel: &str) -> (r: DefChannel)
    ensures
        r == (if channel@ == DEF_REQUEST_CHANNEL@ {
            DefChannel::Request
        } else if channel@ == DEF_RESPONSE_CHANNEL@ {
            DefChannel::Response
        } else {
            DefChannel::Other
        }),
{
    if text_eq(channel, DEF_REQUEST_CHANNEL) {
        DefChannel::Request
    } else if text_eq(channel, DEF_RESPONSE_CHANNEL) {
        DefChannel::Response
    } else {
        DefChannel::Other
    }
}

/// A definition received from a peer that is to be stored.
pub struct ReceivedDef {
    pub hash: u64,
    pub name: String,
    pub form: String,
    /// Whether to enter it in the name database (it came with a name).
    pub register: bool,
}

/// What a definition received from a peer comes to: stored under its hash
/// only when the claimed hash reads as a number and equals the hash of the
/// body itself (`body_hash`); its name defaults to empty, its form to
/// `Simple`, and it is entered in the name database when it has a name.
pub fn accept_definition(claimed: &str, body_hash: u64, name: Option<&str>, form: Option<&str>) -> (r: Option<ReceivedDef>)
    ensures
        r is Some <==> parse_hex_u64(claimed@) == Some(body_hash),
        r matches Some(d) ==> {
            &&& d.hash == body_hash
            &&& d.name@ == (match name {
                Some(n) => n@,
                None => Seq::<char>::empty(),
            })
            &&& d.form@ == (match form {
                Some(f) => f@,
                None => "Simple"@,
            })
            &&& d.register == (d.name@.len() > 0)
        },
{
    match parse_hash_hex(claimed) {
        None => None,
        Some(h) => {
            if h != body_hash {
                None
            } else {
                let (name, register) = match name {
                    Some(n) => (string_from(n), chars_of(n).len() > 0),
                    None => (String::new(), false),
                };
                let form = match form {
                    Some(f) => string_from(f),
                    None => string_from("Simple"),
                };
                Some(ReceivedDef { hash: h, name, form, register })
            }
        },
    }
}

/// The views of (hash, name) pairs of definitions.
pub open spec fn def_views(d: Seq<(u64, String)>) -> Seq<(u64, Seq<char>)> {
    Seq::new(d.len(), |i: int| (d[i].0, d[i].1@))
}

/// The imports after migrating exported definitions: each definition whose
/// hash text is not imported yet is appended, in order, under its own name.
pub open spec fn migrated(v: Seq<HashImportView>, defs: Seq<(u64, Seq<char>)>) -> Seq<HashImportView>
    decreases defs.len(),
{
    if defs.len() == 0 {
        v
    } else {
        let r = migrated(v, defs.drop_last());
        let h = hash_hex(defs.last().0);
        if has_hash(r, h) {
            r
        } else {
            r.push(HashImportView { hash: h, local_name: defs.last().1 })
        }
    }
}

/// The (hash, name) pairs of some imports.
pub open spec fn import_pairs(v: Seq<HashImportView>) -> Seq<(Seq<char>, Seq<char>)> {
    Seq::new(v.len(), |i: int| (v[i].hash, v[i].local_name))
}

/// The views of pairs of strings.
pub open spec fn string_pairs(p: Seq<(String, String)>) -> Seq<(Seq<char>, Seq<char>)> {
    Seq::new(p.len(), |i: int| (p[i].0@, p[i].1@))
}

fn has_hash_exec(v: &Vec<HashImport>, h: &str) -> (r: bool)
    ensures
        r == has_hash(import_views(v@), h@),
{
    let mut i: usize = 0;
    while i < v.len()
        invariant
            i <= v@.len(),
            forall|j: int| 0 <= j < i ==> v@[j].hash@ != h@,
        decreases v@.len() - i,
    {
        if text_eq(v[i].hash.as_str(), h) {
            assert(import_views(v@)[i as int].hash == h@);
            return true;
        }
        i = i + 1;
    }
    assert forall|j: int| 0 <= j < import_views(v@).len() implies import_views(v@)[j].hash != h@ by {
        assert(import_views(v@)[j] == v@[j]@);
    }
    false
}

/// Moves a node from module imports to hash imports: given the exported
/// definitions of the modules it imported, as (hash, name) in order, appends
/// an import for each whose hash it does not import yet. Gives the new
/// imports and the (hash text, name) pairs that were added.
pub fn migrate_hash_imports(imports: &Vec<HashImport>, defs: &Vec<(u64, String)>) -> (r: (
    Vec<HashImport>,
    Vec<(String, String)>,
))
    ensures
        import_views(r.0@) == migrated(import_views(imports@), def_views(defs@)),
        string_pairs(r.1@) == import_pairs(
            migrated(import_views(imports@), def_views(defs@)).skip(imports@.len() as int),
        ),
{
    let ghost vs = import_views(imports@);
    let ghost ds = def_views(defs@);
    let mut out: Vec<HashImport> = Vec::new();
    let mut k: usize = 0;
    assert(import_views(out@) =~= vs.take(0));
    while k < imports.len()
        invariant
            k <= imports@.len(),
            vs == import_views(imports@),
            import_views(out@) == vs.take(k as int),
        decreases imports@.len() - k,
    {
        let ghost before = import_views(out@);
        out.push(copy_import(&imports[k]));
        assert(import_views(out@) =~= vs.take(k + 1)) by {
            assert(import_views(out@) =~= before.push(imports@[k as int]@));
        }
        k = k + 1;
    }
    assert(vs.take(k as int) =~= vs);
    let mut added: Vec<(String, String)> = Vec::new();
    let mut i: usize = 0;
    assert(ds.take(0) =~= Seq::<(u64, Seq<char>)>::empty());
    assert(migrated(vs, ds.take(0)).skip(vs.len() as int) =~= Seq::<HashImportView>::empty());
    assert(string_pairs(added@) =~= import_pairs(Seq::<HashImportView>::empty()));
    while i < defs.len()
        invariant
            i <= defs@.len(),
            vs == import_views(imports@),
            ds == def_views(defs@),
            import_views(out@) == migrated(vs, ds.take(i as int)),
            out@.len() >= vs.len(),
            string_pairs(added@) == import_pairs(migrated(vs, ds.take(i as int)).skip(vs.len() as int)),
        decreases defs@.len() - i,
    {
        assert(ds.take(i + 1).drop_last() =~= ds.take(i as int));
        assert(ds.take(i + 1).last() == (defs@[i as int].0, defs@[i as int].1@));
        let h = hash_hex_text(defs[i].0);
        if !has_hash_exec(&out, h.as_str()) {
            let ghost before = import_views(out@);
            let ghost before_pairs = string_pairs(added@);
            let ghost m = migrated(vs, ds.take(i as int));
            out.push(HashImport { hash: h.clone(), local_name: defs[i].1.clone() });
            added.push((h, defs[i].1.clone()));
            assert(import_views(out@) =~= before.push(HashImportView { hash: hash_hex(defs@[i as int].0), local_name: defs@[i as int].1@ }));
            let ghost m2 = import_views(out@);
            assert(m2.skip(vs.len() as int) =~= m.skip(vs.len() as int).push(m2.last()));
            assert(string_pairs(added@) =~= before_pairs.push((m2.last().hash, m2.last().local_name)));
            assert(import_pairs(m.skip(vs.len() as int).push(m2.last())) =~= import_pairs(
                m.skip(vs.len() as int),
            ).push((m2.last().hash, m2.last().local_name)));
            assert(string_pairs(added@) =~= import_pairs(m2.skip(vs.len() as int)));
        }
        i = i + 1;
    }
    assert(ds.take(i as int) =~= ds);
    (out, added)
}

/// Migrating to hash imports never imports a hash twice: when a node's
/// imports have distinct hashes before, they have distinct hashes after, and
/// the imports it had are kept as they were, in front.
pub proof fn lemma_migrated_distinct(v: Seq<HashImportView>, defs: Seq<(u64, Seq<char>)>)
    requires
        distinct_hashes(v),
    ensures
        distinct_hashes(migrated(v, defs)),
        migrated(v, defs).len() >= v.len(),
        migrated(v, defs).take(v.len() as int) == v,
    decreases defs.len(),
{
    if defs.len() > 0 {
        lemma_migrated_distinct(v, defs.drop_last());
        let r = migrated(v, defs.drop_last());
        let h = hash_hex(defs.last().0);
        if !has_hash(r, h) {
            let w = r.push(HashImportView { hash: h, local_name: defs.last().1 });
            assert forall|i: int, j: int| 0 <= i < j < w.len() implies w[i].hash != w[j].hash by {
                if j == r.len() {
                    assert(w[i] == r[i]);
                } else {
                    assert(w[i] == r[i] && w[j] == r[j]);
                }
            }
            assert(w.take(v.len() as int) =~= r.take(v.len() as int));
        }
    } else {
        assert(v.take(v.len() as int) =~= v);
    }
}


} // verus!
