//! Markup with @-expressions turned into the Scheme render DSL.
//!
//! - lines starting with `(` are Scheme, passed through;
//!   `(input ...)` and `(output ...)` lines are dropped;
//! - `# text` and `## text` give `(bold ...)`;
//! - `---`, `***` or `___` gives `(hr)`;
//! - `| a | b |` rows give `(table ...)`, the first row being the headers;
//! - a line `@(expr)` is the expression itself;
//! - other lines give `(text ...)`, with `@name` and `@(expr)` spliced in.
use crate::text::{
    alphanumeric, char_texts, chars_of, has_prefix, is_alphanumeric, push_char, push_str, split_at,
    split_chars, starts, string_of, trim, trim_chars,
};
use vstd::prelude::*;

verus! {

/// A character that may appear in a Scheme identifier after `@`.
pub open spec fn scheme_ident(c: char) -> bool {
    alphanumeric(c) || c == '-' || c == '_' || c == '?' || c == '!'
}

/// Whether `c` may appear in a Scheme identifier after `@`.
pub fn is_scheme_ident(c: char) -> (r: bool)
    ensures
        r == scheme_ident(c),
{
    is_alphanumeric(c) || c == '-' || c == '_' || c == '?' || c == '!'
}

/// How one character is written inside a Scheme string literal.
pub open spec fn escaped_char(c: char) -> Seq<char> {
    if c == '\\' {
        seq!['\\', '\\']
    } else if c == '"' {
        seq!['\\', '"']
    } else {
        seq![c]
    }
}

/// `s` with backslashes and double quotes escaped.
pub open spec fn escaped(s: Seq<char>) -> Seq<char>
    decreases s.len(),
{
    if s.len() == 0 {
        Seq::empty()
    } else {
        escaped(s.drop_last()) + escaped_char(s.last())
    }
}

/// Escape backslashes and double quotes for a Scheme string literal.
pub fn escape_scheme_string(s: &str) -> (r: String)
    ensures
        r@ == escaped(s@),
{
    let cs = chars_of(s);
    let mut out = String::new();
    let mut i: usize = 0;
    while i < cs.len()
        invariant
            i <= cs@.len(),
            cs@ == s@,
            out@ == escaped(cs@.take(i as int)),
        decreases cs@.len() - i,
    {
        let c = cs[i];
        if c == '\\' {
            push_char(&mut out, '\\');
            push_char(&mut out, '\\');
        } else if c == '"' {
            push_char(&mut out, '\\');
            push_char(&mut out, '"');
        } else {
            push_char(&mut out, c);
        }
        assert(cs@.take(i + 1).drop_last() =~= cs@.take(i as int));
        assert(out@ =~= escaped(cs@.take(i + 1)));
        i = i + 1;
    }
    assert(cs@.take(i as int) =~= cs@);
    out
}

/// A Scheme string literal holding `s`.
pub open spec fn quoted(s: Seq<char>) -> Seq<char> {
    seq!['"'] + escaped(s) + seq!['"']
}

/// Pending text as a string literal part, if there is any.
pub open spec fn flushed(cur: Seq<char>) -> Seq<Seq<char>> {
    if cur.len() == 0 {
        Seq::empty()
    } else {
        seq![quoted(cur)]
    }
}

/// The index just after the parenthesis that closes the one at `i`, scanning
/// with nesting `depth`; the end when it never closes.
pub open spec fn paren_end(cs: Seq<char>, i: int, depth: int) -> int
    decreases cs.len() - i,
{
    if i >= cs.len() || i < 0 {
        cs.len() as int
    } else if cs[i] == '(' {
        paren_end(cs, i + 1, depth + 1)
    } else if cs[i] == ')' {
        if depth - 1 == 0 {
            i + 1
        } else {
            paren_end(cs, i + 1, depth - 1)
        }
    } else {
        paren_end(cs, i + 1, depth)
    }
}

/// The index where the run of identifier characters starting at `i` ends.
pub open spec fn ident_end(cs: Seq<char>, i: int) -> int
    decreases cs.len() - i,
{
    if i >= cs.len() || i < 0 || !scheme_ident(cs[i]) {
        if i < 0 { 0 } else { i }
    } else {
        ident_end(cs, i + 1)
    }
}

/// The parts of inline text from position `i` on, with pending text `cur`:
/// string literals for plain text, and `@name` / `@(expr)` as Scheme code.
pub open spec fn inline_parts(cs: Seq<char>, i: int, cur: Seq<char>) -> Seq<Seq<char>>
    decreases cs.len() - i,
{
    if i >= cs.len() || i < 0 {
        flushed(cur)
    } else if cs[i] == '@' && i + 1 < cs.len() {
        let j = i + 1;
        if cs[j] == '(' {
            let k = paren_end(cs, j, 0);
            proof {
                lemma_paren_end_bounds(cs, j, 0);
            }
            flushed(cur) + seq![cs.subrange(j, k)] + inline_parts(cs, k, Seq::empty())
        } else {
            let k = ident_end(cs, j);
            proof {
                lemma_ident_end_bounds(cs, j);
            }
            if k > j {
                flushed(cur) + seq![cs.subrange(j, k)] + inline_parts(cs, k, Seq::empty())
            } else {
                flushed(cur) + inline_parts(cs, j, seq!['@'])
            }
        }
    } else {
        inline_parts(cs, i + 1, cur.push(cs[i]))
    }
}

/// Parts joined with a separator.
pub open spec fn joined(parts: Seq<Seq<char>>, sep: Seq<char>) -> Seq<char>
    decreases parts.len(),
{
    if parts.len() == 0 {
        Seq::empty()
    } else if parts.len() == 1 {
        parts[0]
    } else {
        joined(parts.drop_last(), sep) + sep + parts.last()
    }
}

/// Inline text as arguments of `(text ...)` or `(bold ...)`.
pub open spec fn inline_text(cs: Seq<char>) -> Seq<char> {
    let parts = inline_parts(cs, 0, Seq::empty());
    if parts.len() == 0 {
        seq!['"', '"']
    } else {
        joined(parts, seq![' '])
    }
}

pub proof fn lemma_paren_end_bounds(cs: Seq<char>, i: int, depth: int)
    requires
        0 <= i,
    ensures
        i < cs.len() ==> i < paren_end(cs, i, depth) <= cs.len(),
        i >= cs.len() ==> paren_end(cs, i, depth) == cs.len(),
    decreases cs.len() - i,
{
    if i < cs.len() {
        lemma_paren_end_bounds(cs, i + 1, depth + 1);
        lemma_paren_end_bounds(cs, i + 1, depth - 1);
        lemma_paren_end_bounds(cs, i + 1, depth);
    }
}

pub proof fn lemma_ident_end_bounds(cs: Seq<char>, i: int)
    requires
        0 <= i <= cs.len(),
    ensures
        i <= ident_end(cs, i) <= cs.len(),
    decreases cs.len() - i,
{
    if i < cs.len() && scheme_ident(cs[i]) {
        lemma_ident_end_bounds(cs, i + 1);
    }
}

fn push_parts_joined(out: &mut String, parts: &Vec<String>)
    ensures
        final(out)@ == old(out)@ + joined(Seq::new(parts@.len(), |i: int| parts@[i]@), seq![' ']),
{
    let ghost ps = Seq::new(parts@.len(), |i: int| parts@[i]@);
    let mut i: usize = 0;
    assert(ps.take(0) =~= Seq::<Seq<char>>::empty());
    assert(out@ =~= old(out)@ + joined(ps.take(0), seq![' ']));
    while i < parts.len()
        invariant
            i <= parts@.len(),
            ps == Seq::new(parts@.len(), |i: int| parts@[i]@),
            out@ == old(out)@ + joined(ps.take(i as int), seq![' ']),
        decreases parts@.len() - i,
    {
        if i > 0 {
            push_char(out, ' ');
        }
        push_str(out, parts[i].as_str());
        proof {
            assert(ps.take(i + 1).drop_last() =~= ps.take(i as int));
            assert(ps.take(i + 1).last() == parts@[i as int]@);
            if i == 0 {
                assert(ps.take(1)[0] == parts@[0]@);
            }
        }
        assert(out@ =~= old(out)@ + joined(ps.take(i + 1), seq![' ']));
        i = i + 1;
    }
    assert(ps.take(i as int) =~= ps);
}

fn quote_part(cur: &Vec<char>) -> (r: String)
    ensures
        r@ == quoted(cur@),
{
    let text = string_of(cur.as_slice());
    let esc = escape_scheme_string(text.as_str());
    let mut r = String::new();
    push_char(&mut r, '"');
    push_str(&mut r, esc.as_str());
    push_char(&mut r, '"');
    assert(r@ =~= quoted(cur@));
    r
}

/// Inline text with `@name` and `@(expr)` spliced in as Scheme, the rest as
/// string literals; `""` when there is nothing.
pub fn process_inline(text: &str) -> (r: String)
    ensures
        r@ == inline_text(text@),
{
    let chars = chars_of(text);
    let ghost cs = chars@;
    let mut parts: Vec<String> = Vec::new();
    let mut current: Vec<char> = Vec::new();
    let mut i: usize = 0;
    assert(Seq::new(parts@.len(), |j: int| parts@[j]@) + inline_parts(cs, 0, current@) =~= inline_parts(cs, 0, Seq::empty()));
    while i < chars.len()
        invariant
            cs == chars@,
            cs == text@,
            i <= cs.len(),
            Seq::new(parts@.len(), |j: int| parts@[j]@) + inline_parts(cs, i as int, current@)
                == inline_parts(cs, 0, Seq::empty()),
        decreases cs.len() - i,
    {
        let ghost before = Seq::new(parts@.len(), |j: int| parts@[j]@);
        let ghost cur0 = current@;
        let ghost i0 = i as int;
        if chars[i] == '@' && i + 1 < chars.len() {
            if current.len() > 0 {
                parts.push(quote_part(&current));
                current = Vec::new();
            }
            assert(Seq::new(parts@.len(), |j: int| parts@[j]@) =~= before + flushed(cur0));
            i = i + 1;
            if chars[i] == '(' {
                let start = i;
                let mut depth: usize = 0;
                let mut closed = false;
                proof {
                    lemma_paren_end_bounds(cs, start as int, 0);
                }
                while i < chars.len() && !closed
                    invariant
                        cs == chars@,
                        start <= i <= cs.len(),
                        start < cs.len(),
                        cs[start as int] == '(',
                        i == start ==> depth == 0 && !closed,
                        closed ==> i == paren_end(cs, start as int, 0),
                        !closed && i > start ==> 0 < depth <= i - start,
                        !closed && i > start ==> paren_end(cs, start as int, 0) == paren_end(cs, i as int, depth as int),
                    decreases cs.len() - i,
                {
                    if chars[i] == '(' {
                        depth = depth + 1;
                        i = i + 1;
                    } else if chars[i] == ')' {
                        depth = depth - 1;
                        i = i + 1;
                        if depth == 0 {
                            closed = true;
                        }
                    } else {
                        i = i + 1;
                    }
                }
                assert(i == paren_end(cs, start as int, 0));
                let expr = string_of(&chars.as_slice()[start..i]);
                assert(expr@ =~= cs.subrange(start as int, i as int));
                let ghost mid = Seq::new(parts@.len(), |j: int| parts@[j]@);
                parts.push(expr);
                assert(Seq::new(parts@.len(), |j: int| parts@[j]@) =~= mid.push(cs.subrange(start as int, i as int)));
                assert(current@ =~= Seq::<char>::empty());
                assert(inline_parts(cs, i0, cur0) == flushed(cur0) + seq![cs.subrange(start as int, i as int)]
                    + inline_parts(cs, i as int, Seq::empty()));
                assert(Seq::new(parts@.len(), |j: int| parts@[j]@) + inline_parts(cs, i as int, current@)
                    =~= before + inline_parts(cs, i0, cur0));
            } else {
                let start = i;
                while i < chars.len() && is_scheme_ident(chars[i])
                    invariant
                        cs == chars@,
                        start <= i <= cs.len(),
                        ident_end(cs, start as int) == ident_end(cs, i as int),
                    decreases cs.len() - i,
                {
                    i = i + 1;
                }
                assert(i == ident_end(cs, start as int));
                if i > start {
                    let name = string_of(&chars.as_slice()[start..i]);
                    assert(name@ =~= cs.subrange(start as int, i as int));
                    let ghost mid = Seq::new(parts@.len(), |j: int| parts@[j]@);
                    parts.push(name);
                    assert(Seq::new(parts@.len(), |j: int| parts@[j]@) =~= mid.push(cs.subrange(start as int, i as int)));
                    assert(current@ =~= Seq::<char>::empty());
                    assert(inline_parts(cs, i0, cur0) == flushed(cur0) + seq![cs.subrange(start as int, i as int)]
                        + inline_parts(cs, i as int, Seq::empty()));
                    assert(Seq::new(parts@.len(), |j: int| parts@[j]@) + inline_parts(cs, i as int, current@)
                        =~= before + inline_parts(cs, i0, cur0));
                } else {
                    current.push('@');
                    assert(current@ =~= seq!['@']);
                    assert(Seq::new(parts@.len(), |j: int| parts@[j]@) + inline_parts(cs, i as int, current@)
                        =~= before + inline_parts(cs, i0, cur0));
                }
            }
        } else {
            current.push(chars[i]);
            i = i + 1;
        }
    }
    if current.len() > 0 {
        parts.push(quote_part(&current));
    }
    let ghost ps = Seq::new(parts@.len(), |j: int| parts@[j]@);
    assert(ps == inline_parts(cs, 0, Seq::empty()));
    if parts.len() == 0 {
        let mut r = String::new();
        push_char(&mut r, '"');
        push_char(&mut r, '"');
        assert(r@ =~= seq!['"', '"']);
        r
    } else {
        let mut r = String::new();
        push_parts_joined(&mut r, &parts);
        assert(r@ =~= joined(ps, seq![' ']));
        r
    }
}


// ---------------------------------------------------------------------
// Tables
// ---------------------------------------------------------------------

/// A table being collected: header cells, then rows of cells.
pub struct TableBuilder {
    headers: Vec<String>,
    rows: Vec<Vec<String>>,
}

/// Texts of strings.
pub open spec fn texts(v: Seq<String>) -> Seq<Seq<char>> {
    Seq::new(v.len(), |i: int| v[i]@)
}

/// Texts of string slices.
pub open spec fn str_texts(v: Seq<&str>) -> Seq<Seq<char>> {
    Seq::new(v.len(), |i: int| v[i]@)
}

/// The Scheme form of a row of cells: each cell as inline text.
pub open spec fn cells_text(cells: Seq<Seq<char>>) -> Seq<char> {
    joined(Seq::new(cells.len(), |i: int| inline_text(cells[i])), seq![' '])
}

/// The Scheme form of a table: `(table (list headers...) (list (list cells...) ...))`.
pub open spec fn table_text(headers: Seq<Seq<char>>, rows: Seq<Seq<Seq<char>>>) -> Seq<char> {
    "(table (list "@ + cells_text(headers) + ") (list "@ + joined(
        Seq::new(rows.len(), |i: int| "(list "@ + cells_text(rows[i]) + ")"@),
        seq![' '],
    ) + "))"@
}

impl TableBuilder {
    /// The header cells.
    pub closed spec fn header_cells(&self) -> Seq<Seq<char>> {
        texts(self.headers@)
    }

    /// The rows of cells.
    pub closed spec fn row_cells(&self) -> Seq<Seq<Seq<char>>> {
        Seq::new(self.rows@.len(), |i: int| texts(self.rows@[i]@))
    }

    /// An empty table.
    pub fn new() -> (r: TableBuilder)
        ensures
            r.header_cells() == Seq::<Seq<char>>::empty(),
            r.row_cells() == Seq::<Seq<Seq<char>>>::empty(),
    {
        let r = TableBuilder { headers: Vec::new(), rows: Vec::new() };
        assert(r.header_cells() =~= Seq::<Seq<char>>::empty());
        assert(r.row_cells() =~= Seq::<Seq<Seq<char>>>::empty());
        r
    }

    /// Set the header cells.
    pub fn set_headers(&mut self, cells: &[&str])
        ensures
            final(self).header_cells() == str_texts(cells@),
            final(self).row_cells() == old(self).row_cells(),
    {
        self.headers = owned_cells(cells);
        assert(self.row_cells() =~= old(self).row_cells());
    }

    /// Add a row of cells.
    pub fn add_row(&mut self, cells: &[&str])
        ensures
            final(self).header_cells() == old(self).header_cells(),
            final(self).row_cells() == old(self).row_cells().push(str_texts(cells@)),
    {
        let row = owned_cells(cells);
        self.rows.push(row);
        assert(self.row_cells() =~= old(self).row_cells().push(str_texts(cells@)));
    }

    /// The table as Scheme.
    pub fn finish(&self) -> (r: String)
        ensures
            r@ == table_text(self.header_cells(), self.row_cells()),
    {
        let mut out = string_of_lit("(table (list ");
        push_cells(&mut out, &self.headers);
        push_str(&mut out, ") (list ");
        let ghost rows = self.row_cells();
        let ghost forms = Seq::new(rows.len(), |i: int| "(list "@ + cells_text(rows[i]) + ")"@);
        let ghost start = out@;
        let mut i: usize = 0;
        assert(forms.take(0) =~= Seq::<Seq<char>>::empty());
        assert(out@ =~= start + joined(forms.take(0), seq![' ']));
        while i < self.rows.len()
            invariant
                i <= self.rows@.len(),
                rows == self.row_cells(),
                forms == Seq::new(rows.len(), |i: int| "(list "@ + cells_text(rows[i]) + ")"@),
                out@ == start + joined(forms.take(i as int), seq![' ']),
            decreases self.rows@.len() - i,
        {
            if i > 0 {
                push_char(&mut out, ' ');
            }
            let ghost before = out@;
            push_str(&mut out, "(list ");
            push_cells(&mut out, &self.rows[i]);
            push_str(&mut out, ")");
            proof {
                assert(rows[i as int] == texts(self.rows@[i as int]@));
                assert(out@ =~= before + forms[i as int]);
                assert(forms.take(i + 1).drop_last() =~= forms.take(i as int));
                if i == 0 {
                    assert(forms.take(1)[0] == forms[0]);
                }
            }
            assert(out@ =~= start + joined(forms.take(i + 1), seq![' ']));
            i = i + 1;
        }
        assert(forms.take(i as int) =~= forms);
        push_str(&mut out, "))");
        assert(out@ =~= table_text(self.header_cells(), self.row_cells()));
        out
    }
}

fn string_of_lit(s: &str) -> (r: String)
    ensures
        r@ == s@,
{
    let mut r = String::new();
    push_str(&mut r, s);
    assert(r@ =~= s@);
    r
}

fn owned_cells(cells: &[&str]) -> (r: Vec<String>)
    ensures
        texts(r@) == str_texts(cells@),
{
    let mut out: Vec<String> = Vec::new();
    let mut i: usize = 0;
    while i < cells.len()
        invariant
            i <= cells@.len(),
            out@.len() == i,
            forall|j: int| 0 <= j < i ==> (#[trigger] out@[j])@ == cells@[j]@,
        decreases cells@.len() - i,
    {
        out.push(string_of_lit(cells[i]));
        i = i + 1;
    }
    assert(texts(out@) =~= str_texts(cells@));
    out
}

fn push_cells(out: &mut String, cells: &Vec<String>)
    ensures
        final(out)@ == old(out)@ + cells_text(texts(cells@)),
{
    let ghost cs = texts(cells@);
    let ghost forms = Seq::new(cs.len(), |i: int| inline_text(cs[i]));
    let mut i: usize = 0;
    assert(forms.take(0) =~= Seq::<Seq<char>>::empty());
    assert(out@ =~= old(out)@ + joined(forms.take(0), seq![' ']));
    while i < cells.len()
        invariant
            i <= cells@.len(),
            cs == texts(cells@),
            forms == Seq::new(cs.len(), |i: int| inline_text(cs[i])),
            out@ == old(out)@ + joined(forms.take(i as int), seq![' ']),
        decreases cells@.len() - i,
    {
        if i > 0 {
            push_char(out, ' ');
        }
        let part = process_inline(cells[i].as_str());
        push_str(out, part.as_str());
        proof {
            assert(forms.take(i + 1).drop_last() =~= forms.take(i as int));
            assert(forms[i as int] == part@);
            if i == 0 {
                assert(forms.take(1)[0] == forms[0]);
            }
        }
        assert(out@ =~= old(out)@ + joined(forms.take(i + 1), seq![' ']));
        i = i + 1;
    }
    assert(forms.take(i as int) =~= forms);
}

// ---------------------------------------------------------------------
// Documents
// ---------------------------------------------------------------------

/// The number of `c` at the start of `s`.
pub open spec fn leading_count(s: Seq<char>, c: char) -> nat
    decreases s.len(),
{
    if s.len() > 0 && s[0] == c {
        1 + leading_count(s.skip(1), c)
    } else {
        0
    }
}

/// The number of `c` at the end of `s`.
pub open spec fn trailing_count(s: Seq<char>, c: char) -> nat
    decreases s.len(),
{
    if s.len() > 0 && s.last() == c {
        1 + trailing_count(s.drop_last(), c)
    } else {
        0
    }
}

/// `s` without any `c` at either end, as `str::trim_matches` gives it.
pub open spec fn strip_char(s: Seq<char>, c: char) -> Seq<char> {
    if leading_count(s, c) == s.len() {
        Seq::empty()
    } else {
        s.subrange(leading_count(s, c) as int, s.len() - trailing_count(s, c))
    }
}

/// The cells of a table row `| a | b |`.
pub open spec fn table_cells(t: Seq<char>) -> Seq<Seq<char>> {
    let pieces = split_at(strip_char(t, '|'), '|');
    Seq::new(pieces.len(), |i: int| trim(pieces[i]))
}

/// A separator row such as `|---|:--|`: every cell only dashes and colons.
pub open spec fn separator_row(cells: Seq<Seq<char>>) -> bool {
    forall|i: int, j: int| 0 <= i < cells.len() && 0 <= j < cells[i].len() ==> (#[trigger] cells[i][j] == '-'
        || cells[i][j] == ':')
}

/// What has been read of a document so far.
pub struct Prep {
    pub scheme: Seq<Seq<char>>,
    pub parts: Seq<Seq<char>>,
    pub table: Option<(Seq<Seq<char>>, Seq<Seq<Seq<char>>>)>,
}

/// A pending table, if any, becomes a render part.
pub open spec fn flush_table(st: Prep) -> Prep {
    match st.table {
        Some((h, rows)) => Prep { parts: st.parts.push(table_text(h, rows)), table: None, ..st },
        None => st,
    }
}

/// Reading one line of a document.
pub open spec fn prep_line(st: Prep, line: Seq<char>) -> Prep {
    let t = trim(line);
    if t.len() == 0 {
        flush_table(st)
    } else if starts(t, "(input "@) || starts(t, "(output "@) {
        st
    } else if t[0] == '(' {
        let f = flush_table(st);
        Prep { scheme: f.scheme.push(t), ..f }
    } else {
        if t == "---"@ || t == "***"@ || t == "___"@ {
            let f = flush_table(st);
            Prep { parts: f.parts.push("(hr)"@), ..f }
        } else if starts(t, "# "@) {
            let f = flush_table(st);
            Prep { parts: f.parts.push("(bold "@ + inline_text(t.skip(2)) + ")"@), ..f }
        } else if starts(t, "## "@) {
            let f = flush_table(st);
            Prep { parts: f.parts.push("(bold "@ + inline_text(t.skip(3)) + ")"@), ..f }
        } else if t[0] == '|' && t.last() == '|' {
            let cells = table_cells(t);
            if separator_row(cells) {
                st
            } else {
                match st.table {
                    Some((h, rows)) => Prep { table: Some((h, rows.push(cells))), ..st },
                    None => Prep { table: Some((cells, Seq::empty())), ..st },
                }
            }
        } else {
            let f = flush_table(st);
            if starts(t, "@("@) && t.last() == ')' {
                Prep { parts: f.parts.push(t.skip(1)), ..f }
            } else {
                Prep { parts: f.parts.push("(text "@ + inline_text(t) + ")"@), ..f }
            }
        }
    }
}

/// Reading lines one after another.
pub open spec fn prep_lines(st: Prep, lines: Seq<Seq<char>>) -> Prep
    decreases lines.len(),
{
    if lines.len() == 0 {
        st
    } else {
        prep_lines(prep_line(st, lines[0]), lines.skip(1))
    }
}

/// Pieces, each followed by a newline.
pub open spec fn lines_text(ls: Seq<Seq<char>>) -> Seq<char>
    decreases ls.len(),
{
    if ls.len() == 0 {
        Seq::empty()
    } else {
        lines_text(ls.drop_last()) + ls.last() + seq!['\n']
    }
}

/// Render parts, each indented by two spaces and followed by a newline.
pub open spec fn parts_text(ps: Seq<Seq<char>>) -> Seq<char>
    decreases ps.len(),
{
    if ps.len() == 0 {
        Seq::empty()
    } else {
        parts_text(ps.drop_last()) + seq![' ', ' '] + ps.last() + seq!['\n']
    }
}

/// The output for what was read: the Scheme lines, then a `(render ...)` block
/// when there are render parts.
pub open spec fn assemble(st: Prep) -> Seq<char> {
    lines_text(st.scheme) + if st.parts.len() > 0 {
        "(render\n"@ + parts_text(st.parts) + ")"@
    } else {
        Seq::empty()
    }
}

/// The preprocessed form of a document.
pub open spec fn preprocessed(source: Seq<char>) -> Seq<char> {
    let start = Prep { scheme: Seq::empty(), parts: Seq::empty(), table: None };
    assemble(flush_table(prep_lines(start, split_at(source, '\n'))))
}

fn is_text(t: &[char], p: &str) -> (r: bool)
    ensures
        r == (t@ == p@),
{
    let pc = chars_of(p);
    if pc.len() != t.len() {
        return false;
    }
    let b = has_prefix(t, p);
    assert(t@.take(t@.len() as int) =~= t@);
    b
}

proof fn lemma_leading_count(s: Seq<char>, c: char, k: int)
    requires
        0 <= k <= s.len(),
        forall|i: int| 0 <= i < k ==> #[trigger] s[i] == c,
        k == s.len() || s[k] != c,
    ensures
        leading_count(s, c) == k,
    decreases k,
{
    if k > 0 {
        assert forall|i: int| 0 <= i < k - 1 implies #[trigger] s.skip(1)[i] == c by {
            assert(s.skip(1)[i] == s[i + 1]);
        }
        lemma_leading_count(s.skip(1), c, k - 1);
    }
}

proof fn lemma_trailing_count(s: Seq<char>, c: char, k: int)
    requires
        0 <= k <= s.len(),
        forall|i: int| s.len() - k <= i < s.len() ==> #[trigger] s[i] == c,
        k == s.len() || s[s.len() - k - 1] != c,
    ensures
        trailing_count(s, c) == k,
    decreases k,
{
    if k > 0 {
        assert forall|i: int| s.drop_last().len() - (k - 1) <= i < s.drop_last().len() implies #[trigger] s.drop_last()[i] == c by {
            assert(s.drop_last()[i] == s[i]);
        }
        lemma_trailing_count(s.drop_last(), c, k - 1);
    }
}

fn strip_char_exec(t: &[char], c: char) -> (r: Vec<char>)
    ensures
        r@ == strip_char(t@, c),
{
    let mut a: usize = 0;
    while a < t.len() && t[a] == c
        invariant
            a <= t@.len(),
            forall|i: int| 0 <= i < a ==> #[trigger] t@[i] == c,
        decreases t@.len() - a,
    {
        a = a + 1;
    }
    proof {
        lemma_leading_count(t@, c, a as int);
    }
    let mut out: Vec<char> = Vec::new();
    if a == t.len() {
        return out;
    }
    let mut b: usize = t.len();
    while b > a && t[b - 1] == c
        invariant
            a < t@.len(),
            a <= b <= t@.len(),
            forall|i: int| b <= i < t@.len() ==> #[trigger] t@[i] == c,
        decreases b,
    {
        b = b - 1;
    }
    proof {
        assert(t@[a as int] != c);
        lemma_trailing_count(t@, c, (t@.len() - b) as int);
    }
    let mut i: usize = a;
    while i < b
        invariant
            a <= i <= b,
            b <= t@.len(),
            out@ == t@.subrange(a as int, i as int),
        decreases b - i,
    {
        out.push(t[i]);
        i = i + 1;
        assert(out@ =~= t@.subrange(a as int, i as int));
    }
    out
}

fn row_cells(t: &[char]) -> (r: Vec<String>)
    ensures
        texts(r@) == table_cells(t@),
{
    let inner = strip_char_exec(t, '|');
    let pieces = split_chars(inner.as_slice(), '|');
    let mut out: Vec<String> = Vec::new();
    let mut i: usize = 0;
    while i < pieces.len()
        invariant
            i <= pieces@.len(),
            char_texts(pieces@) == split_at(strip_char(t@, '|'), '|'),
            out@.len() == i,
            forall|j: int| 0 <= j < i ==> (#[trigger] out@[j])@ == trim(pieces@[j]@),
        decreases pieces@.len() - i,
    {
        let piece = &pieces[i];
        let trimmed = trim_chars(piece.as_slice(), 0, piece.len());
        assert(piece@.subrange(0, piece@.len() as int) =~= piece@);
        out.push(string_of(trimmed.as_slice()));
        i = i + 1;
    }
    proof {
        let ps = split_at(strip_char(t@, '|'), '|');
        assert forall|j: int| 0 <= j < ps.len() implies ps[j] == pieces@[j]@ by {
            assert(char_texts(pieces@)[j] == pieces@[j]@);
        }
        assert(texts(out@) =~= table_cells(t@));
    }
    out
}

fn is_separator_row(cells: &Vec<String>) -> (r: bool)
    ensures
        r == separator_row(texts(cells@)),
{
    let mut i: usize = 0;
    while i < cells.len()
        invariant
            i <= cells@.len(),
            forall|a: int, b: int|
                0 <= a < i && 0 <= b < cells@[a]@.len() ==> (#[trigger] cells@[a]@[b] == '-' || cells@[a]@[b]
                    == ':'),
        decreases cells@.len() - i,
    {
        let cs = chars_of(cells[i].as_str());
        let mut k: usize = 0;
        while k < cs.len()
            invariant
                i < cells@.len(),
                k <= cs@.len(),
                cs@ == cells@[i as int]@,
                forall|b: int| 0 <= b < k ==> (#[trigger] cs@[b] == '-' || cs@[b] == ':'),
            decreases cs@.len() - k,
        {
            if cs[k] != '-' && cs[k] != ':' {
                assert(texts(cells@)[i as int][k as int] == cs@[k as int]);
                return false;
            }
            k = k + 1;
        }
        i = i + 1;
    }
    proof {
        assert forall|a: int, b: int| 0 <= a < texts(cells@).len() && 0 <= b < texts(cells@)[a].len() implies (
        #[trigger] texts(cells@)[a][b] == '-' || texts(cells@)[a][b] == ':') by {
            assert(texts(cells@)[a] == cells@[a]@);
        }
    }
    true
}

/// The state of reading a document line by line.
struct Reader {
    scheme: Vec<String>,
    parts: Vec<String>,
    table: Option<TableBuilder>,
}

impl Reader {
    spec fn model(&self) -> Prep {
        Prep {
            scheme: texts(self.scheme@),
            parts: texts(self.parts@),
            table: match self.table {
                Some(t) => Some((t.header_cells(), t.row_cells())),
                None => None,
            },
        }
    }

    fn new() -> (r: Reader)
        ensures
            r.model() == (Prep { scheme: Seq::empty(), parts: Seq::empty(), table: None }),
    {
        let r = Reader { scheme: Vec::new(), parts: Vec::new(), table: None };
        assert(texts(r.scheme@) =~= Seq::<Seq<char>>::empty());
        assert(texts(r.parts@) =~= Seq::<Seq<char>>::empty());
        r
    }

    fn push_part(&mut self, part: String)
        ensures
            final(self).model() == (Prep { parts: old(self).model().parts.push(part@), ..old(self).model() }),
    {
        let ghost p = part@;
        self.parts.push(part);
        assert(texts(self.parts@) =~= texts(old(self).parts@).push(p));
    }

    fn flush(&mut self)
        ensures
            final(self).model() == flush_table(old(self).model()),
    {
        match self.table.take() {
            Some(tb) => {
                let text = tb.finish();
                self.push_part(text);
            },
            None => {},
        }
    }

    fn read_line(&mut self, line: &[char])
        ensures
            final(self).model() == prep_line(old(self).model(), line@),
    {
        let t = trim_chars(line, 0, line.len());
        assert(line@.subrange(0, line@.len() as int) =~= line@);
        if t.len() == 0 {
            self.flush();
            return;
        }
        if has_prefix(t.as_slice(), "(input ") || has_prefix(t.as_slice(), "(output ") {
            return;
        }
        if t[0] == '(' {
            self.flush();
            let ghost mid = self.model();
            let line_text = string_of(t.as_slice());
            self.scheme.push(line_text);
            assert(texts(self.scheme@) =~= mid.scheme.push(t@));
            return;
        }
        if is_text(t.as_slice(), "---") || is_text(t.as_slice(), "***") || is_text(t.as_slice(), "___") {
            self.flush();
            self.push_part(string_of_lit("(hr)"));
            return;
        }
        if has_prefix(t.as_slice(), "# ") {
            proof {
                reveal_strlit("# ");
            }
            self.flush();
            let body = string_of(&t.as_slice()[2..t.len()]);
            assert(body@ =~= t@.skip(2));
            let inner = process_inline(body.as_str());
            let mut part = string_of_lit("(bold ");
            push_str(&mut part, inner.as_str());
            push_str(&mut part, ")");
            assert(part@ =~= "(bold "@ + inline_text(t@.skip(2)) + ")"@);
            self.push_part(part);
            return;
        }
        if has_prefix(t.as_slice(), "## ") {
            proof {
                reveal_strlit("## ");
            }
            self.flush();
            let body = string_of(&t.as_slice()[3..t.len()]);
            assert(body@ =~= t@.skip(3));
            let inner = process_inline(body.as_str());
            let mut part = string_of_lit("(bold ");
            push_str(&mut part, inner.as_str());
            push_str(&mut part, ")");
            assert(part@ =~= "(bold "@ + inline_text(t@.skip(3)) + ")"@);
            self.push_part(part);
            return;
        }
        if t[0] == '|' && t[t.len() - 1] == '|' {
            let cells = row_cells(t.as_slice());
            if is_separator_row(&cells) {
                return;
            }
            let mut refs: Vec<&str> = Vec::new();
            let mut i: usize = 0;
            while i < cells.len()
                invariant
                    i <= cells@.len(),
                    refs@.len() == i,
                    forall|j: int| 0 <= j < i ==> (#[trigger] refs@[j])@ == cells@[j]@,
                decreases cells@.len() - i,
            {
                refs.push(cells[i].as_str());
                i = i + 1;
            }
            assert(str_texts(refs@) =~= texts(cells@));
            match self.table.take() {
                Some(mut tb) => {
                    tb.add_row(refs.as_slice());
                    self.table = Some(tb);
                },
                None => {
                    let mut tb = TableBuilder::new();
                    tb.set_headers(refs.as_slice());
                    self.table = Some(tb);
                },
            }
            return;
        }
        self.flush();
        if has_prefix(t.as_slice(), "@(") && t[t.len() - 1] == ')' {
            proof {
                reveal_strlit("@(");
            }
            let expr = string_of(&t.as_slice()[1..t.len()]);
            assert(expr@ =~= t@.skip(1));
            self.push_part(expr);
        } else {
            let text = string_of(t.as_slice());
            let inner = process_inline(text.as_str());
            let mut part = string_of_lit("(text ");
            push_str(&mut part, inner.as_str());
            push_str(&mut part, ")");
            assert(part@ =~= "(text "@ + inline_text(t@) + ")"@);
            self.push_part(part);
        }
    }
}

/// Turn markup with @-expressions into Scheme: the Scheme lines, then a
/// `(render ...)` block of the rendered parts.
pub fn preprocess(source: &str) -> (r: String)
    ensures
        r@ == preprocessed(source@),
{
    let cs = chars_of(source);
    let lines = split_chars(cs.as_slice(), '\n');
    let ghost ls = char_texts(lines@);
    let ghost start = Prep { scheme: Seq::empty(), parts: Seq::empty(), table: None };
    let mut rd = Reader::new();
    let mut i: usize = 0;
    assert(ls.skip(0) =~= ls);
    while i < lines.len()
        invariant
            i <= lines@.len(),
            ls == char_texts(lines@),
            ls == split_at(source@, '\n'),
            prep_lines(rd.model(), ls.skip(i as int)) == prep_lines(start, ls),
        decreases lines@.len() - i,
    {
        let ghost m = rd.model();
        assert(ls.skip(i as int)[0] == lines@[i as int]@);
        assert(ls.skip(i as int).skip(1) =~= ls.skip(i + 1));
        rd.read_line(lines[i].as_slice());
        i = i + 1;
    }
    assert(ls.skip(i as int) =~= Seq::<Seq<char>>::empty());
    rd.flush();
    let ghost fin = rd.model();
    let mut out = String::new();
    let mut k: usize = 0;
    while k < rd.scheme.len()
        invariant
            k <= rd.scheme@.len(),
            fin == rd.model(),
            out@ == lines_text(fin.scheme.take(k as int)),
        decreases rd.scheme@.len() - k,
    {
        push_str(&mut out, rd.scheme[k].as_str());
        push_char(&mut out, '\n');
        assert(fin.scheme.take(k + 1).drop_last() =~= fin.scheme.take(k as int));
        assert(out@ =~= lines_text(fin.scheme.take(k + 1)));
        k = k + 1;
    }
    assert(fin.scheme.take(k as int) =~= fin.scheme);
    if rd.parts.len() > 0 {
        let ghost head = out@;
        push_str(&mut out, "(render\n");
        let mut j: usize = 0;
        assert(fin.parts.take(0) =~= Seq::<Seq<char>>::empty());
        assert(out@ =~= head + "(render\n"@ + parts_text(fin.parts.take(0)));
        while j < rd.parts.len()
            invariant
                j <= rd.parts@.len(),
                fin == rd.model(),
                out@ == head + "(render\n"@ + parts_text(fin.parts.take(j as int)),
            decreases rd.parts@.len() - j,
        {
            push_char(&mut out, ' ');
            push_char(&mut out, ' ');
            push_str(&mut out, rd.parts[j].as_str());
            push_char(&mut out, '\n');
            assert(fin.parts.take(j + 1).drop_last() =~= fin.parts.take(j as int));
            assert(out@ =~= head + "(render\n"@ + parts_text(fin.parts.take(j + 1)));
            j = j + 1;
        }
        assert(fin.parts.take(j as int) =~= fin.parts);
        push_str(&mut out, ")");
        assert(out@ =~= assemble(fin));
    } else {
        assert(out@ =~= assemble(fin));
    }
    out
}

/// A line that declares an input or an output port.
pub open spec fn is_declaration(line: Seq<char>) -> bool {
    starts(trim(line), "(input "@) || starts(trim(line), "(output "@)
}

/// The lines without the port declarations, in order.
pub open spec fn without_declarations(ls: Seq<Seq<char>>) -> Seq<Seq<char>>
    decreases ls.len(),
{
    if ls.len() == 0 {
        Seq::empty()
    } else if is_declaration(ls[0]) {
        without_declarations(ls.skip(1))
    } else {
        seq![ls[0]] + without_declarations(ls.skip(1))
    }
}

proof fn lemma_declarations_skipped(st: Prep, ls: Seq<Seq<char>>)
    ensures
        prep_lines(st, ls) == prep_lines(st, without_declarations(ls)),
    decreases ls.len(),
{
    if ls.len() > 0 {
        if is_declaration(ls[0]) {
            reveal_strlit("(input ");
            reveal_strlit("(output ");
            assert(trim(ls[0]).len() > 0);
            assert(prep_line(st, ls[0]) == st);
            lemma_declarations_skipped(st, ls.skip(1));
        } else {
            let rest = without_declarations(ls.skip(1));
            let w = seq![ls[0]] + rest;
            assert(w[0] == ls[0]);
            assert(w.skip(1) =~= rest);
            lemma_declarations_skipped(prep_line(st, ls[0]), ls.skip(1));
        }
    }
}

/// Input and output declarations are taken out and change nothing else: a
/// document preprocesses as it does without its declaration lines, and as
/// the empty document when it holds nothing but declarations.
pub proof fn lemma_declarations_ignored(source: Seq<char>, source2: Seq<char>)
    requires
        split_at(source2, '\n') == without_declarations(split_at(source, '\n')) || (source2.len() == 0
            && without_declarations(split_at(source, '\n')).len() == 0),
    ensures
        preprocessed(source) == preprocessed(source2),
{
    let start = Prep { scheme: Seq::empty(), parts: Seq::empty(), table: None };
    lemma_declarations_skipped(start, split_at(source, '\n'));
    if split_at(source2, '\n') != without_declarations(split_at(source, '\n')) {
        let lines2 = split_at(source2, '\n');
        assert(lines2 == seq![Seq::<char>::empty()]);
        assert(trim(lines2[0]).len() == 0);
        assert(prep_line(start, lines2[0]) == start);
        assert(lines2.skip(1) =~= Seq::<Seq<char>>::empty());
        assert(prep_lines(start, lines2.skip(1)) == start);
        assert(prep_lines(start, lines2) == start);
        assert(prep_lines(start, without_declarations(split_at(source, '\n'))) == start);
    }
}

} // verus!
verus! {

/// A line that reads as a table row: `|` at both ends once trimmed.
pub open spec fn table_line(line: Seq<char>) -> bool {
    let t = trim(line);
    t.len() > 0 && t[0] == '|' && t.last() == '|'
}

/// The cells of each row line that is not a separator row, in order.
pub open spec fn data_rows(lines: Seq<Seq<char>>) -> Seq<Seq<Seq<char>>>
    decreases lines.len(),
{
    if lines.len() == 0 {
        Seq::empty()
    } else {
        let cells = table_cells(trim(lines[0]));
        let rest = data_rows(lines.skip(1));
        if separator_row(cells) {
            rest
        } else {
            seq![cells] + rest
        }
    }
}

proof fn lemma_rows_collected(h: Seq<Seq<char>>, acc: Seq<Seq<Seq<char>>>, lines: Seq<Seq<char>>)
    requires
        forall|i: int| 0 <= i < lines.len() ==> table_line(#[trigger] lines[i]),
    ensures
        prep_lines(Prep { scheme: Seq::empty(), parts: Seq::empty(), table: Some((h, acc)) }, lines) == (Prep {
            scheme: Seq::empty(),
            parts: Seq::empty(),
            table: Some((h, acc + data_rows(lines))),
        }),
    decreases lines.len(),
{
    let st = Prep { scheme: Seq::empty(), parts: Seq::empty(), table: Some((h, acc)) };
    if lines.len() == 0 {
        assert(acc + data_rows(lines) =~= acc);
    } else {
        let t = trim(lines[0]);
        assert(table_line(lines[0]));
        reveal_strlit("(input ");
        reveal_strlit("(output ");
        reveal_strlit("---");
        reveal_strlit("***");
        reveal_strlit("___");
        reveal_strlit("# ");
        reveal_strlit("## ");
        assert(!starts(t, "(input "@)) by {
            if starts(t, "(input "@) {
                assert(t[0] == t.take(7)[0]);
            }
        }
        assert(!starts(t, "(output "@)) by {
            if starts(t, "(output "@) {
                assert(t[0] == t.take(8)[0]);
            }
        }
        assert(!starts(t, "# "@)) by {
            if starts(t, "# "@) {
                assert(t[0] == t.take(2)[0]);
            }
        }
        assert(!starts(t, "## "@)) by {
            if starts(t, "## "@) {
                assert(t[0] == t.take(3)[0]);
            }
        }
        assert(t != "---"@ && t != "***"@ && t != "___"@) by {
            if t == "---"@ || t == "***"@ || t == "___"@ {
                assert(t[0] != '|');
            }
        }
        let cells = table_cells(t);
        let rest = lines.skip(1);
        assert forall|i: int| 0 <= i < rest.len() implies table_line(#[trigger] rest[i]) by {
            assert(rest[i] == lines[i + 1]);
        }
        if separator_row(cells) {
            assert(prep_line(st, lines[0]) == st);
            lemma_rows_collected(h, acc, rest);
        } else {
            assert(prep_line(st, lines[0]) == (Prep {
                scheme: Seq::empty(),
                parts: Seq::empty(),
                table: Some((h, acc.push(cells))),
            }));
            lemma_rows_collected(h, acc.push(cells), rest);
            assert(acc.push(cells) + data_rows(rest) =~= acc + (seq![cells] + data_rows(rest)));
        }
    }
}

/// A document made of table row lines is one table: the first line gives the
/// headers, and every later line that is not a separator row gives one row,
/// in document order.
pub proof fn lemma_table_document(source: Seq<char>, header: Seq<char>, rows: Seq<Seq<char>>)
    requires
        split_at(source, '\n') == seq![header] + rows,
        table_line(header),
        !separator_row(table_cells(trim(header))),
        forall|i: int| 0 <= i < rows.len() ==> table_line(#[trigger] rows[i]),
    ensures
        preprocessed(source) == "(render\n  "@ + table_text(table_cells(trim(header)), data_rows(rows)) + "\n)"@,
        data_rows(rows).len() <= rows.len(),
{
    let lines = seq![header] + rows;
    let start = Prep { scheme: Seq::empty(), parts: Seq::empty(), table: None };
    let h = table_cells(trim(header));
    assert(lines[0] == header);
    assert(lines.skip(1) =~= rows);
    let t = trim(header);
    reveal_strlit("(input ");
    reveal_strlit("(output ");
    reveal_strlit("---");
    reveal_strlit("***");
    reveal_strlit("___");
    reveal_strlit("# ");
    reveal_strlit("## ");
    assert(!starts(t, "(input "@)) by {
        if starts(t, "(input "@) {
            assert(t[0] == t.take(7)[0]);
        }
    }
    assert(!starts(t, "(output "@)) by {
        if starts(t, "(output "@) {
            assert(t[0] == t.take(8)[0]);
        }
    }
    assert(!starts(t, "# "@)) by {
        if starts(t, "# "@) {
            assert(t[0] == t.take(2)[0]);
        }
    }
    assert(!starts(t, "## "@)) by {
        if starts(t, "## "@) {
            assert(t[0] == t.take(3)[0]);
        }
    }
    assert(t != "---"@ && t != "***"@ && t != "___"@) by {
        if t == "---"@ || t == "***"@ || t == "___"@ {
            assert(t[0] != '|');
        }
    }
    let st1 = Prep { scheme: Seq::empty(), parts: Seq::empty(), table: Some((h, Seq::empty())) };
    assert(prep_line(start, header) == st1);
    lemma_rows_collected(h, Seq::empty(), rows);
    assert(Seq::<Seq<Seq<char>>>::empty() + data_rows(rows) =~= data_rows(rows));
    let tt = table_text(h, data_rows(rows));
    let fin = Prep { scheme: Seq::empty(), parts: seq![tt], table: None };
    assert(flush_table(prep_lines(start, lines)) == fin) by {
        assert(Seq::<Seq<char>>::empty().push(tt) =~= seq![tt]);
    }
    assert(lines_text(Seq::<Seq<char>>::empty()) == Seq::<char>::empty());
    assert(seq![tt].drop_last() =~= Seq::<Seq<char>>::empty());
    assert(seq![tt].last() == tt);
    assert(parts_text(Seq::<Seq<char>>::empty()) == Seq::<char>::empty());
    assert(parts_text(seq![tt]) =~= seq![' ', ' '] + tt + seq!['\n']);
    reveal_strlit("(render\n");
    reveal_strlit(")");
    reveal_strlit("(render\n  ");
    reveal_strlit("\n)");
    assert(assemble(fin) =~= "(render\n  "@ + tt + "\n)"@);
    lemma_data_rows_len(rows);
}

proof fn lemma_data_rows_len(lines: Seq<Seq<char>>)
    ensures
        data_rows(lines).len() <= lines.len(),
    decreases lines.len(),
{
    if lines.len() > 0 {
        lemma_data_rows_len(lines.skip(1));
    }
}

} // verus!
verus! {

proof fn lemma_assemble_one_part(p: Seq<char>)
    ensures
        assemble(Prep { scheme: Seq::empty(), parts: seq![p], table: None }) == "(render\n  "@ + p + "\n)"@,
{
    reveal_strlit("(render\n");
    reveal_strlit(")");
    reveal_strlit("(render\n  ");
    reveal_strlit("\n)");
    assert(seq![p].last() == p);
    assert(seq![p].drop_last() =~= Seq::<Seq<char>>::empty());
    assert(parts_text(Seq::<Seq<char>>::empty()) == Seq::<char>::empty());
    assert(parts_text(seq![p]) =~= seq![' ', ' '] + p + seq!['\n']);
    assert(lines_text(Seq::<Seq<char>>::empty()) == Seq::<char>::empty());
    assert(assemble(Prep { scheme: Seq::empty(), parts: seq![p], table: None }) =~= "(render\n  "@ + p + "\n)"@);
}

/// What a one-line document becomes, by the kind of its trimmed line `t`:
/// nothing for a blank line, a declaration or a table separator; the line
/// itself for Scheme code; otherwise one render part: a rule, a bold heading,
/// a one-row table header, an `@` expression without its `@`, or a text.
pub proof fn lemma_single_line(source: Seq<char>, line: Seq<char>)
    requires
        split_at(source, '\n') == seq![line],
    ensures
        ({
            let t = trim(line);
            preprocessed(source) == if t.len() == 0 || starts(t, "(input "@) || starts(t, "(output "@) {
                Seq::<char>::empty()
            } else if t[0] == '(' {
                t + seq!['\n']
            } else if t == "---"@ || t == "***"@ || t == "___"@ {
                "(render\n  (hr)\n)"@
            } else if starts(t, "# "@) {
                "(render\n  (bold "@ + inline_text(t.skip(2)) + ")\n)"@
            } else if starts(t, "## "@) {
                "(render\n  (bold "@ + inline_text(t.skip(3)) + ")\n)"@
            } else if t[0] == '|' && t.last() == '|' {
                if separator_row(table_cells(t)) {
                    Seq::<char>::empty()
                } else {
                    "(render\n  "@ + table_text(table_cells(t), Seq::empty()) + "\n)"@
                }
            } else if starts(t, "@("@) && t.last() == ')' {
                "(render\n  "@ + t.skip(1) + "\n)"@
            } else {
                "(render\n  (text "@ + inline_text(t) + ")\n)"@
            }
        }),
{
    let t = trim(line);
    let start = Prep { scheme: Seq::empty(), parts: Seq::empty(), table: None };
    let lines = seq![line];
    assert(lines[0] == line);
    assert(lines.skip(1) =~= Seq::<Seq<char>>::empty());
    assert(prep_lines(prep_line(start, line), lines.skip(1)) == prep_line(start, line));
    let st = prep_line(start, line);
    assert(preprocessed(source) == assemble(flush_table(st)));
    reveal_strlit("(render\n");
    reveal_strlit(")");
    reveal_strlit("(render\n  ");
    reveal_strlit("\n)");
    reveal_strlit("(hr)");
    reveal_strlit("(render\n  (hr)\n)");
    reveal_strlit("(bold ");
    reveal_strlit("(render\n  (bold ");
    reveal_strlit(")\n)");
    reveal_strlit("(text ");
    reveal_strlit("(render\n  (text ");
    assert(lines_text(Seq::<Seq<char>>::empty()) == Seq::<char>::empty());
    if t.len() == 0 || starts(t, "(input "@) || starts(t, "(output "@) {
        assert(flush_table(st) == start);
    } else if t[0] == '(' {
        let fin = Prep { scheme: seq![t], parts: Seq::empty(), table: None };
        assert(Seq::<Seq<char>>::empty().push(t) =~= seq![t]);
        assert(flush_table(st) == fin);
        assert(seq![t].drop_last() =~= Seq::<Seq<char>>::empty());
        assert(seq![t].last() == t);
        assert(lines_text(seq![t]) =~= t + seq!['\n']);
        assert(assemble(fin) =~= t + seq!['\n']);
    } else {
        let p = if t == "---"@ || t == "***"@ || t == "___"@ {
            "(hr)"@
        } else if starts(t, "# "@) {
            "(bold "@ + inline_text(t.skip(2)) + ")"@
        } else if starts(t, "## "@) {
            "(bold "@ + inline_text(t.skip(3)) + ")"@
        } else if t[0] == '|' && t.last() == '|' {
            table_text(table_cells(t), Seq::empty())
        } else if starts(t, "@("@) && t.last() == ')' {
            t.skip(1)
        } else {
            "(text "@ + inline_text(t) + ")"@
        };
        if t[0] == '|' && t.last() == '|' && separator_row(table_cells(t)) && !(t == "---"@ || t == "***"@
            || t == "___"@) && !starts(t, "# "@) && !starts(t, "## "@) {
            assert(flush_table(st) == start);
        } else {
            assert(Seq::<Seq<char>>::empty().push(p) =~= seq![p]);
            assert(flush_table(st) == Prep { scheme: Seq::empty(), parts: seq![p], table: None });
            lemma_assemble_one_part(p);
            assert(("(render\n  "@ + p + "\n)"@) =~= if t == "---"@ || t == "***"@ || t == "___"@ {
                "(render\n  (hr)\n)"@
            } else if starts(t, "# "@) {
                "(render\n  (bold "@ + inline_text(t.skip(2)) + ")\n)"@
            } else if starts(t, "## "@) {
                "(render\n  (bold "@ + inline_text(t.skip(3)) + ")\n)"@
            } else if t[0] == '|' && t.last() == '|' {
                "(render\n  "@ + table_text(table_cells(t), Seq::empty()) + "\n)"@
            } else if starts(t, "@("@) && t.last() == ')' {
                "(render\n  "@ + t.skip(1) + "\n)"@
            } else {
                "(render\n  (text "@ + inline_text(t) + ")\n)"@
            });
        }
    }
}

} // verus!
