use crate::bytes::{digits_upto, digits_within, unsigned_digits};
use crate::text::{decode_text, push_char, push_decimal_text, push_str, string_from};
use crate::paths::{file_stem, path_stem, path_with_file_name, with_file_name};
use vstd::prelude::*;
use vstd::utf8::*;

verus! {

/// Undo/redo history of graph snapshots (their serialized text). `current`
/// counts the snapshots up to and including the one on screen.
pub struct UndoHistory {
    states: Vec<String>,
    current: usize,
    max_size: usize,
}

/// The snapshots after pushing `s` onto the history `states` whose cursor is
/// at `current`: later snapshots are dropped, and the oldest one when the
/// history would grow past `max_size`.
pub open spec fn pushed(states: Seq<Seq<char>>, current: nat, max_size: nat, s: Seq<char>) -> Seq<Seq<char>> {
    let kept = states.take(current as int).push(s);
    if kept.len() > max_size {
        kept.skip(1)
    } else {
        kept
    }
}

impl UndoHistory {
    /// The snapshots, oldest first.
    pub closed spec fn snapshots(&self) -> Seq<Seq<char>> {
        Seq::new(self.states@.len(), |i: int| self.states@[i]@)
    }

    /// How many snapshots are undone-to: the one on screen is `snapshots()[cursor() - 1]`.
    pub closed spec fn cursor(&self) -> nat {
        self.current as nat
    }

    /// The most snapshots kept.
    pub closed spec fn capacity(&self) -> nat {
        self.max_size as nat
    }

    /// The cursor lies within the snapshots.
    pub closed spec fn wf(&self) -> bool {
        self.current <= self.states@.len()
    }

    /// An empty history keeping at most `max_size` snapshots.
    pub fn new(max_size: usize) -> (r: UndoHistory)
        ensures
            r.wf(),
            r.snapshots() == Seq::<Seq<char>>::empty(),
            r.cursor() == 0,
            r.capacity() == max_size,
    {
        let r = UndoHistory { states: Vec::new(), current: 0, max_size };
        assert(r.snapshots() =~= Seq::<Seq<char>>::empty());
        r
    }

    /// Record a new snapshot: snapshots after the cursor are dropped, the
    /// oldest is dropped past the capacity, and the cursor moves to the end.
    pub fn push(&mut self, snapshot: String)
        requires
            old(self).wf(),
        ensures
            final(self).wf(),
            final(self).snapshots() == pushed(old(self).snapshots(), old(self).cursor(), old(self).capacity(), snapshot@),
            final(self).cursor() == final(self).snapshots().len(),
            final(self).capacity() == old(self).capacity(),
    {
        let ghost s = snapshot@;
        if self.current < self.states.len() {
            self.states.truncate(self.current);
        }
        self.states.push(snapshot);
        let ghost kept = old(self).snapshots().take(old(self).cursor() as int).push(s);
        assert(self.snapshots() =~= kept);
        if self.states.len() > self.max_size {
            self.states.remove(0);
            assert(self.snapshots() =~= kept.skip(1));
        }
        self.current = self.states.len();
    }

    /// Step back: the snapshot before the one on screen, if there is one.
    pub fn undo(&mut self) -> (r: Option<String>)
        requires
            old(self).wf(),
        ensures
            final(self).wf(),
            final(self).snapshots() == old(self).snapshots(),
            final(self).capacity() == old(self).capacity(),
            (final(self).cursor(), text_option(r)) == undone(old(self).snapshots(), old(self).cursor()),
    {
        if self.current > 1 {
            self.current = self.current - 1;
            Some(self.states[self.current - 1].clone())
        } else {
            None
        }
    }

    /// Step forward again: the snapshot after the one on screen, if any.
    pub fn redo(&mut self) -> (r: Option<String>)
        requires
            old(self).wf(),
        ensures
            final(self).wf(),
            final(self).snapshots() == old(self).snapshots(),
            final(self).capacity() == old(self).capacity(),
            (final(self).cursor(), text_option(r)) == redone(old(self).snapshots(), old(self).cursor()),
    {
        if self.current < self.states.len() {
            self.current = self.current + 1;
            Some(self.states[self.current - 1].clone())
        } else {
            None
        }
    }

    /// Whether there is a snapshot to step back to.
    pub fn can_undo(&self) -> (r: bool)
        ensures
            r == (self.cursor() > 1),
    {
        self.current > 1
    }

    /// Whether there is a snapshot to step forward to.
    pub fn can_redo(&self) -> (r: bool)
        ensures
            r == (self.cursor() < self.snapshots().len()),
    {
        self.current < self.states.len()
    }
}

/// The text of an optional string.
pub open spec fn text_option(t: Option<String>) -> Option<Seq<char>> {
    match t {
        Some(s) => Some(s@),
        None => None,
    }
}

/// Stepping back from cursor `cursor`: the new cursor and the snapshot now
/// on screen, or the same cursor and nothing at the first snapshot.
pub open spec fn undone(snapshots: Seq<Seq<char>>, cursor: nat) -> (nat, Option<Seq<char>>) {
    if cursor > 1 {
        ((cursor - 1) as nat, Some(snapshots[cursor - 2]))
    } else {
        (cursor, None)
    }
}

/// Stepping forward from cursor `cursor`: the new cursor and the snapshot
/// now on screen, or the same cursor and nothing at the last snapshot.
pub open spec fn redone(snapshots: Seq<Seq<char>>, cursor: nat) -> (nat, Option<Seq<char>>) {
    if cursor < snapshots.len() {
        (cursor + 1, Some(snapshots[cursor as int]))
    } else {
        (cursor, None)
    }
}

/// Redo takes back an undo: stepping back and then forward again returns
/// to the same cursor, with the snapshot that was on screen before.
pub proof fn lemma_redo_after_undo(snapshots: Seq<Seq<char>>, cursor: nat)
    requires
        1 < cursor <= snapshots.len(),
    ensures
        redone(snapshots, undone(snapshots, cursor).0) == (cursor, Some(snapshots[cursor - 1])),
{
}

/// After a push the history never holds more than its capacity (when the
/// capacity is at least one), and the pushed snapshot is the one on screen.
pub proof fn lemma_push_bounded(states: Seq<Seq<char>>, current: nat, max_size: nat, s: Seq<char>)
    requires
        current <= states.len(),
        states.len() <= max_size,
        max_size >= 1,
    ensures
        pushed(states, current, max_size, s).len() <= max_size,
        pushed(states, current, max_size, s).last() == s,
{
}

/// Undoing right after a push gives back the snapshot that was on screen
/// before the push, when the capacity keeps it.
pub proof fn lemma_undo_after_push(states: Seq<Seq<char>>, current: nat, max_size: nat, s: Seq<char>)
    requires
        1 <= current <= states.len(),
        current + 1 <= max_size,
    ensures
        ({
            let after = pushed(states, current, max_size, s);
            &&& after.len() == current + 1
            &&& after.len() > 1
            &&& after[after.len() - 2] == states[current - 1]
        }),
{
}



/// The snapshots after pushing each of `ss` in turn onto an empty history
/// (after a push the cursor is at the end).
pub open spec fn pushed_all(max_size: nat, ss: Seq<Seq<char>>) -> Seq<Seq<char>>
    decreases ss.len(),
{
    if ss.len() == 0 {
        Seq::empty()
    } else {
        let h = pushed_all(max_size, ss.drop_last());
        pushed(h, h.len(), max_size, ss.last())
    }
}

/// After `k` pushes onto a new history of capacity at least one, it holds
/// `min(k, capacity)` snapshots, the cursor at the last: so it can undo
/// exactly when that is at least two, and cannot redo.
pub proof fn lemma_pushes_kept(max_size: nat, ss: Seq<Seq<char>>)
    requires
        max_size >= 1,
    ensures
        pushed_all(max_size, ss).len() == if ss.len() < max_size {
            ss.len()
        } else {
            max_size
        },
    decreases ss.len(),
{
    if ss.len() > 0 {
        lemma_pushes_kept(max_size, ss.drop_last());
        let h = pushed_all(max_size, ss.drop_last());
        assert(h.take(h.len() as int) =~= h);
    }
}

/// Pushing one more snapshot onto the history left by pushes is one more
/// step of `pushed_all`.
pub proof fn lemma_pushed_all_push(max_size: nat, ss: Seq<Seq<char>>, s: Seq<char>)
    ensures
        pushed_all(max_size, ss.push(s)) == pushed(
            pushed_all(max_size, ss),
            pushed_all(max_size, ss).len(),
            max_size,
            s,
        ),
{
    assert(ss.push(s).drop_last() =~= ss);
}

/// A history that `k` pushes left (its snapshots those of `pushed_all`, its
/// cursor at the last) can undo exactly when `min(k, capacity)` is at least
/// two, and cannot redo.
pub proof fn lemma_undo_after_pushes(h: UndoHistory, ss: Seq<Seq<char>>)
    requires
        h.wf(),
        h.capacity() >= 1,
        h.snapshots() == pushed_all(h.capacity(), ss),
        h.cursor() == h.snapshots().len(),
    ensures
        (h.cursor() > 1) == ((if ss.len() < h.capacity() {
            ss.len()
        } else {
            h.capacity()
        }) >= 2),
        !(h.cursor() < h.snapshots().len()),
{
    lemma_pushes_kept(h.capacity(), ss);
}

// ---------------------------------------------------------------------
// Reading the `.scm` graph format
// ---------------------------------------------------------------------

/// ASCII white space, as `u8::is_ascii_whitespace` has it.
pub open spec fn ascii_ws(b: u8) -> bool {
    b == 32u8 || b == 9u8 || b == 10u8 || b == 12u8 || b == 13u8
}

/// The first position at or after `i` that is not ASCII white space.
pub open spec fn skip_ws_spec(s: Seq<u8>, i: int) -> int
    decreases s.len() - i,
{
    if 0 <= i < s.len() && ascii_ws(s[i]) {
        skip_ws_spec(s, i + 1)
    } else {
        i
    }
}

/// A byte that ends a token: white space, a parenthesis or a double quote.
pub open spec fn token_stop(b: u8) -> bool {
    ascii_ws(b) || b == 40u8 || b == 41u8 || b == 34u8
}

/// The end of the token that starts at `i`.
pub open spec fn token_end(s: Seq<u8>, i: int) -> int
    decreases s.len() - i,
{
    if 0 <= i < s.len() && !token_stop(s[i]) {
        token_end(s, i + 1)
    } else {
        i
    }
}

/// The first newline at or after `i`, or the end.
pub open spec fn line_end(s: Seq<u8>, i: int) -> int
    decreases s.len() - i,
{
    if 0 <= i < s.len() && s[i] != 10u8 {
        line_end(s, i + 1)
    } else {
        i
    }
}

/// Inside a string literal from `i`: the position of its closing quote (a
/// backslash skips the byte after it), or past the end.
pub open spec fn string_end(s: Seq<u8>, i: int) -> int
    decreases s.len() + 2 - i,
{
    if i < 0 || i >= s.len() {
        i
    } else if s[i] == 92u8 {
        string_end(s, i + 2)
    } else if s[i] == 34u8 {
        i
    } else {
        string_end(s, i + 1)
    }
}

pub proof fn lemma_scan_bounds(s: Seq<u8>, i: int)
    requires
        0 <= i,
    ensures
        i <= skip_ws_spec(s, i),
        i <= token_end(s, i),
        i <= line_end(s, i),
        i <= string_end(s, i),
        i <= s.len() ==> skip_ws_spec(s, i) <= s.len() && token_end(s, i) <= s.len() && line_end(s, i)
            <= s.len(),
        i <= s.len() + 1 ==> string_end(s, i) <= s.len() + 1,
        i >= s.len() ==> string_end(s, i) == i,
    decreases s.len() + 2 - i,
{
    if i < s.len() {
        lemma_scan_bounds(s, i + 1);
        lemma_scan_bounds(s, i + 2);
    }
}

/// The position of the parenthesis that closes the expression scanned from
/// `i` with nesting `depth`; parentheses in strings and `;` comments do not count.
pub open spec fn sexp_end(s: Seq<u8>, i: int, depth: int) -> Option<int>
    decreases s.len() + 3 - i,
{
    if i < 0 || i >= s.len() {
        None
    } else if s[i] == 59u8 {
        let j = line_end(s, i);
        proof {
            lemma_scan_bounds(s, i);
        }
        if j <= i {
            None
        } else {
            sexp_end(s, j, depth)
        }
    } else if s[i] == 34u8 {
        let j = string_end(s, i + 1);
        proof {
            lemma_scan_bounds(s, i + 1);
        }
        sexp_end(s, j + 1, depth)
    } else if s[i] == 40u8 {
        sexp_end(s, i + 1, depth + 1)
    } else if s[i] == 41u8 {
        if depth - 1 == 0 {
            Some(i)
        } else {
            sexp_end(s, i + 1, depth - 1)
        }
    } else {
        sexp_end(s, i + 1, depth)
    }
}

/// The text of a string literal read from `i` (just after its opening quote),
/// each byte taken as the character of the same code, with `\n`, `\t`, `\\`
/// and `\"` unescaped; and the position after the closing quote (or the end).
pub open spec fn quoted_from(s: Seq<u8>, i: int) -> (Seq<char>, int)
    decreases s.len() - i,
{
    if i < 0 || i >= s.len() {
        (Seq::empty(), i)
    } else if s[i] == 92u8 && i + 1 < s.len() {
        let c = s[i + 1];
        let esc = if c == 110u8 {
            seq!['\n']
        } else if c == 116u8 {
            seq!['\t']
        } else if c == 92u8 {
            seq!['\\']
        } else if c == 34u8 {
            seq!['"']
        } else {
            seq!['\\', c as char]
        };
        let rest = quoted_from(s, i + 2);
        (esc + rest.0, rest.1)
    } else if s[i] == 34u8 {
        (Seq::empty(), i + 1)
    } else {
        let rest = quoted_from(s, i + 1);
        (seq![s[i] as char] + rest.0, rest.1)
    }
}

/// Skip ASCII white space from `pos`.
pub fn skip_ws(src: &[u8], pos: usize) -> (r: usize)
    ensures
        r == skip_ws_spec(src@, pos as int),
{
    let mut i = pos;
    while i < src.len() && (src[i] == 32u8 || src[i] == 9u8 || src[i] == 10u8 || src[i] == 12u8 || src[i] == 13u8)
        invariant
            pos <= i,
            skip_ws_spec(src@, pos as int) == skip_ws_spec(src@, i as int),
        decreases src@.len() - i,
    {
        i = i + 1;
    }
    i
}

/// The token (word or number) at `pos`, and the position after it.
pub fn read_token(src: &[u8], pos: usize) -> (r: (&[u8], usize))
    requires
        pos <= src@.len(),
    ensures
        r.1 == token_end(src@, pos as int),
        r.0@ == src@.subrange(pos as int, r.1 as int),
{
    let mut i = pos;
    while i < src.len() && !(src[i] == 32u8 || src[i] == 9u8 || src[i] == 10u8 || src[i] == 12u8 || src[i]
        == 13u8 || src[i] == 40u8 || src[i] == 41u8 || src[i] == 34u8)
        invariant
            pos <= i <= src@.len(),
            token_end(src@, pos as int) == token_end(src@, i as int),
        decreases src@.len() - i,
    {
        i = i + 1;
    }
    (&src[pos..i], i)
}

/// Skip spaces and tabs, then one line break (`\n` or `\r\n`) if there is one.
pub open spec fn skip_blank_spec(s: Seq<u8>, i: int) -> int {
    let j = blank_end(s, i);
    if j < s.len() && s[j] == 10u8 {
        j + 1
    } else if j + 1 < s.len() && s[j] == 13u8 && s[j + 1] == 10u8 {
        j + 2
    } else {
        j
    }
}

/// The first position at or after `i` that is not a space or tab.
pub open spec fn blank_end(s: Seq<u8>, i: int) -> int
    decreases s.len() - i,
{
    if 0 <= i < s.len() && (s[i] == 32u8 || s[i] == 9u8) {
        blank_end(s, i + 1)
    } else {
        i
    }
}

/// Skip spaces and tabs, then at most one line break.
pub fn skip_ws_preserve_newlines(src: &[u8], pos: usize) -> (r: usize)
    requires
        pos <= src@.len(),
        src@.len() < usize::MAX,
    ensures
        r == skip_blank_spec(src@, pos as int),
{
    let mut i = pos;
    while i < src.len() && (src[i] == 32u8 || src[i] == 9u8)
        invariant
            pos <= i <= src@.len(),
            blank_end(src@, pos as int) == blank_end(src@, i as int),
        decreases src@.len() - i,
    {
        i = i + 1;
    }
    if i < src.len() && src[i] == 10u8 {
        i + 1
    } else if i + 1 < src.len() && src[i] == 13u8 && src[i + 1] == 10u8 {
        i + 2
    } else {
        i
    }
}

/// The position of the parenthesis closing the expression that starts at
/// `start`; none when it never closes.
pub fn find_sexp_end(src: &[u8], start: usize) -> (r: Option<usize>)
    requires
        src@.len() < i32::MAX,
    ensures
        match r {
            Some(e) => sexp_end(src@, start as int, 0) == Some(e as int),
            None => sexp_end(src@, start as int, 0) is None,
        },
{
    let mut depth: i64 = 0;
    let mut i = start;
    if i >= src.len() {
        return None;
    }
    while i < src.len()
        invariant
            src@.len() < i32::MAX,
            start <= i,
            -(i - start) <= depth <= i - start,
            i <= src@.len() + 2,
            sexp_end(src@, start as int, 0) == sexp_end(src@, i as int, depth as int),
        decreases src@.len() + 3 - i,
    {
        let b = src[i];
        if b == 59u8 {
            let ghost i0 = i as int;
            while i < src.len() && src[i] != 10u8
                invariant
                    i0 <= i <= src@.len(),
                    line_end(src@, i0) == line_end(src@, i as int),
                decreases src@.len() - i,
            {
                i = i + 1;
            }
            proof {
                lemma_scan_bounds(src@, i0);
                assert(line_end(src@, i0) > i0);
            }
        } else if b == 34u8 {
            let ghost i0 = i as int;
            i = i + 1;
            proof {
                lemma_scan_bounds(src@, i0 + 1);
            }
            while i < src.len()
                invariant_except_break
                    src@.len() < i32::MAX,
                    i0 + 1 <= i <= src@.len() + 1,
                    string_end(src@, i0 + 1) == string_end(src@, i as int),
                ensures
                    i0 + 1 <= i <= src@.len() + 1,
                    string_end(src@, i0 + 1) == i,
                decreases src@.len() + 1 - i,
            {
                if src[i] == 92u8 {
                    i = i + 2;
                    continue;
                }
                if src[i] == 34u8 {
                    break;
                }
                i = i + 1;
            }
            proof {
                lemma_scan_bounds(src@, i as int);
            }
            i = i + 1;
        } else if b == 40u8 {
            depth = depth + 1;
            i = i + 1;
        } else if b == 41u8 {
            depth = depth - 1;
            if depth == 0 {
                return Some(i);
            }
            i = i + 1;
        } else {
            i = i + 1;
        }
    }
    None
}

/// A string literal at `pos` (which holds its opening quote): its text, each
/// byte read as the character of that code with simple escapes undone, and
/// the position after its closing quote.
pub fn parse_quoted(src: &[u8], pos: usize) -> (r: (String, usize))
    requires
        pos < usize::MAX,
        src@.len() < usize::MAX,
    ensures
        r.0@ == quoted_from(src@, pos + 1).0,
        r.1 == quoted_from(src@, pos + 1).1,
{
    let mut i = pos + 1;
    let mut result = String::new();
    let ghost start = (pos + 1) as int;
    while i < src.len()
        invariant
            start == pos + 1,
            start <= i,
            src@.len() < usize::MAX,
            result@ + quoted_from(src@, i as int).0 == quoted_from(src@, start).0,
            quoted_from(src@, i as int).1 == quoted_from(src@, start).1,
        decreases src@.len() - i,
    {
        let ghost before = result@;
        if src[i] == 92u8 && i + 1 < src.len() {
            let c = src[i + 1];
            if c == 110u8 {
                push_char(&mut result, '\n');
            } else if c == 116u8 {
                push_char(&mut result, '\t');
            } else if c == 92u8 {
                push_char(&mut result, '\\');
            } else if c == 34u8 {
                push_char(&mut result, '"');
            } else {
                push_char(&mut result, '\\');
                push_char(&mut result, c as char);
            }
            proof {
                let rest = quoted_from(src@, i + 2);
                assert(result@ + rest.0 =~= before + quoted_from(src@, i as int).0);
            }
            i = i + 2;
        } else if src[i] == 34u8 {
            assert(quoted_from(src@, i as int) == (Seq::<char>::empty(), i + 1));
            assert(result@ + quoted_from(src@, i as int).0 =~= result@);
            return (result, i + 1);
        } else {
            push_char(&mut result, src[i] as char);
            proof {
                let rest = quoted_from(src@, i + 1);
                assert(result@ + rest.0 =~= before + quoted_from(src@, i as int).0);
            }
            i = i + 1;
        }
    }
    assert(result@ + quoted_from(src@, i as int).0 =~= result@);
    (result, i)
}

/// An unsigned decimal as `u64::from_str` reads it.
pub open spec fn parse_u64_spec(s: Seq<u8>) -> Option<nat> {
    digits_within(unsigned_digits(s), u64::MAX as nat)
}

fn parse_u64(s: &[u8]) -> (r: Option<u64>)
    ensures
        match r {
            Some(v) => parse_u64_spec(s@) == Some(v as nat),
            None => parse_u64_spec(s@) is None,
        },
{
    let d = if s.len() > 0 && s[0] == 43u8 {
        &s[1..s.len()]
    } else {
        s
    };
    assert(d@ =~= unsigned_digits(s@));
    digits_upto(d, u64::MAX)
}

/// A token shown in a message: its text when it is valid UTF-8.
pub open spec fn token_text(t: Seq<u8>) -> Seq<char> {
    if valid_utf8(t) {
        decode_utf8(t)
    } else {
        Seq::empty()
    }
}

fn push_token(out: &mut String, t: &[u8])
    ensures
        final(out)@ == old(out)@ + token_text(t@),
{
    match decode_text(t) {
        Some(text) => push_str(out, text.as_str()),
        None => {
            assert(old(out)@ + token_text(t@) =~= old(out)@);
        },
    }
}

/// A connection between two node ports.
#[derive(Debug, Clone, PartialEq)]
pub struct Connection {
    pub id: u64,
    pub from_node: u64,
    pub from_port: String,
    pub to_node: u64,
    pub to_port: String,
}

/// Reading `(from NODE "port")` or `(to NODE "port")`: the node id and port.
pub open spec fn endpoint_spec(f: Seq<u8>) -> Result<(nat, Seq<char>), Seq<char>> {
    let p = skip_ws_spec(f, 1);
    let p2 = token_end(f, p);
    let p3 = skip_ws_spec(f, p2);
    let p4 = token_end(f, p3);
    let tok = f.subrange(p3, p4);
    match parse_u64_spec(tok) {
        None => Err("Bad node id in endpoint: "@ + token_text(tok)),
        Some(n) => Ok((n, quoted_from(f, skip_ws_spec(f, p4) + 1).0)),
    }
}

/// Parse `(from NODE "port")` or `(to NODE "port")`.
pub fn parse_endpoint(form: &[u8]) -> (r: Result<(u64, String), String>)
    requires
        1 <= form@.len() < usize::MAX,
    ensures
        match r {
            Ok((n, port)) => endpoint_spec(form@) == Ok::<(nat, Seq<char>), Seq<char>>((n as nat, port@)),
            Err(e) => endpoint_spec(form@) == Err::<(nat, Seq<char>), Seq<char>>(e@),
        },
{
    proof {
        lemma_scan_bounds(form@, 1);
    }
    let p = skip_ws(form, 1);
    proof {
        lemma_scan_bounds(form@, p as int);
    }
    let (_, p2) = read_token(form, p);
    proof {
        lemma_scan_bounds(form@, p2 as int);
    }
    let p3 = skip_ws(form, p2);
    proof {
        lemma_scan_bounds(form@, p3 as int);
    }
    let (tok, p4) = read_token(form, p3);
    match parse_u64(tok) {
        None => {
            let mut msg = string_from("Bad node id in endpoint: ");
            push_token(&mut msg, tok);
            Err(msg)
        },
        Some(n) => {
            proof {
                lemma_scan_bounds(form@, p4 as int);
            }
            let q = skip_ws(form, p4);
            let (port, _) = parse_quoted(form, q);
            Ok((n, port))
        },
    }
}

pub proof fn lemma_sexp_end_bounds(s: Seq<u8>, i: int, depth: int)
    requires
        0 <= i,
    ensures
        sexp_end(s, i, depth) matches Some(e) ==> i <= e < s.len(),
    decreases s.len() + 3 - i,
{
    if i < s.len() {
        lemma_scan_bounds(s, i);
        lemma_scan_bounds(s, i + 1);
        if s[i] == 59u8 {
            let j = line_end(s, i);
            if j > i {
                lemma_sexp_end_bounds(s, j, depth);
            }
        } else if s[i] == 34u8 {
            let j = string_end(s, i + 1);
            lemma_sexp_end_bounds(s, j + 1, depth);
        } else {
            lemma_sexp_end_bounds(s, i + 1, depth + 1);
            lemma_sexp_end_bounds(s, i + 1, depth - 1);
            lemma_sexp_end_bounds(s, i + 1, depth);
        }
    }
}

/// Reading `(connection ID (from NODE "port") (to NODE "port"))`: the id,
/// then the two endpoints.
pub open spec fn connection_spec(f: Seq<u8>) -> Result<(nat, (nat, Seq<char>), (nat, Seq<char>)), Seq<char>> {
    let p = skip_ws_spec(f, 1);
    let p1 = skip_ws_spec(f, token_end(f, p));
    let id_end = token_end(f, p1);
    let tok = f.subrange(p1, id_end);
    match parse_u64_spec(tok) {
        None => Err("Bad connection id: "@ + token_text(tok)),
        Some(id) => {
            let q = skip_ws_spec(f, id_end);
            match sexp_end(f, q, 0) {
                None => Err("Bad from in connection "@ + crate::text::decimal_text(id)),
                Some(fe) => match endpoint_spec(f.subrange(q, fe + 1)) {
                    Err(e) => Err(e),
                    Ok(from) => {
                        let r = skip_ws_spec(f, fe + 1);
                        match sexp_end(f, r, 0) {
                            None => Err("Bad to in connection "@ + crate::text::decimal_text(id)),
                            Some(te) => match endpoint_spec(f.subrange(r, te + 1)) {
                                Err(e) => Err(e),
                                Ok(to) => Ok((id, from, to)),
                            },
                        }
                    },
                },
            }
        },
    }
}

/// Parse `(connection ID (from NODE "port") (to NODE "port"))`.
pub fn parse_connection_form(form: &[u8]) -> (r: Result<Connection, String>)
    requires
        1 <= form@.len() < i32::MAX,
    ensures
        match r {
            Ok(c) => connection_spec(form@) == Ok::<(nat, (nat, Seq<char>), (nat, Seq<char>)), Seq<char>>(
                (c.id as nat, (c.from_node as nat, c.from_port@), (c.to_node as nat, c.to_port@)),
            ),
            Err(e) => connection_spec(form@) == Err::<(nat, (nat, Seq<char>), (nat, Seq<char>)), Seq<char>>(e@),
        },
{
    proof {
        lemma_scan_bounds(form@, 1);
    }
    let p = skip_ws(form, 1);
    proof {
        lemma_scan_bounds(form@, p as int);
    }
    let (_, p2) = read_token(form, p);
    proof {
        lemma_scan_bounds(form@, p2 as int);
    }
    let p1 = skip_ws(form, p2);
    proof {
        lemma_scan_bounds(form@, p1 as int);
    }
    let (tok, id_end) = read_token(form, p1);
    let id = match parse_u64(tok) {
        Some(n) => n,
        None => {
            let mut msg = string_from("Bad connection id: ");
            push_token(&mut msg, tok);
            return Err(msg);
        },
    };
    proof {
        lemma_scan_bounds(form@, id_end as int);
    }
    let q = skip_ws(form, id_end);
    let fe = match find_sexp_end(form, q) {
        Some(e) => e,
        None => {
            let mut msg = string_from("Bad from in connection ");
            push_decimal_text(&mut msg, id);
            return Err(msg);
        },
    };
    proof {
        lemma_sexp_end_bounds(form@, q as int, 0);
    }
    let from_form = &form[q..fe + 1];
    assert(from_form@ =~= form@.subrange(q as int, fe + 1));
    let (from_node, from_port) = match parse_endpoint(from_form) {
        Ok(x) => x,
        Err(e) => {
            return Err(e);
        },
    };
    proof {
        lemma_scan_bounds(form@, fe + 1);
    }
    let r0 = skip_ws(form, fe + 1);
    let te = match find_sexp_end(form, r0) {
        Some(e) => e,
        None => {
            let mut msg = string_from("Bad to in connection ");
            push_decimal_text(&mut msg, id);
            return Err(msg);
        },
    };
    proof {
        lemma_sexp_end_bounds(form@, r0 as int, 0);
    }
    let to_form = &form[r0..te + 1];
    assert(to_form@ =~= form@.subrange(r0 as int, te + 1));
    let (to_node, to_port) = match parse_endpoint(to_form) {
        Ok(x) => x,
        Err(e) => {
            return Err(e);
        },
    };
    Ok(Connection { id, from_node, from_port, to_node, to_port })
}
/// The file that the database of a graph file is kept in: `graph.json`
/// gives `graph.db.json` in the same directory.
pub open spec fn db_path_of(graph_path: Seq<char>) -> Seq<char> {
    let stem = match path_stem(graph_path) {
        Some(s) => s,
        None => Seq::empty(),
    };
    path_with_file_name(graph_path, stem + ".db.json"@)
}

/// The file that the database of the graph file at `graph_path` is kept in.
pub fn db_path_for(graph_path: &str) -> (r: String)
    ensures
        r@ == db_path_of(graph_path@),
{
    let mut name = match file_stem(graph_path) {
        Some(s) => s,
        None => String::new(),
    };
    push_str(&mut name, ".db.json");
    with_file_name(graph_path, name.as_str())
}

} // verus!
