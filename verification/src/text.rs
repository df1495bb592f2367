use vstd::prelude::*;
use vstd::string::StringSliceAdditionalSpecFns;
use vstd::utf8::*;

verus! {

/// `String::push`: appends one character.
#[verifier::external_body]
pub(crate) fn push_char(s: &mut String, c: char)
    ensures
        final(s)@ == old(s)@.push(c),
{
    s.push(c);
}

/// The characters of a string, in order.
pub fn chars_of(s: &str) -> (r: Vec<char>)
    ensures
        r@ == s@,
{
    let mut out: Vec<char> = Vec::new();
    for c in it: s.chars()
        invariant
            out@ == it.seq().take(it.index() as int),
    {
        out.push(c);
    }
    out
}

/// A string made of the given characters.
pub fn string_of(cs: &[char]) -> (r: String)
    ensures
        r@ == cs@,
{
    let mut out = String::new();
    let mut i: usize = 0;
    while i < cs.len()
        invariant
            i <= cs@.len(),
            out@ == cs@.take(i as int),
        decreases cs@.len() - i,
    {
        push_char(&mut out, cs[i]);
        i = i + 1;
        assert(out@ =~= cs@.take(i as int));
    }
    assert(cs@.take(i as int) =~= cs@);
    out
}

/// Whether two strings hold the same characters.
pub fn text_eq(a: &str, b: &str) -> (r: bool)
    ensures
        r == (a@ == b@),
{
    let x = a.as_bytes();
    let y = b.as_bytes();
    proof {
        vstd::utf8::encode_utf8_decode_utf8(a@);
        vstd::utf8::encode_utf8_decode_utf8(b@);
    }
    if x.len() != y.len() {
        return false;
    }
    let mut i: usize = 0;
    while i < x.len()
        invariant
            i <= x@.len(),
            x@.len() == y@.len(),
            x@ == vstd::utf8::encode_utf8(a@),
            y@ == vstd::utf8::encode_utf8(b@),
            vstd::utf8::decode_utf8(x@) == a@,
            vstd::utf8::decode_utf8(y@) == b@,
            forall|j: int| 0 <= j < i ==> x@[j] == y@[j],
        decreases x@.len() - i,
    {
        if x[i] != y[i] {
            return false;
        }
        i = i + 1;
    }
    assert(x@ =~= y@);
    true
}

/// Appends the characters of `s`.
pub fn push_str(out: &mut String, s: &str)
    ensures
        final(out)@ == old(out)@ + s@,
{
    let cs = chars_of(s);
    let mut i: usize = 0;
    while i < cs.len()
        invariant
            i <= cs@.len(),
            cs@ == s@,
            out@ == old(out)@ + cs@.take(i as int),
        decreases cs@.len() - i,
    {
        push_char(out, cs[i]);
        i = i + 1;
        assert(out@ =~= old(out)@ + cs@.take(i as int));
    }
    assert(cs@.take(i as int) =~= cs@);
}

/// `i` is the first position of `c` in `s`.
pub open spec fn is_first_index(s: Seq<char>, c: char, i: int) -> bool {
    0 <= i < s.len() && s[i] == c && forall|j: int| 0 <= j < i ==> s[j] != c
}

/// `i` is the last position of `c` in `s`.
pub open spec fn is_last_index(s: Seq<char>, c: char, i: int) -> bool {
    0 <= i < s.len() && s[i] == c && forall|j: int| i < j < s.len() ==> s[j] != c
}

/// The first position of `c` in `s`, if `c` occurs.
pub open spec fn first_index_of(s: Seq<char>, c: char) -> Option<int> {
    if exists|i: int| is_first_index(s, c, i) {
        Some(choose|i: int| is_first_index(s, c, i))
    } else {
        None
    }
}

/// The last position of `c` in `s`, if `c` occurs.
pub open spec fn last_index_of(s: Seq<char>, c: char) -> Option<int> {
    if exists|i: int| is_last_index(s, c, i) {
        Some(choose|i: int| is_last_index(s, c, i))
    } else {
        None
    }
}

pub proof fn lemma_first_index(s: Seq<char>, c: char, i: int)
    requires
        is_first_index(s, c, i),
    ensures
        first_index_of(s, c) == Some(i),
{
    let k = choose|k: int| is_first_index(s, c, k);
    if k < i {
        assert(s[k] != c);
    } else if k > i {
        assert(s[i] != c);
    }
}

pub proof fn lemma_no_index(s: Seq<char>, c: char)
    requires
        forall|j: int| 0 <= j < s.len() ==> s[j] != c,
    ensures
        first_index_of(s, c) is None,
        last_index_of(s, c) is None,
{
}

pub proof fn lemma_last_index(s: Seq<char>, c: char, i: int)
    requires
        is_last_index(s, c, i),
    ensures
        last_index_of(s, c) == Some(i),
{
    let k = choose|k: int| is_last_index(s, c, k);
    if k < i {
        assert(s[i] != c);
    } else if k > i {
        assert(s[k] != c);
    }
}

/// The first position of `c`.
pub fn find_char(s: &[char], c: char) -> (r: Option<usize>)
    ensures
        match r {
            Some(i) => first_index_of(s@, c) == Some(i as int),
            None => first_index_of(s@, c) is None,
        },
{
    let mut i: usize = 0;
    while i < s.len()
        invariant
            i <= s@.len(),
            forall|j: int| 0 <= j < i ==> s@[j] != c,
        decreases s@.len() - i,
    {
        if s[i] == c {
            proof {
                lemma_first_index(s@, c, i as int);
            }
            return Some(i);
        }
        i = i + 1;
    }
    proof {
        lemma_no_index(s@, c);
    }
    None
}

/// The last position of `c`.
pub fn rfind_char(s: &[char], c: char) -> (r: Option<usize>)
    ensures
        match r {
            Some(i) => last_index_of(s@, c) == Some(i as int),
            None => last_index_of(s@, c) is None,
        },
{
    let mut i: usize = s.len();
    while i > 0
        invariant
            i <= s@.len(),
            forall|j: int| i <= j < s@.len() ==> s@[j] != c,
        decreases i,
    {
        if s[i - 1] == c {
            proof {
                lemma_last_index(s@, c, i - 1);
            }
            return Some(i - 1);
        }
        i = i - 1;
    }
    proof {
        lemma_no_index(s@, c);
    }
    None
}

/// The decimal numeral of `n`, as characters.
pub open spec fn decimal_text(n: nat) -> Seq<char>
    decreases n,
{
    if n < 10 {
        seq![((n + 48) as u8) as char]
    } else {
        decimal_text(n / 10).push(((n % 10 + 48) as u8) as char)
    }
}

proof fn lemma_decimal_text_len(n: nat)
    ensures
        decimal_text(n).len() >= 1,
        n >= 10 ==> decimal_text(n).len() >= 2,
    decreases n,
{
    if n >= 10 {
        lemma_decimal_text_len(n / 10);
    }
}

/// Different numbers have different numerals.
pub proof fn lemma_decimal_text_injective(n: nat, m: nat)
    requires
        decimal_text(n) == decimal_text(m),
    ensures
        n == m,
    decreases n,
{
    lemma_decimal_text_len(n);
    lemma_decimal_text_len(m);
    let a = decimal_text(n);
    if n < 10 && m < 10 {
        assert(a[0] == ((n + 48) as u8) as char);
        assert(decimal_text(m)[0] == ((m + 48) as u8) as char);
    } else if n >= 10 && m >= 10 {
        assert(a.last() == ((n % 10 + 48) as u8) as char);
        assert(decimal_text(m).last() == ((m % 10 + 48) as u8) as char);
        assert(a.drop_last() == decimal_text(n / 10));
        assert(decimal_text(m).drop_last() == decimal_text(m / 10));
        lemma_decimal_text_injective(n / 10, m / 10);
    } else if n < 10 {
        assert(a.len() == 1);
    } else {
        assert(decimal_text(m).len() == 1);
    }
}

/// Appends the decimal numeral of `n`.
pub fn push_decimal_text(out: &mut String, n: u64)
    ensures
        final(out)@ == old(out)@ + decimal_text(n as nat),
    decreases n,
{
    if n >= 10 {
        push_decimal_text(out, n / 10);
    }
    push_char(out, ((n % 10) as u8 + 48) as char);
    assert(final(out)@ =~= old(out)@ + decimal_text(n as nat));
}

/// A string holding the characters of a literal.
pub fn string_from(s: &str) -> (r: String)
    ensures
        r@ == s@,
{
    s.to_owned()
}

/// `std::str::from_utf8`: a byte slice is a `str` exactly when it is valid
/// UTF-8, and the `str` it gives holds those same bytes.
#[verifier::external_body]
pub(crate) fn utf8_str(bytes: &[u8]) -> (r: Option<&str>)
    ensures
        r is Some <==> valid_utf8(bytes@),
        r matches Some(s) ==> s.spec_bytes() == bytes@,
{
    std::str::from_utf8(bytes).ok()
}

/// The text of a byte slice that is valid UTF-8.
pub fn decode_text(bytes: &[u8]) -> (r: Option<String>)
    ensures
        r is Some <==> valid_utf8(bytes@),
        r matches Some(s) ==> s@ == decode_utf8(bytes@),
{
    match utf8_str(bytes) {
        Some(s) => {
            proof {
                vstd::utf8::encode_utf8_decode_utf8(s@);
            }
            Some(s.to_owned())
        },
        None => None,
    }
}


/// Whether a character beyond ASCII has the Unicode `Alphabetic` or
/// `Numeric` property.
pub uninterp spec fn wide_alphanumeric(c: char) -> bool;

/// An ASCII letter or digit.
pub open spec fn ascii_alphanumeric(c: char) -> bool {
    ('a' <= c && c <= 'z') || ('A' <= c && c <= 'Z') || ('0' <= c && c <= '9')
}

/// Whether a character has the Unicode `Alphabetic` or `Numeric` property:
/// among ASCII characters, the letters and digits.
#[verifier::opaque]
pub open spec fn alphanumeric(c: char) -> bool {
    if (c as u32) < 128 {
        ascii_alphanumeric(c)
    } else {
        wide_alphanumeric(c)
    }
}

/// `char::is_alphanumeric`. Claimed: among ASCII characters it holds of the
/// letters and digits only (the only ASCII characters with the `Alphabetic`
/// or `Numeric` property); beyond ASCII the answer depends on the character
/// alone.
#[verifier::external_body]
pub(crate) fn is_alphanumeric(c: char) -> (r: bool)
    ensures
        r == alphanumeric(c),
        (c as u32) < 128 ==> (r <==> ascii_alphanumeric(c)),
        (c as u32) >= 128 ==> r == wide_alphanumeric(c),
{
    c.is_alphanumeric()
}

/// The Unicode `White_Space` characters, which `str::trim` removes.
pub open spec fn white_space(c: char) -> bool {
    let n = c as u32;
    (0x9 <= n <= 0xD) || n == 0x20 || n == 0x85 || n == 0xA0 || n == 0x1680 || (0x2000 <= n <= 0x200A)
        || n == 0x2028 || n == 0x2029 || n == 0x202F || n == 0x205F || n == 0x3000
}

/// Whether a character is white space.
pub fn is_white_space(c: char) -> (r: bool)
    ensures
        r == white_space(c),
{
    let n = c as u32;
    (0x9 <= n && n <= 0xD) || n == 0x20 || n == 0x85 || n == 0xA0 || n == 0x1680 || (0x2000 <= n && n
        <= 0x200A) || n == 0x2028 || n == 0x2029 || n == 0x202F || n == 0x205F || n == 0x3000
}

/// The number of white-space characters at the start of `s`.
pub open spec fn leading_white(s: Seq<char>) -> nat
    decreases s.len(),
{
    if s.len() > 0 && white_space(s[0]) {
        1 + leading_white(s.skip(1))
    } else {
        0
    }
}

/// The number of white-space characters at the end of `s`.
pub open spec fn trailing_white(s: Seq<char>) -> nat
    decreases s.len(),
{
    if s.len() > 0 && white_space(s.last()) {
        1 + trailing_white(s.drop_last())
    } else {
        0
    }
}

/// `s` without white space at either end, as `str::trim` gives it.
pub open spec fn trim(s: Seq<char>) -> Seq<char> {
    if leading_white(s) == s.len() {
        Seq::empty()
    } else {
        s.subrange(leading_white(s) as int, s.len() - trailing_white(s))
    }
}

proof fn lemma_leading_white(s: Seq<char>, k: int)
    requires
        0 <= k <= s.len(),
        forall|i: int| 0 <= i < k ==> white_space(#[trigger] s[i]),
        k == s.len() || !white_space(s[k]),
    ensures
        leading_white(s) == k,
    decreases k,
{
    if k > 0 {
        assert forall|i: int| 0 <= i < k - 1 implies white_space(#[trigger] s.skip(1)[i]) by {
            assert(s.skip(1)[i] == s[i + 1]);
        }
        lemma_leading_white(s.skip(1), k - 1);
    }
}

proof fn lemma_trailing_white(s: Seq<char>, k: int)
    requires
        0 <= k <= s.len(),
        forall|i: int| s.len() - k <= i < s.len() ==> white_space(#[trigger] s[i]),
        k == s.len() || !white_space(s[s.len() - k - 1]),
    ensures
        trailing_white(s) == k,
    decreases k,
{
    if k > 0 {
        assert forall|i: int| s.drop_last().len() - (k - 1) <= i < s.drop_last().len() implies white_space(
            #[trigger] s.drop_last()[i],
        ) by {
            assert(s.drop_last()[i] == s[i]);
        }
        lemma_trailing_white(s.drop_last(), k - 1);
    }
}

/// The characters of `s[start..end]` without white space at either end.
pub fn trim_chars(s: &[char], start: usize, end: usize) -> (r: Vec<char>)
    requires
        start <= end <= s@.len(),
    ensures
        r@ == trim(s@.subrange(start as int, end as int)),
{
    let ghost t = s@.subrange(start as int, end as int);
    let mut a: usize = start;
    while a < end && is_white_space(s[a])
        invariant
            start <= a <= end,
            end <= s@.len(),
            t == s@.subrange(start as int, end as int),
            forall|i: int| 0 <= i < a - start ==> white_space(#[trigger] t[i]),
        decreases end - a,
    {
        a = a + 1;
    }
    proof {
        if a < end {
            assert(t[a - start] == s@[a as int]);
        }
        lemma_leading_white(t, a - start);
    }
    let mut out: Vec<char> = Vec::new();
    if a == end {
        assert(trim(t) =~= Seq::<char>::empty());
        return out;
    }
    let mut b: usize = end;
    while b > a && is_white_space(s[b - 1])
        invariant
            start <= a < end,
            a <= b <= end,
            end <= s@.len(),
            t == s@.subrange(start as int, end as int),
            forall|i: int| t.len() - (end - b) <= i < t.len() ==> white_space(#[trigger] t[i]),
        decreases b,
    {
        assert(t[b - 1 - start] == s@[b - 1]);
        b = b - 1;
    }
    proof {
        assert(!white_space(t[a - start]));
        assert(b > a);
        assert(t[b - 1 - start] == s@[b - 1]);
        lemma_trailing_white(t, (end - b) as int);
    }
    let mut i: usize = a;
    while i < b
        invariant
            a <= i <= b,
            b <= end,
            end <= s@.len(),
            out@ == s@.subrange(a as int, i as int),
        decreases b - i,
    {
        out.push(s[i]);
        i = i + 1;
        assert(out@ =~= s@.subrange(a as int, i as int));
    }
    assert(out@ =~= trim(t));
    out
}
/// The pieces of `s` between occurrences of `sep`, the first one continuing `cur`.
pub open spec fn split_from(s: Seq<char>, sep: char, cur: Seq<char>) -> Seq<Seq<char>>
    decreases s.len(),
{
    if s.len() == 0 {
        seq![cur]
    } else if s[0] == sep {
        seq![cur] + split_from(s.skip(1), sep, Seq::empty())
    } else {
        split_from(s.skip(1), sep, cur.push(s[0]))
    }
}

/// The pieces of `s` between occurrences of `sep` (one more than there are separators).
pub open spec fn split_at(s: Seq<char>, sep: char) -> Seq<Seq<char>> {
    split_from(s, sep, Seq::empty())
}

/// Whether `s` starts with `p`.
pub open spec fn starts(s: Seq<char>, p: Seq<char>) -> bool {
    p.len() <= s.len() && s.take(p.len() as int) == p
}

/// Texts of character vectors.
pub open spec fn char_texts(v: Seq<Vec<char>>) -> Seq<Seq<char>> {
    Seq::new(v.len(), |i: int| v[i]@)
}

/// The pieces of `cs` between occurrences of `sep`.
pub fn split_chars(cs: &[char], sep: char) -> (r: Vec<Vec<char>>)
    ensures
        char_texts(r@) == split_at(cs@, sep),
{
    let mut out: Vec<Vec<char>> = Vec::new();
    let mut cur: Vec<char> = Vec::new();
    let mut i: usize = 0;
    assert(cs@.skip(0) =~= cs@);
    assert(char_texts(out@) + split_from(cs@.skip(0), sep, cur@) =~= split_at(cs@, sep));
    while i < cs.len()
        invariant
            i <= cs@.len(),
            char_texts(out@) + split_from(cs@.skip(i as int), sep, cur@) == split_at(cs@, sep),
        decreases cs@.len() - i,
    {
        let ghost rest = cs@.skip(i as int);
        let ghost before = char_texts(out@);
        let ghost c0 = cur@;
        assert(rest.skip(1) =~= cs@.skip(i + 1));
        assert(rest[0] == cs@[i as int]);
        if cs[i] == sep {
            let done = cur;
            out.push(done);
            cur = Vec::new();
            assert(char_texts(out@) =~= before.push(c0));
            assert(char_texts(out@) + split_from(cs@.skip(i + 1), sep, cur@) =~= before + (seq![c0]
                + split_from(rest.skip(1), sep, Seq::empty())));
        } else {
            cur.push(cs[i]);
            assert(char_texts(out@) =~= before);
        }
        i = i + 1;
    }
    let ghost before = char_texts(out@);
    let ghost c0 = cur@;
    assert(cs@.skip(i as int) =~= Seq::<char>::empty());
    out.push(cur);
    assert(char_texts(out@) =~= before.push(c0));
    assert(char_texts(out@) =~= before + seq![c0]);
    out
}

/// Whether `t` starts with `p`.
pub fn has_prefix(t: &[char], p: &str) -> (r: bool)
    ensures
        r == starts(t@, p@),
{
    let pc = chars_of(p);
    if pc.len() > t.len() {
        return false;
    }
    let mut i: usize = 0;
    while i < pc.len()
        invariant
            i <= pc@.len(),
            pc@.len() <= t@.len(),
            pc@ == p@,
            forall|j: int| 0 <= j < i ==> t@[j] == pc@[j],
        decreases pc@.len() - i,
    {
        if t[i] != pc[i] {
            assert(t@.take(pc@.len() as int)[i as int] != p@[i as int]);
            return false;
        }
        i = i + 1;
    }
    assert(t@.take(pc@.len() as int) =~= p@);
    true
}


proof fn lemma_leading_white_stop(s: Seq<char>)
    ensures
        leading_white(s) <= s.len(),
        leading_white(s) < s.len() ==> !white_space(s[leading_white(s) as int]),
        forall|i: int| 0 <= i < leading_white(s) ==> white_space(#[trigger] s[i]),
    decreases s.len(),
{
    if s.len() > 0 && white_space(s[0]) {
        lemma_leading_white_stop(s.skip(1));
        assert forall|i: int| 0 <= i < leading_white(s) implies white_space(#[trigger] s[i]) by {
            if i > 0 {
                assert(s[i] == s.skip(1)[i - 1]);
            }
        }
    }
}

proof fn lemma_trailing_white_stop(s: Seq<char>)
    ensures
        trailing_white(s) <= s.len(),
        trailing_white(s) < s.len() ==> !white_space(s[s.len() - trailing_white(s) - 1]),
        forall|i: int| s.len() - trailing_white(s) <= i < s.len() ==> white_space(#[trigger] s[i]),
    decreases s.len(),
{
    if s.len() > 0 && white_space(s.last()) {
        lemma_trailing_white_stop(s.drop_last());
        assert forall|i: int| s.len() - trailing_white(s) <= i < s.len() implies white_space(#[trigger] s[i]) by {
            if i < s.len() - 1 {
                assert(s[i] == s.drop_last()[i]);
            }
        }
    }
}

/// Trimming twice is trimming once.
pub proof fn lemma_trim_idempotent(s: Seq<char>)
    ensures
        trim(trim(s)) == trim(s),
{
    let t = trim(s);
    lemma_leading_white_stop(s);
    lemma_trailing_white_stop(s);
    if leading_white(s) < s.len() {
        let a = leading_white(s) as int;
        let b = s.len() - trailing_white(s);
        assert(a < b) by {
            if b <= a {
                assert(white_space(s[a]));
            }
        }
        assert(t.len() > 0);
        assert(t[0] == s[a]);
        lemma_leading_white(t, 0);
        assert(t[t.len() - 1] == s[b - 1]);
        lemma_trailing_white(t, 0);
        assert(t.subrange(0, t.len() as int) =~= t);
    } else {
        assert(t =~= Seq::<char>::empty());
    }
}
/// Lexicographic order of keys by character (which is also the order of
/// their UTF-8 bytes).
pub open spec fn key_less(a: Seq<char>, b: Seq<char>) -> bool
    decreases a.len(),
{
    if b.len() == 0 {
        false
    } else if a.len() == 0 {
        true
    } else if a[0] != b[0] {
        (a[0] as int) < (b[0] as int)
    } else {
        key_less(a.skip(1), b.skip(1))
    }
}

pub proof fn lemma_key_less_irreflexive(a: Seq<char>)
    ensures
        !key_less(a, a),
    decreases a.len(),
{
    if a.len() > 0 {
        lemma_key_less_irreflexive(a.skip(1));
    }
}

pub proof fn lemma_key_less_asymmetric(a: Seq<char>, b: Seq<char>)
    ensures
        key_less(a, b) ==> !key_less(b, a) && a != b,
    decreases a.len(),
{
    if a.len() > 0 && b.len() > 0 && a[0] == b[0] {
        lemma_key_less_asymmetric(a.skip(1), b.skip(1));
    }
    if key_less(a, b) && a == b {
        lemma_key_less_irreflexive(a);
    }
}

pub proof fn lemma_key_less_transitive(a: Seq<char>, b: Seq<char>, c: Seq<char>)
    requires
        key_less(a, b),
        key_less(b, c),
    ensures
        key_less(a, c),
    decreases a.len(),
{
    if a.len() > 0 && b.len() > 0 && c.len() > 0 && a[0] == b[0] && b[0] == c[0] {
        lemma_key_less_transitive(a.skip(1), b.skip(1), c.skip(1));
    }
}

pub proof fn lemma_key_less_total(a: Seq<char>, b: Seq<char>)
    ensures
        a == b || key_less(a, b) || key_less(b, a),
    decreases a.len(),
{
    if a.len() > 0 && b.len() > 0 && a[0] == b[0] {
        lemma_key_less_total(a.skip(1), b.skip(1));
        if a.skip(1) == b.skip(1) {
            assert(a =~= seq![a[0]] + a.skip(1));
            assert(b =~= seq![b[0]] + b.skip(1));
        }
    }
    if a.len() == 0 && b.len() == 0 {
        assert(a =~= b);
    }
    if a.len() > 0 && b.len() > 0 && a[0] != b[0] {
        assert((a[0] as int) != (b[0] as int));
    }
}


/// Whether `a` sorts before `b`.
pub fn text_less(a: &str, b: &str) -> (r: bool)
    ensures
        r == key_less(a@, b@),
{
    let x = chars_of(a);
    let y = chars_of(b);
    let mut i: usize = 0;
    assert(a@.skip(0) =~= a@ && b@.skip(0) =~= b@);
    while i < x.len() && i < y.len() && x[i] == y[i]
        invariant
            i <= x@.len(),
            i <= y@.len(),
            x@ == a@,
            y@ == b@,
            key_less(a@, b@) == key_less(a@.skip(i as int), b@.skip(i as int)),
        decreases x@.len() - i,
    {
        proof {
            let p = a@.skip(i as int);
            let q = b@.skip(i as int);
            assert(p.skip(1) =~= a@.skip(i + 1));
            assert(q.skip(1) =~= b@.skip(i + 1));
        }
        i = i + 1;
    }
    if i == y.len() {
        false
    } else if i == x.len() {
        true
    } else {
        proof {
            assert(a@.skip(i as int)[0] == x@[i as int]);
            assert(b@.skip(i as int)[0] == y@[i as int]);
        }
        x[i] < y[i]
    }
}

/// The characters of `t[a..b]`.
pub(crate) fn slice_chars(t: &[char], a: usize, b: usize) -> (r: Vec<char>)
    requires
        a <= b <= t@.len(),
    ensures
        r@ == t@.subrange(a as int, b as int),
{
    let mut out: Vec<char> = Vec::new();
    let mut i: usize = a;
    while i < b
        invariant
            a <= i <= b <= t@.len(),
            out@ == t@.subrange(a as int, i as int),
        decreases b - i,
    {
        out.push(t[i]);
        i = i + 1;
        assert(out@ =~= t@.subrange(a as int, i as int));
    }
    out
}

} // verus!
