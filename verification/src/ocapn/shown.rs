//! The text `{:?}` gives for a Syrup value, written out and proved.
use super::syrup::{lemma_models_take, lemma_pair_models_take, models, pair_models, Syrup, SyrupValue};
use crate::text::{chars_of, decimal_text, push_char, push_decimal_text, push_str};
use vstd::prelude::*;

verus! {

/// A lowercase hexadecimal digit.
pub open spec fn hex_lower(d: nat) -> char {
    if d < 10 {
        ((d + 48) as u8) as char
    } else {
        ((d + 87) as u8) as char
    }
}

/// How a character appears inside a quoted string: `"` and `\` escaped, the
/// usual escapes for newline, return, tab and NUL, `\u{..}` for the other
/// ASCII control characters; every other character as it is (non-ASCII
/// characters are all shown as they are).
pub open spec fn escaped_char(c: char) -> Seq<char> {
    let u = c as u32;
    if c == '"' {
        seq!['\\', '"']
    } else if c == '\\' {
        seq!['\\', '\\']
    } else if c == '\n' {
        seq!['\\', 'n']
    } else if c == '\r' {
        seq!['\\', 'r']
    } else if c == '\t' {
        seq!['\\', 't']
    } else if u == 0 {
        seq!['\\', '0']
    } else if u < 32 || u == 127 {
        seq!['\\', 'u', '{'] + (if u < 16 {
            seq![hex_lower(u as nat)]
        } else {
            seq![hex_lower((u / 16) as nat), hex_lower((u % 16) as nat)]
        }) + seq!['}']
    } else {
        seq![c]
    }
}

/// The characters of a text, each as it appears inside a quoted string.
pub open spec fn escaped(s: Seq<char>) -> Seq<char>
    decreases s.len(),
{
    if s.len() == 0 {
        Seq::empty()
    } else {
        escaped(s.drop_last()) + escaped_char(s.last())
    }
}

/// A text in double quotes, escaped.
pub open spec fn quoted(s: Seq<char>) -> Seq<char> {
    seq!['"'] + escaped(s) + seq!['"']
}

/// A signed integer in decimal.
pub open spec fn int_text(n: i64) -> Seq<char> {
    if n < 0 {
        seq!['-'] + decimal_text((-(n as int)) as nat)
    } else {
        decimal_text(n as nat)
    }
}

/// Bytes as decimal numbers separated by `, `.
pub open spec fn numbers_text(d: Seq<u8>) -> Seq<char>
    decreases d.len(),
{
    if d.len() == 0 {
        Seq::empty()
    } else if d.len() == 1 {
        decimal_text(d[0] as nat)
    } else {
        numbers_text(d.drop_last()) + seq![',', ' '] + decimal_text(d.last() as nat)
    }
}

/// The text `{:?}` gives for a Syrup value: its variant and contents the way
/// the derived `Debug` writes them (floating-point payloads as their bits).
pub open spec fn debug_text(v: Syrup) -> Seq<char>
    decreases v,
{
    match v {
        Syrup::Bool(b) => "Bool("@ + (if b {
            "true"@
        } else {
            "false"@
        }) + ")"@,
        Syrup::Integer(n) => "Integer("@ + int_text(n) + ")"@,
        Syrup::Float32(bits) => "Float32("@ + decimal_text(bits as nat) + ")"@,
        Syrup::Float64(bits) => "Float64("@ + decimal_text(bits as nat) + ")"@,
        Syrup::Bytestring(d) => "Bytestring(["@ + numbers_text(d) + "])"@,
        Syrup::String(s) => "String("@ + quoted(s) + ")"@,
        Syrup::Symbol(s) => "Symbol("@ + quoted(s) + ")"@,
        Syrup::List(items) => "List(["@ + items_text(items) + "])"@,
        Syrup::Dict(entries) => "Dict(["@ + pairs_text(entries) + "])"@,
        Syrup::Record(label, fields) => "Record { label: "@ + debug_text(*label) + ", fields: ["@
            + items_text(fields) + "] }"@,
    }
}

/// The texts of values separated by `, `.
pub open spec fn items_text(items: Seq<Syrup>) -> Seq<char>
    decreases items,
{
    if items.len() == 0 {
        Seq::empty()
    } else if items.len() == 1 {
        debug_text(items.last())
    } else {
        items_text(items.drop_last()) + seq![',', ' '] + debug_text(items.last())
    }
}

/// The texts of key/value pairs, each as `(key, value)`, separated by `, `.
pub open spec fn pairs_text(entries: Seq<(Syrup, Syrup)>) -> Seq<char>
    decreases entries,
{
    if entries.len() == 0 {
        Seq::empty()
    } else if entries.len() == 1 {
        seq!['('] + debug_text(entries.last().0) + seq![',', ' '] + debug_text(entries.last().1) + seq![')']
    } else {
        pairs_text(entries.drop_last()) + seq![',', ' '] + seq!['('] + debug_text(entries.last().0) + seq![
            ',',
            ' ',
        ] + debug_text(entries.last().1) + seq![')']
    }
}

fn hex_char(d: u32) -> (r: char)
    requires
        d < 16,
    ensures
        r == hex_lower(d as nat),
{
    if d < 10 {
        ((d as u8) + 48) as char
    } else {
        ((d as u8) + 87) as char
    }
}

fn push_escaped_char(out: &mut String, c: char)
    ensures
        final(out)@ == old(out)@ + escaped_char(c),
{
    let u = c as u32;
    if c == '"' {
        push_char(out, '\\');
        push_char(out, '"');
    } else if c == '\\' {
        push_char(out, '\\');
        push_char(out, '\\');
    } else if c == '\n' {
        push_char(out, '\\');
        push_char(out, 'n');
    } else if c == '\r' {
        push_char(out, '\\');
        push_char(out, 'r');
    } else if c == '\t' {
        push_char(out, '\\');
        push_char(out, 't');
    } else if u == 0 {
        push_char(out, '\\');
        push_char(out, '0');
    } else if u < 32 || u == 127 {
        push_char(out, '\\');
        push_char(out, 'u');
        push_char(out, '{');
        if u < 16 {
            push_char(out, hex_char(u));
        } else {
            push_char(out, hex_char(u / 16));
            push_char(out, hex_char(u % 16));
        }
        push_char(out, '}');
    } else {
        push_char(out, c);
    }
    assert(out@ =~= old(out)@ + escaped_char(c));
}

fn push_quoted(out: &mut String, s: &str)
    ensures
        final(out)@ == old(out)@ + quoted(s@),
{
    let cs = chars_of(s);
    push_char(out, '"');
    let ghost start = out@;
    let mut i: usize = 0;
    assert(cs@.take(0) =~= Seq::<char>::empty());
    while i < cs.len()
        invariant
            i <= cs@.len(),
            cs@ == s@,
            out@ == start + escaped(cs@.take(i as int)),
        decreases cs@.len() - i,
    {
        push_escaped_char(out, cs[i]);
        assert(cs@.take(i + 1).drop_last() =~= cs@.take(i as int));
        i = i + 1;
        assert(out@ =~= start + escaped(cs@.take(i as int)));
    }
    assert(cs@.take(i as int) =~= cs@);
    push_char(out, '"');
    assert(out@ =~= old(out)@ + quoted(s@));
}

fn push_int(out: &mut String, n: i64)
    ensures
        final(out)@ == old(out)@ + int_text(n),
{
    if n < 0 {
        push_char(out, '-');
        let m: u64 = (0i128 - (n as i128)) as u64;
        push_decimal_text(out, m);
        assert(out@ =~= old(out)@ + int_text(n));
    } else {
        push_decimal_text(out, n as u64);
    }
}

fn push_numbers(out: &mut String, d: &Vec<u8>)
    ensures
        final(out)@ == old(out)@ + numbers_text(d@),
{
    let mut i: usize = 0;
    assert(d@.take(0) =~= Seq::<u8>::empty());
    assert(out@ =~= old(out)@ + numbers_text(d@.take(0)));
    while i < d.len()
        invariant
            i <= d@.len(),
            out@ == old(out)@ + numbers_text(d@.take(i as int)),
        decreases d@.len() - i,
    {
        if i > 0 {
            push_char(out, ',');
            push_char(out, ' ');
        }
        push_decimal_text(out, d[i] as u64);
        assert(d@.take(i + 1).drop_last() =~= d@.take(i as int));
        assert(d@.take(i + 1).last() == d@[i as int]);
        i = i + 1;
        assert(out@ =~= old(out)@ + numbers_text(d@.take(i as int)));
    }
    assert(d@.take(i as int) =~= d@);
}

fn push_items(out: &mut String, items: &Vec<SyrupValue>)
    ensures
        final(out)@ == old(out)@ + items_text(models(items@)),
    decreases items@, 0nat,
{
    let mut i: usize = 0;
    proof {
        lemma_models_take(items@, 0);
    }
    assert(out@ =~= old(out)@ + items_text(models(items@.take(0))));
    while i < items.len()
        invariant
            i <= items@.len(),
            out@ == old(out)@ + items_text(models(items@.take(i as int))),
        decreases items@.len() - i,
    {
        proof {
            lemma_models_take(items@, i as int + 1);
            lemma_models_take(items@, i as int);
        }
        if i > 0 {
            push_char(out, ',');
            push_char(out, ' ');
        }
        push_debug(out, &items[i]);
        proof {
            let t = models(items@.take(i + 1));
            assert(t.drop_last() =~= models(items@.take(i as int)));
            assert(t.last() == items@[i as int]@);
        }
        i = i + 1;
        assert(out@ =~= old(out)@ + items_text(models(items@.take(i as int))));
    }
    assert(items@.take(i as int) =~= items@);
}

fn push_pairs(out: &mut String, entries: &Vec<(SyrupValue, SyrupValue)>)
    ensures
        final(out)@ == old(out)@ + pairs_text(pair_models(entries@)),
    decreases entries@, 0nat,
{
    let mut i: usize = 0;
    proof {
        lemma_pair_models_take(entries@, 0);
    }
    assert(out@ =~= old(out)@ + pairs_text(pair_models(entries@.take(0))));
    while i < entries.len()
        invariant
            i <= entries@.len(),
            out@ == old(out)@ + pairs_text(pair_models(entries@.take(i as int))),
        decreases entries@.len() - i,
    {
        proof {
            lemma_pair_models_take(entries@, i as int + 1);
            lemma_pair_models_take(entries@, i as int);
        }
        if i > 0 {
            push_char(out, ',');
            push_char(out, ' ');
        }
        push_char(out, '(');
        push_debug(out, &entries[i].0);
        push_char(out, ',');
        push_char(out, ' ');
        push_debug(out, &entries[i].1);
        push_char(out, ')');
        proof {
            let t = pair_models(entries@.take(i + 1));
            assert(t.drop_last() =~= pair_models(entries@.take(i as int)));
            assert(t.last() == (entries@[i as int].0@, entries@[i as int].1@));
        }
        i = i + 1;
        assert(out@ =~= old(out)@ + pairs_text(pair_models(entries@.take(i as int))));
    }
    assert(entries@.take(i as int) =~= entries@);
}

fn push_debug(out: &mut String, v: &SyrupValue)
    ensures
        final(out)@ == old(out)@ + debug_text(v@),
    decreases v, 1nat,
{
    match v {
        SyrupValue::Bool(b) => {
            push_str(out, "Bool(");
            if *b {
                push_str(out, "true");
            } else {
                push_str(out, "false");
            }
            push_str(out, ")");
        },
        SyrupValue::Integer(n) => {
            push_str(out, "Integer(");
            push_int(out, *n);
            push_str(out, ")");
        },
        SyrupValue::Float32(bits) => {
            push_str(out, "Float32(");
            push_decimal_text(out, *bits as u64);
            push_str(out, ")");
        },
        SyrupValue::Float64(bits) => {
            push_str(out, "Float64(");
            push_decimal_text(out, *bits);
            push_str(out, ")");
        },
        SyrupValue::Bytestring(d) => {
            push_str(out, "Bytestring([");
            push_numbers(out, d);
            push_str(out, "])");
        },
        SyrupValue::String(s) => {
            push_str(out, "String(");
            push_quoted(out, s.as_str());
            push_str(out, ")");
        },
        SyrupValue::Symbol(s) => {
            push_str(out, "Symbol(");
            push_quoted(out, s.as_str());
            push_str(out, ")");
        },
        SyrupValue::List(items) => {
            push_str(out, "List([");
            push_items(out, items);
            push_str(out, "])");
        },
        SyrupValue::Dict(entries) => {
            push_str(out, "Dict([");
            push_pairs(out, entries);
            push_str(out, "])");
        },
        SyrupValue::Record { label, fields } => {
            push_str(out, "Record { label: ");
            push_debug(out, label);
            push_str(out, ", fields: [");
            push_items(out, fields);
            push_str(out, "] }");
        },
    }
    assert(out@ =~= old(out)@ + debug_text(v@));
}

/// The text `{:?}` gives for a value.
pub fn debug_string(v: &SyrupValue) -> (r: String)
    ensures
        r@ == debug_text(v@),
{
    let mut out = String::new();
    push_debug(&mut out, v);
    assert(out@ =~= debug_text(v@));
    out
}

} // verus!
