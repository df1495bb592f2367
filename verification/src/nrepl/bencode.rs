use crate::bytes::{
    all_digits, copy_bytes, decimal, digits_upto, digits_value, digits_within, is_digit,
    lemma_decimal_digits, push_bytes, push_decimal, unsigned_digits,
};
use crate::text::{
    key_less, lemma_key_less_asymmetric, lemma_key_less_irreflexive, lemma_key_less_total,
    lemma_key_less_transitive, chars_of, text_less, decimal_text, decode_text, push_char, push_decimal_text, push_str, string_from, utf8_str};
use vstd::prelude::*;
use vstd::string::StringSliceAdditionalSpecFns;
use vstd::utf8::*;

verus! {

/// A bencode value. A dictionary holds its entries sorted by key, each key once,
/// as a map keyed by strings would.
#[derive(Debug, PartialEq)]
pub enum Value {
    Bytes(Vec<u8>),
    Int(i64),
    List(Vec<Value>),
    Dict(Vec<(String, Value)>),
}

/// Mathematical model of a bencode value.
pub enum Bencode {
    Bytes(Seq<u8>),
    Int(i64),
    List(Seq<Bencode>),
    Dict(Seq<(Seq<char>, Bencode)>),
}

impl Value {
    pub open spec fn model(self) -> Bencode
        decreases self,
    {
        match self {
            Value::Bytes(b) => Bencode::Bytes(b@),
            Value::Int(n) => Bencode::Int(n),
            Value::List(items) => Bencode::List(value_models(items@)),
            Value::Dict(entries) => Bencode::Dict(entry_models(entries@)),
        }
    }
}

impl View for Value {
    type V = Bencode;

    open spec fn view(&self) -> Bencode {
        self.model()
    }
}

/// Models of a sequence of values, element by element.
pub open spec fn value_models(s: Seq<Value>) -> Seq<Bencode>
    decreases s,
{
    if s.len() == 0 {
        Seq::empty()
    } else {
        value_models(s.drop_last()).push(s.last().model())
    }
}

/// Models of dictionary entries, element by element.
pub open spec fn entry_models(s: Seq<(String, Value)>) -> Seq<(Seq<char>, Bencode)>
    decreases s,
{
    if s.len() == 0 {
        Seq::empty()
    } else {
        entry_models(s.drop_last()).push((s.last().0@, s.last().1.model()))
    }
}

pub proof fn lemma_value_models(s: Seq<Value>)
    ensures
        value_models(s).len() == s.len(),
        forall|i: int| 0 <= i < s.len() ==> #[trigger] value_models(s)[i] == s[i].model(),
    decreases s.len(),
{
    if s.len() > 0 {
        lemma_value_models(s.drop_last());
    }
}

pub proof fn lemma_entry_models(s: Seq<(String, Value)>)
    ensures
        entry_models(s).len() == s.len(),
        forall|i: int|
            0 <= i < s.len() ==> #[trigger] entry_models(s)[i] == (s[i].0@, s[i].1.model()),
    decreases s.len(),
{
    if s.len() > 0 {
        lemma_entry_models(s.drop_last());
    }
}

proof fn lemma_value_models_eq(a: Seq<Value>, b: Seq<Value>)
    requires
        a.len() == b.len(),
        forall|i: int| 0 <= i < a.len() ==> a[i].model() == b[i].model(),
    ensures
        value_models(a) == value_models(b),
{
    lemma_value_models(a);
    lemma_value_models(b);
    assert(value_models(a) =~= value_models(b));
}

proof fn lemma_entry_models_eq(a: Seq<(String, Value)>, b: Seq<(String, Value)>)
    requires
        a.len() == b.len(),
        forall|i: int| 0 <= i < a.len() ==> a[i].0@ == b[i].0@ && a[i].1.model() == b[i].1.model(),
    ensures
        entry_models(a) == entry_models(b),
{
    lemma_entry_models(a);
    lemma_entry_models(b);
    assert(entry_models(a) =~= entry_models(b));
}

// ---------------------------------------------------------------------
// Key order and dictionaries
// ---------------------------------------------------------------------

/// Keys strictly increase.
pub open spec fn sorted_keys(s: Seq<(Seq<char>, Bencode)>) -> bool {
    forall|i: int, j: int| 0 <= i < j < s.len() ==> key_less(#[trigger] s[i].0, #[trigger] s[j].0)
}

/// Inserting into sorted entries: an existing key gets the new value, a new
/// key goes to its place in the order.
pub open spec fn insert_entry(s: Seq<(Seq<char>, Bencode)>, k: Seq<char>, v: Bencode) -> Seq<
    (Seq<char>, Bencode),
>
    decreases s.len(),
{
    if s.len() == 0 {
        seq![(k, v)]
    } else if s[0].0 == k {
        seq![(k, v)] + s.skip(1)
    } else if key_less(k, s[0].0) {
        seq![(k, v)] + s
    } else {
        seq![s[0]] + insert_entry(s.skip(1), k, v)
    }
}

/// Inserting pairs one after another, first to last.
pub open spec fn insert_all(acc: Seq<(Seq<char>, Bencode)>, pairs: Seq<(Seq<char>, Bencode)>) -> Seq<
    (Seq<char>, Bencode),
>
    decreases pairs.len(),
{
    if pairs.len() == 0 {
        acc
    } else {
        insert_all(insert_entry(acc, pairs[0].0, pairs[0].1), pairs.skip(1))
    }
}

/// The value stored under a key.
pub open spec fn dict_lookup(s: Seq<(Seq<char>, Bencode)>, k: Seq<char>) -> Option<Bencode>
    decreases s.len(),
{
    if s.len() == 0 {
        None
    } else if s[0].0 == k {
        Some(s[0].1)
    } else {
        dict_lookup(s.skip(1), k)
    }
}

pub proof fn lemma_insert_entry_prefix(s: Seq<(Seq<char>, Bencode)>, k: Seq<char>, v: Bencode, i: int)
    requires
        0 <= i <= s.len(),
        forall|j: int| 0 <= j < i ==> s[j].0 != k && !key_less(k, #[trigger] s[j].0),
    ensures
        insert_entry(s, k, v) == s.take(i) + insert_entry(s.skip(i), k, v),
    decreases i,
{
    if i == 0 {
        assert(s.skip(0) =~= s);
        assert(s.take(0) + insert_entry(s, k, v) =~= insert_entry(s, k, v));
    } else {
        let t = s.skip(1);
        assert forall|j: int| 0 <= j < i - 1 implies t[j].0 != k && !key_less(k, #[trigger] t[j].0) by {
            assert(t[j] == s[j + 1]);
        }
        lemma_insert_entry_prefix(t, k, v, i - 1);
        assert(t.skip(i - 1) =~= s.skip(i));
        assert(insert_entry(s, k, v) == seq![s[0]] + insert_entry(t, k, v));
        assert(seq![s[0]] + (t.take(i - 1) + insert_entry(s.skip(i), k, v)) =~= s.take(i) + insert_entry(
            s.skip(i),
            k,
            v,
        ));
    }
}

/// Copies of a slice of values with the same models.
pub fn clone_list(items: &Vec<Value>) -> (r: Vec<Value>)
    ensures
        value_models(r@) == value_models(items@),
    decreases items@, 0nat,
{
    let mut out: Vec<Value> = Vec::new();
    let mut i: usize = 0;
    while i < items.len()
        invariant
            i <= items@.len(),
            out@.len() == i,
            forall|j: int| 0 <= j < i ==> (#[trigger] out@[j]).model() == items@[j].model(),
        decreases items@.len() - i,
    {
        let c = clone_value(&items[i]);
        out.push(c);
        i = i + 1;
    }
    proof {
        lemma_value_models_eq(out@, items@);
    }
    out
}

/// Copies of dictionary entries with the same models.
pub fn clone_entries(entries: &Vec<(String, Value)>) -> (r: Vec<(String, Value)>)
    ensures
        entry_models(r@) == entry_models(entries@),
    decreases entries@, 0nat,
{
    let mut out: Vec<(String, Value)> = Vec::new();
    let mut i: usize = 0;
    while i < entries.len()
        invariant
            i <= entries@.len(),
            out@.len() == i,
            forall|j: int|
                0 <= j < i ==> (#[trigger] out@[j]).0@ == entries@[j].0@ && out@[j].1.model()
                    == entries@[j].1.model(),
        decreases entries@.len() - i,
    {
        let k = entries[i].0.clone();
        let v = clone_value(&entries[i].1);
        out.push((k, v));
        i = i + 1;
    }
    proof {
        lemma_entry_models_eq(out@, entries@);
    }
    out
}

/// A copy of a value with the same model.
pub fn clone_value(v: &Value) -> (r: Value)
    ensures
        r@ == v@,
    decreases v, 1nat,
{
    match v {
        Value::Bytes(b) => Value::Bytes(copy_bytes(b.as_slice())),
        Value::Int(n) => Value::Int(*n),
        Value::List(items) => Value::List(clone_list(items)),
        Value::Dict(entries) => Value::Dict(clone_entries(entries)),
    }
}

impl Clone for Value {
    fn clone(&self) -> (r: Self)
        ensures
            r@ == self@,
    {
        clone_value(self)
    }
}

/// The text a byte string holds, when it is valid UTF-8.
pub open spec fn bytes_text(v: Bencode) -> Option<Seq<char>> {
    match v {
        Bencode::Bytes(b) => if valid_utf8(b) {
            Some(decode_utf8(b))
        } else {
            None
        },
        _ => None,
    }
}

/// Insert into sorted entries, replacing the value of an existing key.
fn insert_sorted(entries: &mut Vec<(String, Value)>, key: String, value: Value)
    ensures
        entry_models(final(entries)@) == insert_entry(entry_models(old(entries)@), key@, value@),
{
    let ghost s = entry_models(old(entries)@);
    proof {
        lemma_entry_models(old(entries)@);
    }
    let mut i: usize = 0;
    while i < entries.len()
        invariant
            i <= entries@.len(),
            entries@ == old(entries)@,
            s == entry_models(entries@),
            s.len() == entries@.len(),
            forall|j: int| 0 <= j < i ==> s[j].0 != key@ && !key_less(key@, #[trigger] s[j].0),
        decreases entries@.len() - i,
    {
        proof {
            lemma_entry_models(entries@);
            assert(entry_models(entries@)[i as int] == (entries@[i as int].0@, entries@[i as int].1.model()));
        }
        if crate::text::text_eq(entries[i].0.as_str(), key.as_str()) {
            proof {
                lemma_insert_entry_prefix(s, key@, value@, i as int);
                assert(s.skip(i as int)[0] == s[i as int]);
            }
            let ghost kv = key@;
            let ghost vv = value@;
            entries.set(i, (key, value));
            proof {
                lemma_entry_models(entries@);
                assert(entry_models(entries@) =~= s.take(i as int) + (seq![(kv, vv)] + s.skip(i as int).skip(1)));
            }
            return;
        }
        if text_less(key.as_str(), entries[i].0.as_str()) {
            proof {
                lemma_insert_entry_prefix(s, key@, value@, i as int);
                assert(s.skip(i as int)[0] == s[i as int]);
            }
            let ghost kv = key@;
            let ghost vv = value@;
            entries.insert(i, (key, value));
            proof {
                lemma_entry_models(entries@);
                assert(entry_models(entries@) =~= s.take(i as int) + (seq![(kv, vv)] + s.skip(i as int)));
            }
            return;
        }
        i = i + 1;
    }
    proof {
        lemma_insert_entry_prefix(s, key@, value@, i as int);
        assert(s.skip(i as int) =~= Seq::<(Seq<char>, Bencode)>::empty());
    }
    let ghost kv = key@;
    let ghost vv = value@;
    entries.push((key, value));
    proof {
        lemma_entry_models(entries@);
        assert(entry_models(entries@) =~= s.take(i as int) + seq![(kv, vv)]);
    }
}

/// Models of `(key, value)` pairs given to [`Value::dict`].
pub open spec fn pair_models(s: Seq<(&str, Value)>) -> Seq<(Seq<char>, Bencode)> {
    Seq::new(s.len(), |i: int| (s[i].0@, s[i].1.model()))
}

impl Value {
    /// A byte string holding the UTF-8 bytes of `s`.
    pub fn string(s: &str) -> (r: Value)
        ensures
            r@ == Bencode::Bytes(encode_utf8(s@)),
    {
        Value::Bytes(copy_bytes(s.as_bytes()))
    }

    /// The text of a byte string that is valid UTF-8.
    pub fn as_str(&self) -> (r: Option<&str>)
        ensures
            match r {
                Some(s) => bytes_text(self@) == Some(s@),
                None => bytes_text(self@) is None,
            },
    {
        match self {
            Value::Bytes(b) => match utf8_str(b.as_slice()) {
                Some(s) => {
                    proof {
                        encode_utf8_decode_utf8(s@);
                    }
                    Some(s)
                },
                None => None,
            },
            _ => None,
        }
    }

    /// The integer, for an integer.
    pub fn as_i64(&self) -> (r: Option<i64>)
        ensures
            r == (match self@ {
                Bencode::Int(n) => Some(n),
                _ => None::<i64>,
            }),
    {
        match self {
            Value::Int(n) => Some(*n),
            _ => None,
        }
    }

    /// The entries, for a dictionary.
    pub fn as_dict(&self) -> (r: Option<&Vec<(String, Value)>>)
        ensures
            match r {
                Some(d) => self@ == Bencode::Dict(entry_models(d@)),
                None => !(self@ is Dict),
            },
    {
        match self {
            Value::Dict(d) => Some(d),
            _ => None,
        }
    }

    /// The items, for a list.
    pub fn as_list(&self) -> (r: Option<&Vec<Value>>)
        ensures
            match r {
                Some(l) => self@ == Bencode::List(value_models(l@)),
                None => !(self@ is List),
            },
    {
        match self {
            Value::List(l) => Some(l),
            _ => None,
        }
    }

    /// The value under `key`, for a dictionary that has it.
    pub fn get(&self, key: &str) -> (r: Option<&Value>)
        ensures
            match r {
                Some(v) => self@ matches Bencode::Dict(es) && dict_lookup(es, key@) == Some(v@),
                None => !(self@ matches Bencode::Dict(es) && dict_lookup(es, key@) is Some),
            },
    {
        match self {
            Value::Dict(entries) => {
                let ghost s = entry_models(entries@);
                proof {
                    lemma_entry_models(entries@);
                }
                let mut i: usize = 0;
                assert(s.skip(0) =~= s);
                assert(self@ == Bencode::Dict(s));
                while i < entries.len()
                    invariant
                        self@ == Bencode::Dict(s),
                        i <= entries@.len(),
                        s == entry_models(entries@),
                        s.len() == entries@.len(),
                        dict_lookup(s, key@) == dict_lookup(s.skip(i as int), key@),
                    decreases entries@.len() - i,
                {
                    proof {
                        lemma_entry_models(entries@);
                        assert(entry_models(entries@)[i as int] == (entries@[i as int].0@, entries@[i as int].1.model()));
                        assert(s.skip(i as int)[0] == s[i as int]);
                    }
                    if crate::text::text_eq(entries[i].0.as_str(), key) {
                        assert(dict_lookup(s.skip(i as int), key@) == Some(s[i as int].1));
                        assert(s[i as int].1 == entries@[i as int].1@);
                        return Some(&entries[i].1);
                    }
                    assert(s.skip(i as int).skip(1) =~= s.skip(i + 1));
                    i = i + 1;
                }
                None
            },
            _ => None,
        }
    }

    /// The text of the byte string under `key`.
    pub fn get_str(&self, key: &str) -> (r: Option<&str>)
        ensures
            match r {
                Some(s) => self@ matches Bencode::Dict(es) && dict_lookup(es, key@) matches Some(v)
                    && bytes_text(v) == Some(s@),
                None => !(self@ matches Bencode::Dict(es) && dict_lookup(es, key@) matches Some(v)
                    && bytes_text(v) is Some),
            },
    {
        match self.get(key) {
            Some(v) => v.as_str(),
            None => None,
        }
    }

    /// A dictionary of the given pairs, inserted in order (a repeated key keeps
    /// its last value).
    pub fn dict(pairs: Vec<(&str, Value)>) -> (r: Value)
        ensures
            r@ == Bencode::Dict(insert_all(Seq::empty(), pair_models(pairs@))),
    {
        let ghost all = pair_models(pairs@);
        let mut rest = pairs;
        let mut entries: Vec<(String, Value)> = Vec::new();
        proof {
            assert(entry_models(entries@) =~= Seq::<(Seq<char>, Bencode)>::empty());
        }
        while rest.len() > 0
            invariant
                insert_all(entry_models(entries@), pair_models(rest@)) == insert_all(Seq::empty(), all),
            decreases rest@.len(),
        {
            let ghost before = pair_models(rest@);
            let (k, v) = rest.remove(0);
            proof {
                assert(pair_models(rest@) =~= before.skip(1));
                assert(before[0] == (k@, v@));
            }
            insert_sorted(&mut entries, string_from(k), v);
        }
        proof {
            assert(pair_models(rest@) =~= Seq::<(Seq<char>, Bencode)>::empty());
        }
        Value::Dict(entries)
    }
}

// ---------------------------------------------------------------------
// Encoding
// ---------------------------------------------------------------------

/// The decimal text of an integer, with `-` before a negative one.
pub open spec fn int_text(n: i64) -> Seq<u8> {
    if n >= 0 {
        decimal(n as nat)
    } else {
        seq![45u8] + decimal((-(n as int)) as nat)
    }
}

/// A length-prefixed byte string: `<len>:<bytes>`.
pub open spec fn byte_string(b: Seq<u8>) -> Seq<u8> {
    decimal(b.len()) + seq![58u8] + b
}

/// The bencode encoding of a value.
pub open spec fn encode_spec(v: Bencode) -> Seq<u8>
    decreases v,
{
    match v {
        Bencode::Bytes(b) => byte_string(b),
        Bencode::Int(n) => seq![105u8] + int_text(n) + seq![101u8],
        Bencode::List(items) => seq![108u8] + encode_list(items) + seq![101u8],
        Bencode::Dict(entries) => seq![100u8] + encode_entries(entries) + seq![101u8],
    }
}

/// Concatenated encodings of list items.
pub open spec fn encode_list(items: Seq<Bencode>) -> Seq<u8>
    decreases items,
{
    if items.len() == 0 {
        Seq::empty()
    } else {
        encode_list(items.drop_last()) + encode_spec(items.last())
    }
}

/// Concatenated encodings of dictionary entries: each key as a byte string,
/// then its value.
pub open spec fn encode_entries(entries: Seq<(Seq<char>, Bencode)>) -> Seq<u8>
    decreases entries,
{
    if entries.len() == 0 {
        Seq::empty()
    } else {
        encode_entries(entries.drop_last()) + byte_string(encode_utf8(entries.last().0))
            + encode_spec(entries.last().1)
    }
}

fn push_byte_string(b: &[u8], out: &mut Vec<u8>)
    ensures
        final(out)@ == old(out)@ + byte_string(b@),
{
    push_decimal(b.len() as u64, out);
    out.push(58u8);
    push_bytes(b, out);
    assert(final(out)@ =~= old(out)@ + byte_string(b@));
}

fn encode_items(items: &Vec<Value>, out: &mut Vec<u8>)
    ensures
        final(out)@ == old(out)@ + encode_list(value_models(items@)),
    decreases items@, 0nat,
{
    let mut i: usize = 0;
    assert(value_models(items@.take(0)) =~= Seq::<Bencode>::empty());
    assert(old(out)@ + encode_list(Seq::<Bencode>::empty()) =~= old(out)@);
    while i < items.len()
        invariant
            i <= items@.len(),
            out@ == old(out)@ + encode_list(value_models(items@.take(i as int))),
        decreases items@.len() - i,
    {
        let ghost before = out@;
        encode(&items[i], out);
        proof {
            assert(items@.take(i + 1).drop_last() =~= items@.take(i as int));
            assert(value_models(items@.take(i + 1)) == value_models(items@.take(i as int)).push(
                items@[i as int].model(),
            ));
            assert(value_models(items@.take(i + 1)).drop_last() =~= value_models(items@.take(i as int)));
            assert(out@ =~= old(out)@ + encode_list(value_models(items@.take(i + 1))));
        }
        i = i + 1;
    }
    assert(items@.take(i as int) =~= items@);
}

fn encode_dict_entries(entries: &Vec<(String, Value)>, out: &mut Vec<u8>)
    ensures
        final(out)@ == old(out)@ + encode_entries(entry_models(entries@)),
    decreases entries@, 0nat,
{
    let mut i: usize = 0;
    assert(entry_models(entries@.take(0)) =~= Seq::<(Seq<char>, Bencode)>::empty());
    assert(old(out)@ + encode_entries(Seq::<(Seq<char>, Bencode)>::empty()) =~= old(out)@);
    while i < entries.len()
        invariant
            i <= entries@.len(),
            out@ == old(out)@ + encode_entries(entry_models(entries@.take(i as int))),
        decreases entries@.len() - i,
    {
        push_byte_string(entries[i].0.as_str().as_bytes(), out);
        encode(&entries[i].1, out);
        proof {
            assert(entries@.take(i + 1).drop_last() =~= entries@.take(i as int));
            let m = entry_models(entries@.take(i + 1));
            assert(m == entry_models(entries@.take(i as int)).push(
                (entries@[i as int].0@, entries@[i as int].1.model()),
            ));
            assert(m.drop_last() =~= entry_models(entries@.take(i as int)));
            assert(out@ =~= old(out)@ + encode_entries(m));
        }
        i = i + 1;
    }
    assert(entries@.take(i as int) =~= entries@);
}

/// Append the bencode encoding of a value.
pub fn encode(value: &Value, out: &mut Vec<u8>)
    ensures
        final(out)@ == old(out)@ + encode_spec(value@),
    decreases value, 1nat,
{
    match value {
        Value::Bytes(b) => {
            push_byte_string(b.as_slice(), out);
        },
        Value::Int(n) => {
            out.push(105u8);
            if *n >= 0 {
                push_decimal(*n as u64, out);
            } else {
                out.push(45u8);
                let m: u64 = if *n == i64::MIN {
                    9223372036854775808u64
                } else {
                    (-*n) as u64
                };
                push_decimal(m, out);
            }
            out.push(101u8);
        },
        Value::List(items) => {
            out.push(108u8);
            encode_items(items, out);
            out.push(101u8);
        },
        Value::Dict(entries) => {
            out.push(100u8);
            encode_dict_entries(entries, out);
            out.push(101u8);
        },
    }
    assert(final(out)@ =~= old(out)@ + encode_spec(value@));
}

/// The bencode encoding of a value in a fresh buffer.
pub fn encode_to_vec(value: &Value) -> (r: Vec<u8>)
    ensures
        r@ == encode_spec(value@),
{
    let mut buf: Vec<u8> = Vec::new();
    encode(value, &mut buf);
    assert(buf@ =~= encode_spec(value@));
    buf
}

// ---------------------------------------------------------------------
// Text for people
// ---------------------------------------------------------------------

/// The decimal text of an integer, with `-` before a negative one.
pub open spec fn int_chars(n: i64) -> Seq<char> {
    if n >= 0 {
        decimal_text(n as nat)
    } else {
        seq!['-'] + decimal_text((-(n as int)) as nat)
    }
}

/// How a value reads: a byte string as its text (or `<bytes:N>` where it
/// is not UTF-8), an integer in decimal, a list as `[a, b]` and a
/// dictionary as `{k: v, ...}`.
pub open spec fn display_text(v: Bencode) -> Seq<char>
    decreases v,
{
    match v {
        Bencode::Bytes(b) => if valid_utf8(b) {
            decode_utf8(b)
        } else {
            "<bytes:"@ + decimal_text(b.len()) + seq!['>']
        },
        Bencode::Int(n) => int_chars(n),
        Bencode::List(items) => seq!['['] + display_list(items) + seq![']'],
        Bencode::Dict(entries) => seq!['{'] + display_entries(entries) + seq!['}'],
    }
}

/// List items as they read, separated by `, `.
pub open spec fn display_list(items: Seq<Bencode>) -> Seq<char>
    decreases items,
{
    if items.len() == 0 {
        Seq::empty()
    } else if items.len() == 1 {
        display_text(items[0])
    } else {
        display_list(items.drop_last()) + ", "@ + display_text(items.last())
    }
}

/// Dictionary entries as `key: value`, separated by `, `.
pub open spec fn display_entries(entries: Seq<(Seq<char>, Bencode)>) -> Seq<char>
    decreases entries,
{
    if entries.len() == 0 {
        Seq::empty()
    } else if entries.len() == 1 {
        entries[0].0 + ": "@ + display_text(entries[0].1)
    } else {
        display_entries(entries.drop_last()) + ", "@ + entries.last().0 + ": "@ + display_text(entries.last().1)
    }
}

fn display_items(items: &Vec<Value>, out: &mut String)
    ensures
        final(out)@ == old(out)@ + display_list(value_models(items@)),
    decreases items@, 0nat,
{
    let mut i: usize = 0;
    assert(value_models(items@.take(0)) =~= Seq::<Bencode>::empty());
    assert(old(out)@ + display_list(Seq::<Bencode>::empty()) =~= old(out)@);
    while i < items.len()
        invariant
            i <= items@.len(),
            out@ == old(out)@ + display_list(value_models(items@.take(i as int))),
        decreases items@.len() - i,
    {
        if i > 0 {
            push_str(out, ", ");
        }
        display_into(&items[i], out);
        proof {
            assert(items@.take(i + 1).drop_last() =~= items@.take(i as int));
            let m = value_models(items@.take(i + 1));
            assert(m == value_models(items@.take(i as int)).push(items@[i as int].model()));
            assert(m.drop_last() =~= value_models(items@.take(i as int)));
            if i == 0 {
                assert(m.len() == 1);
                assert(m[0] == items@[0].model());
            }
            assert(out@ =~= old(out)@ + display_list(m));
        }
        i = i + 1;
    }
    assert(items@.take(i as int) =~= items@);
}

fn display_dict_entries(entries: &Vec<(String, Value)>, out: &mut String)
    ensures
        final(out)@ == old(out)@ + display_entries(entry_models(entries@)),
    decreases entries@, 0nat,
{
    let mut i: usize = 0;
    assert(entry_models(entries@.take(0)) =~= Seq::<(Seq<char>, Bencode)>::empty());
    assert(old(out)@ + display_entries(Seq::<(Seq<char>, Bencode)>::empty()) =~= old(out)@);
    while i < entries.len()
        invariant
            i <= entries@.len(),
            out@ == old(out)@ + display_entries(entry_models(entries@.take(i as int))),
        decreases entries@.len() - i,
    {
        if i > 0 {
            push_str(out, ", ");
        }
        push_str(out, entries[i].0.as_str());
        push_str(out, ": ");
        display_into(&entries[i].1, out);
        proof {
            assert(entries@.take(i + 1).drop_last() =~= entries@.take(i as int));
            let m = entry_models(entries@.take(i + 1));
            assert(m == entry_models(entries@.take(i as int)).push(
                (entries@[i as int].0@, entries@[i as int].1.model()),
            ));
            assert(m.drop_last() =~= entry_models(entries@.take(i as int)));
            if i == 0 {
                assert(m.len() == 1);
                assert(m[0] == (entries@[0].0@, entries@[0].1.model()));
            }
            assert(out@ =~= old(out)@ + display_entries(m));
        }
        i = i + 1;
    }
    assert(entries@.take(i as int) =~= entries@);
}

fn display_into(value: &Value, out: &mut String)
    ensures
        final(out)@ == old(out)@ + display_text(value@),
    decreases value, 1nat,
{
    match value {
        Value::Bytes(b) => match decode_text(b.as_slice()) {
            Some(t) => push_str(out, t.as_str()),
            None => {
                push_str(out, "<bytes:");
                push_decimal_text(out, b.len() as u64);
                push_char(out, '>');
            },
        },
        Value::Int(n) => {
            if *n >= 0 {
                push_decimal_text(out, *n as u64);
            } else {
                push_char(out, '-');
                let m: u64 = if *n == i64::MIN {
                    9223372036854775808u64
                } else {
                    (-*n) as u64
                };
                push_decimal_text(out, m);
            }
        },
        Value::List(items) => {
            push_char(out, '[');
            display_items(items, out);
            push_char(out, ']');
        },
        Value::Dict(entries) => {
            push_char(out, '{');
            display_dict_entries(entries, out);
            push_char(out, '}');
        },
    }
    assert(final(out)@ =~= old(out)@ + display_text(value@));
}

impl Value {
    /// How the value reads (its `Display` text).
    pub fn display(&self) -> (r: String)
        ensures
            r@ == display_text(self@),
    {
        let mut out = String::new();
        display_into(self, &mut out);
        assert(out@ =~= display_text(self@));
        out
    }
}

/// The text of a decoding error.
pub open spec fn fault_text(e: Fault) -> Seq<char> {
    match e {
        Fault::Eof => "unexpected end of input"@,
        Fault::Invalid(m) => "invalid bencode: "@ + m,
    }
}

impl DecodeError {
    /// The text of the error (its `Display` text).
    pub fn message(&self) -> (r: String)
        ensures
            r@ == fault_text(self@),
    {
        match self {
            DecodeError::UnexpectedEof => string_from("unexpected end of input"),
            DecodeError::InvalidFormat(m) => {
                let mut s = string_from("invalid bencode: ");
                push_str(&mut s, m.as_str());
                s
            },
        }
    }
}

// ---------------------------------------------------------------------
// Decimal text as `str::parse` reads it
// ---------------------------------------------------------------------

/// `usize::from_str` on ASCII text: an optional `+`, then one or more
/// digits, of value at most `usize::MAX`.
pub open spec fn parse_usize_spec(s: Seq<u8>) -> Option<nat> {
    digits_within(unsigned_digits(s), usize::MAX as nat)
}

/// `i64::from_str` on ASCII text: an optional sign, then one or more digits,
/// of value within `i64`.
pub open spec fn parse_i64_spec(s: Seq<u8>) -> Option<i64> {
    if s.len() > 0 && s[0] == 45u8 {
        match digits_within(s.skip(1), 0x8000_0000_0000_0000nat) {
            Some(m) => Some((-(m as int)) as i64),
            None => None,
        }
    } else {
        match digits_within(unsigned_digits(s), i64::MAX as nat) {
            Some(m) => Some(m as i64),
            None => None,
        }
    }
}

fn parse_usize(s: &[u8]) -> (r: Option<usize>)
    ensures
        match r {
            Some(v) => parse_usize_spec(s@) == Some(v as nat),
            None => parse_usize_spec(s@) is None,
        },
{
    let d = if s.len() > 0 && s[0] == 43u8 {
        &s[1..s.len()]
    } else {
        s
    };
    assert(d@ =~= unsigned_digits(s@));
    match digits_upto(d, usize::MAX as u64) {
        Some(v) => Some(v as usize),
        None => None,
    }
}

fn parse_i64(s: &[u8]) -> (r: Option<i64>)
    ensures
        r == parse_i64_spec(s@),
{
    if s.len() > 0 && s[0] == 45u8 {
        let d = &s[1..s.len()];
        assert(d@ =~= s@.skip(1));
        match digits_upto(d, 0x8000_0000_0000_0000u64) {
            Some(m) => {
                if m == 0x8000_0000_0000_0000u64 {
                    Some(i64::MIN)
                } else {
                    Some(-(m as i64))
                }
            },
            None => None,
        }
    } else {
        let d = if s.len() > 0 && s[0] == 43u8 {
            &s[1..s.len()]
        } else {
            s
        };
        assert(d@ =~= unsigned_digits(s@));
        match digits_upto(d, i64::MAX as u64) {
            Some(m) => Some(m as i64),
            None => None,
        }
    }
}

// ---------------------------------------------------------------------
// Decoding
// ---------------------------------------------------------------------

/// Why bytes are not a bencode value.
#[derive(Debug)]
pub enum DecodeError {
    UnexpectedEof,
    InvalidFormat(String),
}

/// Mathematical model of a decoding error.
pub enum Fault {
    Eof,
    Invalid(Seq<char>),
}

impl View for DecodeError {
    type V = Fault;

    open spec fn view(&self) -> Fault {
        match self {
            DecodeError::UnexpectedEof => Fault::Eof,
            DecodeError::InvalidFormat(m) => Fault::Invalid(m@),
        }
    }
}

/// Position of the first occurrence of byte `b`.
pub open spec fn find_byte(s: Seq<u8>, b: u8) -> Option<nat>
    decreases s.len(),
{
    if s.len() == 0 {
        None
    } else if s[0] == b {
        Some(0)
    } else {
        match find_byte(s.skip(1), b) {
            Some(i) => Some(i + 1),
            None => None,
        }
    }
}

/// A byte shown as the character of the same code.
pub open spec fn byte_char(b: u8) -> char {
    b as char
}

/// Decoding of a byte string `<len>:<bytes>` whose first byte has been read
/// as part of the length: the bytes, and how many bytes it took.
pub open spec fn decode_string_spec(data: Seq<u8>) -> Result<(Seq<u8>, nat), Fault> {
    let p = crate::bytes::digit_run(data.skip(1)) as int;
    if 1 + p >= data.len() {
        Err(Fault::Eof)
    } else if data[1 + p] != 58u8 {
        Err(Fault::Invalid("expected digit or ':', got '"@ + seq![byte_char(data[1 + p])] + "'"@))
    } else {
        let lb = data.take(1 + p);
        if !valid_utf8(lb) {
            Err(Fault::Invalid("invalid length"@))
        } else {
            match parse_usize_spec(lb) {
                None => Err(Fault::Invalid("invalid length: "@ + decode_utf8(lb))),
                Some(len) => {
                    let start = p + 2;
                    if start + len > data.len() {
                        Err(Fault::Eof)
                    } else {
                        Ok((data.subrange(start, start + len), (start + len) as nat))
                    }
                },
            }
        }
    }
}

/// Decoding of the first bencode value in `data`: the value and how many
/// bytes it took.
pub open spec fn decode_spec(data: Seq<u8>) -> Result<(Bencode, nat), Fault>
    decreases data.len(), 0nat,
{
    if data.len() == 0 {
        Err(Fault::Eof)
    } else {
        let b = data[0];
        if b == 105u8 {
            match find_byte(data.skip(1), 101u8) {
                None => Err(Fault::Eof),
                Some(k) => {
                    let digits = data.subrange(1, 1 + k as int);
                    if !valid_utf8(digits) {
                        Err(Fault::Invalid("invalid integer bytes"@))
                    } else {
                        match parse_i64_spec(digits) {
                            None => Err(Fault::Invalid("invalid integer: "@ + decode_utf8(digits))),
                            Some(n) => Ok((Bencode::Int(n), k + 2)),
                        }
                    }
                },
            }
        } else if b == 108u8 {
            match decode_list_spec(data.skip(1)) {
                Ok((items, n)) => Ok((Bencode::List(items), n + 1)),
                Err(e) => Err(e),
            }
        } else if b == 100u8 {
            match decode_dict_spec(data.skip(1)) {
                Ok((pairs, n)) => Ok((Bencode::Dict(insert_all(Seq::empty(), pairs)), n + 1)),
                Err(e) => Err(e),
            }
        } else if is_digit(b) {
            match decode_string_spec(data) {
                Ok((bytes, n)) => Ok((Bencode::Bytes(bytes), n)),
                Err(e) => Err(e),
            }
        } else {
            Err(Fault::Invalid("unexpected byte: "@ + seq![byte_char(b)]))
        }
    }
}

/// Decoding of list items up to and including the closing `e`.
pub open spec fn decode_list_spec(data: Seq<u8>) -> Result<(Seq<Bencode>, nat), Fault>
    decreases data.len(), 1nat,
{
    if data.len() == 0 {
        Err(Fault::Eof)
    } else if data[0] == 101u8 {
        Ok((Seq::empty(), 1))
    } else {
        match decode_spec(data) {
            Err(e) => Err(e),
            Ok((v, c)) => if 0 < c && c <= data.len() {
                match decode_list_spec(data.skip(c as int)) {
                    Ok((vs, n)) => Ok((seq![v] + vs, c + n)),
                    Err(e) => Err(e),
                }
            } else {
                Err(Fault::Eof)
            },
        }
    }
}

/// Decoding of dictionary entries, in the order they appear, up to and
/// including the closing `e`.
pub open spec fn decode_dict_spec(data: Seq<u8>) -> Result<(Seq<(Seq<char>, Bencode)>, nat), Fault>
    decreases data.len(), 1nat,
{
    if data.len() == 0 {
        Err(Fault::Eof)
    } else if data[0] == 101u8 {
        Ok((Seq::empty(), 1))
    } else {
        match decode_string_spec(data) {
            Err(e) => Err(e),
            Ok((kb, kc)) => if !valid_utf8(kb) {
                Err(Fault::Invalid("dict key not utf8"@))
            } else if 0 < kc && kc <= data.len() {
                match decode_spec(data.skip(kc as int)) {
                    Err(e) => Err(e),
                    Ok((v, vc)) => if 0 < vc && kc + vc <= data.len() {
                        match decode_dict_spec(data.skip((kc + vc) as int)) {
                            Ok((es, n)) => Ok((seq![(decode_utf8(kb), v)] + es, kc + vc + n)),
                            Err(e) => Err(e),
                        }
                    } else {
                        Err(Fault::Eof)
                    },
                }
            } else {
                Err(Fault::Eof)
            },
        }
    }
}

/// An executable decoding result agrees with the specified one.
pub open spec fn decoded_as(r: Result<(Value, usize), DecodeError>, s: Result<(Bencode, nat), Fault>) -> bool {
    match r {
        Ok((v, n)) => s == Ok::<(Bencode, nat), Fault>((v@, n as nat)),
        Err(e) => s == Err::<(Bencode, nat), Fault>(e@),
    }
}

proof fn lemma_insert_all_push(
    acc: Seq<(Seq<char>, Bencode)>,
    raw: Seq<(Seq<char>, Bencode)>,
    x: (Seq<char>, Bencode),
)
    ensures
        insert_all(acc, raw.push(x)) == insert_entry(insert_all(acc, raw), x.0, x.1),
    decreases raw.len(),
{
    if raw.len() == 0 {
        assert(raw.push(x).skip(1) =~= Seq::<(Seq<char>, Bencode)>::empty());
        assert(raw.push(x)[0] == x);
        assert(raw =~= Seq::<(Seq<char>, Bencode)>::empty());
        let e = insert_entry(acc, x.0, x.1);
        assert(insert_all(e, Seq::<(Seq<char>, Bencode)>::empty()) == e);
        assert(insert_all(acc, raw) == acc);
    } else {
        lemma_insert_all_push(insert_entry(acc, raw[0].0, raw[0].1), raw.skip(1), x);
        assert(raw.push(x).skip(1) =~= raw.skip(1).push(x));
        assert(raw.push(x)[0] == raw[0]);
    }
}

proof fn lemma_find_byte(s: Seq<u8>, b: u8, k: int)
    requires
        0 <= k <= s.len(),
        forall|j: int| 0 <= j < k ==> s[j] != b,
    ensures
        k < s.len() && s[k] == b ==> find_byte(s, b) == Some(k as nat),
        k == s.len() ==> find_byte(s, b) is None,
    decreases k,
{
    if k > 0 {
        lemma_find_byte(s.skip(1), b, k - 1);
    }
}

fn byte_as_char(b: u8) -> (c: char)
    ensures
        c == byte_char(b),
{
    b as char
}

fn decode_string(data: &[u8]) -> (r: Result<(Vec<u8>, usize), DecodeError>)
    requires
        data@.len() >= 1,
    ensures
        match (r, decode_string_spec(data@)) {
            (Ok((b, n)), Ok((sb, sn))) => b@ == sb && n == sn && 1 <= n <= data@.len(),
            (Err(e), Err(f)) => e@ == f,
            _ => false,
        },
{
    let mut p: usize = 1;
    while p < data.len() && data[p] >= 48u8 && data[p] <= 57u8
        invariant
            1 <= p <= data@.len(),
            all_digits(data@.skip(1).take(p - 1)),
        decreases data@.len() - p,
    {
        proof {
            assert forall|i: int| 0 <= i < p implies is_digit(#[trigger] data@.skip(1).take(p as int)[i]) by {
                if i < p - 1 {
                    assert(data@.skip(1).take(p as int)[i] == data@.skip(1).take(p - 1)[i]);
                } else {
                    assert(data@.skip(1).take(p as int)[i] == data@[p as int]);
                }
            }
        }
        p = p + 1;
    }
    proof {
        crate::bytes::lemma_digit_run(data@.skip(1), p - 1);
    }
    if p >= data.len() {
        return Err(DecodeError::UnexpectedEof);
    }
    if data[p] != 58u8 {
        let mut msg = string_from("expected digit or ':', got '");
        let c = byte_as_char(data[p]);
        push_char(&mut msg, c);
        push_str(&mut msg, "'");
        assert(msg@ =~= "expected digit or ':', got '"@ + seq![c] + "'"@);
        assert(data@.skip(1)[p - 1] == data@[p as int]);
        return Err(DecodeError::InvalidFormat(msg));
    }
    let lb = &data[0..p];
    assert(lb@ =~= data@.take(p as int));
    match crate::text::decode_text(lb) {
        None => Err(DecodeError::InvalidFormat(string_from("invalid length"))),
        Some(text) => match parse_usize(lb) {
            None => {
                let mut msg = string_from("invalid length: ");
                push_str(&mut msg, text.as_str());
                Err(DecodeError::InvalidFormat(msg))
            },
            Some(len) => {
                let start = p + 1;
                if len > data.len() - start {
                    return Err(DecodeError::UnexpectedEof);
                }
                let bytes = copy_bytes(&data[start..start + len]);
                assert(bytes@ =~= data@.subrange(start as int, (start + len) as int));
                Ok((bytes, start + len))
            },
        },
    }
}

fn decode_list(data: &[u8]) -> (r: Result<(Value, usize), DecodeError>)
    requires
        data@.len() >= 1,
        data@[0] == 108u8,
    ensures
        decoded_as(r, decode_spec(data@)),
        r matches Ok((_, n)) ==> 1 <= n <= data@.len(),
    decreases data@.len(), 0nat,
{
    let mut items: Vec<Value> = Vec::new();
    let mut pos: usize = 1;
    proof {
        assert(value_models(items@) =~= Seq::<Bencode>::empty());
        assert(data@.skip(1) =~= data@.skip(pos as int));
        match decode_list_spec(data@.skip(1)) {
            Ok((vs, n)) => {
                assert(value_models(items@) + vs =~= vs);
            },
            Err(e) => {},
        }
    }
    loop
        invariant
            1 <= pos <= data@.len(),
            data@.len() >= 1,
            data@[0] == 108u8,
            decode_list_spec(data@.skip(1)) == match decode_list_spec(data@.skip(pos as int)) {
                Ok((vs, n)) => Ok((value_models(items@) + vs, ((pos - 1) + n) as nat)),
                Err(e) => Err(e),
            },
        decreases data@.len() - pos,
    {
        if pos >= data.len() {
            return Err(DecodeError::UnexpectedEof);
        }
        if data[pos] == 101u8 {
            proof {
                assert(value_models(items@) + Seq::<Bencode>::empty() =~= value_models(items@));
            }
            return Ok((Value::List(items), pos + 1));
        }
        let rest = &data[pos..data.len()];
        assert(rest@ =~= data@.skip(pos as int));
        match decode(rest) {
            Err(e) => {
                return Err(e);
            },
            Ok((v, c)) => {
                let ghost old_items = items@;
                proof {
                    assert(data@.skip(pos as int).skip(c as int) =~= data@.skip(pos + c));
                }
                items.push(v);
                pos = pos + c;
                proof {
                    assert(items@.drop_last() =~= old_items);
                    assert(value_models(items@) == value_models(old_items).push(v@));
                    match decode_list_spec(data@.skip(pos as int)) {
                        Ok((vs, n)) => {
                            assert(value_models(old_items) + (seq![v@] + vs) =~= value_models(items@) + vs);
                        },
                        Err(e) => {},
                    }
                }
            },
        }
    }
}

#[verifier::spinoff_prover]
#[verifier::rlimit(80)]
fn decode_dict(data: &[u8]) -> (r: Result<(Value, usize), DecodeError>)
    requires
        data@.len() >= 1,
        data@[0] == 100u8,
    ensures
        decoded_as(r, decode_spec(data@)),
        r matches Ok((_, n)) ==> 1 <= n <= data@.len(),
    decreases data@.len(), 0nat,
{
    let mut entries: Vec<(String, Value)> = Vec::new();
    let ghost mut raw: Seq<(Seq<char>, Bencode)> = Seq::empty();
    let mut pos: usize = 1;
    proof {
        assert(entry_models(entries@) =~= Seq::<(Seq<char>, Bencode)>::empty());
        assert(data@.skip(1) =~= data@.skip(pos as int));
        match decode_dict_spec(data@.skip(1)) {
            Ok((es, n)) => {
                assert(raw + es =~= es);
            },
            Err(e) => {},
        }
    }
    loop
        invariant
            1 <= pos <= data@.len(),
            data@.len() >= 1,
            data@[0] == 100u8,
            entry_models(entries@) == insert_all(Seq::empty(), raw),
            decode_dict_spec(data@.skip(1)) == match decode_dict_spec(data@.skip(pos as int)) {
                Ok((es, n)) => Ok((raw + es, ((pos - 1) + n) as nat)),
                Err(e) => Err(e),
            },
        decreases data@.len() - pos,
    {
        if pos >= data.len() {
            return Err(DecodeError::UnexpectedEof);
        }
        if data[pos] == 101u8 {
            proof {
                assert(raw + Seq::<(Seq<char>, Bencode)>::empty() =~= raw);
            }
            return Ok((Value::Dict(entries), pos + 1));
        }
        let rest = &data[pos..data.len()];
        assert(rest@ =~= data@.skip(pos as int));
        match decode_string(rest) {
            Err(e) => {
                return Err(e);
            },
            Ok((kb, kc)) => {
                let key = match crate::text::decode_text(kb.as_slice()) {
                    Some(k) => k,
                    None => {
                        return Err(DecodeError::InvalidFormat(string_from("dict key not utf8")));
                    },
                };
                let rest2 = &data[pos + kc..data.len()];
                assert(rest2@ =~= data@.skip(pos as int).skip(kc as int));
                match decode(rest2) {
                    Err(e) => {
                        return Err(e);
                    },
                    Ok((v, vc)) => {
                        proof {
                            assert(data@.skip(pos as int).skip(kc + vc) =~= data@.skip(pos + kc + vc));
                            lemma_insert_all_push(Seq::empty(), raw, (key@, v@));
                        }
                        let ghost old_raw = raw;
                        proof {
                            raw = raw.push((key@, v@));
                        }
                        insert_sorted(&mut entries, key, v);
                        pos = pos + kc + vc;
                        proof {
                            match decode_dict_spec(data@.skip(pos as int)) {
                                Ok((es, n)) => {
                                    assert(old_raw + (seq![raw.last()] + es) =~= raw + es);
                                },
                                Err(e) => {},
                            }
                        }
                    },
                }
            },
        }
    }
}

/// Decode the first bencode value in `data`, with the number of bytes it took.
pub fn decode(data: &[u8]) -> (r: Result<(Value, usize), DecodeError>)
    ensures
        decoded_as(r, decode_spec(data@)),
        r matches Ok((_, n)) ==> 1 <= n <= data@.len(),
    decreases data@.len(), 1nat,
{
    if data.len() == 0 {
        return Err(DecodeError::UnexpectedEof);
    }
    let b = data[0];
    if b == 105u8 {
        let mut j: usize = 1;
        while j < data.len() && data[j] != 101u8
            invariant
                1 <= j <= data@.len(),
                forall|i: int| 0 <= i < j - 1 ==> data@.skip(1)[i] != 101u8,
            decreases data@.len() - j,
        {
            j = j + 1;
        }
        proof {
            lemma_find_byte(data@.skip(1), 101u8, j - 1);
        }
        if j >= data.len() {
            return Err(DecodeError::UnexpectedEof);
        }
        let digits = &data[1..j];
        assert(digits@ =~= data@.subrange(1, j as int));
        match crate::text::decode_text(digits) {
            None => Err(DecodeError::InvalidFormat(string_from("invalid integer bytes"))),
            Some(text) => match parse_i64(digits) {
                None => {
                    let mut msg = string_from("invalid integer: ");
                    push_str(&mut msg, text.as_str());
                    Err(DecodeError::InvalidFormat(msg))
                },
                Some(n) => Ok((Value::Int(n), j + 1)),
            },
        }
    } else if b == 108u8 {
        decode_list(data)
    } else if b == 100u8 {
        decode_dict(data)
    } else if b >= 48u8 && b <= 57u8 {
        match decode_string(data) {
            Ok((bytes, n)) => Ok((Value::Bytes(bytes), n)),
            Err(e) => Err(e),
        }
    } else {
        let mut msg = string_from("unexpected byte: ");
        let c = byte_as_char(b);
        push_char(&mut msg, c);
        assert(msg@ =~= "unexpected byte: "@ + seq![c]);
        Err(DecodeError::InvalidFormat(msg))
    }
}

/// Decode one bencode value from the start of `data` (bytes after it are
/// left alone).
pub fn decode_bytes(data: &[u8]) -> (r: Result<Value, DecodeError>)
    ensures
        match r {
            Ok(v) => decode_spec(data@) matches Ok((m, _)) && m == v@,
            Err(e) => decode_spec(data@) == Err::<(Bencode, nat), Fault>(e@),
        },
{
    match decode(data) {
        Ok((v, _)) => Ok(v),
        Err(e) => Err(e),
    }
}

// ---------------------------------------------------------------------
// Round trip
// ---------------------------------------------------------------------

/// A value that decoding can give back: dictionaries keep their keys in
/// strictly increasing order, and every length fits a `usize`.
pub open spec fn well_formed(v: Bencode) -> bool
    decreases v,
{
    match v {
        Bencode::Bytes(b) => b.len() <= usize::MAX,
        Bencode::Int(_) => true,
        Bencode::List(items) => well_formed_list(items),
        Bencode::Dict(entries) => sorted_keys(entries) && well_formed_entries(entries),
    }
}

pub open spec fn well_formed_list(items: Seq<Bencode>) -> bool
    decreases items,
{
    if items.len() == 0 {
        true
    } else {
        well_formed_list(items.drop_last()) && well_formed(items.last())
    }
}

pub open spec fn well_formed_entries(entries: Seq<(Seq<char>, Bencode)>) -> bool
    decreases entries,
{
    if entries.len() == 0 {
        true
    } else {
        well_formed_entries(entries.drop_last()) && encode_utf8(entries.last().0).len() <= usize::MAX
            && well_formed(entries.last().1)
    }
}

proof fn lemma_ascii_valid(s: Seq<u8>)
    requires
        forall|i: int| 0 <= i < s.len() ==> s[i] < 128,
    ensures
        valid_utf8(s),
    decreases s.len(),
{
    if s.len() > 0 {
        let b = s[0];
        assert(b < 128);
        assert((b & 0x7Fu8) as u32 <= 0x7Fu32) by (bit_vector);
        assert(valid_first_scalar(s));
        assert(pop_first_scalar(s) =~= s.skip(1));
        lemma_ascii_valid(s.skip(1));
    }
}

proof fn lemma_decimal_ascii(n: nat)
    ensures
        valid_utf8(decimal(n)),
        forall|i: int| 0 <= i < decimal(n).len() ==> is_digit(#[trigger] decimal(n)[i]),
{
    lemma_decimal_digits(n);
    lemma_ascii_valid(decimal(n));
}

proof fn lemma_parse_decimal(n: nat)
    requires
        n <= usize::MAX,
    ensures
        parse_usize_spec(decimal(n)) == Some(n),
{
    lemma_decimal_digits(n);
    assert(is_digit(decimal(n)[0]));
}

proof fn lemma_int_text(n: i64)
    ensures
        valid_utf8(int_text(n)),
        parse_i64_spec(int_text(n)) == Some(n),
        forall|i: int| 0 <= i < int_text(n).len() ==> #[trigger] int_text(n)[i] != 101u8,
        int_text(n).len() > 0,
{
    if n >= 0 {
        lemma_decimal_ascii(n as nat);
        lemma_decimal_digits(n as nat);
        assert(is_digit(decimal(n as nat)[0]));
    } else {
        let m = (-(n as int)) as nat;
        let t = int_text(n);
        lemma_decimal_ascii(m);
        lemma_decimal_digits(m);
        assert(t.skip(1) =~= decimal(m));
        assert forall|i: int| 0 <= i < t.len() implies t[i] < 128 by {
            if i > 0 {
                assert(t[i] == decimal(m)[i - 1]);
            }
        }
        lemma_ascii_valid(t);
        assert forall|i: int| 0 <= i < t.len() implies #[trigger] t[i] != 101u8 by {
            if i > 0 {
                assert(t[i] == decimal(m)[i - 1]);
            }
        }
        assert(m <= 0x8000_0000_0000_0000nat);
        assert((-(m as int)) as i64 == n);
    }
}

proof fn lemma_decode_byte_string(b: Seq<u8>, rest: Seq<u8>)
    requires
        b.len() <= usize::MAX,
    ensures
        decode_string_spec(byte_string(b) + rest) == Ok::<(Seq<u8>, nat), Fault>(
            (b, byte_string(b).len()),
        ),
        (byte_string(b) + rest)[0] != 101u8,
        is_digit((byte_string(b) + rest)[0]),
{
    let d = decimal(b.len());
    let data = byte_string(b) + rest;
    lemma_decimal_digits(b.len());
    lemma_decimal_ascii(b.len());
    assert(data =~= d + (seq![58u8] + b + rest));
    let k = d.len() - 1;
    assert(all_digits(data.skip(1).take(k))) by {
        assert forall|i: int| 0 <= i < k implies is_digit(#[trigger] data.skip(1).take(k)[i]) by {
            assert(data.skip(1).take(k)[i] == d[i + 1]);
        }
    }
    assert(data.skip(1)[k] == 58u8);
    crate::bytes::lemma_digit_run(data.skip(1), k);
    assert(data.take(d.len() as int) =~= d);
    lemma_parse_decimal(b.len());
    assert(data.subrange(d.len() + 1int, d.len() + 1int + b.len()) =~= b);
    assert(data[0] == d[0]);
}

/// The encoding of a non-empty list splits after its first item.
proof fn lemma_list_front(ms: Seq<Bencode>)
    requires
        ms.len() > 0,
    ensures
        encode_list(ms) == encode_spec(ms[0]) + encode_list(ms.drop_first()),
        well_formed_list(ms) ==> well_formed(ms[0]) && well_formed_list(ms.drop_first()),
    decreases ms.len(),
{
    if ms.len() == 1 {
        assert(ms.drop_last() =~= Seq::<Bencode>::empty());
        assert(ms.drop_first() =~= Seq::<Bencode>::empty());
        assert(encode_list(ms) =~= encode_spec(ms[0]) + encode_list(ms.drop_first()));
    } else {
        let init = ms.drop_last();
        lemma_list_front(init);
        assert(init.drop_first() =~= ms.drop_first().drop_last());
        assert(ms.drop_first().last() == ms.last());
        assert(encode_list(ms) =~= encode_spec(ms[0]) + encode_list(ms.drop_first()));
    }
}

/// The encoding of non-empty entries splits after the first entry.
proof fn lemma_entries_front(es: Seq<(Seq<char>, Bencode)>)
    requires
        es.len() > 0,
    ensures
        encode_entries(es) == byte_string(encode_utf8(es[0].0)) + encode_spec(es[0].1) + encode_entries(
            es.drop_first(),
        ),
        well_formed_entries(es) ==> encode_utf8(es[0].0).len() <= usize::MAX && well_formed(es[0].1)
            && well_formed_entries(es.drop_first()),
    decreases es.len(),
{
    if es.len() == 1 {
        assert(es.drop_last() =~= Seq::<(Seq<char>, Bencode)>::empty());
        assert(es.drop_first() =~= Seq::<(Seq<char>, Bencode)>::empty());
        assert(encode_entries(es) =~= byte_string(encode_utf8(es[0].0)) + encode_spec(es[0].1)
            + encode_entries(es.drop_first()));
    } else {
        let init = es.drop_last();
        lemma_entries_front(init);
        assert(init.drop_first() =~= es.drop_first().drop_last());
        assert(es.drop_first().last() == es.last());
        assert(encode_entries(es) =~= byte_string(encode_utf8(es[0].0)) + encode_spec(es[0].1)
            + encode_entries(es.drop_first()));
    }
}

/// No encoding is empty, and none starts with the closing `e`.
proof fn lemma_first_byte(v: Bencode)
    ensures
        encode_spec(v).len() > 0,
        encode_spec(v)[0] != 101u8,
{
    match v {
        Bencode::Bytes(b) => {
            lemma_decimal_digits(b.len());
            assert(is_digit(decimal(b.len())[0]));
        },
        _ => {},
    }
}

proof fn lemma_insert_entry_greater(s: Seq<(Seq<char>, Bencode)>, k: Seq<char>, v: Bencode)
    requires
        forall|i: int| 0 <= i < s.len() ==> key_less(#[trigger] s[i].0, k),
    ensures
        insert_entry(s, k, v) == s.push((k, v)),
    decreases s.len(),
{
    if s.len() > 0 {
        lemma_key_less_asymmetric(s[0].0, k);
        let t = s.skip(1);
        assert forall|i: int| 0 <= i < t.len() implies key_less(#[trigger] t[i].0, k) by {
            assert(t[i] == s[i + 1]);
        }
        lemma_insert_entry_greater(t, k, v);
        assert(seq![s[0]] + t.push((k, v)) =~= s.push((k, v)));
    } else {
        assert(seq![(k, v)] =~= s.push((k, v)));
    }
}

proof fn lemma_insert_all_sorted(acc: Seq<(Seq<char>, Bencode)>, es: Seq<(Seq<char>, Bencode)>)
    requires
        sorted_keys(acc + es),
    ensures
        insert_all(acc, es) == acc + es,
    decreases es.len(),
{
    if es.len() == 0 {
        assert(acc + es =~= acc);
    } else {
        let all = acc + es;
        assert forall|i: int| 0 <= i < acc.len() implies key_less(#[trigger] acc[i].0, es[0].0) by {
            assert(all[i] == acc[i]);
            assert(all[acc.len() as int] == es[0]);
        }
        lemma_insert_entry_greater(acc, es[0].0, es[0].1);
        let acc2 = acc.push(es[0]);
        assert(acc2 + es.skip(1) =~= all);
        lemma_insert_all_sorted(acc2, es.skip(1));
    }
}

/// Decoding the encoding of a well-formed value, followed by anything, gives
/// the value back and consumes exactly its encoding.
pub proof fn lemma_decode_encode(v: Bencode, rest: Seq<u8>)
    requires
        well_formed(v),
    ensures
        decode_spec(encode_spec(v) + rest) == Ok::<(Bencode, nat), Fault>((v, encode_spec(v).len())),
    decreases v,
{
    let data = encode_spec(v) + rest;
    match v {
        Bencode::Bytes(b) => {
            lemma_decode_byte_string(b, rest);
        },
        Bencode::Int(n) => {
            let t = int_text(n);
            lemma_int_text(n);
            assert(data.skip(1) =~= t + (seq![101u8] + rest));
            assert forall|j: int| 0 <= j < t.len() implies data.skip(1)[j] != 101u8 by {
                assert(data.skip(1)[j] == t[j]);
            }
            assert(data.skip(1)[t.len() as int] == 101u8);
            lemma_find_byte(data.skip(1), 101u8, t.len() as int);
            assert(data.subrange(1, 1 + t.len() as int) =~= t);
        },
        Bencode::List(items) => {
            assert(data.skip(1) =~= encode_list(items) + seq![101u8] + rest);
            lemma_decode_list(items, rest);
        },
        Bencode::Dict(entries) => {
            assert(data.skip(1) =~= encode_entries(entries) + seq![101u8] + rest);
            lemma_decode_entries(entries, rest);
            lemma_insert_all_sorted(Seq::empty(), entries);
            assert(Seq::<(Seq<char>, Bencode)>::empty() + entries =~= entries);
        },
    }
}

proof fn lemma_decode_list(ms: Seq<Bencode>, rest: Seq<u8>)
    requires
        well_formed_list(ms),
    ensures
        decode_list_spec(encode_list(ms) + seq![101u8] + rest) == Ok::<(Seq<Bencode>, nat), Fault>(
            (ms, encode_list(ms).len() + 1),
        ),
    decreases ms,
{
    let data = encode_list(ms) + seq![101u8] + rest;
    if ms.len() == 0 {
        assert(data[0] == 101u8);
        assert(ms =~= Seq::<Bencode>::empty());
    } else {
        lemma_list_front(ms);
        let head = encode_spec(ms[0]);
        let tail = ms.drop_first();
        let after = encode_list(tail) + seq![101u8] + rest;
        assert(data =~= head + after);
        lemma_first_byte(ms[0]);
        lemma_decode_encode(ms[0], after);
        assert(data.skip(head.len() as int) =~= after);
        lemma_decode_list(tail, rest);
        assert(seq![ms[0]] + tail =~= ms);
        assert(data[0] == head[0]);
        assert(decode_list_spec(data) == Ok::<(Seq<Bencode>, nat), Fault>(
            (seq![ms[0]] + tail, head.len() + encode_list(tail).len() + 1),
        ));
    }
}

proof fn lemma_dict_step(
    data: Seq<u8>,
    kb: Seq<u8>,
    kc: nat,
    v: Bencode,
    vc: nat,
    tail: Seq<(Seq<char>, Bencode)>,
    n: nat,
)
    requires
        data.len() > 0,
        data[0] != 101u8,
        decode_string_spec(data) == Ok::<(Seq<u8>, nat), Fault>((kb, kc)),
        valid_utf8(kb),
        0 < kc <= data.len(),
        decode_spec(data.skip(kc as int)) == Ok::<(Bencode, nat), Fault>((v, vc)),
        0 < vc,
        kc + vc <= data.len(),
        decode_dict_spec(data.skip((kc + vc) as int)) == Ok::<(Seq<(Seq<char>, Bencode)>, nat), Fault>(
            (tail, n),
        ),
    ensures
        decode_dict_spec(data) == Ok::<(Seq<(Seq<char>, Bencode)>, nat), Fault>(
            (seq![(decode_utf8(kb), v)] + tail, kc + vc + n),
        ),
{
}

#[verifier::spinoff_prover]
#[verifier::rlimit(50)]
proof fn lemma_decode_entries(es: Seq<(Seq<char>, Bencode)>, rest: Seq<u8>)
    requires
        well_formed_entries(es),
    ensures
        decode_dict_spec(encode_entries(es) + seq![101u8] + rest) == Ok::<
            (Seq<(Seq<char>, Bencode)>, nat),
            Fault,
        >((es, encode_entries(es).len() + 1)),
    decreases es,
{
    let data = encode_entries(es) + seq![101u8] + rest;
    if es.len() == 0 {
        assert(data[0] == 101u8);
        assert(es =~= Seq::<(Seq<char>, Bencode)>::empty());
    } else {
        lemma_entries_front(es);
        let kb = encode_utf8(es[0].0);
        let k = byte_string(kb);
        let v = encode_spec(es[0].1);
        let tail = es.drop_first();
        let after = encode_entries(tail) + seq![101u8] + rest;
        assert(data =~= k + (v + after));
        assert(decode_string_spec(data) == Ok::<(Seq<u8>, nat), Fault>((kb, k.len()))) by {
            lemma_decode_byte_string(kb, v + after);
        }
        assert(data.len() > 0 && data[0] != 101u8) by {
            lemma_decode_byte_string(kb, v + after);
        }
        assert(valid_utf8(kb) && decode_utf8(kb) == es[0].0) by {
            encode_utf8_valid_utf8(es[0].0);
            encode_utf8_decode_utf8(es[0].0);
        }
        assert(decode_spec(data.skip(k.len() as int)) == Ok::<(Bencode, nat), Fault>((es[0].1, v.len()))) by {
            assert(data.skip(k.len() as int) =~= v + after);
            lemma_decode_encode(es[0].1, after);
        }
        assert(v.len() > 0) by {
            lemma_first_byte(es[0].1);
        }
        assert(decode_dict_spec(data.skip((k.len() + v.len()) as int)) == Ok::<
            (Seq<(Seq<char>, Bencode)>, nat),
            Fault,
        >((tail, encode_entries(tail).len() + 1))) by {
            assert(data.skip((k.len() + v.len()) as int) =~= after);
            lemma_decode_entries(tail, rest);
        }
        lemma_dict_step(data, kb, k.len(), es[0].1, v.len(), tail, encode_entries(tail).len() + 1);
        assert(seq![(es[0].0, es[0].1)] + tail =~= es);
    }
}

/// Bencode round trip: decoding the encoding of a well-formed value gives the
/// value back and consumes the whole encoding.
pub proof fn lemma_bencode_roundtrip(v: Value)
    requires
        well_formed(v@),
    ensures
        decode_spec(encode_spec(v@)) == Ok::<(Bencode, nat), Fault>((v@, encode_spec(v@).len())),
{
    lemma_decode_encode(v@, Seq::empty());
    assert(encode_spec(v@) + Seq::<u8>::empty() =~= encode_spec(v@));
}

proof fn lemma_string_prefix(b: Seq<u8>, k: int)
    requires
        b.len() <= usize::MAX,
        1 <= k < byte_string(b).len(),
    ensures
        decode_string_spec(byte_string(b).take(k)) == Err::<(Seq<u8>, nat), Fault>(Fault::Eof),
        is_digit(byte_string(b).take(k)[0]),
{
    let d = decimal(b.len());
    let full = byte_string(b);
    let data = full.take(k);
    lemma_decimal_digits(b.len());
    lemma_decimal_ascii(b.len());
    assert(full =~= d + (seq![58u8] + b));
    assert(data[0] == d[0]);
    if k <= d.len() {
        let t = data.skip(1);
        assert(all_digits(t.take(t.len() as int))) by {
            assert forall|i: int| 0 <= i < t.len() implies is_digit(#[trigger] t.take(t.len() as int)[i]) by {
                assert(t.take(t.len() as int)[i] == d[i + 1]);
            }
        }
        crate::bytes::lemma_digit_run(t, t.len() as int);
    } else {
        let kd = d.len() - 1;
        let t = data.skip(1);
        assert(all_digits(t.take(kd))) by {
            assert forall|i: int| 0 <= i < kd implies is_digit(#[trigger] t.take(kd)[i]) by {
                assert(t.take(kd)[i] == d[i + 1]);
            }
        }
        assert(t[kd] == 58u8);
        crate::bytes::lemma_digit_run(t, kd);
        assert(data.take(d.len() as int) =~= d);
        lemma_parse_decimal(b.len());
    }
}

proof fn lemma_no_byte(s: Seq<u8>, b: u8)
    requires
        forall|j: int| 0 <= j < s.len() ==> s[j] != b,
    ensures
        find_byte(s, b) is None,
{
    lemma_find_byte(s, b, s.len() as int);
}

/// A strict prefix of the encoding of a well-formed value ends too soon:
/// decoding it is the unexpected-end error.
pub proof fn lemma_decode_prefix(v: Bencode, k: int)
    requires
        well_formed(v),
        0 <= k < encode_spec(v).len(),
    ensures
        decode_spec(encode_spec(v).take(k)) == Err::<(Bencode, nat), Fault>(Fault::Eof),
    decreases v, 1nat,
{
    let full = encode_spec(v);
    let data = full.take(k);
    if k > 0 {
        match v {
            Bencode::Bytes(b) => {
                lemma_string_prefix(b, k);
            },
            Bencode::Int(n) => {
                let t = int_text(n);
                lemma_int_text(n);
                assert(full =~= seq![105u8] + t + seq![101u8]);
                assert(data[0] == 105u8);
                assert forall|j: int| 0 <= j < data.skip(1).len() implies data.skip(1)[j] != 101u8 by {
                    assert(data.skip(1)[j] == t[j]);
                }
                lemma_no_byte(data.skip(1), 101u8);
            },
            Bencode::List(items) => {
                assert(full =~= seq![108u8] + (encode_list(items) + seq![101u8]));
                assert(data[0] == 108u8);
                assert(data.skip(1) =~= (encode_list(items) + seq![101u8]).take(k - 1));
                lemma_list_prefix(items, k - 1);
            },
            Bencode::Dict(entries) => {
                assert(full =~= seq![100u8] + (encode_entries(entries) + seq![101u8]));
                assert(data[0] == 100u8);
                assert(data.skip(1) =~= (encode_entries(entries) + seq![101u8]).take(k - 1));
                lemma_entries_prefix(entries, k - 1);
            },
        }
    }
}

proof fn lemma_list_prefix(ms: Seq<Bencode>, j: int)
    requires
        well_formed_list(ms),
        0 <= j < encode_list(ms).len() + 1,
    ensures
        decode_list_spec((encode_list(ms) + seq![101u8]).take(j)) == Err::<(Seq<Bencode>, nat), Fault>(Fault::Eof),
    decreases ms, 0nat,
{
    let data = (encode_list(ms) + seq![101u8]).take(j);
    if j > 0 && ms.len() > 0 {
        lemma_list_front(ms);
        let head = encode_spec(ms[0]);
        let tail = ms.drop_first();
        let after = encode_list(tail) + seq![101u8];
        assert(encode_list(ms) + seq![101u8] =~= head + after);
        lemma_first_byte(ms[0]);
        assert(data[0] == head[0]);
        if j < head.len() {
            assert(data =~= head.take(j));
            lemma_decode_prefix(ms[0], j);
        } else {
            let ap = after.take(j - head.len());
            assert(data =~= head + ap);
            lemma_decode_encode(ms[0], ap);
            assert(data.skip(head.len() as int) =~= ap);
            if j - head.len() == 0 {
                assert(ap.len() == 0);
            } else {
                lemma_list_prefix(tail, j - head.len());
            }
        }
    } else if j > 0 {
        assert(encode_list(ms).len() == 0);
    }
}

#[verifier::spinoff_prover]
#[verifier::rlimit(50)]
proof fn lemma_entries_prefix(es: Seq<(Seq<char>, Bencode)>, j: int)
    requires
        well_formed_entries(es),
        0 <= j < encode_entries(es).len() + 1,
    ensures
        decode_dict_spec((encode_entries(es) + seq![101u8]).take(j)) == Err::<
            (Seq<(Seq<char>, Bencode)>, nat),
            Fault,
        >(Fault::Eof),
    decreases es, 0nat,
{
    let data = (encode_entries(es) + seq![101u8]).take(j);
    if j > 0 && es.len() > 0 {
        lemma_entries_front(es);
        let kb = encode_utf8(es[0].0);
        let key = byte_string(kb);
        let val = encode_spec(es[0].1);
        let tail = es.drop_first();
        let after = encode_entries(tail) + seq![101u8];
        assert(encode_entries(es) + seq![101u8] =~= key + (val + after));
        lemma_decode_byte_string(kb, val + after);
        assert(data[0] == (key + (val + after))[0]);
        if j < key.len() {
            assert(data =~= key.take(j));
            lemma_string_prefix(kb, j);
        } else {
            let vp = (val + after).take(j - key.len());
            assert(data =~= key + vp);
            lemma_decode_byte_string(kb, vp);
            assert(valid_utf8(kb)) by {
                encode_utf8_valid_utf8(es[0].0);
            }
            assert(data.skip(key.len() as int) =~= vp);
            if j - key.len() < val.len() {
                assert(vp =~= val.take(j - key.len()));
                lemma_decode_prefix(es[0].1, j - key.len());
            } else {
                let ap = after.take(j - key.len() - val.len());
                assert(vp =~= val + ap);
                lemma_decode_encode(es[0].1, ap);
                lemma_first_byte(es[0].1);
                assert(data.skip((key.len() + val.len()) as int) =~= ap);
                if j - key.len() - val.len() == 0 {
                    assert(ap.len() == 0);
                } else {
                    lemma_entries_prefix(tail, j - key.len() - val.len());
                }
            }
        }
    } else if j > 0 {
        assert(encode_entries(es).len() == 0);
    }
}

/// The value of the last pair with key `k`, if any.
pub open spec fn last_assoc(pairs: Seq<(Seq<char>, Bencode)>, k: Seq<char>) -> Option<Bencode>
    decreases pairs.len(),
{
    if pairs.len() == 0 {
        None
    } else if pairs.last().0 == k {
        Some(pairs.last().1)
    } else {
        last_assoc(pairs.drop_last(), k)
    }
}

/// Looking a key up after inserting one entry: the inserted value for its own
/// key, what was there for any other.
pub proof fn lemma_lookup_insert_entry(s: Seq<(Seq<char>, Bencode)>, k: Seq<char>, v: Bencode, k2: Seq<char>)
    ensures
        dict_lookup(insert_entry(s, k, v), k2) == if k2 == k {
            Some(v)
        } else {
            dict_lookup(s, k2)
        },
    decreases s.len(),
{
    let r = insert_entry(s, k, v);
    if s.len() == 0 {
        assert(r == seq![(k, v)]);
        assert(r.skip(1) =~= Seq::<(Seq<char>, Bencode)>::empty());
        assert(dict_lookup(r.skip(1), k2) == None::<Bencode>);
    } else if s[0].0 == k {
        assert(r == seq![(k, v)] + s.skip(1));
        assert(r[0] == (k, v));
        assert(r.skip(1) =~= s.skip(1));
    } else if key_less(k, s[0].0) {
        assert(r == seq![(k, v)] + s);
        assert(r[0] == (k, v));
        assert(r.skip(1) =~= s);
    } else {
        lemma_lookup_insert_entry(s.skip(1), k, v, k2);
        assert(r == seq![s[0]] + insert_entry(s.skip(1), k, v));
        assert(r[0] == s[0]);
        assert(r.skip(1) =~= insert_entry(s.skip(1), k, v));
    }
}

/// Looking a key up in a dictionary built by inserting pairs in order: the
/// last pair with that key wins, and without one the starting entries answer.
pub proof fn lemma_lookup_insert_all(acc: Seq<(Seq<char>, Bencode)>, pairs: Seq<(Seq<char>, Bencode)>, k: Seq<char>)
    ensures
        dict_lookup(insert_all(acc, pairs), k) == match last_assoc(pairs, k) {
            Some(v) => Some(v),
            None => dict_lookup(acc, k),
        },
    decreases pairs.len(),
{
    if pairs.len() > 0 {
        let d = pairs.drop_last();
        let x = pairs.last();
        assert(d.push(x) =~= pairs);
        lemma_insert_all_push(acc, d, x);
        lemma_lookup_insert_entry(insert_all(acc, d), x.0, x.1, k);
        lemma_lookup_insert_all(acc, d, k);
    }
}

} // verus!
