use crate::bytes::{
    all_digits, copy_bytes, decimal, digit_run, digits_value, is_digit, lemma_decimal_digits,
    lemma_digit_run, lemma_digits_value_monotone, push_bytes, push_decimal,
};
use crate::text::decode_text;
use vstd::prelude::*;
use vstd::utf8::*;
use vstd::string::StringSliceAdditionalSpecFns;

verus! {

/// A value of the Syrup serialization format used by OCapN.
///
/// Floating-point payloads are carried as their IEEE-754 bit patterns:
/// the codec only moves those bits, it never interprets them.
#[derive(Debug, PartialEq)]
pub enum SyrupValue {
    Bool(bool),
    Integer(i64),
    Float32(u32),
    Float64(u64),
    Bytestring(Vec<u8>),
    String(String),
    Symbol(String),
    List(Vec<SyrupValue>),
    Dict(Vec<(SyrupValue, SyrupValue)>),
    Record { label: Box<SyrupValue>, fields: Vec<SyrupValue> },
}

/// Mathematical model of a Syrup value.
pub enum Syrup {
    Bool(bool),
    Integer(i64),
    Float32(u32),
    Float64(u64),
    Bytestring(Seq<u8>),
    String(Seq<char>),
    Symbol(Seq<char>),
    List(Seq<Syrup>),
    Dict(Seq<(Syrup, Syrup)>),
    Record(Box<Syrup>, Seq<Syrup>),
}

impl SyrupValue {
    pub open spec fn model(self) -> Syrup
        decreases self,
    {
        match self {
            SyrupValue::Bool(b) => Syrup::Bool(b),
            SyrupValue::Integer(n) => Syrup::Integer(n),
            SyrupValue::Float32(b) => Syrup::Float32(b),
            SyrupValue::Float64(b) => Syrup::Float64(b),
            SyrupValue::Bytestring(d) => Syrup::Bytestring(d@),
            SyrupValue::String(s) => Syrup::String(s@),
            SyrupValue::Symbol(s) => Syrup::Symbol(s@),
            SyrupValue::List(items) => Syrup::List(models(items@)),
            SyrupValue::Dict(entries) => Syrup::Dict(pair_models(entries@)),
            SyrupValue::Record { label, fields } => Syrup::Record(
                Box::new(label.model()),
                models(fields@),
            ),
        }
    }
}

/// Models of a sequence of values, element by element.
pub open spec fn models(s: Seq<SyrupValue>) -> Seq<Syrup>
    decreases s,
{
    if s.len() == 0 {
        Seq::empty()
    } else {
        models(s.drop_last()).push(s.last().model())
    }
}

/// Models of a sequence of key/value pairs, element by element.
pub open spec fn pair_models(s: Seq<(SyrupValue, SyrupValue)>) -> Seq<(Syrup, Syrup)>
    decreases s,
{
    if s.len() == 0 {
        Seq::empty()
    } else {
        pair_models(s.drop_last()).push((s.last().0.model(), s.last().1.model()))
    }
}

impl Clone for SyrupValue {
    fn clone(&self) -> (r: Self)
        ensures
            r@ == self@,
    {
        clone_value(self)
    }
}

pub fn clone_items(items: &Vec<SyrupValue>) -> (r: Vec<SyrupValue>)
    ensures
        models(r@) == models(items@),
    decreases items@, 0nat,
{
    let mut out: Vec<SyrupValue> = Vec::new();
    let mut i: usize = 0;
    while i < items.len()
        invariant
            i <= items@.len(),
            models(out@) == models(items@.take(i as int)),
        decreases items@.len() - i,
    {
        let c = clone_value(&items[i]);
        proof {
            lemma_models_push(out@, c);
            lemma_models_push(items@.take(i as int), items@[i as int]);
            assert(items@.take(i as int).push(items@[i as int]) =~= items@.take(i + 1));
        }
        out.push(c);
        i = i + 1;
    }
    assert(items@.take(i as int) =~= items@);
    out
}

/// Copies of a slice of values, with the same models.
pub fn clone_slice(items: &[SyrupValue]) -> (r: Vec<SyrupValue>)
    ensures
        models(r@) == models(items@),
{
    let mut out: Vec<SyrupValue> = Vec::new();
    let mut i: usize = 0;
    while i < items.len()
        invariant
            i <= items@.len(),
            models(out@) == models(items@.take(i as int)),
        decreases items@.len() - i,
    {
        let c = clone_value(&items[i]);
        proof {
            lemma_models_push(out@, c);
            lemma_models_push(items@.take(i as int), items@[i as int]);
            assert(items@.take(i as int).push(items@[i as int]) =~= items@.take(i + 1));
        }
        out.push(c);
        i = i + 1;
    }
    assert(items@.take(i as int) =~= items@);
    out
}

pub fn clone_entries(entries: &Vec<(SyrupValue, SyrupValue)>) -> (r: Vec<(SyrupValue, SyrupValue)>)
    ensures
        pair_models(r@) == pair_models(entries@),
    decreases entries@, 0nat,
{
    let mut out: Vec<(SyrupValue, SyrupValue)> = Vec::new();
    let mut i: usize = 0;
    while i < entries.len()
        invariant
            i <= entries@.len(),
            pair_models(out@) == pair_models(entries@.take(i as int)),
        decreases entries@.len() - i,
    {
        let k = clone_value(&entries[i].0);
        let v = clone_value(&entries[i].1);
        proof {
            lemma_pair_models_push(out@, (k, v));
            lemma_pair_models_push(entries@.take(i as int), entries@[i as int]);
            assert(entries@.take(i as int).push(entries@[i as int]) =~= entries@.take(i + 1));
        }
        out.push((k, v));
        i = i + 1;
    }
    assert(entries@.take(i as int) =~= entries@);
    out
}

/// A copy of a value with the same model.
pub fn clone_value(v: &SyrupValue) -> (r: SyrupValue)
    ensures
        r@ == v@,
    decreases v, 1nat,
{
    match v {
        SyrupValue::Bool(b) => SyrupValue::Bool(*b),
        SyrupValue::Integer(n) => SyrupValue::Integer(*n),
        SyrupValue::Float32(b) => SyrupValue::Float32(*b),
        SyrupValue::Float64(b) => SyrupValue::Float64(*b),
        SyrupValue::Bytestring(d) => SyrupValue::Bytestring(copy_bytes(d.as_slice())),
        SyrupValue::String(t) => SyrupValue::String(t.clone()),
        SyrupValue::Symbol(t) => SyrupValue::Symbol(t.clone()),
        SyrupValue::List(items) => SyrupValue::List(clone_items(items)),
        SyrupValue::Dict(entries) => SyrupValue::Dict(clone_entries(entries)),
        SyrupValue::Record { label, fields } => SyrupValue::Record {
            label: Box::new(clone_value(label)),
            fields: clone_items(fields),
        },
    }
}

impl View for SyrupValue {
    type V = Syrup;

    open spec fn view(&self) -> Syrup {
        self.model()
    }
}


// ---------------------------------------------------------------------
// Encoding
// ---------------------------------------------------------------------

pub open spec fn be_bytes_u32(x: u32) -> Seq<u8> {
    seq![(x >> 24u32) as u8, (x >> 16u32) as u8, (x >> 8u32) as u8, x as u8]
}

pub open spec fn be_bytes_u64(x: u64) -> Seq<u8> {
    seq![
        (x >> 56u64) as u8,
        (x >> 48u64) as u8,
        (x >> 40u64) as u8,
        (x >> 32u64) as u8,
        (x >> 24u64) as u8,
        (x >> 16u64) as u8,
        (x >> 8u64) as u8,
        x as u8,
    ]
}

/// A length-prefixed atom: `<len><tag><bytes>`.
pub open spec fn prefixed(tag: u8, bytes: Seq<u8>) -> Seq<u8> {
    decimal(bytes.len()) + seq![tag] + bytes
}

/// The Syrup encoding of a value.
pub open spec fn encode_spec(v: Syrup) -> Seq<u8>
    decreases v,
{
    match v {
        Syrup::Bool(b) => if b { seq![116u8] } else { seq![102u8] },
        Syrup::Integer(n) => if n >= 0 {
            decimal(n as nat) + seq![43u8]
        } else {
            decimal((-n) as nat) + seq![45u8]
        },
        Syrup::Float32(bits) => seq![70u8] + be_bytes_u32(bits),
        Syrup::Float64(bits) => seq![68u8] + be_bytes_u64(bits),
        Syrup::Bytestring(d) => prefixed(58u8, d),
        Syrup::String(s) => prefixed(34u8, encode_utf8(s)),
        Syrup::Symbol(s) => prefixed(39u8, encode_utf8(s)),
        Syrup::List(items) => seq![91u8] + encode_seq(items) + seq![93u8],
        Syrup::Dict(entries) => seq![123u8] + encode_pairs(entries) + seq![125u8],
        Syrup::Record(label, fields) => seq![60u8] + encode_spec(*label) + encode_seq(fields)
            + seq![62u8],
    }
}

/// Concatenated encodings of a sequence of values.
pub open spec fn encode_seq(items: Seq<Syrup>) -> Seq<u8>
    decreases items,
{
    if items.len() == 0 {
        Seq::empty()
    } else {
        encode_seq(items.drop_last()) + encode_spec(items.last())
    }
}

/// Concatenated encodings of key/value pairs, key first.
pub open spec fn encode_pairs(entries: Seq<(Syrup, Syrup)>) -> Seq<u8>
    decreases entries,
{
    if entries.len() == 0 {
        Seq::empty()
    } else {
        encode_pairs(entries.drop_last()) + encode_spec(entries.last().0) + encode_spec(
            entries.last().1,
        )
    }
}

/// Every integer in the value lies above `i64::MIN` (whose magnitude has no `i64`).
pub open spec fn encodable(v: Syrup) -> bool
    decreases v,
{
    match v {
        Syrup::Integer(n) => n != i64::MIN,
        Syrup::List(items) => encodable_seq(items),
        Syrup::Dict(entries) => encodable_pairs(entries),
        Syrup::Record(label, fields) => encodable(*label) && encodable_seq(fields),
        _ => true,
    }
}

pub open spec fn encodable_seq(items: Seq<Syrup>) -> bool
    decreases items,
{
    if items.len() == 0 {
        true
    } else {
        encodable_seq(items.drop_last()) && encodable(items.last())
    }
}

pub open spec fn encodable_pairs(entries: Seq<(Syrup, Syrup)>) -> bool
    decreases entries,
{
    if entries.len() == 0 {
        true
    } else {
        encodable_pairs(entries.drop_last()) && encodable(entries.last().0) && encodable(
            entries.last().1,
        )
    }
}

fn push_prefixed(tag: u8, bytes: &[u8], buf: &mut Vec<u8>)
    ensures
        final(buf)@ == old(buf)@ + prefixed(tag, bytes@),
{
    push_decimal(bytes.len() as u64, buf);
    buf.push(tag);
    push_bytes(bytes, buf);
    assert(final(buf)@ =~= old(buf)@ + prefixed(tag, bytes@));
}

/// Encode a value into a fresh buffer.
pub fn encode(value: &SyrupValue) -> (bytes: Vec<u8>)
    requires
        encodable(value@),
    ensures
        bytes@ == encode_spec(value@),
{
    let mut buf = Vec::new();
    encode_into(value, &mut buf);
    assert(buf@ =~= encode_spec(value@));
    buf
}

fn encode_items(items: &Vec<SyrupValue>, buf: &mut Vec<u8>)
    requires
        encodable_seq(models(items@)),
    ensures
        final(buf)@ == old(buf)@ + encode_seq(models(items@)),
    decreases items@, 0nat,
{
    let mut i: usize = 0;
    while i < items.len()
        invariant
            i <= items@.len(),
            encodable_seq(models(items@)),
            buf@ == old(buf)@ + encode_seq(models(items@.take(i as int))),
        decreases items@.len() - i,
    {
        proof {
            lemma_models_take(items@, i as int + 1);
            lemma_encodable_seq_index(models(items@), i as int);
        }
        encode_into(&items[i], buf);
        i = i + 1;
        proof {
            let t = items@.take(i as int);
            assert(t.drop_last() =~= items@.take(i - 1));
            let m = models(t);
            assert(m == models(t.drop_last()).push(t.last().model()));
            assert(m.drop_last() =~= models(t.drop_last()));
            assert(encode_seq(m) == encode_seq(m.drop_last()) + encode_spec(m.last()));
            assert(buf@ =~= old(buf)@ + encode_seq(m));
        }
    }
    assert(items@.take(i as int) =~= items@);
}

fn encode_entries(entries: &Vec<(SyrupValue, SyrupValue)>, buf: &mut Vec<u8>)
    requires
        encodable_pairs(pair_models(entries@)),
    ensures
        final(buf)@ == old(buf)@ + encode_pairs(pair_models(entries@)),
    decreases entries@, 0nat,
{
    let mut i: usize = 0;
    while i < entries.len()
        invariant
            i <= entries@.len(),
            encodable_pairs(pair_models(entries@)),
            buf@ == old(buf)@ + encode_pairs(pair_models(entries@.take(i as int))),
        decreases entries@.len() - i,
    {
        proof {
            lemma_pair_models_take(entries@, i as int + 1);
            lemma_encodable_pairs_index(pair_models(entries@), i as int);
        }
        encode_into(&entries[i].0, buf);
        encode_into(&entries[i].1, buf);
        i = i + 1;
        proof {
            let t = entries@.take(i as int);
            assert(t.drop_last() =~= entries@.take(i - 1));
            let m = pair_models(t);
            assert(m == pair_models(t.drop_last()).push((t.last().0.model(), t.last().1.model())));
            assert(m.drop_last() =~= pair_models(t.drop_last()));
            assert(encode_pairs(m) == encode_pairs(m.drop_last()) + encode_spec(m.last().0)
                + encode_spec(m.last().1));
            assert(buf@ =~= old(buf)@ + encode_pairs(m));
        }
    }
    assert(entries@.take(i as int) =~= entries@);
}

fn encode_into(value: &SyrupValue, buf: &mut Vec<u8>)
    requires
        encodable(value@),
    ensures
        final(buf)@ == old(buf)@ + encode_spec(value@),
    decreases value, 1nat,
{
    match value {
        SyrupValue::Bool(b) => {
            if *b {
                buf.push(116u8);
            } else {
                buf.push(102u8);
            }
        },
        SyrupValue::Integer(n) => {
            if *n >= 0 {
                push_decimal(*n as u64, buf);
                buf.push(43u8);
            } else {
                push_decimal((-*n) as u64, buf);
                buf.push(45u8);
            }
        },
        SyrupValue::Float32(bits) => {
            let x = *bits;
            buf.push(70u8);
            buf.push((x >> 24u32) as u8);
            buf.push((x >> 16u32) as u8);
            buf.push((x >> 8u32) as u8);
            buf.push(x as u8);
        },
        SyrupValue::Float64(bits) => {
            let x = *bits;
            buf.push(68u8);
            buf.push((x >> 56u64) as u8);
            buf.push((x >> 48u64) as u8);
            buf.push((x >> 40u64) as u8);
            buf.push((x >> 32u64) as u8);
            buf.push((x >> 24u64) as u8);
            buf.push((x >> 16u64) as u8);
            buf.push((x >> 8u64) as u8);
            buf.push(x as u8);
        },
        SyrupValue::Bytestring(data) => {
            push_prefixed(58u8, data.as_slice(), buf);
        },
        SyrupValue::String(s) => {
            push_prefixed(34u8, s.as_str().as_bytes(), buf);
        },
        SyrupValue::Symbol(s) => {
            push_prefixed(39u8, s.as_str().as_bytes(), buf);
        },
        SyrupValue::List(items) => {
            buf.push(91u8);
            encode_items(items, buf);
            buf.push(93u8);
        },
        SyrupValue::Dict(entries) => {
            buf.push(123u8);
            encode_entries(entries, buf);
            buf.push(125u8);
        },
        SyrupValue::Record { label, fields } => {
            buf.push(60u8);
            encode_into(label, buf);
            encode_items(fields, buf);
            buf.push(62u8);
        },
    }
    assert(final(buf)@ =~= old(buf)@ + encode_spec(value@));
}

/// Whether every integer in the value lies above `i64::MIN`, so that the
/// value can be encoded.
pub fn is_encodable(value: &SyrupValue) -> (r: bool)
    ensures
        r == encodable(value@),
    decreases value, 1nat,
{
    match value {
        SyrupValue::Integer(n) => *n != i64::MIN,
        SyrupValue::List(items) => items_encodable(items),
        SyrupValue::Dict(entries) => entries_encodable(entries),
        SyrupValue::Record { label, fields } => is_encodable(label) && items_encodable(fields),
        _ => true,
    }
}

fn items_encodable(items: &Vec<SyrupValue>) -> (r: bool)
    ensures
        r == encodable_seq(models(items@)),
    decreases items@, 0nat,
{
    let mut i: usize = 0;
    proof {
        lemma_models_take(items@, 0);
        assert(models(items@.take(0)).len() == 0);
    }
    while i < items.len()
        invariant
            i <= items@.len(),
            encodable_seq(models(items@.take(i as int))),
        decreases items@.len() - i,
    {
        proof {
            lemma_models_take(items@, i as int + 1);
        }
        let ok = is_encodable(&items[i]);
        let ghost t = items@.take(i + 1);
        proof {
            assert(t.drop_last() =~= items@.take(i as int));
            let m = models(t);
            assert(m == models(t.drop_last()).push(t.last().model()));
            assert(m.drop_last() =~= models(t.drop_last()));
        }
        if !ok {
            proof {
                lemma_models_take(items@, items@.len() as int);
                assert(items@.take(items@.len() as int) =~= items@);
                if encodable_seq(models(items@)) {
                    lemma_encodable_seq_index(models(items@), i as int);
                }
            }
            return false;
        }
        i = i + 1;
    }
    assert(items@.take(i as int) =~= items@);
    true
}

fn entries_encodable(entries: &Vec<(SyrupValue, SyrupValue)>) -> (r: bool)
    ensures
        r == encodable_pairs(pair_models(entries@)),
    decreases entries@, 0nat,
{
    let mut i: usize = 0;
    proof {
        lemma_pair_models_take(entries@, 0);
        assert(pair_models(entries@.take(0)).len() == 0);
    }
    while i < entries.len()
        invariant
            i <= entries@.len(),
            encodable_pairs(pair_models(entries@.take(i as int))),
        decreases entries@.len() - i,
    {
        proof {
            lemma_pair_models_take(entries@, i as int + 1);
        }
        let ok = is_encodable(&entries[i].0) && is_encodable(&entries[i].1);
        let ghost t = entries@.take(i + 1);
        proof {
            assert(t.drop_last() =~= entries@.take(i as int));
            let m = pair_models(t);
            assert(m == pair_models(t.drop_last()).push((t.last().0.model(), t.last().1.model())));
            assert(m.drop_last() =~= pair_models(t.drop_last()));
        }
        if !ok {
            proof {
                lemma_pair_models_take(entries@, entries@.len() as int);
                assert(entries@.take(entries@.len() as int) =~= entries@);
                if encodable_pairs(pair_models(entries@)) {
                    lemma_encodable_pairs_index(pair_models(entries@), i as int);
                }
            }
            return false;
        }
        i = i + 1;
    }
    assert(entries@.take(i as int) =~= entries@);
    true
}

// ---------------------------------------------------------------------
// Decoding
// ---------------------------------------------------------------------

/// Why a byte string is not a Syrup value.
#[derive(Debug, Clone, Copy, PartialEq, Eq)]
pub enum DecodeError {
    UnexpectedEnd,
    InvalidByte(u8),
    Utf8Error,
    InvalidNumber,
}

pub open spec fn u32_from_be(b: Seq<u8>) -> u32 {
    ((b[0] as u32) << 24u32) | ((b[1] as u32) << 16u32) | ((b[2] as u32) << 8u32) | (b[3] as u32)
}

pub open spec fn u64_from_be(b: Seq<u8>) -> u64 {
    ((b[0] as u64) << 56u64) | ((b[1] as u64) << 48u64) | ((b[2] as u64) << 40u64) | ((
    b[3] as u64) << 32u64) | ((b[4] as u64) << 24u64) | ((b[5] as u64) << 16u64) | ((
    b[6] as u64) << 8u64) | (b[7] as u64)
}

/// Two's-complement negation, as a machine word wraps it.
pub open spec fn neg_wrapping(x: i64) -> i64 {
    if x == i64::MIN {
        x
    } else {
        (-x) as i64
    }
}

/// Decoding of an atom that starts with a decimal numeral: an integer
/// (`<n>+`, `<n>-`) or a byte string, string or symbol (`<len>:`, `<len>"`, `<len>'`).
pub open spec fn decode_prefixed_spec(data: Seq<u8>) -> Result<(Syrup, nat), DecodeError> {
    let p = digit_run(data);
    if p >= data.len() {
        Err(DecodeError::UnexpectedEnd)
    } else {
        let len = digits_value(data.take(p as int));
        let tag = data[p as int];
        let start = p + 1;
        if len > usize::MAX {
            Err(DecodeError::InvalidNumber)
        } else if tag == 43u8 {
            Ok((Syrup::Integer(len as i64), start))
        } else if tag == 45u8 {
            Ok((Syrup::Integer(neg_wrapping(len as i64)), start))
        } else if tag == 58u8 || tag == 34u8 || tag == 39u8 {
            if start + len > data.len() {
                Err(DecodeError::UnexpectedEnd)
            } else {
                let bytes = data.subrange(start as int, (start + len) as int);
                if tag == 58u8 {
                    Ok((Syrup::Bytestring(bytes), start + len))
                } else if !valid_utf8(bytes) {
                    Err(DecodeError::Utf8Error)
                } else if tag == 34u8 {
                    Ok((Syrup::String(decode_utf8(bytes)), start + len))
                } else {
                    Ok((Syrup::Symbol(decode_utf8(bytes)), start + len))
                }
            }
        } else {
            Err(DecodeError::InvalidByte(tag))
        }
    }
}

/// Decoding of the first Syrup value in `data`: the value and how many bytes it took.
pub open spec fn decode_spec(data: Seq<u8>) -> Result<(Syrup, nat), DecodeError>
    decreases data.len(), 0nat,
{
    if data.len() == 0 {
        Err(DecodeError::UnexpectedEnd)
    } else {
        let b = data[0];
        if b == 116u8 {
            Ok((Syrup::Bool(true), 1))
        } else if b == 102u8 {
            Ok((Syrup::Bool(false), 1))
        } else if b == 70u8 {
            if data.len() < 5 {
                Err(DecodeError::UnexpectedEnd)
            } else {
                Ok((Syrup::Float32(u32_from_be(data.subrange(1, 5))), 5))
            }
        } else if b == 68u8 {
            if data.len() < 9 {
                Err(DecodeError::UnexpectedEnd)
            } else {
                Ok((Syrup::Float64(u64_from_be(data.subrange(1, 9))), 9))
            }
        } else if b == 91u8 {
            match decode_seq_spec(data.skip(1), 93u8) {
                Ok((items, n)) => Ok((Syrup::List(items), n + 1)),
                Err(e) => Err(e),
            }
        } else if b == 123u8 {
            match decode_pairs_spec(data.skip(1)) {
                Ok((entries, n)) => Ok((Syrup::Dict(entries), n + 1)),
                Err(e) => Err(e),
            }
        } else if b == 60u8 {
            if data.len() <= 1 {
                Err(DecodeError::UnexpectedEnd)
            } else {
                match decode_spec(data.skip(1)) {
                    Err(e) => Err(e),
                    Ok((label, lc)) => if 0 < lc && lc <= data.len() - 1 {
                        match decode_seq_spec(data.skip((1 + lc) as int), 62u8) {
                            Ok((fields, n)) => Ok((Syrup::Record(Box::new(label), fields), 1 + lc + n)),
                            Err(e) => Err(e),
                        }
                    } else {
                        Err(DecodeError::UnexpectedEnd)
                    },
                }
            }
        } else if is_digit(b) {
            decode_prefixed_spec(data)
        } else {
            Err(DecodeError::InvalidByte(b))
        }
    }
}

/// Decoding of values up to and including the byte `close`.
pub open spec fn decode_seq_spec(data: Seq<u8>, close: u8) -> Result<(Seq<Syrup>, nat), DecodeError>
    decreases data.len(), 1nat,
{
    if data.len() == 0 {
        Err(DecodeError::UnexpectedEnd)
    } else if data[0] == close {
        Ok((Seq::empty(), 1))
    } else {
        match decode_spec(data) {
            Err(e) => Err(e),
            Ok((v, c)) => if 0 < c && c <= data.len() {
                match decode_seq_spec(data.skip(c as int), close) {
                    Ok((vs, n)) => Ok((seq![v] + vs, c + n)),
                    Err(e) => Err(e),
                }
            } else {
                Err(DecodeError::UnexpectedEnd)
            },
        }
    }
}

/// Decoding of key/value pairs up to and including `}`.
pub open spec fn decode_pairs_spec(data: Seq<u8>) -> Result<(Seq<(Syrup, Syrup)>, nat), DecodeError>
    decreases data.len(), 1nat,
{
    if data.len() == 0 {
        Err(DecodeError::UnexpectedEnd)
    } else if data[0] == 125u8 {
        Ok((Seq::empty(), 1))
    } else {
        match decode_spec(data) {
            Err(e) => Err(e),
            Ok((k, kc)) => if 0 < kc && kc <= data.len() {
                match decode_spec(data.skip(kc as int)) {
                    Err(e) => Err(e),
                    Ok((v, vc)) => if 0 < vc && kc + vc <= data.len() {
                        match decode_pairs_spec(data.skip((kc + vc) as int)) {
                            Ok((es, n)) => Ok((seq![(k, v)] + es, kc + vc + n)),
                            Err(e) => Err(e),
                        }
                    } else {
                        Err(DecodeError::UnexpectedEnd)
                    },
                }
            } else {
                Err(DecodeError::UnexpectedEnd)
            },
        }
    }
}

/// An executable decoding result agrees with the specified one.
pub open spec fn decoded_as(
    r: Result<(SyrupValue, usize), DecodeError>,
    s: Result<(Syrup, nat), DecodeError>,
) -> bool {
    match r {
        Ok((v, n)) => s == Ok::<(Syrup, nat), DecodeError>((v@, n as nat)),
        Err(e) => s == Err::<(Syrup, nat), DecodeError>(e),
    }
}

fn decode_prefixed(data: &[u8]) -> (r: Result<(SyrupValue, usize), DecodeError>)
    requires
        data@.len() > 0,
        is_digit(data@[0]),
    ensures
        decoded_as(r, decode_prefixed_spec(data@)),
        r matches Ok((_, n)) ==> 1 <= n <= data@.len(),
{
    let mut pos: usize = 0;
    while pos < data.len() && data[pos] >= 48u8 && data[pos] <= 57u8
        invariant
            pos <= data@.len(),
            all_digits(data@.take(pos as int)),
        decreases data@.len() - pos,
    {
        pos = pos + 1;
        assert(all_digits(data@.take(pos as int))) by {
            assert forall|i: int| 0 <= i < pos implies is_digit(#[trigger] data@.take(pos as int)[i]) by {
                if i < pos - 1 {
                    assert(data@.take(pos as int)[i] == data@.take(pos - 1)[i]);
                }
            }
        }
    }
    proof {
        lemma_digit_run(data@, pos as int);
    }
    if pos >= data.len() {
        return Err(DecodeError::UnexpectedEnd);
    }
    let ghost digits = data@.take(pos as int);
    let mut len: usize = 0;
    let mut i: usize = 0;
    while i < pos
        invariant
            i <= pos,
            pos < data@.len(),
            digit_run(data@) == pos,
            digits == data@.take(pos as int),
            all_digits(digits),
            len as nat == digits_value(digits.take(i as int)),
        decreases pos - i,
    {
        assert(digits[i as int] == data@[i as int]);
        assert(is_digit(digits[i as int]));
        let d = (data[i] - 48u8) as usize;
        assert(digits.take(i + 1).drop_last() =~= digits.take(i as int));
        assert(digits_value(digits.take(i + 1)) == len * 10 + d);
        if len > (usize::MAX - d) / 10 {
            proof {
                assert(digits_value(digits.take(i + 1)) > usize::MAX) by (nonlinear_arith)
                    requires
                        len > (usize::MAX - d) / 10,
                        digits_value(digits.take(i + 1)) == len * 10 + d,
                        d <= 9,
                ;
                lemma_digits_value_monotone(digits, i + 1);
                assert(digits.take(pos as int) =~= digits);
            }
            return Err(DecodeError::InvalidNumber);
        }
        proof {
            assert(len * 10 + d <= usize::MAX) by (nonlinear_arith)
                requires
                    len <= (usize::MAX - d) / 10,
                    d <= 9,
            ;
        }
        len = len * 10 + d;
        i = i + 1;
    }
    assert(digits.take(pos as int) =~= digits);
    let tag = data[pos];
    let start = pos + 1;
    if tag == 43u8 {
        Ok((SyrupValue::Integer(#[verifier::truncate] (len as i64)), start))
    } else if tag == 45u8 {
        let n = #[verifier::truncate] (len as i64);
        let neg = if n == i64::MIN {
            n
        } else {
            -n
        };
        Ok((SyrupValue::Integer(neg), start))
    } else if tag == 58u8 || tag == 34u8 || tag == 39u8 {
        if len > data.len() - start {
            return Err(DecodeError::UnexpectedEnd);
        }
        let end = start + len;
        let bytes = &data[start..end];
        if tag == 58u8 {
            Ok((SyrupValue::Bytestring(copy_bytes(bytes)), end))
        } else {
            match decode_text(bytes) {
                Some(text) => {
                    if tag == 34u8 {
                        Ok((SyrupValue::String(text), end))
                    } else {
                        Ok((SyrupValue::Symbol(text), end))
                    }
                },
                None => Err(DecodeError::Utf8Error),
            }
        }
    } else {
        Err(DecodeError::InvalidByte(tag))
    }
}

/// Decode the first Syrup value in `data`, returning it with the number of bytes it took.
pub fn decode(data: &[u8]) -> (r: Result<(SyrupValue, usize), DecodeError>)
    ensures
        decoded_as(r, decode_spec(data@)),
        r matches Ok((_, n)) ==> 1 <= n <= data@.len(),
    decreases data@.len(), 1nat,
{
    if data.len() == 0 {
        return Err(DecodeError::UnexpectedEnd);
    }
    let b = data[0];
    if b == 116u8 {
        Ok((SyrupValue::Bool(true), 1))
    } else if b == 102u8 {
        Ok((SyrupValue::Bool(false), 1))
    } else if b == 70u8 {
        if data.len() < 5 {
            return Err(DecodeError::UnexpectedEnd);
        }
        let bits = ((data[1] as u32) << 24u32) | ((data[2] as u32) << 16u32) | ((data[3] as u32)
            << 8u32) | (data[4] as u32);
        assert(data@.subrange(1, 5)[0] == data@[1]);
        assert(data@.subrange(1, 5)[1] == data@[2]);
        assert(data@.subrange(1, 5)[2] == data@[3]);
        assert(data@.subrange(1, 5)[3] == data@[4]);
        Ok((SyrupValue::Float32(bits), 5))
    } else if b == 68u8 {
        if data.len() < 9 {
            return Err(DecodeError::UnexpectedEnd);
        }
        let bits = ((data[1] as u64) << 56u64) | ((data[2] as u64) << 48u64) | ((data[3] as u64)
            << 40u64) | ((data[4] as u64) << 32u64) | ((data[5] as u64) << 24u64) | ((
        data[6] as u64) << 16u64) | ((data[7] as u64) << 8u64) | (data[8] as u64);
        let ghost sub = data@.subrange(1, 9);
        assert(sub[0] == data@[1] && sub[1] == data@[2] && sub[2] == data@[3] && sub[3]
            == data@[4]);
        assert(sub[4] == data@[5] && sub[5] == data@[6] && sub[6] == data@[7] && sub[7]
            == data@[8]);
        Ok((SyrupValue::Float64(bits), 9))
    } else if b == 91u8 {
        match decode_seq(data, 1, 93u8) {
            Ok((items, end)) => Ok((SyrupValue::List(items), end)),
            Err(e) => Err(e),
        }
    } else if b == 123u8 {
        decode_dict(data)
    } else if b == 60u8 {
        if data.len() <= 1 {
            return Err(DecodeError::UnexpectedEnd);
        }
        let rest = &data[1..data.len()];
        assert(rest@ =~= data@.skip(1));
        match decode(rest) {
            Err(e) => Err(e),
            Ok((label, lc)) => {
                match decode_seq(data, 1 + lc, 62u8) {
                    Ok((fields, end)) => {
                        assert(end == 1 + lc + (end - 1 - lc));
                        Ok((SyrupValue::Record { label: Box::new(label), fields }, end))
                    },
                    Err(e) => Err(e),
                }
            },
        }
    } else if b >= 48u8 && b <= 57u8 {
        decode_prefixed(data)
    } else {
        Err(DecodeError::InvalidByte(b))
    }
}

/// Decode values from `data[start..]` until the byte `close`; gives the values and
/// the position just after `close`.
fn decode_seq(data: &[u8], start: usize, close: u8) -> (r: Result<(Vec<SyrupValue>, usize), DecodeError>)
    requires
        1 <= start <= data@.len(),
    ensures
        match (r, decode_seq_spec(data@.skip(start as int), close)) {
            (Ok((items, end)), Ok((ms, n))) => models(items@) == ms && end == start + n && end
                <= data@.len(),
            (Err(e1), Err(e2)) => e1 == e2,
            _ => false,
        },
    decreases data@.len(), 0nat,
{
    let mut items: Vec<SyrupValue> = Vec::new();
    let mut pos = start;
    loop
        invariant
            1 <= start <= pos <= data@.len(),
            decode_seq_spec(data@.skip(start as int), close) == match decode_seq_spec(
                data@.skip(pos as int),
                close,
            ) {
                Ok((vs, n)) => Ok((models(items@) + vs, ((pos - start) + n) as nat)),
                Err(e) => Err(e),
            },
        decreases data@.len() - pos,
    {
        if pos >= data.len() {
            return Err(DecodeError::UnexpectedEnd);
        }
        if data[pos] == close {
            proof {
                assert(models(items@) + Seq::<Syrup>::empty() =~= models(items@));
            }
            return Ok((items, pos + 1));
        }
        let rest = &data[pos..data.len()];
        assert(rest@ =~= data@.skip(pos as int));
        match decode(rest) {
            Err(e) => {
                return Err(e);
            },
            Ok((v, c)) => {
                let ghost old_items = items@;
                proof {
                    assert(data@.skip(pos as int).skip(c as int) =~= data@.skip(pos + c));
                    lemma_models_push(old_items, v);
                }
                items.push(v);
                pos = pos + c;
                proof {
                    assert(models(items@) == models(old_items).push(v@));
                    match decode_seq_spec(data@.skip(pos as int), close) {
                        Ok((vs, n)) => {
                            assert(models(old_items) + (seq![v@] + vs) =~= models(items@) + vs);
                        },
                        Err(e) => {},
                    }
                }
            },
        }
    }
}

fn decode_dict(data: &[u8]) -> (r: Result<(SyrupValue, usize), DecodeError>)
    requires
        data@.len() >= 1,
        data@[0] == 123u8,
    ensures
        decoded_as(r, decode_spec(data@)),
        r matches Ok((_, n)) ==> 1 <= n <= data@.len(),
    decreases data@.len(), 0nat,
{
    let mut entries: Vec<(SyrupValue, SyrupValue)> = Vec::new();
    let mut pos: usize = 1;
    loop
        invariant
            1 <= pos <= data@.len(),
            data@.len() >= 1,
            data@[0] == 123u8,
            decode_pairs_spec(data@.skip(1)) == match decode_pairs_spec(data@.skip(pos as int)) {
                Ok((es, n)) => Ok((pair_models(entries@) + es, ((pos - 1) + n) as nat)),
                Err(e) => Err(e),
            },
        decreases data@.len() - pos,
    {
        if pos >= data.len() {
            return Err(DecodeError::UnexpectedEnd);
        }
        if data[pos] == 125u8 {
            proof {
                assert(pair_models(entries@) + Seq::<(Syrup, Syrup)>::empty() =~= pair_models(
                    entries@,
                ));
            }
            return Ok((SyrupValue::Dict(entries), pos + 1));
        }
        let rest = &data[pos..data.len()];
        assert(rest@ =~= data@.skip(pos as int));
        match decode(rest) {
            Err(e) => {
                return Err(e);
            },
            Ok((k, kc)) => {
                let rest2 = &data[pos + kc..data.len()];
                assert(rest2@ =~= data@.skip(pos as int).skip(kc as int));
                match decode(rest2) {
                    Err(e) => {
                        return Err(e);
                    },
                    Ok((v, vc)) => {
                        let ghost old_entries = entries@;
                        proof {
                            assert(data@.skip(pos as int).skip(kc + vc) =~= data@.skip(
                                pos + kc + vc,
                            ));
                            lemma_pair_models_push(old_entries, (k, v));
                        }
                        entries.push((k, v));
                        pos = pos + kc + vc;
                        proof {
                            assert(pair_models(entries@) == pair_models(old_entries).push(
                                (k@, v@),
                            ));
                            match decode_pairs_spec(data@.skip(pos as int)) {
                                Ok((es, n)) => {
                                    assert(pair_models(old_entries) + (seq![(k@, v@)] + es)
                                        =~= pair_models(entries@) + es);
                                },
                                Err(e) => {},
                            }
                        }
                    },
                }
            },
        }
    }
}

// ---------------------------------------------------------------------
// Round trip: decoding an encoding gives the value back
// ---------------------------------------------------------------------

/// Every numeral that the encoding writes can be read back as a `usize`:
/// integer magnitudes and byte lengths fit the machine word.
pub open spec fn atoms_fit(v: Syrup) -> bool
    decreases v,
{
    match v {
        Syrup::Integer(n) => (if n >= 0 { n as int } else { -n }) <= usize::MAX,
        Syrup::Bytestring(d) => d.len() <= usize::MAX,
        Syrup::String(t) => encode_utf8(t).len() <= usize::MAX,
        Syrup::Symbol(t) => encode_utf8(t).len() <= usize::MAX,
        Syrup::List(items) => atoms_fit_seq(items),
        Syrup::Dict(entries) => atoms_fit_pairs(entries),
        Syrup::Record(label, fields) => atoms_fit(*label) && atoms_fit_seq(fields),
        _ => true,
    }
}

pub open spec fn atoms_fit_seq(items: Seq<Syrup>) -> bool
    decreases items,
{
    if items.len() == 0 {
        true
    } else {
        atoms_fit_seq(items.drop_last()) && atoms_fit(items.last())
    }
}

pub open spec fn atoms_fit_pairs(entries: Seq<(Syrup, Syrup)>) -> bool
    decreases entries,
{
    if entries.len() == 0 {
        true
    } else {
        atoms_fit_pairs(entries.drop_last()) && atoms_fit(entries.last().0) && atoms_fit(
            entries.last().1,
        )
    }
}

/// The encoding of a non-empty sequence splits after its first element.
proof fn lemma_seq_front(ms: Seq<Syrup>)
    requires
        ms.len() > 0,
    ensures
        encode_seq(ms) == encode_spec(ms[0]) + encode_seq(ms.drop_first()),
        encodable_seq(ms) ==> encodable(ms[0]) && encodable_seq(ms.drop_first()),
        atoms_fit_seq(ms) ==> atoms_fit(ms[0]) && atoms_fit_seq(ms.drop_first()),
    decreases ms.len(),
{
    if ms.len() == 1 {
        assert(ms.drop_last() =~= Seq::<Syrup>::empty());
        assert(ms.drop_first() =~= Seq::<Syrup>::empty());
        assert(encode_seq(ms) =~= encode_spec(ms[0]) + encode_seq(ms.drop_first()));
    } else {
        let init = ms.drop_last();
        lemma_seq_front(init);
        assert(init.drop_first() =~= ms.drop_first().drop_last());
        assert(ms.drop_first().last() == ms.last());
        assert(encode_seq(ms) =~= encode_spec(ms[0]) + encode_seq(ms.drop_first()));
    }
}

/// The encoding of a non-empty pair sequence splits after its first pair.
proof fn lemma_pairs_front(es: Seq<(Syrup, Syrup)>)
    requires
        es.len() > 0,
    ensures
        encode_pairs(es) == encode_spec(es[0].0) + encode_spec(es[0].1) + encode_pairs(
            es.drop_first(),
        ),
        encodable_pairs(es) ==> encodable(es[0].0) && encodable(es[0].1) && encodable_pairs(
            es.drop_first(),
        ),
        atoms_fit_pairs(es) ==> atoms_fit(es[0].0) && atoms_fit(es[0].1) && atoms_fit_pairs(
            es.drop_first(),
        ),
    decreases es.len(),
{
    if es.len() == 1 {
        assert(es.drop_last() =~= Seq::<(Syrup, Syrup)>::empty());
        assert(es.drop_first() =~= Seq::<(Syrup, Syrup)>::empty());
        assert(encode_pairs(es) =~= encode_spec(es[0].0) + encode_spec(es[0].1) + encode_pairs(
            es.drop_first(),
        ));
    } else {
        let init = es.drop_last();
        lemma_pairs_front(init);
        assert(init.drop_first() =~= es.drop_first().drop_last());
        assert(es.drop_first().last() == es.last());
        assert(encode_pairs(es) =~= encode_spec(es[0].0) + encode_spec(es[0].1) + encode_pairs(
            es.drop_first(),
        ));
    }
}

/// No encoding is empty, and none starts with a closing bracket.
proof fn lemma_first_byte(v: Syrup)
    ensures
        encode_spec(v).len() > 0,
        encode_spec(v)[0] != 93u8,
        encode_spec(v)[0] != 125u8,
        encode_spec(v)[0] != 62u8,
{
    match v {
        Syrup::Integer(n) => {
            let m: nat = if n >= 0 { n as nat } else { (-n) as nat };
            lemma_decimal_digits(m);
            assert(is_digit(decimal(m)[0]));
        },
        Syrup::Bytestring(d) => {
            lemma_decimal_digits(d.len());
            assert(is_digit(decimal(d.len())[0]));
        },
        Syrup::String(t) => {
            lemma_decimal_digits(encode_utf8(t).len());
            assert(is_digit(decimal(encode_utf8(t).len())[0]));
        },
        Syrup::Symbol(t) => {
            lemma_decimal_digits(encode_utf8(t).len());
            assert(is_digit(decimal(encode_utf8(t).len())[0]));
        },
        _ => {},
    }
}

/// A numeral followed by a non-digit tag reads back as its number.
proof fn lemma_numeral(n: nat, tag: u8, tail: Seq<u8>)
    requires
        !is_digit(tag),
    ensures
        ({
            let data = decimal(n) + seq![tag] + tail;
            let p = decimal(n).len();
            &&& digit_run(data) == p
            &&& p < data.len()
            &&& data[p as int] == tag
            &&& digits_value(data.take(p as int)) == n
            &&& data.skip((p + 1) as int) == tail
        }),
{
    lemma_decimal_digits(n);
    let data = decimal(n) + seq![tag] + tail;
    let p = decimal(n).len();
    assert(data.take(p as int) =~= decimal(n));
    lemma_digit_run(data, p as int);
    assert(data.skip((p + 1) as int) =~= tail);
}

proof fn lemma_decode_prefixed_bytes(tag: u8, bytes: Seq<u8>, rest: Seq<u8>)
    requires
        tag == 58u8 || tag == 34u8 || tag == 39u8,
        bytes.len() <= usize::MAX,
    ensures
        ({
            let data = prefixed(tag, bytes) + rest;
            let p = decimal(bytes.len()).len();
            &&& digit_run(data) == p
            &&& p < data.len()
            &&& data[p as int] == tag
            &&& digits_value(data.take(p as int)) == bytes.len()
            &&& p + 1 + bytes.len() <= data.len()
            &&& data.subrange((p + 1) as int, (p + 1 + bytes.len()) as int) == bytes
            &&& prefixed(tag, bytes).len() == p + 1 + bytes.len()
        }),
{
    let data = prefixed(tag, bytes) + rest;
    lemma_numeral(bytes.len(), tag, bytes + rest);
    assert(data =~= decimal(bytes.len()) + seq![tag] + (bytes + rest));
    let p = decimal(bytes.len()).len();
    assert(data.subrange((p + 1) as int, (p + 1 + bytes.len()) as int) =~= bytes);
}

proof fn lemma_u32_bytes(x: u32)
    ensures
        u32_from_be(be_bytes_u32(x)) == x,
{
    let b = be_bytes_u32(x);
    let b0 = b[0];
    let b1 = b[1];
    let b2 = b[2];
    let b3 = b[3];
    assert(((b0 as u32) << 24u32) | ((b1 as u32) << 16u32) | ((b2 as u32) << 8u32) | (b3 as u32)
        == x) by (bit_vector)
        requires
            b0 == (x >> 24u32) as u8,
            b1 == (x >> 16u32) as u8,
            b2 == (x >> 8u32) as u8,
            b3 == x as u8,
    ;
}

proof fn lemma_u64_bytes(x: u64)
    ensures
        u64_from_be(be_bytes_u64(x)) == x,
{
    let b = be_bytes_u64(x);
    let b0 = b[0];
    let b1 = b[1];
    let b2 = b[2];
    let b3 = b[3];
    let b4 = b[4];
    let b5 = b[5];
    let b6 = b[6];
    let b7 = b[7];
    assert(((b0 as u64) << 56u64) | ((b1 as u64) << 48u64) | ((b2 as u64) << 40u64) | ((
    b3 as u64) << 32u64) | ((b4 as u64) << 24u64) | ((b5 as u64) << 16u64) | ((b6 as u64)
        << 8u64) | (b7 as u64) == x) by (bit_vector)
        requires
            b0 == (x >> 56u64) as u8,
            b1 == (x >> 48u64) as u8,
            b2 == (x >> 40u64) as u8,
            b3 == (x >> 32u64) as u8,
            b4 == (x >> 24u64) as u8,
            b5 == (x >> 16u64) as u8,
            b6 == (x >> 8u64) as u8,
            b7 == x as u8,
    ;
}

proof fn lemma_decode_integer(n: i64, rest: Seq<u8>)
    requires
        n != i64::MIN,
        (if n >= 0 { n as int } else { -n }) <= usize::MAX,
    ensures
        decode_spec(encode_spec(Syrup::Integer(n)) + rest) == Ok::<(Syrup, nat), DecodeError>(
            (Syrup::Integer(n), encode_spec(Syrup::Integer(n)).len()),
        ),
{
    let data = encode_spec(Syrup::Integer(n)) + rest;
    if n >= 0 {
        lemma_numeral(n as nat, 43u8, rest);
        assert(data =~= decimal(n as nat) + seq![43u8] + rest);
        lemma_decimal_digits(n as nat);
        assert(is_digit(data[0]));
        assert(decode_spec(data) == decode_prefixed_spec(data));
    } else {
        lemma_numeral((-n) as nat, 45u8, rest);
        assert(data =~= decimal((-n) as nat) + seq![45u8] + rest);
        lemma_decimal_digits((-n) as nat);
        assert(is_digit(data[0]));
        assert(decode_spec(data) == decode_prefixed_spec(data));
    }
}

proof fn lemma_decode_text(tag: u8, t: Seq<char>, rest: Seq<u8>)
    requires
        tag == 34u8 || tag == 39u8,
        encode_utf8(t).len() <= usize::MAX,
    ensures
        decode_spec(prefixed(tag, encode_utf8(t)) + rest) == Ok::<(Syrup, nat), DecodeError>(
            (
                if tag == 34u8 {
                    Syrup::String(t)
                } else {
                    Syrup::Symbol(t)
                },
                prefixed(tag, encode_utf8(t)).len(),
            ),
        ),
{
    let b = encode_utf8(t);
    let data = prefixed(tag, b) + rest;
    lemma_decode_prefixed_bytes(tag, b, rest);
    lemma_decimal_digits(b.len());
    assert(data[0] == decimal(b.len())[0]);
    assert(is_digit(data[0]));
    vstd::utf8::encode_utf8_valid_utf8(t);
    vstd::utf8::encode_utf8_decode_utf8(t);
    assert(decode_spec(data) == decode_prefixed_spec(data));
}

proof fn lemma_decode_bytestring(d: Seq<u8>, rest: Seq<u8>)
    requires
        d.len() <= usize::MAX,
    ensures
        decode_spec(prefixed(58u8, d) + rest) == Ok::<(Syrup, nat), DecodeError>(
            (Syrup::Bytestring(d), prefixed(58u8, d).len()),
        ),
{
    let data = prefixed(58u8, d) + rest;
    lemma_decode_prefixed_bytes(58u8, d, rest);
    lemma_decimal_digits(d.len());
    assert(data[0] == decimal(d.len())[0]);
    assert(is_digit(data[0]));
    assert(decode_spec(data) == decode_prefixed_spec(data));
}

proof fn lemma_decode_record(label: Syrup, fields: Seq<Syrup>, rest: Seq<u8>)
    requires
        encodable(label),
        atoms_fit(label),
        encodable_seq(fields),
        atoms_fit_seq(fields),
        decode_spec(encode_spec(label) + (encode_seq(fields) + seq![62u8] + rest)) == Ok::<
            (Syrup, nat),
            DecodeError,
        >((label, encode_spec(label).len())),
        decode_seq_spec(encode_seq(fields) + seq![62u8] + rest, 62u8) == Ok::<
            (Seq<Syrup>, nat),
            DecodeError,
        >((fields, encode_seq(fields).len() + 1)),
    ensures
        decode_spec(encode_spec(Syrup::Record(Box::new(label), fields)) + rest) == Ok::<
            (Syrup, nat),
            DecodeError,
        >(
            (
                Syrup::Record(Box::new(label), fields),
                encode_spec(Syrup::Record(Box::new(label), fields)).len(),
            ),
        ),
{
    let v = Syrup::Record(Box::new(label), fields);
    let data = encode_spec(v) + rest;
    let le = encode_spec(label);
    let tail = encode_seq(fields) + seq![62u8] + rest;
    assert(data =~= seq![60u8] + le + tail);
    assert(data.skip(1) =~= le + tail);
    lemma_first_byte(label);
    assert(data.skip((1 + le.len()) as int) =~= tail);
}

/// Decoding the encoding of a value, followed by anything, gives the value back
/// and consumes exactly its encoding, wherever its numerals fit the machine
/// word that the decoder reads them into (on a 64-bit target, every value
/// whose encoding is held in memory).
pub proof fn lemma_decode_encode(v: Syrup, rest: Seq<u8>)
    requires
        encodable(v),
        atoms_fit(v),
    ensures
        decode_spec(encode_spec(v) + rest) == Ok::<(Syrup, nat), DecodeError>(
            (v, encode_spec(v).len()),
        ),
    decreases v,
{
    let data = encode_spec(v) + rest;
    match v {
        Syrup::Bool(b) => {},
        Syrup::Integer(n) => {
            lemma_decode_integer(n, rest);
        },
        Syrup::Float32(bits) => {
            assert(data.subrange(1, 5) =~= be_bytes_u32(bits));
            lemma_u32_bytes(bits);
        },
        Syrup::Float64(bits) => {
            assert(data.subrange(1, 9) =~= be_bytes_u64(bits));
            lemma_u64_bytes(bits);
        },
        Syrup::Bytestring(d) => {
            lemma_decode_bytestring(d, rest);
        },
        Syrup::String(t) => {
            lemma_decode_text(34u8, t, rest);
        },
        Syrup::Symbol(t) => {
            lemma_decode_text(39u8, t, rest);
        },
        Syrup::List(items) => {
            assert(data.skip(1) =~= encode_seq(items) + seq![93u8] + rest);
            lemma_decode_seq(items, 93u8, rest);
        },
        Syrup::Dict(entries) => {
            assert(data.skip(1) =~= encode_pairs(entries) + seq![125u8] + rest);
            lemma_decode_pairs(entries, rest);
        },
        Syrup::Record(label, fields) => {
            lemma_decode_encode(*label, encode_seq(fields) + seq![62u8] + rest);
            lemma_decode_seq(fields, 62u8, rest);
            lemma_decode_record(*label, fields, rest);
        },
    }
}

proof fn lemma_decode_seq(ms: Seq<Syrup>, close: u8, rest: Seq<u8>)
    requires
        encodable_seq(ms),
        atoms_fit_seq(ms),
        close == 93u8 || close == 62u8,
    ensures
        decode_seq_spec(encode_seq(ms) + seq![close] + rest, close) == Ok::<
            (Seq<Syrup>, nat),
            DecodeError,
        >((ms, encode_seq(ms).len() + 1)),
    decreases ms,
{
    let data = encode_seq(ms) + seq![close] + rest;
    if ms.len() == 0 {
        assert(data[0] == close);
        assert(ms =~= Seq::<Syrup>::empty());
    } else {
        lemma_seq_front(ms);
        let head = encode_spec(ms[0]);
        let tail = ms.drop_first();
        let after = encode_seq(tail) + seq![close] + rest;
        assert(data =~= head + after);
        lemma_first_byte(ms[0]);
        lemma_decode_encode(ms[0], after);
        assert(data.skip(head.len() as int) =~= after);
        lemma_decode_seq(tail, close, rest);
        assert(seq![ms[0]] + tail =~= ms);
        assert(data[0] == head[0]);
        assert(decode_seq_spec(data, close) == Ok::<(Seq<Syrup>, nat), DecodeError>(
            (seq![ms[0]] + tail, head.len() + encode_seq(tail).len() + 1),
        ));
    }
}

proof fn lemma_decode_pairs(es: Seq<(Syrup, Syrup)>, rest: Seq<u8>)
    requires
        encodable_pairs(es),
        atoms_fit_pairs(es),
    ensures
        decode_pairs_spec(encode_pairs(es) + seq![125u8] + rest) == Ok::<
            (Seq<(Syrup, Syrup)>, nat),
            DecodeError,
        >((es, encode_pairs(es).len() + 1)),
    decreases es,
{
    let data = encode_pairs(es) + seq![125u8] + rest;
    if es.len() == 0 {
        assert(data[0] == 125u8);
        assert(es =~= Seq::<(Syrup, Syrup)>::empty());
    } else {
        lemma_pairs_front(es);
        let k = encode_spec(es[0].0);
        let v = encode_spec(es[0].1);
        let tail = es.drop_first();
        let after = encode_pairs(tail) + seq![125u8] + rest;
        assert(data =~= k + (v + after));
        lemma_first_byte(es[0].0);
        lemma_first_byte(es[0].1);
        lemma_decode_encode(es[0].0, v + after);
        assert(data.skip(k.len() as int) =~= v + after);
        lemma_decode_encode(es[0].1, after);
        assert(data.skip((k.len() + v.len()) as int) =~= after);
        lemma_decode_pairs(tail, rest);
        assert(seq![(es[0].0, es[0].1)] + tail =~= es);
        assert(data[0] == k[0]);
        assert(decode_pairs_spec(data) == Ok::<(Seq<(Syrup, Syrup)>, nat), DecodeError>(
            (seq![(es[0].0, es[0].1)] + tail, k.len() + v.len() + encode_pairs(tail).len() + 1),
        ));
    }
}

/// Syrup round trip: decoding the encoding of a value gives back the same value
/// and consumes the whole encoding. It holds for every value whose integers are
/// above `i64::MIN` and whose numerals fit a `usize`.
pub proof fn lemma_syrup_roundtrip(v: SyrupValue)
    requires
        encodable(v@),
        atoms_fit(v@),
    ensures
        decode_spec(encode_spec(v@)) == Ok::<(Syrup, nat), DecodeError>(
            (v@, encode_spec(v@).len()),
        ),
{
    lemma_decode_encode(v@, Seq::empty());
    assert(encode_spec(v@) + Seq::<u8>::empty() =~= encode_spec(v@));
}

// ---------------------------------------------------------------------
// Lemmas on element-wise models
// ---------------------------------------------------------------------

pub proof fn lemma_models_take(s: Seq<SyrupValue>, k: int)
    requires
        0 <= k <= s.len(),
    ensures
        models(s.take(k)) == models(s).take(k),
        models(s).len() == s.len(),
        forall|i: int| 0 <= i < s.len() ==> #[trigger] models(s)[i] == s[i].model(),
    decreases s.len(),
{
    if s.len() > 0 {
        lemma_models_take(s.drop_last(), if k == s.len() { k - 1 } else { k });
        if k < s.len() {
            assert(s.take(k) =~= s.drop_last().take(k));
        } else {
            assert(s.take(k) =~= s);
        }
        assert(models(s.take(k)) =~= models(s).take(k));
    } else {
        assert(s.take(k) =~= s);
    }
}

pub proof fn lemma_models_push(s: Seq<SyrupValue>, v: SyrupValue)
    ensures
        models(s.push(v)) == models(s).push(v@),
{
    assert(s.push(v).drop_last() =~= s);
}

pub proof fn lemma_pair_models_push(s: Seq<(SyrupValue, SyrupValue)>, e: (SyrupValue, SyrupValue))
    ensures
        pair_models(s.push(e)) == pair_models(s).push((e.0@, e.1@)),
{
    assert(s.push(e).drop_last() =~= s);
}

pub proof fn lemma_pair_models_take(s: Seq<(SyrupValue, SyrupValue)>, k: int)
    requires
        0 <= k <= s.len(),
    ensures
        pair_models(s.take(k)) == pair_models(s).take(k),
        pair_models(s).len() == s.len(),
        forall|i: int|
            0 <= i < s.len() ==> #[trigger] pair_models(s)[i] == (s[i].0.model(), s[i].1.model()),
    decreases s.len(),
{
    if s.len() > 0 {
        lemma_pair_models_take(s.drop_last(), if k == s.len() { k - 1 } else { k });
        if k < s.len() {
            assert(s.take(k) =~= s.drop_last().take(k));
        } else {
            assert(s.take(k) =~= s);
        }
        assert(pair_models(s.take(k)) =~= pair_models(s).take(k));
    } else {
        assert(s.take(k) =~= s);
    }
}

pub proof fn lemma_encodable_seq_index(items: Seq<Syrup>, i: int)
    requires
        encodable_seq(items),
        0 <= i < items.len(),
    ensures
        encodable(items[i]),
        encodable_seq(items.take(i + 1)),
    decreases items.len(),
{
    if i < items.len() - 1 {
        lemma_encodable_seq_index(items.drop_last(), i);
        assert(items.take(i + 1) =~= items.drop_last().take(i + 1));
    } else {
        assert(items.take(i + 1) =~= items);
    }
}

pub proof fn lemma_encodable_pairs_index(entries: Seq<(Syrup, Syrup)>, i: int)
    requires
        encodable_pairs(entries),
        0 <= i < entries.len(),
    ensures
        encodable(entries[i].0),
        encodable(entries[i].1),
    decreases entries.len(),
{
    if i < entries.len() - 1 {
        lemma_encodable_pairs_index(entries.drop_last(), i);
    }
}

} // verus!
