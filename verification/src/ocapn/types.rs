use super::syrup::{
    clone_items, clone_value, decode, decode_spec, encodable, encode, encode_spec, lemma_models_push, models, DecodeError, Syrup, SyrupValue,
};
use crate::text::{push_char, text_eq};
use vstd::prelude::*;
use vstd::string::StringSliceAdditionalSpecFns;
use vstd::utf8::is_continuation_byte;

verus! {

// ---------------------------------------------------------------------
// Swiss numbers
// ---------------------------------------------------------------------

/// An unguessable 16-byte capability secret.
#[derive(Debug, Clone, Copy, PartialEq, Eq, Hash)]
pub struct SwissNum(pub [u8; 16]);

impl View for SwissNum {
    type V = Seq<u8>;

    open spec fn view(&self) -> Seq<u8> {
        self.0@
    }
}

/// `rand::random::<u8>()`: one byte from the thread-local generator. Nothing
/// is stated of the value. It panics only when the operating system's random
/// source cannot seed the generator, which no argument decides.
#[verifier::external_body]
fn random_byte() -> u8 {
    rand::random::<u8>()
}

/// The lowercase hexadecimal digit for a value below 16.
pub open spec fn hex_digit(n: u8) -> char {
    if n < 10 {
        ((n + 48) as u8) as char
    } else {
        ((n + 87) as u8) as char
    }
}

/// Two lowercase hexadecimal digits per byte, high nibble first.
pub open spec fn hex_text(bytes: Seq<u8>) -> Seq<char> {
    Seq::new(
        2 * bytes.len(),
        |i: int|
            if i % 2 == 0 {
                hex_digit(bytes[i / 2] / 16)
            } else {
                hex_digit(bytes[i / 2] % 16)
            },
    )
}

/// The value of an ASCII hexadecimal digit (either case).
pub open spec fn hex_value(b: u8) -> Option<u8> {
    if 48 <= b <= 57 {
        Some((b - 48) as u8)
    } else if 97 <= b <= 102 {
        Some((b - 87) as u8)
    } else if 65 <= b <= 70 {
        Some((b - 55) as u8)
    } else {
        None
    }
}

/// How `u8::from_str_radix(_, 16)` reads a two-byte text: two hex digits, or a
/// `+` sign followed by one digit.
pub open spec fn hex_pair(a: u8, b: u8) -> Option<u8> {
    if a == 43u8 {
        hex_value(b)
    } else {
        match (hex_value(a), hex_value(b)) {
            (Some(x), Some(y)) => Some((x * 16 + y) as u8),
            _ => None,
        }
    }
}

/// The first `i` byte pairs of `b` all read as hexadecimal bytes.
pub open spec fn hex_pairs_ok(b: Seq<u8>, i: int) -> bool {
    forall|j: int| 0 <= j < i ==> (#[trigger] hex_pair(b[2 * j], b[2 * j + 1])) is Some
}

/// Reading the pairs one by one reaches a pair whose text slice does not fall
/// on character boundaries (a boundary byte is a UTF-8 continuation byte): the
/// point where slicing the text would panic.
pub open spec fn hex_slicing_fails(b: Seq<u8>) -> bool {
    exists|i: int|
        0 <= i < 16 && hex_pairs_ok(b, i) && ((2 * i < b.len() && is_continuation_byte(
            #[trigger] b[2 * i],
        )) || (2 * i + 2 < b.len() && is_continuation_byte(b[2 * i + 2])))
}

/// The bytes of the Swiss number that a text denotes, if it denotes one.
pub open spec fn swiss_from_hex_spec(b: Seq<u8>) -> Option<Seq<u8>> {
    if b.len() == 32 && hex_pairs_ok(b, 16) {
        Some(Seq::new(16, |i: int| hex_pair(b[2 * i], b[2 * i + 1])->0))
    } else {
        None
    }
}

/// The bytes of an optional Swiss number.
pub open spec fn swiss_bytes(sn: Option<SwissNum>) -> Option<Seq<u8>> {
    match sn {
        Some(s) => Some(s@),
        None => None,
    }
}

impl SwissNum {
    /// A fresh Swiss number drawn from the random generator.
    pub fn random() -> (r: SwissNum)
        ensures
            r@.len() == 16,
    {
        let mut bytes = [0u8; 16];
        let mut i: usize = 0;
        while i < 16
            invariant
                i <= 16,
            decreases 16 - i,
        {
            bytes[i] = random_byte();
            i = i + 1;
        }
        SwissNum(bytes)
    }

    /// The Swiss number as 32 lowercase hexadecimal digits.
    pub fn to_hex(&self) -> (r: String)
        ensures
            r@ == hex_text(self@),
    {
        let mut out = String::new();
        let mut i: usize = 0;
        while i < 16
            invariant
                i <= 16,
                self@.len() == 16,
                out@ == hex_text(self@.take(i as int)),
            decreases 16 - i,
        {
            let b = self.0[i];
            let hi = b / 16;
            let lo = b % 16;
            let c_hi = if hi < 10 {
                (hi + 48) as char
            } else {
                (hi + 87) as char
            };
            let c_lo = if lo < 10 {
                (lo + 48) as char
            } else {
                (lo + 87) as char
            };
            push_char(&mut out, c_hi);
            push_char(&mut out, c_lo);
            proof {
                let t = self@.take(i + 1);
                assert(t[i as int] == b);
                assert(out@ =~= hex_text(t)) by {
                    assert forall|k: int| 0 <= k < out@.len() implies out@[k] == hex_text(t)[k] by {
                        if k < 2 * i {
                            assert(hex_text(self@.take(i as int))[k] == hex_text(t)[k]);
                            assert(self@.take(i as int)[k / 2] == t[k / 2]);
                        }
                    }
                }
            }
            i = i + 1;
        }
        assert(self@.take(16) =~= self@);
        out
    }

    /// Read a Swiss number back from 32 hexadecimal digits.
    ///
    /// The text is read two bytes at a time, each pair as `u8::from_str_radix`
    /// would read it. Texts whose pairs do not fall on character boundaries
    /// before a pair fails to read are excluded: slicing them panics.
    pub fn from_hex(s: &str) -> (r: Option<SwissNum>)
        requires
            s.spec_bytes().len() == 32 ==> !hex_slicing_fails(s.spec_bytes()),
        ensures
            swiss_bytes(r) == swiss_from_hex_spec(s.spec_bytes()),
    {
        let b = s.as_bytes();
        if b.len() != 32 {
            return None;
        }
        let mut bytes = [0u8; 16];
        let mut i: usize = 0;
        while i < 16
            invariant
                i <= 16,
                b@ == s.spec_bytes(),
                b@.len() == 32,
                hex_pairs_ok(b@, i as int),
                forall|j: int| 0 <= j < i ==> Some(#[trigger] bytes@[j]) == hex_pair(b@[2 * j], b@[2 * j + 1]),
            decreases 16 - i,
        {
            let x = b[2 * i];
            let y = b[2 * i + 1];
            match hex_pair_exec(x, y) {
                Some(v) => {
                    bytes[i] = v;
                },
                None => {
                    assert(hex_pair(b@[2 * i], b@[2 * i + 1]) is None);
                    return None;
                },
            }
            i = i + 1;
            assert(hex_pairs_ok(b@, i as int)) by {
                assert forall|j: int| 0 <= j < i implies (#[trigger] hex_pair(b@[2 * j], b@[2 * j + 1])) is Some by {
                    if j < i - 1 {
                        assert(hex_pairs_ok(b@, i - 1));
                    }
                }
            }
        }
        assert(bytes@ =~= swiss_from_hex_spec(b@)->0);
        Some(SwissNum(bytes))
    }

    /// The Swiss number as a Syrup byte string.
    pub fn to_syrup(&self) -> (r: SyrupValue)
        ensures
            r@ == Syrup::Bytestring(self@),
    {
        let mut v: Vec<u8> = Vec::new();
        let mut i: usize = 0;
        while i < 16
            invariant
                i <= 16,
                self@.len() == 16,
                v@ == self@.take(i as int),
            decreases 16 - i,
        {
            v.push(self.0[i]);
            i = i + 1;
            assert(v@ =~= self@.take(i as int));
        }
        assert(self@.take(16) =~= self@);
        SyrupValue::Bytestring(v)
    }

    /// A Syrup byte string of exactly 16 bytes, read as a Swiss number.
    pub fn from_syrup(val: &SyrupValue) -> (r: Option<SwissNum>)
        ensures
            r == swiss_from_syrup_spec(val@),
    {
        match val {
            SyrupValue::Bytestring(b) => {
                if b.len() == 16 {
                    let mut bytes = [0u8; 16];
                    let mut i: usize = 0;
                    while i < 16
                        invariant
                            i <= 16,
                            b@.len() == 16,
                            forall|j: int| 0 <= j < i ==> bytes@[j] == b@[j],
                        decreases 16 - i,
                    {
                        bytes[i] = b[i];
                        i = i + 1;
                    }
                    assert(bytes@ =~= b@);
                    let r = SwissNum(bytes);
                    proof {
                        lemma_swiss_view_injective(r, swiss_from_syrup_spec(val@).unwrap());
                    }
                    Some(r)
                } else {
                    None
                }
            },
            _ => None,
        }
    }
}

/// The hexadecimal text of a Swiss number is ASCII and reads back as the same bytes.
pub proof fn lemma_hex_roundtrip(b: Seq<u8>)
    requires
        b.len() == 16,
    ensures
        vstd::utf8::is_ascii_chars(hex_text(b)),
        swiss_from_hex_spec(vstd::utf8::encode_utf8(hex_text(b))) == Some(b),
        !hex_slicing_fails(vstd::utf8::encode_utf8(hex_text(b))),
{
    let h = hex_text(b);
    assert forall|k: int| 0 <= k < h.len() implies '\0' <= #[trigger] h[k] <= '\u{7f}' && (
    h[k] as u8 == (if k % 2 == 0 { hex_byte(b[k / 2] / 16) } else { hex_byte(b[k / 2] % 16) })) by {
        let n: u8 = if k % 2 == 0 { b[k / 2] / 16 } else { b[k / 2] % 16 };
        assert(h[k] == hex_digit(n));
        lemma_hex_digit(n);
    }
    vstd::utf8::is_ascii_chars_encode_utf8(h);
    let e = vstd::utf8::encode_utf8(h);
    assert(e.len() == 32);
    assert forall|i: int| 0 <= i < 16 implies #[trigger] hex_pair(e[2 * i], e[2 * i + 1]) == Some(b[i]) by {
        assert(h[2 * i] as u8 == e[2 * i]);
        assert(h[2 * i + 1] as u8 == e[2 * i + 1]);
        assert((2 * i) / 2 == i);
        assert((2 * i + 1) / 2 == i);
        assert((2 * i) % 2 == 0);
        assert((2 * i + 1) % 2 == 1);
        lemma_hex_byte(b[i] / 16);
        lemma_hex_byte(b[i] % 16);
        assert(b[i] / 16 * 16 + b[i] % 16 == b[i]);
    }
    assert(hex_pairs_ok(e, 16));
    assert(swiss_from_hex_spec(e)->0 =~= b);
    assert forall|k: int| 0 <= k < e.len() implies !is_continuation_byte(#[trigger] e[k]) by {
        assert(h[k] as u8 == e[k]);
    }
}

/// The byte of a hexadecimal digit.
pub open spec fn hex_byte(n: u8) -> u8 {
    if n < 10 {
        (n + 48) as u8
    } else {
        (n + 87) as u8
    }
}

proof fn lemma_hex_digit(n: u8)
    requires
        n < 16,
    ensures
        '\0' <= hex_digit(n) <= '\u{7f}',
        hex_digit(n) as u8 == hex_byte(n),
{
}

proof fn lemma_hex_byte(n: u8)
    requires
        n < 16,
    ensures
        hex_byte(n) != 43u8,
        hex_value(hex_byte(n)) == Some(n),
        hex_byte(n) < 128,
{
}

/// A Syrup byte string of 16 bytes as a Swiss number.
pub open spec fn swiss_from_syrup_spec(v: Syrup) -> Option<SwissNum> {
    match v {
        Syrup::Bytestring(b) => if b.len() == 16 {
            Some(choose|sn: SwissNum| sn@ == b)
        } else {
            None
        },
        _ => None,
    }
}

/// Two Swiss numbers with the same bytes are the same.
pub proof fn lemma_swiss_view_injective(a: SwissNum, b: SwissNum)
    requires
        a@ == b@ || (a@ =~= b@),
    ensures
        a == b,
{
    assert(a.0 == b.0);
}

fn hex_value_exec(b: u8) -> (r: Option<u8>)
    ensures
        r == hex_value(b),
{
    if 48 <= b && b <= 57 {
        Some(b - 48)
    } else if 97 <= b && b <= 102 {
        Some(b - 87)
    } else if 65 <= b && b <= 70 {
        Some(b - 55)
    } else {
        None
    }
}

pub(crate) fn hex_pair_exec(a: u8, b: u8) -> (r: Option<u8>)
    ensures
        r == hex_pair(a, b),
{
    if a == 43u8 {
        hex_value_exec(b)
    } else {
        match (hex_value_exec(a), hex_value_exec(b)) {
            (Some(x), Some(y)) => Some(x * 16 + y),
            _ => None,
        }
    }
}

// ---------------------------------------------------------------------
// Descriptors
// ---------------------------------------------------------------------

/// Where a message is delivered: an object this side exported, or one it imported.
#[derive(Debug, Clone, Copy, PartialEq, Eq)]
pub enum Descriptor {
    Export(u64),
    ImportObject(u64),
}

pub open spec fn record_of(label: Seq<char>, fields: Seq<Syrup>) -> Syrup {
    Syrup::Record(Box::new(Syrup::Symbol(label)), fields)
}

/// The Syrup form of a descriptor: `<desc:export n>` or `<desc:import-object n>`.
pub open spec fn descriptor_syrup(d: Descriptor) -> Syrup {
    match d {
        Descriptor::Export(pos) => record_of("desc:export"@, seq![Syrup::Integer(pos as i64)]),
        Descriptor::ImportObject(pos) => record_of(
            "desc:import-object"@,
            seq![Syrup::Integer(pos as i64)],
        ),
    }
}

/// The symbol that labels a record, if the value is a record with a symbol label.
pub open spec fn record_label(v: Syrup) -> Option<Seq<char>> {
    match v {
        Syrup::Record(label, _) => match *label {
            Syrup::Symbol(s) => Some(s),
            _ => None,
        },
        _ => None,
    }
}

pub open spec fn record_fields(v: Syrup) -> Seq<Syrup> {
    match v {
        Syrup::Record(_, fields) => fields,
        _ => Seq::empty(),
    }
}

/// The integer at the head of a field list, if there is one.
pub open spec fn first_integer(fields: Seq<Syrup>) -> Option<i64> {
    if fields.len() > 0 {
        match fields[0] {
            Syrup::Integer(n) => Some(n),
            _ => None,
        }
    } else {
        None
    }
}

/// Reading a descriptor back from its Syrup form.
pub open spec fn descriptor_from_syrup(v: Syrup) -> Option<Descriptor> {
    match record_label(v) {
        Some(s) => if s == "desc:export"@ {
            match first_integer(record_fields(v)) {
                Some(n) => Some(Descriptor::Export(n as u64)),
                None => None,
            }
        } else if s == "desc:import-object"@ {
            match first_integer(record_fields(v)) {
                Some(n) => Some(Descriptor::ImportObject(n as u64)),
                None => None,
            }
        } else {
            None
        },
        None => None,
    }
}

fn symbol_of(s: &str) -> (r: SyrupValue)
    ensures
        r@ == Syrup::Symbol(s@),
{
    SyrupValue::Symbol(s.to_owned())
}

fn record(label: &str, fields: Vec<SyrupValue>) -> (r: SyrupValue)
    ensures
        r@ == record_of(label@, models(fields@)),
{
    SyrupValue::Record { label: Box::new(symbol_of(label)), fields }
}

fn single(v: SyrupValue) -> (r: Vec<SyrupValue>)
    ensures
        models(r@) == seq![v@],
{
    let mut r = Vec::new();
    proof {
        lemma_models_push(r@, v);
    }
    r.push(v);
    assert(models(Seq::<SyrupValue>::empty()) =~= Seq::<Syrup>::empty());
    assert(models(Seq::<SyrupValue>::empty()).push(v@) =~= seq![v@]);
    r
}

fn pair(a: SyrupValue, b: SyrupValue) -> (r: Vec<SyrupValue>)
    ensures
        models(r@) == seq![a@, b@],
{
    let mut r = single(a);
    proof {
        lemma_models_push(r@, b);
    }
    r.push(b);
    assert(seq![a@].push(b@) =~= seq![a@, b@]);
    r
}

fn triple(a: SyrupValue, b: SyrupValue, c: SyrupValue) -> (r: Vec<SyrupValue>)
    ensures
        models(r@) == seq![a@, b@, c@],
{
    let mut r = pair(a, b);
    proof {
        lemma_models_push(r@, c);
    }
    r.push(c);
    assert(seq![a@, b@].push(c@) =~= seq![a@, b@, c@]);
    r
}

/// The symbol label and the fields of a record value, if it is one with a symbol label.
fn record_parts(v: &SyrupValue) -> (r: Option<(&String, &Vec<SyrupValue>)>)
    ensures
        match r {
            Some((s, fields)) => record_label(v@) == Some(s@) && record_fields(v@) == models(
                fields@,
            ),
            None => record_label(v@) is None,
        },
{
    match v {
        SyrupValue::Record { label, fields } => match &**label {
            SyrupValue::Symbol(s) => {
                assert(v@ == Syrup::Record(Box::new(label.model()), models(fields@)));
                assert(label.model() == Syrup::Symbol(s@));
                Some((s, fields))
            },
            _ => None,
        },
        _ => None,
    }
}

fn first_integer_exec(fields: &Vec<SyrupValue>) -> (r: Option<i64>)
    ensures
        r == first_integer(models(fields@)),
{
    proof {
        crate::ocapn::syrup::lemma_models_take(fields@, 0);
    }
    if fields.len() > 0 {
        match &fields[0] {
            SyrupValue::Integer(n) => Some(*n),
            _ => None,
        }
    } else {
        None
    }
}

impl Descriptor {
    /// The Syrup form: `<desc:export pos>` or `<desc:import-object pos>`.
    pub fn to_syrup(&self) -> (r: SyrupValue)
        ensures
            r@ == descriptor_syrup(*self),
    {
        match self {
            Descriptor::Export(pos) => record(
                "desc:export",
                single(SyrupValue::Integer(#[verifier::truncate] (*pos as i64))),
            ),
            Descriptor::ImportObject(pos) => record(
                "desc:import-object",
                single(SyrupValue::Integer(#[verifier::truncate] (*pos as i64))),
            ),
        }
    }

    /// Read a descriptor from its Syrup form.
    pub fn from_syrup(val: &SyrupValue) -> (r: Option<Descriptor>)
        ensures
            r == descriptor_from_syrup(val@),
    {
        match record_parts(val) {
            Some((s, fields)) => {
                if text_eq(s.as_str(), "desc:export") {
                    match first_integer_exec(fields) {
                        Some(n) => Some(Descriptor::Export(#[verifier::truncate] (n as u64))),
                        None => None,
                    }
                } else if text_eq(s.as_str(), "desc:import-object") {
                    match first_integer_exec(fields) {
                        Some(n) => Some(Descriptor::ImportObject(#[verifier::truncate] (n as u64))),
                        None => None,
                    }
                } else {
                    None
                }
            },
            None => None,
        }
    }
}

proof fn lemma_u64_i64_u64(x: u64)
    ensures
        ((x as i64) as u64) == x,
{
    assert(((x as i64) as u64) == x) by (bit_vector);
}

/// Reading back the Syrup form of a descriptor gives the descriptor.
pub proof fn lemma_descriptor_roundtrip(d: Descriptor)
    ensures
        descriptor_from_syrup(descriptor_syrup(d)) == Some(d),
{
    reveal_strlit("desc:export");
    reveal_strlit("desc:import-object");
    match d {
        Descriptor::Export(pos) => {
            lemma_u64_i64_u64(pos);
        },
        Descriptor::ImportObject(pos) => {
            lemma_u64_i64_u64(pos);
            assert("desc:import-object"@ != "desc:export"@) by {
                assert("desc:import-object"@.len() != "desc:export"@.len());
            }
        },
    }
}

// ---------------------------------------------------------------------
// Messages
// ---------------------------------------------------------------------

/// An OCapN protocol operation.
#[derive(Debug, PartialEq)]
pub enum OCapNMessage {
    OpStartSession { session_pubkey: Vec<u8> },
    OpDeliverOnly { to_desc: Descriptor, args: Vec<SyrupValue> },
    OpDeliver { to_desc: Descriptor, args: Vec<SyrupValue>, request_id: u64 },
    OpDeliverResult { request_id: u64, value: SyrupValue },
    OpAbort { reason: String },
}

/// Mathematical model of an OCapN operation.
pub enum OCapN {
    StartSession(Seq<u8>),
    DeliverOnly(Descriptor, Seq<Syrup>),
    Deliver(Descriptor, Seq<Syrup>, u64),
    DeliverResult(u64, Syrup),
    Abort(Seq<char>),
}

impl View for OCapNMessage {
    type V = OCapN;

    open spec fn view(&self) -> OCapN {
        match self {
            OCapNMessage::OpStartSession { session_pubkey } => OCapN::StartSession(
                session_pubkey@,
            ),
            OCapNMessage::OpDeliverOnly { to_desc, args } => OCapN::DeliverOnly(
                *to_desc,
                models(args@),
            ),
            OCapNMessage::OpDeliver { to_desc, args, request_id } => OCapN::Deliver(
                *to_desc,
                models(args@),
                *request_id,
            ),
            OCapNMessage::OpDeliverResult { request_id, value } => OCapN::DeliverResult(
                *request_id,
                value@,
            ),
            OCapNMessage::OpAbort { reason } => OCapN::Abort(reason@),
        }
    }
}

/// The Syrup record that carries an operation.
pub open spec fn message_syrup(m: OCapN) -> Syrup {
    match m {
        OCapN::StartSession(pk) => record_of("op:start-session"@, seq![Syrup::Bytestring(pk)]),
        OCapN::DeliverOnly(d, args) => record_of(
            "op:deliver-only"@,
            seq![descriptor_syrup(d), Syrup::List(args)],
        ),
        OCapN::Deliver(d, args, id) => record_of(
            "op:deliver"@,
            seq![descriptor_syrup(d), Syrup::List(args), Syrup::Integer(id as i64)],
        ),
        OCapN::DeliverResult(id, value) => record_of(
            "op:deliver-result"@,
            seq![Syrup::Integer(id as i64), value],
        ),
        OCapN::Abort(reason) => record_of("op:abort"@, seq![Syrup::String(reason)]),
    }
}

pub open spec fn list_items(v: Syrup) -> Option<Seq<Syrup>> {
    match v {
        Syrup::List(items) => Some(items),
        _ => None,
    }
}

pub open spec fn integer_value(v: Syrup) -> Option<i64> {
    match v {
        Syrup::Integer(n) => Some(n),
        _ => None,
    }
}

/// Reading an operation back from a Syrup record.
pub open spec fn message_from_syrup(v: Syrup) -> Option<OCapN> {
    let f = record_fields(v);
    match record_label(v) {
        None => None,
        Some(s) => if s == "op:start-session"@ {
            if f.len() > 0 {
                match f[0] {
                    Syrup::Bytestring(pk) => Some(OCapN::StartSession(pk)),
                    _ => None,
                }
            } else {
                None
            }
        } else if s == "op:deliver-only"@ {
            if f.len() >= 2 {
                match (descriptor_from_syrup(f[0]), list_items(f[1])) {
                    (Some(d), Some(args)) => Some(OCapN::DeliverOnly(d, args)),
                    _ => None,
                }
            } else {
                None
            }
        } else if s == "op:deliver"@ {
            if f.len() >= 3 {
                match (descriptor_from_syrup(f[0]), list_items(f[1]), integer_value(f[2])) {
                    (Some(d), Some(args), Some(n)) => Some(OCapN::Deliver(d, args, n as u64)),
                    _ => None,
                }
            } else {
                None
            }
        } else if s == "op:deliver-result"@ {
            if f.len() >= 2 {
                match integer_value(f[0]) {
                    Some(n) => Some(OCapN::DeliverResult(n as u64, f[1])),
                    None => None,
                }
            } else {
                None
            }
        } else if s == "op:abort"@ {
            if f.len() > 0 {
                match f[0] {
                    Syrup::String(r) => Some(OCapN::Abort(r)),
                    _ => None,
                }
            } else {
                None
            }
        } else {
            None
        },
    }
}

/// Decoding of an operation from bytes: the first Syrup value, read as an operation.
pub open spec fn message_decode_spec(data: Seq<u8>) -> Result<OCapN, DecodeError> {
    match decode_spec(data) {
        Ok((v, _)) => match message_from_syrup(v) {
            Some(m) => Ok(m),
            None => Err(DecodeError::InvalidByte(0)),
        },
        Err(e) => Err(e),
    }
}

fn copy_byte_vec(v: &Vec<u8>) -> (r: Vec<u8>)
    ensures
        r@ == v@,
{
    let mut r: Vec<u8> = Vec::new();
    let mut i: usize = 0;
    while i < v.len()
        invariant
            i <= v@.len(),
            r@ == v@.take(i as int),
        decreases v@.len() - i,
    {
        r.push(v[i]);
        i = i + 1;
        assert(r@ =~= v@.take(i as int));
    }
    assert(v@.take(i as int) =~= v@);
    r
}

impl OCapNMessage {
    /// The Syrup record that carries this operation.
    pub fn to_syrup(&self) -> (r: SyrupValue)
        ensures
            r@ == message_syrup(self@),
    {
        match self {
            OCapNMessage::OpStartSession { session_pubkey } => record(
                "op:start-session",
                single(SyrupValue::Bytestring(copy_byte_vec(session_pubkey))),
            ),
            OCapNMessage::OpDeliverOnly { to_desc, args } => record(
                "op:deliver-only",
                pair(to_desc.to_syrup(), SyrupValue::List(clone_items(args))),
            ),
            OCapNMessage::OpDeliver { to_desc, args, request_id } => record(
                "op:deliver",
                triple(
                    to_desc.to_syrup(),
                    SyrupValue::List(clone_items(args)),
                    SyrupValue::Integer(#[verifier::truncate] (*request_id as i64)),
                ),
            ),
            OCapNMessage::OpDeliverResult { request_id, value } => record(
                "op:deliver-result",
                pair(
                    SyrupValue::Integer(#[verifier::truncate] (*request_id as i64)),
                    clone_value(value),
                ),
            ),
            OCapNMessage::OpAbort { reason } => record(
                "op:abort",
                single(SyrupValue::String(reason.clone())),
            ),
        }
    }

    /// Read an operation from a Syrup record.
    pub fn from_syrup(val: &SyrupValue) -> (r: Option<OCapNMessage>)
        ensures
            match r {
                Some(m) => message_from_syrup(val@) == Some(m@),
                None => message_from_syrup(val@) is None,
            },
    {
        let (s, f) = match record_parts(val) {
            Some(parts) => parts,
            None => {
                return None;
            },
        };
        proof {
            crate::ocapn::syrup::lemma_models_take(f@, 0);
        }
        let ghost fm = models(f@);
        if text_eq(s.as_str(), "op:start-session") {
            if f.len() > 0 {
                match &f[0] {
                    SyrupValue::Bytestring(pk) => Some(
                        OCapNMessage::OpStartSession { session_pubkey: copy_byte_vec(pk) },
                    ),
                    _ => None,
                }
            } else {
                None
            }
        } else if text_eq(s.as_str(), "op:deliver-only") {
            if f.len() >= 2 {
                let d = match Descriptor::from_syrup(&f[0]) {
                    Some(d) => d,
                    None => {
                        return None;
                    },
                };
                match &f[1] {
                    SyrupValue::List(a) => Some(
                        OCapNMessage::OpDeliverOnly { to_desc: d, args: clone_items(a) },
                    ),
                    _ => None,
                }
            } else {
                None
            }
        } else if text_eq(s.as_str(), "op:deliver") {
            if f.len() >= 3 {
                let d = match Descriptor::from_syrup(&f[0]) {
                    Some(d) => d,
                    None => {
                        return None;
                    },
                };
                let args = match &f[1] {
                    SyrupValue::List(a) => clone_items(a),
                    _ => {
                        return None;
                    },
                };
                let request_id = match &f[2] {
                    SyrupValue::Integer(n) => #[verifier::truncate] (*n as u64),
                    _ => {
                        return None;
                    },
                };
                Some(OCapNMessage::OpDeliver { to_desc: d, args, request_id })
            } else {
                None
            }
        } else if text_eq(s.as_str(), "op:deliver-result") {
            if f.len() >= 2 {
                let request_id = match &f[0] {
                    SyrupValue::Integer(n) => #[verifier::truncate] (*n as u64),
                    _ => {
                        return None;
                    },
                };
                Some(OCapNMessage::OpDeliverResult { request_id, value: clone_value(&f[1]) })
            } else {
                None
            }
        } else if text_eq(s.as_str(), "op:abort") {
            if f.len() > 0 {
                match &f[0] {
                    SyrupValue::String(r) => Some(OCapNMessage::OpAbort { reason: r.clone() }),
                    _ => None,
                }
            } else {
                None
            }
        } else {
            None
        }
    }

    /// The bytes of this operation on the wire.
    pub fn encode(&self) -> (r: Vec<u8>)
        requires
            encodable(message_syrup(self@)),
        ensures
            r@ == encode_spec(message_syrup(self@)),
    {
        encode(&self.to_syrup())
    }

    /// Read an operation from the start of `data`.
    pub fn decode(data: &[u8]) -> (r: Result<OCapNMessage, DecodeError>)
        ensures
            match r {
                Ok(m) => message_decode_spec(data@) == Ok::<OCapN, DecodeError>(m@),
                Err(e) => message_decode_spec(data@) == Err::<OCapN, DecodeError>(e),
            },
    {
        let (val, _) = match decode(data) {
            Ok(p) => p,
            Err(e) => {
                return Err(e);
            },
        };
        match Self::from_syrup(&val) {
            Some(m) => Ok(m),
            None => Err(DecodeError::InvalidByte(0)),
        }
    }
}

proof fn lemma_labels_distinct()
    ensures
        "op:start-session"@ != "op:deliver-only"@,
        "op:start-session"@ != "op:deliver"@,
        "op:start-session"@ != "op:deliver-result"@,
        "op:start-session"@ != "op:abort"@,
        "op:deliver-only"@ != "op:deliver"@,
        "op:deliver-only"@ != "op:deliver-result"@,
        "op:deliver-only"@ != "op:abort"@,
        "op:deliver"@ != "op:deliver-result"@,
        "op:deliver"@ != "op:abort"@,
        "op:deliver-result"@ != "op:abort"@,
{
    reveal_strlit("op:start-session");
    reveal_strlit("op:deliver-only");
    reveal_strlit("op:deliver");
    reveal_strlit("op:deliver-result");
    reveal_strlit("op:abort");
    assert("op:start-session"@.len() == 16);
    assert("op:deliver-only"@.len() == 15);
    assert("op:deliver"@.len() == 10);
    assert("op:deliver-result"@.len() == 17);
    assert("op:abort"@.len() == 8);
}

/// Reading back the Syrup record of an operation gives the operation.
pub proof fn lemma_message_syrup_roundtrip(m: OCapN)
    ensures
        message_from_syrup(message_syrup(m)) == Some(m),
{
    lemma_labels_distinct();
    match m {
        OCapN::DeliverOnly(d, args) => {
            lemma_descriptor_roundtrip(d);
        },
        OCapN::Deliver(d, args, id) => {
            lemma_descriptor_roundtrip(d);
            lemma_u64_i64_u64(id);
        },
        OCapN::DeliverResult(id, value) => {
            lemma_u64_i64_u64(id);
        },
        _ => {},
    }
}

/// OCapN wire round trip: decoding the bytes of an operation gives the operation back.
/// It holds for every operation whose Syrup record can be encoded and read back
/// (see `lemma_syrup_roundtrip`).
pub proof fn lemma_message_roundtrip(m: OCapN)
    requires
        encodable(message_syrup(m)),
        crate::ocapn::syrup::atoms_fit(message_syrup(m)),
    ensures
        message_decode_spec(encode_spec(message_syrup(m))) == Ok::<OCapN, DecodeError>(m),
{
    crate::ocapn::syrup::lemma_decode_encode(message_syrup(m), Seq::empty());
    assert(encode_spec(message_syrup(m)) + Seq::<u8>::empty() =~= encode_spec(message_syrup(m)));
    lemma_message_syrup_roundtrip(m);
}

} // verus!
