use super::bencode::{bytes_text, dict_lookup, insert_all, pair_models, value_models, lemma_value_models, Bencode, Value};
use crate::text::{decimal_text, lemma_decimal_text_injective, push_decimal_text, string_from};
use vstd::prelude::*;
use vstd::utf8::encode_utf8;

verus! {

/// Numbers the messages a client sends: `msg-1`, `msg-2`, ...
pub struct RequestIds {
    pub sent: u64,
}

/// The id of the `n`-th message.
pub open spec fn message_id(n: nat) -> Seq<char> {
    "msg-"@ + decimal_text(n)
}

impl RequestIds {
    /// No message sent yet.
    pub fn new() -> (r: RequestIds)
        ensures
            r.sent == 0,
    {
        RequestIds { sent: 0 }
    }

    /// The id of the next message.
    pub fn next_id(&mut self) -> (r: String)
        requires
            old(self).sent < u64::MAX,
        ensures
            final(self).sent == old(self).sent + 1,
            r@ == message_id(final(self).sent as nat),
    {
        self.sent = self.sent + 1;
        let mut id = string_from("msg-");
        push_decimal_text(&mut id, self.sent);
        id
    }
}

/// Each message gets its own id: the ids of different message numbers differ.
pub proof fn lemma_message_ids_distinct(n: nat, m: nat)
    requires
        n != m,
    ensures
        message_id(n) != message_id(m),
{
    if message_id(n) == message_id(m) {
        let p = "msg-"@;
        assert(message_id(n).subrange(p.len() as int, message_id(n).len() as int) =~= decimal_text(n));
        assert(message_id(m).subrange(p.len() as int, message_id(m).len() as int) =~= decimal_text(m));
        lemma_decimal_text_injective(n, m);
    }
}

/// The model of a request: a dictionary of the given keys, each with the
/// UTF-8 bytes of its text.
pub open spec fn request_model(fields: Seq<(Seq<char>, Seq<char>)>) -> Bencode {
    Bencode::Dict(
        insert_all(
            Seq::empty(),
            Seq::new(fields.len(), |i: int| (fields[i].0, Bencode::Bytes(encode_utf8(fields[i].1)))),
        ),
    )
}

/// The texts of request fields.
pub open spec fn field_texts(fields: Seq<(&str, &str)>) -> Seq<(Seq<char>, Seq<char>)> {
    Seq::new(fields.len(), |i: int| (fields[i].0@, fields[i].1@))
}

/// A request of the given fields.
pub fn request(fields: Vec<(&str, &str)>) -> (r: Value)
    ensures
        r@ == request_model(field_texts(fields@)),
{
    let mut pairs: Vec<(&str, Value)> = Vec::new();
    let mut i: usize = 0;
    while i < fields.len()
        invariant
            i <= fields@.len(),
            pairs@.len() == i,
            forall|j: int| 0 <= j < i ==> (#[trigger] pairs@[j]).0@ == fields@[j].0@
                && pairs@[j].1@ == Bencode::Bytes(encode_utf8(fields@[j].1@)),
        decreases fields@.len() - i,
    {
        let (k, t) = fields[i];
        let v = Value::string(t);
        pairs.push((k, v));
        i = i + 1;
    }
    let ghost ft = field_texts(fields@);
    assert(pair_models(pairs@) =~= Seq::new(
        ft.len(),
        |j: int| (ft[j].0, Bencode::Bytes(encode_utf8(ft[j].1))),
    ));
    Value::dict(pairs)
}

/// A request to open a new session.
pub fn clone_request(id: &str) -> (r: Value)
    ensures
        r@ == request_model(seq![("id"@, id@), ("op"@, "clone"@)]),
{
    let r = request(vec![("id", id), ("op", "clone")]);
    assert(field_texts(seq![("id", id), ("op", "clone")]) =~= seq![("id"@, id@), ("op"@, "clone"@)]);
    r
}

/// A request to evaluate `code` in `session`.
pub fn eval_request(id: &str, session: &str, code: &str) -> (r: Value)
    ensures
        r@ == request_model(seq![("code"@, code@), ("id"@, id@), ("op"@, "eval"@), ("session"@, session@)]),
{
    let r = request(vec![("code", code), ("id", id), ("op", "eval"), ("session", session)]);
    assert(field_texts(seq![("code", code), ("id", id), ("op", "eval"), ("session", session)])
        =~= seq![("code"@, code@), ("id"@, id@), ("op"@, "eval"@), ("session"@, session@)]);
    r
}

/// A request for the server's capabilities.
pub fn describe_request(id: &str) -> (r: Value)
    ensures
        r@ == request_model(seq![("id"@, id@), ("op"@, "describe"@)]),
{
    let r = request(vec![("id", id), ("op", "describe")]);
    assert(field_texts(seq![("id", id), ("op", "describe")]) =~= seq![("id"@, id@), ("op"@, "describe"@)]);
    r
}

/// A request for the completions of `prefix` in `session`.
pub fn completions_request(id: &str, session: &str, prefix: &str) -> (r: Value)
    ensures
        r@ == request_model(
            seq![("id"@, id@), ("op"@, "completions"@), ("prefix"@, prefix@), ("session"@, session@)],
        ),
{
    let r = request(vec![("id", id), ("op", "completions"), ("prefix", prefix), ("session", session)]);
    assert(field_texts(seq![("id", id), ("op", "completions"), ("prefix", prefix), ("session", session)])
        =~= seq![("id"@, id@), ("op"@, "completions"@), ("prefix"@, prefix@), ("session"@, session@)]);
    r
}

/// A request for what is known of `symbol` in `session`.
pub fn info_request(id: &str, session: &str, symbol: &str) -> (r: Value)
    ensures
        r@ == request_model(
            seq![("id"@, id@), ("op"@, "info"@), ("session"@, session@), ("symbol"@, symbol@)],
        ),
{
    let r = request(vec![("id", id), ("op", "info"), ("session", session), ("symbol", symbol)]);
    assert(field_texts(seq![("id", id), ("op", "info"), ("session", session), ("symbol", symbol)])
        =~= seq![("id"@, id@), ("op"@, "info"@), ("session"@, session@), ("symbol"@, symbol@)]);
    r
}

/// A request for the namespaces of `session`.
pub fn ns_list_request(id: &str, session: &str) -> (r: Value)
    ensures
        r@ == request_model(seq![("id"@, id@), ("op"@, "ns-list"@), ("session"@, session@)]),
{
    let r = request(vec![("id", id), ("op", "ns-list"), ("session", session)]);
    assert(field_texts(seq![("id", id), ("op", "ns-list"), ("session", session)])
        =~= seq![("id"@, id@), ("op"@, "ns-list"@), ("session"@, session@)]);
    r
}

/// A request to switch `session` to namespace `ns`.
pub fn switch_ns_request(id: &str, session: &str, ns: &str) -> (r: Value)
    ensures
        r@ == request_model(
            seq![("id"@, id@), ("ns"@, ns@), ("op"@, "switch-ns"@), ("session"@, session@)],
        ),
{
    let r = request(vec![("id", id), ("ns", ns), ("op", "switch-ns"), ("session", session)]);
    assert(field_texts(seq![("id", id), ("ns", ns), ("op", "switch-ns"), ("session", session)])
        =~= seq![("id"@, id@), ("ns"@, ns@), ("op"@, "switch-ns"@), ("session"@, session@)]);
    r
}

/// A request to load the file at `path` with `content` into `session`.
pub fn load_file_request(id: &str, session: &str, path: &str, content: &str) -> (r: Value)
    ensures
        r@ == request_model(
            seq![
                ("file"@, content@),
                ("file-path"@, path@),
                ("id"@, id@),
                ("op"@, "load-file"@),
                ("session"@, session@),
            ],
        ),
{
    let r = request(
        vec![("file", content), ("file-path", path), ("id", id), ("op", "load-file"), ("session", session)],
    );
    assert(field_texts(
        seq![("file", content), ("file-path", path), ("id", id), ("op", "load-file"), ("session", session)],
    ) =~= seq![
        ("file"@, content@),
        ("file-path"@, path@),
        ("id"@, id@),
        ("op"@, "load-file"@),
        ("session"@, session@),
    ]);
    r
}

/// A response that ends an exchange: its `status` list holds `done`.
pub open spec fn is_done_response(b: Bencode) -> bool {
    b matches Bencode::Dict(es) && dict_lookup(es, "status"@) matches Some(Bencode::List(items))
        && exists|i: int| 0 <= i < items.len() && bytes_text(#[trigger] items[i]) == Some("done"@)
}

/// Whether a response ends an exchange.
pub fn is_done(resp: &Value) -> (r: bool)
    ensures
        r == is_done_response(resp@),
{
    match resp.get("status") {
        None => false,
        Some(s) => match s.as_list() {
            None => false,
            Some(list) => {
                proof {
                    lemma_value_models(list@);
                }
                let mut i: usize = 0;
                while i < list.len()
                    invariant
                        i <= list@.len(),
                        s@ == Bencode::List(value_models(list@)),
                        resp@ matches Bencode::Dict(es) && dict_lookup(es, "status"@) == Some(s@),
                        value_models(list@).len() == list@.len(),
                        forall|j: int| 0 <= j < list@.len() ==> #[trigger] value_models(list@)[j] == list@[j]@,
                        forall|j: int| 0 <= j < i ==> bytes_text(#[trigger] value_models(list@)[j]) != Some("done"@),
                    decreases list@.len() - i,
                {
                    match list[i].as_str() {
                        Some(t) => {
                            if crate::text::text_eq(t, "done") {
                                assert(bytes_text(value_models(list@)[i as int]) == Some("done"@));
                                assert(s@ == Bencode::List(value_models(list@)));
                                assert(is_done_response(resp@));
                                return true;
                            }
                        },
                        None => {},
                    }
                    assert(bytes_text(value_models(list@)[i as int]) != Some("done"@));
                    i = i + 1;
                }
                false
            },
        },
    }
}

/// The new session id in the last response to a `clone` request.
pub open spec fn new_session_in(responses: Seq<Bencode>) -> Option<Seq<char>> {
    if responses.len() == 0 {
        None
    } else {
        match responses.last() {
            Bencode::Dict(es) => match dict_lookup(es, "new-session"@) {
                Some(v) => bytes_text(v),
                None => None,
            },
            _ => None,
        }
    }
}

/// The new session id that a `clone` exchange gave.
pub fn new_session_of(responses: &Vec<Value>) -> (r: Option<String>)
    ensures
        match r {
            Some(s) => new_session_in(value_models(responses@)) == Some(s@),
            None => new_session_in(value_models(responses@)) is None,
        },
{
    proof {
        lemma_value_models(responses@);
    }
    if responses.len() == 0 {
        return None;
    }
    let last = &responses[responses.len() - 1];
    assert(value_models(responses@).last() == last@);
    match last.get_str("new-session") {
        Some(s) => Some(string_from(s)),
        None => None,
    }
}

} // verus!
