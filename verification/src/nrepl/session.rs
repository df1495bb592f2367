use super::bencode::{
    bytes_text, dict_lookup, insert_all, last_assoc, lemma_lookup_insert_all, lemma_value_models,
    pair_models, value_models, Bencode, Value,
};
use crate::bytes::{decimal, digits_value, lemma_decimal_digits};
use crate::text::{decimal_text, push_decimal_text, string_from, text_eq};
use vstd::prelude::*;
use vstd::utf8::*;

verus! {

/// Result of evaluating code.
pub struct EvalResult {
    pub value: Option<String>,
    pub out: Option<String>,
    pub err: Option<String>,
    pub ex: Option<String>,
}

/// Completion candidate.
pub struct Completion {
    pub candidate: String,
    pub ns: Option<String>,
    pub kind: Option<String>,
}

/// Symbol info for go-to-definition.
pub struct SymbolInfo {
    pub name: String,
    pub ns: Option<String>,
    pub file: Option<String>,
    pub doc: Option<String>,
}

/// Result of a load-file operation.
pub struct LoadFileResult {
    pub value: Option<String>,
    pub error: Option<String>,
}

/// Full state of a node, returned by the node-state operation.
pub struct NodeState {
    pub code: String,
    pub exports: Vec<String>,
    pub imports: Vec<(String, String)>,
    pub outputs: Vec<(String, String)>,
    pub error: Option<String>,
}

/// Language-specific evaluation, implemented by the embedding runtime. What
/// each method gives back is up to the implementation, which says so through
/// the spec function paired with the method: by default any answer.
pub trait Evaluator: Send + Sync {
    /// Whether `result` is an answer this evaluator may give to evaluating
    /// `code` in `session`.
    open spec fn evaluates(&self, session: Seq<char>, code: Seq<char>, result: EvalView) -> bool {
        true
    }

    /// Whether `result` may answer a completion request.
    open spec fn completes(
        &self,
        session: Seq<char>,
        prefix: Seq<char>,
        ns: Option<Seq<char>>,
        result: Seq<CompletionView>,
    ) -> bool {
        true
    }

    /// Whether `result` may answer a symbol lookup.
    open spec fn informs(
        &self,
        session: Seq<char>,
        symbol: Seq<char>,
        ns: Option<Seq<char>>,
        result: Option<SymbolView>,
    ) -> bool {
        true
    }

    /// Whether a value and an error may answer loading a file.
    open spec fn loads(
        &self,
        session: Seq<char>,
        path: Seq<char>,
        content: Seq<char>,
        value: Option<Seq<char>>,
        error: Option<Seq<char>>,
    ) -> bool {
        true
    }

    /// Whether `result` may list the namespaces of a session.
    open spec fn lists_ns(&self, session: Seq<char>, result: Seq<Seq<char>>) -> bool {
        true
    }

    /// Whether `result` may answer switching a session to a namespace.
    open spec fn switches_ns(&self, session: Seq<char>, ns: Seq<char>, result: bool) -> bool {
        true
    }

    /// Whether `result` may answer creating a node.
    open spec fn creates_node(
        &self,
        canvas: Seq<char>,
        label: Seq<char>,
        code: Seq<char>,
        exports: Seq<Seq<char>>,
        imports: Seq<(Seq<char>, Seq<char>)>,
        result: Result<Seq<char>, Seq<char>>,
    ) -> bool {
        true
    }

    /// Whether `result` may answer deleting a node.
    open spec fn deletes_node(&self, canvas: Seq<char>, label: Seq<char>, result: Result<(), Seq<char>>) -> bool {
        true
    }

    /// Whether `result` may answer updating a node.
    open spec fn updates_node(
        &self,
        canvas: Seq<char>,
        label: Seq<char>,
        code: Option<Seq<char>>,
        exports: Option<Seq<Seq<char>>>,
        imports: Option<Seq<(Seq<char>, Seq<char>)>>,
        result: Result<(), Seq<char>>,
    ) -> bool {
        true
    }

    /// Whether `result` may give a node's state.
    open spec fn shows_node(&self, canvas: Seq<char>, label: Seq<char>, result: Option<NodeView>) -> bool {
        true
    }

    /// Whether `result` may answer starting a node's computation.
    open spec fn computes_node(&self, canvas: Seq<char>, label: Seq<char>, result: Result<(), Seq<char>>) -> bool {
        true
    }

    /// Evaluate code in a session.
    fn eval(&self, session_id: &str, code: &str) -> (r: EvalResult)
        ensures
            self.evaluates(session_id@, code@, r@),
    ;

    /// Completions for a prefix in the given session and namespace.
    fn completions(&self, session_id: &str, prefix: &str, ns: Option<&str>) -> (r: Vec<Completion>)
        ensures
            self.completes(session_id@, prefix@, opt_str(ns), completion_views(r@)),
    ;

    /// Information about a symbol.
    fn info(&self, session_id: &str, symbol: &str, ns: Option<&str>) -> (r: Option<SymbolInfo>)
        ensures
            self.informs(session_id@, symbol@, opt_str(ns), symbol_view(r)),
    ;

    /// Load a file by path and content.
    fn load_file(&self, session_id: &str, file_path: &str, file_content: &str) -> (r: LoadFileResult)
        ensures
            self.loads(session_id@, file_path@, file_content@, opt_text(r.value), opt_text(r.error)),
    ;

    /// The available namespaces.
    fn ns_list(&self, session_id: &str) -> (r: Vec<String>)
        ensures
            self.lists_ns(session_id@, string_views(r@)),
    ;

    /// Switch a session to a namespace; whether it succeeded.
    fn switch_ns(&self, session_id: &str, ns: &str) -> (r: bool)
        ensures
            self.switches_ns(session_id@, ns@, r),
    ;

    /// Create a node on a canvas; its id or an error.
    fn create_node(
        &self,
        canvas: &str,
        label: &str,
        code: &str,
        exports: &[String],
        imports: &[(String, String)],
    ) -> (r: Result<String, String>)
        ensures
            self.creates_node(
                canvas@,
                label@,
                code@,
                string_views(exports@),
                string_pair_views(imports@),
                text_result(r),
            ),
    ;

    /// Delete a node by canvas and label.
    fn delete_node(&self, canvas: &str, label: &str) -> (r: Result<(), String>)
        ensures
            self.deletes_node(canvas@, label@, unit_result(r)),
    ;

    /// Update a node's code, exports and/or imports.
    fn update_node(
        &self,
        canvas: &str,
        label: &str,
        code: Option<&str>,
        exports: Option<&[String]>,
        imports: Option<&[(String, String)]>,
    ) -> (r: Result<(), String>)
        ensures
            self.updates_node(
                canvas@,
                label@,
                opt_str(code),
                match exports {
                    Some(e) => Some(string_views(e@)),
                    None => None,
                },
                match imports {
                    Some(i) => Some(string_pair_views(i@)),
                    None => None,
                },
                unit_result(r),
            ),
    ;

    /// A node's current state.
    fn node_state(&self, canvas: &str, label: &str) -> (r: Option<NodeState>)
        ensures
            self.shows_node(canvas@, label@, node_view(r)),
    ;

    /// Start computing a node.
    fn compute_node(&self, canvas: &str, label: &str) -> (r: Result<(), String>)
        ensures
            self.computes_node(canvas@, label@, unit_result(r)),
    ;
}

/// The text of an optional string slice.
pub open spec fn opt_str(o: Option<&str>) -> Option<Seq<char>> {
    match o {
        Some(s) => Some(s@),
        None => None,
    }
}

/// The texts of some strings.
pub open spec fn string_views(v: Seq<String>) -> Seq<Seq<char>> {
    Seq::new(v.len(), |i: int| v[i]@)
}

/// The texts of some pairs of strings.
pub open spec fn string_pair_views(v: Seq<(String, String)>) -> Seq<(Seq<char>, Seq<char>)> {
    Seq::new(v.len(), |i: int| (v[i].0@, v[i].1@))
}

/// Completion candidates as plain values.
pub open spec fn completion_views(v: Seq<Completion>) -> Seq<CompletionView> {
    Seq::new(v.len(), |i: int| v[i]@)
}

/// Optional symbol information as plain values.
pub open spec fn symbol_view(o: Option<SymbolInfo>) -> Option<SymbolView> {
    match o {
        Some(s) => Some(s@),
        None => None,
    }
}

/// An optional node state as plain values.
pub open spec fn node_view(o: Option<NodeState>) -> Option<NodeView> {
    match o {
        Some(n) => Some(n@),
        None => None,
    }
}

/// A text or an error text, as plain values.
pub open spec fn text_result(r: Result<String, String>) -> Result<Seq<char>, Seq<char>> {
    match r {
        Ok(t) => Ok(t@),
        Err(e) => Err(e@),
    }
}

/// Success or an error text, as plain values.
pub open spec fn unit_result(r: Result<(), String>) -> Result<(), Seq<char>> {
    match r {
        Ok(()) => Ok(()),
        Err(e) => Err(e@),
    }
}

/// An evaluator that gives the code back as the value and offers nothing
/// else: no completions, symbols or namespaces, and every node operation
/// fails as not implemented.
pub struct EchoEvaluator;

impl Evaluator for EchoEvaluator {
    open spec fn evaluates(&self, session: Seq<char>, code: Seq<char>, result: EvalView) -> bool {
        result == (EvalView { value: Some(code), out: None, err: None, ex: None })
    }

    open spec fn completes(
        &self,
        session: Seq<char>,
        prefix: Seq<char>,
        ns: Option<Seq<char>>,
        result: Seq<CompletionView>,
    ) -> bool {
        result.len() == 0
    }

    open spec fn informs(
        &self,
        session: Seq<char>,
        symbol: Seq<char>,
        ns: Option<Seq<char>>,
        result: Option<SymbolView>,
    ) -> bool {
        result is None
    }

    open spec fn loads(
        &self,
        session: Seq<char>,
        path: Seq<char>,
        content: Seq<char>,
        value: Option<Seq<char>>,
        error: Option<Seq<char>>,
    ) -> bool {
        value is None && error == Some("load-file not implemented"@)
    }

    open spec fn lists_ns(&self, session: Seq<char>, result: Seq<Seq<char>>) -> bool {
        result.len() == 0
    }

    open spec fn switches_ns(&self, session: Seq<char>, ns: Seq<char>, result: bool) -> bool {
        !result
    }

    open spec fn creates_node(
        &self,
        canvas: Seq<char>,
        label: Seq<char>,
        code: Seq<char>,
        exports: Seq<Seq<char>>,
        imports: Seq<(Seq<char>, Seq<char>)>,
        result: Result<Seq<char>, Seq<char>>,
    ) -> bool {
        result == Err::<Seq<char>, Seq<char>>("create-node not implemented"@)
    }

    open spec fn deletes_node(&self, canvas: Seq<char>, label: Seq<char>, result: Result<(), Seq<char>>) -> bool {
        result == Err::<(), Seq<char>>("delete-node not implemented"@)
    }

    open spec fn updates_node(
        &self,
        canvas: Seq<char>,
        label: Seq<char>,
        code: Option<Seq<char>>,
        exports: Option<Seq<Seq<char>>>,
        imports: Option<Seq<(Seq<char>, Seq<char>)>>,
        result: Result<(), Seq<char>>,
    ) -> bool {
        result == Err::<(), Seq<char>>("update-node not implemented"@)
    }

    open spec fn shows_node(&self, canvas: Seq<char>, label: Seq<char>, result: Option<NodeView>) -> bool {
        result is None
    }

    open spec fn computes_node(&self, canvas: Seq<char>, label: Seq<char>, result: Result<(), Seq<char>>) -> bool {
        result == Err::<(), Seq<char>>("compute not implemented"@)
    }

    fn eval(&self, session_id: &str, code: &str) -> (r: EvalResult) {
        EvalResult { value: Some(string_from(code)), out: None, err: None, ex: None }
    }

    fn completions(&self, session_id: &str, prefix: &str, ns: Option<&str>) -> (r: Vec<Completion>) {
        let r: Vec<Completion> = Vec::new();
        assert(completion_views(r@) =~= Seq::<CompletionView>::empty());
        r
    }

    fn info(&self, session_id: &str, symbol: &str, ns: Option<&str>) -> (r: Option<SymbolInfo>) {
        None
    }

    fn load_file(&self, session_id: &str, file_path: &str, file_content: &str) -> (r: LoadFileResult) {
        LoadFileResult { value: None, error: Some(string_from("load-file not implemented")) }
    }

    fn ns_list(&self, session_id: &str) -> (r: Vec<String>) {
        let r: Vec<String> = Vec::new();
        assert(string_views(r@) =~= Seq::<Seq<char>>::empty());
        r
    }

    fn switch_ns(&self, session_id: &str, ns: &str) -> (r: bool) {
        false
    }

    fn create_node(
        &self,
        canvas: &str,
        label: &str,
        code: &str,
        exports: &[String],
        imports: &[(String, String)],
    ) -> (r: Result<String, String>) {
        Err(string_from("create-node not implemented"))
    }

    fn delete_node(&self, canvas: &str, label: &str) -> (r: Result<(), String>) {
        Err(string_from("delete-node not implemented"))
    }

    fn update_node(
        &self,
        canvas: &str,
        label: &str,
        code: Option<&str>,
        exports: Option<&[String]>,
        imports: Option<&[(String, String)]>,
    ) -> (r: Result<(), String>) {
        Err(string_from("update-node not implemented"))
    }

    fn node_state(&self, canvas: &str, label: &str) -> (r: Option<NodeState>) {
        None
    }

    fn compute_node(&self, canvas: &str, label: &str) -> (r: Result<(), String>) {
        Err(string_from("compute not implemented"))
    }
}

/// Session state: its id. Language-specific state lives in the evaluator.
pub struct Session {
    pub id: String,
}

/// The id of the `n`-th session created.
pub open spec fn session_name(n: nat) -> Seq<char> {
    "session-"@ + decimal_text(n)
}

/// Active nREPL sessions.
pub struct SessionManager {
    sessions: Vec<Session>,
    counter: u64,
}

proof fn lemma_decimal_text_injective(a: nat, b: nat)
    requires
        decimal_text(a) == decimal_text(b),
    ensures
        a == b,
{
    lemma_decimal_text_bytes(a);
    lemma_decimal_text_bytes(b);
    lemma_decimal_digits(a);
    lemma_decimal_digits(b);
    assert forall|i: int| 0 <= i < decimal(a).len() implies decimal(a)[i] == decimal(b)[i] by {
        let x = decimal(a)[i];
        let y = decimal(b)[i];
        assert(decimal_text(a)[i] == decimal_text(b)[i]);
        assert(i < decimal(b).len());
        assert(decimal_text(a)[i] == (x as char));
        assert(decimal_text(b)[i] == (y as char));
        assert((x as char) as int == x as int);
        assert((y as char) as int == y as int);
    }
    assert(decimal(a) =~= decimal(b));
}

proof fn lemma_decimal_text_bytes(n: nat)
    ensures
        decimal_text(n).len() == decimal(n).len(),
        forall|i: int| 0 <= i < decimal(n).len() ==> #[trigger] decimal_text(n)[i] == decimal(n)[i] as char,
    decreases n,
{
    if n >= 10 {
        lemma_decimal_text_bytes(n / 10);
    }
}

proof fn lemma_session_name_injective(a: nat, b: nat)
    requires
        session_name(a) == session_name(b),
    ensures
        a == b,
{
    let p = "session-"@;
    assert(session_name(a).skip(p.len() as int) =~= decimal_text(a));
    assert(session_name(b).skip(p.len() as int) =~= decimal_text(b));
    lemma_decimal_text_injective(a, b);
}

impl SessionManager {
    /// The ids of the active sessions.
    pub closed spec fn ids(&self) -> Seq<Seq<char>> {
        Seq::new(self.sessions@.len(), |i: int| self.sessions@[i].id@)
    }

    /// How many sessions have been created.
    pub closed spec fn created(&self) -> nat {
        self.counter as nat
    }

    /// Ids are distinct, and each is the name of a session created so far.
    pub closed spec fn wf(&self) -> bool {
        &&& self.ids().no_duplicates()
        &&& forall|i: int|
            0 <= i < self.ids().len() ==> exists|n: nat|
                1 <= n <= self.counter && #[trigger] self.ids()[i] == session_name(n)
    }

    /// No sessions.
    pub fn new() -> (r: SessionManager)
        ensures
            r.wf(),
            r.ids().len() == 0,
            r.created() == 0,
    {
        let r = SessionManager { sessions: Vec::new(), counter: 0 };
        assert(r.ids() =~= Seq::<Seq<char>>::empty());
        r
    }

    /// How many sessions have been created.
    pub fn created_count(&self) -> (r: u64)
        ensures
            r == self.created(),
    {
        self.counter
    }

    /// Create a session named after the count of sessions created; gives its id.
    pub fn create_session(&mut self) -> (r: String)
        requires
            old(self).wf(),
            old(self).created() < u64::MAX,
        ensures
            final(self).wf(),
            final(self).created() == old(self).created() + 1,
            r@ == session_name(final(self).created()),
            !old(self).ids().contains(r@),
            final(self).ids() == old(self).ids().push(r@),
    {
        self.counter = self.counter + 1;
        let mut id = string_from("session-");
        push_decimal_text(&mut id, self.counter);
        let ghost name = id@;
        assert(name =~= session_name(self.counter as nat));
        proof {
            if old(self).ids().contains(name) {
                let i = choose|i: int| 0 <= i < old(self).ids().len() && old(self).ids()[i] == name;
                let n = choose|n: nat| 1 <= n <= old(self).counter && #[trigger] old(self).ids()[i] == session_name(n);
                lemma_session_name_injective(n, self.counter as nat);
            }
        }
        let copy = id.clone();
        self.sessions.push(Session { id: copy });
        proof {
            assert(self.ids() =~= old(self).ids().push(name));
            assert forall|i: int| 0 <= i < self.ids().len() implies exists|n: nat|
                1 <= n <= self.counter && #[trigger] self.ids()[i] == session_name(n) by {
                if i < old(self).ids().len() {
                    assert(self.ids()[i] == old(self).ids()[i]);
                    let n = choose|n: nat| 1 <= n <= old(self).counter && #[trigger] old(self).ids()[i] == session_name(n);
                    assert(1 <= n <= self.counter && self.ids()[i] == session_name(n));
                } else {
                    assert(self.ids()[i] == session_name(self.counter as nat));
                }
            }
            assert forall|a: int, b: int|
                0 <= a < self.ids().len() && 0 <= b < self.ids().len() && a != b
                implies self.ids()[a] != self.ids()[b] by {
                if a < old(self).ids().len() && b < old(self).ids().len() {
                    assert(self.ids()[a] == old(self).ids()[a]);
                    assert(self.ids()[b] == old(self).ids()[b]);
                } else if a < old(self).ids().len() {
                    assert(self.ids()[a] == old(self).ids()[a]);
                    assert(old(self).ids().contains(self.ids()[a]));
                } else {
                    assert(self.ids()[b] == old(self).ids()[b]);
                    assert(old(self).ids().contains(self.ids()[b]));
                }
            }
        }
        id
    }

    fn find(&self, id: &str) -> (r: Option<usize>)
        ensures
            match r {
                Some(i) => i < self.ids().len() && self.ids()[i as int] == id@,
                None => !self.ids().contains(id@),
            },
    {
        let mut i: usize = 0;
        while i < self.sessions.len()
            invariant
                i <= self.sessions@.len(),
                forall|j: int| 0 <= j < i ==> self.ids()[j] != id@,
            decreases self.sessions@.len() - i,
        {
            if text_eq(self.sessions[i].id.as_str(), id) {
                return Some(i);
            }
            i = i + 1;
        }
        None
    }

    /// Whether a session with this id is active.
    pub fn has_session(&self, id: &str) -> (r: bool)
        ensures
            r == self.ids().contains(id@),
    {
        self.find(id).is_some()
    }

    /// End a session; whether it was active.
    pub fn close_session(&mut self, id: &str) -> (r: bool)
        requires
            old(self).wf(),
        ensures
            final(self).wf(),
            r == old(self).ids().contains(id@),
            final(self).ids().to_set() == old(self).ids().to_set().remove(id@),
            final(self).ids().len() == old(self).ids().len() - (if r { 1int } else { 0int }),
            final(self).created() == old(self).created(),
    {
        match self.find(id) {
            Some(i) => {
                let ghost before = self.ids();
                self.sessions.remove(i);
                proof {
                    assert(self.ids() =~= before.remove(i as int));
                    assert forall|a: int, b: int|
                        0 <= a < self.ids().len() && 0 <= b < self.ids().len() && a != b
                        implies self.ids()[a] != self.ids()[b] by {
                        let a0 = if a < i { a } else { a + 1 };
                        let b0 = if b < i { b } else { b + 1 };
                        assert(before[a0] != before[b0]);
                    }
                    assert forall|j: int| 0 <= j < self.ids().len() implies exists|n: nat|
                        1 <= n <= self.counter && #[trigger] self.ids()[j] == session_name(n) by {
                        let j0 = if j < i { j } else { j + 1 };
                        assert(self.ids()[j] == before[j0]);
                        let n = choose|n: nat| 1 <= n <= self.counter && #[trigger] before[j0] == session_name(n);
                        assert(1 <= n <= self.counter && self.ids()[j] == session_name(n));
                    }
                    assert forall|x: Seq<char>| #[trigger] self.ids().to_set().contains(x) == before.to_set().remove(id@).contains(x) by {
                        if self.ids().contains(x) {
                            let a = choose|a: int| 0 <= a < self.ids().len() && self.ids()[a] == x;
                            let a0 = if a < i { a } else { a + 1 };
                            assert(before[a0] == x);
                            assert(a0 != i);
                            assert(before[i as int] == id@);
                        }
                        if before.contains(x) && x != id@ {
                            let a0 = choose|a0: int| 0 <= a0 < before.len() && before[a0] == x;
                            assert(a0 != i);
                            let a = if a0 < i { a0 } else { a0 - 1 };
                            assert(self.ids()[a] == x);
                        }
                    }
                    assert(self.ids().to_set() =~= before.to_set().remove(id@));
                }
                true
            },
            None => {
                assert(old(self).ids().to_set().remove(id@) =~= old(self).ids().to_set());
                false
            },
        }
    }

    /// The number of active sessions.
    pub fn session_count(&self) -> (r: usize)
        ensures
            r == self.ids().len(),
    {
        self.sessions.len()
    }
}


// ---------------------------------------------------------------------
// Replies
// ---------------------------------------------------------------------

/// A string as a bencode byte string.
pub open spec fn text(s: Seq<char>) -> Bencode {
    Bencode::Bytes(encode_utf8(s))
}

/// A reply dictionary holding the given pairs.
pub open spec fn reply(pairs: Seq<(Seq<char>, Bencode)>) -> Bencode {
    Bencode::Dict(insert_all(Seq::empty(), pairs))
}

/// A status list of words.
pub open spec fn status(words: Seq<Seq<char>>) -> Bencode {
    Bencode::List(Seq::new(words.len(), |i: int| text(words[i])))
}

/// The `done` status.
pub open spec fn done() -> Bencode {
    status(seq!["done"@])
}

/// A text field of a message, if present.
pub open spec fn field(msg: Bencode, key: Seq<char>) -> Option<Seq<char>> {
    match msg {
        Bencode::Dict(es) => match dict_lookup(es, key) {
            Some(v) => bytes_text(v),
            None => None,
        },
        _ => None,
    }
}

/// A text field of a message, or a default.
pub open spec fn field_or(msg: Bencode, key: Seq<char>, default: Seq<char>) -> Seq<char> {
    match field(msg, key) {
        Some(s) => s,
        None => default,
    }
}

/// Text or nothing, as plain values.
pub open spec fn opt_text(o: Option<String>) -> Option<Seq<char>> {
    match o {
        Some(s) => Some(s@),
        None => None,
    }
}

/// `pairs` followed by `(key, text)` when there is a text.
pub open spec fn with_opt(pairs: Seq<(Seq<char>, Bencode)>, key: Seq<char>, o: Option<Seq<char>>) -> Seq<
    (Seq<char>, Bencode),
> {
    match o {
        Some(t) => pairs.push((key, text(t))),
        None => pairs,
    }
}

/// The id and session pairs that head most replies.
pub open spec fn head(id: Seq<char>, sid: Seq<char>) -> Seq<(Seq<char>, Bencode)> {
    seq![("id"@, text(id)), ("session"@, text(sid))]
}

fn field_or_exec<'a>(msg: &'a Value, key: &str, default: &'a str) -> (r: &'a str)
    ensures
        r@ == field_or(msg@, key@, default@),
{
    match msg.get_str(key) {
        Some(s) => s,
        None => default,
    }
}

fn status_of(words: &[&str]) -> (r: Value)
    ensures
        r@ == status(Seq::new(words@.len(), |i: int| words@[i]@)),
{
    let mut items: Vec<Value> = Vec::new();
    let mut i: usize = 0;
    while i < words.len()
        invariant
            i <= words@.len(),
            items@.len() == i,
            forall|j: int| 0 <= j < i ==> (#[trigger] items@[j])@ == text(words@[j]@),
        decreases words@.len() - i,
    {
        items.push(Value::string(words[i]));
        i = i + 1;
    }
    proof {
        lemma_value_models(items@);
        let w = Seq::new(words@.len(), |i: int| words@[i]@);
        assert(value_models(items@) =~= Seq::new(w.len(), |i: int| text(w[i])));
    }
    Value::List(items)
}

fn reply_of(pairs: Vec<(&str, Value)>) -> (r: Value)
    ensures
        r@ == reply(pair_models(pairs@)),
{
    Value::dict(pairs)
}

fn push_opt<'a>(pairs: &mut Vec<(&'a str, Value)>, key: &'a str, o: &Option<String>)
    ensures
        pair_models(final(pairs)@) == with_opt(pair_models(old(pairs)@), key@, opt_text(*o)),
{
    match o {
        Some(t) => {
            pairs.push((key, Value::string(t.as_str())));
            assert(pair_models(pairs@) =~= pair_models(old(pairs)@).push((key@, text(t@))));
        },
        None => {},
    }
}

/// The reply to `clone`.
pub open spec fn clone_reply(id: Seq<char>, new_id: Seq<char>) -> Bencode {
    reply(seq![("id"@, text(id)), ("new-session"@, text(new_id)), ("status"@, done())])
}

/// The reply to `close`.
pub open spec fn close_reply(id: Seq<char>, sid: Seq<char>) -> Bencode {
    reply(head(id, sid).push(("status"@, done())))
}

/// The reply to a request with an error status.
pub open spec fn error_reply(id: Seq<char>, sid: Seq<char>, reason: Seq<char>) -> Bencode {
    reply(head(id, sid).push(("status"@, status(seq!["error"@, reason, "done"@]))))
}

/// The operations that `describe` lists.
pub open spec fn described_ops() -> Seq<Seq<char>> {
    seq![
        "clone"@,
        "close"@,
        "completions"@,
        "describe"@,
        "eval"@,
        "info"@,
        "load-file"@,
        "ns-list"@,
        "switch-ns"@,
        "create-node"@,
        "delete-node"@,
        "update-node"@,
        "node-state"@,
        "compute"@,
    ]
}

/// The reply to `describe`.
pub open spec fn describe_reply(id: Seq<char>) -> Bencode {
    reply(
        seq![
            ("id"@, text(id)),
            ("ops"@, reply(Seq::new(14, |i: int| (described_ops()[i], reply(Seq::empty()))))),
            ("status"@, done()),
            (
                "versions"@,
                reply(
                    seq![
                        (
                            "nrepl"@,
                            reply(seq![("major"@, Bencode::Int(0)), ("minor"@, Bencode::Int(1))]),
                        ),
                    ],
                ),
            ),
        ],
    )
}

fn empty_dict() -> (r: Value)
    ensures
        r@ == reply(Seq::empty()),
{
    let pairs: Vec<(&str, Value)> = Vec::new();
    let r = reply_of(pairs);
    assert(pair_models(pairs@) =~= Seq::<(Seq<char>, Bencode)>::empty());
    r
}

fn done_value() -> (r: Value)
    ensures
        r@ == done(),
{
    let words: [&str; 1] = ["done"];
    let r = status_of(&words);
    assert(Seq::new(words@.len(), |i: int| words@[i]@) =~= seq!["done"@]);
    r
}

fn status3(a: &str, b: &str, c: &str) -> (r: Value)
    ensures
        r@ == status(seq![a@, b@, c@]),
{
    let words: [&str; 3] = [a, b, c];
    let r = status_of(&words);
    assert(Seq::new(words@.len(), |i: int| words@[i]@) =~= seq![a@, b@, c@]);
    r
}

fn status2(a: &str, b: &str) -> (r: Value)
    ensures
        r@ == status(seq![a@, b@]),
{
    let words: [&str; 2] = [a, b];
    let r = status_of(&words);
    assert(Seq::new(words@.len(), |i: int| words@[i]@) =~= seq![a@, b@]);
    r
}

fn head_pairs<'a>(id: &'a str, sid: &'a str) -> (r: Vec<(&'a str, Value)>)
    ensures
        pair_models(r@) == head(id@, sid@),
{
    let mut pairs: Vec<(&'a str, Value)> = Vec::new();
    pairs.push(("id", Value::string(id)));
    pairs.push(("session", Value::string(sid)));
    assert(pair_models(pairs@) =~= head(id@, sid@));
    pairs
}

/// The reply to `clone`, given the new session's id.
pub fn clone_reply_value(id: &str, new_id: &str) -> (r: Value)
    ensures
        r@ == clone_reply(id@, new_id@),
{
    let mut pairs: Vec<(&str, Value)> = Vec::new();
    pairs.push(("id", Value::string(id)));
    pairs.push(("new-session", Value::string(new_id)));
    pairs.push(("status", done_value()));
    assert(pair_models(pairs@) =~= seq![("id"@, text(id@)), ("new-session"@, text(new_id@)), ("status"@, done())]);
    reply_of(pairs)
}

/// The reply to `close`.
pub fn close_reply_value(id: &str, sid: &str) -> (r: Value)
    ensures
        r@ == close_reply(id@, sid@),
{
    let mut pairs = head_pairs(id, sid);
    pairs.push(("status", done_value()));
    assert(pair_models(pairs@) =~= head(id@, sid@).push(("status"@, done())));
    reply_of(pairs)
}

/// A reply whose status is `error`, `reason`, `done`.
pub fn error_reply_value(id: &str, sid: &str, reason: &str) -> (r: Value)
    ensures
        r@ == error_reply(id@, sid@, reason@),
{
    let mut pairs = head_pairs(id, sid);
    pairs.push(("status", status3("error", reason, "done")));
    assert(pair_models(pairs@) =~= head(id@, sid@).push(("status"@, status(seq!["error"@, reason@, "done"@]))));
    reply_of(pairs)
}

/// The reply to `describe`.
pub fn describe_reply_value(id: &str) -> (r: Value)
    ensures
        r@ == describe_reply(id@),
{
    let names: [&str; 14] = [
        "clone",
        "close",
        "completions",
        "describe",
        "eval",
        "info",
        "load-file",
        "ns-list",
        "switch-ns",
        "create-node",
        "delete-node",
        "update-node",
        "node-state",
        "compute",
    ];
    let mut ops: Vec<(&str, Value)> = Vec::new();
    let mut i: usize = 0;
    proof {
        reveal_strlit("clone");
        reveal_strlit("close");
        reveal_strlit("completions");
        reveal_strlit("describe");
        reveal_strlit("eval");
        reveal_strlit("info");
        reveal_strlit("load-file");
        reveal_strlit("ns-list");
        reveal_strlit("switch-ns");
        reveal_strlit("create-node");
        reveal_strlit("delete-node");
        reveal_strlit("update-node");
        reveal_strlit("node-state");
        reveal_strlit("compute");
    }
    assert(forall|j: int| 0 <= j < 14 ==> (#[trigger] names@[j])@ == described_ops()[j]);
    while i < 14
        invariant
            i <= 14,
            forall|j: int| 0 <= j < 14 ==> (#[trigger] names@[j])@ == described_ops()[j],
            ops@.len() == i,
            forall|j: int| 0 <= j < i ==> (#[trigger] ops@[j]).0@ == described_ops()[j] && ops@[j].1@
                == reply(Seq::empty()),
        decreases 14 - i,
    {
        ops.push((names[i], empty_dict()));
        i = i + 1;
    }
    assert(pair_models(ops@) =~= Seq::new(14, |i: int| (described_ops()[i], reply(Seq::empty()))));
    let ops_value = reply_of(ops);
    let mut nrepl: Vec<(&str, Value)> = Vec::new();
    nrepl.push(("major", Value::Int(0)));
    nrepl.push(("minor", Value::Int(1)));
    assert(pair_models(nrepl@) =~= seq![("major"@, Bencode::Int(0)), ("minor"@, Bencode::Int(1))]);
    let nrepl_value = reply_of(nrepl);
    let mut versions: Vec<(&str, Value)> = Vec::new();
    versions.push(("nrepl", nrepl_value));
    let ghost nv = nrepl_value@;
    assert(pair_models(versions@) =~= seq![("nrepl"@, nv)]);
    let versions_value = reply_of(versions);
    let ghost ov = ops_value@;
    let ghost vv = versions_value@;
    let mut pairs: Vec<(&str, Value)> = Vec::new();
    pairs.push(("id", Value::string(id)));
    pairs.push(("ops", ops_value));
    pairs.push(("status", done_value()));
    pairs.push(("versions", versions_value));
    assert(pair_models(pairs@) =~= seq![("id"@, text(id@)), ("ops"@, ov), ("status"@, done()), ("versions"@, vv)]);
    reply_of(pairs)
}

/// What an evaluation gave, as plain values.
pub struct EvalView {
    pub value: Option<Seq<char>>,
    pub out: Option<Seq<char>>,
    pub err: Option<Seq<char>>,
    pub ex: Option<Seq<char>>,
}

impl View for EvalResult {
    type V = EvalView;

    open spec fn view(&self) -> EvalView {
        EvalView {
            value: opt_text(self.value),
            out: opt_text(self.out),
            err: opt_text(self.err),
            ex: opt_text(self.ex),
        }
    }
}

/// The replies to `eval`: printed output, error output, then the value and
/// status.
pub open spec fn eval_replies(id: Seq<char>, sid: Seq<char>, e: EvalView) -> Seq<Bencode> {
    let out_part = match e.out {
        Some(o) => seq![reply(head(id, sid).push(("out"@, text(o))))],
        None => Seq::empty(),
    };
    let err_part = match e.err {
        Some(x) => seq![reply(head(id, sid).push(("err"@, text(x))))],
        None => Seq::empty(),
    };
    let st = if e.ex is Some {
        status(seq!["eval-error"@, "done"@])
    } else {
        done()
    };
    out_part + err_part + seq![
        reply(with_opt(with_opt(head(id, sid).push(("status"@, st)), "value"@, e.value), "ex"@, e.ex)),
    ]
}

/// The replies to `eval` for the evaluator's result.
pub fn eval_reply_values(id: &str, sid: &str, result: &EvalResult) -> (r: Vec<Value>)
    ensures
        value_models(r@) == eval_replies(id@, sid@, result@),
{
    let mut responses: Vec<Value> = Vec::new();
    let ghost mut expected: Seq<Bencode> = Seq::empty();
    match &result.out {
        Some(out) => {
            let mut pairs = head_pairs(id, sid);
            pairs.push(("out", Value::string(out.as_str())));
            assert(pair_models(pairs@) =~= head(id@, sid@).push(("out"@, text(out@))));
            responses.push(reply_of(pairs));
            proof {
                expected = seq![reply(head(id@, sid@).push(("out"@, text(out@))))];
            }
        },
        None => {},
    }
    match &result.err {
        Some(err) => {
            let mut pairs = head_pairs(id, sid);
            pairs.push(("err", Value::string(err.as_str())));
            assert(pair_models(pairs@) =~= head(id@, sid@).push(("err"@, text(err@))));
            responses.push(reply_of(pairs));
            proof {
                expected = expected.push(reply(head(id@, sid@).push(("err"@, text(err@)))));
            }
        },
        None => {},
    }
    let st = if result.ex.is_some() {
        status2("eval-error", "done")
    } else {
        done_value()
    };
    let ghost stv = st@;
    let mut pairs = head_pairs(id, sid);
    pairs.push(("status", st));
    assert(pair_models(pairs@) =~= head(id@, sid@).push(("status"@, stv)));
    push_opt(&mut pairs, "value", &result.value);
    push_opt(&mut pairs, "ex", &result.ex);
    responses.push(reply_of(pairs));
    proof {
        lemma_value_models(responses@);
        let e = result@;
        let fin = reply(with_opt(with_opt(head(id@, sid@).push(("status"@, stv)), "value"@, e.value), "ex"@, e.ex));
        expected = expected.push(fin);
        assert(expected =~= eval_replies(id@, sid@, e));
        assert(value_models(responses@) =~= expected);
    }
    responses
}

/// A completion candidate as plain values.
pub struct CompletionView {
    pub candidate: Seq<char>,
    pub ns: Option<Seq<char>>,
    pub kind: Option<Seq<char>>,
}

impl View for Completion {
    type V = CompletionView;

    open spec fn view(&self) -> CompletionView {
        CompletionView { candidate: self.candidate@, ns: opt_text(self.ns), kind: opt_text(self.kind) }
    }
}

/// One completion candidate as a dictionary.
pub open spec fn candidate_reply(c: CompletionView) -> Bencode {
    reply(with_opt(with_opt(seq![("candidate"@, text(c.candidate))], "ns"@, c.ns), "type"@, c.kind))
}

/// The reply to `completions`.
pub open spec fn completions_reply(id: Seq<char>, sid: Seq<char>, cs: Seq<CompletionView>) -> Bencode {
    reply(
        head(id, sid) + seq![
            ("completions"@, Bencode::List(Seq::new(cs.len(), |i: int| candidate_reply(cs[i])))),
            ("status"@, done()),
        ],
    )
}

/// The reply to `completions` for the evaluator's candidates.
pub fn completions_reply_value(id: &str, sid: &str, cs: &Vec<Completion>) -> (r: Value)
    ensures
        r@ == completions_reply(id@, sid@, Seq::new(cs@.len(), |i: int| cs@[i]@)),
{
    let mut items: Vec<Value> = Vec::new();
    let mut i: usize = 0;
    while i < cs.len()
        invariant
            i <= cs@.len(),
            items@.len() == i,
            forall|j: int| 0 <= j < i ==> (#[trigger] items@[j])@ == candidate_reply(cs@[j]@),
        decreases cs@.len() - i,
    {
        let c = &cs[i];
        let mut pairs: Vec<(&str, Value)> = Vec::new();
        pairs.push(("candidate", Value::string(c.candidate.as_str())));
        assert(pair_models(pairs@) =~= seq![("candidate"@, text(c.candidate@))]);
        push_opt(&mut pairs, "ns", &c.ns);
        push_opt(&mut pairs, "type", &c.kind);
        items.push(reply_of(pairs));
        i = i + 1;
    }
    let ghost views = Seq::new(cs@.len(), |i: int| cs@[i]@);
    proof {
        lemma_value_models(items@);
        assert(value_models(items@) =~= Seq::new(views.len(), |i: int| candidate_reply(views[i])));
    }
    let list = Value::List(items);
    let ghost lv = list@;
    let mut pairs = head_pairs(id, sid);
    pairs.push(("completions", list));
    pairs.push(("status", done_value()));
    assert(pair_models(pairs@) =~= head(id@, sid@) + seq![("completions"@, lv), ("status"@, done())]);
    reply_of(pairs)
}

/// Symbol information as plain values.
pub struct SymbolView {
    pub name: Seq<char>,
    pub ns: Option<Seq<char>>,
    pub file: Option<Seq<char>>,
    pub doc: Option<Seq<char>>,
}

impl View for SymbolInfo {
    type V = SymbolView;

    open spec fn view(&self) -> SymbolView {
        SymbolView { name: self.name@, ns: opt_text(self.ns), file: opt_text(self.file), doc: opt_text(self.doc) }
    }
}

/// The reply to `info`.
pub open spec fn info_reply(id: Seq<char>, sid: Seq<char>, info: Option<SymbolView>) -> Bencode {
    match info {
        Some(s) => reply(
            with_opt(
                with_opt(
                    with_opt(head(id, sid) + seq![("name"@, text(s.name)), ("status"@, done())], "ns"@, s.ns),
                    "file"@,
                    s.file,
                ),
                "doc"@,
                s.doc,
            ),
        ),
        None => reply(head(id, sid).push(("status"@, status(seq!["no-info"@, "done"@])))),
    }
}

/// The reply to `info` for what the evaluator found.
pub fn info_reply_value(id: &str, sid: &str, info: &Option<SymbolInfo>) -> (r: Value)
    ensures
        r@ == info_reply(id@, sid@, match info {
            Some(s) => Some(s@),
            None => None,
        }),
{
    match info {
        Some(s) => {
            let mut pairs = head_pairs(id, sid);
            pairs.push(("name", Value::string(s.name.as_str())));
            pairs.push(("status", done_value()));
            assert(pair_models(pairs@) =~= head(id@, sid@) + seq![("name"@, text(s.name@)), ("status"@, done())]);
            push_opt(&mut pairs, "ns", &s.ns);
            push_opt(&mut pairs, "file", &s.file);
            push_opt(&mut pairs, "doc", &s.doc);
            reply_of(pairs)
        },
        None => {
            let mut pairs = head_pairs(id, sid);
            pairs.push(("status", status2("no-info", "done")));
            assert(pair_models(pairs@) =~= head(id@, sid@).push(("status"@, status(seq!["no-info"@, "done"@]))));
            reply_of(pairs)
        },
    }
}

/// The reply to `load-file`.
pub open spec fn load_file_reply(id: Seq<char>, sid: Seq<char>, value: Option<Seq<char>>, error: Option<Seq<char>>) -> Bencode {
    let st = if error is Some {
        status(seq!["eval-error"@, "done"@])
    } else {
        done()
    };
    reply(with_opt(with_opt(head(id, sid).push(("status"@, st)), "value"@, value), "ex"@, error))
}

/// The reply to `load-file` for the evaluator's result.
pub fn load_file_reply_value(id: &str, sid: &str, result: &LoadFileResult) -> (r: Value)
    ensures
        r@ == load_file_reply(id@, sid@, opt_text(result.value), opt_text(result.error)),
{
    let st = if result.error.is_some() {
        status2("eval-error", "done")
    } else {
        done_value()
    };
    let ghost stv = st@;
    let mut pairs = head_pairs(id, sid);
    pairs.push(("status", st));
    assert(pair_models(pairs@) =~= head(id@, sid@).push(("status"@, stv)));
    push_opt(&mut pairs, "value", &result.value);
    push_opt(&mut pairs, "ex", &result.error);
    reply_of(pairs)
}

/// A list of strings as byte strings.
pub open spec fn text_list(names: Seq<Seq<char>>) -> Bencode {
    Bencode::List(Seq::new(names.len(), |i: int| text(names[i])))
}

fn text_list_value(names: &Vec<String>) -> (r: Value)
    ensures
        r@ == text_list(Seq::new(names@.len(), |i: int| names@[i]@)),
{
    let mut items: Vec<Value> = Vec::new();
    let mut i: usize = 0;
    while i < names.len()
        invariant
            i <= names@.len(),
            items@.len() == i,
            forall|j: int| 0 <= j < i ==> (#[trigger] items@[j])@ == text(names@[j]@),
        decreases names@.len() - i,
    {
        items.push(Value::string(names[i].as_str()));
        i = i + 1;
    }
    proof {
        lemma_value_models(items@);
        let w = Seq::new(names@.len(), |i: int| names@[i]@);
        assert(value_models(items@) =~= Seq::new(w.len(), |i: int| text(w[i])));
    }
    Value::List(items)
}

/// The reply to `ns-list`.
pub open spec fn ns_list_reply(id: Seq<char>, sid: Seq<char>, names: Seq<Seq<char>>) -> Bencode {
    reply(head(id, sid) + seq![("ns-list"@, text_list(names)), ("status"@, done())])
}

/// The reply to `ns-list` for the evaluator's namespaces.
pub fn ns_list_reply_value(id: &str, sid: &str, names: &Vec<String>) -> (r: Value)
    ensures
        r@ == ns_list_reply(id@, sid@, Seq::new(names@.len(), |i: int| names@[i]@)),
{
    let list = text_list_value(names);
    let ghost lv = list@;
    let mut pairs = head_pairs(id, sid);
    pairs.push(("ns-list", list));
    pairs.push(("status", done_value()));
    assert(pair_models(pairs@) =~= head(id@, sid@) + seq![("ns-list"@, lv), ("status"@, done())]);
    reply_of(pairs)
}

/// The reply to `switch-ns`.
pub open spec fn switch_ns_reply(id: Seq<char>, sid: Seq<char>, ok: bool) -> Bencode {
    if ok {
        reply(head(id, sid).push(("status"@, done())))
    } else {
        error_reply(id, sid, "namespace-not-found"@)
    }
}

/// The reply to `switch-ns` for whether the switch succeeded.
pub fn switch_ns_reply_value(id: &str, sid: &str, ok: bool) -> (r: Value)
    ensures
        r@ == switch_ns_reply(id@, sid@, ok),
{
    if ok {
        close_reply_value(id, sid)
    } else {
        error_reply_value(id, sid, "namespace-not-found")
    }
}

/// The reply to an operation that failed with a message.
pub open spec fn failure_reply(id: Seq<char>, sid: Seq<char>, e: Seq<char>) -> Bencode {
    reply(head(id, sid) + seq![("ex"@, text(e)), ("status"@, status(seq!["error"@, "done"@]))])
}

/// The reply to `create-node`.
pub open spec fn create_node_reply(id: Seq<char>, sid: Seq<char>, r: Result<Seq<char>, Seq<char>>) -> Bencode {
    match r {
        Ok(node) => reply(head(id, sid) + seq![("node-id"@, text(node)), ("status"@, done())]),
        Err(e) => failure_reply(id, sid, e),
    }
}

/// The reply to an operation that succeeds with nothing or fails with a message
/// (`delete-node`, `update-node`, `compute`).
pub open spec fn unit_reply(id: Seq<char>, sid: Seq<char>, r: Result<(), Seq<char>>) -> Bencode {
    match r {
        Ok(()) => reply(head(id, sid).push(("status"@, done()))),
        Err(e) => failure_reply(id, sid, e),
    }
}

fn failure_reply_value(id: &str, sid: &str, e: &str) -> (r: Value)
    ensures
        r@ == failure_reply(id@, sid@, e@),
{
    let mut pairs = head_pairs(id, sid);
    pairs.push(("ex", Value::string(e)));
    pairs.push(("status", status2("error", "done")));
    assert(pair_models(pairs@) =~= head(id@, sid@) + seq![("ex"@, text(e@)), ("status"@, status(seq!["error"@, "done"@]))]);
    reply_of(pairs)
}

/// The reply to `create-node` for the evaluator's result.
pub fn create_node_reply_value(id: &str, sid: &str, result: &Result<String, String>) -> (r: Value)
    ensures
        r@ == create_node_reply(id@, sid@, match result {
            Ok(n) => Ok(n@),
            Err(e) => Err(e@),
        }),
{
    match result {
        Ok(node) => {
            let mut pairs = head_pairs(id, sid);
            pairs.push(("node-id", Value::string(node.as_str())));
            pairs.push(("status", done_value()));
            assert(pair_models(pairs@) =~= head(id@, sid@) + seq![("node-id"@, text(node@)), ("status"@, done())]);
            reply_of(pairs)
        },
        Err(e) => failure_reply_value(id, sid, e.as_str()),
    }
}

/// The reply to `delete-node`, `update-node` or `compute` for the evaluator's result.
pub fn unit_reply_value(id: &str, sid: &str, result: &Result<(), String>) -> (r: Value)
    ensures
        r@ == unit_reply(id@, sid@, match result {
            Ok(()) => Ok(()),
            Err(e) => Err(e@),
        }),
{
    match result {
        Ok(()) => close_reply_value(id, sid),
        Err(e) => failure_reply_value(id, sid, e.as_str()),
    }
}

/// A node's state as plain values.
pub struct NodeView {
    pub code: Seq<char>,
    pub exports: Seq<Seq<char>>,
    pub imports: Seq<(Seq<char>, Seq<char>)>,
    pub outputs: Seq<(Seq<char>, Seq<char>)>,
    pub error: Option<Seq<char>>,
}

impl View for NodeState {
    type V = NodeView;

    open spec fn view(&self) -> NodeView {
        NodeView {
            code: self.code@,
            exports: Seq::new(self.exports@.len(), |i: int| self.exports@[i]@),
            imports: Seq::new(self.imports@.len(), |i: int| (self.imports@[i].0@, self.imports@[i].1@)),
            outputs: Seq::new(self.outputs@.len(), |i: int| (self.outputs@[i].0@, self.outputs@[i].1@)),
            error: opt_text(self.error),
        }
    }
}

/// The reply to `node-state`.
pub open spec fn node_state_reply(id: Seq<char>, sid: Seq<char>, st: Option<NodeView>) -> Bencode {
    match st {
        Some(n) => reply(
            with_opt(
                head(id, sid) + seq![
                    ("code"@, text(n.code)),
                    ("exports"@, text_list(n.exports)),
                    (
                        "imports"@,
                        Bencode::List(
                            Seq::new(
                                n.imports.len(),
                                |i: int| Bencode::List(seq![text(n.imports[i].0), text(n.imports[i].1)]),
                            ),
                        ),
                    ),
                    ("outputs"@, reply(Seq::new(n.outputs.len(), |i: int| (n.outputs[i].0, text(n.outputs[i].1))))),
                    ("status"@, done()),
                ],
                "error"@,
                n.error,
            ),
        ),
        None => error_reply(id, sid, "no-such-node"@),
    }
}

/// The reply to `node-state` for what the evaluator found.
pub fn node_state_reply_value(id: &str, sid: &str, st: &Option<NodeState>) -> (r: Value)
    ensures
        r@ == node_state_reply(id@, sid@, match st {
            Some(n) => Some(n@),
            None => None,
        }),
{
    match st {
        None => error_reply_value(id, sid, "no-such-node"),
        Some(n) => {
            let ghost nv = n@;
            let exports = text_list_value(&n.exports);
            let mut imports: Vec<Value> = Vec::new();
            let mut i: usize = 0;
            while i < n.imports.len()
                invariant
                    nv == n@,
                    i <= n.imports@.len(),
                    imports@.len() == i,
                    forall|j: int| 0 <= j < i ==> (#[trigger] imports@[j])@ == Bencode::List(
                        seq![text(nv.imports[j].0), text(nv.imports[j].1)],
                    ),
                decreases n.imports@.len() - i,
            {
                let mut pair: Vec<Value> = Vec::new();
                pair.push(Value::string(n.imports[i].0.as_str()));
                pair.push(Value::string(n.imports[i].1.as_str()));
                proof {
                    lemma_value_models(pair@);
                    assert(value_models(pair@) =~= seq![text(nv.imports[i as int].0), text(nv.imports[i as int].1)]);
                }
                imports.push(Value::List(pair));
                i = i + 1;
            }
            proof {
                lemma_value_models(imports@);
                assert(value_models(imports@) =~= Seq::new(
                    nv.imports.len(),
                    |i: int| Bencode::List(seq![text(nv.imports[i].0), text(nv.imports[i].1)]),
                ));
            }
            let imports_value = Value::List(imports);
            let mut outs: Vec<(&str, Value)> = Vec::new();
            let mut k: usize = 0;
            while k < n.outputs.len()
                invariant
                    nv == n@,
                    k <= n.outputs@.len(),
                    outs@.len() == k,
                    forall|j: int| 0 <= j < k ==> (#[trigger] outs@[j]).0@ == nv.outputs[j].0 && outs@[j].1@ == text(nv.outputs[j].1),
                decreases n.outputs@.len() - k,
            {
                outs.push((n.outputs[k].0.as_str(), Value::string(n.outputs[k].1.as_str())));
                k = k + 1;
            }
            assert(pair_models(outs@) =~= Seq::new(nv.outputs.len(), |i: int| (nv.outputs[i].0, text(nv.outputs[i].1))));
            let outputs_value = reply_of(outs);
            let ghost ev = exports@;
            let ghost iv = imports_value@;
            let ghost ov = outputs_value@;
            let mut pairs = head_pairs(id, sid);
            pairs.push(("code", Value::string(n.code.as_str())));
            pairs.push(("exports", exports));
            pairs.push(("imports", imports_value));
            pairs.push(("outputs", outputs_value));
            pairs.push(("status", done_value()));
            assert(pair_models(pairs@) =~= head(id@, sid@) + seq![
                ("code"@, text(nv.code)),
                ("exports"@, ev),
                ("imports"@, iv),
                ("outputs"@, ov),
                ("status"@, done()),
            ]);
            push_opt(&mut pairs, "error", &n.error);
            reply_of(pairs)
        },
    }
}

/// The items of a list field of a message.
pub open spec fn list_field(msg: Bencode, key: Seq<char>) -> Option<Seq<Bencode>> {
    match msg {
        Bencode::Dict(es) => match dict_lookup(es, key) {
            Some(Bencode::List(items)) => Some(items),
            _ => None,
        },
        _ => None,
    }
}

/// The texts among some items, in order; other items are skipped.
pub open spec fn texts_of(items: Seq<Bencode>) -> Seq<Seq<char>>
    decreases items.len(),
{
    if items.len() == 0 {
        Seq::empty()
    } else {
        let rest = texts_of(items.drop_last());
        match bytes_text(items.last()) {
            Some(t) => rest.push(t),
            None => rest,
        }
    }
}

/// A two-item list of texts, as a pair.
pub open spec fn text_pair(v: Bencode) -> Option<(Seq<char>, Seq<char>)> {
    match v {
        Bencode::List(p) => if p.len() == 2 {
            match (bytes_text(p[0]), bytes_text(p[1])) {
                (Some(a), Some(b)) => Some((a, b)),
                _ => None,
            }
        } else {
            None
        },
        _ => None,
    }
}

/// The text pairs among some items, in order; other items are skipped.
pub open spec fn pairs_of(items: Seq<Bencode>) -> Seq<(Seq<char>, Seq<char>)>
    decreases items.len(),
{
    if items.len() == 0 {
        Seq::empty()
    } else {
        let rest = pairs_of(items.drop_last());
        match text_pair(items.last()) {
            Some(p) => rest.push(p),
            None => rest,
        }
    }
}

/// The texts of a list field (`exports`), skipping items that are not text.
pub fn text_items(msg: &Value, key: &str) -> (r: Option<Vec<String>>)
    ensures
        match r {
            Some(v) => list_field(msg@, key@) matches Some(items) && Seq::new(v@.len(), |i: int| v@[i]@)
                == texts_of(items),
            None => list_field(msg@, key@) is None,
        },
{
    let field = match msg.get(key) {
        Some(f) => f,
        None => {
            return None;
        },
    };
    let items = match field.as_list() {
        Some(l) => l,
        None => {
            return None;
        },
    };
    let ghost ms = value_models(items@);
    proof {
        lemma_value_models(items@);
    }
    let mut out: Vec<String> = Vec::new();
    let mut i: usize = 0;
    while i < items.len()
        invariant
            i <= items@.len(),
            ms == value_models(items@),
            ms.len() == items@.len(),
            forall|j: int| 0 <= j < items@.len() ==> #[trigger] ms[j] == items@[j]@,
            Seq::new(out@.len(), |j: int| out@[j]@) == texts_of(ms.take(i as int)),
        decreases items@.len() - i,
    {
        let ghost before = Seq::new(out@.len(), |j: int| out@[j]@);
        assert(ms.take(i + 1).drop_last() =~= ms.take(i as int));
        assert(ms.take(i + 1).last() == items@[i as int]@);
        match items[i].as_str() {
            Some(t) => {
                out.push(string_from(t));
                assert(Seq::new(out@.len(), |j: int| out@[j]@) =~= before.push(t@));
            },
            None => {
                assert(Seq::new(out@.len(), |j: int| out@[j]@) =~= before);
            },
        }
        i = i + 1;
    }
    assert(ms.take(i as int) =~= ms);
    Some(out)
}

/// The text pairs of a list field (`imports`), skipping items that are not
/// two-item lists of text.
pub fn pair_items(msg: &Value, key: &str) -> (r: Option<Vec<(String, String)>>)
    ensures
        match r {
            Some(v) => list_field(msg@, key@) matches Some(items) && Seq::new(v@.len(), |i: int| (v@[i].0@, v@[i].1@))
                == pairs_of(items),
            None => list_field(msg@, key@) is None,
        },
{
    let field = match msg.get(key) {
        Some(f) => f,
        None => {
            return None;
        },
    };
    let items = match field.as_list() {
        Some(l) => l,
        None => {
            return None;
        },
    };
    let ghost ms = value_models(items@);
    proof {
        lemma_value_models(items@);
    }
    let mut out: Vec<(String, String)> = Vec::new();
    let mut i: usize = 0;
    while i < items.len()
        invariant
            i <= items@.len(),
            ms == value_models(items@),
            ms.len() == items@.len(),
            forall|j: int| 0 <= j < items@.len() ==> #[trigger] ms[j] == items@[j]@,
            Seq::new(out@.len(), |j: int| (out@[j].0@, out@[j].1@)) == pairs_of(ms.take(i as int)),
        decreases items@.len() - i,
    {
        let ghost before = Seq::new(out@.len(), |j: int| (out@[j].0@, out@[j].1@));
        assert(ms.take(i + 1).drop_last() =~= ms.take(i as int));
        assert(ms.take(i + 1).last() == items@[i as int]@);
        let mut found: Option<(String, String)> = None;
        match items[i].as_list() {
            Some(p) => {
                proof {
                    lemma_value_models(p@);
                }
                if p.len() == 2 {
                    match (p[0].as_str(), p[1].as_str()) {
                        (Some(a), Some(b)) => {
                            found = Some((string_from(a), string_from(b)));
                        },
                        _ => {},
                    }
                }
            },
            None => {},
        }
        match found {
            Some(pr) => {
                let ghost pv = (pr.0@, pr.1@);
                out.push(pr);
                assert(Seq::new(out@.len(), |j: int| (out@[j].0@, out@[j].1@)) =~= before.push(pv));
            },
            None => {
                assert(Seq::new(out@.len(), |j: int| (out@[j].0@, out@[j].1@)) =~= before);
            },
        }
        i = i + 1;
    }
    assert(ms.take(i as int) =~= ms);
    Some(out)
}

/// The operation a message asks for (empty when absent).
pub open spec fn msg_op(msg: Bencode) -> Seq<char> {
    field_or(msg, "op"@, ""@)
}

/// The id a message carries (`unknown` when absent).
pub open spec fn msg_id(msg: Bencode) -> Seq<char> {
    field_or(msg, "id"@, "unknown"@)
}

/// The session a message names (empty when absent).
pub open spec fn msg_session(msg: Bencode) -> Seq<char> {
    field_or(msg, "session"@, ""@)
}

/// The code a message carries (empty when absent).
pub open spec fn msg_code(msg: Bencode) -> Seq<char> {
    field_or(msg, "code"@, ""@)
}


/// The texts of a list field of a message, if it is there.
pub open spec fn listed_texts(msg: Bencode, key: Seq<char>) -> Option<Seq<Seq<char>>> {
    match list_field(msg, key) {
        Some(items) => Some(texts_of(items)),
        None => None,
    }
}

/// The text pairs of a list field of a message, if it is there.
pub open spec fn listed_pairs(msg: Bencode, key: Seq<char>) -> Option<Seq<(Seq<char>, Seq<char>)>> {
    match list_field(msg, key) {
        Some(items) => Some(pairs_of(items)),
        None => None,
    }
}

/// What answering a message does: the replies, and what becomes of the
/// sessions. `clone` and `close` change the sessions; every other operation
/// leaves them as they are; `clone` makes a session that did not exist. An
/// operation that asks the evaluator hands it the message's fields and is
/// answered from a result that the evaluator may give for them.
pub open spec fn handled<E: Evaluator + ?Sized>(
    msg: Bencode,
    before: SessionManager,
    after: SessionManager,
    ev: &E,
    rs: Seq<Bencode>,
) -> bool {
    let op = msg_op(msg);
    let id = msg_id(msg);
    let sid = msg_session(msg);
    let canvas = field_or(msg, "canvas"@, ""@);
    let label = field_or(msg, "label"@, ""@);
    if op == "clone"@ {
        &&& after.created() == before.created() + 1
        &&& !before.ids().contains(session_name(after.created()))
        &&& after.ids() == before.ids().push(session_name(after.created()))
        &&& rs == seq![clone_reply(id, session_name(after.created()))]
    } else if op == "close"@ {
        &&& after.ids().to_set() == before.ids().to_set().remove(sid)
        &&& after.created() == before.created()
        &&& rs == seq![close_reply(id, sid)]
    } else {
        &&& after.ids() == before.ids()
        &&& after.created() == before.created()
        &&& if op == "describe"@ {
            rs == seq![describe_reply(id)]
        } else if op == "eval"@ {
            if before.ids().contains(sid) {
                exists|e: EvalView|
                    ev.evaluates(sid, msg_code(msg), e) && #[trigger] eval_replies(id, sid, e) == rs
            } else {
                rs == seq![error_reply(id, sid, "unknown-session"@)]
            }
        } else if op == "completions"@ {
            exists|cs: Seq<CompletionView>|
                ev.completes(sid, field_or(msg, "prefix"@, ""@), field(msg, "ns"@), cs) && rs
                    == seq![#[trigger] completions_reply(id, sid, cs)]
        } else if op == "info"@ {
            exists|i: Option<SymbolView>|
                ev.informs(sid, field_or(msg, "symbol"@, ""@), field(msg, "ns"@), i) && rs
                    == seq![#[trigger] info_reply(id, sid, i)]
        } else if op == "load-file"@ {
            exists|v: Option<Seq<char>>, e: Option<Seq<char>>|
                ev.loads(sid, field_or(msg, "file-path"@, ""@), field_or(msg, "file"@, ""@), v, e) && rs
                    == seq![#[trigger] load_file_reply(id, sid, v, e)]
        } else if op == "ns-list"@ {
            exists|ns: Seq<Seq<char>>| ev.lists_ns(sid, ns) && rs == seq![#[trigger] ns_list_reply(id, sid, ns)]
        } else if op == "switch-ns"@ {
            exists|ok: bool|
                ev.switches_ns(sid, field_or(msg, "ns"@, ""@), ok) && rs == seq![
                    #[trigger] switch_ns_reply(id, sid, ok),
                ]
        } else if op == "create-node"@ {
            exists|x: Result<Seq<char>, Seq<char>>|
                ev.creates_node(
                    canvas,
                    label,
                    msg_code(msg),
                    match listed_texts(msg, "exports"@) {
                        Some(t) => t,
                        None => Seq::empty(),
                    },
                    match listed_pairs(msg, "imports"@) {
                        Some(p) => p,
                        None => Seq::empty(),
                    },
                    x,
                ) && rs == seq![#[trigger] create_node_reply(id, sid, x)]
        } else if op == "delete-node"@ {
            exists|x: Result<(), Seq<char>>|
                ev.deletes_node(canvas, label, x) && rs == seq![#[trigger] unit_reply(id, sid, x)]
        } else if op == "update-node"@ {
            exists|x: Result<(), Seq<char>>|
                ev.updates_node(
                    canvas,
                    label,
                    field(msg, "code"@),
                    listed_texts(msg, "exports"@),
                    listed_pairs(msg, "imports"@),
                    x,
                ) && rs == seq![#[trigger] unit_reply(id, sid, x)]
        } else if op == "compute"@ {
            exists|x: Result<(), Seq<char>>|
                ev.computes_node(canvas, label, x) && rs == seq![#[trigger] unit_reply(id, sid, x)]
        } else if op == "node-state"@ {
            exists|x: Option<NodeView>|
                ev.shows_node(canvas, label, x) && rs == seq![#[trigger] node_state_reply(id, sid, x)]
        } else {
            rs == seq![error_reply(id, sid, "unknown-op"@)]
        }
    }
}

fn single(v: Value) -> (r: Vec<Value>)
    ensures
        value_models(r@) == seq![v@],
{
    let mut r: Vec<Value> = Vec::new();
    let ghost m = v@;
    r.push(v);
    proof {
        lemma_value_models(r@);
        assert(value_models(r@) =~= seq![m]);
    }
    r
}

/// Answer one nREPL message. `clone` and `close` change the sessions; every
/// other operation leaves them as they are. An evaluation runs the message's
/// code in its session; other operations that ask the evaluator are answered
/// from whatever it gives back.
#[verifier::rlimit(60)]
pub fn handle_message(msg: &Value, sessions: &mut SessionManager, evaluator: &dyn Evaluator) -> (r: Vec<
    Value,
>)
    requires
        old(sessions).wf(),
        old(sessions).created() < u64::MAX,
    ensures
        final(sessions).wf(),
        handled(msg@, *old(sessions), *final(sessions), evaluator, value_models(r@)),
{
    let op = field_or_exec(msg, "op", "");
    let id = field_or_exec(msg, "id", "unknown");
    let session_id = field_or_exec(msg, "session", "");
    if text_eq(op, "clone") {
        let new_id = sessions.create_session();
        return single(clone_reply_value(id, new_id.as_str()));
    }
    if text_eq(op, "close") {
        sessions.close_session(session_id);
        return single(close_reply_value(id, session_id));
    }
    if text_eq(op, "describe") {
        return single(describe_reply_value(id));
    }
    if text_eq(op, "eval") {
        if !sessions.has_session(session_id) {
            return single(error_reply_value(id, session_id, "unknown-session"));
        }
        let code = field_or_exec(msg, "code", "");
        let result = evaluator.eval(session_id, code);
        let rs = eval_reply_values(id, session_id, &result);
        assert(eval_replies(id@, session_id@, result@) == value_models(rs@));
        assert(code@ == msg_code(msg@));
        assert(evaluator.evaluates(session_id@, msg_code(msg@), result@));
        assert(exists|e: EvalView|
            evaluator.evaluates(msg_session(msg@), msg_code(msg@), e) && #[trigger] eval_replies(
                msg_id(msg@),
                msg_session(msg@),
                e,
            ) == value_models(rs@));
        return rs;
    }
    if text_eq(op, "completions") {
        let prefix = field_or_exec(msg, "prefix", "");
        let ns = msg.get_str("ns");
        let cs = evaluator.completions(session_id, prefix, ns);
        let rv = completions_reply_value(id, session_id, &cs);
        let rs = single(rv);
        let ghost views = Seq::new(cs@.len(), |i: int| cs@[i]@);
        assert(value_models(rs@) == seq![completions_reply(id@, session_id@, views)]);
        return rs;
    }
    if text_eq(op, "info") {
        let symbol = field_or_exec(msg, "symbol", "");
        let ns = msg.get_str("ns");
        let found = evaluator.info(session_id, symbol, ns);
        let rs = single(info_reply_value(id, session_id, &found));
        let ghost iv = match found {
            Some(s) => Some(s@),
            None => None,
        };
        assert(value_models(rs@) == seq![info_reply(id@, session_id@, iv)]);
        return rs;
    }
    if text_eq(op, "load-file") {
        let file_content = field_or_exec(msg, "file", "");
        let file_path = field_or_exec(msg, "file-path", "");
        let result = evaluator.load_file(session_id, file_path, file_content);
        let rs = single(load_file_reply_value(id, session_id, &result));
        assert(value_models(rs@) == seq![load_file_reply(id@, session_id@, opt_text(result.value), opt_text(result.error))]);
        return rs;
    }
    if text_eq(op, "ns-list") {
        let names = evaluator.ns_list(session_id);
        let rs = single(ns_list_reply_value(id, session_id, &names));
        let ghost nv = Seq::new(names@.len(), |i: int| names@[i]@);
        assert(value_models(rs@) == seq![ns_list_reply(id@, session_id@, nv)]);
        return rs;
    }
    if text_eq(op, "switch-ns") {
        let ns = field_or_exec(msg, "ns", "");
        let ok = evaluator.switch_ns(session_id, ns);
        let rs = single(switch_ns_reply_value(id, session_id, ok));
        assert(value_models(rs@) == seq![switch_ns_reply(id@, session_id@, ok)]);
        return rs;
    }
    if text_eq(op, "create-node") {
        let canvas = field_or_exec(msg, "canvas", "");
        let label = field_or_exec(msg, "label", "");
        let code = field_or_exec(msg, "code", "");
        let exports = match text_items(msg, "exports") {
            Some(v) => v,
            None => Vec::new(),
        };
        let imports = match pair_items(msg, "imports") {
            Some(v) => v,
            None => Vec::new(),
        };
        assert(string_views(exports@) =~= match listed_texts(msg@, "exports"@) {
            Some(t) => t,
            None => Seq::empty(),
        });
        assert(string_pair_views(imports@) =~= match listed_pairs(msg@, "imports"@) {
            Some(p) => p,
            None => Seq::empty(),
        });
        let result = evaluator.create_node(canvas, label, code, exports.as_slice(), imports.as_slice());
        let rs = single(create_node_reply_value(id, session_id, &result));
        let ghost xv = match result {
            Ok(n) => Ok(n@),
            Err(e) => Err(e@),
        };
        assert(value_models(rs@) == seq![create_node_reply(id@, session_id@, xv)]);
        return rs;
    }
    if text_eq(op, "delete-node") || text_eq(op, "update-node") || text_eq(op, "compute") {
        let canvas = field_or_exec(msg, "canvas", "");
        let label = field_or_exec(msg, "label", "");
        let result = if text_eq(op, "delete-node") {
            evaluator.delete_node(canvas, label)
        } else if text_eq(op, "update-node") {
            let code = msg.get_str("code");
            let exports = text_items(msg, "exports");
            let imports = pair_items(msg, "imports");
            let ex: Option<&[String]> = match &exports {
                Some(v) => Some(v.as_slice()),
                None => None,
            };
            let im: Option<&[(String, String)]> = match &imports {
                Some(v) => Some(v.as_slice()),
                None => None,
            };
            evaluator.update_node(canvas, label, code, ex, im)
        } else {
            evaluator.compute_node(canvas, label)
        };
        let rs = single(unit_reply_value(id, session_id, &result));
        let ghost xv = match result {
            Ok(()) => Ok(()),
            Err(e) => Err(e@),
        };
        assert(value_models(rs@) == seq![unit_reply(id@, session_id@, xv)]);
        return rs;
    }
    if text_eq(op, "node-state") {
        let canvas = field_or_exec(msg, "canvas", "");
        let label = field_or_exec(msg, "label", "");
        let st = evaluator.node_state(canvas, label);
        let rs = single(node_state_reply_value(id, session_id, &st));
        let ghost xv = match st {
            Some(n) => Some(n@),
            None => None,
        };
        assert(value_models(rs@) == seq![node_state_reply(id@, session_id@, xv)]);
        return rs;
    }
    single(error_reply_value(id, session_id, "unknown-op"))
}

/// An optional text as the reply writes it.
pub open spec fn text_value(o: Option<Seq<char>>) -> Option<Bencode> {
    match o {
        Some(t) => Some(text(t)),
        None => None,
    }
}

proof fn lemma_last_assoc_with_opt(
    p: Seq<(Seq<char>, Bencode)>,
    key: Seq<char>,
    o: Option<Seq<char>>,
    k: Seq<char>,
)
    ensures
        last_assoc(with_opt(p, key, o), k) == if k == key && o is Some {
            text_value(o)
        } else {
            last_assoc(p, k)
        },
{
    match o {
        Some(t) => {
            assert(p.push((key, text(t))).drop_last() =~= p);
        },
        None => {},
    }
}

/// What `info` answers for a symbol the evaluator knows: a dictionary
/// holding the message's id and session, the symbol's name, its namespace,
/// file and documentation each where the evaluator gave one (and no such key
/// where it gave none), and the `done` status.
pub proof fn lemma_info_reply_fields(id: Seq<char>, sid: Seq<char>, s: SymbolView)
    ensures
        info_reply(id, sid, Some(s)) matches Bencode::Dict(es) && {
            &&& dict_lookup(es, "id"@) == Some(text(id))
            &&& dict_lookup(es, "session"@) == Some(text(sid))
            &&& dict_lookup(es, "name"@) == Some(text(s.name))
            &&& dict_lookup(es, "ns"@) == text_value(s.ns)
            &&& dict_lookup(es, "file"@) == text_value(s.file)
            &&& dict_lookup(es, "doc"@) == text_value(s.doc)
            &&& dict_lookup(es, "status"@) == Some(done())
        },
{
    reveal_strlit("id");
    reveal_strlit("session");
    reveal_strlit("name");
    reveal_strlit("ns");
    reveal_strlit("file");
    reveal_strlit("doc");
    reveal_strlit("status");
    assert("id"@ != "session"@) by { assert("id"@.len() != "session"@.len()); }
    assert("id"@ != "name"@) by { assert("id"@.len() != "name"@.len()); }
    assert("id"@ != "ns"@) by { assert("id"@[0] != "ns"@[0]); }
    assert("id"@ != "file"@) by { assert("id"@.len() != "file"@.len()); }
    assert("id"@ != "doc"@) by { assert("id"@.len() != "doc"@.len()); }
    assert("id"@ != "status"@) by { assert("id"@.len() != "status"@.len()); }
    assert("session"@ != "name"@) by { assert("session"@.len() != "name"@.len()); }
    assert("session"@ != "ns"@) by { assert("session"@.len() != "ns"@.len()); }
    assert("session"@ != "file"@) by { assert("session"@.len() != "file"@.len()); }
    assert("session"@ != "doc"@) by { assert("session"@.len() != "doc"@.len()); }
    assert("session"@ != "status"@) by { assert("session"@.len() != "status"@.len()); }
    assert("name"@ != "ns"@) by { assert("name"@.len() != "ns"@.len()); }
    assert("name"@ != "file"@) by { assert("name"@[0] != "file"@[0]); }
    assert("name"@ != "doc"@) by { assert("name"@.len() != "doc"@.len()); }
    assert("name"@ != "status"@) by { assert("name"@.len() != "status"@.len()); }
    assert("ns"@ != "file"@) by { assert("ns"@.len() != "file"@.len()); }
    assert("ns"@ != "doc"@) by { assert("ns"@.len() != "doc"@.len()); }
    assert("ns"@ != "status"@) by { assert("ns"@.len() != "status"@.len()); }
    assert("file"@ != "doc"@) by { assert("file"@.len() != "doc"@.len()); }
    assert("file"@ != "status"@) by { assert("file"@.len() != "status"@.len()); }
    assert("doc"@ != "status"@) by { assert("doc"@.len() != "status"@.len()); }
    let base = head(id, sid) + seq![("name"@, text(s.name)), ("status"@, done())];
    let p1 = with_opt(base, "ns"@, s.ns);
    let p2 = with_opt(p1, "file"@, s.file);
    let p3 = with_opt(p2, "doc"@, s.doc);
    let empty = Seq::<(Seq<char>, Bencode)>::empty();
    assert(base =~= seq![("id"@, text(id)), ("session"@, text(sid)), ("name"@, text(s.name)), ("status"@, done())]);
    assert(base.drop_last() =~= seq![("id"@, text(id)), ("session"@, text(sid)), ("name"@, text(s.name))]);
    assert(base.drop_last().drop_last() =~= seq![("id"@, text(id)), ("session"@, text(sid))]);
    assert(base.drop_last().drop_last().drop_last() =~= seq![("id"@, text(id))]);
    assert(base.drop_last().drop_last().drop_last().drop_last() =~= empty);
    reveal_with_fuel(last_assoc, 5);
    let b2 = seq![("id"@, text(id)), ("session"@, text(sid))];
    assert(b2.last() == ("session"@, text(sid)));
    assert(b2.drop_last().last() == ("id"@, text(id)));
    assert(last_assoc(b2.drop_last(), "id"@) == Some(text(id)));
    assert(last_assoc(b2, "id"@) == Some(text(id)));
    assert(last_assoc(b2, "session"@) == Some(text(sid)));
    assert(last_assoc(base.drop_last(), "id"@) == Some(text(id)));
    assert(last_assoc(base.drop_last(), "session"@) == Some(text(sid)));
    assert(last_assoc(base, "id"@) == Some(text(id)));
    assert(last_assoc(base, "session"@) == Some(text(sid)));
    assert(last_assoc(base, "name"@) == Some(text(s.name)));
    assert(last_assoc(base, "status"@) == Some(done()));
    assert(last_assoc(base, "ns"@) == None::<Bencode>);
    assert(last_assoc(base, "file"@) == None::<Bencode>);
    assert(last_assoc(base, "doc"@) == None::<Bencode>);
    assert(dict_lookup(empty, "ns"@) == None::<Bencode>);
    assert(dict_lookup(empty, "file"@) == None::<Bencode>);
    assert(dict_lookup(empty, "doc"@) == None::<Bencode>);
    lemma_lookup_insert_all(empty, p3, "id"@);
    lemma_last_assoc_with_opt(p2, "doc"@, s.doc, "id"@);
    lemma_last_assoc_with_opt(p1, "file"@, s.file, "id"@);
    lemma_last_assoc_with_opt(base, "ns"@, s.ns, "id"@);
    lemma_lookup_insert_all(empty, p3, "session"@);
    lemma_last_assoc_with_opt(p2, "doc"@, s.doc, "session"@);
    lemma_last_assoc_with_opt(p1, "file"@, s.file, "session"@);
    lemma_last_assoc_with_opt(base, "ns"@, s.ns, "session"@);
    lemma_lookup_insert_all(empty, p3, "name"@);
    lemma_last_assoc_with_opt(p2, "doc"@, s.doc, "name"@);
    lemma_last_assoc_with_opt(p1, "file"@, s.file, "name"@);
    lemma_last_assoc_with_opt(base, "ns"@, s.ns, "name"@);
    lemma_lookup_insert_all(empty, p3, "ns"@);
    lemma_last_assoc_with_opt(p2, "doc"@, s.doc, "ns"@);
    lemma_last_assoc_with_opt(p1, "file"@, s.file, "ns"@);
    lemma_last_assoc_with_opt(base, "ns"@, s.ns, "ns"@);
    lemma_lookup_insert_all(empty, p3, "file"@);
    lemma_last_assoc_with_opt(p2, "doc"@, s.doc, "file"@);
    lemma_last_assoc_with_opt(p1, "file"@, s.file, "file"@);
    lemma_last_assoc_with_opt(base, "ns"@, s.ns, "file"@);
    lemma_lookup_insert_all(empty, p3, "doc"@);
    lemma_last_assoc_with_opt(p2, "doc"@, s.doc, "doc"@);
    lemma_last_assoc_with_opt(p1, "file"@, s.file, "doc"@);
    lemma_last_assoc_with_opt(base, "ns"@, s.ns, "doc"@);
    lemma_lookup_insert_all(empty, p3, "status"@);
    lemma_last_assoc_with_opt(p2, "doc"@, s.doc, "status"@);
    lemma_last_assoc_with_opt(p1, "file"@, s.file, "status"@);
    lemma_last_assoc_with_opt(base, "ns"@, s.ns, "status"@);
    assert(info_reply(id, sid, Some(s)) == Bencode::Dict(insert_all(empty, p3)));
}


/// Looking a key up in a reply: the last pair with that key.
proof fn lemma_reply_lookup(pairs: Seq<(Seq<char>, Bencode)>, k: Seq<char>)
    ensures
        reply(pairs) matches Bencode::Dict(es) && dict_lookup(es, k) == last_assoc(pairs, k),
{
    lemma_lookup_insert_all(Seq::empty(), pairs, k);
    assert(dict_lookup(Seq::<(Seq<char>, Bencode)>::empty(), k) == None::<Bencode>);
}

/// What `load-file` answers: the message's id and session, the value and
/// the error text (under `ex`) each where there is one, and the status
/// `eval-error` then `done` when there is an error, `done` alone otherwise.
pub proof fn lemma_load_file_reply_fields(
    id: Seq<char>,
    sid: Seq<char>,
    value: Option<Seq<char>>,
    error: Option<Seq<char>>,
)
    ensures
        load_file_reply(id, sid, value, error) matches Bencode::Dict(es) && {
            &&& dict_lookup(es, "id"@) == Some(text(id))
            &&& dict_lookup(es, "session"@) == Some(text(sid))
            &&& dict_lookup(es, "value"@) == text_value(value)
            &&& dict_lookup(es, "ex"@) == text_value(error)
            &&& dict_lookup(es, "status"@) == Some(
                if error is Some {
                    status(seq!["eval-error"@, "done"@])
                } else {
                    done()
                },
            )
        },
{
    reveal_strlit("id");
    reveal_strlit("session");
    reveal_strlit("value");
    reveal_strlit("ex");
    reveal_strlit("status");
    assert("id"@ != "session"@) by { assert("id"@.len() != "session"@.len()); }
    assert("id"@ != "value"@) by { assert("id"@.len() != "value"@.len()); }
    assert("id"@ != "ex"@) by { assert("id"@[0] != "ex"@[0]); }
    assert("id"@ != "status"@) by { assert("id"@.len() != "status"@.len()); }
    assert("session"@ != "value"@) by { assert("session"@.len() != "value"@.len()); }
    assert("session"@ != "ex"@) by { assert("session"@.len() != "ex"@.len()); }
    assert("session"@ != "status"@) by { assert("session"@.len() != "status"@.len()); }
    assert("value"@ != "ex"@) by { assert("value"@.len() != "ex"@.len()); }
    assert("value"@ != "status"@) by { assert("value"@.len() != "status"@.len()); }
    assert("ex"@ != "status"@) by { assert("ex"@.len() != "status"@.len()); }
    let st = if error is Some {
        status(seq!["eval-error"@, "done"@])
    } else {
        done()
    };
    let base = head(id, sid).push(("status"@, st));
    let p1 = with_opt(base, "value"@, value);
    let p2 = with_opt(p1, "ex"@, error);
    assert(base.drop_last() =~= seq![("id"@, text(id)), ("session"@, text(sid))]);
    assert(base.drop_last().drop_last() =~= seq![("id"@, text(id))]);
    assert(base.drop_last().drop_last().drop_last() =~= Seq::<(Seq<char>, Bencode)>::empty());
    reveal_with_fuel(last_assoc, 4);
    assert(last_assoc(base, "id"@) == Some(text(id)));
    assert(last_assoc(base, "session"@) == Some(text(sid)));
    assert(last_assoc(base, "value"@) == None::<Bencode>);
    assert(last_assoc(base, "ex"@) == None::<Bencode>);
    lemma_reply_lookup(p2, "id"@);
    lemma_last_assoc_with_opt(p1, "ex"@, error, "id"@);
    lemma_last_assoc_with_opt(base, "value"@, value, "id"@);
    lemma_reply_lookup(p2, "session"@);
    lemma_last_assoc_with_opt(p1, "ex"@, error, "session"@);
    lemma_last_assoc_with_opt(base, "value"@, value, "session"@);
    lemma_reply_lookup(p2, "value"@);
    lemma_last_assoc_with_opt(p1, "ex"@, error, "value"@);
    lemma_last_assoc_with_opt(base, "value"@, value, "value"@);
    lemma_reply_lookup(p2, "ex"@);
    lemma_last_assoc_with_opt(p1, "ex"@, error, "ex"@);
    lemma_last_assoc_with_opt(base, "value"@, value, "ex"@);
    lemma_reply_lookup(p2, "status"@);
    lemma_last_assoc_with_opt(p1, "ex"@, error, "status"@);
    lemma_last_assoc_with_opt(base, "value"@, value, "status"@);
}

/// Each completion candidate is a dictionary of its text, and its namespace
/// and type where the evaluator gave them.
pub proof fn lemma_candidate_fields(c: CompletionView)
    ensures
        candidate_reply(c) matches Bencode::Dict(es) && {
            &&& dict_lookup(es, "candidate"@) == Some(text(c.candidate))
            &&& dict_lookup(es, "ns"@) == text_value(c.ns)
            &&& dict_lookup(es, "type"@) == text_value(c.kind)
        },
{
    reveal_strlit("candidate");
    reveal_strlit("ns");
    reveal_strlit("type");
    assert("candidate"@ != "ns"@) by { assert("candidate"@.len() != "ns"@.len()); }
    assert("candidate"@ != "type"@) by { assert("candidate"@.len() != "type"@.len()); }
    assert("ns"@ != "type"@) by { assert("ns"@.len() != "type"@.len()); }
    let base = seq![("candidate"@, text(c.candidate))];
    let p1 = with_opt(base, "ns"@, c.ns);
    let p2 = with_opt(p1, "type"@, c.kind);
    assert(base.drop_last() =~= Seq::<(Seq<char>, Bencode)>::empty());
    reveal_with_fuel(last_assoc, 2);
    lemma_reply_lookup(p2, "candidate"@);
    lemma_last_assoc_with_opt(p1, "type"@, c.kind, "candidate"@);
    lemma_last_assoc_with_opt(base, "ns"@, c.ns, "candidate"@);
    lemma_reply_lookup(p2, "ns"@);
    lemma_last_assoc_with_opt(p1, "type"@, c.kind, "ns"@);
    lemma_last_assoc_with_opt(base, "ns"@, c.ns, "ns"@);
    lemma_reply_lookup(p2, "type"@);
    lemma_last_assoc_with_opt(p1, "type"@, c.kind, "type"@);
    lemma_last_assoc_with_opt(base, "ns"@, c.ns, "type"@);
}

/// What `eval` answers: one reply for the output where there is some, one
/// for the error output where there is some, then a last reply holding the
/// value and the exception each where there is one, and the status
/// `eval-error` then `done` after an exception, `done` alone otherwise.
pub proof fn lemma_eval_replies_fields(id: Seq<char>, sid: Seq<char>, e: EvalView)
    ensures
        eval_replies(id, sid, e).len() == 1 + (if e.out is Some { 1int } else { 0 }) + (if e.err is Some {
            1int
        } else {
            0
        }),
        eval_replies(id, sid, e).last() matches Bencode::Dict(es) && {
            &&& dict_lookup(es, "id"@) == Some(text(id))
            &&& dict_lookup(es, "session"@) == Some(text(sid))
            &&& dict_lookup(es, "value"@) == text_value(e.value)
            &&& dict_lookup(es, "ex"@) == text_value(e.ex)
            &&& dict_lookup(es, "status"@) == Some(
                if e.ex is Some {
                    status(seq!["eval-error"@, "done"@])
                } else {
                    done()
                },
            )
        },
        e.out matches Some(o) ==> eval_replies(id, sid, e)[0] matches Bencode::Dict(es) && dict_lookup(
            es,
            "out"@,
        ) == Some(text(o)),
        e.err matches Some(x) ==> eval_replies(id, sid, e)[if e.out is Some {
            1int
        } else {
            0
        }] matches Bencode::Dict(es) && dict_lookup(es, "err"@) == Some(text(x)),
{
    reveal_strlit("id");
    reveal_strlit("session");
    reveal_strlit("value");
    reveal_strlit("ex");
    reveal_strlit("status");
    reveal_strlit("out");
    reveal_strlit("err");
    assert("id"@ != "session"@) by { assert("id"@.len() != "session"@.len()); }
    assert("id"@ != "value"@) by { assert("id"@.len() != "value"@.len()); }
    assert("id"@ != "ex"@) by { assert("id"@[0] != "ex"@[0]); }
    assert("id"@ != "status"@) by { assert("id"@.len() != "status"@.len()); }
    assert("id"@ != "out"@) by { assert("id"@.len() != "out"@.len()); }
    assert("id"@ != "err"@) by { assert("id"@.len() != "err"@.len()); }
    assert("session"@ != "value"@) by { assert("session"@.len() != "value"@.len()); }
    assert("session"@ != "ex"@) by { assert("session"@.len() != "ex"@.len()); }
    assert("session"@ != "status"@) by { assert("session"@.len() != "status"@.len()); }
    assert("session"@ != "out"@) by { assert("session"@.len() != "out"@.len()); }
    assert("session"@ != "err"@) by { assert("session"@.len() != "err"@.len()); }
    assert("value"@ != "ex"@) by { assert("value"@.len() != "ex"@.len()); }
    assert("value"@ != "status"@) by { assert("value"@.len() != "status"@.len()); }
    assert("value"@ != "out"@) by { assert("value"@.len() != "out"@.len()); }
    assert("value"@ != "err"@) by { assert("value"@.len() != "err"@.len()); }
    assert("ex"@ != "status"@) by { assert("ex"@.len() != "status"@.len()); }
    assert("ex"@ != "out"@) by { assert("ex"@.len() != "out"@.len()); }
    assert("ex"@ != "err"@) by { assert("ex"@.len() != "err"@.len()); }
    assert("status"@ != "out"@) by { assert("status"@.len() != "out"@.len()); }
    assert("status"@ != "err"@) by { assert("status"@.len() != "err"@.len()); }
    assert("out"@ != "err"@) by { assert("out"@[0] != "err"@[0]); }
    let st = if e.ex is Some {
        status(seq!["eval-error"@, "done"@])
    } else {
        done()
    };
    let base = head(id, sid).push(("status"@, st));
    let p1 = with_opt(base, "value"@, e.value);
    let p2 = with_opt(p1, "ex"@, e.ex);
    assert(base.drop_last() =~= seq![("id"@, text(id)), ("session"@, text(sid))]);
    assert(base.drop_last().drop_last() =~= seq![("id"@, text(id))]);
    assert(base.drop_last().drop_last().drop_last() =~= Seq::<(Seq<char>, Bencode)>::empty());
    reveal_with_fuel(last_assoc, 4);
    assert(last_assoc(base, "id"@) == Some(text(id)));
    assert(last_assoc(base, "session"@) == Some(text(sid)));
    assert(last_assoc(base, "value"@) == None::<Bencode>);
    assert(last_assoc(base, "ex"@) == None::<Bencode>);
    lemma_reply_lookup(p2, "id"@);
    lemma_last_assoc_with_opt(p1, "ex"@, e.ex, "id"@);
    lemma_last_assoc_with_opt(base, "value"@, e.value, "id"@);
    lemma_reply_lookup(p2, "session"@);
    lemma_last_assoc_with_opt(p1, "ex"@, e.ex, "session"@);
    lemma_last_assoc_with_opt(base, "value"@, e.value, "session"@);
    lemma_reply_lookup(p2, "value"@);
    lemma_last_assoc_with_opt(p1, "ex"@, e.ex, "value"@);
    lemma_last_assoc_with_opt(base, "value"@, e.value, "value"@);
    lemma_reply_lookup(p2, "ex"@);
    lemma_last_assoc_with_opt(p1, "ex"@, e.ex, "ex"@);
    lemma_last_assoc_with_opt(base, "value"@, e.value, "ex"@);
    lemma_reply_lookup(p2, "status"@);
    lemma_last_assoc_with_opt(p1, "ex"@, e.ex, "status"@);
    lemma_last_assoc_with_opt(base, "value"@, e.value, "status"@);
    let rs = eval_replies(id, sid, e);
    assert(rs.last() == reply(p2));
    match e.out {
        Some(o) => {
            let q = head(id, sid).push(("out"@, text(o)));
            lemma_reply_lookup(q, "out"@);
            assert(rs[0] == reply(q));
        },
        None => {},
    }
    match e.err {
        Some(x) => {
            let q = head(id, sid).push(("err"@, text(x)));
            lemma_reply_lookup(q, "err"@);
            assert(rs[if e.out is Some { 1int } else { 0 }] == reply(q));
        },
        None => {},
    }
}

} // verus!
