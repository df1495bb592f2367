use crate::keyed::{lemma_to_map, lemma_to_map_push, lemma_to_map_remove, lemma_to_map_update, to_map, unique_keys};
use crate::ocapn::session::SessionManager;
use crate::ocapn::syrup::{
    clone_value, encodable, encode, encode_spec, is_encodable, lemma_models_push, lemma_models_take, models,
    DecodeError, Syrup, SyrupValue,
};
use crate::ocapn::types::{message_decode_spec, message_syrup, swiss_from_syrup_spec, OCapN, OCapNMessage, SwissNum};
use crate::text::{string_from, text_eq};
use vstd::prelude::*;

verus! {

/// A way for the network to ask the user interface to draw again, without
/// depending on any user interface.
pub trait RepaintSignal: Send + Sync {
    fn request_repaint(&self);
}

/// The signal of a program without a user interface: asks for nothing.
#[derive(Clone)]
pub struct NoRepaint;

impl RepaintSignal for NoRepaint {
    fn request_repaint(&self) {
    }
}

/// The bytes of an OCapN request between peers.
#[derive(Debug, Clone)]
pub struct OCapNReq(pub Vec<u8>);

/// The bytes of the answer to an OCapN request; empty where there is none.
#[derive(Debug, Clone)]
pub struct OCapNResp(pub Vec<u8>);

// ---------------------------------------------------------------------
// Sequence numbers of received values
// ---------------------------------------------------------------------

/// The latest sequence number seen from each (peer, channel); a message
/// whose number is not above it is stale and dropped.
pub struct SeqTracker {
    entries: Vec<(String, String, u64)>,
}

/// The (peer, channel) keys and numbers of the entries.
pub open spec fn seq_pairs(e: Seq<(String, String, u64)>) -> Seq<((Seq<char>, Seq<char>), u64)> {
    Seq::new(e.len(), |i: int| ((e[i].0@, e[i].1@), e[i].2))
}

/// The latest number recorded for `key`, zero where none is.
pub open spec fn latest_of(m: Map<(Seq<char>, Seq<char>), u64>, key: (Seq<char>, Seq<char>)) -> u64 {
    if m.contains_key(key) {
        m[key]
    } else {
        0
    }
}

/// What receiving number `seq` under `key` does to the record: a number
/// above the latest replaces it, any other leaves the record as it is.
pub open spec fn after_receive(
    m: Map<(Seq<char>, Seq<char>), u64>,
    key: (Seq<char>, Seq<char>),
    seq: u64,
) -> Map<(Seq<char>, Seq<char>), u64> {
    if seq > latest_of(m, key) {
        m.insert(key, seq)
    } else {
        m
    }
}

impl View for SeqTracker {
    type V = Map<(Seq<char>, Seq<char>), u64>;

    closed spec fn view(&self) -> Map<(Seq<char>, Seq<char>), u64> {
        to_map(seq_pairs(self.entries@))
    }
}

impl SeqTracker {
    /// No (peer, channel) is recorded twice.
    pub closed spec fn wf(&self) -> bool {
        unique_keys(seq_pairs(self.entries@))
    }

    /// A record of nothing seen yet.
    pub fn new() -> (r: SeqTracker)
        ensures
            r.wf(),
            r@ == Map::<(Seq<char>, Seq<char>), u64>::empty(),
    {
        let r = SeqTracker { entries: Vec::new() };
        assert(seq_pairs(r.entries@) =~= Seq::<((Seq<char>, Seq<char>), u64)>::empty());
        r
    }

    /// Whether a message numbered `seq` from `peer` on `channel` is new,
    /// recording its number where it is.
    pub fn accept(&mut self, peer: &str, channel: &str, seq: u64) -> (r: bool)
        requires
            old(self).wf(),
        ensures
            final(self).wf(),
            r == (seq > latest_of(old(self)@, (peer@, channel@))),
            final(self)@ == after_receive(old(self)@, (peer@, channel@), seq),
    {
        let ghost key = (peer@, channel@);
        let ghost p = seq_pairs(self.entries@);
        proof {
            lemma_to_map(p);
        }
        let mut i: usize = 0;
        while i < self.entries.len()
            invariant
                i <= self.entries@.len(),
                self.entries@ == old(self).entries@,
                p == seq_pairs(self.entries@),
                key == (peer@, channel@),
                unique_keys(p),
                forall|j: int| 0 <= j < i ==> #[trigger] p[j].0 != key,
            decreases self.entries@.len() - i,
        {
            assert(p[i as int] == ((self.entries@[i as int].0@, self.entries@[i as int].1@), self.entries@[i as int].2));
            if text_eq(self.entries[i].0.as_str(), peer) && text_eq(self.entries[i].1.as_str(), channel) {
                let prev = self.entries[i].2;
                proof {
                    lemma_to_map(p);
                    assert(p[i as int].0 == key);
                    assert(to_map(p)[p[i as int].0] == p[i as int].1);
                }
                if seq > prev {
                    let e = (string_from(peer), string_from(channel), seq);
                    self.entries.set(i, e);
                    proof {
                        lemma_to_map_update(p, i as int, seq);
                        assert(seq_pairs(self.entries@) =~= p.update(i as int, (p[i as int].0, seq)));
                    }
                    return true;
                }
                return false;
            }
            i = i + 1;
        }
        proof {
            lemma_to_map(p);
            assert(!to_map(p).contains_key(key));
        }
        if seq > 0 {
            self.entries.push((string_from(peer), string_from(channel), seq));
            proof {
                lemma_to_map_push(p, key, seq);
                assert(seq_pairs(self.entries@) =~= p.push((key, seq)));
            }
            true
        } else {
            false
        }
    }
}

/// A message that was taken is not taken again: the same number from the
/// same peer and channel is stale once it has been received.
pub proof fn lemma_replay_dropped(m: Map<(Seq<char>, Seq<char>), u64>, key: (Seq<char>, Seq<char>), seq: u64)
    requires
        seq > latest_of(m, key),
    ensures
        !(seq > latest_of(after_receive(m, key, seq), key)),
{
}

/// The latest number of every (peer, channel) never goes down.
pub proof fn lemma_latest_monotone(
    m: Map<(Seq<char>, Seq<char>), u64>,
    key: (Seq<char>, Seq<char>),
    seq: u64,
    other: (Seq<char>, Seq<char>),
)
    ensures
        latest_of(after_receive(m, key, seq), other) >= latest_of(m, other),
{
}

// ---------------------------------------------------------------------
// OCapN requests between peers
// ---------------------------------------------------------------------

/// The Swiss number and request id of a `deliver-to` request: an
/// `op:deliver` whose first argument is the symbol `deliver-to` and whose
/// second is a Swiss number.
pub open spec fn deliver_to_target(m: OCapN) -> Option<(SwissNum, u64)> {
    match m {
        OCapN::Deliver(_, args, id) => if args.len() >= 2 && args[0] == Syrup::Symbol("deliver-to"@) {
            match swiss_from_syrup_spec(args[1]) {
                Some(sw) => Some((sw, id)),
                None => None,
            }
        } else {
            None
        },
        _ => None,
    }
}

/// The arguments a `deliver-to` request hands to the object it names: all
/// after the method and the Swiss number.
pub open spec fn delivered_args(m: OCapN) -> Seq<Syrup> {
    match m {
        OCapN::Deliver(_, args, _) => args.skip(2),
        _ => Seq::empty(),
    }
}

/// The answer to a `deliver-to` request numbered `id` whose delivery had
/// `outcome`: the encoded `op:deliver-result` with the value, `false` for
/// none; nothing for a failed delivery, or for a result that holds the one
/// integer (`i64::MIN`) that the encoding cannot write.
pub open spec fn reply_bytes(id: u64, outcome: Result<Option<Syrup>, Seq<char>>) -> Seq<u8> {
    match outcome {
        Ok(v) => {
            let value = match v {
                Some(x) => x,
                None => Syrup::Bool(false),
            };
            let m = message_syrup(OCapN::DeliverResult(id, value));
            if encodable(m) {
                encode_spec(m)
            } else {
                Seq::empty()
            }
        },
        Err(_) => Seq::empty(),
    }
}

/// The Swiss number and request id of a `deliver-to` request.
pub fn deliver_target(msg: &OCapNMessage) -> (r: Option<(SwissNum, u64)>)
    ensures
        r == deliver_to_target(msg@),
{
    match msg {
        OCapNMessage::OpDeliver { to_desc: _, args, request_id } => {
            proof {
                lemma_models_take(args@, 0);
            }
            if args.len() >= 2 {
                match &args[0] {
                    SyrupValue::Symbol(method) => {
                        proof {
                            reveal_strlit("deliver-to");
                        }
                        if text_eq(method.as_str(), "deliver-to") {
                            match SwissNum::from_syrup(&args[1]) {
                                Some(swiss) => Some((swiss, *request_id)),
                                None => None,
                            }
                        } else {
                            None
                        }
                    },
                    _ => None,
                }
            } else {
                None
            }
        },
        _ => None,
    }
}

/// The bytes that answer a delivery numbered `request_id` with `outcome`.
pub fn deliver_reply(request_id: u64, outcome: Result<Option<SyrupValue>, String>) -> (r: Vec<u8>)
    ensures
        r@ == reply_bytes(request_id, crate::ocapn::session::outcome(outcome)),
{
    match outcome {
        Ok(v) => {
            let value = match v {
                Some(x) => x,
                None => SyrupValue::Bool(false),
            };
            let m = OCapNMessage::OpDeliverResult { request_id, value };
            let sv = m.to_syrup();
            if is_encodable(&sv) {
                encode(&sv)
            } else {
                Vec::new()
            }
        },
        Err(_) => Vec::new(),
    }
}

/// The values of `args` after the first `k`.
fn tail_values(args: &Vec<SyrupValue>, k: usize) -> (r: Vec<SyrupValue>)
    requires
        k <= args@.len(),
    ensures
        models(r@) == models(args@).skip(k as int),
{
    let mut out: Vec<SyrupValue> = Vec::new();
    let mut i: usize = k;
    proof {
        lemma_models_take(args@, 0);
    }
    while i < args.len()
        invariant
            k <= i <= args@.len(),
            models(args@).len() == args@.len(),
            forall|j: int| 0 <= j < args@.len() ==> #[trigger] models(args@)[j] == args@[j].model(),
            models(out@) == models(args@).subrange(k as int, i as int),
        decreases args@.len() - i,
    {
        let ghost before = out@;
        let v = clone_value(&args[i]);
        out.push(v);
        proof {
            lemma_models_push(before, v);
        }
        i = i + 1;
        assert(models(out@) =~= models(args@).subrange(k as int, i as int));
    }
    assert(models(args@).subrange(k as int, args@.len() as int) =~= models(args@).skip(k as int));
    out
}

/// The answer to an OCapN request from a peer, and the operation it carried
/// where it carried one. Only a `deliver-to` request to an export of the
/// local session is answered, with what the object its Swiss number names
/// answers for the arguments after the Swiss number; every other request
/// gets an empty answer.
pub fn answer_request(mgr: &SessionManager, request: &[u8]) -> (r: (Vec<u8>, Option<OCapNMessage>))
    requires
        mgr.wf(),
    ensures
        match message_decode_spec(request@) {
            Err(_) => r.1 is None && r.0@.len() == 0,
            Ok(m) => r.1 matches Some(x) && x@ == m && match deliver_to_target(m) {
                None => r.0@.len() == 0,
                Some((swiss, id)) => {
                    &&& mgr.local().position_of(swiss) is None ==> r.0@.len() == 0
                    &&& mgr.local().position_of(swiss) matches Some(p) ==> exists|
                        o: Result<Option<Syrup>, Seq<char>>,
                    |
                        mgr.local().export_answers(p, delivered_args(m), o) && #[trigger] reply_bytes(id, o) == r.0@
                },
            },
        },
{
    match OCapNMessage::decode(request) {
        Err(_) => (Vec::new(), None),
        Ok(msg) => {
            let reply = match deliver_target(&msg) {
                None => Vec::new(),
                Some((swiss, request_id)) => {
                    let rest = match &msg {
                        OCapNMessage::OpDeliver { args, .. } => {
                            proof {
                                lemma_models_take(args@, 0);
                            }
                            tail_values(args, 2)
                        },
                        _ => Vec::new(),
                    };
                    assert(models(rest@) == delivered_args(msg@));
                    let result = mgr.deliver_by_swiss(&swiss, rest.as_slice());
                    let ghost o = crate::ocapn::session::outcome(result);
                    let bytes = deliver_reply(request_id, result);
                    assert(bytes@ == reply_bytes(request_id, o));
                    bytes
                },
            };
            (reply, Some(msg))
        },
    }
}

/// The request id and value of a peer's answer that is an
/// `op:deliver-result`; nothing for an empty answer or any other one.
pub fn call_result_of(response: &[u8]) -> (r: Option<(u64, SyrupValue)>)
    ensures
        match r {
            Some((id, v)) => response@.len() > 0 && message_decode_spec(response@) == Ok::<OCapN, DecodeError>(
                OCapN::DeliverResult(id, v@),
            ),
            None => response@.len() == 0 || !(message_decode_spec(response@) matches Ok(OCapN::DeliverResult(_, _))),
        },
{
    if response.len() == 0 {
        return None;
    }
    match OCapNMessage::decode(response) {
        Ok(OCapNMessage::OpDeliverResult { request_id, value }) => Some((request_id, value)),
        _ => None,
    }
}

// ---------------------------------------------------------------------
// Relays and rendezvous
// ---------------------------------------------------------------------

/// Texts keyed by peer id, a key at most once.
pub struct PeerTable {
    entries: Vec<(String, String)>,
}

/// The texts of the entries.
pub open spec fn text_pairs(e: Seq<(String, String)>) -> Seq<(Seq<char>, Seq<char>)> {
    Seq::new(e.len(), |i: int| (e[i].0@, e[i].1@))
}

impl View for PeerTable {
    type V = Map<Seq<char>, Seq<char>>;

    closed spec fn view(&self) -> Map<Seq<char>, Seq<char>> {
        to_map(text_pairs(self.entries@))
    }
}

impl PeerTable {
    pub closed spec fn wf(&self) -> bool {
        unique_keys(text_pairs(self.entries@))
    }

    /// An empty table.
    pub fn new() -> (r: PeerTable)
        ensures
            r.wf(),
            r@ == Map::<Seq<char>, Seq<char>>::empty(),
    {
        let r = PeerTable { entries: Vec::new() };
        assert(text_pairs(r.entries@) =~= Seq::<(Seq<char>, Seq<char>)>::empty());
        r
    }

    /// The place of `key`, if it has one.
    fn find(&self, key: &str) -> (r: Option<usize>)
        requires
            self.wf(),
        ensures
            match r {
                Some(i) => i < self.entries@.len() && text_pairs(self.entries@)[i as int].0 == key@
                    && self@.contains_key(key@) && self@[key@] == self.entries@[i as int].1@,
                None => !self@.contains_key(key@),
            },
    {
        let ghost p = text_pairs(self.entries@);
        proof {
            lemma_to_map(p);
        }
        let mut i: usize = 0;
        while i < self.entries.len()
            invariant
                i <= self.entries@.len(),
                p == text_pairs(self.entries@),
                unique_keys(p),
                forall|j: int| 0 <= j < i ==> #[trigger] p[j].0 != key@,
            decreases self.entries@.len() - i,
        {
            assert(p[i as int] == (self.entries@[i as int].0@, self.entries@[i as int].1@));
            if text_eq(self.entries[i].0.as_str(), key) {
                proof {
                    lemma_to_map(p);
                    assert(to_map(p)[p[i as int].0] == p[i as int].1);
                }
                return Some(i);
            }
            i = i + 1;
        }
        proof {
            lemma_to_map(p);
        }
        None
    }

    /// Whether `key` has a text.
    pub fn contains(&self, key: &str) -> (r: bool)
        requires
            self.wf(),
        ensures
            r == self@.contains_key(key@),
    {
        self.find(key).is_some()
    }

    /// The text of `key`.
    pub fn get(&self, key: &str) -> (r: Option<String>)
        requires
            self.wf(),
        ensures
            match r {
                Some(v) => self@.contains_key(key@) && self@[key@] == v@,
                None => !self@.contains_key(key@),
            },
    {
        match self.find(key) {
            Some(i) => Some(self.entries[i].1.clone()),
            None => None,
        }
    }

    /// Gives `key` the text `value`, in place of any it had.
    pub fn insert(&mut self, key: String, value: String)
        requires
            old(self).wf(),
        ensures
            final(self).wf(),
            final(self)@ == old(self)@.insert(key@, value@),
    {
        let ghost p = text_pairs(self.entries@);
        match self.find(key.as_str()) {
            Some(i) => {
                let ghost v = value@;
                self.entries.set(i, (key, value));
                proof {
                    lemma_to_map_update(p, i as int, v);
                    assert(text_pairs(self.entries@) =~= p.update(i as int, (p[i as int].0, v)));
                }
            },
            None => {
                proof {
                    lemma_to_map(p);
                    assert forall|j: int| 0 <= j < p.len() implies #[trigger] p[j].0 != key@ by {
                        if p[j].0 == key@ {
                            assert(to_map(p).contains_key(key@));
                        }
                    }
                    lemma_to_map_push(p, key@, value@);
                }
                let ghost kv = (key@, value@);
                self.entries.push((key, value));
                assert(text_pairs(self.entries@) =~= p.push(kv));
            },
        }
    }

    /// Takes the text of `key` out of the table.
    pub fn remove(&mut self, key: &str) -> (r: Option<String>)
        requires
            old(self).wf(),
        ensures
            final(self).wf(),
            final(self)@ == old(self)@.remove(key@),
            match r {
                Some(v) => old(self)@.contains_key(key@) && old(self)@[key@] == v@,
                None => !old(self)@.contains_key(key@),
            },
    {
        let ghost p = text_pairs(self.entries@);
        match self.find(key) {
            Some(i) => {
                let e = self.entries.remove(i);
                proof {
                    lemma_to_map_remove(p, i as int);
                    assert(text_pairs(self.entries@) =~= p.remove(i as int));
                }
                Some(e.1)
            },
            None => {
                assert(old(self)@.remove(key@) =~= old(self)@);
                None
            },
        }
    }
}

/// What to do to reach a relay.
pub enum RelayStep {
    /// Already connected: listen through the relay's circuit at `addr`,
    /// then register with and discover through `relay`.
    ListenVia { relay: String, addr: String },
    /// Dial the relay at `addr`; once the dial is under way, report it with
    /// [`RelayBook::dialing`].
    DialRelay { relay: String, addr: String },
    /// Dial `addr`, which names no relay peer.
    Dial { addr: String },
}

/// Relays known for rendezvous, and relays dialed whose circuit is not yet
/// listened on, each by peer id with its address.
pub struct RelayBook {
    pub rendezvous: PeerTable,
    pub pending: PeerTable,
}

impl RelayBook {
    pub open spec fn wf(&self) -> bool {
        self.rendezvous.wf() && self.pending.wf()
    }

    /// No relays yet.
    pub fn new() -> (r: RelayBook)
        ensures
            r.wf(),
            r.rendezvous@ == Map::<Seq<char>, Seq<char>>::empty(),
            r.pending@ == Map::<Seq<char>, Seq<char>>::empty(),
    {
        RelayBook { rendezvous: PeerTable::new(), pending: PeerTable::new() }
    }

    /// A request to connect to the relay at `addr`, whose address names the
    /// peer `relay` (if it names one), while a connection to it is or is
    /// not open. A named relay is kept for rendezvous.
    pub fn connect_relay(&mut self, relay: Option<String>, addr: String, connected: bool) -> (r: RelayStep)
        requires
            old(self).wf(),
        ensures
            final(self).wf(),
            final(self).pending@ == old(self).pending@,
            match relay {
                None => {
                    &&& final(self).rendezvous@ == old(self).rendezvous@
                    &&& r matches RelayStep::Dial { addr: a } && a@ == addr@
                },
                Some(p) => {
                    &&& final(self).rendezvous@ == old(self).rendezvous@.insert(p@, addr@)
                    &&& if connected {
                        r matches RelayStep::ListenVia { relay: q, addr: a } && q@ == p@ && a@ == addr@
                    } else {
                        r matches RelayStep::DialRelay { relay: q, addr: a } && q@ == p@ && a@ == addr@
                    }
                },
            },
    {
        match relay {
            None => RelayStep::Dial { addr },
            Some(p) => {
                self.rendezvous.insert(p.clone(), addr.clone());
                if connected {
                    RelayStep::ListenVia { relay: p, addr }
                } else {
                    RelayStep::DialRelay { relay: p, addr }
                }
            },
        }
    }

    /// The dial of `relay` at `addr` is under way: its circuit waits for the
    /// connection.
    pub fn dialing(&mut self, relay: String, addr: String)
        requires
            old(self).wf(),
        ensures
            final(self).wf(),
            final(self).rendezvous@ == old(self).rendezvous@,
            final(self).pending@ == old(self).pending@.insert(relay@, addr@),
    {
        self.pending.insert(relay, addr);
    }

    /// A connection to `peer` opened: the relay address to listen through,
    /// if `peer` is a relay that was waiting for it, and whether to discover
    /// peers through it.
    pub fn connected(&mut self, peer: &str) -> (r: (Option<String>, bool))
        requires
            old(self).wf(),
        ensures
            final(self).wf(),
            final(self).rendezvous@ == old(self).rendezvous@,
            final(self).pending@ == old(self).pending@.remove(peer@),
            match r.0 {
                Some(a) => old(self).pending@.contains_key(peer@) && old(self).pending@[peer@] == a@,
                None => !old(self).pending@.contains_key(peer@),
            },
            r.1 == old(self).rendezvous@.contains_key(peer@),
    {
        let circuit = self.pending.remove(peer);
        let discover = self.rendezvous.contains(peer);
        (circuit, discover)
    }

    /// Whether to register with `peer` once it is identified: whether it is
    /// a rendezvous relay.
    pub fn register_with(&self, peer: &str) -> (r: bool)
        requires
            self.wf(),
        ensures
            r == self.rendezvous@.contains_key(peer@),
    {
        self.rendezvous.contains(peer)
    }

    /// The relay address to reach `peer` through, where the rendezvous
    /// relay `node` discovered it; none for the local peer itself or for an
    /// unknown relay.
    pub fn discovered(&self, node: &str, peer: &str, local: &str) -> (r: Option<String>)
        requires
            self.wf(),
        ensures
            match r {
                Some(a) => peer@ != local@ && self.rendezvous@.contains_key(node@) && self.rendezvous@[node@] == a@,
                None => peer@ == local@ || !self.rendezvous@.contains_key(node@),
            },
    {
        if text_eq(peer, local) {
            None
        } else {
            self.rendezvous.get(node)
        }
    }
}

/// A relay dialed and then connected is listened on through the address it
/// was dialed at, once: the connection takes it off the waiting list.
pub proof fn lemma_dialed_relay_listened_once(pending: Map<Seq<char>, Seq<char>>, relay: Seq<char>, addr: Seq<char>)
    ensures
        pending.insert(relay, addr).contains_key(relay),
        pending.insert(relay, addr)[relay] == addr,
        !pending.insert(relay, addr).remove(relay).contains_key(relay),
{
}

} // verus!
