use super::shown::{debug_string, debug_text};
use super::syrup::{clone_slice, models, Syrup, SyrupValue};
use super::types::{
    descriptor_syrup, hex_text, lemma_swiss_view_injective, swiss_from_syrup_spec, Descriptor, SwissNum,
};
use crate::text::{decimal_text, push_decimal_text, push_str, string_from, text_eq};
use vstd::prelude::*;

verus! {

/// An object that can receive OCapN messages. Implementations decide what a
/// delivery does, and say so through `answers`.
pub trait OCapNObject: Send + Sync {
    /// Whether `result` is an answer this object may give to a delivery of
    /// `args`: any answer, unless an implementation says more.
    open spec fn answers(&self, args: Seq<Syrup>, result: Result<Option<Syrup>, Seq<char>>) -> bool {
        true
    }

    /// Receive a delivery of `args`.
    fn deliver(&self, args: &[SyrupValue]) -> (r: Result<Option<SyrupValue>, String>)
        ensures
            self.answers(models(args@), outcome(r)),
    ;
}

/// One side's export and import tables for a peer.
pub struct Session {
    swiss_nums: Vec<SwissNum>,
    objects: Vec<Box<dyn OCapNObject>>,
    export_by_key: Vec<(String, SwissNum)>,
    imports: Vec<Option<SyrupValue>>,
}

/// The position of the last occurrence of `x` in `s`.
pub open spec fn last_position<A>(s: Seq<A>, x: A) -> Option<int> {
    if exists|i: int| 0 <= i < s.len() && s[i] == x && forall|j: int| i < j < s.len() ==> s[j] != x {
        Some(choose|i: int| 0 <= i < s.len() && s[i] == x && forall|j: int| i < j < s.len() ==> s[j] != x)
    } else {
        None
    }
}

/// The value that `k` is paired with in an association list without repeated keys.
pub open spec fn assoc<K, V>(s: Seq<(K, V)>, k: K) -> Option<V> {
    if exists|i: int| 0 <= i < s.len() && s[i].0 == k {
        Some(s[choose|i: int| 0 <= i < s.len() && s[i].0 == k].1)
    } else {
        None
    }
}

/// No key occurs twice.
pub open spec fn keys_distinct<K, V>(s: Seq<(K, V)>) -> bool {
    forall|i: int, j: int| 0 <= i < s.len() && 0 <= j < s.len() && i != j ==> s[i].0 != s[j].0
}

proof fn lemma_last_position<A>(s: Seq<A>, x: A, i: int)
    requires
        0 <= i < s.len(),
        s[i] == x,
        forall|j: int| i < j < s.len() ==> s[j] != x,
    ensures
        last_position(s, x) == Some(i),
{
    let k = choose|k: int| 0 <= k < s.len() && s[k] == x && forall|j: int| k < j < s.len() ==> s[j] != x;
    if k < i {
        assert(s[i] != x);
    } else if k > i {
        assert(s[k] != x);
    }
}

proof fn lemma_assoc<K, V>(s: Seq<(K, V)>, k: K, i: int)
    requires
        keys_distinct(s),
        0 <= i < s.len(),
        s[i].0 == k,
    ensures
        assoc(s, k) == Some(s[i].1),
{
    let c = choose|c: int| 0 <= c < s.len() && s[c].0 == k;
    assert(c == i);
}

fn swiss_eq(a: &SwissNum, b: &SwissNum) -> (r: bool)
    ensures
        r == (*a == *b),
{
    let mut i: usize = 0;
    while i < 16
        invariant
            i <= 16,
            forall|j: int| 0 <= j < i ==> a.0@[j] == b.0@[j],
        decreases 16 - i,
    {
        if a.0[i] != b.0[i] {
            return false;
        }
        i = i + 1;
    }
    assert(a@ =~= b@);
    proof {
        lemma_swiss_view_injective(*a, *b);
    }
    true
}

/// The message of a delivery to a missing export.
pub open spec fn no_export_message(pos: u64) -> Seq<char> {
    "no export at position "@ + decimal_text(pos as nat)
}

/// The message of a delivery to an imported object.
pub open spec fn import_message(pos: u64) -> Seq<char> {
    "cannot deliver to import "@ + decimal_text(pos as nat) + ": not a local object"@
}

impl Session {
    /// The Swiss number of each export, by position.
    pub closed spec fn export_swiss(&self) -> Seq<SwissNum> {
        self.swiss_nums@
    }

    /// The exported objects, by position.
    pub closed spec fn exports(&self) -> Seq<Box<dyn OCapNObject>> {
        self.objects@
    }

    /// The stable keys given to exports, with their Swiss numbers.
    pub closed spec fn keyed(&self) -> Seq<(Seq<char>, SwissNum)> {
        Seq::new(
            self.export_by_key@.len(),
            |i: int| (self.export_by_key@[i].0@, self.export_by_key@[i].1),
        )
    }

    /// The import table.
    pub closed spec fn imports_model(&self) -> Seq<Option<Syrup>> {
        Seq::new(
            self.imports@.len(),
            |i: int|
                match self.imports@[i] {
                    Some(v) => Some(v@),
                    None => None,
                },
        )
    }

    /// The bootstrap export exists, keys are distinct, and each keyed Swiss
    /// number names an export.
    pub closed spec fn wf(&self) -> bool {
        &&& self.swiss_nums@.len() >= 1
        &&& self.objects@.len() == self.swiss_nums@.len()
        &&& keys_distinct(self.keyed())
        &&& forall|i: int|
            0 <= i < self.keyed().len() ==> self.export_swiss().contains(
                #[trigger] self.keyed()[i].1,
            )
    }

    /// The object exported at `pos` may answer a delivery of `args` with
    /// `result`.
    pub open spec fn export_answers(&self, pos: int, args: Seq<Syrup>, result: Result<Option<Syrup>, Seq<char>>) -> bool {
        self.exports()[pos].answers(args, result)
    }

    /// The position that a Swiss number denotes: its latest export.
    pub open spec fn position_of(&self, swiss: SwissNum) -> Option<int> {
        last_position(self.export_swiss(), swiss)
    }

    /// A session whose bootstrap object is exported at position 0.
    pub fn new(bootstrap: Box<dyn OCapNObject>) -> (s: Session)
        ensures
            s.wf(),
            s.export_swiss().len() == 1,
            s.keyed().len() == 0,
            s.imports_model().len() == 0,
            s.exports() == Seq::<Box<dyn OCapNObject>>::empty().push(bootstrap),
    {
        let swiss = SwissNum::random();
        let mut swiss_nums: Vec<SwissNum> = Vec::new();
        swiss_nums.push(swiss);
        let mut s = Session { swiss_nums, objects: Vec::new(), export_by_key: Vec::new(), imports: Vec::new() };
        s.objects.push(bootstrap);
        proof {
            // The sequence facts do not fire by themselves on trait-object
            // elements; the length ones that `wf` needs are called in.
            vstd::seq::axiom_seq_push_len(Seq::<Box<dyn OCapNObject>>::empty(), bootstrap);
        }
        assert(s.keyed() =~= Seq::<(Seq<char>, SwissNum)>::empty());
        assert(s.imports_model() =~= Seq::<Option<Syrup>>::empty());
        s
    }

    /// Export an object under a fresh Swiss number; gives its position and Swiss number.
    pub fn export_object(&mut self, object: Box<dyn OCapNObject>) -> (r: (u64, SwissNum))
        requires
            old(self).wf(),
            old(self).export_swiss().len() < u64::MAX,
        ensures
            final(self).wf(),
            final(self).export_swiss() == old(self).export_swiss().push(r.1),
            r.0 == old(self).export_swiss().len(),
            final(self).position_of(r.1) == Some(r.0 as int),
            final(self).keyed() == old(self).keyed(),
            final(self).imports_model() == old(self).imports_model(),
            final(self).exports() == old(self).exports().push(object),
    {
        let ghost before = self.objects@;
        let (pos, swiss) = self.add_swiss();
        self.objects.push(object);
        proof {
            vstd::seq::axiom_seq_push_len(before, object);
        }
        (pos, swiss)
    }

    /// Draw a fresh Swiss number for the next position; the caller puts the
    /// object there.
    fn add_swiss(&mut self) -> (r: (u64, SwissNum))
        requires
            old(self).wf(),
            old(self).export_swiss().len() < u64::MAX,
        ensures
            final(self).export_swiss() == old(self).export_swiss().push(r.1),
            r.0 == old(self).export_swiss().len(),
            final(self).position_of(r.1) == Some(r.0 as int),
            final(self).keyed() == old(self).keyed(),
            final(self).imports_model() == old(self).imports_model(),
            final(self).objects == old(self).objects,
            forall|i: int|
                0 <= i < final(self).keyed().len() ==> final(self).export_swiss().contains(
                    #[trigger] final(self).keyed()[i].1,
                ),
    {
        let pos = self.swiss_nums.len() as u64;
        let swiss = SwissNum::random();
        self.swiss_nums.push(swiss);
        proof {
            lemma_last_position(self.export_swiss(), swiss, pos as int);
            assert(self.export_swiss() =~= old(self).export_swiss().push(swiss));
            assert(self.keyed() =~= old(self).keyed());
            assert(self.imports_model() =~= old(self).imports_model());
            assert forall|i: int| 0 <= i < self.keyed().len() implies self.export_swiss().contains(
                #[trigger] self.keyed()[i].1,
            ) by {
                let k = choose|k: int| 0 <= k < old(self).export_swiss().len() && old(self).export_swiss()[k] == old(self).keyed()[i].1;
                assert(self.export_swiss()[k] == self.keyed()[i].1);
            }
        }
        (pos, swiss)
    }

    /// The Swiss number exported under a stable key, if any.
    pub fn keyed_swiss(&self, key: &str) -> (r: Option<SwissNum>)
        requires
            self.wf(),
        ensures
            r == assoc(self.keyed(), key@),
    {
        let mut i: usize = 0;
        while i < self.export_by_key.len()
            invariant
                i <= self.export_by_key@.len(),
                self.wf(),
                forall|j: int| 0 <= j < i ==> self.keyed()[j].0 != key@,
            decreases self.export_by_key@.len() - i,
        {
            if text_eq(self.export_by_key[i].0.as_str(), key) {
                proof {
                    lemma_assoc(self.keyed(), key@, i as int);
                }
                return Some(self.export_by_key[i].1);
            }
            i = i + 1;
        }
        None
    }

    /// The position of the latest export with this Swiss number.
    pub fn lookup_by_swiss(&self, swiss: &SwissNum) -> (r: Option<u64>)
        ensures
            match r {
                Some(p) => self.position_of(*swiss) == Some(p as int),
                None => self.position_of(*swiss) is None,
            },
    {
        let mut i: usize = self.swiss_nums.len();
        while i > 0
            invariant
                i <= self.swiss_nums@.len(),
                forall|j: int| i <= j < self.swiss_nums@.len() ==> self.export_swiss()[j] != *swiss,
            decreases i,
        {
            if swiss_eq(&self.swiss_nums[i - 1], swiss) {
                proof {
                    lemma_last_position(self.export_swiss(), *swiss, i - 1);
                }
                return Some((i - 1) as u64);
            }
            i = i - 1;
        }
        None
    }

    /// Export under a stable key: the same key keeps its Swiss number and
    /// position, and its object is replaced; a new key makes a new export.
    pub fn export_object_keyed(&mut self, key: String, object: Box<dyn OCapNObject>) -> (r: (
        u64,
        SwissNum,
    ))
        requires
            old(self).wf(),
            old(self).export_swiss().len() < u64::MAX,
        ensures
            final(self).wf(),
            final(self).imports_model() == old(self).imports_model(),
            final(self).exports() == if r.0 < old(self).exports().len() {
                old(self).exports().update(r.0 as int, object)
            } else {
                old(self).exports().push(object)
            },
            assoc(final(self).keyed(), key@) == Some(r.1),
            final(self).position_of(r.1) == Some(r.0 as int),
            match assoc(old(self).keyed(), key@) {
                Some(sw) => {
                    &&& r.1 == sw
                    &&& old(self).position_of(sw) == Some(r.0 as int)
                    &&& final(self).export_swiss() == old(self).export_swiss()
                    &&& final(self).keyed() == old(self).keyed()
                },
                None => {
                    &&& r.0 == old(self).export_swiss().len()
                    &&& final(self).export_swiss() == old(self).export_swiss().push(r.1)
                    &&& final(self).keyed() == old(self).keyed().push((key@, r.1))
                },
            },
    {
        match self.keyed_swiss(key.as_str()) {
            Some(swiss) => {
                let found = self.lookup_by_swiss(&swiss);
                let pos = match found {
                    Some(p) => p,
                    None => {
                        proof {
                            let i = choose|i: int| 0 <= i < self.keyed().len() && self.keyed()[i].0 == key@;
                            assert(self.export_swiss().contains(self.keyed()[i].1));
                            let k = choose|k: int| 0 <= k < self.export_swiss().len() && self.export_swiss()[k] == swiss;
                            lemma_exists_last(self.export_swiss(), swiss, k);
                        }
                        return (0, swiss);
                    },
                };
                let count = self.objects.len();
                assert(pos < count);
                let idx = pos as usize;
                let ghost before = self.objects@;
                self.objects.set(idx, object);
                proof {
                    vstd::seq::axiom_seq_update_len(before, idx as int, object);
                    assert(self.keyed() =~= old(self).keyed());
                    assert(self.imports_model() =~= old(self).imports_model());
                }
                (pos, swiss)
            },
            None => {
                let ghost before = self.objects@;
                let (pos, swiss) = self.add_swiss();
                self.objects.push(object);
                proof {
                    vstd::seq::axiom_seq_push_len(before, object);
                }
                let ghost mid = self.keyed();
                self.export_by_key.push((key, swiss));
                proof {
                    assert(self.keyed() =~= mid.push((key@, swiss)));
                    assert(self.export_swiss().contains(swiss)) by {
                        assert(self.export_swiss()[pos as int] == swiss);
                    }
                    assert forall|i: int, j: int|
                        0 <= i < self.keyed().len() && 0 <= j < self.keyed().len() && i != j
                        implies self.keyed()[i].0 != self.keyed()[j].0 by {
                        if i == mid.len() as int {
                            assert(self.keyed()[j] == mid[j]);
                        } else if j == mid.len() as int {
                            assert(self.keyed()[i] == mid[i]);
                        }
                    }
                    assert forall|i: int| 0 <= i < self.keyed().len() implies self.export_swiss().contains(
                        #[trigger] self.keyed()[i].1,
                    ) by {
                        if i < mid.len() {
                            assert(self.keyed()[i] == mid[i]);
                        }
                    }
                    lemma_assoc(self.keyed(), key@, mid.len() as int);
                }
                (pos, swiss)
            },
        }
    }

    /// Deliver to a descriptor: the object exported at that position receives
    /// the arguments and its answer is the result; an import or a missing
    /// export is an error.
    pub fn deliver(&self, desc: &Descriptor, args: &[SyrupValue]) -> (r: Result<
        Option<SyrupValue>,
        String,
    >)
        requires
            self.wf(),
        ensures
            match *desc {
                Descriptor::Export(pos) => if pos >= self.export_swiss().len() {
                    r matches Err(e) && e@ == no_export_message(pos)
                } else {
                    self.export_answers(pos as int, models(args@), outcome(r))
                },
                Descriptor::ImportObject(pos) => (r matches Err(e) && e@ == import_message(pos)),
            },
    {
        match desc {
            Descriptor::Export(pos) => {
                if *pos >= self.swiss_nums.len() as u64 {
                    let mut msg = string_from("no export at position ");
                    push_decimal_text(&mut msg, *pos);
                    return Err(msg);
                }
                self.objects[*pos as usize].deliver(args)
            },
            Descriptor::ImportObject(pos) => {
                let mut msg = string_from("cannot deliver to import ");
                push_decimal_text(&mut msg, *pos);
                push_str(&mut msg, ": not a local object");
                Err(msg)
            },
        }
    }

    /// Record an imported value; gives its position.
    pub fn add_import(&mut self, value: SyrupValue) -> (r: u64)
        requires
            old(self).wf(),
            old(self).imports_model().len() < u64::MAX,
        ensures
            final(self).wf(),
            r == old(self).imports_model().len(),
            final(self).imports_model() == old(self).imports_model().push(Some(value@)),
            final(self).export_swiss() == old(self).export_swiss(),
            final(self).keyed() == old(self).keyed(),
    {
        let pos = self.imports.len() as u64;
        let ghost v = value@;
        self.imports.push(Some(value));
        assert(self.imports_model() =~= old(self).imports_model().push(Some(v)));
        assert(self.export_swiss() =~= old(self).export_swiss());
        assert(self.keyed() =~= old(self).keyed());
        pos
    }

    /// The Swiss number of the bootstrap object (position 0).
    pub fn bootstrap_swiss(&self) -> (r: &SwissNum)
        requires
            self.wf(),
        ensures
            *r == self.export_swiss()[0],
    {
        &self.swiss_nums[0]
    }
}

proof fn lemma_exists_last<A>(s: Seq<A>, x: A, k: int)
    requires
        0 <= k < s.len(),
        s[k] == x,
    ensures
        last_position(s, x) is Some,
    decreases s.len() - k,
{
    if exists|j: int| k < j < s.len() && s[j] == x {
        let j = choose|j: int| k < j < s.len() && s[j] == x;
        lemma_exists_last(s, x, j);
    } else {
        lemma_last_position(s, x, k);
    }
}


/// The outcome of a delivery as plain values.
pub open spec fn outcome(r: Result<Option<SyrupValue>, String>) -> Result<Option<Syrup>, Seq<char>> {
    match r {
        Ok(Some(v)) => Ok(Some(v@)),
        Ok(None) => Ok(None),
        Err(e) => Err(e@),
    }
}

/// The table a sequence of (Swiss number, position) registrations leaves:
/// a later registration of the same Swiss number replaces an earlier one.
pub open spec fn registrations(s: Seq<(SwissNum, u64)>) -> Map<SwissNum, u64>
    decreases s.len(),
{
    if s.len() == 0 {
        Map::empty()
    } else {
        registrations(s.drop_last()).insert(s.last().0, s.last().1)
    }
}

proof fn lemma_registrations_last(s: Seq<(SwissNum, u64)>, k: SwissNum, i: int)
    requires
        0 <= i < s.len(),
        s[i].0 == k,
        forall|j: int| i < j < s.len() ==> s[j].0 != k,
    ensures
        registrations(s).contains_key(k),
        registrations(s)[k] == s[i].1,
    decreases s.len(),
{
    if i < s.len() - 1 {
        lemma_registrations_last(s.drop_last(), k, i);
    }
}

proof fn lemma_registrations_absent(s: Seq<(SwissNum, u64)>, k: SwissNum)
    requires
        forall|j: int| 0 <= j < s.len() ==> s[j].0 != k,
    ensures
        !registrations(s).contains_key(k),
    decreases s.len(),
{
    if s.len() > 0 {
        lemma_registrations_absent(s.drop_last(), k);
    }
}

proof fn lemma_registrations_update(s: Seq<(SwissNum, u64)>, i: int, v: u64)
    requires
        0 <= i < s.len(),
        forall|j: int| i < j < s.len() ==> s[j].0 != s[i].0,
    ensures
        registrations(s.update(i, (s[i].0, v))) == registrations(s).insert(s[i].0, v),
    decreases s.len(),
{
    let t = s.update(i, (s[i].0, v));
    if i == s.len() - 1 {
        assert(t.drop_last() =~= s.drop_last());
        assert(registrations(t) =~= registrations(s).insert(s[i].0, v));
    } else {
        assert(t.drop_last() =~= s.drop_last().update(i, (s[i].0, v)));
        lemma_registrations_update(s.drop_last(), i, v);
        assert(registrations(t) =~= registrations(s).insert(s[i].0, v));
    }
}

/// The bootstrap object of a session: answers `fetch` with the export a
/// registered Swiss number names.
pub struct BootstrapObject {
    swiss_to_pos: Vec<(SwissNum, u64)>,
}

/// The message for a delivery with fewer than two arguments.
pub open spec fn fetch_usage_message() -> Seq<char> {
    "bootstrap: expected (fetch swiss-num)"@
}

/// What the bootstrap object answers to a delivery.
pub open spec fn bootstrap_reply(table: Map<SwissNum, u64>, args: Seq<Syrup>) -> Result<
    Option<Syrup>,
    Seq<char>,
> {
    if args.len() < 2 {
        Err(fetch_usage_message())
    } else if args[0] == Syrup::Symbol("fetch"@) {
        match swiss_from_syrup_spec(args[1]) {
            None => Err("bootstrap: invalid swiss-num"@),
            Some(sw) => if table.contains_key(sw) {
                Ok(Some(descriptor_syrup(Descriptor::Export(table[sw]))))
            } else {
                Err("bootstrap: swiss-num not found"@)
            },
        }
    } else {
        Err("bootstrap: unknown method "@ + debug_text(args[0]))
    }
}

impl View for BootstrapObject {
    type V = Map<SwissNum, u64>;

    closed spec fn view(&self) -> Map<SwissNum, u64> {
        registrations(self.swiss_to_pos@)
    }
}

impl BootstrapObject {
    /// A bootstrap object with nothing registered.
    pub fn new() -> (r: BootstrapObject)
        ensures
            r@ == Map::<SwissNum, u64>::empty(),
    {
        BootstrapObject { swiss_to_pos: Vec::new() }
    }

    /// Make `fetch` of `swiss` answer with the export at `pos`.
    pub fn register(&mut self, swiss: SwissNum, pos: u64)
        ensures
            final(self)@ == old(self)@.insert(swiss, pos),
    {
        let mut i: usize = self.swiss_to_pos.len();
        while i > 0
            invariant
                i <= self.swiss_to_pos@.len(),
                self.swiss_to_pos@ == old(self).swiss_to_pos@,
                forall|j: int| i <= j < self.swiss_to_pos@.len() ==> self.swiss_to_pos@[j].0 != swiss,
            decreases i,
        {
            if swiss_eq(&self.swiss_to_pos[i - 1].0, &swiss) {
                let ghost before = self.swiss_to_pos@;
                self.swiss_to_pos.set(i - 1, (swiss, pos));
                proof {
                    lemma_registrations_update(before, i - 1, pos);
                    assert(self.swiss_to_pos@ =~= before.update(i - 1, (before[i - 1].0, pos)));
                }
                return;
            }
            i = i - 1;
        }
        self.swiss_to_pos.push((swiss, pos));
        proof {
            assert(self.swiss_to_pos@.drop_last() =~= old(self).swiss_to_pos@);
        }
    }

    /// The export position registered for a Swiss number.
    fn lookup(&self, swiss: &SwissNum) -> (r: Option<u64>)
        ensures
            r == (if self@.contains_key(*swiss) { Some(self@[*swiss]) } else { None::<u64> }),
    {
        let mut i: usize = self.swiss_to_pos.len();
        while i > 0
            invariant
                i <= self.swiss_to_pos@.len(),
                forall|j: int| i <= j < self.swiss_to_pos@.len() ==> self.swiss_to_pos@[j].0 != *swiss,
            decreases i,
        {
            if swiss_eq(&self.swiss_to_pos[i - 1].0, swiss) {
                proof {
                    lemma_registrations_last(self.swiss_to_pos@, *swiss, i - 1);
                }
                return Some(self.swiss_to_pos[i - 1].1);
            }
            i = i - 1;
        }
        proof {
            lemma_registrations_absent(self.swiss_to_pos@, *swiss);
        }
        None
    }
}

impl OCapNObject for BootstrapObject {
    open spec fn answers(&self, args: Seq<Syrup>, result: Result<Option<Syrup>, Seq<char>>) -> bool {
        result == bootstrap_reply(self@, args)
    }

    /// `(fetch swiss)` gives the descriptor of the registered export.
    fn deliver(&self, args: &[SyrupValue]) -> (r: Result<Option<SyrupValue>, String>)
        ensures
            outcome(r) == bootstrap_reply(self@, models(args@)),
    {
        proof {
            crate::ocapn::syrup::lemma_models_take(args@, 0);
        }
        if args.len() < 2 {
            return Err(string_from("bootstrap: expected (fetch swiss-num)"));
        }
        assert(models(args@)[0] == args@[0]@ && models(args@)[1] == args@[1]@);
        let is_fetch = match &args[0] {
            SyrupValue::Symbol(method) => text_eq(method.as_str(), "fetch"),
            _ => false,
        };
        if is_fetch {
            match SwissNum::from_syrup(&args[1]) {
                None => Err(string_from("bootstrap: invalid swiss-num")),
                Some(swiss) => match self.lookup(&swiss) {
                    Some(pos) => Ok(Some(Descriptor::Export(pos).to_syrup())),
                    None => Err(string_from("bootstrap: swiss-num not found")),
                },
            }
        } else {
            let mut msg = string_from("bootstrap: unknown method ");
            let shown = debug_string(&args[0]);
            push_str(&mut msg, shown.as_str());
            Err(msg)
        }
    }
}

/// The bootstrap of the local session: a direct delivery echoes its arguments
/// back as a list (dispatch by Swiss number goes through the session manager).
struct LocalBootstrap;

impl OCapNObject for LocalBootstrap {
    open spec fn answers(&self, args: Seq<Syrup>, result: Result<Option<Syrup>, Seq<char>>) -> bool {
        result == Ok::<Option<Syrup>, Seq<char>>(Some(Syrup::List(args)))
    }

    fn deliver(&self, args: &[SyrupValue]) -> (r: Result<Option<SyrupValue>, String>)
        ensures
            outcome(r) == Ok::<Option<Syrup>, Seq<char>>(Some(Syrup::List(models(args@)))),
    {
        Ok(Some(SyrupValue::List(clone_slice(args))))
    }
}


/// The message for a Swiss number with no local export.
pub open spec fn swiss_not_found_message(swiss: SwissNum) -> Seq<char> {
    "swiss-num "@ + hex_text(swiss@) + " not found in local exports"@
}

/// Sessions with remote peers, keyed by peer id, and the local session whose
/// exports remote peers reach by Swiss number.
pub struct SessionManager {
    peers: Vec<String>,
    sessions: Vec<Session>,
    local_session: Session,
    local_peer_id: Option<String>,
}

impl SessionManager {
    /// The peer ids that have a session, in the order they were added.
    pub closed spec fn peer_ids(&self) -> Seq<Seq<char>> {
        Seq::new(self.peers@.len(), |i: int| self.peers@[i]@)
    }

    /// The session of each peer.
    pub closed spec fn session_map(&self) -> Map<Seq<char>, Session> {
        Map::new(
            |k: Seq<char>| self.peer_ids().contains(k),
            |k: Seq<char>| self.sessions@[self.peer_ids().index_of(k)],
        )
    }

    /// The local session.
    pub closed spec fn local(&self) -> Session {
        self.local_session
    }

    /// The local peer id, once set.
    pub closed spec fn local_id(&self) -> Option<Seq<char>> {
        match self.local_peer_id {
            Some(p) => Some(p@),
            None => None,
        }
    }

    /// Each peer has one session, and every session is well formed.
    pub closed spec fn wf(&self) -> bool {
        &&& self.peers@.len() == self.sessions@.len()
        &&& self.peer_ids().no_duplicates()
        &&& self.local_session.wf()
        &&& forall|i: int| 0 <= i < self.sessions@.len() ==> (#[trigger] self.sessions@[i]).wf()
    }

    proof fn lemma_lookup(&self, i: int)
        requires
            self.wf(),
            0 <= i < self.peers@.len(),
        ensures
            self.session_map().contains_key(self.peers@[i]@),
            self.session_map()[self.peers@[i]@] == self.sessions@[i],
    {
        let k = self.peers@[i]@;
        assert(self.peer_ids()[i] == k);
        let c = self.peer_ids().index_of(k);
        assert(self.peer_ids().contains(k));
        assert(0 <= c < self.peer_ids().len() && self.peer_ids()[c] == k);
        assert(c == i);
    }

    fn find(&self, peer_id: &str) -> (r: Option<usize>)
        requires
            self.wf(),
        ensures
            match r {
                Some(i) => i < self.peers@.len() && self.peers@[i as int]@ == peer_id@,
                None => !self.session_map().contains_key(peer_id@),
            },
    {
        let mut i: usize = 0;
        while i < self.peers.len()
            invariant
                i <= self.peers@.len(),
                forall|j: int| 0 <= j < i ==> self.peer_ids()[j] != peer_id@,
            decreases self.peers@.len() - i,
        {
            if text_eq(self.peers[i].as_str(), peer_id) {
                return Some(i);
            }
            i = i + 1;
        }
        None
    }

    /// No sessions yet; a fresh local session; no local peer id.
    pub fn new() -> (r: SessionManager)
        ensures
            r.wf(),
            r.session_map() == Map::<Seq<char>, Session>::empty(),
            r.local_id() is None,
            r.local().export_swiss().len() == 1,
            r.local().keyed().len() == 0,
            r.local().imports_model().len() == 0,
    {
        let r = SessionManager {
            peers: Vec::new(),
            sessions: Vec::new(),
            local_session: Session::new(Box::new(LocalBootstrap)),
            local_peer_id: None,
        };
        assert(r.session_map() =~= Map::<Seq<char>, Session>::empty());
        r
    }

    /// Set the local peer id.
    pub fn set_local_peer_id(&mut self, peer_id: String)
        requires
            old(self).wf(),
        ensures
            final(self).wf(),
            final(self).local_id() == Some(peer_id@),
            final(self).session_map() == old(self).session_map(),
            final(self).local() == old(self).local(),
    {
        self.local_peer_id = Some(peer_id);
        assert(self.session_map() =~= old(self).session_map());
    }

    /// The local peer id, once set.
    pub fn local_peer_id(&self) -> (r: Option<&str>)
        ensures
            match r {
                Some(p) => self.local_id() == Some(p@),
                None => self.local_id() is None,
            },
    {
        match &self.local_peer_id {
            Some(p) => Some(p.as_str()),
            None => None,
        }
    }

    /// The local session.
    pub fn local_session(&self) -> (r: &Session)
        ensures
            *r == self.local(),
    {
        &self.local_session
    }

    /// The local session, to change it.
    pub fn local_session_mut(&mut self) -> (r: &mut Session)
        ensures
            *r == old(self).local(),
            final(self).local() == *final(r),
            final(self).session_map() == old(self).session_map(),
            final(self).local_id() == old(self).local_id(),
            old(self).wf() && final(r).wf() ==> final(self).wf(),
    {
        &mut self.local_session
    }

    /// Deliver to the local export that a Swiss number names: that object
    /// receives the arguments and its answer is the result; an unknown Swiss
    /// number is an error that shows it in hexadecimal.
    pub fn deliver_by_swiss(&self, swiss: &SwissNum, args: &[SyrupValue]) -> (r: Result<
        Option<SyrupValue>,
        String,
    >)
        requires
            self.wf(),
        ensures
            match self.local().position_of(*swiss) {
                None => r matches Err(e) && e@ == swiss_not_found_message(*swiss),
                Some(p) => self.local().export_answers(p, models(args@), outcome(r)),
            },
    {
        match self.local_session.lookup_by_swiss(swiss) {
            None => {
                let mut msg = string_from("swiss-num ");
                let hex = swiss.to_hex();
                push_str(&mut msg, hex.as_str());
                push_str(&mut msg, " not found in local exports");
                Err(msg)
            },
            Some(pos) => self.local_session.deliver(&Descriptor::Export(pos), args),
        }
    }

    proof fn lemma_dom_finite(&self)
        requires
            self.wf(),
        ensures
            self.session_map().dom() == self.peer_ids().to_set(),
            self.session_map().dom().finite(),
            self.session_map().dom().len() == self.peers@.len(),
    {
        self.peer_ids().unique_seq_to_set();
        assert(self.session_map().dom() =~= self.peer_ids().to_set());
    }

    /// The number of peers with a session.
    pub fn session_count(&self) -> (r: usize)
        requires
            self.wf(),
        ensures
            r == self.session_map().dom().len(),
    {
        proof {
            self.lemma_dom_finite();
        }
        self.peers.len()
    }

    /// The session of a peer, if it has one.
    pub fn get_session(&self, peer_id: &str) -> (r: Option<&Session>)
        requires
            self.wf(),
        ensures
            match r {
                Some(s) => self.session_map().contains_key(peer_id@) && *s == self.session_map()[peer_id@],
                None => !self.session_map().contains_key(peer_id@),
            },
    {
        match self.find(peer_id) {
            Some(i) => {
                proof {
                    self.lemma_lookup(i as int);
                }
                Some(&self.sessions[i])
            },
            None => None,
        }
    }

    proof fn lemma_update(before: SessionManager, after: SessionManager, i: int)
        requires
            before.wf(),
            0 <= i < before.peers@.len(),
            after.peers@ == before.peers@,
            after.sessions@ == before.sessions@.update(i, after.sessions@[i]),
            after.local_session == before.local_session,
        ensures
            after.session_map() == before.session_map().insert(before.peers@[i]@, after.sessions@[i]),
            after.sessions@[i].wf() ==> after.wf(),
    {
        let k = before.peers@[i]@;
        before.lemma_lookup(i);
        assert(after.peer_ids() =~= before.peer_ids());
        assert forall|q: Seq<char>| after.session_map().contains_key(q) implies
            #[trigger] after.session_map()[q] == before.session_map().insert(k, after.sessions@[i])[q] by {
            let a = after.peer_ids().index_of(q);
            assert(after.peer_ids().contains(q));
            assert(0 <= a < after.peer_ids().len() && after.peer_ids()[a] == q);
            assert(before.peer_ids()[i] == k);
            if q == k {
                assert(a == i);
            } else {
                assert(a != i);
                assert(after.sessions@[a] == before.sessions@[a]);
            }
        }
        assert(after.session_map() =~= before.session_map().insert(k, after.sessions@[i]));
        if after.sessions@[i].wf() {
            assert forall|j: int| 0 <= j < after.sessions@.len() implies (#[trigger] after.sessions@[j]).wf() by {
                if j != i {
                    assert(before.sessions@[j].wf());
                }
            }
        }
    }

    fn session_slot(&mut self, peer_id: &str, bootstrap: Box<dyn OCapNObject>) -> (r: &mut Session)
        requires
            old(self).wf(),
        ensures
            old(self).session_map().contains_key(peer_id@) ==> *r == old(self).session_map()[peer_id@],
            !old(self).session_map().contains_key(peer_id@) ==> {
                &&& r.wf()
                &&& r.export_swiss().len() == 1
                &&& r.keyed().len() == 0
                &&& r.imports_model().len() == 0
            },
            final(self).session_map() == old(self).session_map().insert(peer_id@, *final(r)),
            final(self).local() == old(self).local(),
            final(self).local_id() == old(self).local_id(),
            final(r).wf() ==> final(self).wf(),
    {
        match self.find(peer_id) {
            Some(i) => {
                proof {
                    self.lemma_lookup(i as int);
                }
                let ghost before = *self;
                let r = &mut self.sessions[i];
                proof {
                    SessionManager::lemma_update(before, after_borrow(*self), i as int);
                }
                r
            },
            None => {
                let ghost before = *self;
                self.peers.push(string_from(peer_id));
                let mut added: Vec<Session> = vec![Session::new(bootstrap)];
                self.sessions.append(&mut added);
                let n = self.sessions.len() - 1;
                proof {
                    assert(self.peer_ids() =~= before.peer_ids().push(peer_id@));
                    assert forall|j: int| 0 <= j < self.sessions@.len() implies (#[trigger] self.sessions@[j]).wf() by {
                        if j < n {
                            assert(before.sessions@[j].wf());
                        }
                    }
                    assert forall|a: int, b: int|
                        0 <= a < self.peer_ids().len() && 0 <= b < self.peer_ids().len() && a != b
                        implies self.peer_ids()[a] != self.peer_ids()[b] by {
                        if a == n as int {
                            assert(!before.peer_ids().contains(peer_id@));
                            assert(before.peer_ids()[b] == self.peer_ids()[b]);
                        } else if b == n as int {
                            assert(!before.peer_ids().contains(peer_id@));
                            assert(before.peer_ids()[a] == self.peer_ids()[a]);
                        }
                    }
                    assert forall|q: Seq<char>| #[trigger] self.session_map().contains_key(q) == before.session_map().insert(peer_id@, self.sessions@[n as int]).contains_key(q) by {
                        if self.peer_ids().contains(q) && q != peer_id@ {
                            let a = choose|a: int| 0 <= a < self.peer_ids().len() && self.peer_ids()[a] == q;
                            assert(before.peer_ids()[a] == q);
                        }
                        if before.peer_ids().contains(q) {
                            let a = choose|a: int| 0 <= a < before.peer_ids().len() && before.peer_ids()[a] == q;
                            assert(self.peer_ids()[a] == q);
                        }
                        if q == peer_id@ {
                            assert(self.peer_ids()[n as int] == q);
                        }
                    }
                    assert forall|q: Seq<char>| self.session_map().contains_key(q) implies
                        #[trigger] self.session_map()[q] == before.session_map().insert(peer_id@, self.sessions@[n as int])[q] by {
                        self.lemma_lookup(self.peer_ids().index_of(q));
                        let a = self.peer_ids().index_of(q);
                        assert(self.peer_ids().contains(q));
                        if q != peer_id@ {
                            assert(a < n);
                            before.lemma_lookup(a);
                        } else {
                            self.lemma_lookup(n as int);
                        }
                    }
                    assert(self.session_map() =~= before.session_map().insert(peer_id@, self.sessions@[n as int]));
                    self.lemma_lookup(n as int);
                }
                let ghost mid = *self;
                let r = &mut self.sessions[n];
                proof {
                    SessionManager::lemma_update(mid, after_borrow(*self), n as int);
                }
                r
            },
        }
    }

    /// The session of a peer, created with the given bootstrap object if the
    /// peer has none.
    pub fn create_session(&mut self, peer_id: &str, bootstrap: Box<dyn OCapNObject>) -> (r: &mut Session)
        requires
            old(self).wf(),
        ensures
            old(self).session_map().contains_key(peer_id@) ==> *r == old(self).session_map()[peer_id@],
            !old(self).session_map().contains_key(peer_id@) ==> {
                &&& r.wf()
                &&& r.export_swiss().len() == 1
                &&& r.keyed().len() == 0
                &&& r.imports_model().len() == 0
            },
            final(self).session_map() == old(self).session_map().insert(peer_id@, *final(r)),
            final(self).local() == old(self).local(),
            final(self).local_id() == old(self).local_id(),
            final(r).wf() ==> final(self).wf(),
    {
        self.session_slot(peer_id, bootstrap)
    }

    /// The session of a peer, created with a local bootstrap if the peer has none.
    pub fn ensure_session(&mut self, peer_id: &str) -> (r: &mut Session)
        requires
            old(self).wf(),
        ensures
            old(self).session_map().contains_key(peer_id@) ==> *r == old(self).session_map()[peer_id@],
            !old(self).session_map().contains_key(peer_id@) ==> {
                &&& r.wf()
                &&& r.export_swiss().len() == 1
                &&& r.keyed().len() == 0
                &&& r.imports_model().len() == 0
            },
            final(self).session_map() == old(self).session_map().insert(peer_id@, *final(r)),
            final(self).local() == old(self).local(),
            final(self).local_id() == old(self).local_id(),
            final(r).wf() ==> final(self).wf(),
    {
        self.session_slot(peer_id, Box::new(LocalBootstrap))
    }

    /// The session of a peer, to change it, if the peer has one.
    pub fn get_session_mut(&mut self, peer_id: &str) -> (r: Option<&mut Session>)
        requires
            old(self).wf(),
        ensures
            final(self).local() == old(self).local(),
            final(self).local_id() == old(self).local_id(),
            match r {
                Some(s) => {
                    &&& old(self).session_map().contains_key(peer_id@)
                    &&& *s == old(self).session_map()[peer_id@]
                    &&& final(self).session_map() == old(self).session_map().insert(peer_id@, *final(s))
                    &&& final(s).wf() ==> final(self).wf()
                },
                None => {
                    &&& !old(self).session_map().contains_key(peer_id@)
                    &&& final(self).session_map() == old(self).session_map()
                    &&& final(self).wf()
                },
            },
    {
        match self.find(peer_id) {
            Some(i) => {
                proof {
                    self.lemma_lookup(i as int);
                }
                let ghost before = *self;
                let r = &mut self.sessions[i];
                proof {
                    SessionManager::lemma_update(before, after_borrow(*self), i as int);
                }
                Some(r)
            },
            None => None,
        }
    }

    /// Drop the session of a peer, if it has one.
    pub fn remove_session(&mut self, peer_id: &str)
        requires
            old(self).wf(),
        ensures
            final(self).wf(),
            final(self).session_map() == old(self).session_map().remove(peer_id@),
            final(self).local() == old(self).local(),
            final(self).local_id() == old(self).local_id(),
    {
        match self.find(peer_id) {
            Some(i) => {
                let ghost before = *self;
                self.peers.remove(i);
                self.sessions.remove(i);
                proof {
                    let ids = before.peer_ids();
                    assert(self.peer_ids() =~= ids.remove(i as int));
                    assert(self.sessions@ =~= before.sessions@.remove(i as int));
                    assert forall|a: int, b: int|
                        0 <= a < self.peer_ids().len() && 0 <= b < self.peer_ids().len() && a != b
                        implies self.peer_ids()[a] != self.peer_ids()[b] by {
                        let a0 = if a < i { a } else { a + 1 };
                        let b0 = if b < i { b } else { b + 1 };
                        assert(ids[a0] != ids[b0]);
                    }
                    assert forall|j: int| 0 <= j < self.sessions@.len() implies (#[trigger] self.sessions@[j]).wf() by {
                        let j0 = if j < i { j } else { j + 1 };
                        assert(before.sessions@[j0].wf());
                    }
                    assert forall|k: Seq<char>| #[trigger] self.session_map().contains_key(k) == old(self).session_map().remove(peer_id@).contains_key(k) by {
                        if self.peer_ids().contains(k) {
                            let a = choose|a: int| 0 <= a < self.peer_ids().len() && self.peer_ids()[a] == k;
                            let a0 = if a < i { a } else { a + 1 };
                            assert(ids[a0] == k);
                            assert(ids[i as int] == peer_id@);
                            assert(a0 != i);
                            assert(k != peer_id@);
                        }
                        if ids.contains(k) && k != peer_id@ {
                            let a0 = choose|a0: int| 0 <= a0 < ids.len() && ids[a0] == k;
                            assert(a0 != i);
                            let a = if a0 < i { a0 } else { a0 - 1 };
                            assert(self.peer_ids()[a] == k);
                        }
                    }
                    assert forall|k: Seq<char>| self.session_map().contains_key(k) implies
                        #[trigger] self.session_map()[k] == old(self).session_map()[k] by {
                        let a = self.peer_ids().index_of(k);
                        assert(self.peer_ids().contains(k));
                        let a0 = if a < i { a } else { a + 1 };
                        assert(ids[a0] == k);
                        before.lemma_lookup(a0);
                    }
                    assert(self.session_map() =~= old(self).session_map().remove(peer_id@));
                }
            },
            None => {
                assert(old(self).session_map().remove(peer_id@) =~= old(self).session_map());
            },
        }
    }
}


/// Asking for a peer's session when it already has one adds no peer: the set
/// of peers with a session is unchanged.
pub proof fn lemma_ensure_session_idempotent(
    before: SessionManager,
    after: SessionManager,
    peer: Seq<char>,
    s: Session,
)
    requires
        before.session_map().contains_key(peer),
        after.session_map() == before.session_map().insert(peer, s),
    ensures
        after.session_map().dom() == before.session_map().dom(),
{
    assert(after.session_map().dom() =~= before.session_map().dom());
}

/// After a peer's session is removed, the peer has no session, the other
/// peers keep theirs, and one session fewer remains if it had one.
pub proof fn lemma_remove_session_absent(before: SessionManager, after: SessionManager, peer: Seq<char>)
    requires
        before.wf(),
        after.session_map() == before.session_map().remove(peer),
    ensures
        !after.session_map().contains_key(peer),
        forall|q: Seq<char>| q != peer ==> (#[trigger] after.session_map().contains_key(q)
            == before.session_map().contains_key(q)),
        after.session_map().dom().len() + (if before.session_map().contains_key(peer) { 1int } else { 0int })
            == before.session_map().dom().len(),
{
    before.lemma_dom_finite();
    if before.session_map().contains_key(peer) {
        assert(after.session_map().dom() =~= before.session_map().dom().remove(peer));
    } else {
        assert(after.session_map().dom() =~= before.session_map().dom());
    }
}


/// Exporting under a key that is already exported gives the same position
/// and Swiss number again: `before` is the session as the first export left
/// it, `r2` what the second export under the same key gives.
pub proof fn lemma_keyed_export_reused(
    before: Session,
    key: Seq<char>,
    r1: (u64, SwissNum),
    r2: (u64, SwissNum),
)
    requires
        assoc(before.keyed(), key) == Some(r1.1),
        before.position_of(r1.1) == Some(r1.0 as int),
        match assoc(before.keyed(), key) {
            Some(sw) => r2.1 == sw && before.position_of(sw) == Some(r2.0 as int),
            None => r2.0 == before.export_swiss().len(),
        },
    ensures
        r2 == r1,
{
}

} // verus!
