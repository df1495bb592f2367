use crate::bridge::OCapNSendEntry;
use crate::keyed::{find_key, lemma_to_map, lemma_to_map_push, lemma_to_map_remove, lemma_to_map_update, to_map, unique_keys};
use std::collections::hash_map::DefaultHasher;
use std::hash::{BuildHasher, BuildHasherDefault};
use vstd::prelude::*;

verus! {

/// What one evaluation of a node asks of the runtime, collected while it runs.
pub struct ActorContext {
    pub node_id: u64,
    pub export_counter: u32,
    pub ocapn_sends: Vec<OCapNSendEntry>,
    pub net_publishes: Vec<String>,
    pub tick_interval_ms: Option<u64>,
    pub recompute_requests: Vec<u64>,
    pub has_message_handler: bool,
    pub window_title: Option<String>,
}

/// Collected outputs from a single evaluation.
pub struct ActorOutputs {
    pub ocapn_sends: Vec<OCapNSendEntry>,
    pub net_publishes: Vec<String>,
    pub tick_interval_ms: Option<u64>,
    pub recompute_requests: Vec<u64>,
    pub has_message_handler: bool,
    pub window_title: Option<String>,
}

impl ActorContext {
    /// Nothing collected yet.
    pub open spec fn outputs_empty(&self) -> bool {
        &&& self.ocapn_sends@.len() == 0
        &&& self.net_publishes@.len() == 0
        &&& self.tick_interval_ms is None
        &&& self.recompute_requests@.len() == 0
        &&& !self.has_message_handler
        &&& self.window_title is None
    }

    /// A context for a node, with nothing collected.
    pub fn new(node_id: u64) -> (r: ActorContext)
        ensures
            r.node_id == node_id,
            r.export_counter == 0,
            r.outputs_empty(),
    {
        ActorContext {
            node_id,
            export_counter: 0,
            ocapn_sends: Vec::new(),
            net_publishes: Vec::new(),
            tick_interval_ms: None,
            recompute_requests: Vec::new(),
            has_message_handler: false,
            window_title: None,
        }
    }

    /// Forget everything collected, before an evaluation.
    pub fn reset_outputs(&mut self)
        ensures
            final(self).node_id == old(self).node_id,
            final(self).export_counter == 0,
            final(self).outputs_empty(),
    {
        self.export_counter = 0;
        self.ocapn_sends.clear();
        self.net_publishes.clear();
        self.tick_interval_ms = None;
        self.recompute_requests.clear();
        self.has_message_handler = false;
        self.window_title = None;
    }

    /// Hand over what was collected, leaving empty defaults behind.
    pub fn take_outputs(&mut self) -> (r: ActorOutputs)
        ensures
            r.ocapn_sends@ == old(self).ocapn_sends@,
            r.net_publishes@ == old(self).net_publishes@,
            r.tick_interval_ms == old(self).tick_interval_ms,
            r.recompute_requests@ == old(self).recompute_requests@,
            r.has_message_handler == old(self).has_message_handler,
            r.window_title == old(self).window_title,
            final(self).node_id == old(self).node_id,
            final(self).export_counter == old(self).export_counter,
            final(self).outputs_empty(),
    {
        let mut ocapn_sends: Vec<OCapNSendEntry> = Vec::new();
        std::mem::swap(&mut ocapn_sends, &mut self.ocapn_sends);
        let mut net_publishes: Vec<String> = Vec::new();
        std::mem::swap(&mut net_publishes, &mut self.net_publishes);
        let tick_interval_ms = self.tick_interval_ms.take();
        let mut recompute_requests: Vec<u64> = Vec::new();
        std::mem::swap(&mut recompute_requests, &mut self.recompute_requests);
        let window_title = self.window_title.take();
        let has_message_handler = self.has_message_handler;
        self.has_message_handler = false;
        ActorOutputs {
            ocapn_sends,
            net_publishes,
            tick_interval_ms,
            recompute_requests,
            has_message_handler,
            window_title,
        }
    }

    /// The next export number of this evaluation.
    pub fn next_export_counter(&mut self) -> (r: u32)
        requires
            old(self).export_counter < u32::MAX,
        ensures
            r == old(self).export_counter,
            final(self).export_counter == old(self).export_counter + 1,
            final(self).node_id == old(self).node_id,
    {
        let val = self.export_counter;
        self.export_counter = self.export_counter + 1;
        val
    }
}

// ---------------------------------------------------------------------
// Scheduling of evaluations
// ---------------------------------------------------------------------

/// The state of the scheduler: the nodes with an evaluation running, the
/// newest data that came for a running node, and the data waiting for its
/// debounce delay with the time (ms) it was scheduled.
pub struct Schedule<P> {
    pub running: Set<u64>,
    pub waiting: Map<u64, P>,
    pub queued: Map<u64, (P, u64)>,
}

/// Data for `node`, to run now or (not `immediate`) after the debounce
/// delay from `now`: with an evaluation running, it waits for it, taking
/// the place of older waiting data; else an immediate request starts at once
/// (dropping any debounced one), and another is debounced.
pub open spec fn enqueued<P>(s: Schedule<P>, node: u64, payload: P, immediate: bool, now: u64) -> (Schedule<P>, Option<P>) {
    if s.running.contains(node) {
        (Schedule { waiting: s.waiting.insert(node, payload), ..s }, None)
    } else if immediate {
        (Schedule { running: s.running.insert(node), queued: s.queued.remove(node), ..s }, Some(payload))
    } else {
        (Schedule { queued: s.queued.insert(node, (payload, now)), ..s }, None)
    }
}

/// The evaluation of `node` ended: data that waited for it starts at once,
/// else the node is idle.
pub open spec fn finished<P>(s: Schedule<P>, node: u64) -> (Schedule<P>, Option<P>) {
    if s.waiting.contains_key(node) {
        (Schedule { waiting: s.waiting.remove(node), running: s.running.insert(node), ..s }, Some(s.waiting[node]))
    } else {
        (Schedule { running: s.running.remove(node), ..s }, None)
    }
}

/// Debounced data scheduled at `at` is due at `now` once `delay` ms have
/// passed; a time before `at` counts as none passed.
pub open spec fn is_due(at: u64, now: u64, delay: u64) -> bool {
    (if now >= at {
        now - at
    } else {
        0
    }) >= delay
}

/// Whether anything is running, waiting or debounced.
pub open spec fn has_work<P>(s: Schedule<P>) -> bool {
    exists|k: u64|
        #![trigger s.queued.contains_key(k)]
        #![trigger s.running.contains(k)]
        #![trigger s.waiting.contains_key(k)]
        s.queued.contains_key(k) || s.running.contains(k) || s.waiting.contains_key(k)
}

proof fn lemma_remove_unique(run: Seq<u64>, j: int, node: u64)
    requires
        run.no_duplicates(),
        0 <= j < run.len(),
        run[j] == node,
    ensures
        run.remove(j).no_duplicates(),
        run.remove(j).to_set() == run.to_set().remove(node),
        forall|a: u64| #[trigger] run.remove(j).contains(a) <==> run.contains(a) && a != node,
{
    let u = run.remove(j);
    assert forall|a: int| 0 <= a < u.len() implies #[trigger] u[a] == (if a < j { run[a] } else { run[a + 1] }) by {}
    assert forall|a: u64| #[trigger] u.contains(a) <==> run.contains(a) && a != node by {
        if u.contains(a) {
            let x = choose|x: int| 0 <= x < u.len() && u[x] == a;
            let y = if x < j { x } else { x + 1 };
            assert(run[y] == a);
            assert(y != j);
        }
        if run.contains(a) && a != node {
            let y = choose|y: int| 0 <= y < run.len() && run[y] == a;
            assert(y != j);
            if y < j {
                assert(u[y] == a);
            } else {
                assert(u[y - 1] == a);
            }
        }
    }
    assert(u.no_duplicates()) by {
        assert forall|a: int, b: int| 0 <= a < u.len() && 0 <= b < u.len() && a != b implies u[a] != u[b] by {
            let x = if a < j { a } else { a + 1 };
            let y = if b < j { b } else { b + 1 };
            assert(u[a] == run[x] && u[b] == run[y]);
        }
    }
    assert(u.to_set() =~= run.to_set().remove(node));
}

/// Per-node scheduling of evaluations: at most one runs per node at a time;
/// data that comes while one runs waits (only the newest) and runs when it
/// ends; user-driven requests wait `debounce_ms` first.
pub struct ComputeQueue<P> {
    running: Vec<u64>,
    waiting: Vec<(u64, P)>,
    queued: Vec<(u64, (P, u64))>,
    debounce_ms: u64,
}

impl<P> View for ComputeQueue<P> {
    type V = Schedule<P>;

    closed spec fn view(&self) -> Schedule<P> {
        Schedule { running: self.running@.to_set(), waiting: to_map(self.waiting@), queued: to_map(self.queued@) }
    }
}

impl<P> ComputeQueue<P> {
    /// The debounce delay in ms.
    pub closed spec fn delay(&self) -> u64 {
        self.debounce_ms
    }

    /// Data waits only for a running node, and debounced data never for one.
    pub closed spec fn wf(&self) -> bool {
        &&& self.running@.no_duplicates()
        &&& unique_keys(self.waiting@)
        &&& unique_keys(self.queued@)
        &&& forall|k: u64| #[trigger] to_map(self.waiting@).contains_key(k) ==> self.running@.contains(k)
        &&& forall|k: u64| #[trigger] to_map(self.queued@).contains_key(k) ==> !self.running@.contains(k)
    }

    /// Nothing scheduled; debounced data waits `debounce_ms`.
    pub fn new(debounce_ms: u64) -> (r: ComputeQueue<P>)
        ensures
            r.wf(),
            r@.running == Set::<u64>::empty(),
            r@.waiting == Map::<u64, P>::empty(),
            r@.queued == Map::<u64, (P, u64)>::empty(),
            r.delay() == debounce_ms,
    {
        let r = ComputeQueue { running: Vec::new(), waiting: Vec::new(), queued: Vec::new(), debounce_ms };
        assert(r.running@.to_set() =~= Set::<u64>::empty());
        r
    }

    fn running_index(&self, node: u64) -> (r: Option<usize>)
        ensures
            match r {
                Some(i) => i < self.running@.len() && self.running@[i as int] == node,
                None => !self.running@.contains(node),
            },
    {
        let mut i: usize = 0;
        while i < self.running.len()
            invariant
                i <= self.running@.len(),
                forall|j: int| 0 <= j < i ==> self.running@[j] != node,
            decreases self.running@.len() - i,
        {
            if self.running[i] == node {
                return Some(i);
            }
            i = i + 1;
        }
        None
    }

    /// Schedules data for `node` at time `now` (ms); gives the data back
    /// where its evaluation is to start now.
    pub fn enqueue(&mut self, node: u64, payload: P, immediate: bool, now: u64) -> (r: Option<P>)
        requires
            old(self).wf(),
        ensures
            final(self).wf(),
            final(self).delay() == old(self).delay(),
            (final(self)@, r) == enqueued(old(self)@, node, payload, immediate, now),
    {
        proof {
            lemma_to_map(self.waiting@);
            lemma_to_map(self.queued@);
        }
        let ghost s = self@;
        if self.running_index(node).is_some() {
            let ghost w = self.waiting@;
            match find_key(&self.waiting, node) {
                Some(i) => {
                    let ghost k = w[i as int].0;
                    proof {
                        lemma_to_map_update(w, i as int, payload);
                    }
                    self.waiting.set(i, (node, payload));
                    assert(self.waiting@ == w.update(i as int, (k, payload)));
                },
                None => {
                    proof {
                        assert forall|j: int| 0 <= j < w.len() implies #[trigger] w[j].0 != node by {
                            if w[j].0 == node {
                                assert(to_map(w).contains_key(node));
                            }
                        }
                        lemma_to_map_push(w, node, payload);
                    }
                    self.waiting.push((node, payload));
                },
            }
            proof {
                assert forall|k: u64| #[trigger] to_map(self.waiting@).contains_key(k) implies self.running@.contains(k) by {
                    if k != node {
                        assert(to_map(w).contains_key(k));
                    }
                }
            }
            assert(self@ == enqueued(s, node, payload, immediate, now).0);
            None
        } else if immediate {
            let ghost q = self.queued@;
            let ghost run = self.running@;
            match find_key(&self.queued, node) {
                Some(i) => {
                    proof {
                        lemma_to_map_remove(q, i as int);
                    }
                    let _dropped = self.queued.remove(i);
                },
                None => {
                    assert(to_map(q).remove(node) =~= to_map(q));
                },
            }
            self.running.push(node);
            proof {
                assert(self.running@ == run.push(node));
                assert forall|a: u64| #[trigger] self.running@.contains(a) <==> run.contains(a) || a == node by {
                    if self.running@.contains(a) {
                        let j = choose|j: int| 0 <= j < self.running@.len() && self.running@[j] == a;
                        if j < run.len() {
                            assert(run[j] == a);
                        }
                    }
                    if run.contains(a) {
                        let j = choose|j: int| 0 <= j < run.len() && run[j] == a;
                        assert(self.running@[j] == a);
                    }
                    if a == node {
                        assert(self.running@[run.len() as int] == node);
                    }
                }
                assert(self.running@.to_set() =~= run.to_set().insert(node));
                assert forall|k: u64| #[trigger] to_map(self.waiting@).contains_key(k) implies self.running@.contains(k) by {
                    assert(run.contains(k));
                    let j = choose|j: int| 0 <= j < run.len() && run[j] == k;
                    assert(self.running@[j] == k);
                }
                assert forall|k: u64| #[trigger] to_map(self.queued@).contains_key(k) implies !self.running@.contains(k) by {
                    assert(to_map(q).contains_key(k) && k != node);
                    if self.running@.contains(k) {
                        let j = choose|j: int| 0 <= j < self.running@.len() && self.running@[j] == k;
                        if j < run.len() {
                            assert(run[j] == k);
                        }
                    }
                }
            }
            assert(self@ == enqueued(s, node, payload, immediate, now).0);
            Some(payload)
        } else {
            let ghost q = self.queued@;
            match find_key(&self.queued, node) {
                Some(i) => {
                    proof {
                        lemma_to_map_update(q, i as int, (payload, now));
                    }
                    self.queued.set(i, (node, (payload, now)));
                    assert(self.queued@ == q.update(i as int, (q[i as int].0, (payload, now))));
                },
                None => {
                    proof {
                        assert forall|j: int| 0 <= j < q.len() implies #[trigger] q[j].0 != node by {
                            if q[j].0 == node {
                                assert(to_map(q).contains_key(node));
                            }
                        }
                        lemma_to_map_push(q, node, (payload, now));
                    }
                    self.queued.push((node, (payload, now)));
                },
            }
            proof {
                assert forall|k: u64| #[trigger] to_map(self.queued@).contains_key(k) implies !self.running@.contains(k) by {
                    if k != node {
                        assert(to_map(q).contains_key(k));
                    }
                }
            }
            assert(self@ == enqueued(s, node, payload, immediate, now).0);
            None
        }
    }

    /// The evaluation of `node` ended; gives the data to run next for it,
    /// where some waited.
    pub fn finish(&mut self, node: u64) -> (r: Option<P>)
        requires
            old(self).wf(),
        ensures
            final(self).wf(),
            final(self).delay() == old(self).delay(),
            (final(self)@, r) == finished(old(self)@, node),
    {
        let ghost s = self@;
        let ghost w = self.waiting@;
        let ghost run = self.running@;
        proof {
            lemma_to_map(w);
        }
        match find_key(&self.waiting, node) {
            Some(i) => {
                proof {
                    lemma_to_map_remove(w, i as int);
                    assert(run.to_set().insert(node) =~= run.to_set());
                }
                let (_, p) = self.waiting.remove(i);
                proof {
                    assert forall|k: u64| #[trigger] to_map(self.waiting@).contains_key(k) implies self.running@.contains(k) by {
                        assert(to_map(w).contains_key(k));
                    }
                }
                assert(self@ == finished(s, node).0);
                Some(p)
            },
            None => {
                match self.running_index(node) {
                    Some(j) => {
                        proof {
                            lemma_remove_unique(run, j as int, node);
                        }
                        self.running.remove(j);
                        proof {
                            assert forall|k: u64| #[trigger] to_map(self.waiting@).contains_key(k) implies self.running@.contains(k) by {
                                assert(run.contains(k));
                            }
                        }
                    },
                    None => {
                        assert(run.to_set().remove(node) =~= run.to_set());
                    },
                }
                assert(self@ == finished(s, node).0);
                None
            },
        }
    }

    /// Debounced data that is due at `now` (ms), taken off the queue and
    /// marked running; none where nothing is due.
    pub fn next_due(&mut self, now: u64) -> (r: Option<(u64, P)>)
        requires
            old(self).wf(),
        ensures
            final(self).wf(),
            final(self).delay() == old(self).delay(),
            final(self)@.waiting == old(self)@.waiting,
            match r {
                Some((k, p)) => {
                    &&& old(self)@.queued.contains_key(k)
                    &&& old(self)@.queued[k].0 == p
                    &&& is_due(old(self)@.queued[k].1, now, old(self).delay())
                    &&& final(self)@.running == old(self)@.running.insert(k)
                    &&& final(self)@.queued == old(self)@.queued.remove(k)
                },
                None => {
                    &&& final(self)@ == old(self)@
                    &&& forall|k: u64| #[trigger] old(self)@.queued.contains_key(k) ==> !is_due(
                        old(self)@.queued[k].1,
                        now,
                        old(self).delay(),
                    )
                },
            },
    {
        let ghost q = self.queued@;
        let ghost run = self.running@;
        proof {
            lemma_to_map(q);
        }
        let mut i: usize = 0;
        while i < self.queued.len()
            invariant
                i <= self.queued@.len(),
                self.queued@ == q,
                self.running@ == run,
                q == old(self).queued@,
                run == old(self).running@,
                self.waiting@ == old(self).waiting@,
                self.debounce_ms == old(self).debounce_ms,
                self.wf(),
                forall|j: int| 0 <= j < i ==> !is_due(#[trigger] q[j].1.1, now, self.debounce_ms),
            decreases self.queued@.len() - i,
        {
            let at = self.queued[i].1.1;
            let passed = if now >= at { now - at } else { 0 };
            if passed >= self.debounce_ms {
                let node = self.queued[i].0;
                proof {
                    lemma_to_map(q);
                    assert(to_map(q)[q[i as int].0] == q[i as int].1);
                    assert(to_map(q).contains_key(node));
                    lemma_to_map_remove(q, i as int);
                    assert(!run.contains(node));
                }
                let (_, (p, _)) = self.queued.remove(i);
                self.running.push(node);
                proof {
                    assert(self.running@ == run.push(node));
                    assert forall|a: u64| #[trigger] self.running@.contains(a) <==> run.contains(a) || a == node by {
                        if self.running@.contains(a) {
                            let j = choose|j: int| 0 <= j < self.running@.len() && self.running@[j] == a;
                            if j < run.len() {
                                assert(run[j] == a);
                            }
                        }
                        if run.contains(a) {
                            let j = choose|j: int| 0 <= j < run.len() && run[j] == a;
                            assert(self.running@[j] == a);
                        }
                        if a == node {
                            assert(self.running@[run.len() as int] == node);
                        }
                    }
                    assert(self.running@.to_set() =~= run.to_set().insert(node));
                    assert forall|k: u64| #[trigger] to_map(self.waiting@).contains_key(k) implies self.running@.contains(k) by {
                        assert(run.contains(k));
                    }
                    assert forall|k: u64| #[trigger] to_map(self.queued@).contains_key(k) implies !self.running@.contains(k) by {
                        assert(to_map(q).contains_key(k) && k != node);
                    }
                }
                return Some((node, p));
            }
            i = i + 1;
        }
        proof {
            assert forall|k: u64| #[trigger] to_map(q).contains_key(k) implies !is_due(to_map(q)[k].1, now, self.debounce_ms) by {
                let j = choose|j: int| 0 <= j < q.len() && #[trigger] q[j].0 == k;
                assert(to_map(q)[q[j].0] == q[j].1);
            }
        }
        None
    }

    /// Drops all waiting and debounced data; running evaluations go on.
    pub fn cancel_all(&mut self)
        requires
            old(self).wf(),
        ensures
            final(self).wf(),
            final(self).delay() == old(self).delay(),
            final(self)@.running == old(self)@.running,
            final(self)@.waiting == Map::<u64, P>::empty(),
            final(self)@.queued == Map::<u64, (P, u64)>::empty(),
    {
        self.waiting.clear();
        self.queued.clear();
    }

    /// Forgets everything about `node`, whose node is gone.
    pub fn forget(&mut self, node: u64)
        requires
            old(self).wf(),
        ensures
            final(self).wf(),
            final(self).delay() == old(self).delay(),
            final(self)@.running == old(self)@.running.remove(node),
            final(self)@.waiting == old(self)@.waiting.remove(node),
            final(self)@.queued == old(self)@.queued.remove(node),
    {
        let ghost w = self.waiting@;
        let ghost q = self.queued@;
        let ghost run = self.running@;
        match find_key(&self.waiting, node) {
            Some(i) => {
                proof {
                    lemma_to_map_remove(w, i as int);
                }
                self.waiting.remove(i);
            },
            None => {
                assert(to_map(w).remove(node) =~= to_map(w));
            },
        }
        match find_key(&self.queued, node) {
            Some(i) => {
                proof {
                    lemma_to_map_remove(q, i as int);
                }
                self.queued.remove(i);
            },
            None => {
                assert(to_map(q).remove(node) =~= to_map(q));
            },
        }
        match self.running_index(node) {
            Some(j) => {
                proof {
                    lemma_remove_unique(run, j as int, node);
                }
                self.running.remove(j);
            },
            None => {
                assert(run.to_set().remove(node) =~= run.to_set());
                assert forall|a: u64| #[trigger] run.contains(a) implies a != node by {}
            },
        }
        proof {
            assert forall|k: u64| #[trigger] to_map(self.waiting@).contains_key(k) implies self.running@.contains(k) by {
                assert(to_map(w).contains_key(k) && k != node);
                assert(run.contains(k));
            }
            assert forall|k: u64| #[trigger] to_map(self.queued@).contains_key(k) implies !self.running@.contains(k) by {
                assert(to_map(q).contains_key(k));
                assert(!run.contains(k));
            }
        }
    }

    /// Whether anything runs, waits or is debounced.
    pub fn has_pending(&self) -> (r: bool)
        requires
            self.wf(),
        ensures
            r == has_work(self@),
    {
        proof {
            lemma_to_map(self.waiting@);
            lemma_to_map(self.queued@);
        }
        if self.queued.len() > 0 {
            assert(self@.queued.contains_key(self.queued@[0].0));
            true
        } else if self.running.len() > 0 {
            assert(self@.running.contains(self.running@[0]));
            true
        } else if self.waiting.len() > 0 {
            assert(self@.waiting.contains_key(self.waiting@[0].0));
            true
        } else {
            assert forall|k: u64| !(#[trigger] self@.queued.contains_key(k) || self@.running.contains(k) || self@.waiting.contains_key(k)) by {
                assert(!self.running@.contains(k));
                if to_map(self.queued@).contains_key(k) {
                    let j = choose|j: int| 0 <= j < self.queued@.len() && #[trigger] self.queued@[j].0 == k;
                }
                if to_map(self.waiting@).contains_key(k) {
                    let j = choose|j: int| 0 <= j < self.waiting@.len() && #[trigger] self.waiting@[j].0 == k;
                }
            }
            false
        }
    }
}

// ---------------------------------------------------------------------
// What an evaluation runs
// ---------------------------------------------------------------------

/// How a node is evaluated on a worker.
#[derive(Debug, Clone, Copy, PartialEq, Eq)]
pub enum ExecPlan {
    /// Drain the node's messages in its cached environment, then evaluate
    /// the cached preprocessed code again where there is some.
    DrainMessages { reevaluate: bool },
    /// A script with no code: an empty result.
    EmptyScript,
    /// Evaluate the script.
    RunScript,
    /// The outputs of a constant node.
    Constant,
    /// The inputs of an output node, passed through.
    Passthrough,
    /// Run the node's WebAssembly module.
    RunWasm,
    /// The node cannot run: no template for a WebAssembly node.
    NoTemplate,
    /// The node cannot run: no WebAssembly runner.
    NoRunner,
}

/// The plan for a node of kind `builtin` (none for a WebAssembly node) with
/// `code`: the fast message path where it was asked for and an environment
/// is cached; else by kind.
pub open spec fn exec_plan(
    builtin: Option<crate::registry::BuiltinKind>,
    code: Seq<char>,
    fast_path: bool,
    has_env: bool,
    has_preprocessed: bool,
    has_runner: bool,
    has_template: bool,
) -> ExecPlan {
    if fast_path && has_env {
        ExecPlan::DrainMessages { reevaluate: has_preprocessed }
    } else {
        match builtin {
            Some(crate::registry::BuiltinKind::Script) => if crate::text::trim(code).len() == 0 {
                ExecPlan::EmptyScript
            } else {
                ExecPlan::RunScript
            },
            Some(crate::registry::BuiltinKind::Const) => ExecPlan::Constant,
            Some(crate::registry::BuiltinKind::Output) => ExecPlan::Passthrough,
            None => if !has_runner {
                ExecPlan::NoRunner
            } else if !has_template {
                ExecPlan::NoTemplate
            } else {
                ExecPlan::RunWasm
            },
        }
    }
}

/// How to evaluate a node, from its kind, its code and what is at hand.
pub fn plan_execution(
    builtin: Option<crate::registry::BuiltinKind>,
    code: &str,
    fast_path: bool,
    has_env: bool,
    has_preprocessed: bool,
    has_runner: bool,
    has_template: bool,
) -> (r: ExecPlan)
    ensures
        r == exec_plan(builtin, code@, fast_path, has_env, has_preprocessed, has_runner, has_template),
{
    if fast_path && has_env {
        return ExecPlan::DrainMessages { reevaluate: has_preprocessed };
    }
    match builtin {
        Some(crate::registry::BuiltinKind::Script) => {
            let cs = crate::text::chars_of(code);
            let t = crate::text::trim_chars(cs.as_slice(), 0, cs.len());
            assert(cs@.subrange(0, cs@.len() as int) =~= cs@);
            if t.len() == 0 {
                ExecPlan::EmptyScript
            } else {
                ExecPlan::RunScript
            }
        },
        Some(crate::registry::BuiltinKind::Const) => ExecPlan::Constant,
        Some(crate::registry::BuiltinKind::Output) => ExecPlan::Passthrough,
        None => if !has_runner {
            ExecPlan::NoRunner
        } else if !has_template {
            ExecPlan::NoTemplate
        } else {
            ExecPlan::RunWasm
        },
    }
}

impl ExecPlan {
    /// The error a plan that cannot run reports.
    pub fn failure(&self) -> (r: Option<String>)
        ensures
            *self == ExecPlan::NoTemplate ==> (r matches Some(m) && m@ == "No template for WASM node"@),
            *self == ExecPlan::NoRunner ==> (r matches Some(m) && m@ == "No WASM runner available"@),
            *self != ExecPlan::NoTemplate && *self != ExecPlan::NoRunner ==> r is None,
    {
        match self {
            ExecPlan::NoTemplate => Some(crate::text::string_from("No template for WASM node")),
            ExecPlan::NoRunner => Some(crate::text::string_from("No WASM runner available")),
            _ => None,
        }
    }
}

// ---------------------------------------------------------------------
// Cached environments
// ---------------------------------------------------------------------

/// A cached environment: the hash of the code that made it, the
/// environment, and the code as preprocessed.
pub type CachedEnv<E> = (u64, E, Option<String>);

/// The hash a default `DefaultHasher` gives a text. The hasher is not
/// seeded, so the hash is a function of the text alone; std leaves the
/// algorithm itself unspecified (it may change between releases).
pub uninterp spec fn default_hash(code: Seq<char>) -> u64;

/// `BuildHasher::hash_one` with a default `DefaultHasher`: the hash of the
/// code, named by `default_hash`; nothing more is claimed of it.
#[verifier::external_body]
fn hash_code(code: &str) -> (r: u64)
    ensures
        r == default_hash(code@),
{
    BuildHasherDefault::<DefaultHasher>::default().hash_one(code)
}

/// The environments that evaluations of nodes left, and the nodes whose
/// last evaluation installed a message handler.
pub struct EnvCache<E> {
    entries: Vec<(u64, CachedEnv<E>)>,
    handlers: Vec<u64>,
}

impl<E> EnvCache<E> {
    /// Environments by node.
    pub closed spec fn envs(&self) -> Map<u64, CachedEnv<E>> {
        to_map(self.entries@)
    }

    /// Nodes with a message handler.
    pub closed spec fn handler_nodes(&self) -> Set<u64> {
        self.handlers@.to_set()
    }

    pub closed spec fn wf(&self) -> bool {
        unique_keys(self.entries@) && self.handlers@.no_duplicates()
    }

    /// Nothing cached.
    pub fn new() -> (r: EnvCache<E>)
        ensures
            r.wf(),
            r.envs() == Map::<u64, CachedEnv<E>>::empty(),
            r.handler_nodes() == Set::<u64>::empty(),
    {
        let r = EnvCache { entries: Vec::new(), handlers: Vec::new() };
        assert(r.handlers@.to_set() =~= Set::<u64>::empty());
        r
    }

    /// The number of cached environments.
    pub fn len(&self) -> (r: usize)
        requires
            self.wf(),
        ensures
            r == self.envs().len(),
    {
        proof {
            crate::keyed::lemma_to_map_len(self.entries@);
        }
        self.entries.len()
    }

    fn handler_index(&self, node: u64) -> (r: Option<usize>)
        ensures
            match r {
                Some(i) => i < self.handlers@.len() && self.handlers@[i as int] == node,
                None => !self.handlers@.contains(node),
            },
    {
        let mut i: usize = 0;
        while i < self.handlers.len()
            invariant
                i <= self.handlers@.len(),
                forall|j: int| 0 <= j < i ==> self.handlers@[j] != node,
            decreases self.handlers@.len() - i,
        {
            if self.handlers[i] == node {
                return Some(i);
            }
            i = i + 1;
        }
        None
    }

    /// Keeps what an evaluation of `node` left: the environment made by code
    /// with hash `code_hash`, and whether it installed a message handler.
    pub fn store(&mut self, node: u64, code_hash: u64, env: E, preprocessed: Option<String>, has_handler: bool)
        requires
            old(self).wf(),
        ensures
            final(self).wf(),
            final(self).envs() == old(self).envs().insert(node, (code_hash, env, preprocessed)),
            final(self).handler_nodes() == if has_handler {
                old(self).handler_nodes().insert(node)
            } else {
                old(self).handler_nodes().remove(node)
            },
    {
        let ghost e = self.entries@;
        let ghost v = (code_hash, env, preprocessed);
        match find_key(&self.entries, node) {
            Some(i) => {
                proof {
                    lemma_to_map_update(e, i as int, v);
                }
                self.entries.set(i, (node, (code_hash, env, preprocessed)));
                assert(self.entries@ == e.update(i as int, (e[i as int].0, v)));
            },
            None => {
                proof {
                    lemma_to_map(e);
                    assert forall|j: int| 0 <= j < e.len() implies #[trigger] e[j].0 != node by {
                        if e[j].0 == node {
                            assert(to_map(e).contains_key(node));
                        }
                    }
                    lemma_to_map_push(e, node, v);
                }
                self.entries.push((node, (code_hash, env, preprocessed)));
            },
        }
        let ghost h = self.handlers@;
        match self.handler_index(node) {
            Some(i) => {
                if !has_handler {
                    proof {
                        lemma_remove_unique(h, i as int, node);
                    }
                    self.handlers.remove(i);
                } else {
                    assert(h.to_set().insert(node) =~= h.to_set());
                }
            },
            None => {
                if has_handler {
                    self.handlers.push(node);
                    assert forall|a: u64| #[trigger] self.handlers@.contains(a) <==> h.contains(a) || a == node by {
                        if self.handlers@.contains(a) {
                            let x = choose|x: int| 0 <= x < self.handlers@.len() && self.handlers@[x] == a;
                            if x < h.len() {
                                assert(h[x] == a);
                            }
                        }
                        if h.contains(a) {
                            let y = choose|y: int| 0 <= y < h.len() && h[y] == a;
                            assert(self.handlers@[y] == a);
                        }
                        if a == node {
                            assert(self.handlers@[h.len() as int] == node);
                        }
                    }
                    assert(self.handlers@.to_set() =~= h.to_set().insert(node));
                } else {
                    assert(h.to_set().remove(node) =~= h.to_set());
                }
            },
        }
    }

    /// The environment to run `node`'s code with hash `code_hash` in, and
    /// its preprocessed code: the cached one, if made by the same code. The
    /// cache of `node` is taken either way.
    pub fn take_for_run(&mut self, node: u64, code_hash: u64) -> (r: Option<(E, Option<String>)>)
        requires
            old(self).wf(),
        ensures
            final(self).wf(),
            final(self).envs() == old(self).envs().remove(node),
            final(self).handler_nodes() == old(self).handler_nodes(),
            match r {
                Some((env, pre)) => old(self).envs().contains_key(node) && old(self).envs()[node] == (
                    code_hash,
                    env,
                    pre,
                ),
                None => !(old(self).envs().contains_key(node) && old(self).envs()[node].0 == code_hash),
            },
    {
        let ghost e = self.entries@;
        match find_key(&self.entries, node) {
            Some(i) => {
                proof {
                    lemma_to_map_remove(e, i as int);
                }
                let (_, (h, env, pre)) = self.entries.remove(i);
                if h == code_hash {
                    Some((env, pre))
                } else {
                    None
                }
            },
            None => {
                assert(to_map(e).remove(node) =~= to_map(e));
                None
            },
        }
    }

    /// Forgets the environment of `node`, whose node is gone.
    pub fn forget(&mut self, node: u64)
        requires
            old(self).wf(),
        ensures
            final(self).wf(),
            final(self).envs() == old(self).envs().remove(node),
            final(self).handler_nodes() == old(self).handler_nodes(),
    {
        let ghost e = self.entries@;
        match find_key(&self.entries, node) {
            Some(i) => {
                proof {
                    lemma_to_map_remove(e, i as int);
                }
                self.entries.remove(i);
            },
            None => {
                assert(to_map(e).remove(node) =~= to_map(e));
            },
        }
    }

    /// Whether data for `node` whose code has hash `code_hash` can take the
    /// fast path (only drain messages and evaluate again): the node has a
    /// message handler, its environment was made by the same code, and
    /// messages wait for it.
    pub fn fast_path(&self, node: u64, code_hash: u64, has_messages: bool) -> (r: bool)
        requires
            self.wf(),
        ensures
            r == (self.handler_nodes().contains(node) && self.envs().contains_key(node)
                && self.envs()[node].0 == code_hash && has_messages),
    {
        if self.handler_index(node).is_none() {
            return false;
        }
        match find_key(&self.entries, node) {
            Some(i) => self.entries[i].1.0 == code_hash && has_messages,
            None => false,
        }
    }

    /// Whether data for `node` with `code` can take the fast path: the node
    /// has a message handler, its environment was made by code of the same
    /// hash (`default_hash`), and messages wait for it.
    pub fn should_fast_path(&self, node: u64, code: &str, has_messages: bool) -> (r: bool)
        requires
            self.wf(),
        ensures
            r == (self.handler_nodes().contains(node) && self.envs().contains_key(node)
                && self.envs()[node].0 == default_hash(code@) && has_messages),
    {
        let h = hash_code(code);
        self.fast_path(node, h, has_messages)
    }
}

/// Data that comes while a node's evaluation runs is not lost, and only
/// the newest is kept: when the evaluation ends, the last data sent runs.
pub proof fn lemma_newest_data_runs<P>(
    s: Schedule<P>,
    node: u64,
    first: P,
    first_immediate: bool,
    first_at: u64,
    last: P,
    last_immediate: bool,
    last_at: u64,
)
    requires
        s.running.contains(node),
    ensures
        ({
            let s1 = enqueued(s, node, first, first_immediate, first_at).0;
            let s2 = enqueued(s1, node, last, last_immediate, last_at).0;
            finished(s2, node).1 == Some(last)
        }),
{
}

/// An evaluation starts only for a node with none running, and data that
/// runs after an evaluation ends keeps its node marked running.
pub proof fn lemma_one_run_per_node<P>(s: Schedule<P>, node: u64, payload: P, immediate: bool, now: u64)
    ensures
        enqueued(s, node, payload, immediate, now).1 is Some ==> !s.running.contains(node),
        enqueued(s, node, payload, immediate, now).1 is Some ==> enqueued(s, node, payload, immediate, now).0.running.contains(node),
        finished(s, node).1 is Some ==> finished(s, node).0.running.contains(node),
        finished(s, node).1 is None ==> !finished(s, node).0.running.contains(node),
{
}

} // verus!
