use std::collections::VecDeque;
use std::time::{Duration, Instant};
use vstd::prelude::*;

verus! {

/// The most entries a debug log keeps.
pub const MAX_ENTRIES: usize = 200;

#[verifier::external_type_specification]
#[verifier::external_body]
pub struct ExInstant(Instant);

/// `Instant::now`: the current time. Nothing is claimed of it.
#[verifier::external_body]
fn instant_now() -> (r: Instant) {
    Instant::now()
}

/// `Instant::elapsed`: the time since `start`. Nothing is claimed of it.
#[verifier::external_body]
fn elapsed_since(start: &Instant) -> (r: Duration) {
    start.elapsed()
}

/// `Duration::as_millis`: whole milliseconds. Nothing is claimed of it.
#[verifier::external_body]
fn whole_millis(d: &Duration) -> (r: u128) {
    d.as_millis()
}

/// One logged message: when (milliseconds since the log started), from
/// where, and what.
#[derive(Clone, Debug)]
pub struct DebugEntry {
    pub elapsed_ms: u64,
    pub source: &'static str,
    pub message: String,
}

/// A bounded log of recent debug messages; the oldest go first.
pub struct DebugLog {
    entries: VecDeque<DebugEntry>,
    start: Instant,
}

/// Source and message of each entry.
pub open spec fn entry_texts(es: Seq<DebugEntry>) -> Seq<(Seq<char>, Seq<char>)> {
    Seq::new(es.len(), |i: int| (es[i].source@, es[i].message@))
}

impl DebugLog {
    /// The log holds at most `MAX_ENTRIES` entries.
    #[verifier::type_invariant]
    spec fn bounded(self) -> bool {
        self.entries@.len() <= MAX_ENTRIES
    }

    /// The entries, oldest first.
    pub closed spec fn logged(&self) -> Seq<DebugEntry> {
        self.entries@
    }

    /// An empty log whose clock starts now.
    pub fn new() -> (r: DebugLog)
        ensures
            r.logged().len() == 0,
    {
        DebugLog { entries: VecDeque::new(), start: instant_now() }
    }

    /// Append a message; past the bound the oldest entry is dropped.
    pub fn log(&mut self, source: &'static str, message: &str)
        ensures
            final(self).logged().len() == if old(self).logged().len() == MAX_ENTRIES {
                MAX_ENTRIES as nat
            } else {
                old(self).logged().len() + 1
            },
            final(self).logged().drop_last() == if old(self).logged().len() == MAX_ENTRIES {
                old(self).logged().skip(1)
            } else {
                old(self).logged()
            },
            final(self).logged().last().source == source,
            final(self).logged().last().message@ == message@,
            ({
                let all = entry_texts(old(self).logged()).push((source@, message@));
                entry_texts(final(self).logged()) == if all.len() > MAX_ENTRIES {
                    all.skip(1)
                } else {
                    all
                }
            }),
    {
        proof {
            use_type_invariant(&*self);
        }
        let elapsed = elapsed_since(&self.start);
        let ms = whole_millis(&elapsed);
        let elapsed_ms = #[verifier::truncate] (ms as u64);
        let entry = DebugEntry { elapsed_ms, source, message: message.to_string() };
        let ghost before = self.entries@;
        let mut es: VecDeque<DebugEntry> = VecDeque::new();
        std::mem::swap(&mut es, &mut self.entries);
        if es.len() == MAX_ENTRIES {
            es.pop_front();
            assert(entry_texts(es@) =~= entry_texts(before).skip(1));
        }
        let ghost mid = es@;
        assert(mid == if before.len() == MAX_ENTRIES {
            before.skip(1)
        } else {
            before
        });
        es.push_back(entry);
        assert(es@.drop_last() =~= mid);
        assert(entry_texts(es@) =~= entry_texts(mid).push((source@, message@)));
        self.entries = es;
        assert(entry_texts(self.entries@) =~= (if entry_texts(before).push((source@, message@)).len() > MAX_ENTRIES {
            entry_texts(before).push((source@, message@)).skip(1)
        } else {
            entry_texts(before).push((source@, message@))
        }));
    }

    /// The entries, oldest first.
    pub fn entries(&self) -> (r: &VecDeque<DebugEntry>)
        ensures
            r@ == self.logged(),
    {
        &self.entries
    }

    /// Drop every entry.
    pub fn clear(&mut self)
        ensures
            final(self).logged().len() == 0,
    {
        self.entries = VecDeque::new();
    }
}

} // verus!
