//! Host-memory tier of the posting-list cache.
//!
//! Caches `(segment, field, term)` to posting list, least recently used entries
//! first to go, under a byte budget.

use std::sync::Arc;
use vstd::prelude::*;

use crate::lru;
use crate::tally;
use crate::wire;
pub use crate::segment_id::SegmentId;

use crate::container::Container;
use crate::lru::{Entry, LruStore};
use crate::postings::RoaringPostings;
use crate::tally::{Event, Gauge};
use crate::wire::to_usize;

verus! {

/// Cache key for a single posting list in a segment.
#[derive(Debug, Clone, Copy, PartialEq, Eq, Hash, Structural)]
pub struct ChtKey {
    /// Segment the posting list belongs to.
    pub segment_id: SegmentId,
    /// Field of the term.
    pub field: u32,
    /// Hash of the term bytes.
    pub term_hash: u64,
}

/// Observable counters of the cache.
#[derive(Debug, Clone, Copy, PartialEq, Eq, Structural)]
pub struct ChtStats {
    /// Cumulative cache hits since construction or the last [`Cht::reset`].
    pub hits: u64,
    /// Cumulative cache misses.
    pub misses: u64,
    /// Cumulative successful insertions; excludes dropped oversized values and
    /// repeated inserts.
    pub inserts: u64,
    /// Cumulative evictions caused by budget pressure.
    pub evictions: u64,
    /// Sum of [`estimated_bytes`] over all cached entries.
    pub current_bytes: u64,
    /// Configured budget ceiling.
    pub budget_bytes: u64,
    /// Number of cached entries.
    pub entries: u64,
}

/// Host-memory cache of posting lists.
pub struct Cht {
    store: LruStore<RoaringPostings>,
    hits: u64,
    misses: u64,
    inserts: u64,
    evictions: u64,
}

/// Default budget when no explicit configuration is provided: 2 GiB.
pub const DEFAULT_CHT_BUDGET_BYTES: u64 = 2_147_483_648;

/// Estimated footprint of one container: 8192 bytes for a bitmap, two bytes per
/// key and 16 for an array, one byte per key (rounded down to a multiple of four)
/// and 16 for runs.
pub open spec fn container_estimate(c: Container) -> nat {
    match c {
        Container::Bitmap(_) => 8192,
        Container::Array(_) => 2 * c@.len() + 16,
        Container::Run(_) => (c@.len() / 4) * 4 + 16,
    }
}

/// Estimated footprint of the first `n` buckets, 8 bytes each besides the
/// container, and 24 for the list itself.
pub open spec fn estimate(cs: Seq<(u16, Container)>, n: int) -> nat
    decreases n,
{
    if n <= 0 {
        24
    } else {
        estimate(cs, n - 1) + 8 + container_estimate(cs[n - 1].1)
    }
}

/// Estimated host-memory footprint of a posting list, in bytes.
///
/// The run estimate takes a quarter of the cardinality for the number of runs: a
/// heuristic, not a tight bound.
pub fn estimated_bytes(rp: &RoaringPostings) -> (r: usize)
    requires
        rp.wf(),
    ensures
        r == wire::clamp_usize(estimate(rp.containers@, rp.containers@.len() as int) as int),
{
    proof {
        rp.lemma_num_buckets();
    }
    let n: usize = rp.containers.len();
    let mut sum: u64 = 24;
    let mut i: usize = 0;
    while i < n
        invariant
            rp.wf(),
            n == rp.containers@.len(),
            n <= 65536,
            i <= n,
            sum == estimate(rp.containers@, i as int),
            sum <= 24 + 200000 * i,
        decreases n - i,
    {
        assert(rp.containers@[i as int].1.wf());
        let size: u64 = match &rp.containers[i].1 {
            Container::Bitmap(_) => 8192,
            Container::Array(a) => 2 * (a.cardinality() as u64) + 16,
            Container::Run(r) => ((r.cardinality() / 4) as u64) * 4 + 16,
        };
        sum = sum + 8 + size;
        i = i + 1;
    }
    to_usize(sum)
}

/// What a posting list costs of the budget.
pub open spec fn cost(rp: RoaringPostings) -> u64 {
    wire::clamp_usize(estimate(rp.containers@, rp.containers@.len() as int) as int) as u64
}

/// The cached list is well formed and charged what it costs.
pub open spec fn charged(e: Entry<RoaringPostings>) -> bool {
    e.value.wf() && e.bytes == cost(e.value)
}

impl Cht {
    /// The store is consistent, every cached list is well formed and charged what it
    /// costs, and every list stored is cached or was evicted.
    pub closed spec fn wf(&self) -> bool {
        &&& self.store.wf()
        &&& forall|i: int| 0 <= i < self.store@.len() ==> charged(#[trigger] self.store@[i])
        &&& tally::balanced(self.gauge())
    }

    /// The cached lists in order of last use, oldest first.
    pub closed spec fn entries(&self) -> Seq<Entry<RoaringPostings>> {
        self.store@
    }

    /// The byte budget.
    pub closed spec fn budget(&self) -> u64 {
        self.store.budget()
    }

    /// Hits, misses, inserts and evictions.
    pub closed spec fn counts(&self) -> (u64, u64, u64, u64) {
        (self.hits, self.misses, self.inserts, self.evictions)
    }

    /// Counters and number of entries.
    pub open spec fn gauge(&self) -> Gauge {
        let (hits, misses, inserts, evictions) = self.counts();
        Gauge {
            hits,
            misses,
            inserts,
            evictions,
            promotions: 0,
            crossings: 0,
            entries: self.entries().len(),
        }
    }

    /// What well-formedness says from outside.
    pub proof fn lemma_wf(&self)
        requires
            self.wf(),
        ensures
            lru::distinct(self.entries()),
            0 <= lru::total(self.entries()) <= self.budget(),
            forall|i: int| 0 <= i < self.entries().len() ==> charged(#[trigger] self.entries()[i]),
            tally::balanced(self.gauge()),
    {
        self.store.lemma_wf();
    }

    /// Construct a fresh cache with the given byte budget.
    pub fn with_budget(budget_bytes: u64) -> (r: Self)
        ensures
            r.wf(),
            r.entries() == Seq::<Entry<RoaringPostings>>::empty(),
            r.budget() == budget_bytes,
            r.counts() == (0u64, 0u64, 0u64, 0u64),
    {
        Cht { store: LruStore::new(budget_bytes), hits: 0, misses: 0, inserts: 0, evictions: 0 }
    }

    /// What a lookup of `key` that finds `found` does.
    pub open spec fn looks_up(
        &self,
        after: &Self,
        key: ChtKey,
        found: Option<RoaringPostings>,
    ) -> bool {
        let s = self.entries();
        let (hits, misses, inserts, evictions) = self.counts();
        match found {
            Some(rp) => {
                &&& lru::held(s, key)
                &&& rp == s[lru::place(s, key)].value
                &&& after.entries() == lru::touched(s, lru::place(s, key))
                &&& after.counts() == (lru::wadd(hits, 1), misses, inserts, evictions)
            },
            None => {
                &&& !lru::held(s, key)
                &&& after.entries() == s
                &&& after.counts() == (hits, lru::wadd(misses, 1), inserts, evictions)
            },
        }
    }

    /// What an insert of `rp` under `key` does.
    pub open spec fn takes(&self, after: &Self, key: ChtKey, rp: RoaringPostings) -> bool {
        let s = self.entries();
        let budget = self.budget() as int;
        let (hits, misses, inserts, evictions) = self.counts();
        if cost(rp) > budget {
            after.entries() == s && after.counts() == self.counts()
        } else if lru::held(s, key) {
            after.entries() == lru::touched(s, lru::place(s, key)) && after.counts()
                == self.counts()
        } else {
            &&& after.entries() == lru::stored(
                s,
                (Entry { key, value: rp, bytes: cost(rp) }),
                budget,
            )
            &&& after.counts() == (
                hits,
                misses,
                lru::wadd(inserts, 1),
                lru::wadd(evictions, lru::shed_count(s, cost(rp) as int, budget)),
            )
        }
    }

    /// Look up a cached posting list. A hit makes the entry the most recently used.
    pub fn get(&mut self, key: &ChtKey) -> (r: Option<Arc<RoaringPostings>>)
        requires
            old(self).wf(),
        ensures
            final(self).wf(),
            final(self).budget() == old(self).budget(),
            r is Some <==> lru::held(old(self).entries(), *key),
            r matches Some(v) ==> v.wf(),
            old(self).looks_up(
                final(self),
                *key,
                match r {
                    Some(v) => Some(*v),
                    None => None,
                },
            ),
    {
        let r: Option<Arc<RoaringPostings>> = self.store.get(key);
        if r.is_some() {
            self.hits = self.hits.wrapping_add(1);
        } else {
            self.misses = self.misses.wrapping_add(1);
        }
        r
    }

    /// Insert a posting list under `key`, evicting the least recently used entries
    /// to fit the budget. A list that alone exceeds the budget is not cached. If
    /// `key` is cached already, its entry becomes the most recently used instead.
    pub fn insert(&mut self, key: ChtKey, value: Arc<RoaringPostings>)
        requires
            old(self).wf(),
            value.wf(),
        ensures
            final(self).wf(),
            final(self).budget() == old(self).budget(),
            old(self).takes(final(self), key, *value),
    {
        let bytes: u64 = estimated_bytes(&value) as u64;
        if bytes > self.store.budget_bytes() {
            return;
        }
        match self.store.find(&key) {
            Some(i) => {
                self.store.touch(i);
            },
            None => {
                let ghost s = self.store@;
                proof {
                    crate::lru::lemma_shed(s, bytes as int, self.store.budget() as int);
                }
                let evicted: u64 = self.store.store(key, value, bytes);
                self.evictions = self.evictions.wrapping_add(evicted);
                self.inserts = self.inserts.wrapping_add(1);
                proof {
                    tally::lemma_keeps_balance(
                        old(self).gauge(),
                        tally::change(1, evicted as nat),
                        self.gauge(),
                    );
                }
            },
        }
    }

    /// Snapshot of the counters.
    pub fn stats(&self) -> (r: ChtStats)
        requires
            self.wf(),
        ensures
            (r.hits, r.misses, r.inserts, r.evictions) == self.counts(),
            r.current_bytes == lru::total(self.entries()),
            r.budget_bytes == self.budget(),
            r.entries == self.entries().len(),
            r.current_bytes <= r.budget_bytes,
            forall|i: int| 0 <= i < self.entries().len() ==> charged(#[trigger] self.entries()[i]),
            r.inserts == lru::wadd(r.evictions, r.entries as int),
    {
        proof {
            self.store.lemma_wf();
        }
        ChtStats {
            hits: self.hits,
            misses: self.misses,
            inserts: self.inserts,
            evictions: self.evictions,
            current_bytes: self.store.current_bytes(),
            budget_bytes: self.store.budget_bytes(),
            entries: self.store.len() as u64,
        }
    }

    /// Reset all state, counters and entries.
    pub fn reset(&mut self)
        ensures
            final(self).wf(),
            final(self).entries() == Seq::<Entry<RoaringPostings>>::empty(),
            final(self).budget() == old(self).budget(),
            final(self).counts() == (0u64, 0u64, 0u64, 0u64),
    {
        self.store.clear();
        self.hits = 0;
        self.misses = 0;
        self.inserts = 0;
        self.evictions = 0;
    }
}

/// A call on the cache.
pub enum ChtCall {
    /// A lookup.
    Get {
        /// What is looked up.
        key: ChtKey,
    },
    /// An insert.
    Insert {
        /// What the list is filed under.
        key: ChtKey,
        /// The list.
        value: RoaringPostings,
    },
    /// A reset.
    Reset,
}

/// `call` takes the cache from `before` to `after`.
pub open spec fn called(before: Cht, call: ChtCall, after: Cht) -> bool {
    &&& after.wf()
    &&& after.budget() == before.budget()
    &&& match call {
        ChtCall::Get { key } => exists|found: Option<RoaringPostings>| #[trigger]
            before.looks_up(&after, key, found),
        ChtCall::Insert { key, value } => before.takes(&after, key, value),
        ChtCall::Reset => after.entries() == Seq::<Entry<RoaringPostings>>::empty()
            && after.counts() == (0u64, 0u64, 0u64, 0u64),
    }
}

/// Lookups among the calls since the last reset.
pub open spec fn lookups_in(calls: Seq<ChtCall>) -> nat
    decreases calls.len(),
{
    if calls.len() == 0 {
        0
    } else {
        match calls.last() {
            ChtCall::Reset => 0,
            ChtCall::Get { key } => lookups_in(calls.drop_last()) + 1,
            ChtCall::Insert { key, value } => lookups_in(calls.drop_last()),
        }
    }
}

/// What a call is to the counters.
pub open spec fn event_of(before: Cht, call: ChtCall) -> Event {
    let s = before.entries();
    let budget = before.budget() as int;
    match call {
        ChtCall::Get { key } => if lru::held(s, key) {
            Event::Hit
        } else {
            Event::Miss
        },
        ChtCall::Insert { key, value } => if cost(value) > budget || lru::held(s, key) {
            tally::change(0, 0)
        } else {
            tally::change(1, lru::shed_count(s, cost(value) as int, budget) as nat)
        },
        ChtCall::Reset => Event::Reset,
    }
}

/// A call moves the counters as its event does.
pub proof fn lemma_call_moves(before: Cht, call: ChtCall, after: Cht)
    requires
        called(before, call, after),
    ensures
        tally::moves(before.gauge(), event_of(before, call), after.gauge()),
{
    let (hits, misses, inserts, evictions) = before.counts();
    lru::lemma_wadd(inserts, 0, 0);
    lru::lemma_wadd(evictions, 0, 0);
    lru::lemma_wadd(0, 0, 0);
    match call {
        ChtCall::Insert { key, value } => {
            lru::lemma_shed_len(
                before.entries(),
                cost(value) as int,
                before.budget() as int,
            );
        },
        _ => {},
    }
}

/// From a fresh cache through any calls: the budget stays what it was, the bytes of the
/// entries are what their lists cost and together within the budget, and no key is
/// cached twice. Every list stored is cached or was evicted, and hits and misses are the
/// lookups since the last reset, counted in 64 bits; below 2^64 calls the counters say
/// so as they stand.
pub proof fn lemma_history(states: Seq<Cht>, calls: Seq<ChtCall>, budget: u64)
    requires
        states.len() == calls.len() + 1,
        states[0].wf(),
        states[0].entries() == Seq::<Entry<RoaringPostings>>::empty(),
        states[0].budget() == budget,
        states[0].counts() == (0u64, 0u64, 0u64, 0u64),
        forall|i: int|
            0 <= i < calls.len() ==> called(states[i], #[trigger] calls[i], states[i + 1]),
    ensures
        ({
            let c = states.last();
            let (hits, misses, inserts, evictions) = c.counts();
            &&& c.budget() == budget
            &&& lru::distinct(c.entries())
            &&& 0 <= lru::total(c.entries()) <= budget
            &&& forall|i: int| 0 <= i < c.entries().len() ==> charged(#[trigger] c.entries()[i])
            &&& inserts == lru::wadd(evictions, c.entries().len() as int)
            &&& lru::wadd(hits, misses as int) == lru::wadd(0, lookups_in(calls) as int)
            &&& calls.len() <= u64::MAX ==> inserts == c.entries().len() + evictions
            &&& calls.len() <= u64::MAX ==> hits + misses == lookups_in(calls)
        }),
{
    let es = Seq::new(calls.len(), |i: int| event_of(states[i], calls[i]));
    let gs = Seq::new(states.len(), |i: int| states[i].gauge());
    assert forall|i: int| 0 <= i < es.len() implies tally::moves(
        gs[i],
        #[trigger] es[i],
        gs[i + 1],
    ) by {
        assert(called(states[i], calls[i], states[i + 1]));
        lemma_call_moves(states[i], calls[i], states[i + 1]);
    }
    tally::lemma_history(gs, es);
    tally::lemma_at_most_one_each(es);
    lemma_lookups(states, calls, es);
    lemma_last_state(states, calls, budget);
    states.last().lemma_wf();
    let h = tally::hits_in(es) as int;
    let m = tally::misses_in(es) as int;
    assert(lru::wadd(states.last().counts().0, states.last().counts().1 as int) == lru::wadd(
        0,
        h + m,
    )) by {
        let k = 0x1_0000_0000_0000_0000int;
        vstd::arithmetic::div_mod::lemma_add_mod_noop(h, m, k);
    }
}

proof fn lemma_last_state(states: Seq<Cht>, calls: Seq<ChtCall>, budget: u64)
    requires
        states.len() == calls.len() + 1,
        states[0].wf(),
        states[0].budget() == budget,
        forall|i: int|
            0 <= i < calls.len() ==> called(states[i], #[trigger] calls[i], states[i + 1]),
    ensures
        states.last().wf(),
        states.last().budget() == budget,
    decreases calls.len(),
{
    if calls.len() > 0 {
        let n = calls.len() - 1;
        let before = states.drop_last();
        let front = calls.drop_last();
        assert forall|i: int| 0 <= i < front.len() implies called(
            before[i],
            #[trigger] front[i],
            before[i + 1],
        ) by {
            assert(called(states[i], calls[i], states[i + 1]));
        }
        lemma_last_state(before, front, budget);
        assert(called(states[n], calls[n], states[n + 1]));
    }
}

/// The lookups among the calls are those among their events.
proof fn lemma_lookups(states: Seq<Cht>, calls: Seq<ChtCall>, es: Seq<Event>)
    requires
        es.len() == calls.len(),
        forall|i: int|
            0 <= i < calls.len() ==> #[trigger] es[i] == event_of(states[i], calls[i]),
    ensures
        lookups_in(calls) == tally::lookups_in(es),
    decreases calls.len(),
{
    if calls.len() > 0 {
        let front = es.drop_last();
        assert forall|i: int| 0 <= i < front.len() implies #[trigger] front[i] == event_of(
            states[i],
            calls.drop_last()[i],
        ) by {
            assert(es[i] == event_of(states[i], calls[i]));
        }
        lemma_lookups(states, calls.drop_last(), front);
        assert(es[es.len() - 1] == event_of(states[calls.len() - 1], calls[calls.len() - 1]));
    }
}

/// Fill an empty cache slot with a cache of the default budget.
pub fn global(slot: &mut Option<Cht>)
    ensures
        *old(slot) is Some ==> *final(slot) == *old(slot),
        *old(slot) is None ==> (*final(slot) matches Some(c) && c.wf() && c.entries() == Seq::<
            Entry<RoaringPostings>,
        >::empty() && c.budget() == DEFAULT_CHT_BUDGET_BYTES && c.counts() == (
            0u64,
            0u64,
            0u64,
            0u64,
        )),
{
    if slot.is_none() {
        *slot = Some(Cht::with_budget(DEFAULT_CHT_BUDGET_BYTES));
    }
}

/// Fill an empty cache slot with a cache of the given budget. Returns whether the
/// slot was empty: the budget is fixed by whoever comes first.
pub fn global_with_budget(slot: &mut Option<Cht>, budget_bytes: u64) -> (r: bool)
    ensures
        r == (*old(slot) is None),
        *old(slot) is Some ==> *final(slot) == *old(slot),
        *old(slot) is None ==> (*final(slot) matches Some(c) && c.wf() && c.entries() == Seq::<
            Entry<RoaringPostings>,
        >::empty() && c.budget() == budget_bytes && c.counts() == (0u64, 0u64, 0u64, 0u64)),
{
    if slot.is_some() {
        return false;
    }
    *slot = Some(Cht::with_budget(budget_bytes));
    true
}

} // verus!
