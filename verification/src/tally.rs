//! What the counters of a cache say of its history.
//!
//! The three cache tiers count alike. Each call on a cache is one event, and the events
//! since the cache was made or last reset determine the counters and the number of
//! entries: nothing is lost between what was stored, what went and what is there.

use vstd::prelude::*;

use crate::lru;

verus! {

/// The counters that every tier has, and the number of its entries.
pub struct Gauge {
    /// Lookups that found an entry.
    pub hits: u64,
    /// Lookups that found none.
    pub misses: u64,
    /// Entries stored.
    pub inserts: u64,
    /// Entries that were evicted.
    pub evictions: u64,
    /// Entries stored by promotion; zero where a tier has none.
    pub promotions: u64,
    /// Entries stored by promotion from the uncompressed device tier.
    pub crossings: u64,
    /// Number of entries.
    pub entries: nat,
}

/// What a call on a cache was, as its counters see it.
pub enum Event {
    /// A lookup that found an entry.
    Hit,
    /// A lookup that found none.
    Miss,
    /// `stored` entries came and `gone` were evicted.
    Change {
        /// Entries stored.
        stored: nat,
        /// Entries evicted.
        gone: nat,
        /// Those of the entries stored that were promoted.
        promoted: nat,
        /// Those of the entries promoted that came from the uncompressed device tier.
        crossed: nat,
    },
    /// Everything was reset.
    Reset,
}

/// Entries came and went, none of them by promotion.
pub open spec fn change(stored: nat, gone: nat) -> Event {
    Event::Change { stored, gone, promoted: 0, crossed: 0 }
}

/// All counters at zero and no entry.
pub open spec fn zero() -> Gauge {
    Gauge {
        hits: 0,
        misses: 0,
        inserts: 0,
        evictions: 0,
        promotions: 0,
        crossings: 0,
        entries: 0,
    }
}

/// How an event moves the counters. Each counter wraps around.
pub open spec fn moves(a: Gauge, e: Event, b: Gauge) -> bool {
    match e {
        Event::Hit => b == (Gauge { hits: lru::wadd(a.hits, 1), ..a }),
        Event::Miss => b == (Gauge { misses: lru::wadd(a.misses, 1), ..a }),
        Event::Change { stored, gone, promoted, crossed } => {
            &&& crossed <= promoted <= stored
            &&& b.entries == a.entries + stored - gone
            &&& b == (Gauge {
                inserts: lru::wadd(a.inserts, stored as int),
                evictions: lru::wadd(a.evictions, gone as int),
                promotions: lru::wadd(a.promotions, promoted as int),
                crossings: lru::wadd(a.crossings, crossed as int),
                entries: b.entries,
                ..a
            })
        },
        Event::Reset => b == zero(),
    }
}

/// Every entry stored is there or was evicted, counted in 64 bits.
pub open spec fn balanced(g: Gauge) -> bool {
    g.inserts == lru::wadd(g.evictions, g.entries as int)
}

/// Every event keeps the balance.
pub proof fn lemma_keeps_balance(a: Gauge, e: Event, b: Gauge)
    requires
        balanced(a),
        moves(a, e, b),
    ensures
        balanced(b),
{
    match e {
        Event::Change { stored, gone, .. } => {
            lru::lemma_wadd(a.evictions, a.entries as int, stored as int);
            lru::lemma_wadd(a.evictions, gone as int, b.entries as int);
        },
        _ => {},
    }
}

/// Entries stored by the events since the last reset.
pub open spec fn stored_in(es: Seq<Event>) -> nat
    decreases es.len(),
{
    if es.len() == 0 {
        0
    } else {
        match es.last() {
            Event::Reset => 0,
            Event::Change { stored, .. } => stored_in(es.drop_last()) + stored,
            _ => stored_in(es.drop_last()),
        }
    }
}

/// Entries evicted by the events since the last reset.
pub open spec fn gone_in(es: Seq<Event>) -> nat
    decreases es.len(),
{
    if es.len() == 0 {
        0
    } else {
        match es.last() {
            Event::Reset => 0,
            Event::Change { gone, .. } => gone_in(es.drop_last()) + gone,
            _ => gone_in(es.drop_last()),
        }
    }
}

/// Entries promoted by the events since the last reset.
pub open spec fn promoted_in(es: Seq<Event>) -> nat
    decreases es.len(),
{
    if es.len() == 0 {
        0
    } else {
        match es.last() {
            Event::Reset => 0,
            Event::Change { promoted, .. } => promoted_in(es.drop_last()) + promoted,
            _ => promoted_in(es.drop_last()),
        }
    }
}

/// Entries promoted from the uncompressed device tier by the events since the last reset.
pub open spec fn crossed_in(es: Seq<Event>) -> nat
    decreases es.len(),
{
    if es.len() == 0 {
        0
    } else {
        match es.last() {
            Event::Reset => 0,
            Event::Change { crossed, .. } => crossed_in(es.drop_last()) + crossed,
            _ => crossed_in(es.drop_last()),
        }
    }
}

/// Lookups among the events since the last reset that found an entry.
pub open spec fn hits_in(es: Seq<Event>) -> nat
    decreases es.len(),
{
    if es.len() == 0 {
        0
    } else {
        match es.last() {
            Event::Reset => 0,
            Event::Hit => hits_in(es.drop_last()) + 1,
            _ => hits_in(es.drop_last()),
        }
    }
}

/// Lookups among the events since the last reset that found none.
pub open spec fn misses_in(es: Seq<Event>) -> nat
    decreases es.len(),
{
    if es.len() == 0 {
        0
    } else {
        match es.last() {
            Event::Reset => 0,
            Event::Miss => misses_in(es.drop_last()) + 1,
            _ => misses_in(es.drop_last()),
        }
    }
}

/// Lookups among the events since the last reset.
pub open spec fn lookups_in(es: Seq<Event>) -> nat
    decreases es.len(),
{
    if es.len() == 0 {
        0
    } else {
        match es.last() {
            Event::Reset => 0,
            Event::Hit => lookups_in(es.drop_last()) + 1,
            Event::Miss => lookups_in(es.drop_last()) + 1,
            _ => lookups_in(es.drop_last()),
        }
    }
}

/// `gs` are the counters before, between and after the events `es`, from zero on.
pub open spec fn history(gs: Seq<Gauge>, es: Seq<Event>) -> bool {
    &&& gs.len() == es.len() + 1
    &&& gs[0] == zero()
    &&& forall|i: int| 0 <= i < es.len() ==> moves(gs[i], #[trigger] es[i], gs[i + 1])
}

/// Each counter is the number of its events among `es`, in 64 bits. Every entry stored is
/// there or was evicted, the promotions are among the entries stored and the cross-tier
/// promotions among the promotions, and every lookup was a hit or a miss.
pub open spec fn counted(g: Gauge, es: Seq<Event>) -> bool {
    &&& g.hits == lru::wadd(0, hits_in(es) as int)
    &&& g.misses == lru::wadd(0, misses_in(es) as int)
    &&& g.inserts == lru::wadd(0, stored_in(es) as int)
    &&& g.evictions == lru::wadd(0, gone_in(es) as int)
    &&& g.promotions == lru::wadd(0, promoted_in(es) as int)
    &&& g.crossings == lru::wadd(0, crossed_in(es) as int)
    &&& hits_in(es) + misses_in(es) == lookups_in(es)
    &&& stored_in(es) == g.entries + gone_in(es)
    &&& crossed_in(es) <= promoted_in(es) <= stored_in(es)
}

/// What the counters say after the events `es`. As long as fewer than 2^64 entries were
/// stored and 2^64 lookups made since the last reset, they say as they stand that every
/// entry stored is there or was evicted, that promotions are inserts, that cross-tier
/// promotions are promotions, and that every lookup was a hit or a miss.
pub open spec fn accounts(g: Gauge, es: Seq<Event>) -> bool {
    &&& counted(g, es)
    &&& stored_in(es) <= u64::MAX ==> g.inserts == g.entries + g.evictions
    &&& stored_in(es) <= u64::MAX ==> g.crossings <= g.promotions <= g.inserts
    &&& lookups_in(es) <= u64::MAX ==> g.hits + g.misses == lookups_in(es)
}

proof fn lemma_counted_step(a: Gauge, front: Seq<Event>, e: Event, b: Gauge)
    requires
        counted(a, front),
        moves(a, e, b),
    ensures
        counted(b, front.push(e)),
{
    let es = front.push(e);
    assert(es.drop_last() =~= front);
    assert(es.last() == e);
    match e {
        Event::Hit => {
            lru::lemma_wadd(0, hits_in(front) as int, 1);
        },
        Event::Miss => {
            lru::lemma_wadd(0, misses_in(front) as int, 1);
        },
        Event::Change { stored, gone, promoted, crossed } => {
            lru::lemma_wadd(0, stored_in(front) as int, stored as int);
            lru::lemma_wadd(0, gone_in(front) as int, gone as int);
            lru::lemma_wadd(0, promoted_in(front) as int, promoted as int);
            lru::lemma_wadd(0, crossed_in(front) as int, crossed as int);
        },
        Event::Reset => {
            lru::lemma_wadd(0, 0, 0);
        },
    }
}

proof fn lemma_counted(gs: Seq<Gauge>, es: Seq<Event>)
    requires
        history(gs, es),
    ensures
        counted(gs.last(), es),
    decreases es.len(),
{
    if es.len() > 0 {
        let front = es.drop_last();
        let before = gs.drop_last();
        let n = es.len() - 1;
        assert(history(before, front)) by {
            assert forall|i: int| 0 <= i < front.len() implies moves(
                before[i],
                #[trigger] front[i],
                before[i + 1],
            ) by {
                assert(moves(gs[i], es[i], gs[i + 1]));
            }
        }
        lemma_counted(before, front);
        assert(moves(gs[n], es[n], gs[n + 1]));
        assert(before.last() == gs[n]);
        lemma_counted_step(gs[n], front, es[n], gs[n + 1]);
        assert(front.push(es[n]) =~= es);
    }
}

/// What fits is not wrapped.
proof fn lemma_fits(x: int)
    requires
        0 <= x <= u64::MAX,
    ensures
        lru::wadd(0, x) == x,
{
}

/// After every history of events the counters account for it.
pub proof fn lemma_history(gs: Seq<Gauge>, es: Seq<Event>)
    requires
        history(gs, es),
    ensures
        accounts(gs.last(), es),
{
    lemma_counted(gs, es);
    if stored_in(es) <= u64::MAX {
        lemma_fits(stored_in(es) as int);
        lemma_fits(gone_in(es) as int);
        lemma_fits(promoted_in(es) as int);
        lemma_fits(crossed_in(es) as int);
    }
    if lookups_in(es) <= u64::MAX {
        lemma_fits(hits_in(es) as int);
        lemma_fits(misses_in(es) as int);
    }
}

/// Events that store at most one entry each store no more entries than there are events,
/// and no more of them are lookups.
pub proof fn lemma_at_most_one_each(es: Seq<Event>)
    requires
        forall|i: int|
            0 <= i < es.len() ==> ((#[trigger] es[i]) matches Event::Change { stored, .. }
                ==> stored <= 1),
    ensures
        stored_in(es) <= es.len(),
        lookups_in(es) <= es.len(),
    decreases es.len(),
{
    if es.len() > 0 {
        let front = es.drop_last();
        assert forall|i: int| 0 <= i < front.len() implies ((#[trigger] front[i]) matches
            Event::Change { stored, .. } ==> stored <= 1) by {
            assert(front[i] == es[i]);
        }
        lemma_at_most_one_each(front);
        assert(es[es.len() - 1] == es.last());
    }
}

} // verus!
