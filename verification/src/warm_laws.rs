//! What warming a segment brings into the caches.

use vstd::prelude::*;

use crate::cht;
use crate::lru;
use crate::warm;

use crate::cht::ChtKey;
use crate::from_block_segment::BlockSegmentPostings;
use crate::postings::RoaringPostings;
use crate::segment_id::SegmentId;
use crate::vram_cht_v3::{VramCompressedCht, VramCompressedChtError};
use crate::warm::{Tiers, WarmField};

verus! {

/// Fields are warmed that are indexed, do not hold JSON, and whose terms could be read.
pub proof fn lemma_fields_warmed<B>(f: WarmField)
    ensures
        warm::eligible(f) <==> f.indexed && !f.json && f.term_hashes is Some,
        f.term_hashes matches Some(v) ==> warm::hashes(f) == v@,
        f.term_hashes is None ==> warm::hashes(f).len() == 0,
        forall|host: cht::Cht, device: Option<VramCompressedCht<B>>| #[trigger]
            warm::tiers(host, device) == (Tiers { host, device }),
{
}

/// Warming a term that the host tier holds only uses that entry and does not touch the
/// device. Otherwise the term is read once; where the read gives nothing, no entry changes;
/// where it gives a cursor, its documents go into the host tier under the key, and where
/// they fit its budget they are the most recently used entry and a lookup finds them.
pub proof fn lemma_warmed_term_is_cached<
    B,
    R: Fn(usize, usize) -> Option<BlockSegmentPostings>,
    F: Fn(&Vec<u32>, usize, usize) -> Result<(B, usize), VramCompressedChtError>,
>(
    before: Tiers<B>,
    after: Tiers<B>,
    key: ChtKey,
    f: int,
    t: int,
    warmed: bool,
    read: R,
    compress: F,
)
    requires
        before.host.wf(),
        warm::warms_term(before, after, key, f, t, warmed, read, compress),
    ensures
        after.host.wf(),
        after.host.budget() == before.host.budget(),
        forall|i: int|
            #![trigger before.host.entries()[i]]
            0 <= i < before.host.entries().len() && before.host.entries()[i].key == key ==> !warmed
                && after.device == before.device && crate::cache_laws::moved_to_back(
                before.host.entries(),
                i,
                after.host.entries(),
            ),
        (forall|i: int|
            0 <= i < before.host.entries().len() ==> (#[trigger] before.host.entries()[i]).key
                != key) ==> exists|out: Option<BlockSegmentPostings>| #[trigger]
            call_ensures(read, (f as usize, t as usize), out) && match out {
                None => !warmed && after.device == before.device && after.host.entries()
                    == before.host.entries(),
                Some(cursor) => warmed && exists|rp: RoaringPostings|
                    {
                        &&& #[trigger] rp.wf()
                        &&& rp@ == cursor.remaining()
                        &&& cht::cost(rp) <= before.host.budget() ==> after.host.entries().len() > 0
                            && after.host.entries()[after.host.entries().len() - 1].key == key
                            && after.host.entries()[after.host.entries().len() - 1].value == rp
                        &&& cht::cost(rp) > before.host.budget() ==> after.host.entries()
                            == before.host.entries()
                        &&& before.device is None ==> after.device is None
                        &&& before.device matches Some(v) ==> (after.device matches Some(w)
                            && w.same_limits(&v) && exists|promoted: Result<bool, VramCompressedChtError>| #[trigger]
                            v.promotes(&w, key, rp@, compress, promoted))
                    },
            },
{
    let s = before.host.entries();
    lru::lemma_held_place(s, key);
    before.host.lemma_wf();
    if lru::held(s, key) {
        let rp = choose|rp: RoaringPostings| #[trigger]
            before.host.looks_up(&after.host, key, Some(rp));
        crate::cache_laws::lemma_host_lookup(before.host, after.host, key, Some(rp));
        assert(s[lru::place(s, key)].key == key);
    } else {
        let (looked, out) = choose|looked: cht::Cht, out: Option<BlockSegmentPostings>|
            {
                &&& #[trigger] warm::read_gives(read, f, t, out)
                &&& #[trigger] before.host.looks_up(&looked, key, None)
                &&& looked.budget() == before.host.budget()
                &&& warm::warms_read(
                    (Tiers { host: looked, device: before.device }),
                    after,
                    key,
                    out,
                    warmed,
                    compress,
                )
            };
        assert(call_ensures(read, (f as usize, t as usize), out));
        match out {
            None => {},
            Some(cursor) => {
                let from = Tiers { host: looked, device: before.device };
                let (rp, promoted) = choose|
                    rp: RoaringPostings,
                    promoted: Result<bool, VramCompressedChtError>,
                | #[trigger]
                    warm::takes_in(from, after, key, cursor, rp, promoted, compress);
                assert(rp.wf());
                lemma_taken_in(before, from, after, key, cursor, rp, promoted, compress);
            },
        }
    }
}

proof fn lemma_taken_in<
    B,
    F: Fn(&Vec<u32>, usize, usize) -> Result<(B, usize), VramCompressedChtError>,
>(
    before: Tiers<B>,
    from: Tiers<B>,
    after: Tiers<B>,
    key: ChtKey,
    cursor: BlockSegmentPostings,
    rp: RoaringPostings,
    promoted: Result<bool, VramCompressedChtError>,
    compress: F,
)
    requires
        before.host.wf(),
        from.device == before.device,
        before.host.looks_up(&from.host, key, None),
        from.host.budget() == before.host.budget(),
        !lru::held(before.host.entries(), key),
        warm::takes_in(from, after, key, cursor, rp, promoted, compress),
    ensures
        cht::cost(rp) <= before.host.budget() ==> after.host.entries().len() > 0
            && after.host.entries()[after.host.entries().len() - 1].key == key
            && after.host.entries()[after.host.entries().len() - 1].value == rp,
        cht::cost(rp) > before.host.budget() ==> after.host.entries() == before.host.entries(),
        before.device is None ==> after.device is None,
        before.device matches Some(v) ==> (after.device matches Some(w) && w.same_limits(&v)
            && v.promotes(&w, key, rp@, compress, promoted)),
{
    let s = from.host.entries();
    assert(s == before.host.entries());
    if cht::cost(rp) <= before.host.budget() {
        let e = lru::Entry { key, value: rp, bytes: cht::cost(rp) };
        lru::lemma_store_evicts_oldest(s, e, before.host.budget() as int);
    }
}

/// Warming a field goes through its terms in dictionary order, each under the key of its
/// hash, and stops before the last only when ten thousand terms have been warmed.
pub proof fn lemma_field_warms_in_order<
    B,
    R: Fn(usize, usize) -> Option<BlockSegmentPostings>,
    F: Fn(&Vec<u32>, usize, usize) -> Result<(B, usize), VramCompressedChtError>,
>(
    states: Seq<Tiers<B>>,
    counts: Seq<int>,
    segment_id: SegmentId,
    field: WarmField,
    f: int,
    read: R,
    compress: F,
)
    requires
        warm::warms_field(states, counts, segment_id, field, f, read, compress),
    ensures
        exists|warmed: Seq<bool>|
            #![trigger warmed.len()]
            {
                let n = warmed.len() as int;
                let yes = |w: bool| w;
                &&& states.len() == n + 1
                &&& n <= warm::hashes(field).len()
                &&& forall|t: int|
                    0 <= t < n ==> warm::warms_term(
                        states[t],
                        states[t + 1],
                        (ChtKey {
                            segment_id,
                            field: field.field_id,
                            term_hash: warm::hashes(field)[t],
                        }),
                        f,
                        t,
                        #[trigger] warmed[t],
                        read,
                        compress,
                    )
                &&& warmed.filter(yes).len() <= 10_000
                &&& n < warm::hashes(field).len() ==> warmed.filter(yes).len() == 10_000
            },
{
    let n = states.len() - 1;
    let warmed = Seq::new(n as nat, |t: int| counts[t + 1] == counts[t] + 1);
    let yes = |w: bool| w;
    assert forall|t: int| 0 <= t < n implies warm::warms_term(
        states[t],
        states[t + 1],
        (ChtKey { segment_id, field: field.field_id, term_hash: warm::hashes(field)[t] }),
        f,
        t,
        #[trigger] warmed[t],
        read,
        compress,
    ) by {
        assert(warm::field_step(states, counts, segment_id, field, f, t, read, compress));
    }
    assert forall|t: int| 0 <= t < n implies #[trigger] counts[t + 1] == counts[t] || counts[t + 1]
        == counts[t] + 1 by {
        assert(warm::field_step(states, counts, segment_id, field, f, t, read, compress));
    }
    lemma_count_is_filter(counts, warmed, n);
    assert(warmed.take(n) =~= warmed);
    if n > 0 {
        assert(counts[n - 1] < 10_000);
        assert(counts[n - 1 + 1] == counts[n - 1] || counts[n - 1 + 1] == counts[n - 1] + 1);
    }
    assert(warmed.filter(yes).len() == counts[n]);
}

proof fn lemma_count_is_filter(counts: Seq<int>, warmed: Seq<bool>, n: int)
    requires
        0 <= n <= warmed.len(),
        counts.len() == warmed.len() + 1,
        counts[0] == 0,
        forall|t: int|
            0 <= t < warmed.len() ==> #[trigger] warmed[t] == (counts[t + 1] == counts[t] + 1),
        forall|t: int|
            0 <= t < warmed.len() ==> #[trigger] counts[t + 1] == counts[t] || counts[t + 1]
                == counts[t] + 1,
    ensures
        warmed.take(n).filter(|w: bool| w).len() == counts[n],
    decreases n,
{
    reveal(Seq::filter);
    if n > 0 {
        lemma_count_is_filter(counts, warmed, n - 1);
        assert(warmed.take(n).drop_last() =~= warmed.take(n - 1));
        assert(warmed.take(n).last() == warmed[n - 1]);
        assert(counts[n - 1 + 1] == counts[n - 1] || counts[n - 1 + 1] == counts[n - 1] + 1);
    } else {
        assert(warmed.take(0).filter(|w: bool| w).len() == 0);
    }
}

/// Warming a segment goes through all its fields in order; one that is not eligible leaves
/// everything as it is, and an eligible one is warmed from what the fields before it left.
pub proof fn lemma_segment_warms_every_field<
    B,
    R: Fn(usize, usize) -> Option<BlockSegmentPostings>,
    F: Fn(&Vec<u32>, usize, usize) -> Result<(B, usize), VramCompressedChtError>,
>(
    states: Seq<Tiers<B>>,
    segment_id: SegmentId,
    fields: Seq<WarmField>,
    read: R,
    compress: F,
    f: int,
)
    requires
        warm::warms_segment(states, segment_id, fields, read, compress),
        0 <= f < fields.len(),
    ensures
        states.len() == fields.len() + 1,
        !(fields[f].indexed && !fields[f].json && fields[f].term_hashes is Some) ==> states[f + 1]
            == states[f],
        fields[f].indexed && !fields[f].json && fields[f].term_hashes is Some ==> exists|
            inner: Seq<Tiers<B>>,
            counts: Seq<int>,
        | #[trigger]
            warm::warms_field(inner, counts, segment_id, fields[f], f, read, compress) && inner[0]
                == states[f] && inner[inner.len() - 1] == states[f + 1],
{
    assert(warm::field_warmed(
        states[f],
        states[f + 1],
        segment_id,
        fields[f],
        f,
        read,
        compress,
    ));
}

} // verus!
