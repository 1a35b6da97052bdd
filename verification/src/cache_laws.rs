//! What a lookup and an insert do to each tier of the cache, entry by entry.
//!
//! The three tiers share one discipline: entries stand in the order of their last use, a
//! hit moves its entry to the back and no other, and an insert drops entries from the
//! front only, no more than it takes.

use vstd::prelude::*;

use crate::cht;
use crate::lru;
use crate::vram_cht;
use crate::vram_cht_v3;

use crate::cht::{Cht, ChtCall, ChtKey};
use crate::container::Container;
use crate::lru::Entry;
use crate::postings::RoaringPostings;
use crate::shared_bitmap_payload::SharedBitmapPayload;
use crate::vram_cht::{VramCht, VramChtError, VramTermEntry};
use crate::vram_cht_v3::{
    DeviceChunkSlice, VramCompressedCht, VramCompressedChtError, VramCompressedTermEntry,
};

verus! {

/// `t` is `s` with entry `i` moved behind all others, which keep their order.
pub open spec fn moved_to_back<T>(s: Seq<Entry<T>>, i: int, t: Seq<Entry<T>>) -> bool {
    &&& t.len() == s.len()
    &&& t[s.len() - 1] == s[i]
    &&& forall|x: int| 0 <= x < i ==> #[trigger] t[x] == s[x]
    &&& forall|x: int| i <= x < s.len() - 1 ==> #[trigger] t[x] == s[x + 1]
}

/// `t` is `s` without its `gone` oldest entries and with `e` behind the others: as few
/// went as lets all of it fit the budget.
pub open spec fn made_room<T>(
    s: Seq<Entry<T>>,
    gone: int,
    e: Entry<T>,
    budget: int,
    t: Seq<Entry<T>>,
) -> bool {
    let bytes = |sum: int, e: Entry<T>| sum + e.bytes;
    &&& 0 <= gone <= s.len()
    &&& t == s.skip(gone).push(e)
    &&& t.fold_left(0int, bytes) <= budget
    &&& gone > 0 ==> s.skip(gone - 1).fold_left(0int, bytes) + e.bytes > budget
}

proof fn lemma_touched_moves<T>(s: Seq<Entry<T>>, i: int)
    requires
        0 <= i < s.len(),
    ensures
        moved_to_back(s, i, lru::touched(s, i)),
{
    lru::lemma_touch_keeps_order(s, i);
    let t = lru::touched(s, i);
    assert forall|x: int| i <= x < s.len() - 1 implies #[trigger] t[x] == s[x + 1] by {
        assert(t[(x + 1) - 1] == s[x + 1]);
    }
}

proof fn lemma_stored_makes_room<T>(s: Seq<Entry<T>>, e: Entry<T>, budget: int)
    requires
        e.bytes <= budget,
    ensures
        made_room(
            s,
            lru::shed_count(s, e.bytes as int, budget),
            e,
            budget,
            lru::stored(s, e, budget),
        ),
{
    let gone = lru::shed_count(s, e.bytes as int, budget);
    let t = lru::stored(s, e, budget);
    lru::lemma_store_evicts_oldest(s, e, budget);
    assert(t =~= s.skip(gone).push(e));
}

/// The bytes that a cached list is charged: 24, and for each bucket 8 and what its
/// container takes, where a bitmap takes 8192, an array two for each key and a run
/// container four for every fourth key, and the last two 16 more.
pub proof fn lemma_list_cost(rp: RoaringPostings)
    ensures
        ({
            let sum = rp.containers@.fold_left(
                24int,
                |sum: int, b: (u16, Container)|
                    sum + 8 + match b.1 {
                        Container::Bitmap(_) => 8192int,
                        Container::Array(_) => 2 * (b.1@.len() as int) + 16,
                        Container::Run(_) => 4 * (b.1@.len() as int / 4) + 16,
                    },
            );
            &&& cht::cost(rp) == if sum <= usize::MAX {
                sum
            } else {
                usize::MAX as int
            }
            &&& cht::estimate(rp.containers@, rp.containers@.len() as int) == sum
        }),
{
    let step = |sum: int, b: (u16, Container)|
        sum + 8 + match b.1 {
            Container::Bitmap(_) => 8192int,
            Container::Array(_) => 2 * (b.1@.len() as int) + 16,
            Container::Run(_) => 4 * (b.1@.len() as int / 4) + 16,
        };
    let n = rp.containers@.len() as int;
    lemma_estimate_is_sum(rp.containers@, step, n);
    assert(rp.containers@.take(n) =~= rp.containers@);
    assert(rp.containers@.fold_left(24int, step) == rp.containers@.fold_left(
        24int,
        |sum: int, b: (u16, Container)|
            sum + 8 + match b.1 {
                Container::Bitmap(_) => 8192int,
                Container::Array(_) => 2 * (b.1@.len() as int) + 16,
                Container::Run(_) => 4 * (b.1@.len() as int / 4) + 16,
            },
    ));
}

proof fn lemma_estimate_is_sum(
    cs: Seq<(u16, Container)>,
    step: spec_fn(int, (u16, Container)) -> int,
    n: int,
)
    requires
        0 <= n <= cs.len(),
        forall|sum: int, b: (u16, Container)| #[trigger]
            step(sum, b) == sum + 8 + match b.1 {
                Container::Bitmap(_) => 8192int,
                Container::Array(_) => 2 * (b.1@.len() as int) + 16,
                Container::Run(_) => 4 * (b.1@.len() as int / 4) + 16,
            },
    ensures
        cht::estimate(cs, n) == cs.take(n).fold_left(24int, step),
    decreases n,
{
    if n > 0 {
        lemma_estimate_is_sum(cs, step, n - 1);
        assert(cs.take(n).drop_last() =~= cs.take(n - 1));
        assert(cs.take(n).last() == cs[n - 1]);
    }
}

/// A lookup in the host tier finds what is filed under the key, whichever entry that is,
/// moves it to the back and counts a hit. Where nothing is filed under it, it finds nothing,
/// counts a miss and leaves the entries alone.
pub proof fn lemma_host_lookup(before: Cht, after: Cht, key: ChtKey, found: Option<RoaringPostings>)
    requires
        before.wf(),
        before.looks_up(&after, key, found),
    ensures
        forall|i: int|
            #![trigger before.entries()[i]]
            0 <= i < before.entries().len() && before.entries()[i].key == key ==> found
                == Some(before.entries()[i].value) && moved_to_back(
                before.entries(),
                i,
                after.entries(),
            ) && after.counts() == (
                lru::wadd(before.counts().0, 1),
                before.counts().1,
                before.counts().2,
                before.counts().3,
            ),
        (forall|i: int|
            0 <= i < before.entries().len() ==> (#[trigger] before.entries()[i]).key != key)
            ==> found is None && after.entries() == before.entries() && after.counts() == (
            before.counts().0,
            lru::wadd(before.counts().1, 1),
            before.counts().2,
            before.counts().3,
        ),
{
    before.lemma_wf();
    let s = before.entries();
    lru::lemma_held_place(s, key);
    if found is Some {
        let p = lru::place(s, key);
        lemma_touched_moves(s, p);
        assert forall|i: int|
            #![trigger s[i]]
            0 <= i < s.len() && s[i].key == key implies i == p by {}
    }
}

/// A lookup in the device tier finds what is filed under the key, whichever entry that is,
/// moves it to the back and counts a hit. Where nothing is filed under it, or with the kill
/// switch on, it finds nothing, counts a miss and leaves the entries alone.
pub proof fn lemma_device_lookup<B>(
    before: VramCht<B>,
    after: VramCht<B>,
    key: ChtKey,
    found: Option<VramTermEntry<B>>,
)
    requires
        before.wf(),
        before.looks_up(&after, key, found),
    ensures
        forall|i: int|
            #![trigger before.entries()[i]]
            !before.off() && 0 <= i < before.entries().len() && before.entries()[i].key == key
                ==> found == Some(before.entries()[i].value) && moved_to_back(
                before.entries(),
                i,
                after.entries(),
            ) && after.counts() == (vram_cht::VramCounters {
                hits: lru::wadd(before.counts().hits, 1),
                ..before.counts()
            }),
        before.off() || (forall|i: int|
            0 <= i < before.entries().len() ==> (#[trigger] before.entries()[i]).key != key)
            ==> found is None && after.entries() == before.entries() && after.counts()
            == (vram_cht::VramCounters {
                misses: lru::wadd(before.counts().misses, 1),
                ..before.counts()
            }),
{
    before.lemma_wf();
    let s = before.entries();
    lru::lemma_held_place(s, key);
    if found is Some {
        let p = lru::place(s, key);
        lemma_touched_moves(s, p);
        assert forall|i: int|
            #![trigger s[i]]
            0 <= i < s.len() && s[i].key == key implies i == p by {}
    }
}

/// A lookup in the compressed tier finds what is filed under the key, whichever entry that is,
/// moves it to the back and counts a hit. Where nothing is filed under it, or with the kill
/// switch on, it finds nothing, counts a miss and leaves the entries alone.
pub proof fn lemma_compressed_lookup<B>(
    before: VramCompressedCht<B>,
    after: VramCompressedCht<B>,
    key: ChtKey,
    found: Option<VramCompressedTermEntry<B>>,
)
    requires
        before.wf(),
        before.looks_up(&after, key, found),
    ensures
        forall|i: int|
            #![trigger before.entries()[i]]
            !before.off() && 0 <= i < before.entries().len() && before.entries()[i].key == key
                ==> found == Some(before.entries()[i].value) && moved_to_back(
                before.entries(),
                i,
                after.entries(),
            ) && after.counts() == (vram_cht_v3::CompressedCounters {
                hits: lru::wadd(before.counts().hits, 1),
                ..before.counts()
            }),
        before.off() || (forall|i: int|
            0 <= i < before.entries().len() ==> (#[trigger] before.entries()[i]).key != key)
            ==> found is None && after.entries() == before.entries() && after.counts()
            == (vram_cht_v3::CompressedCounters {
                misses: lru::wadd(before.counts().misses, 1),
                ..before.counts()
            }),
{
    before.lemma_wf();
    let s = before.entries();
    lru::lemma_held_place(s, key);
    if found is Some {
        let p = lru::place(s, key);
        lemma_touched_moves(s, p);
        assert forall|i: int|
            #![trigger s[i]]
            0 <= i < s.len() && s[i].key == key implies i == p by {}
    }
}

/// An insert into the host tier stores a list that fits the budget under a new key behind
/// all others, dropping the oldest as far as it must. A list that alone exceeds the budget
/// changes nothing, and one whose key is cached only moves that entry to the back.
pub proof fn lemma_host_insert(before: Cht, after: Cht, key: ChtKey, rp: RoaringPostings)
    requires
        before.wf(),
        before.takes(&after, key, rp),
    ensures
        cht::cost(rp) > before.budget() ==> after.entries() == before.entries() && after.counts()
            == before.counts(),
        forall|i: int|
            #![trigger before.entries()[i]]
            cht::cost(rp) <= before.budget() && 0 <= i < before.entries().len()
                && before.entries()[i].key == key ==> moved_to_back(
                before.entries(),
                i,
                after.entries(),
            ) && after.counts() == before.counts(),
        cht::cost(rp) <= before.budget() && (forall|i: int|
            0 <= i < before.entries().len() ==> (#[trigger] before.entries()[i]).key != key)
            ==> exists|gone: int| #[trigger]
            made_room(
                before.entries(),
                gone,
                (Entry { key, value: rp, bytes: cht::cost(rp) }),
                before.budget() as int,
                after.entries(),
            ) && after.counts() == (
                before.counts().0,
                before.counts().1,
                lru::wadd(before.counts().2, 1),
                lru::wadd(before.counts().3, gone),
            ),
{
    before.lemma_wf();
    let s = before.entries();
    let budget = before.budget() as int;
    lru::lemma_held_place(s, key);
    if lru::held(s, key) {
        lemma_touched_moves(s, lru::place(s, key));
    } else if cht::cost(rp) <= budget {
        let e = Entry { key, value: rp, bytes: cht::cost(rp) };
        lemma_stored_makes_room(s, e, budget);
        assert(made_room(
            s,
            lru::shed_count(s, e.bytes as int, budget),
            e,
            budget,
            after.entries(),
        ));
    }
}

/// What was inserted is found: after a list that fits the budget went in under a new key,
/// a lookup of the key finds that list, and a lookup of another key finds what was there,
/// unless it had to make room.
pub proof fn lemma_host_read_after_write(
    before: Cht,
    mid: Cht,
    after: Cht,
    key: ChtKey,
    rp: RoaringPostings,
    found: Option<RoaringPostings>,
)
    requires
        before.wf(),
        mid.wf(),
        before.takes(&mid, key, rp),
        mid.looks_up(&after, key, found),
        cht::cost(rp) <= before.budget(),
    ensures
        found is Some,
        (forall|i: int|
            0 <= i < before.entries().len() ==> (#[trigger] before.entries()[i]).key != key)
            ==> found == Some(rp),
        forall|i: int|
            #![trigger before.entries()[i]]
            0 <= i < before.entries().len() && before.entries()[i].key == key ==> found == Some(
                before.entries()[i].value,
            ),
{
    lemma_host_insert(before, mid, key, rp);
    lemma_host_lookup(mid, after, key, found);
    let s = before.entries();
    let n = mid.entries().len() - 1;
    lru::lemma_held_place(s, key);
    if lru::held(s, key) {
        let p = lru::place(s, key);
        assert(s[p].key == key);
        assert(mid.entries()[n] == s[p]);
        before.lemma_wf();
    } else {
        assert(mid.entries()[n].key == key);
    }
}

/// An insert into the device tier: of an expansion whose words fit the budget, under a new
/// key and with an upload that gave a buffer, the entry stands behind all others with the
/// bucket index of the expansion and is charged four bytes for each word; the oldest make
/// room as far as they must. What alone exceeds the budget changes nothing, a cached key
/// only moves its entry to the back, and a failed upload changes nothing.
pub proof fn lemma_device_insert<B, U: Fn(&Vec<u32>) -> Result<B, VramChtError>>(
    before: VramCht<B>,
    after: VramCht<B>,
    key: ChtKey,
    p: SharedBitmapPayload,
    docs: Set<u32>,
    upload: U,
    promoted: int,
    r: Result<bool, VramChtError>,
)
    requires
        before.wf(),
        p.expands(docs),
        before.inserts_payload(&after, key, p, upload, promoted, r),
    ensures
        4 * p.staging@.len() > before.budget() ==> r == Ok::<bool, VramChtError>(false)
            && after.entries() == before.entries() && after.counts() == before.counts(),
        forall|i: int|
            #![trigger before.entries()[i]]
            4 * p.staging@.len() <= before.budget() && 0 <= i < before.entries().len()
                && before.entries()[i].key == key ==> r == Ok::<bool, VramChtError>(false)
                && moved_to_back(before.entries(), i, after.entries()) && after.counts()
                == before.counts(),
        4 * p.staging@.len() <= before.budget() && (forall|i: int|
            0 <= i < before.entries().len() ==> (#[trigger] before.entries()[i]).key != key)
            ==> match r {
            Ok(b) => b && exists|gone: int, e: Entry<VramTermEntry<B>>| #[trigger]
                made_room(
                    before.entries(),
                    gone,
                    e,
                    before.budget() as int,
                    after.entries(),
                ) && e.key == key && e.bytes == 4 * p.staging@.len() && e.value.total_words
                    == p.staging@.len() && e.value.bucket_index@ == p.bucket_index@
                    && call_ensures(upload, (&p.staging,), Ok(e.value.d_buckets))
                    && after.counts() == (vram_cht::VramCounters {
                    inserts: lru::wadd(before.counts().inserts, 1),
                    evictions: lru::wadd(before.counts().evictions, gone),
                    promotions: lru::wadd(before.counts().promotions, promoted),
                    ..before.counts()
                }),
            Err(e) => call_ensures(upload, (&p.staging,), Err(e)) && after.entries()
                == before.entries() && after.counts() == before.counts(),
        },
{
    before.lemma_wf();
    let s = before.entries();
    let budget = before.budget() as int;
    lru::lemma_held_place(s, key);
    if 4 * p.staging@.len() > budget {
    } else if lru::held(s, key) {
        lemma_touched_moves(s, lru::place(s, key));
    } else if r is Ok {
        let d = choose|d: B| #[trigger]
            call_ensures(upload, (&p.staging,), Ok(d)) && after.entries() == lru::stored(
                s,
                vram_cht::payload_entry(key, p, d),
                budget,
            );
        let e = vram_cht::payload_entry(key, p, d);
        lemma_stored_makes_room(s, e, budget);
        assert(made_room(
            s,
            lru::shed_count(s, e.bytes as int, budget),
            e,
            budget,
            after.entries(),
        ));
    }
}

/// An insert into the compressed tier: more than 64 chunks of 2048 buckets are refused and
/// nothing changes; a cached key only moves its entry to the back; otherwise the chunks are
/// compressed, a chunk that fails is reported and nothing changes, and where the compressed
/// chunks together fit the budget their entry stands behind all others, the oldest making
/// room as far as they must.
pub proof fn lemma_compressed_insert<
    S,
    B,
    F: Fn(&S, usize, usize) -> Result<(B, usize), VramCompressedChtError>,
>(
    before: VramCompressedCht<B>,
    after: VramCompressedCht<B>,
    key: ChtKey,
    index: Vec<(u16, u32)>,
    src: S,
    compress: F,
    promoted: int,
    crossed: int,
    r: Result<bool, VramCompressedChtError>,
)
    requires
        before.wf(),
        before.compresses(&after, key, index, src, compress, promoted, crossed, r),
    ensures
        index@.len() > 131_072 ==> r == Err::<bool, VramCompressedChtError>(
            VramCompressedChtError::TooManyChunks {
                chunks_needed: ((index@.len() + 2047) / 2048) as usize,
                max: 64,
            },
        ) && after.entries() == before.entries() && after.counts() == before.counts(),
        forall|i: int|
            #![trigger before.entries()[i]]
            index@.len() <= 131_072 && 0 <= i < before.entries().len() && before.entries()[i].key
                == key ==> r == Ok::<bool, VramCompressedChtError>(false) && moved_to_back(
                before.entries(),
                i,
                after.entries(),
            ) && after.counts() == before.counts(),
        index@.len() <= 131_072 && (forall|i: int|
            0 <= i < before.entries().len() ==> (#[trigger] before.entries()[i]).key != key)
            ==> match r {
            Ok(b) => {
                ||| b && exists|gone: int, e: Entry<VramCompressedTermEntry<B>>| #[trigger]
                    made_room(
                        before.entries(),
                        gone,
                        e,
                        before.budget() as int,
                        after.entries(),
                    ) && e.key == key && e.value.bucket_index@ == index@ && e.bytes
                        == e.value.chunks@.fold_left(
                        0int,
                        |sum: int, c: DeviceChunkSlice<B>| sum + c.compressed_bytes,
                    ) && vram_cht_v3::chunks_made(
                        src,
                        index@.len() as int,
                        e.value.chunks@,
                        compress,
                    ) && e.value.chunks@.len() == (index@.len() + 2047) / 2048 && after.counts()
                        == (vram_cht_v3::CompressedCounters {
                        inserts: lru::wadd(before.counts().inserts, 1),
                        evictions: lru::wadd(before.counts().evictions, gone),
                        promotions: lru::wadd(before.counts().promotions, promoted),
                        cross_tier_promotions: lru::wadd(
                            before.counts().cross_tier_promotions,
                            crossed,
                        ),
                        ..before.counts()
                    })
                ||| !b && after.entries() == before.entries() && after.counts() == before.counts()
                    && exists|chunks: Vec<DeviceChunkSlice<B>>| #[trigger]
                    vram_cht_v3::chunks_made(src, index@.len() as int, chunks@, compress)
                        && chunks@.len() == (index@.len() + 2047) / 2048 && chunks@.fold_left(
                        0int,
                        |sum: int, c: DeviceChunkSlice<B>| sum + c.compressed_bytes,
                    ) > before.budget()
            },
            Err(_) => after.entries() == before.entries() && after.counts() == before.counts(),
        },
{
    before.lemma_wf();
    let s = before.entries();
    let budget = before.budget() as int;
    let count = index@.len() as int;
    lru::lemma_held_place(s, key);
    if count > 131_072 {
    } else if lru::held(s, key) {
        lemma_touched_moves(s, lru::place(s, key));
    } else if r is Ok {
        let b = r->Ok_0;
        let chunks = choose|chunks: Vec<DeviceChunkSlice<B>>|
            {
                &&& #[trigger] vram_cht_v3::chunks_made(src, count, chunks@, compress)
                &&& chunks@.len() == vram_cht_v3::chunks_for(count)
                &&& b == (vram_cht_v3::packed_sum(chunks@) <= before.budget())
                &&& b ==> before.stores(
                    &after,
                    vram_cht_v3::chunks_entry(key, index, chunks),
                    promoted,
                    crossed,
                )
                &&& !b ==> before.unchanged(&after)
            };
        crate::chunk_laws::lemma_packed_is_sum(chunks@);
        lemma_packed_nonneg(chunks@);
        if b {
            let e = vram_cht_v3::chunks_entry(key, index, chunks);
            lemma_stored_makes_room(s, e, budget);
            assert(made_room(
                s,
                lru::shed_count(s, e.bytes as int, budget),
                e,
                budget,
                after.entries(),
            ));
        }
    }
}

proof fn lemma_packed_nonneg<B>(chunks: Seq<DeviceChunkSlice<B>>)
    ensures
        0 <= vram_cht_v3::packed_sum(chunks),
    decreases chunks.len(),
{
    if chunks.len() > 0 {
        lemma_packed_nonneg(chunks.drop_last());
    }
}

/// The call uses the entry filed under `key`: it looks the key up, or inserts under it a
/// list that fits the budget.
pub open spec fn uses(call: ChtCall, key: ChtKey, budget: u64) -> bool {
    match call {
        ChtCall::Get { key: k } => k == key,
        ChtCall::Insert { key: k, value } => k == key && cht::cost(value) <= budget,
        ChtCall::Reset => false,
    }
}

/// Of the first `n` calls, some call uses `key`, and from it on none uses `other`: the last
/// use of `key` is more recent.
pub open spec fn used_after(
    calls: Seq<ChtCall>,
    n: int,
    key: ChtKey,
    other: ChtKey,
    budget: u64,
) -> bool {
    exists|b: int|
        0 <= b < n && uses(#[trigger] calls[b], key, budget) && forall|a: int|
            b <= a < n ==> !uses(#[trigger] calls[a], other, budget)
}

/// Through every history of calls the entries stand in the order of their last use: of two
/// entries, the one behind was looked up or inserted after the last such use of the one in
/// front.
pub proof fn lemma_entries_stand_by_last_use(states: Seq<Cht>, calls: Seq<ChtCall>, n: int)
    requires
        states.len() == calls.len() + 1,
        0 <= n <= calls.len(),
        states[0].wf(),
        states[0].entries() == Seq::<Entry<RoaringPostings>>::empty(),
        forall|i: int|
            0 <= i < calls.len() ==> cht::called(states[i], #[trigger] calls[i], states[i + 1]),
    ensures
        states[n].wf(),
        states[n].budget() == states[0].budget(),
        forall|x: int, y: int|
            #![trigger states[n].entries()[x], states[n].entries()[y]]
            0 <= x < y < states[n].entries().len() ==> used_after(
                calls,
                n,
                states[n].entries()[y].key,
                states[n].entries()[x].key,
                states[0].budget(),
            ),
    decreases n,
{
    if n > 0 {
        lemma_entries_stand_by_last_use(states, calls, n - 1);
        let before = states[n - 1];
        let after = states[n];
        let call = calls[n - 1];
        let budget = states[0].budget();
        let s = before.entries();
        let t = after.entries();
        assert(cht::called(states[n - 1], calls[n - 1], states[n - 1 + 1]));
        before.lemma_wf();
        after.lemma_wf();
        match call {
            ChtCall::Get { key } => {
                let found = choose|found: Option<RoaringPostings>| #[trigger]
                    before.looks_up(&after, key, found);
                lemma_host_lookup(before, after, key, found);
                lru::lemma_held_place(s, key);
            },
            ChtCall::Insert { key, value } => {
                lemma_host_insert(before, after, key, value);
                lru::lemma_held_place(s, key);
            },
            ChtCall::Reset => {},
        }
        assert forall|x: int, y: int|
            #![trigger t[x], t[y]]
            0 <= x < y < t.len() implies used_after(calls, n, t[y].key, t[x].key, budget) by {
            assert(t[x].key != t[y].key);
            lemma_use_order_step(calls, n, s, t, before, after, x, y, budget);
        }
    }
}

proof fn lemma_use_order_step(
    calls: Seq<ChtCall>,
    n: int,
    s: Seq<Entry<RoaringPostings>>,
    t: Seq<Entry<RoaringPostings>>,
    before: Cht,
    after: Cht,
    x: int,
    y: int,
    budget: u64,
)
    requires
        0 < n <= calls.len(),
        before.wf(),
        after.wf(),
        s == before.entries(),
        t == after.entries(),
        before.budget() == budget,
        cht::called(before, calls[n - 1], after),
        forall|x: int, y: int|
            #![trigger s[x], s[y]]
            0 <= x < y < s.len() ==> used_after(calls, n - 1, s[y].key, s[x].key, budget),
        0 <= x < y < t.len(),
        t[x].key != t[y].key,
    ensures
        used_after(calls, n, t[y].key, t[x].key, budget),
{
    let call = calls[n - 1];
    before.lemma_wf();
    after.lemma_wf();
    if uses(call, t[y].key, budget) {
        assert(!uses(calls[n - 1], t[x].key, budget));
    } else {
        // The call used neither entry: both stood in this order before.
        let (i, j) = lemma_stood_before(s, t, before, after, call, x, y, budget);
        assert(used_after(calls, n - 1, s[j].key, s[i].key, budget));
        let b = choose|b: int|
            0 <= b < n - 1 && uses(#[trigger] calls[b], s[j].key, budget) && forall|a: int|
                b <= a < n - 1 ==> !uses(#[trigger] calls[a], s[i].key, budget);
        assert forall|a: int| b <= a < n implies !uses(#[trigger] calls[a], t[x].key, budget) by {
            if a == n - 1 {
                assert(!uses(call, t[x].key, budget));
            }
        }
    }
}

proof fn lemma_stood_before(
    s: Seq<Entry<RoaringPostings>>,
    t: Seq<Entry<RoaringPostings>>,
    before: Cht,
    after: Cht,
    call: ChtCall,
    x: int,
    y: int,
    budget: u64,
) -> (at: (int, int))
    requires
        before.wf(),
        after.wf(),
        s == before.entries(),
        t == after.entries(),
        before.budget() == budget,
        cht::called(before, call, after),
        0 <= x < y < t.len(),
        !uses(call, t[y].key, budget),
    ensures
        0 <= at.0 < at.1 < s.len(),
        s[at.0] == t[x],
        s[at.1] == t[y],
        !uses(call, t[x].key, budget),
{
    before.lemma_wf();
    after.lemma_wf();
    match call {
        ChtCall::Get { key } => {
            let found = choose|found: Option<RoaringPostings>| #[trigger]
                before.looks_up(&after, key, found);
            lemma_host_lookup(before, after, key, found);
            lru::lemma_held_place(s, key);
            if lru::held(s, key) {
                let p = lru::place(s, key);
                assert(moved_to_back(s, p, t));
                assert(t[s.len() - 1].key == key);
                lru::lemma_held_place(t, key);
                assert(t[x].key != key);
                (
                    if x < p {
                        x
                    } else {
                        x + 1
                    },
                    if y < p {
                        y
                    } else {
                        y + 1
                    },
                )
            } else {
                assert(t[x].key != key);
                (x, y)
            }
        },
        ChtCall::Insert { key, value } => {
            lemma_host_insert(before, after, key, value);
            lru::lemma_held_place(s, key);
            if cht::cost(value) > budget {
                (x, y)
            } else if lru::held(s, key) {
                let p = lru::place(s, key);
                assert(moved_to_back(s, p, t));
                assert(t[s.len() - 1].key == key);
                lru::lemma_held_place(t, key);
                assert(t[x].key != key);
                (
                    if x < p {
                        x
                    } else {
                        x + 1
                    },
                    if y < p {
                        y
                    } else {
                        y + 1
                    },
                )
            } else {
                let e = Entry { key, value, bytes: cht::cost(value) };
                let gone = choose|gone: int| #[trigger]
                    made_room(s, gone, e, before.budget() as int, t);
                assert(t[t.len() - 1].key == key);
                assert(y < t.len() - 1);
                assert(s[x + gone].key != key);
                (x + gone, y + gone)
            }
        },
        ChtCall::Reset => {
            (x, y)
        },
    }
}

/// What is evicted is older than all that stays: when an insert of a new list makes an
/// entry go, every entry that stays was used after the last use of the one that went.
pub proof fn lemma_evicted_is_oldest(
    states: Seq<Cht>,
    calls: Seq<ChtCall>,
    n: int,
    key: ChtKey,
    value: RoaringPostings,
    x: int,
    y: int,
)
    requires
        states.len() == calls.len() + 1,
        0 <= n < calls.len(),
        states[0].wf(),
        states[0].entries() == Seq::<Entry<RoaringPostings>>::empty(),
        forall|i: int|
            0 <= i < calls.len() ==> cht::called(states[i], #[trigger] calls[i], states[i + 1]),
        calls[n] == (ChtCall::Insert { key, value }),
        0 <= x < states[n].entries().len(),
        0 <= y < states[n].entries().len(),
        !states[n + 1].entries().contains(states[n].entries()[x]),
        states[n + 1].entries().contains(states[n].entries()[y]),
    ensures
        used_after(
            calls,
            n,
            states[n].entries()[y].key,
            states[n].entries()[x].key,
            states[0].budget(),
        ),
{
    lemma_entries_stand_by_last_use(states, calls, n);
    let before = states[n];
    let after = states[n + 1];
    let s = before.entries();
    let t = after.entries();
    assert(cht::called(states[n], calls[n], states[n + 1]));
    lemma_host_insert(before, after, key, value);
    lru::lemma_held_place(s, key);
    before.lemma_wf();
    if cht::cost(value) > before.budget() {
        assert(t[x] == s[x]);
        assert(t.contains(s[x]));
    } else if lru::held(s, key) {
        let p = lru::place(s, key);
        assert(moved_to_back(s, p, t));
        let q = if x < p {
            x
        } else if x == p {
            s.len() - 1
        } else {
            x - 1
        };
        assert(t[q] == s[x]);
        assert(t.contains(s[x]));
    } else {
        let e = Entry { key, value, bytes: cht::cost(value) };
        let gone = choose|gone: int| #[trigger]
            made_room(s, gone, e, before.budget() as int, t);
        if x >= gone {
            assert(t[x - gone] == s[x]);
            assert(t.contains(s[x]));
        }
        let q = choose|q: int| 0 <= q < t.len() && t[q] == s[y];
        if q < t.len() - 1 {
            assert(s[q + gone] == s[y]);
        }
        assert(y >= gone);
        assert(s[x].key != s[y].key);
    }
}

/// What was stored in the device tier is found: a lookup right after an insert that stored
/// its list finds the buffer that uploading the expansion gave, with the bucket index of the
/// expansion; a buffer that holds what was uploaded then holds exactly the documents of the
/// list.
pub proof fn lemma_device_read_after_write<B, U: Fn(&Vec<u32>) -> Result<B, VramChtError>>(
    before: VramCht<B>,
    mid: VramCht<B>,
    after: VramCht<B>,
    key: ChtKey,
    p: SharedBitmapPayload,
    docs: Set<u32>,
    upload: U,
    promoted: int,
    found: Option<VramTermEntry<B>>,
    held: spec_fn(B) -> Seq<u32>,
)
    requires
        before.wf(),
        mid.wf(),
        mid.same_limits(&before),
        !before.off(),
        p.expands(docs),
        before.inserts_payload(
            &mid,
            key,
            p,
            upload,
            promoted,
            Ok::<bool, VramChtError>(true),
        ),
        mid.looks_up(&after, key, found),
        forall|words: Vec<u32>, d: B| #[trigger]
            call_ensures(upload, (&words,), Ok(d)) ==> held(d) == words@,
    ensures
        found is Some,
        ({
            let e = found->0;
            let words = held(e.d_buckets);
            let index = e.bucket_index@;
            &&& words.len() == e.total_words
            &&& words.len() == 2048 * index.len()
            &&& forall|d: u32| #[trigger]
                docs.contains(d) <==> exists|i: int|
                    0 <= i < index.len() && (#[trigger] index[i]).0 == d / 65536 && (words[index[i].1
                        + (d % 65536) as int / 32] >> (d % 32)) & 1u32 == 1u32
        }),
{
    let s = before.entries();
    lemma_device_insert(
        before,
        mid,
        key,
        p,
        docs,
        upload,
        promoted,
        Ok::<bool, VramChtError>(true),
    );
    lru::lemma_held_place(s, key);
    if lru::held(s, key) {
        assert(s[lru::place(s, key)].key == key);
    }
    let (gone, e) = choose|gone: int, e: Entry<VramTermEntry<B>>| #[trigger]
        made_room(s, gone, e, before.budget() as int, mid.entries()) && e.key == key && e.bytes == 4
            * p.staging@.len() && e.value.total_words == p.staging@.len() && e.value.bucket_index@
            == p.bucket_index@ && call_ensures(upload, (&p.staging,), Ok(e.value.d_buckets));
    assert(mid.entries()[mid.entries().len() - 1] == e);
    lemma_device_lookup(mid, after, key, found);
    assert(found == Some(e.value));
    assert(held(e.value.d_buckets) == p.staging@);
    crate::chunk_laws::lemma_expansion_holds_documents(p, docs);
}

/// What was stored in the compressed tier is found: a lookup right after an insert that
/// stored its chunks finds the entry that the insert put behind all others.
pub proof fn lemma_compressed_read_after_write<
    S,
    B,
    F: Fn(&S, usize, usize) -> Result<(B, usize), VramCompressedChtError>,
>(
    before: VramCompressedCht<B>,
    mid: VramCompressedCht<B>,
    after: VramCompressedCht<B>,
    key: ChtKey,
    index: Vec<(u16, u32)>,
    src: S,
    compress: F,
    promoted: int,
    crossed: int,
    found: Option<VramCompressedTermEntry<B>>,
)
    requires
        before.wf(),
        mid.wf(),
        mid.same_limits(&before),
        !before.off(),
        before.compresses(
            &mid,
            key,
            index,
            src,
            compress,
            promoted,
            crossed,
            Ok::<bool, VramCompressedChtError>(true),
        ),
        mid.looks_up(&after, key, found),
    ensures
        mid.entries().len() > 0,
        found == Some(mid.entries()[mid.entries().len() - 1].value),
        found->0.bucket_index@ == index@,
        vram_cht_v3::chunks_made(src, index@.len() as int, found->0.chunks@, compress),
        found->0.chunks@.len() == (index@.len() + 2047) / 2048,
{
    let s = before.entries();
    lemma_compressed_insert(
        before,
        mid,
        key,
        index,
        src,
        compress,
        promoted,
        crossed,
        Ok::<bool, VramCompressedChtError>(true),
    );
    lru::lemma_held_place(s, key);
    if lru::held(s, key) {
        assert(s[lru::place(s, key)].key == key);
    }
    let (gone, e) = choose|gone: int, e: Entry<VramCompressedTermEntry<B>>| #[trigger]
        made_room(s, gone, e, before.budget() as int, mid.entries()) && e.key == key
            && e.value.bucket_index@ == index@ && vram_cht_v3::chunks_made(
            src,
            index@.len() as int,
            e.value.chunks@,
            compress,
        ) && e.value.chunks@.len() == (index@.len() + 2047) / 2048;
    assert(mid.entries()[mid.entries().len() - 1] == e);
    lemma_compressed_lookup(mid, after, key, found);
}

} // verus!
