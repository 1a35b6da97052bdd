//! Uncompressed device-memory tier of the posting-list cache.
//!
//! Each cached term holds all its non-empty buckets in dense form, stacked in one
//! device buffer, so that a warm query neither expands containers nor copies them
//! to the device. The cache itself only does bookkeeping: `B` is whatever stands
//! for a device buffer, and the calls that fill one or copy one back are handed in.

use std::sync::Arc;
use vstd::prelude::*;

use crate::kill_switch;
use crate::lru;
use crate::persist;
use crate::tally;
use crate::vram_record;
use crate::wire;

use crate::cht::ChtKey;
use crate::kill_switch::first_answer;
use crate::lru::{Entry, LruStore, Slot};
use crate::persist::{
    read_and_validate_file_header, read_and_validate_file_trailer, write_chtkey,
    write_file_header, write_file_trailer, write_index, ByteReader, DumpError, LoadError,
    MAGIC_V2,
};
use crate::postings::RoaringPostings;
use crate::shared_bitmap_payload::SharedBitmapPayload;
use crate::tally::{Event, Gauge};
use crate::vram_record::{decode_words, push_word_bytes, read_record, RecordView, VramRecord};
use crate::wire::push_u64;
use crate::BITMAP_CONTAINER_WORDS;

verus! {

/// Failures of the device-memory paths.
#[derive(Debug, Clone, Copy, PartialEq, Eq, Structural)]
pub enum VramChtError {
    /// The device allocation failed.
    Malloc {
        /// Bytes the allocation requested.
        bytes: usize,
        /// Raw device error code.
        code: u32,
    },
    /// The host-to-device copy failed.
    Memcpy {
        /// Bytes the copy attempted.
        bytes: usize,
        /// Raw device error code.
        code: u32,
    },
}

/// One cached posting list, stored on the device.
///
/// `bucket_index[i] = (high16, word_offset)` records the key of bucket `i` and where
/// its 2048 words start within the device buffer, in `u32` units.
pub struct VramTermEntry<B> {
    /// Device buffer of `total_words` words.
    pub d_buckets: B,
    /// `(high16, word_offset)` of each bucket.
    pub bucket_index: Vec<(u16, u32)>,
    /// Words in the device buffer: 2048 for each bucket.
    pub total_words: usize,
}

impl<B> VramTermEntry<B> {
    /// The buffer has 2048 words for each bucket.
    pub open spec fn wf(&self) -> bool {
        &&& self.total_words == 2048 * self.bucket_index@.len()
        &&& self.bucket_index@.len() <= u32::MAX
        &&& 4 * self.total_words <= usize::MAX
    }

    /// Number of buckets cached.
    pub fn bucket_count(&self) -> (r: usize)
        ensures
            r == self.bucket_index@.len(),
    {
        self.bucket_index.len()
    }

    /// Words in the device buffer.
    pub fn total_words(&self) -> (r: usize)
        ensures
            r == self.total_words,
    {
        self.total_words
    }

    /// Bytes in the device buffer.
    pub fn total_bytes(&self) -> (r: usize)
        requires
            self.wf(),
        ensures
            r == 4 * self.total_words,
    {
        self.total_words * 4
    }

    /// The `(high16, word_offset)` pairs.
    pub fn bucket_index(&self) -> (r: &[(u16, u32)])
        ensures
            r@ == self.bucket_index@,
    {
        self.bucket_index.as_slice()
    }

    /// The device buffer.
    pub fn device_ptr(&self) -> (r: &B)
        ensures
            *r == self.d_buckets,
    {
        &self.d_buckets
    }
}

/// Observable counters of the device tier.
#[derive(Debug, Clone, Copy, PartialEq, Eq, Structural)]
pub struct VramChtStats {
    /// Cumulative cache hits.
    pub hits: u64,
    /// Cumulative cache misses.
    pub misses: u64,
    /// Cumulative successful insertions.
    pub inserts: u64,
    /// Cumulative evictions caused by budget pressure.
    pub evictions: u64,
    /// Those of the insertions that moved a term up from the host tier.
    pub promotions: u64,
    /// Bytes of all cached entries.
    pub current_bytes: u64,
    /// Configured budget ceiling.
    pub budget_bytes: u64,
    /// Number of cached entries.
    pub entries: u64,
}

/// Events counted since construction or the last reset. Each counter wraps around.
#[derive(Debug, Clone, Copy, PartialEq, Eq, Structural)]
pub struct VramCounters {
    /// Lookups that found an entry.
    pub hits: u64,
    /// Lookups that found none.
    pub misses: u64,
    /// Entries stored.
    pub inserts: u64,
    /// Entries that made room for others.
    pub evictions: u64,
    /// Entries stored by promotion.
    pub promotions: u64,
}

/// Device-memory cache of posting lists in dense form.
pub struct VramCht<B> {
    store: LruStore<VramTermEntry<B>>,
    disabled: bool,
    counters: VramCounters,
}

/// Default budget when no explicit configuration is provided: 4 GiB.
pub const DEFAULT_VRAM_CHT_BUDGET_BYTES: u64 = 4_294_967_296;

/// All counters at zero.
pub open spec fn no_events() -> VramCounters {
    VramCounters { hits: 0, misses: 0, inserts: 0, evictions: 0, promotions: 0 }
}

/// The entry that holds a payload in the device buffer `d`.
pub open spec fn payload_entry<B>(key: ChtKey, p: SharedBitmapPayload, d: B) -> Entry<
    VramTermEntry<B>,
> {
    Entry {
        key,
        value: VramTermEntry {
            d_buckets: d,
            bucket_index: p.bucket_index,
            total_words: p.total_words,
        },
        bytes: (4 * p.total_words) as u64,
    }
}

impl<B> VramCht<B> {
    /// The store is consistent and every entry is charged for its device buffer,
    /// and every entry stored is cached or was evicted.
    pub closed spec fn wf(&self) -> bool {
        &&& self.store.wf()
        &&& forall|i: int| 0 <= i < self.store@.len() ==> charged(#[trigger] self.store@[i])
        &&& tally::balanced(self.gauge())
    }

    /// The cached terms in order of last use, oldest first.
    pub closed spec fn entries(&self) -> Seq<Entry<VramTermEntry<B>>> {
        self.store@
    }

    /// The byte budget.
    pub closed spec fn budget(&self) -> u64 {
        self.store.budget()
    }

    /// The kill switch is on.
    pub closed spec fn off(&self) -> bool {
        self.disabled
    }

    /// The events counted.
    pub closed spec fn counts(&self) -> VramCounters {
        self.counters
    }

    /// Budget and kill switch are those of `other`.
    pub open spec fn same_limits(&self, other: &Self) -> bool {
        self.budget() == other.budget() && self.off() == other.off()
    }

    /// Counters and number of entries.
    pub open spec fn gauge(&self) -> Gauge {
        let c = self.counts();
        Gauge {
            hits: c.hits,
            misses: c.misses,
            inserts: c.inserts,
            evictions: c.evictions,
            promotions: c.promotions,
            crossings: 0,
            entries: self.entries().len(),
        }
    }

    /// The event `e` takes this cache to `after`, within the same limits.
    pub open spec fn follows(&self, e: Event, after: &Self) -> bool {
        after.same_limits(self) && tally::moves(self.gauge(), e, after.gauge())
    }

    /// What well-formedness says from outside.
    pub proof fn lemma_wf(&self)
        requires
            self.wf(),
        ensures
            lru::distinct(self.entries()),
            0 <= lru::total(self.entries()) <= self.budget(),
            forall|i: int| 0 <= i < self.entries().len() ==> charged(#[trigger] self.entries()[i]),
            tally::balanced(self.gauge()),
    {
        self.store.lemma_wf();
    }

    /// Construct a fresh cache with the given byte budget. `disabled` is the answer of
    /// the kill switch: where it is on, lookups miss and nothing is inserted.
    pub fn with_budget(budget_bytes: u64, disabled: bool) -> (r: Self)
        ensures
            r.wf(),
            r.entries() == Seq::<Entry<VramTermEntry<B>>>::empty(),
            r.budget() == budget_bytes,
            r.off() == disabled,
            r.counts() == no_events(),
    {
        VramCht {
            store: LruStore::new(budget_bytes),
            disabled,
            counters: VramCounters { hits: 0, misses: 0, inserts: 0, evictions: 0, promotions: 0 },
        }
    }

    /// What a lookup of `key` that finds `found` does.
    pub open spec fn looks_up(
        &self,
        after: &Self,
        key: ChtKey,
        found: Option<VramTermEntry<B>>,
    ) -> bool {
        let s = self.entries();
        let c = self.counts();
        match found {
            Some(v) => {
                &&& !self.off() && lru::held(s, key)
                &&& v == s[lru::place(s, key)].value
                &&& after.entries() == lru::touched(s, lru::place(s, key))
                &&& after.counts() == (VramCounters { hits: lru::wadd(c.hits, 1), ..c })
            },
            None => {
                &&& self.off() || !lru::held(s, key)
                &&& after.entries() == s
                &&& after.counts() == (VramCounters { misses: lru::wadd(c.misses, 1), ..c })
            },
        }
    }

    /// Look up a cached term. A hit makes the entry the most recently used. With the
    /// kill switch on, every lookup is a miss.
    pub fn get(&mut self, key: &ChtKey) -> (r: Option<Arc<VramTermEntry<B>>>)
        requires
            old(self).wf(),
        ensures
            final(self).wf(),
            final(self).same_limits(old(self)),
            r is Some <==> !old(self).off() && lru::held(old(self).entries(), *key),
            r matches Some(v) ==> v.wf(),
            old(self).looks_up(
                final(self),
                *key,
                match r {
                    Some(v) => Some(*v),
                    None => None,
                },
            ),
    {
        if self.disabled {
            self.counters.misses = self.counters.misses.wrapping_add(1);
            return None;
        }
        let r: Option<Arc<VramTermEntry<B>>> = self.store.get(key);
        if r.is_some() {
            self.counters.hits = self.counters.hits.wrapping_add(1);
        } else {
            self.counters.misses = self.counters.misses.wrapping_add(1);
        }
        r
    }

    /// What inserting the expansion `p` under `key` does, and what it returns.
    /// `promoted` is what a stored entry adds to the promotions.
    pub open spec fn inserts_payload<U: Fn(&Vec<u32>) -> Result<B, VramChtError>>(
        &self,
        after: &Self,
        key: ChtKey,
        p: SharedBitmapPayload,
        upload: U,
        promoted: int,
        r: Result<bool, VramChtError>,
    ) -> bool {
        let s = self.entries();
        let c = self.counts();
        if 4 * p.total_words > self.budget() {
            r == Ok::<bool, VramChtError>(false) && after.entries() == s && after.counts() == c
        } else if lru::held(s, key) {
            r == Ok::<bool, VramChtError>(false) && after.entries() == lru::touched(
                s,
                lru::place(s, key),
            ) && after.counts() == c
        } else {
            match r {
                Err(e) => call_ensures(upload, (&p.staging,), Err(e)) && after.entries() == s
                    && after.counts() == c,
                Ok(b) => b && exists|d: B| #[trigger]
                    call_ensures(upload, (&p.staging,), Ok(d)) && after.entries() == lru::stored(
                        s,
                        payload_entry(key, p, d),
                        self.budget() as int,
                    ) && after.counts() == (VramCounters {
                        inserts: lru::wadd(c.inserts, 1),
                        evictions: lru::wadd(
                            c.evictions,
                            lru::shed_count(s, 4 * p.total_words, self.budget() as int),
                        ),
                        promotions: lru::wadd(c.promotions, promoted),
                        ..c
                    }),
            }
        }
    }

    /// Expand a posting list, upload it and cache it under `key`, evicting the least
    /// recently used entries to fit the budget.
    ///
    /// `Ok(true)` when the entry was stored; `Ok(false)` when the kill switch is on,
    /// the list is empty, it alone exceeds the budget, or `key` is cached already
    /// (which then becomes the most recently used). When the upload fails, its error
    /// is returned and nothing changes.
    pub fn insert<U: Fn(&Vec<u32>) -> Result<B, VramChtError>>(
        &mut self,
        key: ChtKey,
        roaring: &RoaringPostings,
        upload: &U,
    ) -> (r: Result<bool, VramChtError>)
        requires
            old(self).wf(),
            roaring.wf(),
            forall|words: &Vec<u32>| #[trigger] call_requires(*upload, (words,)),
        ensures
            final(self).wf(),
            final(self).same_limits(old(self)),
            old(self).off() || roaring@.len() == 0 ==> r == Ok::<bool, VramChtError>(false)
                && final(self).entries() == old(self).entries() && final(self).counts() == old(
                self,
            ).counts(),
            !old(self).off() && roaring@.len() > 0 ==> exists|p: SharedBitmapPayload| #[trigger]
                p.expands(roaring@) && old(self).inserts_payload(final(self), key, p, *upload, 0, r),
    {
        if self.disabled {
            return Ok(false);
        }
        let p: SharedBitmapPayload = match SharedBitmapPayload::from_postings(roaring) {
            None => {
                return Ok(false);
            },
            Some(p) => p,
        };
        let ghost q = p;
        let bytes: u64 = p.total_bytes() as u64;
        if bytes > self.store.budget_bytes() {
            assert(q.expands(roaring@));
            return Ok(false);
        }
        match self.store.find(&key) {
            Some(i) => {
                self.store.touch(i);
                assert(q.expands(roaring@));
                return Ok(false);
            },
            None => {},
        }
        let d_buckets: B = match upload(&p.staging) {
            Ok(d) => d,
            Err(e) => {
                assert(q.expands(roaring@));
                return Err(e);
            },
        };
        let ghost d = d_buckets;
        let entry: VramTermEntry<B> = VramTermEntry {
            d_buckets,
            bucket_index: p.bucket_index,
            total_words: p.total_words,
        };
        self.install_entry(key, entry, bytes);
        proof {
            assert(q.expands(roaring@));
            assert(call_ensures(*upload, (&q.staging,), Ok(d)));
        }
        Ok(true)
    }

    /// Insert, and count a stored entry as a promotion from the host tier.
    pub fn promote<U: Fn(&Vec<u32>) -> Result<B, VramChtError>>(
        &mut self,
        key: ChtKey,
        roaring: &RoaringPostings,
        upload: &U,
    ) -> (r: Result<bool, VramChtError>)
        requires
            old(self).wf(),
            roaring.wf(),
            forall|words: &Vec<u32>| #[trigger] call_requires(*upload, (words,)),
        ensures
            final(self).wf(),
            final(self).same_limits(old(self)),
            old(self).off() || roaring@.len() == 0 ==> r == Ok::<bool, VramChtError>(false)
                && final(self).entries() == old(self).entries() && final(self).counts() == old(
                self,
            ).counts(),
            !old(self).off() && roaring@.len() > 0 ==> exists|p: SharedBitmapPayload| #[trigger]
                p.expands(roaring@) && old(self).inserts_payload(final(self), key, p, *upload, 1, r),
    {
        let r: Result<bool, VramChtError> = self.insert(key, roaring, upload);
        let ghost mid = *self;
        match r {
            Ok(true) => {
                self.counters.promotions = self.counters.promotions.wrapping_add(1);
            },
            _ => {},
        }
        proof {
            if !old(self).off() && roaring@.len() > 0 {
                let p = choose|p: SharedBitmapPayload| #[trigger]
                    p.expands(roaring@) && old(self).inserts_payload(&mid, key, p, *upload, 0, r);
                assert(p.expands(roaring@));
                assert(old(self).inserts_payload(self, key, p, *upload, 1, r));
            }
        }
        r
    }

    /// Snapshot of the counters.
    pub fn stats(&self) -> (r: VramChtStats)
        requires
            self.wf(),
        ensures
            (VramCounters {
                hits: r.hits,
                misses: r.misses,
                inserts: r.inserts,
                evictions: r.evictions,
                promotions: r.promotions,
            }) == self.counts(),
            r.current_bytes == lru::total(self.entries()),
            r.budget_bytes == self.budget(),
            r.entries == self.entries().len(),
            r.current_bytes <= r.budget_bytes,
            forall|i: int| 0 <= i < self.entries().len() ==> charged(#[trigger] self.entries()[i]),
            r.inserts == lru::wadd(r.evictions, r.entries as int),
    {
        proof {
            self.store.lemma_wf();
        }
        VramChtStats {
            hits: self.counters.hits,
            misses: self.counters.misses,
            inserts: self.counters.inserts,
            evictions: self.counters.evictions,
            promotions: self.counters.promotions,
            current_bytes: self.store.current_bytes(),
            budget_bytes: self.store.budget_bytes(),
            entries: self.store.len() as u64,
        }
    }

    /// Reset all state, counters and entries.
    pub fn reset(&mut self)
        ensures
            final(self).wf(),
            final(self).same_limits(old(self)),
            final(self).entries() == Seq::<Entry<VramTermEntry<B>>>::empty(),
            final(self).counts() == no_events(),
    {
        self.store.clear();
        self.counters =
        VramCounters { hits: 0, misses: 0, inserts: 0, evictions: 0, promotions: 0 };
    }

    /// Budget configured at construction.
    pub fn budget_bytes(&self) -> (r: u64)
        ensures
            r == self.budget(),
    {
        self.store.budget_bytes()
    }

    /// What a dump returns: `ws` are what the downloads gave, up to the first that
    /// failed.
    pub open spec fn dumps<D: Fn(&B, usize) -> Result<Vec<u32>, u32>>(
        &self,
        download: D,
        ws: Seq<Vec<u32>>,
        r: Result<(Vec<u8>, u64), DumpError>,
    ) -> bool {
        let s = self.entries();
        &&& downloads(s, ws, download)
        &&& match r {
            Ok((bytes, n)) => n == s.len() && ws.len() == n && bytes@ == vram_record::dump_bytes(
                records_of(s, ws),
            ),
            Err(DumpError::Cuda { entry_index, bytes, code }) => ws.len() < s.len() && entry_index
                == ws.len() && bytes == 4 * s[ws.len() as int].value.total_words && download_fails(
                s[ws.len() as int].value,
                code,
                download,
            ),
        }
    }

    /// Write every entry, oldest first, in dump form. `download` copies a device
    /// buffer of the given number of words back to the host. Returns the bytes and the
    /// number of entries; the first download that fails is reported.
    pub fn dump_to_bytes<D: Fn(&B, usize) -> Result<Vec<u32>, u32>>(&self, download: &D) -> (r: Result<
        (Vec<u8>, u64),
        DumpError,
    >)
        requires
            self.wf(),
            forall|b: &B, n: usize| #[trigger] call_requires(*download, (b, n)),
            forall|b: &B, n: usize, w: Vec<u32>| #[trigger]
                call_ensures(*download, (b, n), Ok(w)) ==> w@.len() == n,
        ensures
            exists|ws: Seq<Vec<u32>>| #[trigger] self.dumps(*download, ws, r),
    {
        let n: usize = self.store.len();
        let ghost s = self.store@;
        let ghost mut ws = Seq::<Vec<u32>>::empty();
        let mut out: Vec<u8> = Vec::new();
        write_file_header(&mut out, MAGIC_V2, n as u64);
        let ghost front = persist::header_bytes(MAGIC_V2, n as u64);
        let mut i: usize = 0;
        proof {
            assert(records_of(s, ws) =~= Seq::empty());
            assert(out@ =~= front + vram_record::records_bytes(records_of(s, ws)));
        }
        while i < n
            invariant
                self.wf(),
                s == self.store@,
                n == s.len(),
                i <= n,
                ws.len() == i,
                forall|b: &B, n: usize| #[trigger] call_requires(*download, (b, n)),
                forall|b: &B, n: usize, w: Vec<u32>| #[trigger]
                    call_ensures(*download, (b, n), Ok(w)) ==> w@.len() == n,
                downloads(s, ws, *download),
                out@ == front + vram_record::records_bytes(records_of(s, ws)),
            decreases n - i,
        {
            let slot: &Slot<VramTermEntry<B>> = self.store.slot(i);
            let entry: &VramTermEntry<B> = &slot.value;
            assert(charged(s[i as int]));
            assert(*entry == s[i as int].value);
            let words: Vec<u32> = match download(&entry.d_buckets, entry.total_words) {
                Ok(w) => w,
                Err(code) => {
                    let e: DumpError = DumpError::Cuda {
                        entry_index: i as u64,
                        bytes: entry.total_bytes(),
                        code,
                    };
                    assert(self.dumps(*download, ws, Err(e)));
                    return Err(e);
                },
            };
            let ghost before = out@;
            write_chtkey(&mut out, &slot.key);
            write_index(&mut out, &entry.bucket_index);
            push_u64(&mut out, entry.total_bytes() as u64);
            push_word_bytes(&mut out, &words);
            proof {
                let r = record_of(s[i as int], words@);
                let old_records = records_of(s, ws);
                let old_ws = ws;
                ws = ws.push(words);
                assert(wire::enc32(words@).len() == 4 * words@.len());
                assert(out@ =~= before + vram_record::record_bytes(r));
                assert(records_of(s, ws) =~= old_records.push(r));
                vram_record::lemma_records_push(old_records, r);
                wire::lemma_assoc(
                    front,
                    vram_record::records_bytes(old_records),
                    vram_record::record_bytes(r),
                );
                assert forall|j: int| 0 <= j < ws.len() implies #[trigger] download_gives(
                    s[j].value,
                    ws[j],
                    *download,
                ) by {
                    if j < old_ws.len() {
                        assert(download_gives(s[j].value, old_ws[j], *download));
                    }
                }
            }
            i = i + 1;
        }
        write_file_trailer(&mut out);
        assert(self.dumps(*download, ws, Ok((out, n as u64))));
        Ok((out, n as u64))
    }

    /// Install the entries of a dump, in order. `upload` fills a device buffer.
    ///
    /// A record whose index does not account for its words, whose upload fails, that
    /// exceeds the budget, or whose key is cached already is skipped. An unsound dump
    /// is an error; the records in front of the fault stay installed. When the dump is
    /// sound and has records, and the upload of every one of them fails, the failure
    /// of the last is the error, and the cache is unchanged.
    pub fn load_from_bytes<U: Fn(&Vec<u32>) -> Result<B, VramChtError>>(
        &mut self,
        bytes: &[u8],
        upload: &U,
    ) -> (r: Result<u64, LoadError>)
        requires
            old(self).wf(),
            forall|words: &Vec<u32>| #[trigger] call_requires(*upload, (words,)),
        ensures
            final(self).wf(),
            final(self).same_limits(old(self)),
            exists|recs: Seq<VramRecord>, outs: Seq<Option<B>>| #[trigger]
                old(self).loads(final(self), bytes@, *upload, recs, outs, r),
    {
        let ghost start = *self;
        let ghost mut recs = Seq::<VramRecord>::empty();
        let ghost mut outs = Seq::<Option<B>>::empty();
        let ghost s = self.entries();
        let ghost c = self.counts();
        let ghost budget = self.budget() as int;
        let mut reader: ByteReader<'_> = ByteReader::new(bytes);
        proof {
            lru::lemma_wadd(c.inserts, 0, 0);
            lru::lemma_wadd(c.evictions, 0, 0);
            assert(record_views(recs) =~= Seq::empty());
        }
        let n: u64 = match read_and_validate_file_header(&mut reader, MAGIC_V2) {
            Ok(n) => n,
            Err(e) => {
                proof {
                    assert(start.loads(self, bytes@, *upload, recs, outs, Err(e)));
                }
                return Err(e);
            },
        };
        let ghost b = bytes@.skip(24);
        let mut loaded: u64 = 0;
        let mut spared: bool = false;
        let mut last: Option<(usize, u32)> = None;
        let mut i: u64 = 0;
        proof {
            let (rest_records, out) = vram_record::parse_records(b, 0, n as int);
            assert(record_views(recs) + rest_records =~= rest_records);
        }
        while i < n
            invariant
                self.wf(),
                start == *old(self),
                self.same_limits(&start),
                reader.wf(),
                forall|words: &Vec<u32>| #[trigger] call_requires(*upload, (words,)),
                s == start.entries(),
                c == start.counts(),
                budget == start.budget(),
                b == bytes@.skip(24),
                persist::parse_header(bytes@, seq![MAGIC_V2]) == Ok::<(u32, u64), LoadError>(
                    (MAGIC_V2, n),
                ),
                i <= n,
                recs.len() == i,
                outs.len() == i,
                uploads(recs, outs, *upload),
                start.after_install(self, recs, outs),
                loaded == installed(s, recs, outs, budget, i as int).1,
                loaded <= i,
                spared == !all_lost(recs, outs),
                i == 0 ==> last is None,
                !spared && i > 0 ==> (last matches Some((bytes, code)) && upload_failed::<B, U>(
                    recs[i - 1],
                    bytes,
                    code,
                    *upload,
                )),
                ({
                    let (rest_records, out) = vram_record::parse_records(
                        reader.rest(),
                        i as int,
                        n as int,
                    );
                    vram_record::parse_records(b, 0, n as int) == (
                        record_views(recs) + rest_records,
                        out,
                    )
                }),
            decreases n - i,
        {
            let ghost rest0 = reader.rest();
            let record: VramRecord = match read_record(&mut reader, i) {
                Ok(r) => r,
                Err(e) => {
                    proof {
                        assert(record_views(recs) + Seq::empty() =~= record_views(recs));
                        assert(start.loads(self, bytes@, *upload, recs, outs, Err(e)));
                    }
                    return Err(e);
                },
            };
            let ghost rec = record;
            let ghost mid = *self;
            let stored: Result<bool, VramChtError> = self.install_record(record, upload);
            proof {
                let out = choose|out: Option<B>| #[trigger]
                    uploaded(rec, out, *upload) && mid.installs_record(
                        self,
                        rec,
                        out,
                        stored,
                        *upload,
                    );
                let old_recs = recs;
                let old_outs = outs;
                let (rest_records, end) = vram_record::parse_records(
                    reader.rest(),
                    i + 1,
                    n as int,
                );
                recs = recs.push(rec);
                outs = outs.push(out);
                assert(record_views(recs) =~= record_views(old_recs).push(rec@));
                assert(record_views(old_recs) + (seq![rec@] + rest_records) =~= record_views(recs)
                    + rest_records);
                assert forall|j: int| 0 <= j < recs.len() implies #[trigger] uploaded(
                    recs[j],
                    outs[j],
                    *upload,
                ) by {
                    if j < i {
                        assert(uploaded(old_recs[j], old_outs[j], *upload));
                    }
                }
                lemma_installed_prefix(s, old_recs, old_outs, rec, out, budget, i as int);
                let (t, l, g) = installed(s, old_recs, old_outs, budget, i as int);
                let (t1, l1, g1) = install_step(t, rec, out, budget);
                lru::lemma_wadd(c.inserts, l, l1);
                lru::lemma_wadd(c.evictions, g, g1);
                lemma_all_lost_push(old_recs, old_outs, rec, out);
            }
            match stored {
                Ok(true) => {
                    loaded = loaded + 1;
                    spared = true;
                },
                Ok(false) => {
                    spared = true;
                },
                Err(e) => {
                    last = Some(failed_call(e));
                },
            }
            i = i + 1;
        }
        let end: Result<(), LoadError> = read_and_validate_file_trailer(&mut reader);
        proof {
            assert(record_views(recs) + Seq::empty() =~= record_views(recs));
        }
        match end {
            Ok(()) => {
                if !spared {
                    if let Some((bytes_asked, code)) = last {
                        let e: LoadError = LoadError::Cuda {
                            entry_index: n - 1,
                            bytes: bytes_asked,
                            code,
                        };
                        assert(start.loads(self, bytes@, *upload, recs, outs, Err(e)));
                        return Err(e);
                    }
                }
                assert(start.loads(self, bytes@, *upload, recs, outs, Ok(loaded)));
                Ok(loaded)
            },
            Err(e) => {
                assert(start.loads(self, bytes@, *upload, recs, outs, Err(e)));
                Err(e)
            },
        }
    }

    /// The cache after the records were installed, given what their uploads gave.
    pub open spec fn after_install(
        &self,
        after: &Self,
        recs: Seq<VramRecord>,
        outs: Seq<Option<B>>,
    ) -> bool {
        let c = self.counts();
        let (t, loaded, gone) = installed(
            self.entries(),
            recs,
            outs,
            self.budget() as int,
            recs.len() as int,
        );
        &&& after.entries() == t
        &&& after.counts() == (VramCounters {
            inserts: lru::wadd(c.inserts, loaded),
            evictions: lru::wadd(c.evictions, gone),
            ..c
        })
    }

    /// What loading a dump does, and what it returns: `recs` are the records that
    /// parse, `outs` what their uploads gave.
    pub open spec fn loads<U: Fn(&Vec<u32>) -> Result<B, VramChtError>>(
        &self,
        after: &Self,
        bytes: Seq<u8>,
        upload: U,
        recs: Seq<VramRecord>,
        outs: Seq<Option<B>>,
        r: Result<u64, LoadError>,
    ) -> bool {
        &&& record_views(recs) == vram_record::parse_dump(bytes).0
        &&& outs.len() == recs.len()
        &&& uploads(recs, outs, upload)
        &&& self.after_install(after, recs, outs)
        &&& match vram_record::parse_dump(bytes).1 {
            Ok(_) => if recs.len() > 0 && all_lost(recs, outs) {
                r matches Err(LoadError::Cuda { entry_index, bytes, code }) && entry_index
                    == recs.len() - 1 && upload_failed::<B, U>(recs.last(), bytes, code, upload)
            } else {
                r matches Ok(n) && n == installed(
                    self.entries(),
                    recs,
                    outs,
                    self.budget() as int,
                    recs.len() as int,
                ).1
            },
            Err(e) => r == Err::<u64, LoadError>(e),
        }
    }

    /// What installing one record does, given what its upload gave, and what it
    /// returns: whether the record was stored, or why its upload failed.
    pub open spec fn installs_record<U: Fn(&Vec<u32>) -> Result<B, VramChtError>>(
        &self,
        after: &Self,
        rec: VramRecord,
        out: Option<B>,
        r: Result<bool, VramChtError>,
        upload: U,
    ) -> bool {
        let c = self.counts();
        let (t, loaded, gone) = install_step(self.entries(), rec, out, self.budget() as int);
        &&& after.entries() == t
        &&& match r {
            Ok(stored) => !lost(rec, out) && stored == (loaded == 1),
            Err(e) => lost(rec, out) && upload_failed::<B, U>(
                rec,
                call_numbers(e).0,
                call_numbers(e).1,
                upload,
            ),
        }
        &&& after.counts() == (VramCounters {
            inserts: lru::wadd(c.inserts, loaded),
            evictions: lru::wadd(c.evictions, gone),
            ..c
        })
    }

    /// Install one record of a dump. Returns whether it was stored, or why its upload
    /// failed.
    fn install_record<U: Fn(&Vec<u32>) -> Result<B, VramChtError>>(
        &mut self,
        rec: VramRecord,
        upload: &U,
    ) -> (r: Result<bool, VramChtError>)
        requires
            old(self).wf(),
            vram_record::encodable(rec@),
            forall|words: &Vec<u32>| #[trigger] call_requires(*upload, (words,)),
        ensures
            final(self).wf(),
            final(self).same_limits(old(self)),
            exists|out: Option<B>| #[trigger]
                uploaded(rec, out, *upload) && old(self).installs_record(
                    final(self),
                    rec,
                    out,
                    r,
                    *upload,
                ),
    {
        let ghost r0 = rec;
        proof {
            lru::lemma_wadd(self.counts().inserts, 0, 0);
            lru::lemma_wadd(self.counts().evictions, 0, 0);
        }
        let count: usize = rec.bucket_index.len();
        let len: usize = rec.body.len();
        if count as u64 * 8192 != len as u64 {
            assert(uploaded(r0, None, *upload));
            return Ok(false);
        }
        let words: Vec<u32> = decode_words(&rec.body);
        let d_buckets: B = match upload(&words) {
            Ok(d) => d,
            Err(e) => {
                assert(upload_gives(words, Err(e), *upload));
                assert(uploaded(r0, None, *upload));
                return Err(e);
            },
        };
        let ghost d = d_buckets;
        proof {
            assert(upload_gives(words, Ok(d), *upload));
            assert(uploaded(r0, Some(d), *upload));
        }
        let bytes: u64 = len as u64;
        if bytes > self.store.budget_bytes() {
            return Ok(false);
        }
        if self.store.find(&rec.key).is_some() {
            return Ok(false);
        }
        let entry: VramTermEntry<B> = VramTermEntry {
            d_buckets,
            bucket_index: rec.bucket_index,
            total_words: count * BITMAP_CONTAINER_WORDS,
        };
        self.install_entry(rec.key, entry, bytes);
        Ok(true)
    }

    /// Store an entry that is not cached yet.
    fn install_entry(&mut self, key: ChtKey, entry: VramTermEntry<B>, bytes: u64)
        requires
            old(self).wf(),
            entry.wf(),
            bytes == 4 * entry.total_words,
            bytes <= old(self).budget(),
            !lru::held(old(self).entries(), key),
        ensures
            final(self).wf(),
            final(self).same_limits(old(self)),
            final(self).entries() == lru::stored(
                old(self).entries(),
                (Entry { key, value: entry, bytes }),
                old(self).budget() as int,
            ),
            final(self).counts() == (VramCounters {
                inserts: lru::wadd(old(self).counts().inserts, 1),
                evictions: lru::wadd(
                    old(self).counts().evictions,
                    lru::shed_count(old(self).entries(), bytes as int, old(self).budget() as int),
                ),
                ..old(self).counts()
            }),
    {
        proof {
            lru::lemma_shed(self.store@, bytes as int, self.store.budget() as int);
        }
        let evicted: u64 = self.store.store(key, Arc::new(entry), bytes);
        self.counters.evictions = self.counters.evictions.wrapping_add(evicted);
        self.counters.inserts = self.counters.inserts.wrapping_add(1);
        proof {
            lru::lemma_wadd(old(self).counts().promotions, 0, 0);
            lru::lemma_wadd(0, 0, 0);
            tally::lemma_keeps_balance(
                old(self).gauge(),
                tally::change(1, evicted as nat),
                self.gauge(),
            );
        }
    }
}

/// Downloading the buffer of `e` can give `w`.
pub open spec fn download_gives<B, D: Fn(&B, usize) -> Result<Vec<u32>, u32>>(
    e: VramTermEntry<B>,
    w: Vec<u32>,
    download: D,
) -> bool {
    call_ensures(download, (&e.d_buckets, e.total_words), Ok(w))
}

/// Downloading the buffer of `e` can fail with `code`.
pub open spec fn download_fails<B, D: Fn(&B, usize) -> Result<Vec<u32>, u32>>(
    e: VramTermEntry<B>,
    code: u32,
    download: D,
) -> bool {
    call_ensures(download, (&e.d_buckets, e.total_words), Err(code))
}

/// `ws` are what downloading the first entries gave.
pub open spec fn downloads<B, D: Fn(&B, usize) -> Result<Vec<u32>, u32>>(
    s: Seq<Entry<VramTermEntry<B>>>,
    ws: Seq<Vec<u32>>,
    download: D,
) -> bool {
    forall|i: int| 0 <= i < ws.len() ==> #[trigger] download_gives(s[i].value, ws[i], download)
}

/// The dump record of an entry whose buffer holds `words`.
pub open spec fn record_of<B>(e: Entry<VramTermEntry<B>>, words: Seq<u32>) -> RecordView {
    RecordView { key: e.key, index: e.value.bucket_index@, body: wire::enc32(words) }
}

/// The dump records of the first entries.
pub open spec fn records_of<B>(s: Seq<Entry<VramTermEntry<B>>>, ws: Seq<Vec<u32>>) -> Seq<
    RecordView,
> {
    Seq::new(ws.len(), |i: int| record_of(s[i], ws[i]@))
}

/// What records say.
pub open spec fn record_views(recs: Seq<VramRecord>) -> Seq<RecordView> {
    Seq::new(recs.len(), |i: int| recs[i]@)
}

/// The index of a record accounts for its words.
pub open spec fn consistent(r: RecordView) -> bool {
    r.body.len() == 8192 * r.index.len()
}

/// Uploading `words` can give `res`.
pub open spec fn upload_gives<B, U: Fn(&Vec<u32>) -> Result<B, VramChtError>>(
    words: Vec<u32>,
    res: Result<B, VramChtError>,
    upload: U,
) -> bool {
    call_ensures(upload, (&words,), res)
}

/// `out` is what uploading the words of a record gave; a record that is not
/// consistent is not uploaded.
pub open spec fn uploaded<B, U: Fn(&Vec<u32>) -> Result<B, VramChtError>>(
    rec: VramRecord,
    out: Option<B>,
    upload: U,
) -> bool {
    if !consistent(rec@) {
        out is None
    } else {
        exists|words: Vec<u32>, res: Result<B, VramChtError>| #[trigger]
            upload_gives(words, res, upload) && words@ == vram_record::body_words(rec.body@)
                && out == (match res {
                Ok(d) => Some(d),
                Err(_) => None,
            })
    }
}

/// The bytes that the failing device call asked for, and its code.
pub open spec fn call_numbers(e: VramChtError) -> (usize, u32) {
    match e {
        VramChtError::Malloc { bytes, code } => (bytes, code),
        VramChtError::Memcpy { bytes, code } => (bytes, code),
    }
}

/// The bytes that the failing device call asked for, and its code.
pub(crate) fn failed_call(e: VramChtError) -> (r: (usize, u32))
    ensures
        r == call_numbers(e),
{
    match e {
        VramChtError::Malloc { bytes, code } => (bytes, code),
        VramChtError::Memcpy { bytes, code } => (bytes, code),
    }
}

/// Uploading the words of a record can fail in a device call that asked for `bytes`
/// bytes, with `code`.
pub open spec fn upload_failed<B, U: Fn(&Vec<u32>) -> Result<B, VramChtError>>(
    rec: VramRecord,
    bytes: usize,
    code: u32,
    upload: U,
) -> bool {
    exists|words: Vec<u32>, e: VramChtError| #[trigger]
        upload_gives(words, Err::<B, VramChtError>(e), upload) && words@
            == vram_record::body_words(rec.body@) && call_numbers(e) == (bytes, code)
}

/// The upload of a record failed: the record is consistent and `out` is nothing.
pub open spec fn lost<B>(rec: VramRecord, out: Option<B>) -> bool {
    consistent(rec@) && out is None
}

/// The upload of every record failed.
pub open spec fn all_lost<B>(recs: Seq<VramRecord>, outs: Seq<Option<B>>) -> bool {
    forall|i: int| 0 <= i < recs.len() ==> #[trigger] lost(recs[i], outs[i])
}

proof fn lemma_all_lost_push<B>(
    recs: Seq<VramRecord>,
    outs: Seq<Option<B>>,
    rec: VramRecord,
    out: Option<B>,
)
    requires
        recs.len() == outs.len(),
    ensures
        all_lost(recs.push(rec), outs.push(out)) == (all_lost(recs, outs) && lost(rec, out)),
{
    let a = recs.push(rec);
    let b = outs.push(out);
    if all_lost(a, b) {
        assert(lost(a[recs.len() as int], b[recs.len() as int]));
        assert forall|i: int| 0 <= i < recs.len() implies #[trigger] lost(recs[i], outs[i]) by {
            assert(lost(a[i], b[i]));
        }
    }
    if all_lost(recs, outs) && lost(rec, out) {
        assert forall|i: int| 0 <= i < a.len() implies #[trigger] lost(a[i], b[i]) by {
            if i < recs.len() {
                assert(lost(recs[i], outs[i]));
            }
        }
    }
}

/// `outs` are what the uploads of `recs` gave.
pub open spec fn uploads<B, U: Fn(&Vec<u32>) -> Result<B, VramChtError>>(
    recs: Seq<VramRecord>,
    outs: Seq<Option<B>>,
    upload: U,
) -> bool {
    forall|i: int| 0 <= i < recs.len() ==> #[trigger] uploaded(recs[i], outs[i], upload)
}

/// The entry that a record becomes in the device buffer `d`.
pub open spec fn record_entry<B>(rec: VramRecord, d: B) -> Entry<VramTermEntry<B>> {
    Entry {
        key: rec.key,
        value: VramTermEntry {
            d_buckets: d,
            bucket_index: rec.bucket_index,
            total_words: (2048 * rec.bucket_index@.len()) as usize,
        },
        bytes: rec.body@.len() as u64,
    }
}

/// The entries after one record, how many were stored and how many made room.
pub open spec fn install_step<B>(
    s: Seq<Entry<VramTermEntry<B>>>,
    rec: VramRecord,
    out: Option<B>,
    budget: int,
) -> (Seq<Entry<VramTermEntry<B>>>, int, int) {
    match out {
        Some(d) => if consistent(rec@) && rec.body@.len() <= budget && !lru::held(s, rec.key) {
            (
                lru::stored(s, record_entry(rec, d), budget),
                1,
                lru::shed_count(s, rec.body@.len() as int, budget),
            )
        } else {
            (s, 0, 0)
        },
        None => (s, 0, 0),
    }
}

/// The entries after the first `n` records, how many were stored and how many made
/// room.
pub open spec fn installed<B>(
    s: Seq<Entry<VramTermEntry<B>>>,
    recs: Seq<VramRecord>,
    outs: Seq<Option<B>>,
    budget: int,
    n: int,
) -> (Seq<Entry<VramTermEntry<B>>>, int, int)
    decreases n,
{
    if n <= 0 {
        (s, 0, 0)
    } else {
        let (t, loaded, gone) = installed(s, recs, outs, budget, n - 1);
        let (u, more, shed) = install_step(t, recs[n - 1], outs[n - 1], budget);
        (u, loaded + more, gone + shed)
    }
}

/// Records behind the first `n` do not matter for them.
proof fn lemma_installed_prefix<B>(
    s: Seq<Entry<VramTermEntry<B>>>,
    recs: Seq<VramRecord>,
    outs: Seq<Option<B>>,
    rec: VramRecord,
    out: Option<B>,
    budget: int,
    n: int,
)
    requires
        0 <= n <= recs.len(),
        recs.len() == outs.len(),
    ensures
        installed(s, recs.push(rec), outs.push(out), budget, n) == installed(
            s,
            recs,
            outs,
            budget,
            n,
        ),
    decreases n,
{
    if n > 0 {
        lemma_installed_prefix(s, recs, outs, rec, out, budget, n - 1);
        assert(recs.push(rec)[n - 1] == recs[n - 1]);
        assert(outs.push(out)[n - 1] == outs[n - 1]);
    }
}

/// A load in which every upload fails leaves the cache as it was.
pub proof fn lemma_all_lost<B>(
    s: Seq<Entry<VramTermEntry<B>>>,
    recs: Seq<VramRecord>,
    outs: Seq<Option<B>>,
    budget: int,
    n: int,
)
    requires
        0 <= n <= recs.len(),
        all_lost(recs, outs),
    ensures
        installed(s, recs, outs, budget, n) == (s, 0int, 0int),
    decreases n,
{
    if n > 0 {
        lemma_all_lost(s, recs, outs, budget, n - 1);
        assert(lost(recs[n - 1], outs[n - 1]));
    }
}

/// `t` holds the first `n` entries of `s` again, in the device buffers `outs`.
pub open spec fn restored<B, C>(
    t: Seq<Entry<VramTermEntry<C>>>,
    s: Seq<Entry<VramTermEntry<B>>>,
    outs: Seq<Option<C>>,
    n: int,
) -> bool {
    &&& t.len() == n
    &&& forall|i: int|
        0 <= i < n ==> {
            &&& (#[trigger] t[i]).key == s[i].key
            &&& t[i].bytes == s[i].bytes
            &&& t[i].value.bucket_index@ == s[i].value.bucket_index@
            &&& t[i].value.total_words == s[i].value.total_words
            &&& Some(t[i].value.d_buckets) == outs[i]
        }
}

/// A dump loaded into an empty cache brings every entry back, in order: a dump of
/// well-formed entries parses as what was dumped, each upload gets the words that
/// were downloaded, and when the uploads succeed and the budget suffices, every
/// entry is stored and none makes room.
pub proof fn lemma_dump_load<B, C>(
    s: Seq<Entry<VramTermEntry<B>>>,
    ws: Seq<Vec<u32>>,
    recs: Seq<VramRecord>,
    outs: Seq<Option<C>>,
    budget: int,
)
    requires
        lru::distinct(s),
        s.len() == ws.len() == recs.len() == outs.len(),
        s.len() <= u64::MAX,
        forall|i: int| 0 <= i < s.len() ==> charged(#[trigger] s[i]),
        forall|i: int| 0 <= i < s.len() ==> (#[trigger] ws[i])@.len() == s[i].value.total_words,
        record_views(recs) == vram_record::parse_dump(
            vram_record::dump_bytes(records_of(s, ws)),
        ).0,
        forall|i: int| 0 <= i < s.len() ==> #[trigger] outs[i] is Some,
        lru::total(s) <= budget,
    ensures
        vram_record::parse_dump(vram_record::dump_bytes(records_of(s, ws))) == (
            records_of(s, ws),
            Ok::<(), LoadError>(()),
        ),
        forall|i: int|
            0 <= i < s.len() ==> vram_record::body_words((#[trigger] recs[i]).body@) == ws[i]@,
        ({
            let (t, loaded, gone) = installed(Seq::empty(), recs, outs, budget, s.len() as int);
            restored(t, s, outs, s.len() as int) && loaded == s.len() && gone == 0
        }),
{
    let rs = records_of(s, ws);
    assert forall|j: int| 0 <= j < rs.len() implies vram_record::encodable(#[trigger] rs[j]) by {
        assert(charged(s[j]));
        assert(rs[j].body.len() == 4 * ws[j]@.len());
    }
    vram_record::lemma_dump_round_trip(rs, Seq::empty());
    assert(vram_record::dump_bytes(rs) + Seq::empty() =~= vram_record::dump_bytes(rs));
    assert forall|i: int| 0 <= i < s.len() implies (#[trigger] recs[i])@ == record_of(
        s[i],
        ws[i]@,
    ) by {
        assert(record_views(recs)[i] == rs[i]);
    }
    assert forall|i: int| 0 <= i < s.len() implies vram_record::body_words(
        (#[trigger] recs[i]).body@,
    ) == ws[i]@ by {
        assert(recs[i]@ == record_of(s[i], ws[i]@));
        vram_record::lemma_words_round_trip(ws[i]@);
    }
    lemma_reload(s, ws, recs, outs, budget, s.len() as int);
}

proof fn lemma_reload<B, C>(
    s: Seq<Entry<VramTermEntry<B>>>,
    ws: Seq<Vec<u32>>,
    recs: Seq<VramRecord>,
    outs: Seq<Option<C>>,
    budget: int,
    n: int,
)
    requires
        lru::distinct(s),
        s.len() == ws.len() == recs.len() == outs.len(),
        0 <= n <= s.len(),
        forall|i: int| 0 <= i < s.len() ==> charged(#[trigger] s[i]),
        forall|i: int| 0 <= i < s.len() ==> (#[trigger] ws[i])@.len() == s[i].value.total_words,
        forall|i: int| 0 <= i < s.len() ==> (#[trigger] recs[i])@ == record_of(s[i], ws[i]@),
        forall|i: int| 0 <= i < s.len() ==> #[trigger] outs[i] is Some,
        lru::total(s) <= budget,
    ensures
        ({
            let (t, loaded, gone) = installed(
                Seq::<Entry<VramTermEntry<C>>>::empty(),
                recs,
                outs,
                budget,
                n,
            );
            restored(t, s, outs, n) && loaded == n && gone == 0 && lru::total(t) == lru::total(
                s.take(n),
            )
        }),
    decreases n,
{
    let empty = Seq::<Entry<VramTermEntry<C>>>::empty();
    if n == 0 {
        assert(s.take(0) =~= Seq::empty());
    } else {
        lemma_reload(s, ws, recs, outs, budget, n - 1);
        let (t, loaded, gone) = installed(empty, recs, outs, budget, n - 1);
        let rec = recs[n - 1];
        let e = s[n - 1];
        assert(charged(e));
        assert(rec@ == record_of(e, ws[n - 1]@));
        assert(rec.body@.len() == 4 * ws[n - 1]@.len());
        assert(outs[n - 1] is Some);
        let d = outs[n - 1]->0;
        assert(s.take(n) =~= s.take(n - 1).push(e));
        lru::lemma_total_push(s.take(n - 1), e);
        lru::lemma_total_take(s, n);
        lru::lemma_total_nonneg(t);
        if lru::held(t, rec.key) {
            let i = lru::place(t, rec.key);
            assert(t[i].key == s[i].key);
            assert(s[i].key != s[n - 1].key);
        }
        lru::lemma_shed(t, rec.body@.len() as int, budget);
        lru::lemma_total_push(t, record_entry(rec, d));
        let u = lru::stored(t, record_entry(rec, d), budget);
        assert(u == t.push(record_entry(rec, d)));
        assert forall|i: int| 0 <= i < n implies {
            &&& (#[trigger] u[i]).key == s[i].key
            &&& u[i].bytes == s[i].bytes
            &&& u[i].value.bucket_index@ == s[i].value.bucket_index@
            &&& u[i].value.total_words == s[i].value.total_words
            &&& Some(u[i].value.d_buckets) == outs[i]
        } by {
            if i < n - 1 {
                assert(t[i].key == s[i].key);
            }
        }
    }
}

/// A lookup is a hit or a miss to the counters.
pub proof fn lemma_get_moves<B>(
    before: VramCht<B>,
    key: ChtKey,
    found: Option<VramTermEntry<B>>,
    after: VramCht<B>,
)
    requires
        before.looks_up(&after, key, found),
    ensures
        tally::moves(
            before.gauge(),
            if found is Some {
                Event::Hit
            } else {
                Event::Miss
            },
            after.gauge(),
        ),
{
}

/// A call that changes nothing is an event that stores and evicts nothing.
pub proof fn lemma_idle_moves<B>(before: VramCht<B>, after: VramCht<B>)
    requires
        after.entries().len() == before.entries().len(),
        after.counts() == before.counts(),
    ensures
        tally::moves(before.gauge(), tally::change(0, 0), after.gauge()),
{
    lru::lemma_wadd(before.counts().inserts, 0, 0);
    lru::lemma_wadd(before.counts().evictions, 0, 0);
    lru::lemma_wadd(before.counts().promotions, 0, 0);
    lru::lemma_wadd(0, 0, 0);
}

/// A reset is the event that clears everything.
pub proof fn lemma_reset_moves<B>(before: VramCht<B>, after: VramCht<B>)
    requires
        after.entries() == Seq::<Entry<VramTermEntry<B>>>::empty(),
        after.counts() == no_events(),
    ensures
        tally::moves(before.gauge(), Event::Reset, after.gauge()),
{
}

/// An insert or a promotion stores at most one entry; nothing else changes the counters
/// but what was evicted for it.
pub proof fn lemma_insert_moves<B, U: Fn(&Vec<u32>) -> Result<B, VramChtError>>(
    before: VramCht<B>,
    key: ChtKey,
    p: SharedBitmapPayload,
    upload: U,
    promoted: int,
    r: Result<bool, VramChtError>,
    after: VramCht<B>,
)
    requires
        0 <= promoted <= 1,
        before.inserts_payload(&after, key, p, upload, promoted, r),
    ensures
        ({
            let stored = r == Ok::<bool, VramChtError>(true);
            tally::moves(
                before.gauge(),
                Event::Change {
                    stored: if stored {
                        1
                    } else {
                        0
                    },
                    gone: if stored {
                        lru::shed_count(
                            before.entries(),
                            4 * p.total_words,
                            before.budget() as int,
                        ) as nat
                    } else {
                        0
                    },
                    promoted: if stored {
                        promoted as nat
                    } else {
                        0
                    },
                    crossed: 0,
                },
                after.gauge(),
            )
        }),
{
    let c = before.counts();
    lru::lemma_wadd(c.promotions, 0, 0);
    lru::lemma_wadd(0, 0, 0);
    lru::lemma_wadd(c.inserts, 0, 0);
    lru::lemma_wadd(c.evictions, 0, 0);
    lru::lemma_shed_len(before.entries(), 4 * p.total_words, before.budget() as int);
}

/// A load stores and evicts what its records say.
pub proof fn lemma_load_moves<B>(
    before: VramCht<B>,
    recs: Seq<VramRecord>,
    outs: Seq<Option<B>>,
    after: VramCht<B>,
)
    requires
        before.after_install(&after, recs, outs),
    ensures
        ({
            let (t, loaded, gone) = installed(
                before.entries(),
                recs,
                outs,
                before.budget() as int,
                recs.len() as int,
            );
            0 <= loaded <= recs.len() && 0 <= gone && tally::moves(
                before.gauge(),
                tally::change(loaded as nat, gone as nat),
                after.gauge(),
            )
        }),
{
    lru::lemma_wadd(before.counts().promotions, 0, 0);
    lru::lemma_wadd(0, 0, 0);
    lemma_installed_len(
        before.entries(),
        recs,
        outs,
        before.budget() as int,
        recs.len() as int,
    );
}

proof fn lemma_installed_len<B>(
    s: Seq<Entry<VramTermEntry<B>>>,
    recs: Seq<VramRecord>,
    outs: Seq<Option<B>>,
    budget: int,
    n: int,
)
    requires
        0 <= n,
    ensures
        ({
            let (t, loaded, gone) = installed(s, recs, outs, budget, n);
            0 <= loaded <= n && 0 <= gone && t.len() == s.len() + loaded - gone
        }),
    decreases n,
{
    if n > 0 {
        lemma_installed_len(s, recs, outs, budget, n - 1);
        let t = installed(s, recs, outs, budget, n - 1).0;
        let rec = recs[n - 1];
        assert(rec.body@.len() == rec.body.len());
        lru::lemma_shed_len(t, rec.body@.len() as int, budget);
    }
}

/// From a fresh cache through any calls, each of them the event that the laws on calls
/// name: the limits stay what they were, the bytes of the entries are those of their
/// device buffers and together within the budget, and no key is cached twice. The counters
/// account for the events since the last reset.
pub proof fn lemma_history<B>(states: Seq<VramCht<B>>, es: Seq<Event>)
    requires
        states.len() == es.len() + 1,
        states[0].entries() == Seq::<Entry<VramTermEntry<B>>>::empty(),
        states[0].counts() == no_events(),
        forall|i: int| 0 <= i < states.len() ==> (#[trigger] states[i]).wf(),
        forall|i: int|
            0 <= i < es.len() ==> states[i].follows(#[trigger] es[i], &states[i + 1]),
    ensures
        ({
            let c = states.last();
            &&& c.same_limits(&states[0])
            &&& lru::distinct(c.entries())
            &&& 0 <= lru::total(c.entries()) <= c.budget()
            &&& forall|i: int| 0 <= i < c.entries().len() ==> charged(#[trigger] c.entries()[i])
            &&& tally::balanced(c.gauge())
            &&& tally::accounts(c.gauge(), es)
        }),
{
    let gs = Seq::new(states.len(), |i: int| states[i].gauge());
    assert forall|i: int| 0 <= i < es.len() implies tally::moves(
        gs[i],
        #[trigger] es[i],
        gs[i + 1],
    ) by {
        assert(states[i].follows(es[i], &states[i + 1]));
    }
    tally::lemma_history(gs, es);
    lemma_same_limits(states, es);
    states.last().lemma_wf();
}

proof fn lemma_same_limits<B>(states: Seq<VramCht<B>>, es: Seq<Event>)
    requires
        states.len() == es.len() + 1,
        forall|i: int|
            0 <= i < es.len() ==> states[i].follows(#[trigger] es[i], &states[i + 1]),
    ensures
        states.last().same_limits(&states[0]),
    decreases es.len(),
{
    if es.len() > 0 {
        let n = es.len() - 1;
        let before = states.drop_last();
        let front = es.drop_last();
        assert forall|i: int| 0 <= i < front.len() implies before[i].follows(
            #[trigger] front[i],
            &before[i + 1],
        ) by {
            assert(states[i].follows(es[i], &states[i + 1]));
        }
        lemma_same_limits(before, front);
        assert(states[n].follows(es[n], &states[n + 1]));
    }
}

/// Whether the kill switch of this tier is on. The first answer is kept in `slot` and
/// holds from then on; it is that of the setting, where `1` or `true` turn the tier off.
pub fn kill_switch_active(slot: &mut Option<bool>, setting: Option<&str>) -> (r: bool)
    ensures
        kill_switch::asked(*old(slot), kill_switch::text(setting), r, *final(slot)),
        *old(slot) matches Some(b) ==> r == b,
        *old(slot) is None ==> r == (setting matches Some(s) && kill_switch::says_yes(s@)),
        *final(slot) == Some(r),
{
    first_answer(slot, setting)
}

/// A fresh cache.
pub open spec fn fresh<B>(c: VramCht<B>, budget_bytes: u64, off: bool) -> bool {
    &&& c.wf()
    &&& c.entries() == Seq::<Entry<VramTermEntry<B>>>::empty()
    &&& c.budget() == budget_bytes
    &&& c.off() == off
    &&& c.counts() == no_events()
}

/// Fill an empty cache slot with a cache of the default budget.
pub fn global<B>(slot: &mut Option<VramCht<B>>, disabled: bool)
    ensures
        *old(slot) is Some ==> *final(slot) == *old(slot),
        *old(slot) is None ==> (*final(slot) matches Some(c) && fresh(
            c,
            DEFAULT_VRAM_CHT_BUDGET_BYTES,
            disabled,
        )),
{
    if slot.is_none() {
        *slot = Some(VramCht::with_budget(DEFAULT_VRAM_CHT_BUDGET_BYTES, disabled));
    }
}

/// Fill an empty cache slot with a cache of the given budget. Returns whether the
/// slot was empty: the budget is fixed by whoever comes first.
pub fn global_with_budget<B>(
    slot: &mut Option<VramCht<B>>,
    budget_bytes: u64,
    disabled: bool,
) -> (r: bool)
    ensures
        r == (*old(slot) is None),
        *old(slot) is Some ==> *final(slot) == *old(slot),
        *old(slot) is None ==> (*final(slot) matches Some(c) && fresh(c, budget_bytes, disabled)),
{
    if slot.is_some() {
        return false;
    }
    *slot = Some(VramCht::with_budget(budget_bytes, disabled));
    true
}

/// Reset the cache in the slot, if there is one.
pub fn reset_global<B>(slot: &mut Option<VramCht<B>>)
    ensures
        *old(slot) is None ==> *final(slot) is None,
        *old(slot) matches Some(c) ==> (*final(slot) matches Some(d) && fresh(
            d,
            c.budget(),
            c.off(),
        )),
{
    match slot {
        Some(c) => {
            c.reset();
        },
        None => {},
    }
}

/// The entry is well formed and its bytes are those of its device buffer.
pub open spec fn charged<B>(e: Entry<VramTermEntry<B>>) -> bool {
    e.value.wf() && e.bytes == 4 * e.value.total_words
}

} // verus!
