//! Compressed device-memory tier of the posting-list cache.
//!
//! Each cached term holds the dense words of its non-empty buckets in compressed
//! form, in chunks of at most 16 MiB of uncompressed words, which a query
//! decompresses before use. The budget counts compressed bytes. `B` is whatever
//! stands for a device buffer; the calls that compress a chunk, copy one back or
//! fill one are handed in.

use std::sync::Arc;
use vstd::prelude::*;

use crate::compressed_record;
use crate::kill_switch;
use crate::lru;
use crate::persist;
use crate::tally;
use crate::vram_cht;
use crate::wire;

use crate::cht::ChtKey;
use crate::compressed_record::{read_record, CompressedRecord, CompressedView};
use crate::kill_switch::first_answer;
use crate::lru::{contains_segment, Entry, LruStore, Slot};
use crate::persist::{
    read_and_validate_file_header_multi, read_and_validate_file_trailer, write_chtkey,
    write_file_header, write_file_trailer, write_index, ByteReader, DumpError, LoadError,
    MAGIC_V3, MAGIC_V4,
};
use crate::postings::RoaringPostings;
use crate::segment_id::SegmentId;
use crate::shared_bitmap_payload::SharedBitmapPayload;
use crate::tally::{Event, Gauge};
use crate::vram_cht::{failed_call, VramChtError, VramTermEntry};
use crate::wire::{push_bytes, push_u32, push_u64, to_usize};

verus! {

/// Failures of the device-memory paths.
#[derive(Debug, PartialEq, Eq)]
pub enum VramCompressedChtError {
    /// A device allocation failed.
    Malloc {
        /// Bytes the allocation requested.
        bytes: usize,
        /// Raw device error code.
        code: u32,
    },
    /// The host-to-device copy failed.
    Memcpy {
        /// Bytes the copy attempted.
        bytes: usize,
        /// Raw device error code.
        code: u32,
    },
    /// The codec failed.
    Bitcomp {
        /// What the codec reported.
        message: String,
    },
    /// The term would need more than [`MAX_CHUNKS_PER_ENTRY`] chunks.
    TooManyChunks {
        /// Chunks the term would need.
        chunks_needed: usize,
        /// The cap.
        max: usize,
    },
}

/// Element type that the codec is configured for.
#[derive(Debug, Clone, Copy, PartialEq, Eq, Structural)]
pub enum BitcompDataType {
    /// Bytes; for general bitmap streams.
    Char,
    /// 32-bit words; for postings.
    Uint32,
}

/// Most uncompressed bytes in a chunk: 16 MiB.
pub const BITCOMP_CHUNK_BYTES: usize = 16_777_216;

/// Buckets in a full chunk. Chunk boundaries fall on bucket boundaries.
pub const BUCKETS_PER_CHUNK: usize = 2048;

/// Most chunks in an entry.
pub const MAX_CHUNKS_PER_ENTRY: usize = 64;

/// Default budget when no explicit configuration is provided: 4 GiB.
pub const DEFAULT_VRAM_COMPRESSED_BUDGET_BYTES: u64 = 4_294_967_296;

/// One compressed chunk of an entry.
pub struct DeviceChunkSlice<B> {
    /// Device buffer of the compressed bytes.
    pub d_compressed: B,
    /// Bytes in the device buffer.
    pub compressed_bytes: usize,
    /// Uncompressed bytes the chunk stands for.
    pub uncompressed_bytes: usize,
}

/// One cached posting list, stored on the device in compressed form.
///
/// Chunk `k` covers buckets `[k * BUCKETS_PER_CHUNK, (k + 1) * BUCKETS_PER_CHUNK)` of
/// the bucket index, as far as there are so many.
pub struct VramCompressedTermEntry<B> {
    /// The chunks, in bucket order.
    pub chunks: Vec<DeviceChunkSlice<B>>,
    /// Bytes of the uncompressed words of all buckets.
    pub uncompressed_bytes: usize,
    /// `(high16, word_offset)` of each bucket, relative to the uncompressed words.
    pub bucket_index: Vec<(u16, u32)>,
}

/// How many of `count` buckets fall into chunk `k`.
pub open spec fn chunk_buckets(k: int, count: int) -> int {
    if count >= 2048 * (k + 1) {
        2048
    } else if count > 2048 * k {
        count - 2048 * k
    } else {
        0
    }
}

/// Uncompressed bytes of chunk `k` of `count` buckets.
pub open spec fn chunk_plain(k: int, count: int) -> int {
    8192 * chunk_buckets(k, count)
}

/// Number of chunks that `count` buckets need.
pub open spec fn chunks_for(count: int) -> int {
    (count + 2047) / 2048
}

/// Compressed bytes of all chunks.
pub open spec fn packed_sum<B>(chunks: Seq<DeviceChunkSlice<B>>) -> int
    decreases chunks.len(),
{
    if chunks.len() == 0 {
        0
    } else {
        packed_sum(chunks.drop_last()) + chunks.last().compressed_bytes
    }
}

/// Uncompressed bytes of all chunks.
pub open spec fn plain_sum<B>(chunks: Seq<DeviceChunkSlice<B>>) -> int
    decreases chunks.len(),
{
    if chunks.len() == 0 {
        0
    } else {
        plain_sum(chunks.drop_last()) + chunks.last().uncompressed_bytes
    }
}

/// The chunks cover `count` buckets in order.
pub open spec fn tiled<B>(chunks: Seq<DeviceChunkSlice<B>>, count: int) -> bool {
    &&& chunks.len() >= 1
    &&& 2048 * chunks.len() >= count
    &&& forall|k: int|
        0 <= k < chunks.len() ==> (#[trigger] chunks[k]).uncompressed_bytes == chunk_plain(k, count)
}

/// Chunks that cover the buckets account for every uncompressed byte.
pub proof fn lemma_tiled_sum<B>(chunks: Seq<DeviceChunkSlice<B>>, count: int)
    requires
        tiled(chunks, count),
        count >= 0,
    ensures
        plain_sum(chunks) == 8192 * count,
{
    lemma_tile_prefix(chunks, count, chunks.len() as int);
    assert(chunks.take(chunks.len() as int) =~= chunks);
}

proof fn lemma_tile_prefix<B>(chunks: Seq<DeviceChunkSlice<B>>, count: int, n: int)
    requires
        0 <= n <= chunks.len(),
        count >= 0,
        forall|k: int|
            0 <= k < chunks.len() ==> (#[trigger] chunks[k]).uncompressed_bytes == chunk_plain(
                k,
                count,
            ),
    ensures
        plain_sum(chunks.take(n)) == 8192 * (if 2048 * n < count {
            2048 * n
        } else {
            count
        }),
    decreases n,
{
    if n > 0 {
        lemma_tile_prefix(chunks, count, n - 1);
        assert(chunks.take(n).drop_last() =~= chunks.take(n - 1));
        assert(chunks.take(n).last() == chunks[n - 1]);
    }
}

/// The first chunks account for no more bytes than all of them.
pub proof fn lemma_plain_take<B>(chunks: Seq<DeviceChunkSlice<B>>, n: int)
    requires
        0 <= n <= chunks.len(),
    ensures
        0 <= plain_sum(chunks.take(n)) <= plain_sum(chunks),
    decreases chunks.len(),
{
    if n == chunks.len() {
        assert(chunks.take(n) =~= chunks);
        if n > 0 {
            lemma_plain_take(chunks.drop_last(), n - 1);
            assert(chunks.drop_last().take(n - 1) =~= chunks.drop_last());
        }
    } else {
        lemma_plain_take(chunks.drop_last(), n);
        assert(chunks.drop_last().take(n) =~= chunks.take(n));
    }
}

impl<B> VramCompressedTermEntry<B> {
    /// The chunks cover the buckets, and the lengths fit their fields.
    pub open spec fn wf(&self) -> bool {
        &&& self.uncompressed_bytes == 8192 * self.bucket_index@.len()
        &&& tiled(self.chunks@, self.bucket_index@.len() as int)
        &&& self.bucket_index@.len() <= u32::MAX
        &&& self.chunks@.len() <= u32::MAX
        &&& packed_sum(self.chunks@) <= u64::MAX
    }

    /// Number of buckets cached.
    pub fn bucket_count(&self) -> (r: usize)
        ensures
            r == self.bucket_index@.len(),
    {
        self.bucket_index.len()
    }

    /// Compressed bytes of all chunks.
    pub fn compressed_bytes(&self) -> (r: usize)
        requires
            self.wf(),
        ensures
            r == wire::clamp_usize(packed_sum(self.chunks@)),
    {
        to_usize(packed_total(&self.chunks))
    }

    /// Uncompressed bytes of all buckets.
    pub fn uncompressed_bytes(&self) -> (r: usize)
        ensures
            r == self.uncompressed_bytes,
    {
        self.uncompressed_bytes
    }

    /// The `(high16, word_offset)` pairs.
    pub fn bucket_index(&self) -> (r: &[(u16, u32)])
        ensures
            r@ == self.bucket_index@,
    {
        self.bucket_index.as_slice()
    }

    /// Number of chunks.
    pub fn chunk_count(&self) -> (r: usize)
        ensures
            r == self.chunks@.len(),
    {
        self.chunks.len()
    }

    /// The chunks, in bucket order.
    pub fn chunks(&self) -> (r: &[DeviceChunkSlice<B>])
        ensures
            r@ == self.chunks@,
    {
        self.chunks.as_slice()
    }
}

proof fn lemma_packed_nonneg<B>(chunks: Seq<DeviceChunkSlice<B>>)
    ensures
        packed_sum(chunks) >= 0,
    decreases chunks.len(),
{
    if chunks.len() > 0 {
        lemma_packed_nonneg(chunks.drop_last());
    }
}

proof fn lemma_packed_take<B>(chunks: Seq<DeviceChunkSlice<B>>, n: int)
    requires
        0 <= n <= chunks.len(),
    ensures
        packed_sum(chunks.take(n)) <= packed_sum(chunks),
    decreases chunks.len() - n,
{
    if n == chunks.len() {
        assert(chunks.take(n) =~= chunks);
    } else {
        assert(chunks.take(n + 1).drop_last() =~= chunks.take(n));
        lemma_packed_take(chunks, n + 1);
    }
}

/// Compressed bytes of all chunks.
fn packed_total<B>(chunks: &Vec<DeviceChunkSlice<B>>) -> (r: u64)
    requires
        packed_sum(chunks@) <= u64::MAX,
    ensures
        r == packed_sum(chunks@),
{
    let n: usize = chunks.len();
    let mut sum: u64 = 0;
    let mut i: usize = 0;
    assert(chunks@.take(0) =~= Seq::empty());
    while i < n
        invariant
            n == chunks@.len(),
            i <= n,
            packed_sum(chunks@) <= u64::MAX,
            sum == packed_sum(chunks@.take(i as int)),
        decreases n - i,
    {
        proof {
            assert(chunks@.take(i + 1).drop_last() =~= chunks@.take(i as int));
            lemma_packed_take(chunks@, i + 1);
        }
        sum = sum + chunks[i].compressed_bytes as u64;
        i = i + 1;
    }
    assert(chunks@.take(n as int) =~= chunks@);
    sum
}

/// `c` is what compressing chunk `k` of `src` gave.
pub open spec fn chunk_made<
    S,
    B,
    F: Fn(&S, usize, usize) -> Result<(B, usize), VramCompressedChtError>,
>(src: S, k: int, count: int, c: DeviceChunkSlice<B>, compress: F) -> bool {
    &&& c.uncompressed_bytes == chunk_plain(k, count)
    &&& call_ensures(
        compress,
        (&src, (16_777_216 * k) as usize, chunk_plain(k, count) as usize),
        Ok((c.d_compressed, c.compressed_bytes)),
    )
}

/// `chunks` are what compressing the first chunks of `src` gave.
pub open spec fn chunks_made<
    S,
    B,
    F: Fn(&S, usize, usize) -> Result<(B, usize), VramCompressedChtError>,
>(src: S, count: int, chunks: Seq<DeviceChunkSlice<B>>, compress: F) -> bool {
    forall|k: int|
        0 <= k < chunks.len() ==> #[trigger] chunk_made(src, k, count, chunks[k], compress)
}

/// The first chunks of `src` were compressed; then a chunk failed with `e`.
pub open spec fn compress_stops<
    S,
    B,
    F: Fn(&S, usize, usize) -> Result<(B, usize), VramCompressedChtError>,
>(
    src: S,
    count: int,
    done: Seq<DeviceChunkSlice<B>>,
    e: VramCompressedChtError,
    compress: F,
) -> bool {
    let k = done.len() as int;
    &&& k < chunks_for(count)
    &&& chunks_made(src, count, done, compress)
    &&& call_ensures(
        compress,
        (&src, (16_777_216 * k) as usize, chunk_plain(k, count) as usize),
        Err(e),
    )
}

/// What a compressor must allow, and that a compressed chunk fits its length field.
pub open spec fn compressor<
    S,
    B,
    F: Fn(&S, usize, usize) -> Result<(B, usize), VramCompressedChtError>,
>(compress: F) -> bool {
    &&& forall|s: &S, off: usize, len: usize| #[trigger] call_requires(compress, (s, off, len))
    &&& forall|s: &S, off: usize, len: usize, b: B, n: usize| #[trigger]
        call_ensures(compress, (s, off, len), Ok((b, n))) ==> n <= u32::MAX
}

/// Compress the words of `bucket_count` buckets chunk by chunk. `compress` is called
/// with the source, the byte offset of the chunk and its length in bytes. The first
/// chunk that fails ends the work.
fn compress_chunks<S, B, F: Fn(&S, usize, usize) -> Result<(B, usize), VramCompressedChtError>>(
    src: &S,
    bucket_count: usize,
    compress: &F,
) -> (r: Result<Vec<DeviceChunkSlice<B>>, VramCompressedChtError>)
    requires
        0 < bucket_count <= 131072,
        compressor(*compress),
    ensures
        match r {
            Ok(chunks) => chunks_made(*src, bucket_count as int, chunks@, *compress)
                && chunks@.len() == chunks_for(bucket_count as int) && tiled(
                chunks@,
                bucket_count as int,
            ) && packed_sum(chunks@) <= 64 * u32::MAX,
            Err(e) => exists|done: Seq<DeviceChunkSlice<B>>| #[trigger]
                compress_stops(*src, bucket_count as int, done, e, *compress),
        },
{
    let total: usize = bucket_count * 8192;
    let mut chunks: Vec<DeviceChunkSlice<B>> = Vec::new();
    let mut byte_offset: usize = 0;
    assert(packed_sum(chunks@) == 0);
    while byte_offset < total
        invariant
            0 < bucket_count <= 131072,
            compressor::<S, B, F>(*compress),
            total == 8192 * bucket_count,
            byte_offset <= total,
            chunks@.len() <= chunks_for(bucket_count as int),
            byte_offset == (if 16_777_216 * chunks@.len() < total {
                16_777_216int * chunks@.len()
            } else {
                total as int
            }),
            chunks@.len() == chunks_for(bucket_count as int) || byte_offset == 16_777_216
                * chunks@.len(),
            chunks_made(*src, bucket_count as int, chunks@, *compress),
            packed_sum(chunks@) <= chunks@.len() * u32::MAX,
        decreases total - byte_offset,
    {
        let ghost k = chunks@.len() as int;
        let rest: usize = total - byte_offset;
        let len: usize = if rest < BITCOMP_CHUNK_BYTES {
            rest
        } else {
            BITCOMP_CHUNK_BYTES
        };
        assert(len == chunk_plain(k, bucket_count as int));
        match compress(src, byte_offset, len) {
            Ok((d_compressed, compressed_bytes)) => {
                let ghost before = chunks@;
                chunks.push(
                    DeviceChunkSlice { d_compressed, compressed_bytes, uncompressed_bytes: len },
                );
                proof {
                    assert(chunks@.drop_last() =~= before);
                    assert(chunk_made(*src, k, bucket_count as int, chunks@[k], *compress));
                    assert forall|j: int| 0 <= j < chunks@.len() implies #[trigger] chunk_made(
                        *src,
                        j,
                        bucket_count as int,
                        chunks@[j],
                        *compress,
                    ) by {
                        if j < k {
                            assert(chunk_made(*src, j, bucket_count as int, before[j], *compress));
                        }
                    }
                    assert(packed_sum(chunks@) <= (k + 1) * u32::MAX);
                }
            },
            Err(e) => {
                assert(compress_stops(*src, bucket_count as int, chunks@, e, *compress));
                return Err(e);
            },
        }
        byte_offset = byte_offset + len;
    }
    proof {
        assert forall|k: int| 0 <= k < chunks@.len() implies (
        #[trigger] chunks@[k]).uncompressed_bytes == chunk_plain(k, bucket_count as int) by {
            assert(chunk_made(*src, k, bucket_count as int, chunks@[k], *compress));
        }
    }
    Ok(chunks)
}

/// Observable counters of the compressed tier.
#[derive(Debug, Clone, Copy, PartialEq, Eq, Structural)]
pub struct VramCompressedChtStats {
    /// Cumulative cache hits.
    pub hits: u64,
    /// Cumulative cache misses.
    pub misses: u64,
    /// Cumulative successful insertions.
    pub inserts: u64,
    /// Cumulative evictions.
    pub evictions: u64,
    /// Those of the insertions that were promotions from another tier.
    pub promotions: u64,
    /// Those of the promotions that compressed the device buffer of the uncompressed
    /// tier.
    pub cross_tier_promotions: u64,
    /// Compressed bytes of all cached entries.
    pub current_bytes: u64,
    /// Configured budget ceiling.
    pub budget_bytes: u64,
    /// Number of cached entries.
    pub entries: u64,
    /// Uncompressed bytes of all cached entries.
    pub uncompressed_bytes_total: u64,
    /// Compressed bytes of all cached entries.
    pub compressed_bytes_total: u64,
}

/// Events counted since construction or the last reset. Each counter wraps around.
#[derive(Debug, Clone, Copy, PartialEq, Eq, Structural)]
pub struct CompressedCounters {
    /// Lookups that found an entry.
    pub hits: u64,
    /// Lookups that found none.
    pub misses: u64,
    /// Entries stored.
    pub inserts: u64,
    /// Entries that made room for others or were evicted with their segment.
    pub evictions: u64,
    /// Entries stored by promotion.
    pub promotions: u64,
    /// Entries stored by promotion from the uncompressed tier.
    pub cross_tier_promotions: u64,
}

/// All counters at zero.
pub open spec fn no_events() -> CompressedCounters {
    CompressedCounters {
        hits: 0,
        misses: 0,
        inserts: 0,
        evictions: 0,
        promotions: 0,
        cross_tier_promotions: 0,
    }
}

/// Device-memory cache of posting lists in compressed form.
pub struct VramCompressedCht<B> {
    store: LruStore<VramCompressedTermEntry<B>>,
    data_type: BitcompDataType,
    disabled: bool,
    counters: CompressedCounters,
}

/// The entry is well formed and its bytes are those of its compressed chunks.
pub open spec fn charged<B>(e: Entry<VramCompressedTermEntry<B>>) -> bool {
    e.value.wf() && e.bytes == packed_sum(e.value.chunks@)
}

/// Uncompressed bytes of all entries.
pub open spec fn plain_total<B>(s: Seq<Entry<VramCompressedTermEntry<B>>>) -> int
    decreases s.len(),
{
    if s.len() == 0 {
        0
    } else {
        plain_total(s.drop_last()) + s.last().value.uncompressed_bytes
    }
}

/// The entry that holds chunks.
pub open spec fn chunks_entry<B>(
    key: ChtKey,
    index: Vec<(u16, u32)>,
    chunks: Vec<DeviceChunkSlice<B>>,
) -> Entry<VramCompressedTermEntry<B>> {
    Entry {
        key,
        value: VramCompressedTermEntry {
            chunks,
            uncompressed_bytes: (8192 * index@.len()) as usize,
            bucket_index: index,
        },
        bytes: packed_sum(chunks@) as u64,
    }
}

impl<B> VramCompressedCht<B> {
    /// The store is consistent and every entry is charged for its chunks, and every
    /// entry stored is cached or was evicted.
    pub closed spec fn wf(&self) -> bool {
        &&& self.store.wf()
        &&& forall|i: int| 0 <= i < self.store@.len() ==> charged(#[trigger] self.store@[i])
        &&& tally::balanced(self.gauge())
    }

    /// The cached terms in order of last use, oldest first.
    pub closed spec fn entries(&self) -> Seq<Entry<VramCompressedTermEntry<B>>> {
        self.store@
    }

    /// The byte budget.
    pub closed spec fn budget(&self) -> u64 {
        self.store.budget()
    }

    /// The kill switch is on.
    pub closed spec fn off(&self) -> bool {
        self.disabled
    }

    /// The element type of the codec.
    pub closed spec fn element(&self) -> BitcompDataType {
        self.data_type
    }

    /// The events counted.
    pub closed spec fn counts(&self) -> CompressedCounters {
        self.counters
    }

    /// Budget, kill switch and element type are those of `other`.
    pub open spec fn same_limits(&self, other: &Self) -> bool {
        self.budget() == other.budget() && self.off() == other.off() && self.element()
            == other.element()
    }

    /// Counters and number of entries.
    pub open spec fn gauge(&self) -> Gauge {
        let c = self.counts();
        Gauge {
            hits: c.hits,
            misses: c.misses,
            inserts: c.inserts,
            evictions: c.evictions,
            promotions: c.promotions,
            crossings: c.cross_tier_promotions,
            entries: self.entries().len(),
        }
    }

    /// The event `e` takes this cache to `after`, within the same limits.
    pub open spec fn follows(&self, e: Event, after: &Self) -> bool {
        after.same_limits(self) && tally::moves(self.gauge(), e, after.gauge())
    }

    /// What well-formedness says from outside.
    pub proof fn lemma_wf(&self)
        requires
            self.wf(),
        ensures
            lru::distinct(self.entries()),
            0 <= lru::total(self.entries()) <= self.budget(),
            forall|i: int| 0 <= i < self.entries().len() ==> charged(#[trigger] self.entries()[i]),
            tally::balanced(self.gauge()),
    {
        self.store.lemma_wf();
    }

    /// Construct a fresh cache with the given budget of compressed bytes, for
    /// postings. `disabled` is the answer of the kill switch: where it is on, lookups
    /// miss and nothing is inserted or promoted.
    pub fn with_budget(budget_bytes: u64, disabled: bool) -> (r: Self)
        ensures
            fresh(r, budget_bytes, disabled, BitcompDataType::Uint32),
    {
        Self::with_budget_and_data_type(budget_bytes, BitcompDataType::Uint32, disabled)
    }

    /// Construct a fresh cache with the given budget of compressed bytes, element type
    /// and answer of the kill switch.
    pub fn with_budget_and_data_type(
        budget_bytes: u64,
        data_type: BitcompDataType,
        disabled: bool,
    ) -> (r: Self)
        ensures
            fresh(r, budget_bytes, disabled, data_type),
    {
        VramCompressedCht {
            store: LruStore::new(budget_bytes),
            data_type,
            disabled,
            counters: CompressedCounters {
                hits: 0,
                misses: 0,
                inserts: 0,
                evictions: 0,
                promotions: 0,
                cross_tier_promotions: 0,
            },
        }
    }

    /// What a lookup of `key` that finds `found` does.
    pub open spec fn looks_up(
        &self,
        after: &Self,
        key: ChtKey,
        found: Option<VramCompressedTermEntry<B>>,
    ) -> bool {
        let s = self.entries();
        let c = self.counts();
        match found {
            Some(v) => {
                &&& !self.off() && lru::held(s, key)
                &&& v == s[lru::place(s, key)].value
                &&& after.entries() == lru::touched(s, lru::place(s, key))
                &&& after.counts() == (CompressedCounters { hits: lru::wadd(c.hits, 1), ..c })
            },
            None => {
                &&& self.off() || !lru::held(s, key)
                &&& after.entries() == s
                &&& after.counts() == (CompressedCounters { misses: lru::wadd(c.misses, 1), ..c })
            },
        }
    }

    /// Look up a cached term. A hit makes the entry the most recently used. With the
    /// kill switch on, every lookup is a miss.
    pub fn get(&mut self, key: &ChtKey) -> (r: Option<Arc<VramCompressedTermEntry<B>>>)
        requires
            old(self).wf(),
        ensures
            final(self).wf(),
            final(self).same_limits(old(self)),
            r is Some <==> !old(self).off() && lru::held(old(self).entries(), *key),
            r matches Some(v) ==> v.wf(),
            old(self).looks_up(
                final(self),
                *key,
                match r {
                    Some(v) => Some(*v),
                    None => None,
                },
            ),
    {
        if self.disabled {
            self.counters.misses = self.counters.misses.wrapping_add(1);
            return None;
        }
        let r: Option<Arc<VramCompressedTermEntry<B>>> = self.store.get(key);
        if r.is_some() {
            self.counters.hits = self.counters.hits.wrapping_add(1);
        } else {
            self.counters.misses = self.counters.misses.wrapping_add(1);
        }
        r
    }

    /// What storing an entry does, with `promoted` and `crossed` added to the
    /// promotion counters.
    pub open spec fn stores(
        &self,
        after: &Self,
        e: Entry<VramCompressedTermEntry<B>>,
        promoted: int,
        crossed: int,
    ) -> bool {
        let s = self.entries();
        let c = self.counts();
        &&& after.entries() == lru::stored(s, e, self.budget() as int)
        &&& after.counts() == (CompressedCounters {
            inserts: lru::wadd(c.inserts, 1),
            evictions: lru::wadd(
                c.evictions,
                lru::shed_count(s, e.bytes as int, self.budget() as int),
            ),
            promotions: lru::wadd(c.promotions, promoted),
            cross_tier_promotions: lru::wadd(c.cross_tier_promotions, crossed),
            ..c
        })
    }

    /// Entries and counters are unchanged.
    pub open spec fn unchanged(&self, after: &Self) -> bool {
        after.entries() == self.entries() && after.counts() == self.counts()
    }

    /// What compressing the words `src` of the buckets in `index` and caching them
    /// under `key` does, and what it returns.
    pub open spec fn compresses<
        S,
        F: Fn(&S, usize, usize) -> Result<(B, usize), VramCompressedChtError>,
    >(
        &self,
        after: &Self,
        key: ChtKey,
        index: Vec<(u16, u32)>,
        src: S,
        compress: F,
        promoted: int,
        crossed: int,
        r: Result<bool, VramCompressedChtError>,
    ) -> bool {
        let s = self.entries();
        let count = index@.len() as int;
        if chunks_for(count) > MAX_CHUNKS_PER_ENTRY {
            &&& r == Err::<bool, VramCompressedChtError>(
                VramCompressedChtError::TooManyChunks {
                    chunks_needed: chunks_for(count) as usize,
                    max: MAX_CHUNKS_PER_ENTRY,
                },
            )
            &&& self.unchanged(after)
        } else if lru::held(s, key) {
            &&& r == Ok::<bool, VramCompressedChtError>(false)
            &&& after.entries() == lru::touched(s, lru::place(s, key))
            &&& after.counts() == self.counts()
        } else {
            match r {
                Err(e) => self.unchanged(after) && exists|done: Seq<DeviceChunkSlice<B>>| #[trigger]
                    compress_stops(src, count, done, e, compress),
                Ok(b) => exists|chunks: Vec<DeviceChunkSlice<B>>|
                    {
                        &&& #[trigger] chunks_made(src, count, chunks@, compress)
                        &&& chunks@.len() == chunks_for(count)
                        &&& b == (packed_sum(chunks@) <= self.budget())
                        &&& b ==> self.stores(
                            after,
                            chunks_entry(key, index, chunks),
                            promoted,
                            crossed,
                        )
                        &&& !b ==> self.unchanged(after)
                    },
            }
        }
    }

    /// Compress the words `src` of the buckets in `bucket_index`, cache them under
    /// `key` and count the promotion.
    fn compress_and_store<S, F: Fn(&S, usize, usize) -> Result<(B, usize), VramCompressedChtError>>(
        &mut self,
        key: ChtKey,
        bucket_index: Vec<(u16, u32)>,
        src: &S,
        compress: &F,
        promoted: bool,
        crossed: bool,
    ) -> (r: Result<bool, VramCompressedChtError>)
        requires
            old(self).wf(),
            0 < bucket_index@.len(),
            8192 * bucket_index@.len() <= usize::MAX,
            compressor::<S, B, F>(*compress),
        ensures
            final(self).wf(),
            final(self).same_limits(old(self)),
            old(self).compresses(
                final(self),
                key,
                bucket_index,
                *src,
                *compress,
                if promoted {
                    1
                } else {
                    0
                },
                if crossed {
                    1
                } else {
                    0
                },
                r,
            ),
    {
        let ghost index = bucket_index;
        let count: usize = bucket_index.len();
        let needed: usize = (count - 1) / BUCKETS_PER_CHUNK + 1;
        assert(needed == chunks_for(count as int));
        if needed > MAX_CHUNKS_PER_ENTRY {
            return Err(
                VramCompressedChtError::TooManyChunks {
                    chunks_needed: needed,
                    max: MAX_CHUNKS_PER_ENTRY,
                },
            );
        }
        match self.store.find(&key) {
            Some(i) => {
                self.store.touch(i);
                return Ok(false);
            },
            None => {},
        }
        let chunks: Vec<DeviceChunkSlice<B>> = match compress_chunks(src, count, compress) {
            Ok(c) => c,
            Err(e) => {
                return Err(e);
            },
        };
        let ghost made = chunks;
        proof {
            lemma_packed_nonneg(chunks@);
            assert(chunks_made(*src, count as int, made@, *compress));
        }
        let bytes: u64 = packed_total(&chunks);
        if bytes > self.store.budget_bytes() {
            return Ok(false);
        }
        let entry: VramCompressedTermEntry<B> = VramCompressedTermEntry {
            chunks,
            uncompressed_bytes: count * 8192,
            bucket_index,
        };
        let ghost e = Entry { key, value: entry, bytes };
        assert(e == chunks_entry(key, index, made));
        self.install_entry(key, entry, bytes);
        if promoted {
            self.counters.promotions = self.counters.promotions.wrapping_add(1);
        }
        if crossed {
            self.counters.cross_tier_promotions =
            self.counters.cross_tier_promotions.wrapping_add(1);
        }
        Ok(true)
    }

    /// Store an entry that is not cached yet.
    fn install_entry(&mut self, key: ChtKey, entry: VramCompressedTermEntry<B>, bytes: u64)
        requires
            old(self).wf(),
            entry.wf(),
            bytes == packed_sum(entry.chunks@),
            bytes <= old(self).budget(),
            !lru::held(old(self).entries(), key),
        ensures
            final(self).wf(),
            final(self).same_limits(old(self)),
            old(self).stores(final(self), (Entry { key, value: entry, bytes }), 0, 0),
    {
        proof {
            lru::lemma_shed(self.store@, bytes as int, self.store.budget() as int);
        }
        let evicted: u64 = self.store.store(key, Arc::new(entry), bytes);
        self.counters.evictions = self.counters.evictions.wrapping_add(evicted);
        self.counters.inserts = self.counters.inserts.wrapping_add(1);
        proof {
            lru::lemma_wadd(old(self).counts().promotions, 0, 0);
            lru::lemma_wadd(old(self).counts().cross_tier_promotions, 0, 0);
            tally::lemma_keeps_balance(
                old(self).gauge(),
                tally::change(1, evicted as nat),
                self.gauge(),
            );
        }
    }

    /// Expand a posting list, compress it and cache it under `key`, evicting the least
    /// recently used entries to fit the budget.
    ///
    /// `Ok(true)` when the entry was stored; `Ok(false)` when the kill switch is on,
    /// the list is empty, `key` is cached already (which then becomes the most
    /// recently used), or the compressed list alone exceeds the budget. When a chunk
    /// cannot be compressed, its error is returned and nothing changes.
    pub fn insert<F: Fn(&Vec<u32>, usize, usize) -> Result<(B, usize), VramCompressedChtError>>(
        &mut self,
        key: ChtKey,
        roaring: &RoaringPostings,
        compress: &F,
    ) -> (r: Result<bool, VramCompressedChtError>)
        requires
            old(self).wf(),
            roaring.wf(),
            compressor::<Vec<u32>, B, F>(*compress),
        ensures
            final(self).wf(),
            final(self).same_limits(old(self)),
            old(self).off() || roaring@.len() == 0 ==> r == Ok::<bool, VramCompressedChtError>(
                false,
            ) && old(self).unchanged(final(self)),
            !old(self).off() && roaring@.len() > 0 ==> exists|p: SharedBitmapPayload| #[trigger]
                p.expands(roaring@) && old(self).compresses(
                    final(self),
                    key,
                    p.bucket_index,
                    p.staging,
                    *compress,
                    0,
                    0,
                    r,
                ),
    {
        self.compress_postings(key, roaring, compress, false)
    }

    /// What promoting the documents `docs` does, and what it returns.
    pub open spec fn promotes<
        F: Fn(&Vec<u32>, usize, usize) -> Result<(B, usize), VramCompressedChtError>,
    >(
        &self,
        after: &Self,
        key: ChtKey,
        docs: Set<u32>,
        compress: F,
        r: Result<bool, VramCompressedChtError>,
    ) -> bool {
        &&& self.off() || docs.len() == 0 ==> r == Ok::<bool, VramCompressedChtError>(false)
            && self.unchanged(after)
        &&& !self.off() && docs.len() > 0 ==> exists|p: SharedBitmapPayload| #[trigger]
            p.expands(docs) && self.compresses(
                after,
                key,
                p.bucket_index,
                p.staging,
                compress,
                1,
                0,
                r,
            )
    }

    /// Insert, and count a stored entry as a promotion.
    pub fn promote<F: Fn(&Vec<u32>, usize, usize) -> Result<(B, usize), VramCompressedChtError>>(
        &mut self,
        key: ChtKey,
        roaring: &RoaringPostings,
        compress: &F,
    ) -> (r: Result<bool, VramCompressedChtError>)
        requires
            old(self).wf(),
            roaring.wf(),
            compressor::<Vec<u32>, B, F>(*compress),
        ensures
            final(self).wf(),
            final(self).same_limits(old(self)),
            old(self).promotes(final(self), key, roaring@, *compress, r),
    {
        self.compress_postings(key, roaring, compress, true)
    }

    fn compress_postings<
        F: Fn(&Vec<u32>, usize, usize) -> Result<(B, usize), VramCompressedChtError>,
    >(&mut self, key: ChtKey, roaring: &RoaringPostings, compress: &F, promoted: bool) -> (r: Result<
        bool,
        VramCompressedChtError,
    >)
        requires
            old(self).wf(),
            roaring.wf(),
            compressor::<Vec<u32>, B, F>(*compress),
        ensures
            final(self).wf(),
            final(self).same_limits(old(self)),
            old(self).off() || roaring@.len() == 0 ==> r == Ok::<bool, VramCompressedChtError>(
                false,
            ) && old(self).unchanged(final(self)),
            !old(self).off() && roaring@.len() > 0 ==> exists|p: SharedBitmapPayload| #[trigger]
                p.expands(roaring@) && old(self).compresses(
                    final(self),
                    key,
                    p.bucket_index,
                    p.staging,
                    *compress,
                    if promoted {
                        1
                    } else {
                        0
                    },
                    0,
                    r,
                ),
    {
        if self.disabled {
            return Ok(false);
        }
        let p: SharedBitmapPayload = match SharedBitmapPayload::from_postings(roaring) {
            None => {
                return Ok(false);
            },
            Some(p) => p,
        };
        let ghost q = p;
        let r: Result<bool, VramCompressedChtError> = self.compress_and_store(
            key,
            p.bucket_index,
            &p.staging,
            compress,
            promoted,
            false,
        );
        assert(q.expands(roaring@));
        r
    }

    /// Compress the device buffer of an entry of the uncompressed tier and cache it
    /// under `key`, without going back to the posting list. The bucket index is that
    /// of the entry.
    ///
    /// Returns as [`Self::insert`] does; in addition, an entry that would need more
    /// than [`MAX_CHUNKS_PER_ENTRY`] chunks is an error. A stored entry counts as a
    /// promotion and as a cross-tier promotion.
    pub fn promote_v2_to_v3<
        D,
        F: Fn(&D, usize, usize) -> Result<(B, usize), VramCompressedChtError>,
    >(&mut self, key: &ChtKey, v2_entry: &VramTermEntry<D>, compress: &F) -> (r: Result<
        bool,
        VramCompressedChtError,
    >)
        requires
            old(self).wf(),
            v2_entry.wf(),
            compressor::<D, B, F>(*compress),
        ensures
            final(self).wf(),
            final(self).same_limits(old(self)),
            old(self).off() || v2_entry.bucket_index@.len() == 0 ==> r == Ok::<
                bool,
                VramCompressedChtError,
            >(false) && old(self).unchanged(final(self)),
            !old(self).off() && v2_entry.bucket_index@.len() > 0 ==> exists|
                index: Vec<(u16, u32)>,
            |
                #![trigger index@]
                index@ == v2_entry.bucket_index@ && old(self).compresses(
                    final(self),
                    *key,
                    index,
                    v2_entry.d_buckets,
                    *compress,
                    1,
                    1,
                    r,
                ),
    {
        if self.disabled {
            return Ok(false);
        }
        if v2_entry.bucket_index.len() == 0 {
            return Ok(false);
        }
        let index: Vec<(u16, u32)> = copy_index(&v2_entry.bucket_index);
        let ghost i0 = index;
        let r: Result<bool, VramCompressedChtError> = self.compress_and_store(
            *key,
            index,
            &v2_entry.d_buckets,
            compress,
            true,
            true,
        );
        assert(i0@ == v2_entry.bucket_index@);
        r
    }

    /// Snapshot of the counters.
    pub fn stats(&self) -> (r: VramCompressedChtStats)
        requires
            self.wf(),
        ensures
            (CompressedCounters {
                hits: r.hits,
                misses: r.misses,
                inserts: r.inserts,
                evictions: r.evictions,
                promotions: r.promotions,
                cross_tier_promotions: r.cross_tier_promotions,
            }) == self.counts(),
            r.current_bytes == lru::total(self.entries()),
            r.compressed_bytes_total == r.current_bytes,
            r.uncompressed_bytes_total == (if plain_total(self.entries()) <= u64::MAX {
                plain_total(self.entries())
            } else {
                u64::MAX as int
            }),
            r.budget_bytes == self.budget(),
            r.entries == self.entries().len(),
            r.current_bytes <= r.budget_bytes,
            forall|i: int| 0 <= i < self.entries().len() ==> charged(#[trigger] self.entries()[i]),
            r.inserts == lru::wadd(r.evictions, r.entries as int),
    {
        proof {
            self.store.lemma_wf();
        }
        let n: usize = self.store.len();
        let ghost s = self.store@;
        let mut plain: u64 = 0;
        let mut i: usize = 0;
        assert(s.take(0) =~= Seq::empty());
        while i < n
            invariant
                s == self.store@,
                n == s.len(),
                i <= n,
                plain == (if plain_total(s.take(i as int)) <= u64::MAX {
                    plain_total(s.take(i as int))
                } else {
                    u64::MAX as int
                }),
            decreases n - i,
        {
            assert(s.take(i + 1).drop_last() =~= s.take(i as int));
            plain = plain.saturating_add(self.store.slot(i).value.uncompressed_bytes as u64);
            i = i + 1;
        }
        assert(s.take(n as int) =~= s);
        VramCompressedChtStats {
            hits: self.counters.hits,
            misses: self.counters.misses,
            inserts: self.counters.inserts,
            evictions: self.counters.evictions,
            promotions: self.counters.promotions,
            cross_tier_promotions: self.counters.cross_tier_promotions,
            current_bytes: self.store.current_bytes(),
            budget_bytes: self.store.budget_bytes(),
            entries: n as u64,
            uncompressed_bytes_total: plain,
            compressed_bytes_total: self.store.current_bytes(),
        }
    }

    /// Reset all state, counters and entries.
    pub fn reset(&mut self)
        ensures
            final(self).same_limits(old(self)),
            fresh(*final(self), old(self).budget(), old(self).off(), old(self).element()),
    {
        self.store.clear();
        self.counters =
        CompressedCounters {
            hits: 0,
            misses: 0,
            inserts: 0,
            evictions: 0,
            promotions: 0,
            cross_tier_promotions: 0,
        };
    }

    /// Evict every entry of the given segments. Returns how many went.
    pub fn evict_by_segments(&mut self, segment_ids: &[SegmentId]) -> (r: u64)
        requires
            old(self).wf(),
        ensures
            final(self).wf(),
            final(self).same_limits(old(self)),
            final(self).entries() == lru::without_segments(old(self).entries(), segment_ids@),
            r == old(self).entries().len() - final(self).entries().len(),
            final(self).counts() == (CompressedCounters {
                evictions: lru::wadd(old(self).counts().evictions, r as int),
                ..old(self).counts()
            }),
    {
        let ghost s = self.store@;
        let count: u64 = self.store.remove_segments(segment_ids);
        self.counters.evictions = self.counters.evictions.wrapping_add(count);
        proof {
            let keep = |e: Entry<VramCompressedTermEntry<B>>| !lru::in_segments(
                e.key,
                segment_ids@,
            );
            assert forall|i: int| 0 <= i < self.store@.len() implies charged(
                #[trigger] self.store@[i],
            ) by {
                s.lemma_filter_contains_rev(keep, self.store@[i]);
            }
            lemma_evict_moves(*old(self), count, *self);
            tally::lemma_keeps_balance(
                old(self).gauge(),
                tally::change(0, count as nat),
                self.gauge(),
            );
        }
        count
    }

    /// What dumping the entries `sel` returns: `all` are what the downloads of the
    /// first entries gave and `part` what those of the entry that failed gave.
    pub open spec fn dumps<D: Fn(&B, usize) -> Result<Vec<u8>, u32>>(
        sel: Seq<Entry<VramCompressedTermEntry<B>>>,
        download: D,
        all: Seq<Seq<Vec<u8>>>,
        part: Seq<Vec<u8>>,
        r: Result<(Vec<u8>, u64), DumpError>,
    ) -> bool {
        &&& downloads(sel, all, download)
        &&& match r {
            Ok((bytes, n)) => n == sel.len() && all.len() == n && bytes@
                == compressed_record::dump_bytes(records_of(sel, all)),
            Err(DumpError::Cuda { entry_index, bytes, code }) => {
                let e = sel[all.len() as int].value;
                let k = part.len() as int;
                &&& all.len() < sel.len()
                &&& entry_index == all.len()
                &&& chunk_downloads(e, part, download)
                &&& k < e.chunks@.len()
                &&& bytes == e.chunks@[k].compressed_bytes
                &&& chunk_fails(e.chunks@[k], code, download)
            },
        }
    }

    /// Write every entry, oldest first, in dump form. `download` copies a device
    /// buffer of the given number of bytes back to the host. Returns the bytes and the
    /// number of entries; the first download that fails is reported.
    pub fn dump_to_bytes<D: Fn(&B, usize) -> Result<Vec<u8>, u32>>(&self, download: &D) -> (r: Result<
        (Vec<u8>, u64),
        DumpError,
    >)
        requires
            self.wf(),
            downloader(*download),
        ensures
            exists|all: Seq<Seq<Vec<u8>>>, part: Seq<Vec<u8>>| #[trigger]
                Self::dumps(self.entries(), *download, all, part, r),
    {
        let n: usize = self.store.len();
        let ghost s = self.store@;
        let mut picks: Vec<usize> = Vec::new();
        let mut i: usize = 0;
        while i < n
            invariant
                s == self.store@,
                n == s.len(),
                i <= n,
                picks@.len() == i,
                forall|j: int| 0 <= j < i ==> #[trigger] picks@[j] == j,
            decreases n - i,
        {
            picks.push(i);
            i = i + 1;
        }
        assert(picked(s, picks@) =~= s);
        self.dump_picked(&picks, download)
    }

    /// Write the entries of the given segments, oldest first, in dump form. The form
    /// is that of [`Self::dump_to_bytes`]; with no segments it is an empty dump.
    pub fn dump_by_segments<D: Fn(&B, usize) -> Result<Vec<u8>, u32>>(
        &self,
        segment_ids: &[SegmentId],
        download: &D,
    ) -> (r: Result<(Vec<u8>, u64), DumpError>)
        requires
            self.wf(),
            downloader(*download),
        ensures
            exists|all: Seq<Seq<Vec<u8>>>, part: Seq<Vec<u8>>| #[trigger]
                Self::dumps(selected(self.entries(), segment_ids@), *download, all, part, r),
    {
        let n: usize = self.store.len();
        let ghost s = self.store@;
        let mut picks: Vec<usize> = Vec::new();
        let mut i: usize = 0;
        proof {
            assert(s.take(0) =~= Seq::empty());
            reveal(Seq::filter);
            assert(picked(s, picks@) =~= selected(s.take(0), segment_ids@));
        }
        while i < n
            invariant
                s == self.store@,
                n == s.len(),
                i <= n,
                forall|j: int| 0 <= j < picks@.len() ==> (#[trigger] picks@[j]) < n,
                picked(s, picks@) == selected(s.take(i as int), segment_ids@),
            decreases n - i,
        {
            let ghost before = picks@;
            let slot: &Slot<VramCompressedTermEntry<B>> = self.store.slot(i);
            assert(slot@ == s[i as int]);
            if contains_segment(segment_ids, &slot.key.segment_id) {
                picks.push(i);
                assert(picked(s, picks@) =~= picked(s, before).push(s[i as int]));
            }
            proof {
                reveal(Seq::filter);
                assert(s.take(i + 1).drop_last() =~= s.take(i as int));
                assert(s.take(i + 1).last() == s[i as int]);
            }
            i = i + 1;
        }
        assert(s.take(n as int) =~= s);
        self.dump_picked(&picks, download)
    }

    /// Write the entries at the given positions in dump form.
    fn dump_picked<D: Fn(&B, usize) -> Result<Vec<u8>, u32>>(
        &self,
        picks: &Vec<usize>,
        download: &D,
    ) -> (r: Result<(Vec<u8>, u64), DumpError>)
        requires
            self.wf(),
            downloader(*download),
            forall|j: int| 0 <= j < picks@.len() ==> (#[trigger] picks@[j]) < self.entries().len(),
        ensures
            exists|all: Seq<Seq<Vec<u8>>>, part: Seq<Vec<u8>>| #[trigger]
                Self::dumps(picked(self.entries(), picks@), *download, all, part, r),
    {
        let n: usize = picks.len();
        let ghost s = self.store@;
        let ghost sel = picked(s, picks@);
        let ghost mut all = Seq::<Seq<Vec<u8>>>::empty();
        let mut out: Vec<u8> = Vec::new();
        write_file_header(&mut out, MAGIC_V4, n as u64);
        let ghost front = persist::header_bytes(MAGIC_V4, n as u64);
        let mut i: usize = 0;
        proof {
            assert(records_of(sel, all) =~= Seq::empty());
            assert(out@ =~= front + compressed_record::records_bytes(records_of(sel, all)));
        }
        while i < n
            invariant
                self.wf(),
                downloader(*download),
                s == self.store@,
                sel == picked(s, picks@),
                n == picks@.len(),
                i <= n,
                forall|j: int| 0 <= j < picks@.len() ==> (#[trigger] picks@[j]) < s.len(),
                all.len() == i,
                downloads(sel, all, *download),
                out@ == front + compressed_record::records_bytes(records_of(sel, all)),
            decreases n - i,
        {
            let slot: &Slot<VramCompressedTermEntry<B>> = self.store.slot(picks[i]);
            let entry: &VramCompressedTermEntry<B> = &slot.value;
            proof {
                assert(sel[i as int] == s[picks@[i as int] as int]);
                assert(charged(s[picks@[i as int] as int]));
                assert(slot@ == sel[i as int]);
            }
            let ghost before = out@;
            write_chtkey(&mut out, &slot.key);
            write_index(&mut out, &entry.bucket_index);
            push_u64(&mut out, entry.uncompressed_bytes as u64);
            push_u32(&mut out, entry.chunks.len() as u32);
            let ghost mid = out@;
            match write_chunks(&mut out, entry, download) {
                Ok(()) => {},
                Err((bytes, code)) => {
                    let e: DumpError = DumpError::Cuda { entry_index: i as u64, bytes, code };
                    proof {
                        let part = choose|part: Seq<Vec<u8>>| #[trigger]
                            chunk_downloads(*entry, part, *download) && chunks_stop(
                                *entry,
                                part,
                                bytes,
                                code,
                                *download,
                            );
                        assert(sel == picked(self.entries(), picks@));
                        assert(Self::dumps(sel, *download, all, part, Err(e)));
                    }
                    return Err(e);
                },
            }
            proof {
                let bodies = choose|bodies: Seq<Vec<u8>>| #[trigger]
                    chunk_downloads(*entry, bodies, *download) && bodies.len()
                        == entry.chunks@.len() && out@ == mid + compressed_record::chunks_bytes(
                        compressed_record::contents(bodies),
                    );
                let r = record_of(sel[i as int], bodies);
                let old_records = records_of(sel, all);
                let old_all = all;
                all = all.push(bodies);
                assert(out@ == before + compressed_record::record_bytes(r)) by {
                    wire::lemma_five(
                        before,
                        persist::key_bytes(r.key),
                        persist::index_bytes(r.index),
                        wire::le64(r.uncompressed_bytes),
                        wire::le32(compressed_record::clamp32(r.bodies.len() as int)),
                        compressed_record::chunks_bytes(r.bodies),
                    );
                }
                assert(records_of(sel, all) =~= old_records.push(r));
                compressed_record::lemma_records_push(old_records, r);
                wire::lemma_assoc(
                    front,
                    compressed_record::records_bytes(old_records),
                    compressed_record::record_bytes(r),
                );
                assert forall|j: int| 0 <= j < all.len() implies #[trigger] entry_downloads(
                    sel[j].value,
                    all[j],
                    *download,
                ) by {
                    if j < old_all.len() {
                        assert(entry_downloads(sel[j].value, old_all[j], *download));
                    }
                }
            }
            i = i + 1;
        }
        write_file_trailer(&mut out);
        assert(Self::dumps(sel, *download, all, Seq::empty(), Ok((out, n as u64))));
        Ok((out, n as u64))
    }

    /// The cache after the records were installed, given what their uploads gave.
    pub open spec fn after_install(
        &self,
        after: &Self,
        recs: Seq<CompressedRecord>,
        outs: Seq<Option<Vec<DeviceChunkSlice<B>>>>,
    ) -> bool {
        let c = self.counts();
        let (t, loaded, gone) = installed(
            self.entries(),
            recs,
            outs,
            self.budget() as int,
            recs.len() as int,
        );
        &&& after.entries() == t
        &&& after.counts() == (CompressedCounters {
            inserts: lru::wadd(c.inserts, loaded),
            evictions: lru::wadd(c.evictions, gone),
            ..c
        })
    }

    /// What loading a dump does, and what it returns: `recs` are the records that
    /// parse, `outs` the chunks that their uploads gave.
    pub open spec fn loads<U: Fn(&Vec<u8>) -> Result<B, VramChtError>>(
        &self,
        after: &Self,
        bytes: Seq<u8>,
        upload: U,
        recs: Seq<CompressedRecord>,
        outs: Seq<Option<Vec<DeviceChunkSlice<B>>>>,
        r: Result<u64, LoadError>,
    ) -> bool {
        &&& record_views(recs) == compressed_record::parse_dump(bytes).0
        &&& outs.len() == recs.len()
        &&& uploads(recs, outs, self.budget() as int, upload)
        &&& self.after_install(after, recs, outs)
        &&& match compressed_record::parse_dump(bytes).1 {
            Ok(_) => if recs.len() > 0 && all_lost(recs, outs, self.budget() as int) {
                r matches Err(LoadError::Cuda { entry_index, bytes, code }) && entry_index
                    == recs.len() - 1 && upload_failed::<B, U>(recs.last(), bytes, code, upload)
            } else {
                r matches Ok(n) && n == installed(
                    self.entries(),
                    recs,
                    outs,
                    self.budget() as int,
                    recs.len() as int,
                ).1
            },
            Err(e) => r == Err::<u64, LoadError>(e),
        }
    }

    /// What installing one record does, given what its uploads gave, and what it
    /// returns: whether the record was stored, or why an upload failed.
    pub open spec fn installs_record<U: Fn(&Vec<u8>) -> Result<B, VramChtError>>(
        &self,
        after: &Self,
        rec: CompressedRecord,
        out: Option<Vec<DeviceChunkSlice<B>>>,
        r: Result<bool, VramChtError>,
        upload: U,
    ) -> bool {
        let c = self.counts();
        let budget = self.budget() as int;
        let (t, loaded, gone) = install_step(self.entries(), rec, out, budget);
        &&& after.entries() == t
        &&& match r {
            Ok(stored) => !lost(rec, out, budget) && stored == (loaded == 1),
            Err(e) => lost(rec, out, budget) && upload_failed::<B, U>(
                rec,
                vram_cht::call_numbers(e).0,
                vram_cht::call_numbers(e).1,
                upload,
            ),
        }
        &&& after.counts() == (CompressedCounters {
            inserts: lru::wadd(c.inserts, loaded),
            evictions: lru::wadd(c.evictions, gone),
            ..c
        })
    }

    /// Install one record of a dump. Returns whether it was stored, or why an
    /// upload failed.
    fn install_record<U: Fn(&Vec<u8>) -> Result<B, VramChtError>>(
        &mut self,
        rec: CompressedRecord,
        upload: &U,
    ) -> (r: Result<bool, VramChtError>)
        requires
            old(self).wf(),
            rec.bucket_index@.len() <= u32::MAX,
            rec.bodies@.len() <= u32::MAX,
            compressed_record::body_sum(rec@.bodies) <= u64::MAX,
            forall|body: &Vec<u8>| #[trigger] call_requires(*upload, (body,)),
        ensures
            final(self).wf(),
            final(self).same_limits(old(self)),
            exists|out: Option<Vec<DeviceChunkSlice<B>>>| #[trigger]
                uploaded(rec, out, old(self).budget() as int, *upload) && old(self).installs_record(
                    final(self),
                    rec,
                    out,
                    r,
                    *upload,
                ),
    {
        let ghost r0 = rec;
        let ghost budget = self.budget() as int;
        proof {
            lru::lemma_wadd(self.counts().inserts, 0, 0);
            lru::lemma_wadd(self.counts().evictions, 0, 0);
        }
        let count: usize = rec.bucket_index.len();
        let n: usize = rec.bodies.len();
        if count as u64 * 8192 != rec.uncompressed_bytes || n == 0 || (n as u64) * 2048
            < count as u64 || count > usize::MAX / 8192 {
            assert(uploaded(r0, None, budget, *upload));
            return Ok(false);
        }
        let total: u64 = bodies_total(&rec.bodies);
        if total > self.store.budget_bytes() {
            assert(uploaded(r0, None, budget, *upload));
            return Ok(false);
        }
        let chunks: Vec<DeviceChunkSlice<B>> = match upload_chunks(&rec.bodies, count, upload) {
            Ok(c) => c,
            Err(e) => {
                assert(uploaded(r0, None, budget, *upload)) by {
                    assert(chunk_upload_fails::<B, U>(r0.bodies@, e, *upload));
                }
                return Err(e);
            },
        };
        proof {
            assert(uploaded(r0, Some(chunks), budget, *upload));
        }
        if self.store.find(&rec.key).is_some() {
            return Ok(false);
        }
        let entry: VramCompressedTermEntry<B> = VramCompressedTermEntry {
            chunks,
            uncompressed_bytes: count * 8192,
            bucket_index: rec.bucket_index,
        };
        self.install_entry(rec.key, entry, total);
        Ok(true)
    }

    /// Install the entries of a dump, in order. `upload` fills a device buffer.
    ///
    /// A record is skipped when its bucket index does not account for its uncompressed
    /// bytes, its chunks do not cover its buckets, its compressed bytes exceed the
    /// budget, an upload fails, or its key is cached already. An unsound dump is an
    /// error; the records in front of the fault stay installed. When the dump is sound
    /// and has records, and every one of them is lost to a failed upload, the failure
    /// of the last is the error, and the cache is unchanged.
    pub fn load_from_bytes<U: Fn(&Vec<u8>) -> Result<B, VramChtError>>(
        &mut self,
        bytes: &[u8],
        upload: &U,
    ) -> (r: Result<u64, LoadError>)
        requires
            old(self).wf(),
            forall|body: &Vec<u8>| #[trigger] call_requires(*upload, (body,)),
        ensures
            final(self).wf(),
            final(self).same_limits(old(self)),
            exists|recs: Seq<CompressedRecord>, outs: Seq<Option<Vec<DeviceChunkSlice<B>>>>|
                #[trigger]
                old(self).loads(final(self), bytes@, *upload, recs, outs, r),
    {
        let ghost start = *self;
        let ghost mut recs = Seq::<CompressedRecord>::empty();
        let ghost mut outs = Seq::<Option<Vec<DeviceChunkSlice<B>>>>::empty();
        let ghost s = self.entries();
        let ghost c = self.counts();
        let ghost budget = self.budget() as int;
        let mut reader: ByteReader<'_> = ByteReader::new(bytes);
        proof {
            lru::lemma_wadd(c.inserts, 0, 0);
            lru::lemma_wadd(c.evictions, 0, 0);
            assert(record_views(recs) =~= Seq::empty());
        }
        let magics: Vec<u32> = vec![MAGIC_V4, MAGIC_V3];
        assert(magics@ =~= compressed_record::magics());
        let (magic, n): (u32, u64) = match read_and_validate_file_header_multi(
            &mut reader,
            magics.as_slice(),
        ) {
            Ok(m) => m,
            Err(e) => {
                proof {
                    assert(start.loads(self, bytes@, *upload, recs, outs, Err(e)));
                }
                return Err(e);
            },
        };
        let ghost b = bytes@.skip(24);
        let mut loaded: u64 = 0;
        let mut spared: bool = false;
        let mut last: Option<(usize, u32)> = None;
        let mut i: u64 = 0;
        proof {
            let (rest_records, out) = compressed_record::parse_records(b, magic, 0, n as int);
            assert(record_views(recs) + rest_records =~= rest_records);
        }
        while i < n
            invariant
                self.wf(),
                start == *old(self),
                self.same_limits(&start),
                reader.wf(),
                forall|body: &Vec<u8>| #[trigger] call_requires(*upload, (body,)),
                s == start.entries(),
                c == start.counts(),
                budget == start.budget(),
                b == bytes@.skip(24),
                persist::parse_header(bytes@, compressed_record::magics()) == Ok::<
                    (u32, u64),
                    LoadError,
                >((magic, n)),
                i <= n,
                recs.len() == i,
                outs.len() == i,
                uploads(recs, outs, budget, *upload),
                start.after_install(self, recs, outs),
                loaded == installed(s, recs, outs, budget, i as int).1,
                loaded <= i,
                spared == !all_lost(recs, outs, budget),
                i == 0 ==> last is None,
                !spared && i > 0 ==> (last matches Some((bytes, code)) && upload_failed::<B, U>(
                    recs[i - 1],
                    bytes,
                    code,
                    *upload,
                )),
                ({
                    let (rest_records, out) = compressed_record::parse_records(
                        reader.rest(),
                        magic,
                        i as int,
                        n as int,
                    );
                    compressed_record::parse_records(b, magic, 0, n as int) == (
                        record_views(recs) + rest_records,
                        out,
                    )
                }),
            decreases n - i,
        {
            let record: CompressedRecord = match read_record(&mut reader, magic, i) {
                Ok(r) => r,
                Err(e) => {
                    proof {
                        assert(record_views(recs) + Seq::empty() =~= record_views(recs));
                        assert(start.loads(self, bytes@, *upload, recs, outs, Err(e)));
                    }
                    return Err(e);
                },
            };
            let ghost rec = record;
            let ghost mid = *self;
            let stored: Result<bool, VramChtError> = self.install_record(record, upload);
            proof {
                let out = choose|out: Option<Vec<DeviceChunkSlice<B>>>| #[trigger]
                    uploaded(rec, out, budget, *upload) && mid.installs_record(
                        self,
                        rec,
                        out,
                        stored,
                        *upload,
                    );
                let old_recs = recs;
                let old_outs = outs;
                let (rest_records, end) = compressed_record::parse_records(
                    reader.rest(),
                    magic,
                    i + 1,
                    n as int,
                );
                recs = recs.push(rec);
                outs = outs.push(out);
                assert(record_views(recs) =~= record_views(old_recs).push(rec@));
                assert(record_views(old_recs) + (seq![rec@] + rest_records) =~= record_views(recs)
                    + rest_records);
                assert forall|j: int| 0 <= j < recs.len() implies #[trigger] uploaded(
                    recs[j],
                    outs[j],
                    budget,
                    *upload,
                ) by {
                    if j < i {
                        assert(uploaded(old_recs[j], old_outs[j], budget, *upload));
                    }
                }
                lemma_installed_prefix(s, old_recs, old_outs, rec, out, budget, i as int);
                let (t, l, g) = installed(s, old_recs, old_outs, budget, i as int);
                let (t1, l1, g1) = install_step(t, rec, out, budget);
                lru::lemma_wadd(c.inserts, l, l1);
                lru::lemma_wadd(c.evictions, g, g1);
                lemma_all_lost_push(old_recs, old_outs, rec, out, budget);
            }
            match stored {
                Ok(true) => {
                    loaded = loaded + 1;
                    spared = true;
                },
                Ok(false) => {
                    spared = true;
                },
                Err(e) => {
                    last = Some(failed_call(e));
                },
            }
            i = i + 1;
        }
        let end: Result<(), LoadError> = read_and_validate_file_trailer(&mut reader);
        proof {
            assert(record_views(recs) + Seq::empty() =~= record_views(recs));
        }
        match end {
            Ok(()) => {
                if !spared {
                    if let Some((bytes_asked, code)) = last {
                        let e: LoadError = LoadError::Cuda {
                            entry_index: n - 1,
                            bytes: bytes_asked,
                            code,
                        };
                        assert(start.loads(self, bytes@, *upload, recs, outs, Err(e)));
                        return Err(e);
                    }
                }
                assert(start.loads(self, bytes@, *upload, recs, outs, Ok(loaded)));
                Ok(loaded)
            },
            Err(e) => {
                assert(start.loads(self, bytes@, *upload, recs, outs, Err(e)));
                Err(e)
            },
        }
    }

    /// Budget configured at construction.
    pub fn budget_bytes(&self) -> (r: u64)
        ensures
            r == self.budget(),
    {
        self.store.budget_bytes()
    }

    /// Element type configured at construction.
    pub fn data_type(&self) -> (r: BitcompDataType)
        ensures
            r == self.element(),
    {
        self.data_type
    }
}

/// Downloading a chunk can give `w`.
pub open spec fn chunk_gives<B, D: Fn(&B, usize) -> Result<Vec<u8>, u32>>(
    c: DeviceChunkSlice<B>,
    w: Vec<u8>,
    download: D,
) -> bool {
    call_ensures(download, (&c.d_compressed, c.compressed_bytes), Ok(w))
}

/// Downloading a chunk can fail with `code`.
pub open spec fn chunk_fails<B, D: Fn(&B, usize) -> Result<Vec<u8>, u32>>(
    c: DeviceChunkSlice<B>,
    code: u32,
    download: D,
) -> bool {
    call_ensures(download, (&c.d_compressed, c.compressed_bytes), Err(code))
}

/// What a download must allow, and that it gives as many bytes as were asked for.
pub open spec fn downloader<B, D: Fn(&B, usize) -> Result<Vec<u8>, u32>>(download: D) -> bool {
    &&& forall|b: &B, n: usize| #[trigger] call_requires(download, (b, n))
    &&& forall|b: &B, n: usize, w: Vec<u8>| #[trigger]
        call_ensures(download, (b, n), Ok(w)) ==> w@.len() == n
}

/// `bodies` are what downloading the first chunks of `e` gave.
pub open spec fn chunk_downloads<B, D: Fn(&B, usize) -> Result<Vec<u8>, u32>>(
    e: VramCompressedTermEntry<B>,
    bodies: Seq<Vec<u8>>,
    download: D,
) -> bool {
    forall|k: int|
        0 <= k < bodies.len() ==> #[trigger] chunk_gives(e.chunks@[k], bodies[k], download)
}

/// After the downloads `part`, the download of the next chunk, of `bytes` bytes,
/// failed with `code`.
pub open spec fn chunks_stop<B, D: Fn(&B, usize) -> Result<Vec<u8>, u32>>(
    e: VramCompressedTermEntry<B>,
    part: Seq<Vec<u8>>,
    bytes: usize,
    code: u32,
    download: D,
) -> bool {
    let k = part.len() as int;
    &&& k < e.chunks@.len()
    &&& bytes == e.chunks@[k].compressed_bytes
    &&& chunk_fails(e.chunks@[k], code, download)
}

/// `bodies` are what downloading all chunks of `e` gave.
pub open spec fn entry_downloads<B, D: Fn(&B, usize) -> Result<Vec<u8>, u32>>(
    e: VramCompressedTermEntry<B>,
    bodies: Seq<Vec<u8>>,
    download: D,
) -> bool {
    bodies.len() == e.chunks@.len() && chunk_downloads(e, bodies, download)
}

/// `all` are what downloading the first entries gave.
pub open spec fn downloads<B, D: Fn(&B, usize) -> Result<Vec<u8>, u32>>(
    s: Seq<Entry<VramCompressedTermEntry<B>>>,
    all: Seq<Seq<Vec<u8>>>,
    download: D,
) -> bool {
    forall|i: int| 0 <= i < all.len() ==> #[trigger] entry_downloads(s[i].value, all[i], download)
}

/// The dump record of an entry whose chunks hold `bodies`.
pub open spec fn record_of<B>(
    e: Entry<VramCompressedTermEntry<B>>,
    bodies: Seq<Vec<u8>>,
) -> CompressedView {
    CompressedView {
        key: e.key,
        index: e.value.bucket_index@,
        uncompressed_bytes: e.value.uncompressed_bytes as u64,
        bodies: compressed_record::contents(bodies),
    }
}

/// The dump records of the first entries.
pub open spec fn records_of<B>(
    s: Seq<Entry<VramCompressedTermEntry<B>>>,
    all: Seq<Seq<Vec<u8>>>,
) -> Seq<CompressedView> {
    Seq::new(all.len(), |i: int| record_of(s[i], all[i]))
}

/// The entries at the given positions.
pub open spec fn picked<B>(
    s: Seq<Entry<VramCompressedTermEntry<B>>>,
    picks: Seq<usize>,
) -> Seq<Entry<VramCompressedTermEntry<B>>> {
    Seq::new(picks.len(), |i: int| s[picks[i] as int])
}

/// The entries of the given segments.
pub open spec fn selected<B>(
    s: Seq<Entry<VramCompressedTermEntry<B>>>,
    segments: Seq<SegmentId>,
) -> Seq<Entry<VramCompressedTermEntry<B>>> {
    s.filter(|e: Entry<VramCompressedTermEntry<B>>| lru::in_segments(e.key, segments))
}

/// Selecting the segments of all entries selects every entry, so that the dump of
/// all segments is the dump of the cache.
pub proof fn lemma_selected_all<B>(
    s: Seq<Entry<VramCompressedTermEntry<B>>>,
    segments: Seq<SegmentId>,
)
    requires
        forall|i: int| 0 <= i < s.len() ==> lru::in_segments((#[trigger] s[i]).key, segments),
    ensures
        selected(s, segments) == s,
    decreases s.len(),
{
    reveal(Seq::filter);
    if s.len() > 0 {
        let front = s.drop_last();
        assert forall|i: int| 0 <= i < front.len() implies lru::in_segments(
            (#[trigger] front[i]).key,
            segments,
        ) by {
            assert(front[i] == s[i]);
        }
        lemma_selected_all(front, segments);
        assert(s =~= front.push(s.last()));
    } else {
        assert(selected(s, segments) =~= s);
    }
}

/// Selecting no segments selects nothing, and the dump of nothing is a header and a
/// trailer, which load as no records.
pub proof fn lemma_selected_none<B>(s: Seq<Entry<VramCompressedTermEntry<B>>>)
    ensures
        selected(s, Seq::<SegmentId>::empty()) == Seq::<
            Entry<VramCompressedTermEntry<B>>,
        >::empty(),
        compressed_record::dump_bytes(Seq::empty()) == persist::header_bytes(MAGIC_V4, 0)
            + wire::le32(persist::MAGIC_END),
        compressed_record::parse_dump(compressed_record::dump_bytes(Seq::empty())) == (
            Seq::<CompressedView>::empty(),
            Ok::<(), LoadError>(()),
        ),
    decreases s.len(),
{
    reveal(Seq::filter);
    if s.len() > 0 {
        lemma_selected_none(s.drop_last());
    } else {
        assert(selected(s, Seq::empty()) =~= Seq::empty());
    }
    let none = Seq::<CompressedView>::empty();
    assert(compressed_record::dump_bytes(none) =~= persist::header_bytes(MAGIC_V4, 0) + wire::le32(
        persist::MAGIC_END,
    ));
    compressed_record::lemma_dump_round_trip(none, Seq::empty());
    assert(compressed_record::dump_bytes(none) + Seq::empty() =~= compressed_record::dump_bytes(
        none,
    ));
}

/// Write the chunks of an entry. Where a download fails, the number of bytes it asked
/// for and its code are returned.
fn write_chunks<B, D: Fn(&B, usize) -> Result<Vec<u8>, u32>>(
    out: &mut Vec<u8>,
    entry: &VramCompressedTermEntry<B>,
    download: &D,
) -> (r: Result<(), (usize, u32)>)
    requires
        downloader(*download),
    ensures
        match r {
            Ok(_) => exists|bodies: Seq<Vec<u8>>| #[trigger]
                chunk_downloads(*entry, bodies, *download) && bodies.len() == entry.chunks@.len()
                    && final(out)@ == old(out)@ + compressed_record::chunks_bytes(
                    compressed_record::contents(bodies),
                ),
            Err((bytes, code)) => exists|part: Seq<Vec<u8>>| #[trigger]
                chunk_downloads(*entry, part, *download) && chunks_stop(
                    *entry,
                    part,
                    bytes,
                    code,
                    *download,
                ),
        },
{
    let n: usize = entry.chunks.len();
    let ghost front = out@;
    let ghost mut bodies = Seq::<Vec<u8>>::empty();
    let mut k: usize = 0;
    proof {
        assert(compressed_record::contents(bodies) =~= Seq::empty());
        assert(front + Seq::<u8>::empty() =~= front);
    }
    while k < n
        invariant
            downloader(*download),
            n == entry.chunks@.len(),
            k <= n,
            front == old(out)@,
            bodies.len() == k,
            chunk_downloads(*entry, bodies, *download),
            out@ == front + compressed_record::chunks_bytes(compressed_record::contents(bodies)),
        decreases n - k,
    {
        let chunk: &DeviceChunkSlice<B> = &entry.chunks[k];
        let body: Vec<u8> = match download(&chunk.d_compressed, chunk.compressed_bytes) {
            Ok(w) => w,
            Err(code) => {
                proof {
                    assert(chunk_fails(*chunk, code, *download));
                    assert(chunk_downloads(*entry, bodies, *download) && chunks_stop(
                        *entry,
                        bodies,
                        chunk.compressed_bytes,
                        code,
                        *download,
                    ));
                }
                return Err((chunk.compressed_bytes, code));
            },
        };
        let len: u32 = if body.len() <= 0xFFFF_FFFF {
            body.len() as u32
        } else {
            0xFFFF_FFFF
        };
        let ghost before = out@;
        push_u32(out, len);
        push_bytes(out, body.as_slice());
        proof {
            let old_bodies = bodies;
            let w = compressed_record::contents(old_bodies);
            bodies = bodies.push(body);
            assert(compressed_record::contents(bodies) =~= w.push(body@));
            compressed_record::lemma_chunks_push(w, body@);
            assert(out@ =~= before + compressed_record::chunk_bytes(body@));
            wire::lemma_assoc(
                front,
                compressed_record::chunks_bytes(w),
                compressed_record::chunk_bytes(body@),
            );
            assert forall|j: int| 0 <= j < bodies.len() implies #[trigger] chunk_gives(
                entry.chunks@[j],
                bodies[j],
                *download,
            ) by {
                if j < old_bodies.len() {
                    assert(chunk_gives(entry.chunks@[j], old_bodies[j], *download));
                }
            }
        }
        k = k + 1;
    }
    proof {
        assert(chunk_downloads(*entry, bodies, *download));
    }
    Ok(())
}

/// What records say.
pub open spec fn record_views(recs: Seq<CompressedRecord>) -> Seq<CompressedView> {
    Seq::new(recs.len(), |i: int| recs[i]@)
}

/// The bucket index of a record accounts for its uncompressed bytes, its chunks cover
/// its buckets, and the uncompressed bytes can be addressed.
pub open spec fn consistent(r: CompressedView) -> bool {
    &&& r.uncompressed_bytes == 8192 * r.index.len()
    &&& r.uncompressed_bytes <= usize::MAX
    &&& r.bodies.len() >= 1
    &&& 2048 * r.bodies.len() >= r.index.len()
}

/// Uploading `body` can give `d`.
pub open spec fn upload_gives<B, U: Fn(&Vec<u8>) -> Result<B, VramChtError>>(
    body: Vec<u8>,
    d: B,
    upload: U,
) -> bool {
    call_ensures(upload, (&body,), Ok(d))
}

/// Uploading `body` can fail.
pub open spec fn upload_fails<B, U: Fn(&Vec<u8>) -> Result<B, VramChtError>>(
    body: Vec<u8>,
    e: VramChtError,
    upload: U,
) -> bool {
    call_ensures(upload, (&body,), Err(e))
}

/// `c` is chunk `k` of `count` buckets, uploaded from `body`.
pub open spec fn chunk_uploaded<B, U: Fn(&Vec<u8>) -> Result<B, VramChtError>>(
    body: Vec<u8>,
    k: int,
    count: int,
    c: DeviceChunkSlice<B>,
    upload: U,
) -> bool {
    &&& upload_gives(body, c.d_compressed, upload)
    &&& c.compressed_bytes == body@.len()
    &&& c.uncompressed_bytes == chunk_plain(k, count)
}

/// `chunks` are the chunks of `count` buckets, uploaded from `bodies`.
pub open spec fn chunks_uploaded<B, U: Fn(&Vec<u8>) -> Result<B, VramChtError>>(
    bodies: Seq<Vec<u8>>,
    count: int,
    chunks: Seq<DeviceChunkSlice<B>>,
    upload: U,
) -> bool {
    &&& chunks.len() <= bodies.len()
    &&& forall|k: int|
        0 <= k < chunks.len() ==> #[trigger] chunk_uploaded(bodies[k], k, count, chunks[k], upload)
}

/// Uploading one of the bodies can fail with `e`.
pub open spec fn chunk_upload_fails<B, U: Fn(&Vec<u8>) -> Result<B, VramChtError>>(
    bodies: Seq<Vec<u8>>,
    e: VramChtError,
    upload: U,
) -> bool {
    exists|k: int|
        0 <= k < bodies.len() && #[trigger] upload_fails::<B, U>(bodies[k], e, upload)
}

/// Uploading the chunks of a record can fail in a device call that asked for `bytes`
/// bytes, with `code`.
pub open spec fn upload_failed<B, U: Fn(&Vec<u8>) -> Result<B, VramChtError>>(
    rec: CompressedRecord,
    bytes: usize,
    code: u32,
    upload: U,
) -> bool {
    exists|e: VramChtError| #[trigger]
        chunk_upload_fails::<B, U>(rec.bodies@, e, upload) && vram_cht::call_numbers(e) == (
            bytes,
            code,
        )
}

/// A record was lost to a failed upload: it is consistent and within the budget, and
/// `out` is nothing.
pub open spec fn lost<B>(
    rec: CompressedRecord,
    out: Option<Vec<DeviceChunkSlice<B>>>,
    budget: int,
) -> bool {
    consistent(rec@) && compressed_record::body_sum(rec@.bodies) <= budget && out is None
}

/// Every record was lost to a failed upload.
pub open spec fn all_lost<B>(
    recs: Seq<CompressedRecord>,
    outs: Seq<Option<Vec<DeviceChunkSlice<B>>>>,
    budget: int,
) -> bool {
    forall|i: int| 0 <= i < recs.len() ==> #[trigger] lost(recs[i], outs[i], budget)
}

proof fn lemma_all_lost_push<B>(
    recs: Seq<CompressedRecord>,
    outs: Seq<Option<Vec<DeviceChunkSlice<B>>>>,
    rec: CompressedRecord,
    out: Option<Vec<DeviceChunkSlice<B>>>,
    budget: int,
)
    requires
        recs.len() == outs.len(),
    ensures
        all_lost(recs.push(rec), outs.push(out), budget) == (all_lost(recs, outs, budget) && lost(
            rec,
            out,
            budget,
        )),
{
    let a = recs.push(rec);
    let b = outs.push(out);
    if all_lost(a, b, budget) {
        assert(lost(a[recs.len() as int], b[recs.len() as int], budget));
        assert forall|i: int| 0 <= i < recs.len() implies #[trigger] lost(
            recs[i],
            outs[i],
            budget,
        ) by {
            assert(lost(a[i], b[i], budget));
        }
    }
    if all_lost(recs, outs, budget) && lost(rec, out, budget) {
        assert forall|i: int| 0 <= i < a.len() implies #[trigger] lost(a[i], b[i], budget) by {
            if i < recs.len() {
                assert(lost(recs[i], outs[i], budget));
            }
        }
    }
}

/// A load in which every record is lost to a failed upload leaves the cache as it was.
pub proof fn lemma_all_lost<B>(
    s: Seq<Entry<VramCompressedTermEntry<B>>>,
    recs: Seq<CompressedRecord>,
    outs: Seq<Option<Vec<DeviceChunkSlice<B>>>>,
    budget: int,
    n: int,
)
    requires
        0 <= n <= recs.len(),
        all_lost(recs, outs, budget),
    ensures
        installed(s, recs, outs, budget, n) == (s, 0int, 0int),
    decreases n,
{
    if n > 0 {
        lemma_all_lost(s, recs, outs, budget, n - 1);
        assert(lost(recs[n - 1], outs[n - 1], budget));
    }
}

/// `out` are the chunks that uploading a record gave. A record that is not consistent
/// or exceeds the budget is not uploaded.
pub open spec fn uploaded<B, U: Fn(&Vec<u8>) -> Result<B, VramChtError>>(
    rec: CompressedRecord,
    out: Option<Vec<DeviceChunkSlice<B>>>,
    budget: int,
    upload: U,
) -> bool {
    if !consistent(rec@) || compressed_record::body_sum(rec@.bodies) > budget {
        out is None
    } else {
        match out {
            Some(chunks) => chunks@.len() == rec.bodies@.len() && chunks_uploaded(
                rec.bodies@,
                rec.bucket_index@.len() as int,
                chunks@,
                upload,
            ),
            None => exists|e: VramChtError| #[trigger]
                chunk_upload_fails::<B, U>(rec.bodies@, e, upload),
        }
    }
}

/// `outs` are what the uploads of `recs` gave.
pub open spec fn uploads<B, U: Fn(&Vec<u8>) -> Result<B, VramChtError>>(
    recs: Seq<CompressedRecord>,
    outs: Seq<Option<Vec<DeviceChunkSlice<B>>>>,
    budget: int,
    upload: U,
) -> bool {
    forall|i: int| 0 <= i < recs.len() ==> #[trigger] uploaded(recs[i], outs[i], budget, upload)
}

/// The entries after one record, how many were stored and how many made room.
pub open spec fn install_step<B>(
    s: Seq<Entry<VramCompressedTermEntry<B>>>,
    rec: CompressedRecord,
    out: Option<Vec<DeviceChunkSlice<B>>>,
    budget: int,
) -> (Seq<Entry<VramCompressedTermEntry<B>>>, int, int) {
    match out {
        Some(chunks) => if !lru::held(s, rec.key) {
            (
                lru::stored(s, chunks_entry(rec.key, rec.bucket_index, chunks), budget),
                1,
                lru::shed_count(s, packed_sum(chunks@), budget),
            )
        } else {
            (s, 0, 0)
        },
        None => (s, 0, 0),
    }
}

/// The entries after the first `n` records, how many were stored and how many made
/// room.
pub open spec fn installed<B>(
    s: Seq<Entry<VramCompressedTermEntry<B>>>,
    recs: Seq<CompressedRecord>,
    outs: Seq<Option<Vec<DeviceChunkSlice<B>>>>,
    budget: int,
    n: int,
) -> (Seq<Entry<VramCompressedTermEntry<B>>>, int, int)
    decreases n,
{
    if n <= 0 {
        (s, 0, 0)
    } else {
        let (t, loaded, gone) = installed(s, recs, outs, budget, n - 1);
        let (u, more, shed) = install_step(t, recs[n - 1], outs[n - 1], budget);
        (u, loaded + more, gone + shed)
    }
}

/// Records behind the first `n` do not matter for them.
proof fn lemma_installed_prefix<B>(
    s: Seq<Entry<VramCompressedTermEntry<B>>>,
    recs: Seq<CompressedRecord>,
    outs: Seq<Option<Vec<DeviceChunkSlice<B>>>>,
    rec: CompressedRecord,
    out: Option<Vec<DeviceChunkSlice<B>>>,
    budget: int,
    n: int,
)
    requires
        0 <= n <= recs.len(),
        recs.len() == outs.len(),
    ensures
        installed(s, recs.push(rec), outs.push(out), budget, n) == installed(
            s,
            recs,
            outs,
            budget,
            n,
        ),
    decreases n,
{
    if n > 0 {
        lemma_installed_prefix(s, recs, outs, rec, out, budget, n - 1);
        assert(recs.push(rec)[n - 1] == recs[n - 1]);
        assert(outs.push(out)[n - 1] == outs[n - 1]);
    }
}

/// Bytes of all bodies.
fn bodies_total(bodies: &Vec<Vec<u8>>) -> (r: u64)
    requires
        compressed_record::body_sum(compressed_record::contents(bodies@)) <= u64::MAX,
    ensures
        r == compressed_record::body_sum(compressed_record::contents(bodies@)),
{
    let ghost w = compressed_record::contents(bodies@);
    let n: usize = bodies.len();
    let mut sum: u64 = 0;
    let mut i: usize = 0;
    assert(w.take(0) =~= Seq::empty());
    while i < n
        invariant
            w == compressed_record::contents(bodies@),
            n == bodies@.len(),
            i <= n,
            compressed_record::body_sum(w) <= u64::MAX,
            sum == compressed_record::body_sum(w.take(i as int)),
        decreases n - i,
    {
        proof {
            assert(w.take(i + 1).drop_last() =~= w.take(i as int));
            lemma_bodies_take(w, i + 1);
        }
        sum = sum + bodies[i].len() as u64;
        i = i + 1;
    }
    assert(w.take(n as int) =~= w);
    sum
}

proof fn lemma_bodies_take(w: Seq<Seq<u8>>, n: int)
    requires
        0 <= n <= w.len(),
    ensures
        compressed_record::body_sum(w.take(n)) <= compressed_record::body_sum(w),
    decreases w.len() - n,
{
    if n == w.len() {
        assert(w.take(n) =~= w);
    } else {
        assert(w.take(n + 1).drop_last() =~= w.take(n));
        lemma_bodies_take(w, n + 1);
    }
}

/// Upload the chunks of `count` buckets. The first upload that fails ends the work
/// with its error.
fn upload_chunks<B, U: Fn(&Vec<u8>) -> Result<B, VramChtError>>(
    bodies: &Vec<Vec<u8>>,
    count: usize,
    upload: &U,
) -> (r: Result<Vec<DeviceChunkSlice<B>>, VramChtError>)
    requires
        count <= usize::MAX / 8192,
        count <= u32::MAX,
        1 <= bodies@.len() <= u32::MAX,
        2048 * bodies@.len() >= count,
        forall|body: &Vec<u8>| #[trigger] call_requires(*upload, (body,)),
    ensures
        match r {
            Ok(chunks) => chunks@.len() == bodies@.len() && chunks_uploaded(
                bodies@,
                count as int,
                chunks@,
                *upload,
            ) && tiled(chunks@, count as int) && packed_sum(chunks@) == compressed_record::body_sum(
                compressed_record::contents(bodies@),
            ),
            Err(e) => chunk_upload_fails::<B, U>(bodies@, e, *upload),
        },
{
    let ghost w = compressed_record::contents(bodies@);
    let n: usize = bodies.len();
    let mut chunks: Vec<DeviceChunkSlice<B>> = Vec::new();
    let mut left: usize = count;
    let mut k: usize = 0;
    assert(w.take(0) =~= Seq::empty());
    while k < n
        invariant
            count <= usize::MAX / 8192,
            count <= u32::MAX,
            w == compressed_record::contents(bodies@),
            n == bodies@.len(),
            k <= n,
            left == (if 2048 * k < count {
                count - 2048 * k
            } else {
                0
            }),
            forall|body: &Vec<u8>| #[trigger] call_requires(*upload, (body,)),
            chunks@.len() == k,
            chunks_uploaded(bodies@, count as int, chunks@, *upload),
            packed_sum(chunks@) == compressed_record::body_sum(w.take(k as int)),
        decreases n - k,
    {
        let buckets: usize = if left < BUCKETS_PER_CHUNK {
            left
        } else {
            BUCKETS_PER_CHUNK
        };
        assert(buckets == chunk_buckets(k as int, count as int));
        match upload(&bodies[k]) {
            Ok(d_compressed) => {
                let ghost before = chunks@;
                chunks.push(
                    DeviceChunkSlice {
                        d_compressed,
                        compressed_bytes: bodies[k].len(),
                        uncompressed_bytes: buckets * 8192,
                    },
                );
                proof {
                    assert(chunks@.drop_last() =~= before);
                    assert(w.take(k + 1).drop_last() =~= w.take(k as int));
                    assert(upload_gives(bodies@[k as int], chunks@[k as int].d_compressed, *upload));
                    assert(chunk_uploaded(
                        bodies@[k as int],
                        k as int,
                        count as int,
                        chunks@[k as int],
                        *upload,
                    ));
                    assert forall|j: int| 0 <= j < chunks@.len() implies #[trigger] chunk_uploaded(
                        bodies@[j],
                        j,
                        count as int,
                        chunks@[j],
                        *upload,
                    ) by {
                        if j < k {
                            assert(chunk_uploaded(
                                bodies@[j],
                                j,
                                count as int,
                                before[j],
                                *upload,
                            ));
                        }
                    }
                }
            },
            Err(e) => {
                proof {
                    assert(upload_fails::<B, U>(bodies@[k as int], e, *upload));
                }
                return Err(e);
            },
        }
        left = left - buckets;
        k = k + 1;
    }
    proof {
        assert(w.take(n as int) =~= w);
        assert forall|j: int| 0 <= j < chunks@.len() implies (
        #[trigger] chunks@[j]).uncompressed_bytes == chunk_plain(j, count as int) by {
            assert(chunk_uploaded(bodies@[j], j, count as int, chunks@[j], *upload));
        }
    }
    Ok(chunks)
}

/// `c` has the sizes of `d`.
pub open spec fn same_size<B, C>(c: DeviceChunkSlice<C>, d: DeviceChunkSlice<B>) -> bool {
    c.compressed_bytes == d.compressed_bytes && c.uncompressed_bytes == d.uncompressed_bytes
}

/// Chunk by chunk, `a` has the sizes of `b`.
pub open spec fn same_sizes<B, C>(
    a: Seq<DeviceChunkSlice<C>>,
    b: Seq<DeviceChunkSlice<B>>,
) -> bool {
    a.len() == b.len() && forall|k: int|
        0 <= k < a.len() ==> same_size(#[trigger] a[k], #[trigger] b[k])
}

proof fn lemma_same_sum<B, C>(a: Seq<DeviceChunkSlice<C>>, b: Seq<DeviceChunkSlice<B>>)
    requires
        same_sizes(a, b),
    ensures
        packed_sum(a) == packed_sum(b),
    decreases a.len(),
{
    if a.len() > 0 {
        let x = a.drop_last();
        let y = b.drop_last();
        assert forall|k: int| 0 <= k < x.len() implies same_size(
            #[trigger] x[k],
            #[trigger] y[k],
        ) by {
            assert(same_size(a[k], b[k]));
        }
        lemma_same_sum(x, y);
        assert(same_size(a[a.len() - 1], b[a.len() - 1]));
    }
}

/// `t` holds the first `n` entries of `s` again, in the chunks `outs`.
pub open spec fn restored<B, C>(
    t: Seq<Entry<VramCompressedTermEntry<C>>>,
    s: Seq<Entry<VramCompressedTermEntry<B>>>,
    outs: Seq<Option<Vec<DeviceChunkSlice<C>>>>,
    n: int,
) -> bool {
    &&& t.len() == n
    &&& forall|i: int|
        0 <= i < n ==> {
            &&& (#[trigger] t[i]).key == s[i].key
            &&& t[i].bytes == s[i].bytes
            &&& t[i].value.bucket_index@ == s[i].value.bucket_index@
            &&& t[i].value.uncompressed_bytes == s[i].value.uncompressed_bytes
            &&& Some(t[i].value.chunks) == outs[i]
            &&& same_sizes(t[i].value.chunks@, s[i].value.chunks@)
        }
}

/// The bodies are as long as the chunks of `e`, and fit their length fields.
pub open spec fn bodies_fit<B>(e: VramCompressedTermEntry<B>, bodies: Seq<Vec<u8>>) -> bool {
    bodies.len() == e.chunks@.len() && forall|k: int|
        0 <= k < bodies.len() ==> (#[trigger] bodies[k])@.len() == e.chunks@[k].compressed_bytes
            && bodies[k]@.len() <= u32::MAX
}

/// A dump loaded into an empty cache brings every entry back, in order: a dump of
/// well-formed entries parses as what was dumped, each upload gets the compressed
/// bytes that were downloaded, and when the uploads succeed and the budget suffices,
/// every entry is stored and none makes room.
pub proof fn lemma_dump_load<B, C, U: Fn(&Vec<u8>) -> Result<C, VramChtError>>(
    s: Seq<Entry<VramCompressedTermEntry<B>>>,
    all: Seq<Seq<Vec<u8>>>,
    recs: Seq<CompressedRecord>,
    outs: Seq<Option<Vec<DeviceChunkSlice<C>>>>,
    budget: int,
    upload: U,
)
    requires
        lru::distinct(s),
        s.len() == all.len() == recs.len() == outs.len(),
        s.len() <= u64::MAX,
        forall|i: int| 0 <= i < s.len() ==> charged(#[trigger] s[i]),
        forall|i: int| 0 <= i < s.len() ==> #[trigger] bodies_fit(s[i].value, all[i]),
        record_views(recs) == compressed_record::parse_dump(
            compressed_record::dump_bytes(records_of(s, all)),
        ).0,
        uploads(recs, outs, budget, upload),
        forall|i: int| 0 <= i < s.len() ==> #[trigger] outs[i] is Some,
        lru::total(s) <= budget,
    ensures
        compressed_record::parse_dump(compressed_record::dump_bytes(records_of(s, all))) == (
            records_of(s, all),
            Ok::<(), LoadError>(()),
        ),
        forall|i: int|
            0 <= i < s.len() ==> compressed_record::contents((#[trigger] recs[i]).bodies@)
                == compressed_record::contents(all[i]),
        ({
            let (t, loaded, gone) = installed(Seq::empty(), recs, outs, budget, s.len() as int);
            restored(t, s, outs, s.len() as int) && loaded == s.len() && gone == 0
        }),
{
    let rs = records_of(s, all);
    assert forall|j: int| 0 <= j < rs.len() implies compressed_record::encodable(
        #[trigger] rs[j],
    ) by {
        assert(charged(s[j]));
        assert(bodies_fit(s[j].value, all[j]));
    }
    compressed_record::lemma_dump_round_trip(rs, Seq::empty());
    assert(compressed_record::dump_bytes(rs) + Seq::empty() =~= compressed_record::dump_bytes(rs));
    assert forall|i: int| 0 <= i < s.len() implies (#[trigger] recs[i])@ == record_of(
        s[i],
        all[i],
    ) by {
        assert(record_views(recs)[i] == rs[i]);
    }
    lemma_reload(s, all, recs, outs, budget, upload, s.len() as int);
}

proof fn lemma_reload<B, C, U: Fn(&Vec<u8>) -> Result<C, VramChtError>>(
    s: Seq<Entry<VramCompressedTermEntry<B>>>,
    all: Seq<Seq<Vec<u8>>>,
    recs: Seq<CompressedRecord>,
    outs: Seq<Option<Vec<DeviceChunkSlice<C>>>>,
    budget: int,
    upload: U,
    n: int,
)
    requires
        lru::distinct(s),
        s.len() == all.len() == recs.len() == outs.len(),
        0 <= n <= s.len(),
        forall|i: int| 0 <= i < s.len() ==> charged(#[trigger] s[i]),
        forall|i: int| 0 <= i < s.len() ==> #[trigger] bodies_fit(s[i].value, all[i]),
        forall|i: int| 0 <= i < s.len() ==> (#[trigger] recs[i])@ == record_of(s[i], all[i]),
        uploads(recs, outs, budget, upload),
        forall|i: int| 0 <= i < s.len() ==> #[trigger] outs[i] is Some,
        lru::total(s) <= budget,
    ensures
        ({
            let (t, loaded, gone) = installed(
                Seq::<Entry<VramCompressedTermEntry<C>>>::empty(),
                recs,
                outs,
                budget,
                n,
            );
            restored(t, s, outs, n) && loaded == n && gone == 0 && lru::total(t) == lru::total(
                s.take(n),
            )
        }),
    decreases n,
{
    let empty = Seq::<Entry<VramCompressedTermEntry<C>>>::empty();
    if n == 0 {
        assert(s.take(0) =~= Seq::empty());
    } else {
        lemma_reload(s, all, recs, outs, budget, upload, n - 1);
        let (t, loaded, gone) = installed(empty, recs, outs, budget, n - 1);
        let rec = recs[n - 1];
        let e = s[n - 1];
        assert(charged(e));
        assert(bodies_fit(e.value, all[n - 1]));
        assert(rec@ == record_of(e, all[n - 1]));
        assert(outs[n - 1] is Some);
        let chunks = outs[n - 1]->0;
        assert(uploaded(rec, outs[n - 1], budget, upload));
        let count = rec.bucket_index@.len() as int;
        assert(chunks_uploaded(rec.bodies@, count, chunks@, upload));
        assert forall|k: int| 0 <= k < chunks@.len() implies same_size(
            #[trigger] chunks@[k],
            #[trigger] e.value.chunks@[k],
        ) by {
            assert(chunk_uploaded(rec.bodies@[k], k, count, chunks@[k], upload));
            assert(compressed_record::contents(rec.bodies@)[k] == compressed_record::contents(
                all[n - 1],
            )[k]);
            assert(all[n - 1][k]@.len() == e.value.chunks@[k].compressed_bytes);
            assert(e.value.chunks@[k].uncompressed_bytes == chunk_plain(k, count));
        }
        assert(compressed_record::contents(rec.bodies@).len() == all[n - 1].len());
        lemma_same_sum(chunks@, e.value.chunks@);
        let f = chunks_entry(rec.key, rec.bucket_index, chunks);
        assert(f.bytes == e.bytes);
        assert(s.take(n) =~= s.take(n - 1).push(e));
        lru::lemma_total_push(s.take(n - 1), e);
        lru::lemma_total_take(s, n);
        lru::lemma_total_nonneg(t);
        if lru::held(t, rec.key) {
            let i = lru::place(t, rec.key);
            assert(t[i].key == s[i].key);
            assert(s[i].key != s[n - 1].key);
        }
        lru::lemma_shed(t, f.bytes as int, budget);
        lru::lemma_total_push(t, f);
        let u = lru::stored(t, f, budget);
        assert(u == t.push(f));
        assert forall|i: int| 0 <= i < n implies {
            &&& (#[trigger] u[i]).key == s[i].key
            &&& u[i].bytes == s[i].bytes
            &&& u[i].value.bucket_index@ == s[i].value.bucket_index@
            &&& u[i].value.uncompressed_bytes == s[i].value.uncompressed_bytes
            &&& Some(u[i].value.chunks) == outs[i]
            &&& same_sizes(u[i].value.chunks@, s[i].value.chunks@)
        } by {
            if i < n - 1 {
                assert(t[i].key == s[i].key);
            }
        }
    }
}

/// A copy of a bucket index.
fn copy_index(index: &Vec<(u16, u32)>) -> (r: Vec<(u16, u32)>)
    ensures
        r@ == index@,
{
    let n: usize = index.len();
    let mut out: Vec<(u16, u32)> = Vec::new();
    let mut i: usize = 0;
    while i < n
        invariant
            n == index@.len(),
            i <= n,
            out@ == index@.take(i as int),
        decreases n - i,
    {
        out.push(index[i]);
        i = i + 1;
        assert(out@ =~= index@.take(i as int));
    }
    assert(index@.take(n as int) =~= index@);
    out
}

/// A lookup is a hit or a miss to the counters.
pub proof fn lemma_get_moves<B>(
    before: VramCompressedCht<B>,
    key: ChtKey,
    found: Option<VramCompressedTermEntry<B>>,
    after: VramCompressedCht<B>,
)
    requires
        before.looks_up(&after, key, found),
    ensures
        tally::moves(
            before.gauge(),
            if found is Some {
                Event::Hit
            } else {
                Event::Miss
            },
            after.gauge(),
        ),
{
}

/// A call that changes nothing is an event that stores and evicts nothing.
pub proof fn lemma_idle_moves<B>(before: VramCompressedCht<B>, after: VramCompressedCht<B>)
    requires
        after.entries().len() == before.entries().len(),
        after.counts() == before.counts(),
    ensures
        tally::moves(before.gauge(), tally::change(0, 0), after.gauge()),
{
    lru::lemma_wadd(before.counts().inserts, 0, 0);
    lru::lemma_wadd(before.counts().evictions, 0, 0);
    lru::lemma_wadd(before.counts().promotions, 0, 0);
    lru::lemma_wadd(before.counts().cross_tier_promotions, 0, 0);
}

/// A reset is the event that clears everything.
pub proof fn lemma_reset_moves<B>(before: VramCompressedCht<B>, after: VramCompressedCht<B>)
    requires
        after.entries() == Seq::<Entry<VramCompressedTermEntry<B>>>::empty(),
        after.counts() == no_events(),
    ensures
        tally::moves(before.gauge(), Event::Reset, after.gauge()),
{
}

/// An insert or a promotion stores at most one entry; nothing else changes the counters
/// but what was evicted for it.
pub proof fn lemma_compress_moves<
    B,
    S,
    F: Fn(&S, usize, usize) -> Result<(B, usize), VramCompressedChtError>,
>(
    before: VramCompressedCht<B>,
    key: ChtKey,
    index: Vec<(u16, u32)>,
    src: S,
    compress: F,
    promoted: int,
    crossed: int,
    r: Result<bool, VramCompressedChtError>,
    after: VramCompressedCht<B>,
)
    requires
        0 <= crossed <= promoted <= 1,
        before.compresses(&after, key, index, src, compress, promoted, crossed, r),
    ensures
        r == Ok::<bool, VramCompressedChtError>(true) ==> exists|gone: nat| #[trigger]
            tally::moves(
                before.gauge(),
                Event::Change {
                    stored: 1,
                    gone,
                    promoted: promoted as nat,
                    crossed: crossed as nat,
                },
                after.gauge(),
            ),
        r != Ok::<bool, VramCompressedChtError>(true) ==> tally::moves(
            before.gauge(),
            tally::change(0, 0),
            after.gauge(),
        ),
{
    let count = index@.len() as int;
    if r == Ok::<bool, VramCompressedChtError>(true) {
        let chunks = choose|chunks: Vec<DeviceChunkSlice<B>>|
            {
                &&& #[trigger] chunks_made(src, count, chunks@, compress)
                &&& before.stores(&after, chunks_entry(key, index, chunks), promoted, crossed)
            };
        let bytes = chunks_entry(key, index, chunks).bytes as int;
        let gone = lru::shed_count(before.entries(), bytes, before.budget() as int);
        lru::lemma_shed_len(before.entries(), bytes, before.budget() as int);
        assert(tally::moves(
            before.gauge(),
            Event::Change {
                stored: 1,
                gone: gone as nat,
                promoted: promoted as nat,
                crossed: crossed as nat,
            },
            after.gauge(),
        ));
    } else {
        lemma_idle_moves(before, after);
    }
}

/// Evicting segments takes out what it says.
pub proof fn lemma_evict_moves<B>(
    before: VramCompressedCht<B>,
    r: u64,
    after: VramCompressedCht<B>,
)
    requires
        r == before.entries().len() - after.entries().len(),
        after.counts() == (CompressedCounters {
            evictions: lru::wadd(before.counts().evictions, r as int),
            ..before.counts()
        }),
    ensures
        tally::moves(before.gauge(), tally::change(0, r as nat), after.gauge()),
{
    lru::lemma_wadd(before.counts().promotions, 0, 0);
    lru::lemma_wadd(before.counts().cross_tier_promotions, 0, 0);
    lru::lemma_wadd(before.counts().inserts, 0, 0);
}

/// A load stores and evicts what its records say.
pub proof fn lemma_load_moves<B, U: Fn(&Vec<u8>) -> Result<B, VramChtError>>(
    before: VramCompressedCht<B>,
    recs: Seq<CompressedRecord>,
    outs: Seq<Option<Vec<DeviceChunkSlice<B>>>>,
    upload: U,
    after: VramCompressedCht<B>,
)
    requires
        outs.len() == recs.len(),
        uploads(recs, outs, before.budget() as int, upload),
        before.after_install(&after, recs, outs),
    ensures
        ({
            let (t, loaded, gone) = installed(
                before.entries(),
                recs,
                outs,
                before.budget() as int,
                recs.len() as int,
            );
            0 <= loaded <= recs.len() && 0 <= gone && tally::moves(
                before.gauge(),
                tally::change(loaded as nat, gone as nat),
                after.gauge(),
            )
        }),
{
    lru::lemma_wadd(before.counts().promotions, 0, 0);
    lru::lemma_wadd(before.counts().cross_tier_promotions, 0, 0);
    let budget = before.budget() as int;
    assert forall|i: int| 0 <= i < outs.len() implies ((#[trigger] outs[i]) matches Some(chunks)
        ==> 0 <= packed_sum(chunks@) <= u64::MAX) by {
        assert(uploaded(recs[i], outs[i], budget, upload));
        if let Some(chunks) = outs[i] {
            let n = chunks@.len() as int;
            let bodies = recs[i].bodies@;
            lemma_uploaded_sum(bodies, recs[i].bucket_index@.len() as int, chunks@, upload, n);
            assert(chunks@.take(n) =~= chunks@);
            assert(compressed_record::contents(bodies).take(n) =~= recs[i]@.bodies);
            lemma_packed_nonneg(chunks@);
        }
    }
    lemma_installed_len(before.entries(), recs, outs, budget, recs.len() as int);
}

proof fn lemma_uploaded_sum<B, U: Fn(&Vec<u8>) -> Result<B, VramChtError>>(
    bodies: Seq<Vec<u8>>,
    count: int,
    chunks: Seq<DeviceChunkSlice<B>>,
    upload: U,
    n: int,
)
    requires
        chunks_uploaded(bodies, count, chunks, upload),
        0 <= n <= chunks.len(),
    ensures
        packed_sum(chunks.take(n)) == compressed_record::body_sum(
            compressed_record::contents(bodies).take(n),
        ),
    decreases n,
{
    let w = compressed_record::contents(bodies);
    if n > 0 {
        lemma_uploaded_sum(bodies, count, chunks, upload, n - 1);
        assert(chunk_uploaded(bodies[n - 1], n - 1, count, chunks[n - 1], upload));
        assert(chunks.take(n).drop_last() =~= chunks.take(n - 1));
        assert(w.take(n).drop_last() =~= w.take(n - 1));
    }
}

proof fn lemma_installed_len<B>(
    s: Seq<Entry<VramCompressedTermEntry<B>>>,
    recs: Seq<CompressedRecord>,
    outs: Seq<Option<Vec<DeviceChunkSlice<B>>>>,
    budget: int,
    n: int,
)
    requires
        0 <= n <= outs.len(),
        forall|i: int|
            0 <= i < outs.len() ==> ((#[trigger] outs[i]) matches Some(chunks) ==> 0 <= packed_sum(
                chunks@,
            ) <= u64::MAX),
    ensures
        ({
            let (t, loaded, gone) = installed(s, recs, outs, budget, n);
            0 <= loaded <= n && 0 <= gone && t.len() == s.len() + loaded - gone
        }),
    decreases n,
{
    if n > 0 {
        lemma_installed_len(s, recs, outs, budget, n - 1);
        let t = installed(s, recs, outs, budget, n - 1).0;
        match outs[n - 1] {
            Some(chunks) => {
                lru::lemma_shed_len(t, packed_sum(chunks@), budget);
            },
            None => {},
        }
    }
}

/// From a fresh cache through any calls, each of them the event that the laws on calls
/// name: the limits stay what they were, the bytes of the entries are those of their
/// compressed chunks and together within the budget, and no key is cached twice. The counters
/// account for the events since the last reset.
pub proof fn lemma_history<B>(states: Seq<VramCompressedCht<B>>, es: Seq<Event>)
    requires
        states.len() == es.len() + 1,
        states[0].entries() == Seq::<Entry<VramCompressedTermEntry<B>>>::empty(),
        states[0].counts() == no_events(),
        forall|i: int| 0 <= i < states.len() ==> (#[trigger] states[i]).wf(),
        forall|i: int|
            0 <= i < es.len() ==> states[i].follows(#[trigger] es[i], &states[i + 1]),
    ensures
        ({
            let c = states.last();
            &&& c.same_limits(&states[0])
            &&& lru::distinct(c.entries())
            &&& 0 <= lru::total(c.entries()) <= c.budget()
            &&& forall|i: int| 0 <= i < c.entries().len() ==> charged(#[trigger] c.entries()[i])
            &&& tally::balanced(c.gauge())
            &&& tally::accounts(c.gauge(), es)
        }),
{
    let gs = Seq::new(states.len(), |i: int| states[i].gauge());
    assert forall|i: int| 0 <= i < es.len() implies tally::moves(
        gs[i],
        #[trigger] es[i],
        gs[i + 1],
    ) by {
        assert(states[i].follows(es[i], &states[i + 1]));
    }
    tally::lemma_history(gs, es);
    lemma_same_limits(states, es);
    states.last().lemma_wf();
}

proof fn lemma_same_limits<B>(states: Seq<VramCompressedCht<B>>, es: Seq<Event>)
    requires
        states.len() == es.len() + 1,
        forall|i: int|
            0 <= i < es.len() ==> states[i].follows(#[trigger] es[i], &states[i + 1]),
    ensures
        states.last().same_limits(&states[0]),
    decreases es.len(),
{
    if es.len() > 0 {
        let n = es.len() - 1;
        let before = states.drop_last();
        let front = es.drop_last();
        assert forall|i: int| 0 <= i < front.len() implies before[i].follows(
            #[trigger] front[i],
            &before[i + 1],
        ) by {
            assert(states[i].follows(es[i], &states[i + 1]));
        }
        lemma_same_limits(before, front);
        assert(states[n].follows(es[n], &states[n + 1]));
    }
}

/// Whether the kill switch of this tier is on. The first answer is kept in `slot` and
/// holds from then on; it is that of the setting, where `1` or `true` turn the tier off.
pub fn kill_switch_active(slot: &mut Option<bool>, setting: Option<&str>) -> (r: bool)
    ensures
        kill_switch::asked(*old(slot), kill_switch::text(setting), r, *final(slot)),
        *old(slot) matches Some(b) ==> r == b,
        *old(slot) is None ==> r == (setting matches Some(s) && kill_switch::says_yes(s@)),
        *final(slot) == Some(r),
{
    first_answer(slot, setting)
}

/// A fresh cache.
pub open spec fn fresh<B>(
    c: VramCompressedCht<B>,
    budget_bytes: u64,
    off: bool,
    data_type: BitcompDataType,
) -> bool {
    &&& c.wf()
    &&& c.entries() == Seq::<Entry<VramCompressedTermEntry<B>>>::empty()
    &&& c.budget() == budget_bytes
    &&& c.off() == off
    &&& c.element() == data_type
    &&& c.counts() == no_events()
}

/// Fill an empty cache slot with a cache of the default budget, if the codec could
/// be set up. Returns whether there is a cache now; where the codec failed, a later
/// call tries again.
pub fn global<B>(slot: &mut Option<VramCompressedCht<B>>, codec_ready: bool, disabled: bool) -> (r:
    bool)
    ensures
        r == (*old(slot) is Some || codec_ready),
        *old(slot) is Some || !codec_ready ==> *final(slot) == *old(slot),
        *old(slot) is None && codec_ready ==> (*final(slot) matches Some(c) && fresh(
            c,
            DEFAULT_VRAM_COMPRESSED_BUDGET_BYTES,
            disabled,
            BitcompDataType::Uint32,
        )),
{
    if slot.is_some() {
        return true;
    }
    if !codec_ready {
        return false;
    }
    *slot =
    Some(VramCompressedCht::with_budget(DEFAULT_VRAM_COMPRESSED_BUDGET_BYTES, disabled));
    true
}

/// Fill an empty cache slot with a cache of the given budget, if the codec could be
/// set up. Returns whether it was filled: the budget is fixed by whoever comes first.
pub fn global_with_budget<B>(
    slot: &mut Option<VramCompressedCht<B>>,
    budget_bytes: u64,
    codec_ready: bool,
    disabled: bool,
) -> (r: bool)
    ensures
        r == (*old(slot) is None && codec_ready),
        !r ==> *final(slot) == *old(slot),
        r ==> (*final(slot) matches Some(c) && fresh(
            c,
            budget_bytes,
            disabled,
            BitcompDataType::Uint32,
        )),
{
    if slot.is_some() || !codec_ready {
        return false;
    }
    *slot = Some(VramCompressedCht::with_budget(budget_bytes, disabled));
    true
}

/// Reset the cache in the slot, if there is one.
pub fn reset_global<B>(slot: &mut Option<VramCompressedCht<B>>)
    ensures
        *old(slot) is None ==> *final(slot) is None,
        *old(slot) matches Some(c) ==> (*final(slot) matches Some(d) && fresh(
            d,
            c.budget(),
            c.off(),
            c.element(),
        )),
{
    match slot {
        Some(c) => {
            c.reset();
        },
        None => {},
    }
}

/// An entry compressed from the uncompressed tier has the layout of one compressed from
/// the posting list: the same buckets at the same offsets, and as many uncompressed
/// bytes. `p` is the expansion that went into the uncompressed tier with buffer `d`, `q`
/// the one that was compressed directly.
pub proof fn lemma_promote_matches_insert<B, D>(
    docs: Set<u32>,
    p: SharedBitmapPayload,
    q: SharedBitmapPayload,
    key: ChtKey,
    d: D,
    index: Vec<(u16, u32)>,
    promoted: Vec<DeviceChunkSlice<B>>,
    inserted: Vec<DeviceChunkSlice<B>>,
)
    requires
        p.expands(docs),
        q.expands(docs),
        index@ == vram_cht::payload_entry(key, p, d).value.bucket_index@,
    ensures
        ({
            let a = chunks_entry(key, index, promoted).value;
            let b = chunks_entry(key, q.bucket_index, inserted).value;
            a.bucket_index@ == b.bucket_index@ && a.uncompressed_bytes == b.uncompressed_bytes
        }),
        chunks_entry(key, index, promoted).value.uncompressed_bytes == 4 * p.total_words,
{
    p.lemma_determined(&q);
}

} // verus!
