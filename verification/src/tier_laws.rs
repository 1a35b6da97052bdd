//! What the device tiers keep, dump and load, entry by entry.

use vstd::prelude::*;

use crate::cht;
use crate::compressed_record;
use crate::cuda_dispatch;
use crate::lru;
use crate::persist;
use crate::planner;
use crate::vram_cht;
use crate::vram_cht_v3;
use crate::vram_record;
use crate::warm;
use crate::wire;

use crate::cht::{Cht, ChtKey};
use crate::compressed_record::{CompressedRecord, CompressedView};
use crate::lru::Entry;
use crate::persist::{DumpError, LoadError};
use crate::postings::RoaringPostings;
use crate::segment_id::SegmentId;
use crate::shared_bitmap_payload::SharedBitmapPayload;
use crate::vram_cht::{VramCht, VramChtError, VramTermEntry};
use crate::vram_cht_v3::{
    BitcompDataType, DeviceChunkSlice, VramCompressedCht, VramCompressedChtError,
    VramCompressedTermEntry,
};
use crate::vram_record::{RecordView, VramRecord};

verus! {

/// The limits and sizes that callers rely on.
pub proof fn lemma_limits()
    ensures
        cht::DEFAULT_CHT_BUDGET_BYTES == 2_147_483_648,
        vram_cht::DEFAULT_VRAM_CHT_BUDGET_BYTES == 4_294_967_296,
        vram_cht_v3::DEFAULT_VRAM_COMPRESSED_BUDGET_BYTES == 4_294_967_296,
        vram_cht_v3::MAX_CHUNKS_PER_ENTRY == 64,
        vram_cht_v3::BUCKETS_PER_CHUNK == 2048,
        vram_cht_v3::BITCOMP_CHUNK_BYTES == 16_777_216,
        warm::MAX_WARMUP_TERMS_PER_FIELD == 10_000,
        planner::MIN_PER_TERM_CARDINALITY == 100_000,
        planner::MIN_COHORT_DOCS == 1_000_000,
        planner::BUCKET_SIZE == 65536,
        cuda_dispatch::INITIAL_CAPACITY_WORDS == 24_576,
        persist::FILE_HEADER_BYTES == 24,
        persist::CHTKEY_HEADER_BYTES == 44,
        persist::FILE_TRAILER_BYTES == 4,
        persist::MAGIC_V1 == 0x3156_4346,
        persist::MAGIC_V2 == 0x3256_4346,
        persist::MAGIC_V3 == 0x3356_4346,
        persist::MAGIC_V4 == 0x3456_4346,
        persist::MAGIC_END == 0x5644_4E45,
        persist::WIRE_VERSION == 1,
        persist::HASH_FN_FXHASHER_V1 == 0,
        crate::container::TAG_ARRAY == 1,
        crate::container::TAG_BITMAP == 2,
        crate::container::TAG_RUN == 3,
        crate::postings::VERSION_V1 == 1,
        crate::postings::HEADER_MIN == 9,
        crate::decoder::TERMINATED == 0xFFFF_FFFF,
        crate::BITMAP_CONTAINER_WORDS == 2048,
        crate::container::ARRAY_TO_BITMAP_THRESHOLD == 4096,
        crate::container::CONTAINER_CARDINALITY_MAX == 65536,
{
}

/// Every tier keeps one entry for a key, and its entries together are within the budget.
/// A list of the host tier is charged its cost, an entry of the device tier four bytes for
/// each of its words, 2048 for each bucket, and one of the compressed tier the compressed
/// bytes of its chunks.
pub proof fn lemma_tiers_keep_their_budget<B>(
    host: Cht,
    device: VramCht<B>,
    compressed: VramCompressedCht<B>,
)
    requires
        host.wf(),
        device.wf(),
        compressed.wf(),
    ensures
        forall|i: int, j: int|
            #![trigger host.entries()[i], host.entries()[j]]
            0 <= i < j < host.entries().len() ==> host.entries()[i].key != host.entries()[j].key,
        host.entries().fold_left(0int, |sum: int, e: Entry<RoaringPostings>| sum + e.bytes)
            <= host.budget(),
        forall|i: int|
            0 <= i < host.entries().len() ==> (#[trigger] host.entries()[i]).bytes == cht::cost(
                host.entries()[i].value,
            ) && host.entries()[i].value.wf(),
        forall|i: int, j: int|
            #![trigger device.entries()[i], device.entries()[j]]
            0 <= i < j < device.entries().len() ==> device.entries()[i].key
                != device.entries()[j].key,
        device.entries().fold_left(0int, |sum: int, e: Entry<VramTermEntry<B>>| sum + e.bytes)
            <= device.budget(),
        forall|i: int|
            0 <= i < device.entries().len() ==> (#[trigger] device.entries()[i]).bytes == 4
                * device.entries()[i].value.total_words && device.entries()[i].value.total_words
                == 2048 * device.entries()[i].value.bucket_index@.len(),
        forall|i: int, j: int|
            #![trigger compressed.entries()[i], compressed.entries()[j]]
            0 <= i < j < compressed.entries().len() ==> compressed.entries()[i].key
                != compressed.entries()[j].key,
        compressed.entries().fold_left(
            0int,
            |sum: int, e: Entry<VramCompressedTermEntry<B>>| sum + e.bytes,
        ) <= compressed.budget(),
        forall|i: int|
            0 <= i < compressed.entries().len() ==> {
                let e = #[trigger] compressed.entries()[i];
                &&& e.bytes == e.value.chunks@.fold_left(
                    0int,
                    |sum: int, c: DeviceChunkSlice<B>| sum + c.compressed_bytes,
                )
                &&& e.value.uncompressed_bytes == 8192 * e.value.bucket_index@.len()
                &&& e.value.uncompressed_bytes == e.value.chunks@.fold_left(
                    0int,
                    |sum: int, c: DeviceChunkSlice<B>| sum + c.uncompressed_bytes,
                )
            },
{
    host.lemma_wf();
    device.lemma_wf();
    compressed.lemma_wf();
    lru::lemma_total_is_sum(host.entries());
    lru::lemma_total_is_sum(device.entries());
    lru::lemma_total_is_sum(compressed.entries());
    assert forall|i: int| 0 <= i < compressed.entries().len() implies {
        let e = #[trigger] compressed.entries()[i];
        &&& e.bytes == e.value.chunks@.fold_left(
            0int,
            |sum: int, c: DeviceChunkSlice<B>| sum + c.compressed_bytes,
        )
        &&& e.value.uncompressed_bytes == 8192 * e.value.bucket_index@.len()
        &&& e.value.uncompressed_bytes == e.value.chunks@.fold_left(
            0int,
            |sum: int, c: DeviceChunkSlice<B>| sum + c.uncompressed_bytes,
        )
    } by {
        let e = compressed.entries()[i];
        assert(vram_cht_v3::charged(e));
        crate::chunk_laws::lemma_packed_is_sum(e.value.chunks@);
        vram_cht_v3::lemma_tiled_sum(e.value.chunks@, e.value.bucket_index@.len() as int);
    }
}

/// The uncompressed bytes that the compressed tier reports are those of all its entries.
pub proof fn lemma_plain_total_is_sum<B>(s: Seq<Entry<VramCompressedTermEntry<B>>>)
    ensures
        vram_cht_v3::plain_total(s) == s.fold_left(
            0int,
            |sum: int, e: Entry<VramCompressedTermEntry<B>>| sum + e.value.uncompressed_bytes,
        ),
    decreases s.len(),
{
    if s.len() > 0 {
        lemma_plain_total_is_sum(s.drop_last());
    }
}

/// A fresh cache is empty, has the limits it was made with, and has counted nothing.
pub proof fn lemma_fresh_is_empty<B>(
    device: VramCht<B>,
    compressed: VramCompressedCht<B>,
    budget: u64,
    off: bool,
    data_type: BitcompDataType,
)
    ensures
        vram_cht::fresh(device, budget, off) ==> device.wf() && device.entries().len() == 0
            && device.budget() == budget && device.off() == off && device.counts()
            == (vram_cht::VramCounters {
            hits: 0,
            misses: 0,
            inserts: 0,
            evictions: 0,
            promotions: 0,
        }),
        vram_cht_v3::fresh(compressed, budget, off, data_type) ==> compressed.wf()
            && compressed.entries().len() == 0 && compressed.budget() == budget && compressed.off()
            == off && compressed.element() == data_type && compressed.counts()
            == (vram_cht_v3::CompressedCounters {
            hits: 0,
            misses: 0,
            inserts: 0,
            evictions: 0,
            promotions: 0,
            cross_tier_promotions: 0,
        }),
{
}

/// A dump of the device tier holds a record for every entry, oldest first: its key, its
/// bucket index and the words that downloading its buffer gave. A download that fails is
/// reported with the number of its entry and its bytes.
pub proof fn lemma_dump_holds_every_entry<B, D: Fn(&B, usize) -> Result<Vec<u32>, u32>>(
    c: VramCht<B>,
    download: D,
    ws: Seq<Vec<u32>>,
    r: Result<(Vec<u8>, u64), DumpError>,
)
    requires
        c.dumps(download, ws, r),
    ensures
        forall|i: int|
            0 <= i < ws.len() ==> call_ensures(
                download,
                (&c.entries()[i].value.d_buckets, c.entries()[i].value.total_words),
                Ok(#[trigger] ws[i]),
            ),
        match r {
            Ok((bytes, n)) => n == c.entries().len() && ws.len() == n && bytes@
                == vram_record::dump_bytes(
                Seq::new(
                    c.entries().len(),
                    |i: int|
                        RecordView {
                            key: c.entries()[i].key,
                            index: c.entries()[i].value.bucket_index@,
                            body: wire::enc32(ws[i]@),
                        },
                ),
            ),
            Err(DumpError::Cuda { entry_index, bytes, code }) => entry_index == ws.len() && ws.len()
                < c.entries().len() && bytes == 4
                * c.entries()[ws.len() as int].value.total_words && call_ensures(
                download,
                (
                    &c.entries()[ws.len() as int].value.d_buckets,
                    c.entries()[ws.len() as int].value.total_words,
                ),
                Err(code),
            ),
        },
{
    let s = c.entries();
    assert forall|i: int| 0 <= i < ws.len() implies call_ensures(
        download,
        (&s[i].value.d_buckets, s[i].value.total_words),
        Ok(#[trigger] ws[i]),
    ) by {
        assert(vram_cht::download_gives(s[i].value, ws[i], download));
    }
    match r {
        Ok((bytes, n)) => {
            assert(vram_cht::records_of(s, ws) =~= Seq::new(
                s.len(),
                |i: int|
                    RecordView {
                        key: s[i].key,
                        index: s[i].value.bucket_index@,
                        body: wire::enc32(ws[i]@),
                    },
            ));
        },
        Err(_) => {},
    }
}

/// A dump of the compressed tier holds a record for every selected entry, in their order:
/// its key, its bucket index, its uncompressed bytes and what downloading its chunks gave. A
/// download that fails is reported with the number of its entry and the bytes of its chunk.
pub proof fn lemma_compressed_dump_holds_every_entry<
    B,
    D: Fn(&B, usize) -> Result<Vec<u8>, u32>,
>(
    sel: Seq<Entry<VramCompressedTermEntry<B>>>,
    download: D,
    all: Seq<Seq<Vec<u8>>>,
    part: Seq<Vec<u8>>,
    r: Result<(Vec<u8>, u64), DumpError>,
)
    requires
        VramCompressedCht::dumps(sel, download, all, part, r),
    ensures
        forall|i: int|
            0 <= i < all.len() ==> (#[trigger] all[i]).len() == sel[i].value.chunks@.len(),
        forall|i: int, k: int|
            0 <= i < all.len() && 0 <= k < all[i].len() ==> call_ensures(
                download,
                (
                    &sel[i].value.chunks@[k].d_compressed,
                    sel[i].value.chunks@[k].compressed_bytes,
                ),
                Ok(#[trigger] all[i][k]),
            ),
        match r {
            Ok((bytes, n)) => n == sel.len() && all.len() == n && bytes@
                == compressed_record::dump_bytes(
                Seq::new(
                    sel.len(),
                    |i: int|
                        CompressedView {
                            key: sel[i].key,
                            index: sel[i].value.bucket_index@,
                            uncompressed_bytes: sel[i].value.uncompressed_bytes as u64,
                            bodies: Seq::new(all[i].len(), |k: int| all[i][k]@),
                        },
                ),
            ),
            Err(DumpError::Cuda { entry_index, bytes, code }) => {
                let c = sel[all.len() as int].value.chunks@[part.len() as int];
                &&& entry_index == all.len()
                &&& all.len() < sel.len()
                &&& part.len() < sel[all.len() as int].value.chunks@.len()
                &&& bytes == c.compressed_bytes
                &&& call_ensures(download, (&c.d_compressed, c.compressed_bytes), Err(code))
            },
        },
{
    assert forall|i: int| 0 <= i < all.len() implies (#[trigger] all[i]).len()
        == sel[i].value.chunks@.len() by {
        assert(vram_cht_v3::entry_downloads(sel[i].value, all[i], download));
    }
    assert forall|i: int, k: int| 0 <= i < all.len() && 0 <= k < all[i].len() implies call_ensures(
        download,
        (&sel[i].value.chunks@[k].d_compressed, sel[i].value.chunks@[k].compressed_bytes),
        Ok(#[trigger] all[i][k]),
    ) by {
        assert(vram_cht_v3::entry_downloads(sel[i].value, all[i], download));
        assert(vram_cht_v3::chunk_gives(sel[i].value.chunks@[k], all[i][k], download));
    }
    match r {
        Ok((bytes, n)) => {
            let views = Seq::new(
                sel.len(),
                |i: int|
                    CompressedView {
                        key: sel[i].key,
                        index: sel[i].value.bucket_index@,
                        uncompressed_bytes: sel[i].value.uncompressed_bytes as u64,
                        bodies: Seq::new(all[i].len(), |k: int| all[i][k]@),
                    },
            );
            assert forall|i: int| 0 <= i < sel.len() implies vram_cht_v3::records_of(sel, all)[i]
                == #[trigger] views[i] by {
                assert(compressed_record::contents(all[i]) =~= Seq::new(
                    all[i].len(),
                    |k: int| all[i][k]@,
                ));
            }
            assert(vram_cht_v3::records_of(sel, all) =~= views);
        },
        Err(_) => {},
    }
}

/// Selecting segments picks their entries and no others, in order.
pub proof fn lemma_selected_keeps_order<B>(
    s: Seq<Entry<VramCompressedTermEntry<B>>>,
    segments: Seq<SegmentId>,
)
    ensures
        vram_cht_v3::selected(s, segments) == s.filter(
            |e: Entry<VramCompressedTermEntry<B>>| segments.contains(e.key.segment_id),
        ),
{
    assert((|e: Entry<VramCompressedTermEntry<B>>| lru::in_segments(e.key, segments)) =~= (|
        e: Entry<VramCompressedTermEntry<B>>,
    | segments.contains(e.key.segment_id)));
}

/// Loading into the device tier: the records that the bytes parse as are uploaded, each by
/// its words, and installed one behind the other. A fault of the bytes is reported after the
/// records in front of it were installed. When the upload of every record failed, the last
/// failure is reported; otherwise the number of records that were stored.
pub proof fn lemma_load_answers<B, U: Fn(&Vec<u32>) -> Result<B, VramChtError>>(
    before: VramCht<B>,
    after: VramCht<B>,
    bytes: Seq<u8>,
    upload: U,
    recs: Seq<VramRecord>,
    outs: Seq<Option<B>>,
    r: Result<u64, LoadError>,
)
    requires
        before.loads(&after, bytes, upload, recs, outs, r),
    ensures
        recs.len() == vram_record::parse_dump(bytes).0.len(),
        outs.len() == recs.len(),
        forall|i: int|
            0 <= i < recs.len() ==> ({
                let v = vram_record::parse_dump(bytes).0[i];
                &&& v.key == (#[trigger] recs[i]).key
                &&& v.index == recs[i].bucket_index@
                &&& v.body == recs[i].body@
            }),
        forall|i: int|
            0 <= i < recs.len() ==> ({
                let body = (#[trigger] recs[i]).body@;
                if body.len() != 8192 * recs[i].bucket_index@.len() {
                    outs[i] is None
                } else {
                    exists|words: Vec<u32>, res: Result<B, VramChtError>| #[trigger]
                        call_ensures(upload, (&words,), res) && words@ == vram_record::body_words(
                            body,
                        ) && (outs[i] is Some <==> res is Ok) && (outs[i] is Some ==> res == Ok::<
                            B,
                            VramChtError,
                        >(outs[i]->0))
                }
            }),
        ({
            let (t, loaded, gone) = vram_cht::installed(
                before.entries(),
                recs,
                outs,
                before.budget() as int,
                recs.len() as int,
            );
            &&& after.entries() == t
            &&& after.counts() == (vram_cht::VramCounters {
                inserts: lru::wadd(before.counts().inserts, loaded),
                evictions: lru::wadd(before.counts().evictions, gone),
                ..before.counts()
            })
            &&& vram_record::parse_dump(bytes).1 matches Err(e) ==> r == Err::<u64, LoadError>(e)
            &&& vram_record::parse_dump(bytes).1 is Ok ==> if recs.len() > 0 && (forall|i: int|
                0 <= i < recs.len() ==> (#[trigger] recs[i]).body@.len() == 8192
                    * recs[i].bucket_index@.len() && outs[i] is None) {
                r matches Err(LoadError::Cuda { entry_index, bytes, code }) && entry_index
                    == recs.len() - 1
            } else {
                r matches Ok(n) && n == loaded
            }
        }),
{
    let views = vram_record::parse_dump(bytes).0;
    assert forall|i: int| 0 <= i < recs.len() implies ({
        let v = views[i];
        &&& v.key == (#[trigger] recs[i]).key
        &&& v.index == recs[i].bucket_index@
        &&& v.body == recs[i].body@
    }) by {
        assert(vram_cht::record_views(recs)[i] == recs[i]@);
    }
    assert forall|i: int| 0 <= i < recs.len() implies ({
        let body = (#[trigger] recs[i]).body@;
        if body.len() != 8192 * recs[i].bucket_index@.len() {
            outs[i] is None
        } else {
            exists|words: Vec<u32>, res: Result<B, VramChtError>| #[trigger]
                call_ensures(upload, (&words,), res) && words@ == vram_record::body_words(body) && (
                outs[i] is Some <==> res is Ok) && (outs[i] is Some ==> res == Ok::<
                    B,
                    VramChtError,
                >(outs[i]->0))
        }
    }) by {
        assert(vram_cht::uploaded(recs[i], outs[i], upload));
        if vram_cht::consistent(recs[i]@) {
            let (words, res) = choose|words: Vec<u32>, res: Result<B, VramChtError>| #[trigger]
                vram_cht::upload_gives(words, res, upload) && words@ == vram_record::body_words(
                    recs[i].body@,
                ) && outs[i] == (match res {
                    Ok(d) => Some(d),
                    Err(_) => None,
                });
            assert(call_ensures(upload, (&words,), res));
        }
    }
    if recs.len() > 0 && (forall|i: int|
        0 <= i < recs.len() ==> (#[trigger] recs[i]).body@.len() == 8192
            * recs[i].bucket_index@.len() && outs[i] is None) {
        assert forall|i: int| 0 <= i < recs.len() implies #[trigger] vram_cht::lost(
            recs[i],
            outs[i],
        ) by {
            assert(recs[i].body@.len() == 8192 * recs[i].bucket_index@.len());
        }
    }
    if vram_cht::all_lost(recs, outs) {
        assert forall|i: int| 0 <= i < recs.len() implies (#[trigger] recs[i]).body@.len() == 8192
            * recs[i].bucket_index@.len() && outs[i] is None by {
            assert(vram_cht::lost(recs[i], outs[i]));
        }
    }
}

/// Loading into the compressed tier: the records that the bytes parse as are uploaded chunk
/// by chunk where their lengths agree and their bodies fit the budget, and installed one
/// behind the other. Faults and failures are reported as for the device tier.
pub proof fn lemma_compressed_load_answers<B, U: Fn(&Vec<u8>) -> Result<B, VramChtError>>(
    before: VramCompressedCht<B>,
    after: VramCompressedCht<B>,
    bytes: Seq<u8>,
    upload: U,
    recs: Seq<CompressedRecord>,
    outs: Seq<Option<Vec<DeviceChunkSlice<B>>>>,
    r: Result<u64, LoadError>,
)
    requires
        before.loads(&after, bytes, upload, recs, outs, r),
    ensures
        recs.len() == compressed_record::parse_dump(bytes).0.len(),
        outs.len() == recs.len(),
        forall|i: int|
            0 <= i < recs.len() ==> ({
                let v = compressed_record::parse_dump(bytes).0[i];
                &&& v.key == (#[trigger] recs[i]).key
                &&& v.index == recs[i].bucket_index@
                &&& v.uncompressed_bytes == recs[i].uncompressed_bytes
                &&& v.bodies.len() == recs[i].bodies@.len()
                &&& forall|k: int|
                    0 <= k < v.bodies.len() ==> #[trigger] v.bodies[k] == recs[i].bodies@[k]@
            }),
        ({
            let (t, loaded, gone) = vram_cht_v3::installed(
                before.entries(),
                recs,
                outs,
                before.budget() as int,
                recs.len() as int,
            );
            &&& after.entries() == t
            &&& after.counts() == (vram_cht_v3::CompressedCounters {
                inserts: lru::wadd(before.counts().inserts, loaded),
                evictions: lru::wadd(before.counts().evictions, gone),
                ..before.counts()
            })
            &&& compressed_record::parse_dump(bytes).1 matches Err(e) ==> r == Err::<
                u64,
                LoadError,
            >(e)
            &&& compressed_record::parse_dump(bytes).1 is Ok ==> match r {
                Ok(n) => n == loaded,
                Err(LoadError::Cuda { entry_index, bytes, code }) => entry_index == recs.len() - 1
                    && loaded == 0 && forall|i: int|
                    0 <= i < recs.len() ==> #[trigger] outs[i] is None,
                Err(_) => false,
            }
            &&& compressed_record::parse_dump(bytes).1 is Ok && r is Ok && recs.len() > 0
                ==> exists|i: int|
                0 <= i < recs.len() && (#[trigger] outs[i] is Some
                    || recs[i].uncompressed_bytes != 8192 * recs[i].bucket_index@.len()
                    || recs[i].uncompressed_bytes > usize::MAX || recs[i].bodies@.len() == 0
                    || 2048 * recs[i].bodies@.len() < recs[i].bucket_index@.len()
                    || recs[i].bodies@.map_values(|v: Vec<u8>| v@).flatten().len()
                    > before.budget())
        }),
{
    let views = compressed_record::parse_dump(bytes).0;
    let budget = before.budget() as int;
    assert forall|i: int| 0 <= i < recs.len() implies ({
        let v = views[i];
        &&& v.key == (#[trigger] recs[i]).key
        &&& v.index == recs[i].bucket_index@
        &&& v.uncompressed_bytes == recs[i].uncompressed_bytes
        &&& v.bodies.len() == recs[i].bodies@.len()
        &&& forall|k: int|
            0 <= k < v.bodies.len() ==> #[trigger] v.bodies[k] == recs[i].bodies@[k]@
    }) by {
        assert(vram_cht_v3::record_views(recs)[i] == recs[i]@);
    }
    if recs.len() > 0 && vram_cht_v3::all_lost(recs, outs, budget) {
        vram_cht_v3::lemma_all_lost(before.entries(), recs, outs, budget, recs.len() as int);
        assert forall|i: int| 0 <= i < recs.len() implies #[trigger] outs[i] is None by {
            assert(vram_cht_v3::lost(recs[i], outs[i], budget));
        }
    } else if recs.len() > 0 {
        let i = choose|i: int|
            0 <= i < recs.len() && !(#[trigger] vram_cht_v3::lost(recs[i], outs[i], budget));
        let bodies = recs[i].bodies@.map_values(|v: Vec<u8>| v@);
        crate::load_laws::lemma_body_sum_is_length(bodies);
        assert(recs[i]@.bodies =~= bodies);
        assert(outs[i] is Some || recs[i].uncompressed_bytes != 8192 * recs[i].bucket_index@.len()
            || recs[i].uncompressed_bytes > usize::MAX || recs[i].bodies@.len() == 0 || 2048
            * recs[i].bodies@.len() < recs[i].bucket_index@.len() || bodies.flatten().len()
            > before.budget());
    }
}

/// Records are installed one behind the other: none changes nothing, and one more is
/// installed into what the others left.
pub proof fn lemma_records_install_in_order<B>(
    s: Seq<Entry<VramTermEntry<B>>>,
    recs: Seq<VramRecord>,
    outs: Seq<Option<B>>,
    u: Seq<Entry<VramCompressedTermEntry<B>>>,
    packed: Seq<CompressedRecord>,
    made: Seq<Option<Vec<DeviceChunkSlice<B>>>>,
    budget: int,
    n: int,
)
    requires
        0 <= n,
    ensures
        vram_cht::installed(s, recs, outs, budget, 0) == (s, 0int, 0int),
        ({
            let (t, loaded, gone) = vram_cht::installed(s, recs, outs, budget, n);
            let (v, more, shed) = vram_cht::install_step(t, recs[n], outs[n], budget);
            vram_cht::installed(s, recs, outs, budget, n + 1) == (v, loaded + more, gone + shed)
        }),
        vram_cht_v3::installed(u, packed, made, budget, 0) == (u, 0int, 0int),
        ({
            let (t, loaded, gone) = vram_cht_v3::installed(u, packed, made, budget, n);
            let (v, more, shed) = vram_cht_v3::install_step(t, packed[n], made[n], budget);
            vram_cht_v3::installed(u, packed, made, budget, n + 1) == (v, loaded + more, gone
                + shed)
        }),
{
}

/// What is charged for an entry of each tier.
pub proof fn lemma_charges<B>(
    a: Entry<RoaringPostings>,
    b: Entry<VramTermEntry<B>>,
    c: Entry<VramCompressedTermEntry<B>>,
)
    ensures
        cht::charged(a) ==> a.value.wf() && a.bytes == cht::cost(a.value),
        vram_cht::charged(b) ==> b.bytes == 4 * b.value.total_words && b.value.total_words == 2048
            * b.value.bucket_index@.len(),
        vram_cht_v3::charged(c) ==> c.bytes == c.value.chunks@.fold_left(
            0int,
            |sum: int, k: DeviceChunkSlice<B>| sum + k.compressed_bytes,
        ) && c.value.uncompressed_bytes == 8192 * c.value.bucket_index@.len(),
        vram_cht::no_events() == (vram_cht::VramCounters {
            hits: 0,
            misses: 0,
            inserts: 0,
            evictions: 0,
            promotions: 0,
        }),
        vram_cht_v3::no_events() == (vram_cht_v3::CompressedCounters {
            hits: 0,
            misses: 0,
            inserts: 0,
            evictions: 0,
            promotions: 0,
            cross_tier_promotions: 0,
        }),
{
    crate::chunk_laws::lemma_packed_is_sum(c.value.chunks@);
}

/// What it means that nothing changed, and that the limits stayed.
pub proof fn lemma_nothing_changed<B>(
    a: VramCht<B>,
    b: VramCht<B>,
    c: VramCompressedCht<B>,
    d: VramCompressedCht<B>,
)
    ensures
        b.same_limits(&a) <==> b.budget() == a.budget() && b.off() == a.off(),
        d.same_limits(&c) <==> d.budget() == c.budget() && d.off() == c.off() && d.element()
            == c.element(),
        c.unchanged(&d) <==> d.entries() == c.entries() && d.counts() == c.counts(),
{
}

/// Promoting a list: with the kill switch on, or without documents, nothing changes;
/// otherwise the expansion of the documents is compressed and stored as one promotion.
pub proof fn lemma_promotion<
    B,
    F: Fn(&Vec<u32>, usize, usize) -> Result<(B, usize), VramCompressedChtError>,
>(
    before: VramCompressedCht<B>,
    after: VramCompressedCht<B>,
    key: ChtKey,
    docs: Set<u32>,
    compress: F,
    r: Result<bool, VramCompressedChtError>,
)
    requires
        before.promotes(&after, key, docs, compress, r),
    ensures
        before.off() || docs.len() == 0 ==> r == Ok::<bool, VramCompressedChtError>(false)
            && after.entries() == before.entries() && after.counts() == before.counts(),
        !before.off() && docs.len() > 0 ==> exists|p: SharedBitmapPayload| #[trigger]
            p.expands(docs) && before.compresses(
                &after,
                key,
                p.bucket_index,
                p.staging,
                compress,
                1,
                0,
                r,
            ),
{
}

/// A chunk that cannot be compressed is reported with the error that its own byte range
/// gave: the range that starts at a multiple of 16 MiB and goes on for 16 MiB or to the end.
pub proof fn lemma_failed_chunk_is_reported<
    S,
    B,
    F: Fn(&S, usize, usize) -> Result<(B, usize), VramCompressedChtError>,
>(
    before: VramCompressedCht<B>,
    after: VramCompressedCht<B>,
    key: ChtKey,
    index: Vec<(u16, u32)>,
    src: S,
    compress: F,
    promoted: int,
    crossed: int,
    e: VramCompressedChtError,
)
    requires
        before.compresses(
            &after,
            key,
            index,
            src,
            compress,
            promoted,
            crossed,
            Err::<bool, VramCompressedChtError>(e),
        ),
        index@.len() <= 131_072,
    ensures
        after.entries() == before.entries(),
        after.counts() == before.counts(),
        exists|off: usize, len: usize| #[trigger]
            call_ensures(compress, (&src, off, len), Err::<(B, usize), VramCompressedChtError>(e))
                && off % 16_777_216 == 0 && off < 8192 * index@.len() && len == (if 8192
                * index@.len() - off >= 16_777_216 {
                16_777_216int
            } else {
                8192 * index@.len() - off
            }),
{
    let count = index@.len() as int;
    let done = choose|done: Seq<DeviceChunkSlice<B>>| #[trigger]
        vram_cht_v3::compress_stops(src, count, done, e, compress);
    let k = done.len() as int;
    assert(2048 * k < count);
    let off = (16_777_216 * k) as usize;
    let len = vram_cht_v3::chunk_plain(k, count) as usize;
    assert(off == 16_777_216 * k);
    assert(call_ensures(compress, (&src, off, len), Err::<(B, usize), VramCompressedChtError>(e)));
}

/// When the upload of every record of a dump failed, the failure of the last is reported,
/// with the bytes and the code of its device call.
pub proof fn lemma_failed_upload_is_reported<B, U: Fn(&Vec<u32>) -> Result<B, VramChtError>>(
    before: VramCht<B>,
    after: VramCht<B>,
    dump: Seq<u8>,
    upload: U,
    recs: Seq<VramRecord>,
    outs: Seq<Option<B>>,
    entry_index: u64,
    bytes: usize,
    code: u32,
)
    requires
        vram_record::parse_dump(dump).1 is Ok,
        before.loads(
            &after,
            dump,
            upload,
            recs,
            outs,
            Err::<u64, LoadError>(LoadError::Cuda { entry_index, bytes, code }),
        ),
    ensures
        recs.len() > 0,
        entry_index == recs.len() - 1,
        exists|words: Vec<u32>, e: VramChtError| #[trigger]
            call_ensures(upload, (&words,), Err::<B, VramChtError>(e)) && words@
                == vram_record::body_words(recs[recs.len() - 1].body@) && (e
                == (VramChtError::Malloc { bytes, code }) || e == (VramChtError::Memcpy {
                bytes,
                code,
            })),
{
    let last = recs[recs.len() - 1];
    assert(recs.last() == last);
    let (words, e) = choose|words: Vec<u32>, e: VramChtError| #[trigger]
        vram_cht::upload_gives(words, Err::<B, VramChtError>(e), upload) && words@
            == vram_record::body_words(last.body@) && vram_cht::call_numbers(e) == (bytes, code);
    assert(call_ensures(upload, (&words,), Err::<B, VramChtError>(e)));
}

/// The same for the compressed tier: the failure is that of one of the chunks of the last
/// record.
pub proof fn lemma_failed_chunk_upload_is_reported<
    B,
    U: Fn(&Vec<u8>) -> Result<B, VramChtError>,
>(
    before: VramCompressedCht<B>,
    after: VramCompressedCht<B>,
    dump: Seq<u8>,
    upload: U,
    recs: Seq<CompressedRecord>,
    outs: Seq<Option<Vec<DeviceChunkSlice<B>>>>,
    entry_index: u64,
    bytes: usize,
    code: u32,
)
    requires
        compressed_record::parse_dump(dump).1 is Ok,
        before.loads(
            &after,
            dump,
            upload,
            recs,
            outs,
            Err::<u64, LoadError>(LoadError::Cuda { entry_index, bytes, code }),
        ),
    ensures
        recs.len() > 0,
        entry_index == recs.len() - 1,
        exists|k: int, e: VramChtError|
            0 <= k < recs[recs.len() - 1].bodies@.len() && #[trigger] call_ensures(
                upload,
                (&recs[recs.len() - 1].bodies@[k],),
                Err::<B, VramChtError>(e),
            ) && (e == (VramChtError::Malloc { bytes, code }) || e == (VramChtError::Memcpy {
                bytes,
                code,
            })),
{
    let last = recs[recs.len() - 1];
    assert(recs.last() == last);
    let e = choose|e: VramChtError| #[trigger]
        vram_cht_v3::chunk_upload_fails::<B, U>(last.bodies@, e, upload) && vram_cht::call_numbers(
            e,
        ) == (bytes, code);
    let k = choose|k: int|
        0 <= k < last.bodies@.len() && #[trigger] vram_cht_v3::upload_fails::<B, U>(
            last.bodies@[k],
            e,
            upload,
        );
    assert(call_ensures(upload, (&last.bodies@[k],), Err::<B, VramChtError>(e)));
}

/// A record of the compressed tier whose lengths do not agree is not uploaded.
pub proof fn lemma_unsound_record_is_not_uploaded<B, U: Fn(&Vec<u8>) -> Result<B, VramChtError>>(
    rec: CompressedRecord,
    out: Option<Vec<DeviceChunkSlice<B>>>,
    budget: int,
    upload: U,
)
    requires
        vram_cht_v3::uploaded(rec, out, budget, upload),
        rec.uncompressed_bytes != 8192 * rec.bucket_index@.len() || rec.uncompressed_bytes
            > usize::MAX || rec.bodies@.len() == 0 || 2048 * rec.bodies@.len()
            < rec.bucket_index@.len() || rec.bodies@.map_values(|v: Vec<u8>| v@).flatten().len()
            > budget,
    ensures
        out is None,
{
    let bodies = rec.bodies@.map_values(|v: Vec<u8>| v@);
    crate::load_laws::lemma_body_sum_is_length(bodies);
    assert(rec@.bodies =~= bodies);
}

} // verus!
