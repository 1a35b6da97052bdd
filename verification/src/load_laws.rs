//! What loading a dump brings into the device tiers.
//!
//! A record is passed over for its size only where it alone exceeds the whole budget;
//! what was cached before makes room for it.

use vstd::prelude::*;

use crate::compressed_record;
use crate::lru;
use crate::vram_cht;
use crate::vram_cht_v3;
use crate::vram_record;

use crate::cht::ChtKey;
use crate::compressed_record::CompressedRecord;
use crate::lru::Entry;
use crate::persist::LoadError;
use crate::vram_cht::{VramCht, VramChtError, VramTermEntry};
use crate::vram_cht_v3::{DeviceChunkSlice, VramCompressedCht, VramCompressedTermEntry};
use crate::vram_record::VramRecord;

verus! {

/// Installing a record of the uncompressed tier: one whose words are all there, whose
/// upload gave a buffer, whose size alone is within the budget and whose key is not
/// cached becomes the last entry, and of the others only the oldest go, no more than it
/// takes. Any other record changes nothing.
pub proof fn lemma_record_installs<B>(
    s: Seq<Entry<VramTermEntry<B>>>,
    rec: VramRecord,
    out: Option<B>,
    budget: int,
)
    requires
        0 <= budget <= u64::MAX,
    ensures
        ({
            let (t, loaded, gone) = vram_cht::install_step(s, rec, out, budget);
            let size = rec.body@.len();
            if out is Some && size == 8192 * rec.bucket_index@.len() && size <= budget && (forall|
                i: int,
            |
                0 <= i < s.len() ==> (#[trigger] s[i]).key != rec.key) {
                let e = t[t.len() - 1];
                &&& loaded == 1
                &&& 0 <= gone <= s.len()
                &&& t.len() == s.len() - gone + 1
                &&& forall|x: int| 0 <= x < s.len() - gone ==> #[trigger] t[x] == s[x + gone]
                &&& gone > 0 ==> s.skip(gone - 1).fold_left(
                    0int,
                    |sum: int, e: Entry<VramTermEntry<B>>| sum + e.bytes,
                ) + size > budget
                &&& e.key == rec.key
                &&& e.bytes == size
                &&& Some(e.value.d_buckets) == out
                &&& e.value.bucket_index@ == rec.bucket_index@
                &&& 4 * e.value.total_words == size
            } else {
                t == s && loaded == 0 && gone == 0
            }
        }),
{
    let size = rec.body@.len();
    assert(rec.body.len() == size);
    lru::lemma_held_place(s, rec.key);
    if out is Some && size == 8192 * rec.bucket_index@.len() && size <= budget && !lru::held(
        s,
        rec.key,
    ) {
        lru::lemma_store_evicts_oldest(s, vram_cht::record_entry(rec, out->0), budget);
    }
}

/// `key` was cached or is the key of one of the first `n` records.
spec fn known<B>(s: Seq<Entry<VramTermEntry<B>>>, recs: Seq<VramRecord>, n: int, key: ChtKey) -> bool {
    lru::held(s, key) || exists|i: int| 0 <= i < n && (#[trigger] recs[i]).key == key
}

/// The records of a sound dump whose keys are new: how many the first `n` brought in,
/// and what the last of them is.
proof fn lemma_new_records_install<B>(
    s: Seq<Entry<VramTermEntry<B>>>,
    recs: Seq<VramRecord>,
    outs: Seq<Option<B>>,
    budget: int,
    fits: spec_fn(VramRecord) -> bool,
    n: int,
)
    requires
        0 <= budget <= u64::MAX,
        0 <= n <= recs.len(),
        outs.len() == recs.len(),
        forall|r: VramRecord| #[trigger] fits(r) <==> r.body@.len() <= budget,
        forall|i: int| 0 <= i < recs.len() ==> #[trigger] outs[i] is Some,
        forall|i: int|
            0 <= i < recs.len() ==> (#[trigger] recs[i]).body@.len() == 8192
                * recs[i].bucket_index@.len(),
        forall|i: int, j: int|
            0 <= i < recs.len() && 0 <= j < s.len() ==> (#[trigger] recs[i]).key != (
            #[trigger] s[j]).key,
        forall|i: int, j: int|
            0 <= i < j < recs.len() ==> (#[trigger] recs[i]).key != (#[trigger] recs[j]).key,
    ensures
        vram_cht::installed(s, recs, outs, budget, n).1 == recs.take(n).filter(fits).len(),
        forall|j: int|
            0 <= j < vram_cht::installed(s, recs, outs, budget, n).0.len() ==> known(
                s,
                recs,
                n,
                (#[trigger] vram_cht::installed(s, recs, outs, budget, n).0[j]).key,
            ),
        ({
            let t = vram_cht::installed(s, recs, outs, budget, n).0;
            forall|m: int|
                0 <= m < n && (#[trigger] recs[m]).body@.len() <= budget && (forall|i: int|
                    m < i < n ==> (#[trigger] recs[i]).body@.len() > budget) ==> t.len() > 0
                    && t[t.len() - 1].key == recs[m].key && t[t.len() - 1].bytes
                    == recs[m].body@.len() && Some(t[t.len() - 1].value.d_buckets) == outs[m]
                    && t[t.len() - 1].value.bucket_index@ == recs[m].bucket_index@
        }),
    decreases n,
{
    reveal(Seq::filter);
    if n > 0 {
        lemma_new_records_install(s, recs, outs, budget, fits, n - 1);
        let (t, loaded, gone) = vram_cht::installed(s, recs, outs, budget, n - 1);
        let rec = recs[n - 1];
        assert(recs.take(n).drop_last() =~= recs.take(n - 1));
        assert(recs.take(n).last() == rec);
        assert(outs[n - 1] is Some);
        assert forall|j: int| 0 <= j < t.len() implies (#[trigger] t[j]).key != rec.key by {
            assert(known(s, recs, n - 1, t[j].key));
            if !lru::held(s, t[j].key) {
                let i = choose|i: int| 0 <= i < n - 1 && (#[trigger] recs[i]).key == t[j].key;
                assert(recs[i].key != recs[n - 1].key);
            } else {
                let i = lru::place(s, t[j].key);
                assert(recs[n - 1].key != s[i].key);
            }
        }
        lemma_record_installs(t, rec, outs[n - 1], budget);
        let (u, more, shed) = vram_cht::install_step(t, rec, outs[n - 1], budget);
        assert(vram_cht::installed(s, recs, outs, budget, n) == (u, loaded + more, gone + shed));
        assert forall|j: int| 0 <= j < u.len() implies known(s, recs, n, (#[trigger] u[j]).key) by {
            let at = if fits(rec) {
                j + shed
            } else {
                j
            };
            if at < t.len() {
                assert(u[j] == t[at]);
                assert(known(s, recs, n - 1, t[at].key));
            } else {
                assert(recs[n - 1].key == u[j].key);
            }
        }
        assert(recs.take(n).filter(fits).len() == recs.take(n - 1).filter(fits).len() + more);
        assert forall|m: int|
            0 <= m < n && (#[trigger] recs[m]).body@.len() <= budget && (forall|i: int|
                m < i < n ==> (#[trigger] recs[i]).body@.len() > budget) implies u.len() > 0
            && u[u.len() - 1].key == recs[m].key && u[u.len() - 1].bytes == recs[m].body@.len()
            && Some(u[u.len() - 1].value.d_buckets) == outs[m] && u[u.len()
            - 1].value.bucket_index@ == recs[m].bucket_index@ by {
            if m < n - 1 {
                assert(recs[n - 1].body@.len() > budget);
            }
        }
    } else {
        assert(recs.take(0).filter(fits).len() == 0);
    }
}

/// Loading a sound dump with uploads that do not fail, of records whose keys are new:
/// every record whose size alone is within the budget counts as loaded, whatever the cache
/// held, and the last such record is the most recently used entry, in the buffer that
/// uploading its words gave.
pub proof fn lemma_load_takes_what_fits<B, U: Fn(&Vec<u32>) -> Result<B, VramChtError>>(
    before: VramCht<B>,
    after: VramCht<B>,
    bytes: Seq<u8>,
    upload: U,
    recs: Seq<VramRecord>,
    outs: Seq<Option<B>>,
    r: Result<u64, LoadError>,
)
    requires
        before.loads(&after, bytes, upload, recs, outs, r),
        vram_record::parse_dump(bytes).1 is Ok,
        forall|words: &Vec<u32>, e: VramChtError|
            !(#[trigger] call_ensures(upload, (words,), Err::<B, VramChtError>(e))),
        forall|i: int|
            0 <= i < recs.len() ==> (#[trigger] recs[i]).body@.len() == 8192
                * recs[i].bucket_index@.len(),
        forall|i: int, j: int|
            0 <= i < recs.len() && 0 <= j < before.entries().len() ==> (#[trigger] recs[i]).key != (
            #[trigger] before.entries()[j]).key,
        forall|i: int, j: int|
            0 <= i < j < recs.len() ==> (#[trigger] recs[i]).key != (#[trigger] recs[j]).key,
    ensures
        r matches Ok(n) && n == recs.filter(
            |rec: VramRecord| rec.body@.len() <= before.budget(),
        ).len(),
        forall|m: int|
            0 <= m < recs.len() && (#[trigger] recs[m]).body@.len() <= before.budget() && (forall|
                i: int,
            |
                m < i < recs.len() ==> (#[trigger] recs[i]).body@.len() > before.budget()) ==> ({
                let e = after.entries()[after.entries().len() - 1];
                &&& after.entries().len() > 0
                &&& e.key == recs[m].key
                &&& e.bytes == recs[m].body@.len()
                &&& e.value.bucket_index@ == recs[m].bucket_index@
                &&& exists|words: Vec<u32>| #[trigger]
                    call_ensures(upload, (&words,), Ok(e.value.d_buckets)) && words@
                        == vram_record::body_words(recs[m].body@)
            }),
{
    let budget = before.budget() as int;
    let n = recs.len() as int;
    assert forall|i: int| 0 <= i < recs.len() implies #[trigger] outs[i] is Some by {
        lemma_upload_gives_buffer(recs[i], outs[i], upload);
    }
    if n > 0 {
        assert(outs[0] is Some);
        assert(!vram_cht::lost(recs[0], outs[0]));
    }
    lemma_new_records_install(
        before.entries(),
        recs,
        outs,
        budget,
        |rec: VramRecord| rec.body@.len() <= before.budget(),
        n,
    );
    assert(recs.take(n) =~= recs);
    assert forall|m: int|
        0 <= m < recs.len() && (#[trigger] recs[m]).body@.len() <= before.budget() && (forall|
            i: int,
        |
            m < i < recs.len() ==> (#[trigger] recs[i]).body@.len() > before.budget()) implies ({
        let e = after.entries()[after.entries().len() - 1];
        &&& after.entries().len() > 0
        &&& e.key == recs[m].key
        &&& e.bytes == recs[m].body@.len()
        &&& e.value.bucket_index@ == recs[m].bucket_index@
        &&& exists|words: Vec<u32>| #[trigger]
            call_ensures(upload, (&words,), Ok(e.value.d_buckets)) && words@
                == vram_record::body_words(recs[m].body@)
    }) by {
        lemma_upload_gives_buffer(recs[m], outs[m], upload);
    }
}

/// With uploads that do not fail, the upload of a record whose words are all there gives
/// a buffer, from its words.
proof fn lemma_upload_gives_buffer<B, U: Fn(&Vec<u32>) -> Result<B, VramChtError>>(
    rec: VramRecord,
    out: Option<B>,
    upload: U,
)
    requires
        vram_cht::uploaded(rec, out, upload),
        rec.body@.len() == 8192 * rec.bucket_index@.len(),
        forall|words: &Vec<u32>, e: VramChtError|
            !(#[trigger] call_ensures(upload, (words,), Err::<B, VramChtError>(e))),
    ensures
        out is Some,
        exists|words: Vec<u32>| #[trigger]
            call_ensures(upload, (&words,), Ok(out->0)) && words@ == vram_record::body_words(
                rec.body@,
            ),
{
    let (words, res) = choose|words: Vec<u32>, res: Result<B, VramChtError>| #[trigger]
        vram_cht::upload_gives(words, res, upload) && words@ == vram_record::body_words(rec.body@)
            && out == (match res {
            Ok(d) => Some(d),
            Err(_) => None,
        });
    match res {
        Ok(d) => {
            assert(out == Some(d));
            assert(call_ensures(upload, (&words,), Ok(out->0)));
        },
        Err(e) => {
            assert(!call_ensures(upload, (&words,), Err::<B, VramChtError>(e)));
        },
    }
}

/// Installing a record of the compressed tier: one whose uploads gave its chunks and whose
/// key is not cached becomes the last entry, charged for the compressed bytes of its
/// chunks, and of the others only the oldest go, no more than it takes. Any other record
/// changes nothing.
pub proof fn lemma_compressed_record_installs<B>(
    s: Seq<Entry<VramCompressedTermEntry<B>>>,
    rec: CompressedRecord,
    out: Option<Vec<DeviceChunkSlice<B>>>,
    budget: int,
)
    requires
        0 <= budget <= u64::MAX,
        rec.bucket_index@.len() * 8192 <= usize::MAX,
        out matches Some(chunks) ==> chunks@.fold_left(
            0int,
            |sum: int, c: DeviceChunkSlice<B>| sum + c.compressed_bytes,
        ) <= budget,
    ensures
        ({
            let (t, loaded, gone) = vram_cht_v3::install_step(s, rec, out, budget);
            if out is Some && (forall|i: int|
                0 <= i < s.len() ==> (#[trigger] s[i]).key != rec.key) {
                let e = t[t.len() - 1];
                &&& loaded == 1
                &&& 0 <= gone <= s.len()
                &&& t.len() == s.len() - gone + 1
                &&& forall|x: int| 0 <= x < s.len() - gone ==> #[trigger] t[x] == s[x + gone]
                &&& e.key == rec.key
                &&& Some(e.value.chunks) == out
                &&& e.value.bucket_index@ == rec.bucket_index@
                &&& e.value.uncompressed_bytes == 8192 * rec.bucket_index@.len()
                &&& e.bytes == e.value.chunks@.fold_left(
                    0int,
                    |sum: int, c: DeviceChunkSlice<B>| sum + c.compressed_bytes,
                )
                &&& gone > 0 ==> s.skip(gone - 1).fold_left(
                    0int,
                    |sum: int, e: Entry<VramCompressedTermEntry<B>>| sum + e.bytes,
                ) + e.bytes > budget
            } else {
                t == s && loaded == 0 && gone == 0
            }
        }),
{
    lru::lemma_held_place(s, rec.key);
    if out is Some && !lru::held(s, rec.key) {
        let chunks = out->0;
        crate::chunk_laws::lemma_packed_is_sum(chunks@);
        lemma_packed_nonneg(chunks@);
        lru::lemma_store_evicts_oldest(
            s,
            vram_cht_v3::chunks_entry(rec.key, rec.bucket_index, chunks),
            budget,
        );
    }
}

proof fn lemma_packed_nonneg<B>(chunks: Seq<DeviceChunkSlice<B>>)
    ensures
        0 <= vram_cht_v3::packed_sum(chunks),
    decreases chunks.len(),
{
    if chunks.len() > 0 {
        lemma_packed_nonneg(chunks.drop_last());
    }
}

/// The bytes of all bodies are the length of the bodies joined.
pub proof fn lemma_body_sum_is_length(bodies: Seq<Seq<u8>>)
    ensures
        compressed_record::body_sum(bodies) == bodies.flatten().len(),
    decreases bodies.len(),
{
    if bodies.len() > 0 {
        let front = bodies.drop_last();
        lemma_body_sum_is_length(front);
        assert(bodies =~= front.push(bodies.last()));
        front.lemma_flatten_push(bodies.last());
    } else {
        assert(bodies.flatten() =~= Seq::<u8>::empty());
    }
}

/// The size of a record of the compressed tier, as the laws count it.
proof fn lemma_size(rec: CompressedRecord)
    ensures
        compressed_record::body_sum(rec@.bodies) == rec.bodies@.map_values(
            |v: Vec<u8>| v@,
        ).flatten().len(),
{
    assert(rec@.bodies =~= rec.bodies@.map_values(|v: Vec<u8>| v@));
    lemma_body_sum_is_length(rec@.bodies);
}

/// With uploads that do not fail, a sound record of the compressed tier whose bodies
/// together are within the budget gets its chunks: one for each body, of its length, in
/// the buffer that uploading it gave. One that exceeds the budget gets none.
pub proof fn lemma_compressed_upload<B, U: Fn(&Vec<u8>) -> Result<B, VramChtError>>(
    rec: CompressedRecord,
    out: Option<Vec<DeviceChunkSlice<B>>>,
    budget: int,
    upload: U,
)
    requires
        vram_cht_v3::uploaded(rec, out, budget, upload),
        rec.uncompressed_bytes == 8192 * rec.bucket_index@.len(),
        rec.uncompressed_bytes <= usize::MAX,
        rec.bodies@.len() >= 1,
        2048 * rec.bodies@.len() >= rec.bucket_index@.len(),
        forall|body: &Vec<u8>, e: VramChtError|
            !(#[trigger] call_ensures(upload, (body,), Err::<B, VramChtError>(e))),
    ensures
        out is Some <==> rec.bodies@.map_values(|v: Vec<u8>| v@).flatten().len() <= budget,
        out matches Some(chunks) ==> {
            &&& chunks@.len() == rec.bodies@.len()
            &&& forall|k: int|
                0 <= k < chunks@.len() ==> (#[trigger] chunks@[k]).compressed_bytes
                    == rec.bodies@[k]@.len() && call_ensures(
                    upload,
                    (&rec.bodies@[k],),
                    Ok(chunks@[k].d_compressed),
                )
            &&& chunks@.fold_left(
                0int,
                |sum: int, c: DeviceChunkSlice<B>| sum + c.compressed_bytes,
            ) == rec.bodies@.map_values(|v: Vec<u8>| v@).flatten().len()
        },
{
    lemma_size(rec);
    match out {
        Some(chunks) => {
            assert forall|k: int| 0 <= k < chunks@.len() implies (
            #[trigger] chunks@[k]).compressed_bytes == rec.bodies@[k]@.len() && call_ensures(
                upload,
                (&rec.bodies@[k],),
                Ok(chunks@[k].d_compressed),
            ) by {
                assert(vram_cht_v3::chunk_uploaded(
                    rec.bodies@[k],
                    k,
                    rec.bucket_index@.len() as int,
                    chunks@[k],
                    upload,
                ));
            }
            lemma_chunk_lengths(chunks@, rec.bodies@.map_values(|v: Vec<u8>| v@));
            crate::chunk_laws::lemma_packed_is_sum(chunks@);
        },
        None => {
            if vram_cht_v3::consistent(rec@) && compressed_record::body_sum(rec@.bodies) <= budget {
                let e = choose|e: VramChtError| #[trigger]
                    vram_cht_v3::chunk_upload_fails::<B, U>(rec.bodies@, e, upload);
                let k = choose|k: int|
                    0 <= k < rec.bodies@.len() && #[trigger] vram_cht_v3::upload_fails::<B, U>(
                        rec.bodies@[k],
                        e,
                        upload,
                    );
                assert(!call_ensures(upload, (&rec.bodies@[k],), Err::<B, VramChtError>(e)));
            }
        },
    }
}

proof fn lemma_chunk_lengths<B>(chunks: Seq<DeviceChunkSlice<B>>, bodies: Seq<Seq<u8>>)
    requires
        chunks.len() == bodies.len(),
        forall|k: int|
            0 <= k < chunks.len() ==> (#[trigger] chunks[k]).compressed_bytes == bodies[k].len(),
    ensures
        vram_cht_v3::packed_sum(chunks) == bodies.flatten().len(),
    decreases chunks.len(),
{
    if chunks.len() > 0 {
        let front = bodies.drop_last();
        lemma_chunk_lengths(chunks.drop_last(), front);
        assert(bodies =~= front.push(bodies.last()));
        front.lemma_flatten_push(bodies.last());
        assert(chunks.last().compressed_bytes == bodies[chunks.len() - 1].len());
    } else {
        assert(bodies.flatten() =~= Seq::<u8>::empty());
    }
}

/// `key` was cached or is the key of one of the first `n` records.
spec fn known_compressed<B>(s: Seq<Entry<VramCompressedTermEntry<B>>>, recs: Seq<CompressedRecord>, n: int, key: ChtKey) -> bool {
    lru::held(s, key) || exists|i: int| 0 <= i < n && (#[trigger] recs[i]).key == key
}

proof fn lemma_new_compressed_records_install<B>(
    s: Seq<Entry<VramCompressedTermEntry<B>>>,
    recs: Seq<CompressedRecord>,
    outs: Seq<Option<Vec<DeviceChunkSlice<B>>>>,
    budget: int,
    fits: spec_fn(CompressedRecord) -> bool,
    n: int,
)
    requires
        0 <= budget <= u64::MAX,
        0 <= n <= recs.len(),
        outs.len() == recs.len(),
        forall|i: int|
            0 <= i < recs.len() ==> 8192 * (#[trigger] recs[i]).bucket_index@.len() <= usize::MAX,
        forall|i: int|
            #![trigger outs[i]]
            0 <= i < recs.len() && outs[i] is Some ==> vram_cht_v3::packed_sum(outs[i]->0@)
                <= budget,
        forall|i: int|
            #![trigger outs[i]]
            0 <= i < recs.len() ==> (outs[i] is Some <==> fits(recs[i])),
        forall|i: int, j: int|
            0 <= i < recs.len() && 0 <= j < s.len() ==> (#[trigger] recs[i]).key != (
            #[trigger] s[j]).key,
        forall|i: int, j: int|
            0 <= i < j < recs.len() ==> (#[trigger] recs[i]).key != (#[trigger] recs[j]).key,
    ensures
        vram_cht_v3::installed(s, recs, outs, budget, n).1 == recs.take(n).filter(fits).len(),
        forall|j: int|
            0 <= j < vram_cht_v3::installed(s, recs, outs, budget, n).0.len() ==> known_compressed(
                s,
                recs,
                n,
                (#[trigger] vram_cht_v3::installed(s, recs, outs, budget, n).0[j]).key,
            ),
        ({
            let t = vram_cht_v3::installed(s, recs, outs, budget, n).0;
            forall|m: int|
                0 <= m < n && #[trigger] outs[m] is Some && (forall|i: int|
                    m < i < n ==> #[trigger] outs[i] is None) ==> t.len() > 0 && t[t.len() - 1].key
                    == recs[m].key && Some(t[t.len() - 1].value.chunks) == outs[m] && t[t.len()
                    - 1].value.bucket_index@ == recs[m].bucket_index@
        }),
    decreases n,
{
    reveal(Seq::filter);
    if n > 0 {
        lemma_new_compressed_records_install(s, recs, outs, budget, fits, n - 1);
        let (t, loaded, gone) = vram_cht_v3::installed(s, recs, outs, budget, n - 1);
        let rec = recs[n - 1];
        assert(recs.take(n).drop_last() =~= recs.take(n - 1));
        assert(recs.take(n).last() == rec);
        assert(outs[n - 1] is Some <==> fits(rec));
        if outs[n - 1] is Some {
            crate::chunk_laws::lemma_packed_is_sum(outs[n - 1]->0@);
        }
        assert forall|j: int| 0 <= j < t.len() implies (#[trigger] t[j]).key != rec.key by {
            assert(known_compressed(s, recs, n - 1, t[j].key));
            if !lru::held(s, t[j].key) {
                let i = choose|i: int| 0 <= i < n - 1 && (#[trigger] recs[i]).key == t[j].key;
                assert(recs[i].key != recs[n - 1].key);
            } else {
                let i = lru::place(s, t[j].key);
                assert(recs[n - 1].key != s[i].key);
            }
        }
        lemma_compressed_record_installs(t, rec, outs[n - 1], budget);
        let (u, more, shed) = vram_cht_v3::install_step(t, rec, outs[n - 1], budget);
        assert(vram_cht_v3::installed(s, recs, outs, budget, n) == (u, loaded + more, gone + shed));
        assert forall|j: int| 0 <= j < u.len() implies known_compressed(s, recs, n, (#[trigger] u[j]).key) by {
            let at = if fits(rec) {
                j + shed
            } else {
                j
            };
            if at < t.len() {
                assert(u[j] == t[at]);
                assert(known_compressed(s, recs, n - 1, t[at].key));
            } else {
                assert(recs[n - 1].key == u[j].key);
            }
        }
        assert(recs.take(n).filter(fits).len() == recs.take(n - 1).filter(fits).len() + more);
        assert forall|m: int|
            0 <= m < n && #[trigger] outs[m] is Some && (forall|i: int|
                m < i < n ==> #[trigger] outs[i] is None) implies u.len() > 0 && u[u.len() - 1].key
            == recs[m].key && Some(u[u.len() - 1].value.chunks) == outs[m] && u[u.len()
            - 1].value.bucket_index@ == recs[m].bucket_index@ by {
            if m < n - 1 {
                assert(outs[n - 1] is None);
            }
        }
    } else {
        assert(recs.take(0).filter(fits).len() == 0);
    }
}

/// Loading a sound dump of the compressed tier with uploads that do not fail, of records
/// whose keys are new: every record whose bodies together are within the budget counts as
/// loaded, whatever the cache held, and the last such record is the most recently used
/// entry, with a chunk for each body.
pub proof fn lemma_compressed_load_takes_what_fits<
    B,
    U: Fn(&Vec<u8>) -> Result<B, VramChtError>,
>(
    before: VramCompressedCht<B>,
    after: VramCompressedCht<B>,
    bytes: Seq<u8>,
    upload: U,
    recs: Seq<CompressedRecord>,
    outs: Seq<Option<Vec<DeviceChunkSlice<B>>>>,
    r: Result<u64, LoadError>,
)
    requires
        before.loads(&after, bytes, upload, recs, outs, r),
        compressed_record::parse_dump(bytes).1 is Ok,
        forall|body: &Vec<u8>, e: VramChtError|
            !(#[trigger] call_ensures(upload, (body,), Err::<B, VramChtError>(e))),
        forall|i: int|
            0 <= i < recs.len() ==> {
                &&& (#[trigger] recs[i]).uncompressed_bytes == 8192 * recs[i].bucket_index@.len()
                &&& recs[i].uncompressed_bytes <= usize::MAX
                &&& recs[i].bodies@.len() >= 1
                &&& 2048 * recs[i].bodies@.len() >= recs[i].bucket_index@.len()
            },
        forall|i: int, j: int|
            0 <= i < recs.len() && 0 <= j < before.entries().len() ==> (#[trigger] recs[i]).key != (
            #[trigger] before.entries()[j]).key,
        forall|i: int, j: int|
            0 <= i < j < recs.len() ==> (#[trigger] recs[i]).key != (#[trigger] recs[j]).key,
    ensures
        r matches Ok(n) && n == recs.filter(
            |rec: CompressedRecord|
                rec.bodies@.map_values(|v: Vec<u8>| v@).flatten().len() <= before.budget(),
        ).len(),
        forall|m: int|
            0 <= m < recs.len() && (#[trigger] recs[m]).bodies@.map_values(
                |v: Vec<u8>| v@,
            ).flatten().len() <= before.budget() && (forall|i: int|
                m < i < recs.len() ==> (#[trigger] recs[i]).bodies@.map_values(
                    |v: Vec<u8>| v@,
                ).flatten().len() > before.budget()) ==> ({
                let e = after.entries()[after.entries().len() - 1];
                &&& after.entries().len() > 0
                &&& e.key == recs[m].key
                &&& e.value.bucket_index@ == recs[m].bucket_index@
                &&& e.value.chunks@.len() == recs[m].bodies@.len()
                &&& forall|k: int|
                    0 <= k < e.value.chunks@.len() ==> (
                    #[trigger] e.value.chunks@[k]).compressed_bytes == recs[m].bodies@[k]@.len()
                        && call_ensures(
                        upload,
                        (&recs[m].bodies@[k],),
                        Ok(e.value.chunks@[k].d_compressed),
                    )
            }),
{
    let budget = before.budget() as int;
    let n = recs.len() as int;
    assert forall|i: int|
        #![trigger outs[i]]
        0 <= i < recs.len() implies (outs[i] is Some <==> recs[i].bodies@.map_values(
        |v: Vec<u8>| v@,
    ).flatten().len() <= budget) by {
        assert(vram_cht_v3::uploaded(recs[i], outs[i], budget, upload));
        lemma_compressed_upload(recs[i], outs[i], budget, upload);
    }
    assert forall|i: int|
        #![trigger outs[i]]
        0 <= i < recs.len() && outs[i] is Some implies vram_cht_v3::packed_sum(outs[i]->0@)
        <= budget by {
        assert(vram_cht_v3::uploaded(recs[i], outs[i], budget, upload));
        lemma_compressed_upload(recs[i], outs[i], budget, upload);
        crate::chunk_laws::lemma_packed_is_sum(outs[i]->0@);
    }
    if n > 0 {
        assert(outs[0] is Some <==> recs[0].bodies@.map_values(|v: Vec<u8>| v@).flatten().len()
            <= budget);
        lemma_size(recs[0]);
        assert(!vram_cht_v3::lost(recs[0], outs[0], budget));
    }
    let fits = |rec: CompressedRecord|
        rec.bodies@.map_values(|v: Vec<u8>| v@).flatten().len() <= before.budget();
    assert forall|i: int| #![trigger outs[i]] 0 <= i < recs.len() implies (outs[i] is Some <==> fits(
        recs[i],
    )) by {
        assert(outs[i] is Some <==> recs[i].bodies@.map_values(|v: Vec<u8>| v@).flatten().len()
            <= budget);
    }
    lemma_new_compressed_records_install(before.entries(), recs, outs, budget, fits, n);
    assert(recs.take(n) =~= recs);
    assert forall|m: int|
        0 <= m < recs.len() && (#[trigger] recs[m]).bodies@.map_values(
            |v: Vec<u8>| v@,
        ).flatten().len() <= before.budget() && (forall|i: int|
            m < i < recs.len() ==> (#[trigger] recs[i]).bodies@.map_values(
                |v: Vec<u8>| v@,
            ).flatten().len() > before.budget()) implies ({
        let e = after.entries()[after.entries().len() - 1];
        &&& after.entries().len() > 0
        &&& e.key == recs[m].key
        &&& e.value.bucket_index@ == recs[m].bucket_index@
        &&& e.value.chunks@.len() == recs[m].bodies@.len()
        &&& forall|k: int|
            0 <= k < e.value.chunks@.len() ==> (#[trigger] e.value.chunks@[k]).compressed_bytes
                == recs[m].bodies@[k]@.len() && call_ensures(
                upload,
                (&recs[m].bodies@[k],),
                Ok(e.value.chunks@[k].d_compressed),
            )
    }) by {
        assert(outs[m] is Some);
        assert forall|i: int| m < i < n implies #[trigger] outs[i] is None by {
            assert(recs[i].bodies@.map_values(|v: Vec<u8>| v@).flatten().len() > budget);
        }
        assert(vram_cht_v3::uploaded(recs[m], outs[m], budget, upload));
        lemma_compressed_upload(recs[m], outs[m], budget, upload);
    }
}

} // verus!
