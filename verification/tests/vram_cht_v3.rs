use roaring_postings::cht::{ChtKey, SegmentId};
use roaring_postings::encoder::{RoaringEncoder, RoaringPostings};
use roaring_postings::persist::{
    write_chtkey, DumpError, LoadError, HASH_FN_FXHASHER_V1, MAGIC_END, MAGIC_V1, MAGIC_V3,
    WIRE_VERSION,
};
use roaring_postings::vram_cht::{VramCht, VramChtError, VramTermEntry};
use roaring_postings::vram_cht_v3::{
    global, global_with_budget, kill_switch_active, reset_global, BitcompDataType,
    VramCompressedCht, VramCompressedChtError, VramCompressedChtStats, BITCOMP_CHUNK_BYTES,
    BUCKETS_PER_CHUNK, DEFAULT_VRAM_COMPRESSED_BUDGET_BYTES, MAX_CHUNKS_PER_ENTRY,
};
use roaring_postings::BITMAP_CONTAINER_WORDS;
use std::sync::Arc;

/// Buffer that stands for uncompressed device memory.
#[derive(Debug)]
struct Buffer(Vec<u32>);

/// Codec of the tests: a bit for each word that tells whether it is zero, then the
/// other words.
fn pack(words: &[u32]) -> Vec<u8> {
    let mut out: Vec<u8> = Vec::new();
    for group in words.chunks(8) {
        out.push(
            group
                .iter()
                .enumerate()
                .fold(0u8, |m, (i, w)| if *w == 0 { m } else { m | 1 << i }),
        );
    }
    for word in words.iter().filter(|w| **w != 0) {
        out.extend_from_slice(&word.to_le_bytes());
    }
    out
}

/// What [`pack`] was given, for `n` words.
fn unpack(bytes: &[u8], n: usize) -> Vec<u32> {
    let mut at = (n + 7) / 8;
    let mut out: Vec<u32> = Vec::new();
    for i in 0..n {
        if bytes[i / 8] & (1 << (i % 8)) == 0 {
            out.push(0);
        } else {
            out.push(u32::from_le_bytes([
                bytes[at],
                bytes[at + 1],
                bytes[at + 2],
                bytes[at + 3],
            ]));
            at += 4;
        }
    }
    out
}

fn compress(
    staging: &Vec<u32>,
    offset: usize,
    len: usize,
) -> Result<(Vec<u8>, usize), VramCompressedChtError> {
    let packed = pack(&staging[offset / 4..(offset + len) / 4]);
    let n = packed.len();
    Ok((packed, n))
}

fn compress_buffer(
    buffer: &Buffer,
    offset: usize,
    len: usize,
) -> Result<(Vec<u8>, usize), VramCompressedChtError> {
    compress(&buffer.0, offset, len)
}

fn download(buffer: &Vec<u8>, bytes: usize) -> Result<Vec<u8>, u32> {
    Ok(buffer[..bytes].to_vec())
}

fn restore(payload: &Vec<u8>) -> Result<Vec<u8>, VramChtError> {
    Ok(payload.clone())
}

fn upload(words: &Vec<u32>) -> Result<Buffer, VramChtError> {
    Ok(Buffer(words.clone()))
}

fn cache(budget: u64) -> VramCompressedCht<Vec<u8>> {
    VramCompressedCht::with_budget(budget, false)
}

fn uncompressed(budget: u64) -> VramCht<Buffer> {
    VramCht::with_budget(budget, false)
}

fn live_compression_ratio(stats: &VramCompressedChtStats) -> f64 {
    if stats.compressed_bytes_total == 0 {
        0.0
    } else {
        stats.uncompressed_bytes_total as f64 / stats.compressed_bytes_total as f64
    }
}

fn small_roaring() -> RoaringPostings {
    RoaringEncoder::from_doc_ids(&[1, 2, 3, 100, 65540])
}

fn dense_roaring(seed: u32) -> RoaringPostings {
    // 200_000 documents over several buckets.
    let docs: Vec<u32> = (0..200_000).map(|i| seed.wrapping_add(i * 3)).collect();
    RoaringEncoder::from_doc_ids(&docs)
}

fn dummy_key(field: u32, term_hash: u64) -> ChtKey {
    ChtKey {
        segment_id: SegmentId {
            value: 0xc0de_0000_0000 + field as u128,
        },
        field,
        term_hash,
    }
}

#[test]
fn vram_cht_v3_miss_then_hit() {
    let mut cht = cache(64 * 1024 * 1024);
    let key = dummy_key(0xdead, 100);
    assert!(cht.get(&key).is_none());
    let stats = cht.stats();
    assert_eq!(stats.misses, 1);
    assert_eq!(stats.hits, 0);

    let inserted = cht.insert(key.clone(), &small_roaring(), &compress).unwrap();
    assert!(inserted, "non-empty term must insert");
    let got = cht.get(&key);
    assert!(got.is_some());
    let stats = cht.stats();
    assert_eq!(stats.hits, 1);
    assert_eq!(stats.misses, 1);
    assert_eq!(stats.inserts, 1);
}

#[test]
fn duplicate_insert_short_circuits() {
    let mut cht = cache(64 * 1024 * 1024);
    let key = dummy_key(0xface, 100);
    let inserted_1 = cht.insert(key.clone(), &small_roaring(), &compress).unwrap();
    assert!(inserted_1);
    let bytes_after_first = cht.stats().current_bytes;
    let inserted_2 = cht.insert(key.clone(), &small_roaring(), &compress).unwrap();
    assert!(!inserted_2);
    let bytes_after_second = cht.stats().current_bytes;
    assert_eq!(bytes_after_first, bytes_after_second);
    assert_eq!(cht.stats().inserts, 1);
}

#[test]
fn entry_records_compression_ratio() {
    let mut cht = cache(64 * 1024 * 1024);
    let key = dummy_key(0xb007, 100);
    cht.insert(key.clone(), &dense_roaring(0), &compress).unwrap();
    let entry = cht.get(&key).unwrap();
    assert!(entry.bucket_count() >= 1);
    assert!(entry.uncompressed_bytes() > entry.compressed_bytes() / 10);
    let stats = cht.stats();
    assert_eq!(stats.compressed_bytes_total, stats.current_bytes);
    assert_eq!(
        stats.uncompressed_bytes_total,
        entry.uncompressed_bytes() as u64
    );
    let ratio = live_compression_ratio(&stats);
    assert!(ratio > 0.0);
}

#[test]
fn lru_evicts_oldest() {
    let mut probe = cache(1 << 30);
    let probe_key = dummy_key(0xff00, 100);
    probe.insert(probe_key.clone(), &dense_roaring(0), &compress).unwrap();
    let one_entry = probe.stats().current_bytes;
    drop(probe);

    let mut cht = cache(one_entry + 1024);
    let k1 = dummy_key(0xa1, 100);
    let k2 = dummy_key(0xa2, 100);
    cht.insert(k1.clone(), &dense_roaring(0), &compress).unwrap();
    cht.insert(k2.clone(), &dense_roaring(1), &compress).unwrap();
    assert!(cht.get(&k1).is_none(), "oldest must have been evicted");
    assert!(cht.get(&k2).is_some(), "newest must still be cached");
    assert!(cht.stats().evictions >= 1);
}

#[test]
fn empty_roaring_skipped() {
    let mut cht = cache(64 * 1024 * 1024);
    let key = dummy_key(0xe1ee, 100);
    let empty = RoaringPostings::default();
    let inserted = cht.insert(key.clone(), &empty, &compress).unwrap();
    assert!(!inserted);
    assert!(cht.get(&key).is_none());
}

#[test]
fn vram_cht_v3_promote_bumps_promotions_counter() {
    let mut cht = cache(64 * 1024 * 1024);
    let key = dummy_key(0xc0ff, 100);
    let inserted = cht.promote(key, &small_roaring(), &compress).unwrap();
    assert!(inserted);
    let stats = cht.stats();
    assert_eq!(stats.promotions, 1);
    assert_eq!(stats.inserts, 1);
}

#[test]
fn arc_clone_survives_eviction() {
    let mut cht = cache(64 * 1024 * 1024);
    let key = dummy_key(0x5afe, 100);
    cht.insert(key.clone(), &small_roaring(), &compress).unwrap();
    let live_clone = cht.get(&key).expect("post-insert get must hit");
    cht.reset();
    assert!(live_clone.bucket_count() >= 1);
    assert!(!live_clone.chunks()[0].d_compressed.is_empty());
    drop(live_clone);
    assert_eq!(cht.stats().entries, 0);
    let key2 = dummy_key(0x5aff, 100);
    let inserted = cht.insert(key2.clone(), &small_roaring(), &compress).unwrap();
    assert!(inserted);
    assert!(cht.get(&key2).is_some());
}

#[test]
fn capacity_multiplier_vs_v2() {
    let fixtures: Vec<RoaringPostings> =
        (0..32).map(|i| dense_roaring(i as u32 * 1000)).collect();

    let mut probe_v3 = cache(1 << 30);
    let probe_key = dummy_key(0xff00, 100);
    probe_v3.insert(probe_key, &fixtures[0], &compress).unwrap();
    let v3_one_entry = probe_v3.stats().compressed_bytes_total;
    drop(probe_v3);

    let budget = v3_one_entry * 4 + 1024;

    let mut cht_v3 = cache(budget);
    for (i, fix) in fixtures.iter().enumerate() {
        let key = dummy_key(0x10000_u32 + i as u32, 100);
        let _ = cht_v3.insert(key, fix, &compress);
    }
    let v3_entries = cht_v3.stats().entries;

    let mut cht_v2 = uncompressed(budget);
    for (i, fix) in fixtures.iter().enumerate() {
        let key = dummy_key(0x10000_u32 + i as u32, 100);
        let _ = cht_v2.insert(key, fix, &upload);
    }
    let v2_entries = cht_v2.stats().entries;

    assert!(
        v3_entries >= v2_entries,
        "v3 should hold at least v2 entries under same budget; got v3={} v2={}",
        v3_entries,
        v2_entries
    );
    let live_ratio = live_compression_ratio(&cht_v3.stats());
    assert!(
        live_ratio >= 0.9,
        "v3 live compression ratio should be at least 0.9 (Bitcomp shouldn't \
         expand bitmap data); got {live_ratio:.2}"
    );
}


#[test]
fn cht_v3_dump_then_load_roundtrip_byte_equal() {

    let mut src = cache(256 * 1024 * 1024);
    let entries = vec![
        (
            dummy_key(0x1111, 0x1111_2222_3333_4444),
            small_roaring(),
        ),
        (
            dummy_key(0x2222, 0x5555_6666_7777_8888),
            dense_roaring(0),
        ),
        (
            dummy_key(0x3333, 0x9999_AAAA_BBBB_CCCC),
            dense_roaring(1),
        ),
    ];
    for (k, rp) in &entries {
        src.insert(k.clone(), rp, &compress).unwrap();
    }
    let (bytes, n_dumped) = src.dump_to_bytes(&download).unwrap();
    assert_eq!(n_dumped, entries.len() as u64);

    struct Expected {
        compressed_bytes: usize,
        uncompressed_bytes: usize,
        bucket_index: Vec<(u16, u32)>,
        host_compressed: Vec<u8>,
    }
    let mut expected_per_entry: Vec<Expected> = Vec::with_capacity(entries.len());
    for (k, _) in &entries {
        let e = src.get(k).expect("src entry must hit");
        let staging = e.chunks()[0].d_compressed.clone();
        expected_per_entry.push(Expected {
            compressed_bytes: e.compressed_bytes(),
            uncompressed_bytes: e.uncompressed_bytes(),
            bucket_index: e.bucket_index().to_vec(),
            host_compressed: staging,
        });
    }

    let mut dst = cache(256 * 1024 * 1024);
    let n_loaded = dst.load_from_bytes(&bytes, &restore).unwrap();
    assert_eq!(n_loaded, entries.len() as u64);
    for ((k, _), expected) in entries.iter().zip(expected_per_entry.iter()) {
        let got = dst.get(k).expect("loaded entry must hit");
        assert_eq!(got.compressed_bytes(), expected.compressed_bytes);
        assert_eq!(got.uncompressed_bytes(), expected.uncompressed_bytes);
        assert_eq!(got.bucket_index(), expected.bucket_index.as_slice());
        let staging = got.chunks()[0].d_compressed.clone();
        assert_eq!(
            staging, expected.host_compressed,
            "loaded compressed payload must be byte-equal to dumped"
        );
    }
    let src_stats = src.stats();
    let dst_stats = dst.stats();
    assert_eq!(
        src_stats.compressed_bytes_total,
        dst_stats.compressed_bytes_total,
        "compressed total must match"
    );
    assert_eq!(
        src_stats.uncompressed_bytes_total,
        dst_stats.uncompressed_bytes_total,
        "uncompressed total must match"
    );
}

#[test]
fn cht_v3_restart_simulation_first_query_hits() {

    let mut original = cache(64 * 1024 * 1024);
    let k1 = dummy_key(0xCAFE, 0xBABE_0001);
    let k2 = dummy_key(0xCAFE, 0xBABE_0002);
    original.insert(k1.clone(), &small_roaring(), &compress).unwrap();
    original.insert(k2.clone(), &dense_roaring(0), &compress).unwrap();
    let (bytes, _) = original.dump_to_bytes(&download).unwrap();

    let mut restarted = cache(64 * 1024 * 1024);
    let pre = restarted.stats();
    assert_eq!(pre.hits, 0);
    assert_eq!(pre.entries, 0);

    let loaded = restarted.load_from_bytes(&bytes, &restore).unwrap();
    assert_eq!(loaded, 2, "load installs both entries");
    let post_load = restarted.stats();
    assert_eq!(post_load.entries, 2);

    let got = restarted.get(&k1);
    assert!(got.is_some(), "first-query-post-restart hits");
    let post_query = restarted.stats();
    assert_eq!(post_query.hits, 1);
    assert_eq!(post_query.misses, 0);

    let entry = got.unwrap();
    assert!(!entry.chunks()[0].d_compressed.is_empty());
    assert!(entry.compressed_bytes() > 0);
    assert!(entry.uncompressed_bytes() > 0);
    assert!(entry.bucket_count() >= 1);
}

#[test]
fn cht_v3_load_wrong_magic_rejected() {
    let mut bytes: Vec<u8> = Vec::new();
    bytes.extend_from_slice(&MAGIC_V1.to_le_bytes());
    bytes.extend_from_slice(&WIRE_VERSION.to_le_bytes());
    bytes.extend_from_slice(&HASH_FN_FXHASHER_V1.to_le_bytes());
    bytes.extend_from_slice(&0u64.to_le_bytes());
    bytes.extend_from_slice(&0u32.to_le_bytes());
    bytes.extend_from_slice(&MAGIC_END.to_le_bytes());

    let mut dst = cache(64 * 1024 * 1024);
    let err = dst.load_from_bytes(&bytes, &restore).unwrap_err();
    assert!(
        matches!(
            err,
            LoadError::WrongMagic { .. }
        ),
        "a dump of another tier must reject as WrongMagic, got {err:?}"
    );
}

#[test]
fn cht_v3_dump_empty_cache_roundtrips() {
    let src = cache(64 * 1024 * 1024);
    let (bytes, n) = src.dump_to_bytes(&download).unwrap();
    assert_eq!(n, 0);
    let mut dst = cache(64 * 1024 * 1024);
    let n_loaded = dst.load_from_bytes(&bytes, &restore).unwrap();
    assert_eq!(n_loaded, 0);
    assert_eq!(dst.stats().entries, 0);
}

#[test]
fn cht_v3_dump_with_hash_fn_drift_rejected_on_load() {
    let mut bytes: Vec<u8> = Vec::new();
    bytes.extend_from_slice(&MAGIC_V3.to_le_bytes());
    bytes.extend_from_slice(&WIRE_VERSION.to_le_bytes());
    bytes.extend_from_slice(&999u32.to_le_bytes()); // wrong hash_fn
    bytes.extend_from_slice(&0u64.to_le_bytes());
    bytes.extend_from_slice(&0u32.to_le_bytes());
    bytes.extend_from_slice(&MAGIC_END.to_le_bytes());

    let mut dst = cache(64 * 1024 * 1024);
    let err = dst.load_from_bytes(&bytes, &restore).unwrap_err();
    assert!(
        matches!(
            err,
            LoadError::HashFunctionMismatch { .. }
        ),
        "hash_function drift must reject as HashFunctionMismatch, got {err:?}"
    );
}

#[test]
fn cht_v3_dump_then_load_multi_chunk_roundtrip_byte_equal() {
    let mut src = cache(256 * 1024 * 1024);
    let k_multi = dummy_key(0xC6_04_01, 0x4C04_4C04_4C04_4C04);
    let k_single = dummy_key(0xC6_04_02, 0x5C04_5C04_5C04_5C04);
    let rp_multi = multi_chunk_roaring(BUCKETS_PER_CHUNK * 2 + 1);
    let rp_single = small_roaring();
    src.insert(k_multi.clone(), &rp_multi, &compress).unwrap();
    src.insert(k_single.clone(), &rp_single, &compress).unwrap();

    struct ExpectedChunk {
        compressed_bytes: usize,
        uncompressed_bytes: usize,
        host_payload: Vec<u8>,
    }
    struct ExpectedEntry {
        uncompressed_bytes: usize,
        bucket_index: Vec<(u16, u32)>,
        chunks: Vec<ExpectedChunk>,
    }
    let snapshot_keys = vec![k_multi.clone(), k_single.clone()];
    let mut expected: Vec<ExpectedEntry> = Vec::with_capacity(2);
    for k in &snapshot_keys {
        let e = src.get(k).expect("hit");
        let mut chunks_expected = Vec::with_capacity(e.chunk_count());
        for chunk in e.chunks() {
            let staging = chunk.d_compressed.clone();
            chunks_expected.push(ExpectedChunk {
                compressed_bytes: chunk.compressed_bytes,
                uncompressed_bytes: chunk.uncompressed_bytes,
                host_payload: staging,
            });
        }
        expected.push(ExpectedEntry {
            uncompressed_bytes: e.uncompressed_bytes(),
            bucket_index: e.bucket_index().to_vec(),
            chunks: chunks_expected,
        });
    }
    assert_eq!(
        expected[0].chunks.len(),
        3,
        "multi-chunk fixture must produce exactly 3 chunks (2 full + 1 partial-last)"
    );
    assert_eq!(expected[1].chunks.len(), 1);

    let (bytes, n_dumped) = src.dump_to_bytes(&download).unwrap();
    assert_eq!(n_dumped, 2);

    let mut dst = cache(256 * 1024 * 1024);
    let n_loaded = dst.load_from_bytes(&bytes, &restore).unwrap();
    assert_eq!(n_loaded, 2);

    for (k, expected_entry) in snapshot_keys.iter().zip(expected.iter()) {
        let got = dst.get(k).expect("loaded entry must hit");
        assert_eq!(got.chunk_count(), expected_entry.chunks.len());
        assert_eq!(got.uncompressed_bytes(), expected_entry.uncompressed_bytes);
        assert_eq!(got.bucket_index(), expected_entry.bucket_index.as_slice());
        for (got_chunk, exp_chunk) in got.chunks().iter().zip(expected_entry.chunks.iter()) {
            assert_eq!(got_chunk.compressed_bytes, exp_chunk.compressed_bytes);
            assert_eq!(got_chunk.uncompressed_bytes, exp_chunk.uncompressed_bytes);
            let staging = got_chunk.d_compressed.clone();
            assert_eq!(
                staging, exp_chunk.host_payload,
                "loaded chunk payload must be byte-equal to dumped"
            );
        }
    }
}

#[test]
fn cht_v3_load_magic_v3_back_compat_lifts_to_single_chunk() {
    let mut src_cache = cache(64 * 1024 * 1024);
    let key = dummy_key(0xC6_04_03, 0x3C04_3C04_3C04_3C04);
    src_cache.insert(key.clone(), &small_roaring(), &compress).unwrap();
    let entry = src_cache.get(&key).expect("hit");
    let bucket_index_clone = entry.bucket_index().to_vec();
    let uncompressed_bytes_clone = entry.uncompressed_bytes();
    let chunk0 = &entry.chunks()[0];
    let comp_bytes = chunk0.compressed_bytes;
    let payload = chunk0.d_compressed.clone();
    drop(entry);
    drop(src_cache);

    let mut bytes: Vec<u8> = Vec::new();
    bytes.extend_from_slice(&MAGIC_V3.to_le_bytes());
    bytes.extend_from_slice(&WIRE_VERSION.to_le_bytes());
    bytes.extend_from_slice(&HASH_FN_FXHASHER_V1.to_le_bytes());
    bytes.extend_from_slice(&1u64.to_le_bytes()); // entry_count
    bytes.extend_from_slice(&0u32.to_le_bytes()); // reserved
    write_chtkey(&mut bytes, &key);
    let bucket_count =
        u32::try_from(bucket_index_clone.len()).unwrap_or(u32::MAX);
    bytes.extend_from_slice(&bucket_count.to_le_bytes());
    for (high16, word_offset) in &bucket_index_clone {
        bytes.extend_from_slice(&high16.to_le_bytes());
        bytes.extend_from_slice(&word_offset.to_le_bytes());
    }
    bytes.extend_from_slice(&(uncompressed_bytes_clone as u64).to_le_bytes());
    bytes.extend_from_slice(&(comp_bytes as u64).to_le_bytes());
    bytes.extend_from_slice(&payload);
    bytes.extend_from_slice(&MAGIC_END.to_le_bytes());

    let mut dst = cache(64 * 1024 * 1024);
    let n_loaded = dst.load_from_bytes(&bytes, &restore).unwrap();
    assert_eq!(n_loaded, 1);
    let loaded = dst.get(&key).expect("a single-chunk dump must load");
    assert_eq!(
        loaded.chunk_count(),
        1,
        "a MAGIC_V3 dump must load as a 1-chunk entry"
    );
    assert_eq!(loaded.uncompressed_bytes(), uncompressed_bytes_clone);
    assert_eq!(loaded.bucket_index(), bucket_index_clone.as_slice());
    assert_eq!(loaded.chunks()[0].compressed_bytes, comp_bytes);
    assert_eq!(
        loaded.chunks()[0].uncompressed_bytes,
        uncompressed_bytes_clone
    );
    let staging = loaded.chunks()[0].d_compressed.clone();
    assert_eq!(staging, payload);
}

#[test]
fn vram_cht_v3_kill_switch_via_env_var() {
    for value in [None, Some("true")] {
        let disabled = kill_switch_active(&mut None, value);
        let mut cht: VramCompressedCht<Vec<u8>> =
            VramCompressedCht::with_budget(64 * 1024 * 1024, disabled);
        let key = dummy_key(0xb007_b007, 100);
        if disabled {
            assert!(cht.get(&key).is_none());
            let inserted = cht.insert(key.clone(), &small_roaring(), &compress).unwrap();
            assert!(!inserted);
            assert!(cht.get(&key).is_none());
            let stats = cht.stats();
            assert_eq!(stats.inserts, 0);
            assert_eq!(stats.entries, 0);
        } else {
            assert!(cht.get(&key).is_none());
            let inserted = cht.insert(key.clone(), &small_roaring(), &compress).unwrap();
            assert!(inserted);
            assert!(cht.get(&key).is_some());
        }
    }
}



/// A populated cache of the uncompressed tier, with the key and its entry.
fn populate_v2(
    roaring: &RoaringPostings,
) -> (VramCht<Buffer>, ChtKey, Arc<VramTermEntry<Buffer>>) {
    let mut v2 = uncompressed(64 * 1024 * 1024);
    let key = dummy_key(0xC03_3000, 100);
    v2.insert(key.clone(), roaring, &upload).unwrap();
    let entry = v2.get(&key).expect("v2 must hit after insert");
    (v2, key, entry)
}

#[test]
fn promote_v2_to_v3_reuses_bucket_index() {
    let mut v3 = cache(64 * 1024 * 1024);
    let rp = small_roaring();
    let (_v2, key, v2_entry) = populate_v2(&rp);
    let v2_bucket_index = v2_entry.bucket_index().to_vec();
    let v2_total_words = v2_entry.total_words();

    let inserted = v3.promote_v2_to_v3(&key, &v2_entry, &compress_buffer).unwrap();
    assert!(inserted, "promote must admit a fresh key");

    let v3_entry = v3.get(&key).expect("v3 must hit post-promote");
    assert_eq!(
        v3_entry.bucket_index(),
        v2_bucket_index.as_slice(),
        "v3 bucket_index must be byte-identical to v2 source"
    );
    assert_eq!(
        v3_entry.uncompressed_bytes(),
        v2_total_words * 4,
        "v3 uncompressed_bytes must equal v2 total_words*4"
    );
    assert_eq!(v3_entry.bucket_count(), v2_entry.bucket_count());
    let stats = v3.stats();
    assert_eq!(stats.inserts, 1);
    assert_eq!(stats.promotions, 1);
}

#[test]
fn promote_v2_to_v3_skips_redrain() {
    let mut v3 = cache(64 * 1024 * 1024);
    let key;
    let v2_entry;
    let v2_holder;
    {
        let rp = dense_roaring(0);
        let (v2, k, e) = populate_v2(&rp);
        key = k;
        v2_entry = e;
        v2_holder = v2;
    }
    let inserted = v3.promote_v2_to_v3(&key, &v2_entry, &compress_buffer).unwrap();
    assert!(inserted, "promote must succeed from Arc handle alone");
    let v3_entry = v3.get(&key).expect("v3 must hit");
    assert_eq!(v3_entry.bucket_index(), v2_entry.bucket_index());
    drop(v2_holder);
    assert!(!v3_entry.chunks()[0].d_compressed.is_empty());
    assert!(v3_entry.compressed_bytes() > 0);
}

#[test]
fn promote_v2_to_v3_rejection_for_oversize_entry() {
    let rp = dense_roaring(0);
    let mut probe = cache(1 << 30);
    let pkey = dummy_key(0xff00, 100);
    probe.insert(pkey, &rp, &compress).unwrap();
    let one_entry_compressed = probe.stats().compressed_bytes_total;
    drop(probe);

    let mut tight = cache(one_entry_compressed.saturating_sub(1).max(1));
    let (_v2, key, v2_entry) = populate_v2(&rp);
    let admitted = tight.promote_v2_to_v3(&key, &v2_entry, &compress_buffer).unwrap();
    assert!(
        !admitted,
        "compressed entry > budget must reject (got admitted=true)"
    );
    let stats = tight.stats();
    assert_eq!(stats.inserts, 0);
    assert_eq!(stats.promotions, 0);
    assert_eq!(stats.entries, 0);
    assert!(tight.get(&key).is_none());
}

#[test]
fn promote_v2_to_v3_arc_lifetime_safe() {
    let mut v3 = cache(64 * 1024 * 1024);
    let rp = small_roaring();
    let (mut v2, key, v2_entry) = populate_v2(&rp);

    v2.reset();
    assert!(v2.get(&key).is_none(), "v2 reset must clear map");

    let inserted = v3.promote_v2_to_v3(&key, &v2_entry, &compress_buffer).unwrap();
    assert!(
        inserted,
        "promote must succeed even after the v2 cache evicted the map entry"
    );
    let v3_entry = v3.get(&key).expect("v3 must hit");
    assert_eq!(v3_entry.bucket_index(), v2_entry.bucket_index());
    drop(v2_entry);
    assert!(!v3_entry.chunks()[0].d_compressed.is_empty());
}

#[test]
fn promote_v2_to_v3_idempotent() {
    let mut v3 = cache(64 * 1024 * 1024);
    let rp = small_roaring();
    let (_v2, key, v2_entry) = populate_v2(&rp);

    let first = v3.promote_v2_to_v3(&key, &v2_entry, &compress_buffer).unwrap();
    assert!(first);
    let bytes_after_first = v3.stats().current_bytes;
    let inserts_after_first = v3.stats().inserts;
    let promotions_after_first = v3.stats().promotions;

    let second = v3.promote_v2_to_v3(&key, &v2_entry, &compress_buffer).unwrap();
    assert!(!second, "re-promote of same key must short-circuit");
    let stats = v3.stats();
    assert_eq!(stats.current_bytes, bytes_after_first);
    assert_eq!(stats.inserts, inserts_after_first);
    assert_eq!(stats.promotions, promotions_after_first);
}

#[test]
fn promote_v2_to_v3_matches_insert_layout() {
    let rp = small_roaring();
    let mut v3_insert = cache(64 * 1024 * 1024);
    let insert_key = dummy_key(0x11, 100);
    v3_insert.insert(insert_key.clone(), &rp, &compress).unwrap();
    let insert_entry = v3_insert.get(&insert_key).unwrap();

    let mut v3_promote = cache(64 * 1024 * 1024);
    let promote_key = dummy_key(0x22, 100);
    let (_v2, _vk, v2_entry) = populate_v2(&rp);
    v3_promote
        .promote_v2_to_v3(&promote_key, &v2_entry, &compress_buffer)
        .unwrap();
    let promote_entry = v3_promote.get(&promote_key).unwrap();

    assert_eq!(
        insert_entry.bucket_index(),
        promote_entry.bucket_index(),
        "promote_v2_to_v3 must produce the same bucket_index as insert(roaring)"
    );
    assert_eq!(
        insert_entry.uncompressed_bytes(),
        promote_entry.uncompressed_bytes(),
        "uncompressed_bytes must match"
    );
    assert_eq!(insert_entry.bucket_count(), promote_entry.bucket_count());
}


#[test]
fn legacy_promote_does_not_increment_cross_tier_promotions() {
    let mut cht = cache(64 * 1024 * 1024);
    let key = dummy_key(0xc4_4ee5, 100);
    let inserted = cht.promote(key, &small_roaring(), &compress).unwrap();
    assert!(inserted);
    let stats = cht.stats();
    assert_eq!(stats.promotions, 1);
    assert_eq!(
        stats.cross_tier_promotions, 0,
        "promote(roaring) must not bump the cross-tier counter"
    );
}

#[test]
fn promote_v2_to_v3_increments_cross_tier_promotions() {
    let mut v3 = cache(64 * 1024 * 1024);
    let rp = small_roaring();
    let (_v2, key, v2_entry) = populate_v2(&rp);

    let pre = v3.stats();
    assert_eq!(pre.cross_tier_promotions, 0);

    let first = v3.promote_v2_to_v3(&key, &v2_entry, &compress_buffer).unwrap();
    assert!(first);
    let after_first = v3.stats();
    assert_eq!(after_first.promotions, 1);
    assert_eq!(after_first.cross_tier_promotions, 1);

    let second = v3.promote_v2_to_v3(&key, &v2_entry, &compress_buffer).unwrap();
    assert!(!second);
    let after_second = v3.stats();
    assert_eq!(after_second.promotions, 1);
    assert_eq!(after_second.cross_tier_promotions, 1);
}

#[test]
fn promote_v2_to_v3_rejection_keeps_cross_tier_counter_zero() {
    let rp = dense_roaring(0);
    let mut probe = cache(1 << 30);
    let pkey = dummy_key(0xfee, 100);
    probe.insert(pkey, &rp, &compress).unwrap();
    let one_entry_compressed = probe.stats().compressed_bytes_total;
    drop(probe);

    let mut tight = cache(one_entry_compressed.saturating_sub(1).max(1));
    let (_v2, key, v2_entry) = populate_v2(&rp);
    let admitted = tight.promote_v2_to_v3(&key, &v2_entry, &compress_buffer).unwrap();
    assert!(!admitted);
    let stats = tight.stats();
    assert_eq!(stats.promotions, 0);
    assert_eq!(stats.cross_tier_promotions, 0);
}

#[test]
fn reset_clears_cross_tier_promotions() {
    let mut v3 = cache(64 * 1024 * 1024);
    let rp = small_roaring();
    let (_v2, key, v2_entry) = populate_v2(&rp);
    v3.promote_v2_to_v3(&key, &v2_entry, &compress_buffer).unwrap();
    assert_eq!(v3.stats().cross_tier_promotions, 1);
    v3.reset();
    assert_eq!(v3.stats().cross_tier_promotions, 0);
}


/// One document in each of `buckets` buckets, so that the words take `buckets` times
/// 8 KiB.
fn multi_chunk_roaring(buckets: usize) -> RoaringPostings {
    let docs: Vec<u32> = (0..buckets).map(|i| (i as u32) << 16).collect();
    RoaringEncoder::from_doc_ids(&docs)
}

#[test]
fn insert_multi_chunk_roundtrip() {
    let mut cht = cache(128 * 1024 * 1024);
    let key = dummy_key(0xC01_C01, 100);
    let rp = multi_chunk_roaring(BUCKETS_PER_CHUNK * 2);
    let inserted = cht.insert(key.clone(), &rp, &compress).unwrap();
    assert!(
        inserted,
        "32 MiB-equivalent posting must admit via multi-chunk path"
    );
    let entry = cht.get(&key).expect("hit");
    assert_eq!(entry.chunk_count(), 2, "32 MiB / 16 MiB = 2 chunks");
    assert_eq!(entry.bucket_count(), BUCKETS_PER_CHUNK * 2);
    assert_eq!(
        entry.uncompressed_bytes(),
        BUCKETS_PER_CHUNK * 2 * BITMAP_CONTAINER_WORDS * 4
    );
    let sum_compressed: usize = entry.chunks().iter().map(|c| c.compressed_bytes).sum();
    assert_eq!(entry.compressed_bytes(), sum_compressed);
    let sum_uncomp: usize = entry.chunks().iter().map(|c| c.uncompressed_bytes).sum();
    assert_eq!(entry.uncompressed_bytes(), sum_uncomp);

    let inserted_2 = cht.insert(key.clone(), &rp, &compress).unwrap();
    assert!(!inserted_2);
    assert_eq!(cht.stats().inserts, 1);
}

#[test]
fn promote_v2_to_v3_multi_chunk_roundtrip() {
    let mut v3 = cache(128 * 1024 * 1024);
    let rp = multi_chunk_roaring(BUCKETS_PER_CHUNK * 2);

    let mut v2 = uncompressed(128 * 1024 * 1024);
    let key = dummy_key(0xC03_3001, 100);
    v2.insert(key.clone(), &rp, &upload).unwrap();
    let v2_entry = v2.get(&key).expect("v2 must hit");
    let v2_bucket_index = v2_entry.bucket_index().to_vec();

    let inserted = v3.promote_v2_to_v3(&key, &v2_entry, &compress_buffer).unwrap();
    assert!(inserted, "32 MiB v2 entry must promote into multi-chunk v3");
    let v3_entry = v3.get(&key).expect("v3 must hit post-promote");
    assert_eq!(v3_entry.chunk_count(), 2);
    assert_eq!(v3_entry.bucket_index(), v2_bucket_index.as_slice());
    assert_eq!(
        v3_entry.uncompressed_bytes(),
        BUCKETS_PER_CHUNK * 2 * BITMAP_CONTAINER_WORDS * 4
    );
    let stats = v3.stats();
    assert_eq!(stats.promotions, 1);
    assert_eq!(stats.cross_tier_promotions, 1);
    assert_eq!(stats.inserts, 1);
}

#[test]
fn multi_chunk_drop_frees_all_chunks() {
    let one_entry_uncompressed_bytes = BUCKETS_PER_CHUNK * 2 * BITMAP_CONTAINER_WORDS * 4;
    assert_eq!(one_entry_uncompressed_bytes, 32 * 1024 * 1024);

    let mut cht = cache(256 * 1024 * 1024);
    let rp = multi_chunk_roaring(BUCKETS_PER_CHUNK * 2);
    let k1 = dummy_key(0xD09_F100, 100);
    cht.insert(k1.clone(), &rp, &compress).unwrap();
    let entry = cht.get(&k1).expect("hit");
    assert_eq!(entry.chunk_count(), 2);
    let live_bytes_before = cht.stats().current_bytes;
    assert!(live_bytes_before > 0);
    drop(entry);

    cht.reset();
    assert_eq!(cht.stats().current_bytes, 0);
    assert_eq!(cht.stats().entries, 0);

    let k2 = dummy_key(0xD09_F200, 100);
    let reinserted = cht.insert(k2, &rp, &compress).unwrap();
    assert!(reinserted, "insert after a reset must succeed");
    assert_eq!(cht.stats().entries, 1);
}

#[test]
fn legacy_single_chunk_path_unchanged() {
    let mut cht = cache(64 * 1024 * 1024);
    let key = dummy_key(0xE05_E05, 100);
    cht.insert(key.clone(), &small_roaring(), &compress).unwrap();
    let entry = cht.get(&key).expect("hit");
    assert_eq!(
        entry.chunk_count(),
        1,
        "small (< 16 MiB) terms keep the single-chunk fast path"
    );
    assert!(!entry.chunks()[0].d_compressed.is_empty());
    assert_eq!(entry.compressed_bytes(), entry.chunks()[0].compressed_bytes);
    assert_eq!(
        entry.uncompressed_bytes(),
        entry.chunks()[0].uncompressed_bytes
    );
}

#[test]
fn admission_cap_constants_and_error_variant_shape() {
    assert_eq!(MAX_CHUNKS_PER_ENTRY, 64);
    assert_eq!(BITCOMP_CHUNK_BYTES, 1 << 24);
    assert_eq!(BUCKETS_PER_CHUNK, 2048);
    assert_eq!(
        MAX_CHUNKS_PER_ENTRY * BITCOMP_CHUNK_BYTES,
        1024 * 1024 * 1024,
        "max admission must equal 1 GiB"
    );
    let err = VramCompressedChtError::TooManyChunks {
        chunks_needed: 100,
        max: MAX_CHUNKS_PER_ENTRY,
    };
    match err {
        VramCompressedChtError::TooManyChunks { chunks_needed, max } => {
            assert_eq!(chunks_needed, 100);
            assert_eq!(max, MAX_CHUNKS_PER_ENTRY);
        }
        other => panic!("variant mismatch, got {other:?}"),
    }
}

#[test]
fn bucket_index_byte_offsets_match_chunk_boundaries() {
    let mut cht = cache(128 * 1024 * 1024);
    let key = dummy_key(0xB47_B47, 100);
    let rp = multi_chunk_roaring(BUCKETS_PER_CHUNK * 2);
    cht.insert(key.clone(), &rp, &compress).unwrap();
    let entry = cht.get(&key).expect("hit");
    assert_eq!(entry.chunk_count(), 2);

    let bucket_bytes = BITMAP_CONTAINER_WORDS * 4;
    let mut byte_prefix: usize = 0;
    for (k, chunk) in entry.chunks().iter().enumerate() {
        let first_bucket_of_chunk = k * BUCKETS_PER_CHUNK;
        let (_, word_offset) = entry.bucket_index()[first_bucket_of_chunk];
        assert_eq!(
            word_offset as usize * 4,
            byte_prefix,
            "chunk {k}: bucket_index word_offset must mark chunk start"
        );
        assert_eq!(
            chunk.uncompressed_bytes % bucket_bytes,
            0,
            "chunk {k} uncompressed_bytes must be a multiple of {bucket_bytes}"
        );
        byte_prefix += chunk.uncompressed_bytes;
    }
    assert_eq!(byte_prefix, entry.uncompressed_bytes());
}


#[test]
fn evict_by_segments_drops_only_matching_entries() {
    let mut cht = cache(64 * 1024 * 1024);
    let key_a = dummy_key(0xa1a1, 100);
    let key_b = dummy_key(0xa1a2, 101);
    let key_c = dummy_key(0xa1a3, 102);
    cht.insert(key_a.clone(), &small_roaring(), &compress).unwrap();
    cht.insert(key_b.clone(), &small_roaring(), &compress).unwrap();
    cht.insert(key_c.clone(), &small_roaring(), &compress).unwrap();
    assert_eq!(cht.stats().entries, 3);

    let evicted = cht.evict_by_segments(&[
        key_a.segment_id.clone(),
        key_c.segment_id.clone(),
    ]);
    assert_eq!(evicted, 2);
    assert_eq!(cht.stats().entries, 1);
    assert!(cht.get(&key_a).is_none());
    assert!(cht.get(&key_b).is_some());
    assert!(cht.get(&key_c).is_none());
    assert_eq!(cht.stats().evictions, 2);
}

#[test]
fn evict_by_segments_bytes_total_decrements() {
    let mut cht = cache(64 * 1024 * 1024);
    let key_a = dummy_key(0xb1b1, 200);
    let key_b = dummy_key(0xb1b2, 201);
    cht.insert(key_a.clone(), &small_roaring(), &compress).unwrap();
    cht.insert(key_b.clone(), &small_roaring(), &compress).unwrap();

    let entry_a = cht.get(&key_a).expect("hit");
    let entry_a_compressed = entry_a.compressed_bytes() as u64;
    let entry_a_uncompressed = entry_a.uncompressed_bytes() as u64;
    drop(entry_a);
    let before = cht.stats();

    let evicted = cht.evict_by_segments(&[key_a.segment_id.clone()]);
    assert_eq!(evicted, 1);
    let after = cht.stats();
    assert_eq!(after.entries, 1);
    assert_eq!(
        after.current_bytes,
        before.current_bytes.saturating_sub(entry_a_compressed)
    );
    assert_eq!(
        after.uncompressed_bytes_total,
        before
            .uncompressed_bytes_total
            .saturating_sub(entry_a_uncompressed)
    );
    assert_eq!(after.evictions, before.evictions + 1);
    assert_eq!(after.inserts, before.inserts, "inserts unchanged by evict");
}

#[test]
fn evict_by_segments_empty_input_no_op() {
    let mut cht = cache(64 * 1024 * 1024);
    let key = dummy_key(0xc1c1, 300);
    cht.insert(key.clone(), &small_roaring(), &compress).unwrap();
    let before = cht.stats();

    let evicted = cht.evict_by_segments(&[]);
    assert_eq!(evicted, 0);
    let after = cht.stats();
    assert_eq!(after.entries, before.entries);
    assert_eq!(after.current_bytes, before.current_bytes);
    assert_eq!(after.uncompressed_bytes_total, before.uncompressed_bytes_total);
    assert_eq!(after.evictions, before.evictions);
    assert!(cht.get(&key).is_some(), "untouched entry must still hit");
}


#[test]
fn dump_by_segments_writes_only_matching_entries() {

    let mut src = cache(128 * 1024 * 1024);
    let key_a = dummy_key(0xa1, 0x0001);
    let key_b = dummy_key(0xa2, 0x0002);
    let key_c = dummy_key(0xa3, 0x0003);
    let key_d = dummy_key(0xa4, 0x0004);
    src.insert(key_a.clone(), &small_roaring(), &compress).unwrap();
    src.insert(key_b.clone(), &dense_roaring(0), &compress).unwrap();
    src.insert(key_c.clone(), &small_roaring(), &compress).unwrap();
    src.insert(key_d.clone(), &dense_roaring(1), &compress).unwrap();
    assert_eq!(src.stats().entries, 4);

    let (bytes, n_dumped) = src
        .dump_by_segments(
            &[key_a.segment_id.clone(), key_c.segment_id.clone()],
            &download,
        )
        .unwrap();
    assert_eq!(n_dumped, 2);

    assert_eq!(src.stats().entries, 4, "dump must not mutate source");

    let mut dst = cache(128 * 1024 * 1024);
    let n_loaded = dst.load_from_bytes(&bytes, &restore).unwrap();
    assert_eq!(n_loaded, 2);
    assert!(dst.get(&key_a).is_some(), "a included in filter must load");
    assert!(dst.get(&key_b).is_none(), "b excluded must NOT load");
    assert!(dst.get(&key_c).is_some(), "c included in filter must load");
    assert!(dst.get(&key_d).is_none(), "d excluded must NOT load");
}

#[test]
fn dump_by_segments_byte_invariant_with_oracle() {

    let mut src = cache(128 * 1024 * 1024);
    let key_a = dummy_key(0xb1, 0x1001);
    let key_b = dummy_key(0xb2, 0x1002);
    let key_c = dummy_key(0xb3, 0x1003);
    src.insert(key_a.clone(), &small_roaring(), &compress).unwrap();
    src.insert(key_b.clone(), &dense_roaring(2), &compress).unwrap();
    src.insert(key_c.clone(), &small_roaring(), &compress).unwrap();

    let (oracle_bytes, n_oracle) = src.dump_to_bytes(&download).unwrap();
    let (filtered_bytes, n_filtered) = src
        .dump_by_segments(
            &[
                key_a.segment_id.clone(),
                key_b.segment_id.clone(),
                key_c.segment_id.clone(),
            ],
            &download,
        )
        .unwrap();
    assert_eq!(n_oracle, n_filtered);

    assert_eq!(
        oracle_bytes, filtered_bytes,
        "dump_by_segments(all segments) must be byte-equivalent to a full dump"
    );
}

#[test]
fn dump_by_segments_empty_input_writes_header_only() {

    let mut src = cache(64 * 1024 * 1024);
    let key = dummy_key(0xcafe, 0x9000);
    src.insert(key, &small_roaring(), &compress).unwrap();

    let (bytes, n_dumped) = src.dump_by_segments(&[], &download).unwrap();
    assert_eq!(n_dumped, 0, "empty filter writes zero entries");

    let mut dst = cache(64 * 1024 * 1024);
    let n_loaded = dst.load_from_bytes(&bytes, &restore).unwrap();
    assert_eq!(n_loaded, 0);
    assert_eq!(dst.stats().entries, 0);
}

#[test]
fn chunks_hold_the_words_of_their_buckets() {
    let rp = multi_chunk_roaring(BUCKETS_PER_CHUNK + 3);
    let mut cht = cache(1 << 30);
    let key = dummy_key(1, 2);
    cht.insert(key, &rp, &compress).unwrap();
    let entry = cht.get(&key).unwrap();
    let mut words: Vec<u32> = Vec::new();
    for chunk in entry.chunks() {
        words.extend(unpack(&chunk.d_compressed, chunk.uncompressed_bytes / 4));
    }
    assert_eq!(words.len(), (BUCKETS_PER_CHUNK + 3) * BITMAP_CONTAINER_WORDS);
    for (i, word) in words.iter().enumerate() {
        assert_eq!(*word, if i % BITMAP_CONTAINER_WORDS == 0 { 1 } else { 0 });
    }
    assert_eq!(entry.chunks()[1].uncompressed_bytes, 3 * 8192);
}

#[test]
fn failed_compression_leaves_the_cache_alone() {
    let mut cht = cache(1 << 30);
    let key = dummy_key(1, 2);
    let full = |_w: &Vec<u32>, _o: usize, len: usize| -> Result<
        (Vec<u8>, usize),
        VramCompressedChtError,
    > { Err(VramCompressedChtError::Malloc { bytes: len, code: 2 }) };
    assert!(matches!(
        cht.insert(key, &small_roaring(), &full),
        Err(VramCompressedChtError::Malloc { bytes: 16384, code: 2 })
    ));
    // The second of two chunks fails.
    let second = |w: &Vec<u32>, o: usize, len: usize| {
        if o == 0 {
            compress(w, o, len)
        } else {
            Err(VramCompressedChtError::Bitcomp { message: String::from("broken") })
        }
    };
    assert!(matches!(
        cht.insert(key, &multi_chunk_roaring(BUCKETS_PER_CHUNK + 1), &second),
        Err(VramCompressedChtError::Bitcomp { .. })
    ));
    let stats = cht.stats();
    assert_eq!(stats.entries, 0);
    assert_eq!(stats.inserts, 0);
    assert_eq!(stats.current_bytes, 0);
}

#[test]
fn a_failed_download_fails_the_compressed_dump() {
    let mut cht = cache(1 << 30);
    cht.insert(dummy_key(1, 2), &small_roaring(), &compress).unwrap();
    let broken = |_b: &Vec<u8>, _n: usize| -> Result<Vec<u8>, u32> { Err(9) };
    assert!(matches!(
        cht.dump_to_bytes(&broken),
        Err(DumpError::Cuda { entry_index: 0, code: 9, .. })
    ));
}

#[test]
fn damaged_compressed_dumps_are_rejected() {
    let mut src = cache(1 << 30);
    src.insert(dummy_key(1, 2), &small_roaring(), &compress).unwrap();
    let (bytes, _) = src.dump_to_bytes(&download).unwrap();
    let load = |b: &[u8]| cache(1 << 30).load_from_bytes(b, &restore);
    assert!(matches!(load(&bytes), Ok(1)));
    assert!(matches!(
        load(&bytes[..bytes.len() - 1]),
        Err(LoadError::TruncatedDump { .. })
    ));
    let mut version = bytes.clone();
    version[4] = 77;
    assert!(matches!(load(&version), Err(LoadError::VersionMismatch { got: 77, .. })));
    let mut segment = bytes.clone();
    segment[24] = b'x';
    assert!(matches!(
        load(&segment),
        Err(LoadError::InvalidSegmentId { entry_index: 0, .. })
    ));
    let mut end = bytes.clone();
    let last = end.len() - 1;
    end[last] ^= 0xff;
    assert!(matches!(load(&end), Err(LoadError::BadEndMagic { .. })));
}

#[test]
fn element_type_and_budget_are_kept() {
    let cht: VramCompressedCht<Vec<u8>> =
        VramCompressedCht::with_budget_and_data_type(77, BitcompDataType::Char, false);
    assert_eq!(cht.budget_bytes(), 77);
    assert_eq!(cht.data_type(), BitcompDataType::Char);
    assert_eq!(cache(1).data_type(), BitcompDataType::Uint32);
}

#[test]
fn compressed_global_slot_needs_the_codec() {
    let mut slot: Option<VramCompressedCht<Vec<u8>>> = None;
    assert!(!global(&mut slot, false, false));
    assert!(slot.is_none());
    assert!(global(&mut slot, true, false));
    assert_eq!(
        slot.as_ref().unwrap().budget_bytes(),
        DEFAULT_VRAM_COMPRESSED_BUDGET_BYTES
    );
    let mut other: Option<VramCompressedCht<Vec<u8>>> = None;
    assert!(global_with_budget(&mut other, 4096, true, false));
    assert!(!global_with_budget(&mut other, 8192, true, false));
    assert_eq!(other.as_ref().unwrap().budget_bytes(), 4096);
    reset_global(&mut other);
    assert_eq!(other.unwrap().stats().entries, 0);
}

fn full(payload: &Vec<u8>) -> Result<Vec<u8>, VramChtError> {
    Err(VramChtError::Malloc { bytes: payload.len(), code: 2 })
}

#[test]
fn a_compressed_load_in_which_every_upload_fails_is_an_error() {
    let mut src = cache(1 << 30);
    src.insert(dummy_key(1, 2), &small_roaring(), &compress).unwrap();
    src.insert(dummy_key(3, 4), &small_roaring(), &compress).unwrap();
    let one = (src.stats().current_bytes / 2) as usize;
    let (bytes, _) = src.dump_to_bytes(&download).unwrap();
    let mut dst = cache(1 << 30);
    dst.insert(dummy_key(5, 6), &small_roaring(), &compress).unwrap();
    let before = dst.stats();
    assert_eq!(
        dst.load_from_bytes(&bytes, &full),
        Err(LoadError::Cuda { entry_index: 1, bytes: one, code: 2 })
    );
    assert_eq!(dst.stats(), before);
    let mut cut = bytes.clone();
    cut.pop();
    assert!(matches!(
        dst.load_from_bytes(&cut, &full),
        Err(LoadError::TruncatedDump { .. })
    ));
    // A record over the budget is not uploaded, and is no failure of the device.
    assert_eq!(cache(8).load_from_bytes(&bytes, &full), Ok(0));
}

#[test]
fn a_failed_upload_passes_over_the_compressed_record() {
    let mut src = cache(1 << 30);
    src.insert(dummy_key(1, 2), &small_roaring(), &compress).unwrap();
    src.insert(dummy_key(3, 4), &small_roaring(), &compress).unwrap();
    let (bytes, _) = src.dump_to_bytes(&download).unwrap();
    let calls = std::cell::Cell::new(0);
    let flaky = |payload: &Vec<u8>| -> Result<Vec<u8>, VramChtError> {
        calls.set(calls.get() + 1);
        if calls.get() == 2 {
            full(payload)
        } else {
            restore(payload)
        }
    };
    let mut dst = cache(1 << 30);
    assert_eq!(dst.load_from_bytes(&bytes, &flaky), Ok(1));
    assert!(dst.get(&dummy_key(1, 2)).is_some());
    assert!(dst.get(&dummy_key(3, 4)).is_none());
}

#[test]
fn compressed_counters_account_for_the_calls() {
    let mut cht = cache(1 << 30);
    for i in 0..6u32 {
        cht.insert(dummy_key(i, 1), &small_roaring(), &compress).unwrap();
        cht.promote(dummy_key(i, 1), &small_roaring(), &compress).unwrap();
        cht.get(&dummy_key(i + 3, 1));
    }
    // An entry that is cached already is no promotion.
    assert_eq!(cht.stats().promotions, 0);
    let gone = cht.evict_by_segments(&[dummy_key(2, 1).segment_id, dummy_key(4, 1).segment_id]);
    assert_eq!(gone, 2);
    let stats = cht.stats();
    assert_eq!((stats.inserts, stats.entries, stats.evictions), (6, 4, 2));
    assert_eq!(stats.hits + stats.misses, 6);
    let tight = stats.current_bytes / 2;
    let (bytes, _) = cht.dump_to_bytes(&download).unwrap();
    let mut dst = cache(tight);
    assert_eq!(dst.load_from_bytes(&bytes, &restore), Ok(4));
    let stats = dst.stats();
    assert_eq!((stats.inserts, stats.entries, stats.evictions), (4, 2, 2));
}

#[test]
fn promotions_are_inserts() {
    let mut v2 = uncompressed(1 << 30);
    let mut cht = cache(1 << 30);
    for i in 0..9u32 {
        let key = dummy_key(i, 1);
        match i % 3 {
            0 => {
                cht.insert(key, &small_roaring(), &compress).unwrap();
            }
            1 => {
                cht.promote(key, &small_roaring(), &compress).unwrap();
            }
            _ => {
                v2.insert(key, &small_roaring(), &upload).unwrap();
                let entry = v2.get(&key).unwrap();
                cht.promote_v2_to_v3(&key, &entry, &compress_buffer).unwrap();
            }
        }
        let stats = cht.stats();
        assert!(stats.cross_tier_promotions <= stats.promotions);
        assert!(stats.promotions <= stats.inserts);
    }
    let stats = cht.stats();
    assert_eq!((stats.inserts, stats.promotions, stats.cross_tier_promotions), (9, 6, 3));
    let stats = v2.stats();
    assert_eq!((stats.inserts, stats.promotions), (3, 0));
}
