use roaring_postings::cht::{ChtKey, SegmentId};
use roaring_postings::encoder::{RoaringEncoder, RoaringPostings};
use roaring_postings::persist::{
    DumpError, LoadError, HASH_FN_FXHASHER_V1, MAGIC_END, MAGIC_V3, WIRE_VERSION,
};
use roaring_postings::vram_cht::{
    global, global_with_budget, kill_switch_active, reset_global, VramCht, VramChtError,
    DEFAULT_VRAM_CHT_BUDGET_BYTES,
};
use roaring_postings::BITMAP_CONTAINER_WORDS;
use std::cell::Cell;

/// Buffer that stands for device memory.
#[derive(Debug, Clone, PartialEq, Eq)]
struct Buffer(Vec<u32>);

fn upload(words: &Vec<u32>) -> Result<Buffer, VramChtError> {
    Ok(Buffer(words.clone()))
}

fn full(words: &Vec<u32>) -> Result<Buffer, VramChtError> {
    Err(VramChtError::Malloc { bytes: words.len() * 4, code: 2 })
}

fn download(buffer: &Buffer, words: usize) -> Result<Vec<u32>, u32> {
    Ok(buffer.0[..words].to_vec())
}

fn small_roaring() -> RoaringPostings {
    RoaringEncoder::from_doc_ids(&[1, 2, 3, 100, 65540])
}

fn dense_roaring(seed: u32) -> RoaringPostings {
    let docs: Vec<u32> = (0..200_000).map(|i| seed.wrapping_add(i * 3)).collect();
    RoaringEncoder::from_doc_ids(&docs)
}

fn dummy_key(field: u32, term_hash: u64) -> ChtKey {
    ChtKey {
        segment_id: SegmentId {
            value: 0xc0de_0000_0000 + field as u128,
        },
        field,
        term_hash,
    }
}

fn cache(budget: u64) -> VramCht<Buffer> {
    VramCht::with_budget(budget, false)
}

/// What one dense entry costs of the budget.
fn one_dense() -> u64 {
    let mut probe = cache(1 << 30);
    probe
        .insert(dummy_key(0xff00, 100), &dense_roaring(0), &upload)
        .unwrap();
    probe.stats().current_bytes
}

#[test]
fn vram_cht_miss_then_hit() {
    let mut cht = cache(64 * 1024 * 1024);
    let key = dummy_key(0xdead, 100);
    assert!(cht.get(&key).is_none());
    let stats = cht.stats();
    assert_eq!(stats.misses, 1);
    assert_eq!(stats.hits, 0);

    let inserted = cht.insert(key.clone(), &small_roaring(), &upload).unwrap();
    assert!(inserted, "non-empty term must insert");
    let got = cht.get(&key);
    assert!(got.is_some());
    let stats = cht.stats();
    assert_eq!(stats.hits, 1);
    assert_eq!(stats.misses, 1);
    assert_eq!(stats.inserts, 1);
}

#[test]
fn duplicate_insert_reuses_existing_entry() {
    let mut cht = cache(64 * 1024 * 1024);
    let key = dummy_key(0xdead, 100);
    let inserted_1 = cht.insert(key.clone(), &small_roaring(), &upload).unwrap();
    assert!(inserted_1);
    let bytes_after_first = cht.stats().current_bytes;

    let inserted_2 = cht.insert(key.clone(), &small_roaring(), &upload).unwrap();
    assert!(!inserted_2, "second insert of same key must short-circuit");
    let bytes_after_second = cht.stats().current_bytes;
    assert_eq!(
        bytes_after_first, bytes_after_second,
        "re-insert of same key must not double-count bytes"
    );
    assert_eq!(cht.stats().inserts, 1);
}

#[test]
fn vram_cht_lru_evicts_oldest_first() {
    let mut cht = cache(one_dense() + 1024);
    let k1 = dummy_key(0xa1f7, 100);
    let k2 = dummy_key(0xb273, 100);
    cht.insert(k1.clone(), &dense_roaring(0), &upload).unwrap();
    cht.insert(k2.clone(), &dense_roaring(1), &upload).unwrap();
    assert!(cht.get(&k1).is_none(), "oldest key must have been evicted");
    assert!(cht.get(&k2).is_some(), "newest key must still be cached");
    assert!(cht.stats().evictions >= 1);
}

#[test]
fn a_hit_protects_an_entry_from_eviction() {
    let mut cht = cache(2 * one_dense() + 1024);
    let keys: Vec<ChtKey> = (0..3).map(|i| dummy_key(i, 100)).collect();
    cht.insert(keys[0], &dense_roaring(0), &upload).unwrap();
    cht.insert(keys[1], &dense_roaring(1), &upload).unwrap();
    assert!(cht.get(&keys[0]).is_some());
    cht.insert(keys[2], &dense_roaring(2), &upload).unwrap();
    assert!(cht.get(&keys[0]).is_some());
    assert!(cht.get(&keys[1]).is_none());
    assert!(cht.get(&keys[2]).is_some());
}

#[test]
fn entry_larger_than_budget_skipped() {
    // 1 KiB is far less than a list of 200_000 documents takes.
    let mut cht = cache(1024);
    let key = dummy_key(0xc0ff, 100);
    let inserted = cht.insert(key.clone(), &dense_roaring(7), &upload).unwrap();
    assert!(!inserted);
    let stats = cht.stats();
    assert_eq!(stats.inserts, 0);
    assert_eq!(stats.evictions, 0);
    assert_eq!(stats.current_bytes, 0);
    assert!(cht.get(&key).is_none());
}

#[test]
fn empty_roaring_skipped_cleanly() {
    let mut cht = cache(64 * 1024 * 1024);
    let key = dummy_key(0xe1ee, 100);
    let empty = RoaringPostings::default();
    let inserted = cht.insert(key.clone(), &empty, &upload).unwrap();
    assert!(!inserted);
    assert_eq!(cht.stats().inserts, 0);
    assert!(cht.get(&key).is_none());
}

#[test]
fn vram_cht_promote_bumps_promotions_counter() {
    let mut cht = cache(64 * 1024 * 1024);
    let key = dummy_key(0xdead, 100);
    let inserted = cht.promote(key.clone(), &small_roaring(), &upload).unwrap();
    assert!(inserted);
    let stats = cht.stats();
    assert_eq!(stats.promotions, 1);
    assert_eq!(stats.inserts, 1);
}

#[test]
fn entry_bucket_index_matches_source() {
    let mut cht = cache(64 * 1024 * 1024);
    let key = dummy_key(0xface, 100);
    let rp = small_roaring();
    cht.insert(key.clone(), &rp, &upload).unwrap();
    let entry = cht.get(&key).unwrap();
    // Documents 1, 2, 3 and 100 are in bucket 0, document 65540 is in bucket 1.
    let buckets: Vec<u16> = entry.bucket_index().iter().map(|(h, _)| *h).collect();
    assert_eq!(buckets, vec![0, 1]);
    // Each offset is a multiple of BITMAP_CONTAINER_WORDS, ascending.
    for (i, (_, off)) in entry.bucket_index().iter().enumerate() {
        assert_eq!(*off as usize, i * BITMAP_CONTAINER_WORDS);
    }
    assert_eq!(entry.total_words(), 2 * BITMAP_CONTAINER_WORDS);
    assert_eq!(entry.bucket_count(), 2);
    assert_eq!(entry.total_bytes(), 2 * 8192);
    // The buffer holds the bits of the documents.
    let words = &entry.device_ptr().0;
    assert_eq!(words[0], 0b1110);
    assert_eq!(words[3], 1 << 4);
    assert_eq!(words[BITMAP_CONTAINER_WORDS], 1 << 4);
    assert_eq!(words.iter().map(|w| w.count_ones()).sum::<u32>(), 5);
}

#[test]
fn arc_clone_survives_eviction_then_reset() {
    let mut cht = cache(64 * 1024 * 1024);
    let key = dummy_key(0x5afe, 100);
    cht.insert(key.clone(), &small_roaring(), &upload).unwrap();
    let live_clone = cht.get(&key).expect("post-insert get must hit");
    // Dropping the cache's own handle leaves the other one alive.
    cht.reset();
    assert_eq!(live_clone.bucket_count(), 2);
    assert!(!live_clone.device_ptr().0.is_empty());
    drop(live_clone);
    // The cache is empty and can be used again.
    assert_eq!(cht.stats().entries, 0);
    let key2 = dummy_key(0x5aff, 100);
    let inserted = cht.insert(key2.clone(), &small_roaring(), &upload).unwrap();
    assert!(inserted);
    assert!(cht.get(&key2).is_some());
}

#[test]
fn vram_cht_kill_switch_via_env_var() {
    for value in [None, Some("1")] {
        let disabled = kill_switch_active(&mut None, value);
        assert_eq!(disabled, value.is_some());
        let mut cht: VramCht<Buffer> = VramCht::with_budget(64 * 1024 * 1024, disabled);
        let key = dummy_key(0xb007, 100);
        if disabled {
            assert!(cht.get(&key).is_none());
            let inserted = cht.insert(key.clone(), &small_roaring(), &upload).unwrap();
            assert!(!inserted, "kill-switch active: insert must short-circuit");
            assert!(cht.get(&key).is_none(), "kill-switch active: get always misses");
            let stats = cht.stats();
            assert_eq!(stats.inserts, 0);
            assert_eq!(stats.entries, 0);
            assert!(stats.misses >= 2);
        } else {
            assert!(cht.get(&key).is_none());
            let inserted = cht.insert(key.clone(), &small_roaring(), &upload).unwrap();
            assert!(inserted);
            assert!(cht.get(&key).is_some());
        }
    }
}

#[test]
fn kill_switch_values() {
    for on in ["1", "true", "TRUE", "True"] {
        assert!(kill_switch_active(&mut None, Some(on)), "{}", on);
    }
    for off in ["", "0", "yes", "false", "11", "truth"] {
        assert!(!kill_switch_active(&mut None, Some(off)), "{}", off);
    }
    assert!(!kill_switch_active(&mut None, None));
}

#[test]
fn the_first_answer_of_the_kill_switch_holds() {
    let mut slot = None;
    assert!(kill_switch_active(&mut slot, Some("true")));
    assert_eq!(slot, Some(true));
    for later in [None, Some("0"), Some("1")] {
        assert!(kill_switch_active(&mut slot, later));
    }
    let mut slot = None;
    assert!(!kill_switch_active(&mut slot, None));
    for later in [None, Some("1"), Some("true")] {
        assert!(!kill_switch_active(&mut slot, later));
        assert_eq!(slot, Some(false));
    }
}

#[test]
fn failed_upload_leaves_the_cache_alone() {
    let mut cht = cache(64 * 1024 * 1024);
    let key = dummy_key(1, 2);
    assert_eq!(
        cht.insert(key, &small_roaring(), &full),
        Err(VramChtError::Malloc { bytes: 16384, code: 2 })
    );
    assert_eq!(cht.stats().entries, 0);
    assert_eq!(cht.stats().inserts, 0);
    let copy = |_words: &Vec<u32>| -> Result<Buffer, VramChtError> {
        Err(VramChtError::Memcpy { bytes: 16384, code: 11 })
    };
    assert_eq!(
        cht.insert(key, &small_roaring(), &copy),
        Err(VramChtError::Memcpy { bytes: 16384, code: 11 })
    );
}

#[test]
fn refused_inserts_do_not_upload() {
    let uploads = Cell::new(0);
    let counting = |words: &Vec<u32>| -> Result<Buffer, VramChtError> {
        uploads.set(uploads.get() + 1);
        upload(words)
    };
    let mut cht = cache(64 * 1024 * 1024);
    let key = dummy_key(1, 2);
    assert_eq!(cht.insert(key, &small_roaring(), &counting), Ok(true));
    assert_eq!(cht.insert(key, &small_roaring(), &counting), Ok(false));
    assert_eq!(
        cht.insert(dummy_key(3, 4), &RoaringPostings::default(), &counting),
        Ok(false)
    );
    assert_eq!(uploads.get(), 1);
}

#[test]
fn vram_cht_v2_dump_then_load_roundtrip_byte_equal() {
    // Populate source cache with 3 entries.
    let mut src = cache(256 * 1024 * 1024);
    let entries = vec![
        (dummy_key(0xAAAA, 0x1111_2222_3333_4444), small_roaring()),
        (dummy_key(0xBBBB, 0x5555_6666_7777_8888), dense_roaring(0)),
        (dummy_key(0xCCCC, 0x9999_AAAA_BBBB_CCCC), dense_roaring(1)),
    ];
    for (k, rp) in &entries {
        src.insert(k.clone(), rp, &upload).unwrap();
    }
    let (bytes, n_dumped) = src.dump_to_bytes(&download).unwrap();
    assert_eq!(n_dumped, entries.len() as u64);
    let mut expected: Vec<(usize, Buffer)> = Vec::new();
    for (k, _) in &entries {
        let e = src.get(k).expect("src entry must hit");
        expected.push((e.total_words(), e.device_ptr().clone()));
    }

    // Fresh cache; load; per-key byte-equal.
    let mut dst = cache(256 * 1024 * 1024);
    let n_loaded = dst.load_from_bytes(&bytes, &upload).unwrap();
    assert_eq!(n_loaded, entries.len() as u64);
    for ((k, _), (expected_words, expected_buf)) in entries.iter().zip(expected.iter()) {
        let got = dst.get(k).expect("loaded entry must hit");
        assert_eq!(got.total_words(), *expected_words);
        assert_eq!(
            got.device_ptr(),
            expected_buf,
            "loaded device buffer must be byte-equal to dumped"
        );
    }
}

#[test]
fn vram_cht_v2_restart_simulation_first_query_hits() {
    let mut original = cache(64 * 1024 * 1024);
    let k1 = dummy_key(0xCAFE, 0xBABE_0001);
    let k2 = dummy_key(0xCAFE, 0xBABE_0002);
    original.insert(k1.clone(), &small_roaring(), &upload).unwrap();
    original.insert(k2.clone(), &dense_roaring(0), &upload).unwrap();
    let (bytes, _) = original.dump_to_bytes(&download).unwrap();

    let mut restarted = cache(64 * 1024 * 1024);
    let pre = restarted.stats();
    assert_eq!(pre.hits, 0);
    assert_eq!(pre.entries, 0);

    let loaded = restarted.load_from_bytes(&bytes, &upload).unwrap();
    assert_eq!(loaded, 2, "load installs both entries");
    let post_load = restarted.stats();
    assert_eq!(post_load.entries, 2);

    let got = restarted.get(&k1);
    assert!(got.is_some(), "first-query-post-restart hits");
    let post_query = restarted.stats();
    assert_eq!(post_query.hits, 1);
    assert_eq!(post_query.misses, 0);

    let entry = got.unwrap();
    assert!(!entry.device_ptr().0.is_empty());
    assert!(entry.bucket_count() >= 1);
}

#[test]
fn vram_cht_v2_load_wrong_magic_rejected() {
    // A dump of the compressed tier.
    let mut f: Vec<u8> = Vec::new();
    f.extend_from_slice(&MAGIC_V3.to_le_bytes());
    f.extend_from_slice(&WIRE_VERSION.to_le_bytes());
    f.extend_from_slice(&HASH_FN_FXHASHER_V1.to_le_bytes());
    f.extend_from_slice(&0u64.to_le_bytes());
    f.extend_from_slice(&0u32.to_le_bytes());
    f.extend_from_slice(&MAGIC_END.to_le_bytes());

    let mut dst = cache(64 * 1024 * 1024);
    let err = dst.load_from_bytes(&f, &upload).unwrap_err();
    assert!(
        matches!(err, LoadError::WrongMagic { .. }),
        "a dump of another tier must reject as WrongMagic, got {err:?}"
    );
}

#[test]
fn vram_cht_v2_dump_empty_cache_roundtrips() {
    let src = cache(64 * 1024 * 1024);
    let (bytes, n) = src.dump_to_bytes(&download).unwrap();
    assert_eq!(n, 0);
    let mut dst = cache(64 * 1024 * 1024);
    let n_loaded = dst.load_from_bytes(&bytes, &upload).unwrap();
    assert_eq!(n_loaded, 0);
    assert_eq!(dst.stats().entries, 0);
}

#[test]
fn damaged_dumps_are_rejected() {
    let mut src = cache(64 * 1024 * 1024);
    src.insert(dummy_key(1, 2), &small_roaring(), &upload).unwrap();
    let (bytes, _) = src.dump_to_bytes(&download).unwrap();
    let load = |b: &[u8]| cache(64 * 1024 * 1024).load_from_bytes(b, &upload);
    assert!(matches!(load(&bytes), Ok(1)));
    assert!(load(&bytes[..bytes.len() - 1]).is_err());
    assert!(load(&bytes[..20]).is_err());
    assert!(load(&[]).is_err());
    let mut bad_end = bytes.clone();
    let last = bad_end.len() - 1;
    bad_end[last] ^= 0xff;
    assert!(load(&bad_end).is_err());
}

#[test]
fn a_failed_download_fails_the_dump() {
    let mut src = cache(64 * 1024 * 1024);
    src.insert(dummy_key(1, 2), &small_roaring(), &upload).unwrap();
    let broken = |_b: &Buffer, _n: usize| -> Result<Vec<u32>, u32> { Err(77) };
    assert!(matches!(src.dump_to_bytes(&broken), Err(DumpError::Cuda { .. })));
}

#[test]
fn a_failed_upload_passes_over_the_record() {
    let mut src = cache(64 * 1024 * 1024);
    src.insert(dummy_key(1, 2), &small_roaring(), &upload).unwrap();
    src.insert(dummy_key(3, 4), &small_roaring(), &upload).unwrap();
    let (bytes, _) = src.dump_to_bytes(&download).unwrap();
    let calls = Cell::new(0);
    let flaky = |words: &Vec<u32>| -> Result<Buffer, VramChtError> {
        calls.set(calls.get() + 1);
        if calls.get() == 1 {
            full(words)
        } else {
            upload(words)
        }
    };
    let mut dst = cache(64 * 1024 * 1024);
    assert_eq!(dst.load_from_bytes(&bytes, &flaky).unwrap(), 1);
    assert_eq!(dst.stats().entries, 1);
    assert!(dst.get(&dummy_key(3, 4)).is_some());
}

#[test]
fn interleaved_get_inserts_stay_within_budget() {
    let mut cht = cache(one_dense() * 3 + 4096);
    for i in 0..16u32 {
        for w in 0..4u32 {
            let key = dummy_key(0x10000 + (w * 100 + i), 100);
            let _ = cht.insert(key, &dense_roaring(w * 100 + i), &upload);
            let _ = cht.get(&dummy_key(0x10000 + (w * 100 + i / 2), 100));
            let stats = cht.stats();
            assert!(stats.current_bytes <= cht.budget_bytes());
            assert!(stats.entries <= 3);
        }
    }
}

#[test]
fn global_slot_is_filled_once() {
    let mut slot: Option<VramCht<Buffer>> = None;
    assert!(global_with_budget(&mut slot, 4096, false));
    assert!(!global_with_budget(&mut slot, 8192, false));
    assert_eq!(slot.as_ref().unwrap().budget_bytes(), 4096);
    let mut other: Option<VramCht<Buffer>> = None;
    global(&mut other, false);
    assert_eq!(
        other.as_ref().unwrap().budget_bytes(),
        DEFAULT_VRAM_CHT_BUDGET_BYTES
    );
    other
        .as_mut()
        .unwrap()
        .insert(dummy_key(1, 2), &small_roaring(), &upload)
        .unwrap();
    reset_global(&mut other);
    assert_eq!(other.unwrap().stats().entries, 0);
}

/// Dump of three small entries.
fn dump_of_three() -> Vec<u8> {
    let mut src = cache(64 * 1024 * 1024);
    for i in 0..3u32 {
        src.insert(dummy_key(i, 7), &small_roaring(), &upload).unwrap();
    }
    src.dump_to_bytes(&download).unwrap().0
}

#[test]
fn a_load_in_which_every_upload_fails_is_an_error() {
    let bytes = dump_of_three();
    let mut dst = cache(64 * 1024 * 1024);
    dst.insert(dummy_key(9, 9), &small_roaring(), &upload).unwrap();
    let before = dst.stats();
    // Two buckets of 8 KiB each.
    assert_eq!(
        dst.load_from_bytes(&bytes, &full),
        Err(LoadError::Cuda { entry_index: 2, bytes: 16384, code: 2 })
    );
    assert_eq!(dst.stats(), before);
    let copy_fails = |words: &Vec<u32>| -> Result<Buffer, VramChtError> {
        Err(VramChtError::Memcpy { bytes: words.len() * 4, code: 77 })
    };
    assert_eq!(
        dst.load_from_bytes(&bytes, &copy_fails),
        Err(LoadError::Cuda { entry_index: 2, bytes: 16384, code: 77 })
    );
    assert_eq!(dst.stats(), before);
}

#[test]
fn a_fault_of_the_dump_comes_before_failed_uploads() {
    let mut bytes = dump_of_three();
    bytes.pop();
    let mut dst = cache(64 * 1024 * 1024);
    assert!(matches!(
        dst.load_from_bytes(&bytes, &full),
        Err(LoadError::TruncatedDump { .. })
    ));
}

#[test]
fn an_empty_dump_loads_though_the_device_is_full() {
    let (bytes, _) = cache(4096).dump_to_bytes(&download).unwrap();
    assert_eq!(cache(4096).load_from_bytes(&bytes, &full), Ok(0));
}

#[test]
fn uploads_that_do_not_fit_the_budget_are_no_failure() {
    // Every upload succeeds and every entry is too large.
    let bytes = dump_of_three();
    assert_eq!(cache(4096).load_from_bytes(&bytes, &upload), Ok(0));
}

#[test]
fn device_counters_account_for_the_calls() {
    let mut cht = cache(one_dense() * 2 + 4096);
    let mut lookups = 0;
    for i in 0..7u32 {
        cht.insert(dummy_key(i, 1), &dense_roaring(i), &upload).unwrap();
        cht.promote(dummy_key(i, 1), &dense_roaring(i), &upload).unwrap();
        cht.get(&dummy_key(i / 2, 1));
        cht.get(&dummy_key(i, 1));
        lookups += 2;
        let stats = cht.stats();
        assert_eq!(stats.inserts, stats.entries + stats.evictions);
        assert_eq!(stats.hits + stats.misses, lookups);
    }
    assert_eq!(cht.stats().inserts, 7);
    let (bytes, _) = cht.dump_to_bytes(&download).unwrap();
    cht.reset();
    assert_eq!(cht.stats().hits + cht.stats().misses, 0);
    assert_eq!(cht.load_from_bytes(&bytes, &upload), Ok(2));
    let stats = cht.stats();
    assert_eq!((stats.inserts, stats.entries, stats.evictions), (2, 2, 0));
}
