use roaring_postings::cht::{estimated_bytes, global_with_budget, Cht, ChtKey, SegmentId};
use roaring_postings::encoder::{RoaringEncoder, RoaringPostings};
use std::sync::Arc;

fn small_postings() -> RoaringPostings {
    RoaringEncoder::from_doc_ids(&[1, 2, 3, 100, 65540])
}

fn big_postings(seed: u32) -> RoaringPostings {
    // Large enough to exercise multiple Bitmap containers.
    let docs: Vec<u32> = (0..200_000).map(|i| seed.wrapping_add(i * 3)).collect();
    RoaringEncoder::from_doc_ids(&docs)
}

fn dummy_key(addr: usize, len: usize) -> ChtKey {
    ChtKey {
        segment_id: SegmentId {
            value: 0xc0de_0000 + addr as u128,
        },
        field: addr as u32,
        term_hash: len as u64,
    }
}

#[test]
fn cht_miss_then_hit() {
    let mut cht = Cht::with_budget(64 * 1024 * 1024);
    let key = dummy_key(0xdead, 100);
    assert!(cht.get(&key).is_none());
    let stats = cht.stats();
    assert_eq!(stats.misses, 1);
    assert_eq!(stats.hits, 0);

    cht.insert(key.clone(), Arc::new(small_postings()));
    let got = cht.get(&key);
    assert!(got.is_some());
    let stats = cht.stats();
    assert_eq!(stats.hits, 1);
    assert_eq!(stats.misses, 1);
    assert_eq!(stats.inserts, 1);
}

#[test]
fn duplicate_insert_does_not_double_count() {
    let mut cht = Cht::with_budget(64 * 1024 * 1024);
    let key = dummy_key(0xdead, 100);
    let value = Arc::new(small_postings());
    cht.insert(key.clone(), Arc::clone(&value));
    let bytes_after_first = cht.stats().current_bytes;
    cht.insert(key.clone(), Arc::clone(&value));
    let bytes_after_second = cht.stats().current_bytes;
    assert_eq!(
        bytes_after_first, bytes_after_second,
        "re-insert of same key should not double-count bytes"
    );
    // Re-insert bumps token but does NOT re-bump the inserts
    // counter (it's an LRU touch, not a real insert).
    assert_eq!(cht.stats().inserts, 1);
}

#[test]
fn cht_lru_evicts_oldest_first() {
    // Budget tight enough to fit only one big posting list.
    let one_big_bytes = estimated_bytes(&big_postings(0)) as u64;
    let mut cht = Cht::with_budget(one_big_bytes + 512);

    let k1 = dummy_key(0xa1f7, 100);
    let k2 = dummy_key(0xb273, 100);
    cht.insert(k1.clone(), Arc::new(big_postings(0)));
    cht.insert(k2.clone(), Arc::new(big_postings(1)));

    // k1 should have been evicted (k2 inserted after).
    assert!(cht.get(&k1).is_none(), "oldest key must have been evicted");
    assert!(cht.get(&k2).is_some(), "newest key must still be cached");
    let stats = cht.stats();
    assert!(stats.evictions >= 1);
}

#[test]
fn entry_larger_than_budget_is_dropped() {
    let mut cht = Cht::with_budget(1024); // 1 KiB — much smaller than big_postings
    let key = dummy_key(0xc0ff, 100);
    cht.insert(key.clone(), Arc::new(big_postings(7)));
    assert!(
        cht.get(&key).is_none(),
        "value larger than budget must not be cached"
    );
    // No eviction should have happened — the insert short-circuited.
    let stats = cht.stats();
    assert_eq!(stats.inserts, 0);
    assert_eq!(stats.evictions, 0);
    assert_eq!(stats.current_bytes, 0);
}

#[test]
fn lru_touch_protects_entry_from_eviction() {
    // Two entries fit, third evicts the OLDEST. We touch the
    // oldest so the newer one is evicted instead.
    let one_big_bytes = estimated_bytes(&big_postings(0)) as u64;
    let mut cht = Cht::with_budget(one_big_bytes * 2 + 512);

    let k_old = dummy_key(0x111, 100);
    let k_mid = dummy_key(0x222, 100);
    let k_new = dummy_key(0x333, 100);

    cht.insert(k_old.clone(), Arc::new(big_postings(0)));
    cht.insert(k_mid.clone(), Arc::new(big_postings(1)));
    // Touch `k_old` so it's now the freshest, NOT the oldest.
    let _ = cht.get(&k_old);
    // Insert `k_new` — should evict `k_mid` (oldest after touch).
    cht.insert(k_new.clone(), Arc::new(big_postings(2)));

    assert!(cht.get(&k_old).is_some(), "touched entry survives");
    assert!(cht.get(&k_mid).is_none(), "untouched middle entry evicted");
    assert!(cht.get(&k_new).is_some(), "newest entry survives");
}

#[test]
fn estimated_bytes_bitmap_is_8192() {
    // Single Bitmap container = 8 KiB content + small overhead.
    // Use a high-cardinality run to force Bitmap form.
    let docs: Vec<u32> = (0..10_000).collect();
    let rp = RoaringEncoder::from_doc_ids(&docs);
    let est = estimated_bytes(&rp);
    // At least one Bitmap container worth of bytes.
    assert!(est >= 8192, "estimated bytes for Bitmap-class should be ≥ 8192, got {est}");
}

#[test]
fn global_with_budget_respects_first_init_only() {
    let mut slot: Option<Cht> = None;
    let first_attempt = global_with_budget(&mut slot, 8 * 1024 * 1024);
    let second_attempt = global_with_budget(&mut slot, 16 * 1024 * 1024);
    assert!(first_attempt);
    assert!(
        !second_attempt,
        "second global_with_budget call must be refused: budget is fixed at first init"
    );
    assert_eq!(slot.unwrap().stats().budget_bytes, 8 * 1024 * 1024);
}

#[test]
fn counters_account_for_the_calls() {
    let one_big_bytes = estimated_bytes(&big_postings(0)) as u64;
    let mut cht = Cht::with_budget(one_big_bytes * 2 + 512);
    let mut lookups = 0;
    for i in 0..9usize {
        cht.insert(dummy_key(i, 1), Arc::new(big_postings(i as u32)));
        cht.insert(dummy_key(i, 1), Arc::new(big_postings(i as u32)));
        cht.get(&dummy_key(i / 2, 1));
        cht.get(&dummy_key(i, 1));
        lookups += 2;
        let stats = cht.stats();
        assert_eq!(stats.inserts, stats.entries + stats.evictions);
        assert_eq!(stats.hits + stats.misses, lookups);
        assert!(stats.current_bytes <= stats.budget_bytes);
    }
    assert_eq!(cht.stats().inserts, 9);
    assert_eq!(cht.stats().entries, 2);
    cht.reset();
    cht.get(&dummy_key(1, 1));
    let stats = cht.stats();
    assert_eq!((stats.inserts, stats.evictions, stats.hits, stats.misses), (0, 0, 0, 1));
}
