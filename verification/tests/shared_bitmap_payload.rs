use roaring_postings::container::{BitmapContainer, Container};
use roaring_postings::encoder::{RoaringEncoder, RoaringPostings};
use roaring_postings::shared_bitmap_payload::SharedBitmapPayload;
use roaring_postings::BITMAP_CONTAINER_WORDS;

fn small_roaring() -> RoaringPostings {
    RoaringEncoder::from_doc_ids(&[1, 2, 3, 100, 65540])
}

fn dense_roaring(seed: u32) -> RoaringPostings {
    let docs: Vec<u32> = (0..200_000).map(|i| seed.wrapping_add(i * 3)).collect();
    RoaringEncoder::from_doc_ids(&docs)
}

#[test]
fn empty_postings_returns_none() {
    let empty = RoaringPostings::default();
    assert!(SharedBitmapPayload::from_postings(&empty).is_none());
}

#[test]
fn small_postings_two_buckets() {
    // small_roaring spans bucket 0 (docs 1, 2, 3, 100) and
    // bucket 1 (doc 65540 = bucket 1, low16 = 4).
    let rp = small_roaring();
    let payload = SharedBitmapPayload::from_postings(&rp).unwrap();
    assert_eq!(payload.bucket_count, 2);
    assert_eq!(payload.bucket_index.len(), 2);
    assert_eq!(payload.total_words, 2 * BITMAP_CONTAINER_WORDS);
    assert_eq!(payload.staging.len(), 2 * BITMAP_CONTAINER_WORDS);
    assert_eq!(payload.total_bytes(), 2 * BITMAP_CONTAINER_WORDS * 4);

    let buckets: Vec<u16> = payload.bucket_index.iter().map(|(h, _)| *h).collect();
    assert_eq!(buckets, vec![0, 1]);
    for (i, (_, off)) in payload.bucket_index.iter().enumerate() {
        assert_eq!(*off as usize, i * BITMAP_CONTAINER_WORDS);
    }
}

#[test]
fn dense_postings_layout_matches_legacy_v2() {
    // The documented layout invariants:
    // - bucket_count = non-empty containers in the source
    // - bucket_index sorted ascending by high16
    // - word_offset[i] == i * BITMAP_CONTAINER_WORDS
    // - total_words = bucket_count * BITMAP_CONTAINER_WORDS
    let rp = dense_roaring(0);
    let expected_buckets = rp
        .containers
        .iter()
        .filter(|(_, c)| c.cardinality() > 0)
        .count();
    let payload = SharedBitmapPayload::from_postings(&rp).unwrap();
    assert_eq!(payload.bucket_count, expected_buckets);
    assert_eq!(
        payload.total_words,
        expected_buckets * BITMAP_CONTAINER_WORDS
    );
    // word_offset must be strictly monotonic in `i *
    // BITMAP_CONTAINER_WORDS` steps.
    let mut prev_off = -1i64;
    for (i, (_h, off)) in payload.bucket_index.iter().enumerate() {
        let off_i64 = *off as i64;
        assert!(off_i64 > prev_off);
        assert_eq!(off_i64, (i * BITMAP_CONTAINER_WORDS) as i64);
        prev_off = off_i64;
    }
}

#[test]
fn bucket_index_high16_ascending() {
    // The helper relies on RoaringPostings' container vec being
    // sorted by high16; verify the output preserves that
    // invariant even after skipping empty containers.
    let rp = dense_roaring(0);
    let payload = SharedBitmapPayload::from_postings(&rp).unwrap();
    let highs: Vec<u16> = payload.bucket_index.iter().map(|(h, _)| *h).collect();
    let mut sorted = highs.clone();
    sorted.sort();
    assert_eq!(highs, sorted, "bucket_index must be sorted by high16");
}

#[test]
fn staging_contains_bitmap_words_per_bucket() {
    // Each bucket's window in `staging` must equal the bitmap
    // expansion of that container.
    let rp = small_roaring();
    let payload = SharedBitmapPayload::from_postings(&rp).unwrap();
    for (h, off) in payload.bucket_index.iter() {
        let (_, container) = rp
            .containers
            .iter()
            .find(|(hh, _)| *hh == *h)
            .expect("bucket high16 must exist in source");
        let expected: Vec<u32> = match container {
            Container::Bitmap(bm) => bm.words.as_ref().to_vec(),
            Container::Array(arr) => BitmapContainer::from_array(arr).words.as_ref().to_vec(),
            Container::Run(rc) => BitmapContainer::from_run(rc).words.as_ref().to_vec(),
        };
        assert_eq!(expected.len(), BITMAP_CONTAINER_WORDS);
        let start = *off as usize;
        let end = start + BITMAP_CONTAINER_WORDS;
        assert_eq!(
            &payload.staging[start..end],
            expected.as_slice(),
            "staging window for bucket {h} must match container bitmap"
        );
    }
}

#[test]
fn total_bytes_matches_total_words_times_four() {
    let rp = small_roaring();
    let payload = SharedBitmapPayload::from_postings(&rp).unwrap();
    assert_eq!(payload.total_bytes(), payload.total_words * 4);
}
