use roaring_postings::container::Container;
use roaring_postings::decoder::{RoaringDecoder, TERMINATED};
use roaring_postings::encoder::{RoaringEncoder, RoaringPostings};

fn build(ids: &[u32]) -> RoaringPostings {
    RoaringEncoder::from_doc_ids(ids)
}

#[test]
fn decoder_empty_advance_returns_none() {
    let p = build(&[]);
    let mut d = RoaringDecoder::new(&p);
    assert_eq!(d.doc(), TERMINATED);
    assert_eq!(d.advance(), None);
}

#[test]
fn decoder_single_doc() {
    let p = build(&[42]);
    let mut d = RoaringDecoder::new(&p);
    assert_eq!(d.advance(), Some(42));
    assert_eq!(d.doc(), 42);
    assert_eq!(d.advance(), None);
}

#[test]
fn decoder_iterates_in_order() {
    let p = build(&[100, 1, 1_000_000, 50, 100_000]);
    let d = RoaringDecoder::new(&p);
    let collected: Vec<u32> = d.collect();
    assert_eq!(collected, vec![1, 50, 100, 100_000, 1_000_000]);
}

#[test]
fn decoder_iterates_dense() {
    let mut enc = RoaringEncoder::new();
    for id in 0u32..10000 {
        enc.add(id);
    }
    let p = enc.finalize();
    let d = RoaringDecoder::new(&p);
    let collected: Vec<u32> = d.collect();
    assert_eq!(collected.len(), 10000);
    assert_eq!(collected[0], 0);
    assert_eq!(collected[9999], 9999);
}

#[test]
fn decoder_iterates_multi_bucket() {
    let p = build(&[0, 65535, 65536, 131072, 1_000_000]);
    let d = RoaringDecoder::new(&p);
    let collected: Vec<u32> = d.collect();
    assert_eq!(collected, vec![0, 65535, 65536, 131072, 1_000_000]);
}

#[test]
fn decoder_seek_hit() {
    let p = build(&[10, 20, 30, 40, 50]);
    let mut d = RoaringDecoder::new(&p);
    assert_eq!(d.seek(25), Some(30));
    assert_eq!(d.advance(), Some(40));
}

#[test]
fn decoder_seek_exact_match() {
    let p = build(&[10, 20, 30]);
    let mut d = RoaringDecoder::new(&p);
    assert_eq!(d.seek(20), Some(20));
}

#[test]
fn decoder_seek_past_end() {
    let p = build(&[1, 2, 3]);
    let mut d = RoaringDecoder::new(&p);
    assert_eq!(d.seek(100), None);
    assert_eq!(d.doc(), TERMINATED);
}

#[test]
fn decoder_seek_jumps_buckets() {
    let p = build(&[1, 65535, 65536, 1_000_000]);
    let mut d = RoaringDecoder::new(&p);
    assert_eq!(d.seek(70_000), Some(1_000_000));
}

#[test]
fn decoder_seek_into_dense_bucket() {
    let mut enc = RoaringEncoder::new();
    for id in 0u32..10_000 {
        enc.add(id);
    }
    let p = enc.finalize();
    let mut d = RoaringDecoder::new(&p);
    assert_eq!(d.seek(5_000), Some(5_000));
}

#[test]
fn decoder_seek_zero() {
    let p = build(&[0, 1, 2]);
    let mut d = RoaringDecoder::new(&p);
    assert_eq!(d.seek(0), Some(0));
}

#[test]
fn decoder_cardinality_matches_iter_count() {
    let mut enc = RoaringEncoder::new();
    for id in (0u32..50_000).step_by(3) {
        enc.add(id);
    }
    let p = enc.finalize();
    let d = RoaringDecoder::new(&p);
    let collected: Vec<u32> = d.collect();
    assert_eq!(collected.len() as u64, p.cardinality());
}

#[test]
fn decoder_seek_within_run_container() {
    // Build a container that optimises into Run form: contiguous
    // 0..5000 inside high16=0.
    let mut enc = RoaringEncoder::new();
    for id in 0u32..5000 {
        enc.add(id);
    }
    let p = enc.finalize();
    // Sanity: must be Run.
    assert!(matches!(p.containers[0].1, Container::Run(_)));
    let mut d = RoaringDecoder::new(&p);
    assert_eq!(d.seek(2500), Some(2500));
    assert_eq!(d.advance(), Some(2501));
}

#[test]
fn decoder_seek_target_below_first() {
    let p = build(&[100, 200, 300]);
    let mut d = RoaringDecoder::new(&p);
    assert_eq!(d.seek(0), Some(100));
}

#[test]
fn decoder_repeated_advance_terminates() {
    let p = build(&[1, 2]);
    let mut d = RoaringDecoder::new(&p);
    assert_eq!(d.advance(), Some(1));
    assert_eq!(d.advance(), Some(2));
    assert_eq!(d.advance(), None);
    assert_eq!(d.advance(), None);
    assert_eq!(d.doc(), TERMINATED);
}

#[test]
fn decoder_seek_then_iterate() {
    let p = build(&[10, 20, 30, 40, 50]);
    let mut d = RoaringDecoder::new(&p);
    d.seek(25);
    let rest: Vec<u32> = std::iter::from_fn(|| d.advance()).collect();
    // After seek(25) → 30 emitted, advance gives 40, 50.
    assert_eq!(rest, vec![40, 50]);
}
