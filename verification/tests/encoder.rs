use roaring_postings::container::{ArrayContainer, Container};
use roaring_postings::encoder::{
    RoaringEncoder, RoaringFormatError, RoaringPostings, MAGIC, VERSION_V1,
};

#[test]
fn encoder_empty() {
    let enc = RoaringEncoder::new();
    assert_eq!(enc.cardinality(), 0);
    let p = enc.finalize();
    assert_eq!(p.cardinality(), 0);
    assert_eq!(p.num_containers(), 0);
}

#[test]
fn encoder_single_doc() {
    let mut enc = RoaringEncoder::new();
    enc.add(42);
    assert_eq!(enc.cardinality(), 1);
    let p = enc.finalize();
    assert_eq!(p.cardinality(), 1);
}

#[test]
fn encoder_full_bucket_then_next() {
    let mut enc = RoaringEncoder::new();
    for id in 0u32..100 {
        enc.add(id);
    }
    for id in 1_000_000u32..1_000_005 {
        enc.add(id);
    }
    let p = enc.finalize();
    assert_eq!(p.cardinality(), 105);
    // Bucket 0 plus high16 = (1_000_000 >> 16) = 15.
    assert_eq!(p.num_containers(), 2);
}

#[test]
fn encoder_dedupes() {
    let mut enc = RoaringEncoder::new();
    for _ in 0..10 {
        enc.add(7);
    }
    assert_eq!(enc.cardinality(), 1);
}

#[test]
fn encoder_promotes_array_to_bitmap() {
    let mut enc = RoaringEncoder::new();
    for id in 0u32..6000 {
        enc.add(id);
    }
    let p = enc.finalize();
    assert_eq!(p.cardinality(), 6000);
    // After optimize, contiguous 0..5999 should become Run.
    match &p.containers[0].1 {
        Container::Run(r) => assert_eq!(r.cardinality(), 6000),
        other => panic!("expected run, got {other:?}"),
    }
}

#[test]
fn encoder_promotes_to_bitmap_then_runs_optimize() {
    let mut enc = RoaringEncoder::new();
    // Sparse pattern that will not run-collapse — every other
    // bit, giving cardinality > threshold but no contiguity.
    for id in (0u32..10000).step_by(2) {
        enc.add(id);
    }
    let p = enc.finalize();
    // Cardinality is 5000.
    assert_eq!(p.cardinality(), 5000);
    // 5000 keys, sparse alternating bits → bitmap should win
    // because run encoding would be 5000 runs * 4 + 2 = 20002
    // bytes vs 8 KiB.
    match &p.containers[0].1 {
        Container::Bitmap(_) => {}
        other => panic!("expected bitmap, got {other:?}"),
    }
}

#[test]
fn encoder_add_sorted_alias() {
    let mut enc = RoaringEncoder::new();
    enc.add_sorted(&[1u32, 2, 3, 100, 1_000_000]);
    let p = enc.finalize();
    assert_eq!(p.cardinality(), 5);
}

#[test]
fn encoder_from_doc_ids_helper() {
    let p = RoaringEncoder::from_doc_ids(&[1u32, 2, 1_000_000]);
    assert_eq!(p.cardinality(), 3);
}

#[test]
fn postings_iter_order() {
    let p = RoaringEncoder::from_doc_ids(&[1_000_000, 5, 1, 100, 1_000_001]);
    let collected: Vec<u32> = p.iter().collect();
    assert_eq!(collected, vec![1, 5, 100, 1_000_000, 1_000_001]);
}

#[test]
fn wire_round_trip_empty() {
    let p = RoaringPostings::new();
    let bytes = p.to_bytes();
    let parsed = RoaringPostings::from_bytes(&bytes).unwrap();
    assert_eq!(parsed, p);
}

#[test]
fn wire_round_trip_typical() {
    let p = RoaringEncoder::from_doc_ids(&[1, 2, 3, 1_000_000, 1_000_001, 65_536, 65_537]);
    let bytes = p.to_bytes();
    let parsed = RoaringPostings::from_bytes(&bytes).unwrap();
    assert_eq!(parsed.cardinality(), p.cardinality());
    let a: Vec<u32> = p.iter().collect();
    let b: Vec<u32> = parsed.iter().collect();
    assert_eq!(a, b);
}

#[test]
fn wire_round_trip_dense() {
    let mut enc = RoaringEncoder::new();
    for id in 0u32..50_000 {
        enc.add(id);
    }
    let p = enc.finalize();
    let bytes = p.to_bytes();
    let parsed = RoaringPostings::from_bytes(&bytes).unwrap();
    assert_eq!(parsed.cardinality(), 50_000);
}

#[test]
fn wire_magic_validation() {
    let mut bytes = vec![b'X', b'Y', b'Z', b'W', VERSION_V1, 0, 0, 0, 0];
    bytes.extend(std::iter::repeat_n(0u8, 64));
    let res = RoaringPostings::from_bytes(&bytes);
    assert!(matches!(res, Err(RoaringFormatError::BadMagic(_))));
}

#[test]
fn wire_version_validation() {
    let mut bytes = MAGIC.to_vec();
    bytes.push(99u8); // unknown version
    bytes.extend_from_slice(&0u32.to_le_bytes());
    let res = RoaringPostings::from_bytes(&bytes);
    assert!(matches!(
        res,
        Err(RoaringFormatError::UnsupportedVersion(99))
    ));
}

#[test]
fn wire_truncated_header() {
    let bytes = vec![b'R', b'O'];
    let res = RoaringPostings::from_bytes(&bytes);
    assert!(matches!(res, Err(RoaringFormatError::Truncated { .. })));
}

#[test]
fn wire_truncated_container_table_entry() {
    // Magic + version + claim 1 container, but no entry follows.
    let mut bytes = MAGIC.to_vec();
    bytes.push(VERSION_V1);
    bytes.extend_from_slice(&1u32.to_le_bytes());
    let res = RoaringPostings::from_bytes(&bytes);
    assert!(matches!(res, Err(RoaringFormatError::Truncated { .. })));
}

#[test]
fn wire_truncated_container_body() {
    // Magic + version + 1 container + entry header that claims
    // 1000 body bytes, but only 5 are present.
    let mut bytes = MAGIC.to_vec();
    bytes.push(VERSION_V1);
    bytes.extend_from_slice(&1u32.to_le_bytes());
    bytes.extend_from_slice(&0u16.to_le_bytes()); // high16 = 0
    bytes.extend_from_slice(&1000u32.to_le_bytes()); // body_len = 1000
    bytes.extend_from_slice(&[0, 0, 0, 0, 0]); // 5 bytes of body
    let res = RoaringPostings::from_bytes(&bytes);
    assert!(matches!(res, Err(RoaringFormatError::Truncated { .. })));
}

#[test]
fn wire_unsorted_high16_rejected() {
    // Build an artificial 2-container payload where high16 goes
    // backwards.
    let arr_a = ArrayContainer::from_sorted(vec![1, 2]);
    let arr_b = ArrayContainer::from_sorted(vec![3, 4]);
    let body_a = Container::Array(arr_a).to_bytes();
    let body_b = Container::Array(arr_b).to_bytes();
    let mut bytes = MAGIC.to_vec();
    bytes.push(VERSION_V1);
    bytes.extend_from_slice(&2u32.to_le_bytes());
    bytes.extend_from_slice(&5u16.to_le_bytes()); // high16 = 5
    bytes.extend_from_slice(&u32::try_from(body_a.len()).unwrap().to_le_bytes());
    bytes.extend(body_a);
    bytes.extend_from_slice(&3u16.to_le_bytes()); // high16 = 3 < 5 → unsorted
    bytes.extend_from_slice(&u32::try_from(body_b.len()).unwrap().to_le_bytes());
    bytes.extend(body_b);
    let res = RoaringPostings::from_bytes(&bytes);
    assert!(matches!(res, Err(RoaringFormatError::UnsortedContainers)));
}

#[test]
fn wire_corrupt_inner_container() {
    let mut bytes = MAGIC.to_vec();
    bytes.push(VERSION_V1);
    bytes.extend_from_slice(&1u32.to_le_bytes());
    bytes.extend_from_slice(&0u16.to_le_bytes()); // high16 = 0
    bytes.extend_from_slice(&5u32.to_le_bytes()); // body_len = 5
    bytes.extend_from_slice(&[0xFFu8, 0, 0, 0, 0]); // unknown tag 0xFF
    let res = RoaringPostings::from_bytes(&bytes);
    assert!(matches!(
        res,
        Err(RoaringFormatError::ContainerError { .. })
    ));
}

#[test]
fn encoder_one_million_ids_stress() {
    let mut enc = RoaringEncoder::new();
    for id in 0u32..1_000_000 {
        enc.add(id);
    }
    let p = enc.finalize();
    assert_eq!(p.cardinality(), 1_000_000);
    // 1M / 64K = 15.26 → 16 buckets.
    assert_eq!(p.num_containers(), 16);
    // Round-trip the full thing.
    let bytes = p.to_bytes();
    let parsed = RoaringPostings::from_bytes(&bytes).unwrap();
    assert_eq!(parsed.cardinality(), 1_000_000);
}

#[test]
fn encoder_high16_spread() {
    let mut enc = RoaringEncoder::new();
    for high in 0u32..10 {
        enc.add(high << 16);
    }
    let p = enc.finalize();
    assert_eq!(p.cardinality(), 10);
    assert_eq!(p.num_containers(), 10);
}

#[test]
fn encoder_max_doc_id() {
    let mut enc = RoaringEncoder::new();
    enc.add(u32::MAX);
    let p = enc.finalize();
    assert_eq!(p.cardinality(), 1);
    let collected: Vec<u32> = p.iter().collect();
    assert_eq!(collected, vec![u32::MAX]);
}

#[test]
fn encoder_num_containers_query() {
    let mut enc = RoaringEncoder::new();
    enc.add(1);
    enc.add(70_000);
    assert_eq!(enc.num_containers(), 2);
}

#[test]
fn postings_from_bytes_then_iter() {
    let p = RoaringEncoder::from_doc_ids(&[1, 2, 100_000]);
    let bytes = p.to_bytes();
    let parsed = RoaringPostings::from_bytes(&bytes).unwrap();
    let collected: Vec<u32> = parsed.iter().collect();
    assert_eq!(collected, vec![1, 2, 100_000]);
}
