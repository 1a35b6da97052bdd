use roaring_postings::cht::{estimated_bytes, global, Cht, ChtKey, DEFAULT_CHT_BUDGET_BYTES};
use roaring_postings::container::{ArrayContainer, Container, ContainerError, Run, RunContainer};
use roaring_postings::decoder::RoaringDecoder;
use roaring_postings::encoder::{RoaringEncoder, RoaringPostings};
use roaring_postings::persist::{
    read_and_validate_file_header, read_and_validate_file_header_multi, read_chtkey,
    write_chtkey, write_file_header, ByteReader, LoadError, MAGIC_V1, MAGIC_V2, MAGIC_V3,
    MAGIC_V4,
};
use roaring_postings::planner::TermStat;
use roaring_postings::segment_id::SegmentId;
use roaring_postings::shared_bitmap_payload::SharedBitmapPayload;
use std::collections::BTreeSet;
use std::sync::Arc;

/// Fixed sequence of numbers that look random.
fn numbers(seed: u64, n: usize) -> Vec<u32> {
    let mut state = seed;
    (0..n)
        .map(|_| {
            state ^= state << 13;
            state ^= state >> 7;
            state ^= state << 17;
            (state >> 11) as u32
        })
        .collect()
}

fn array(keys: &[u16]) -> Container {
    Container::Array(ArrayContainer::from_sorted(keys.to_vec()))
}

fn runs(pairs: &[(u16, u16)]) -> RunContainer {
    RunContainer::from_runs(
        pairs
            .iter()
            .map(|(a, b)| Run::from_inclusive(*a, *b).unwrap())
            .collect(),
    )
    .unwrap()
}

#[test]
fn inclusive_runs() {
    assert!(Run::from_inclusive(5, 4).is_none());
    let one = Run::from_inclusive(5, 5).unwrap();
    assert_eq!((one.start, one.length), (5, 1));
    assert_eq!(one.cardinality(), 1);
    assert_eq!(one.end_inclusive(), 5);
    // The length of the full run does not fit 16 bits and is kept as zero.
    let full = Run::from_inclusive(0, 65535).unwrap();
    assert_eq!((full.start, full.length), (0, 0));
    assert_eq!(full.cardinality(), 65536);
    assert_eq!(full.end_inclusive(), 65535);
    assert!(full.contains(65535));
}

#[test]
fn runs_must_be_in_order_and_in_range() {
    let run = |start: u16, length: u16| Run { start, length };
    assert_eq!(
        RunContainer::from_runs(vec![run(10, 5), run(14, 1)]),
        Err(ContainerError::RunInvariantViolation)
    );
    assert_eq!(
        RunContainer::from_runs(vec![run(65535, 2)]),
        Err(ContainerError::RunInvariantViolation)
    );
    assert!(RunContainer::from_runs(vec![run(10, 5), run(15, 1)]).is_ok());
}

#[test]
fn intersection_of_runs_keeps_overlaps() {
    let a = Container::Run(runs(&[(0, 999), (2000, 2999), (5000, 65535)]));
    let b = Container::Run(runs(&[(500, 2499), (60000, 65535)]));
    let both = a.and(&b);
    if let Container::Run(r) = &both {
        let pairs: Vec<(u16, u32)> = r.runs.iter().map(|x| (x.start, x.end_inclusive())).collect();
        assert_eq!(pairs, vec![(500, 999), (2000, 2499), (60000, 65535)]);
    } else {
        panic!("three runs are smaller than a bitmap");
    }
    assert_eq!(both.cardinality(), 500 + 500 + 5536);
}

#[test]
fn set_operations_agree_over_all_forms() {
    let keys: Vec<u16> = (0..3000u16).map(|k| k * 7).collect();
    let dense: Vec<u16> = (0..30000u16).map(|k| k * 2).collect();
    let forms = [
        array(&keys),
        array(&dense).optimize(),
        Container::Run(runs(&[(100, 5000), (20000, 40000)])),
    ];
    for a in &forms {
        for b in &forms {
            let x: BTreeSet<u16> = a.iter().collect().into_iter().collect();
            let y: BTreeSet<u16> = b.iter().collect().into_iter().collect();
            let sorted = |s: BTreeSet<u16>| s.into_iter().collect::<Vec<u16>>();
            assert_eq!(
                a.and(b).iter().collect(),
                sorted(x.intersection(&y).copied().collect())
            );
            assert_eq!(a.or(b).iter().collect(), sorted(x.union(&y).copied().collect()));
            assert_eq!(
                a.xor(b).iter().collect(),
                sorted(x.symmetric_difference(&y).copied().collect())
            );
            let bytes = a.and(b).to_bytes();
            let (parsed, used) = Container::from_bytes(&bytes).unwrap();
            assert_eq!(used, bytes.len());
            assert_eq!(parsed, a.and(b));
        }
    }
}

#[test]
fn encoding_does_not_depend_on_the_order_of_ids() {
    let ids = numbers(3, 20_000);
    let mut sorted = ids.clone();
    sorted.sort();
    let mut backwards = RoaringEncoder::new();
    for id in sorted.iter().rev() {
        backwards.add(*id);
    }
    let a = RoaringEncoder::from_doc_ids(&ids).to_bytes();
    let b = backwards.finalize().to_bytes();
    assert_eq!(a, b);
    let back = RoaringPostings::from_bytes(&a).unwrap();
    sorted.dedup();
    assert_eq!(back.iter().collect(), sorted);
    assert_eq!(back.cardinality(), sorted.len() as u64);
}

#[test]
fn seeking_finds_the_first_id_at_or_after_the_target() {
    let mut ids = numbers(5, 5_000);
    ids.sort();
    ids.dedup();
    let list = RoaringEncoder::from_doc_ids(&ids);
    let mut decoder = RoaringDecoder::new(&list);
    for target in numbers(9, 500) {
        let expected = ids.iter().copied().find(|id| *id >= target);
        // A seek may go backwards.
        assert_eq!(decoder.seek(target), expected);
        if let Some(id) = expected {
            assert_eq!(decoder.doc(), id);
            assert_eq!(decoder.advance(), ids.iter().copied().find(|x| *x > id));
        }
    }
}

#[test]
fn ratio_gate_agrees_with_single_precision() {
    let gate = |doc_freq: u32, num_docs_in_segment: u32| {
        TermStat { doc_freq, num_docs_in_segment }.ratio_reaches_floor()
    };
    let float = |doc_freq: u32, num_docs: u32| {
        (f64::from(doc_freq) / f64::from(num_docs)).min(1.0) as f32 >= 0.05f32
    };
    assert!(!gate(100, 0));
    for num_docs in [1, 19, 20, 21, 999, 1_000_000, 2_000_001, 1 << 24, 400_000_019, u32::MAX] {
        let near = num_docs / 20;
        for doc_freq in near.saturating_sub(40)..=near.saturating_add(40) {
            assert_eq!(gate(doc_freq, num_docs), float(doc_freq, num_docs));
        }
    }
    for pair in numbers(17, 40_000).chunks(2) {
        let num_docs = pair[0].max(1);
        for doc_freq in [pair[1], num_docs / 20, num_docs / 20 + 1, num_docs / 19] {
            assert_eq!(gate(doc_freq, num_docs), float(doc_freq, num_docs));
        }
    }
}

#[test]
fn segment_ids_read_back_from_hex() {
    let id = SegmentId { value: 0x0123_4567_89ab_cdef_0011_2233_4455_66ff };
    let hex = id.uuid_hex();
    assert_eq!(hex, b"0123456789abcdef00112233445566ff".to_vec());
    assert_eq!(SegmentId::from_uuid_hex(&hex), Some(id));
    assert_eq!(SegmentId::from_uuid_hex(b"0123456789ABCDEF00112233445566FF"), Some(id));
    assert_eq!(SegmentId::from_uuid_hex(&hex[1..]), None);
    assert_eq!(SegmentId::from_uuid_hex(b"0123456789abcdef00112233445566fg"), None);
}

#[test]
fn headers_report_what_is_wrong_and_where_they_stopped() {
    let mut bytes = Vec::new();
    write_file_header(&mut bytes, MAGIC_V3, 9);
    let mut reader = ByteReader::new(&bytes);
    assert_eq!(
        read_and_validate_file_header_multi(&mut reader, &[MAGIC_V4, MAGIC_V3]),
        Ok((MAGIC_V3, 9))
    );
    assert_eq!(reader.remaining(), 0);
    let mut reader = ByteReader::new(&bytes);
    assert_eq!(
        read_and_validate_file_header(&mut reader, MAGIC_V2),
        Err(LoadError::WrongMagic { expected: MAGIC_V2, got: MAGIC_V3 })
    );
    assert_eq!(reader.remaining(), 20);
    let mut reader = ByteReader::new(&bytes);
    assert_eq!(
        read_and_validate_file_header_multi(&mut reader, &[MAGIC_V1, MAGIC_V2]),
        Err(LoadError::WrongMagic { expected: MAGIC_V1, got: MAGIC_V3 })
    );
    let mut reader = ByteReader::new(&bytes[..19]);
    assert_eq!(
        read_and_validate_file_header(&mut reader, MAGIC_V3),
        Err(LoadError::TruncatedDump { needed: 8 })
    );
    assert_eq!(reader.remaining(), 7);
}

#[test]
fn key_headers_take_44_bytes() {
    let key = ChtKey { segment_id: SegmentId { value: 77 }, field: 3, term_hash: u64::MAX };
    let mut bytes = Vec::new();
    write_chtkey(&mut bytes, &key);
    assert_eq!(bytes.len(), 44);
    assert_eq!(read_chtkey(&mut ByteReader::new(&bytes), 0), Ok(key));
    assert_eq!(
        read_chtkey(&mut ByteReader::new(&bytes[..40]), 0),
        Err(LoadError::TruncatedDump { needed: 8 })
    );
    bytes[31] = b'z';
    assert_eq!(
        read_chtkey(&mut ByteReader::new(&bytes), 6),
        Err(LoadError::InvalidSegmentId { entry_index: 6, detail: "malformed uuid hex" })
    );
    let fault = |front: &[u8]| -> Result<ChtKey, LoadError> {
        let mut bytes = vec![b'0'; 44];
        bytes[..front.len()].copy_from_slice(front);
        read_chtkey(&mut ByteReader::new(&bytes), 2)
    };
    let malformed = Err(LoadError::InvalidSegmentId {
        entry_index: 2,
        detail: "malformed uuid hex",
    });
    let non_utf8 = Err(LoadError::InvalidSegmentId {
        entry_index: 2,
        detail: "non-utf8 segment_id hex",
    });
    // Text of two, three and four bytes to a character is text, and no number.
    for text in ["g", "-", " ", "\u{e9}", "\u{20ac}", "\u{1d11e}", "\u{ffff}", "\u{10ffff}"] {
        assert_eq!(fault(text.as_bytes()), malformed, "{}", text);
    }
    // A lone continuation, a start without one, overlong forms, a surrogate, too large.
    let broken: [&[u8]; 9] = [
        &[0x80],
        &[0xff],
        &[0xc3, b'0'],
        &[0xc0, 0x80],
        &[0xe0, 0x80, 0x80],
        &[0xed, 0xa0, 0x80],
        &[0xf0, 0x80, 0x80, 0x80],
        &[0xf4, 0x90, 0x80, 0x80],
        &[0xe2, 0x82, b'0'],
    ];
    for bytes in broken {
        assert!(std::str::from_utf8(bytes).is_err());
        assert_eq!(fault(bytes), non_utf8, "{:?}", bytes);
    }
    // A character that the last of the 32 bytes cuts off.
    let mut cut = vec![b'0'; 32];
    cut[31] = 0xc3;
    assert_eq!(fault(&cut), non_utf8);
}

#[test]
fn footprint_estimates() {
    // Nothing but the list itself.
    assert_eq!(estimated_bytes(&RoaringPostings::default()), 24);
    // One array of three keys.
    let three = RoaringEncoder::from_doc_ids(&[1, 5, 9]);
    assert_eq!(estimated_bytes(&three), 24 + 8 + 2 * 3 + 16);
    // One run of a thousand keys.
    let run = RoaringEncoder::from_doc_ids(&(0..1000).collect::<Vec<u32>>());
    assert_eq!(estimated_bytes(&run), 24 + 8 + 1000 + 16);
    // One bitmap.
    let bitmap = RoaringEncoder::from_doc_ids(&(0..20_000).map(|i| 3 * i).collect::<Vec<u32>>());
    assert_eq!(estimated_bytes(&bitmap), 24 + 8 + 8192);
}

#[test]
fn host_tier_slot_is_filled_once_and_reset_keeps_the_budget() {
    let mut slot: Option<Cht> = None;
    global(&mut slot);
    let cht = slot.as_mut().unwrap();
    assert_eq!(cht.stats().budget_bytes, DEFAULT_CHT_BUDGET_BYTES);
    let key = ChtKey { segment_id: SegmentId { value: 1 }, field: 2, term_hash: 3 };
    cht.insert(key, Arc::new(RoaringEncoder::from_doc_ids(&[1])));
    global(&mut slot);
    let cht = slot.as_mut().unwrap();
    assert_eq!(cht.stats().entries, 1);
    cht.reset();
    assert_eq!(cht.stats().entries, 0);
    assert_eq!(cht.stats().current_bytes, 0);
    assert_eq!(cht.stats().inserts, 0);
    assert_eq!(cht.stats().budget_bytes, DEFAULT_CHT_BUDGET_BYTES);
}

#[test]
fn a_handle_outlives_its_entry() {
    let mut cht = Cht::with_budget(1 << 20);
    let key = ChtKey { segment_id: SegmentId { value: 1 }, field: 2, term_hash: 3 };
    cht.insert(key, Arc::new(RoaringEncoder::from_doc_ids(&[1, 70_000])));
    let list = cht.get(&key).unwrap();
    let again = cht.get(&key).unwrap();
    assert!(Arc::ptr_eq(&list, &again));
    cht.reset();
    assert_eq!(list.iter().collect(), vec![1, 70_000]);
}

#[test]
fn payloads_of_equal_lists_are_equal() {
    let ids: Vec<u32> = (0..70_000).map(|i| i * 5).collect();
    let encoded = RoaringEncoder::from_doc_ids(&ids);
    let parsed = RoaringPostings::from_bytes(&encoded.to_bytes()).unwrap();
    let p = SharedBitmapPayload::from_postings(&encoded).unwrap();
    let q = SharedBitmapPayload::from_postings(&parsed).unwrap();
    assert_eq!(p.bucket_index, q.bucket_index);
    assert_eq!(p.staging, q.staging);
    assert_eq!(p.total_words, 2048 * p.bucket_count);
}

#[test]
fn runs_win_against_a_full_array() {
    // 4096 keys in 2048 pairs: 8194 bytes of runs, 8196 bytes of keys.
    let keys: Vec<u16> = (0..2048u16).flat_map(|i| [4 * i, 4 * i + 1]).collect();
    let best = array(&keys).optimize();
    assert!(matches!(best, Container::Run(_)));
    assert_eq!(best.cardinality(), 4096);
    // One run more and the key list is the smaller one.
    let mut split = keys.clone();
    split[1] = 2;
    assert!(matches!(array(&split).optimize(), Container::Array(_)));
    // Beyond the threshold the alternative is a bitmap of 8192 bytes.
    let wide: Vec<u16> = (0..2048u16).flat_map(|i| [4 * i, 4 * i + 1, 4 * i + 2]).collect();
    assert!(matches!(array(&wide).optimize(), Container::Bitmap(_)));
    let narrow: Vec<u16> = (0..2047u16).flat_map(|i| [4 * i, 4 * i + 1, 4 * i + 2]).collect();
    assert!(matches!(array(&narrow).optimize(), Container::Run(_)));
}
