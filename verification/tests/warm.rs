use roaring_postings::cht::{Cht, ChtKey, SegmentId};
use roaring_postings::from_block_segment::BlockSegmentPostings;
use roaring_postings::vram_cht_v3::{VramCompressedCht, VramCompressedChtError};
use roaring_postings::warm::{
    segment_warm_on_open, set_segment_warm_on_open, warm_segment_v3, WarmField, WarmToggle,
    MAX_WARMUP_TERMS_PER_FIELD,
};

const SEGMENT: SegmentId = SegmentId { value: 0x5e6 };

fn term_hash(term: &str) -> u64 {
    term.bytes().fold(17u64, |h, b| h.wrapping_mul(31).wrapping_add(b as u64))
}

/// A segment of one text field: its sorted terms, each with its documents.
fn segment(docs: &[&str]) -> (WarmField, Vec<Vec<u32>>) {
    let mut terms: Vec<&str> = docs.iter().flat_map(|d| d.split(' ')).collect();
    terms.sort();
    terms.dedup();
    let postings = terms
        .iter()
        .map(|t| {
            (0..docs.len() as u32)
                .filter(|&i| docs[i as usize].split(' ').any(|w| w == *t))
                .collect()
        })
        .collect();
    let field = WarmField {
        field_id: 0,
        indexed: true,
        json: false,
        term_hashes: Some(terms.iter().map(|t| term_hash(t)).collect()),
    };
    (field, postings)
}

/// Compressor that keeps the words of a chunk as they are and claims half the size.
fn halving(
    staging: &Vec<u32>,
    offset: usize,
    len: usize,
) -> Result<(Vec<u32>, usize), VramCompressedChtError> {
    Ok((staging[offset / 4..(offset + len) / 4].to_vec(), len / 2))
}

type Device = Option<VramCompressedCht<Vec<u32>>>;

#[test]
fn segment_warm_on_open_defaults_off() {
    let mut toggle = WarmToggle::new();
    assert!(!segment_warm_on_open(&toggle));
    set_segment_warm_on_open(&mut toggle, false);
    assert!(!segment_warm_on_open(&toggle));
}

#[test]
fn segment_warm_on_open_setter_round_trip() {
    let mut toggle = WarmToggle::new();
    set_segment_warm_on_open(&mut toggle, true);
    assert!(segment_warm_on_open(&toggle));
    set_segment_warm_on_open(&mut toggle, true); // idempotent
    assert!(segment_warm_on_open(&toggle));
    set_segment_warm_on_open(&mut toggle, false);
    assert!(!segment_warm_on_open(&toggle));
}

#[test]
fn warm_segment_v3_noop_when_disabled() {
    let mut toggle = WarmToggle::new();
    set_segment_warm_on_open(&mut toggle, false);
    let (field, postings) = segment(&["alpha beta gamma", "beta gamma delta"]);
    let mut cht = Cht::with_budget(1 << 30);
    let mut device: Device = Some(VramCompressedCht::with_budget(1 << 30, false));
    let stats_before = cht.stats();
    let read = |_f: usize, t: usize| Some(BlockSegmentPostings::new(vec![postings[t].clone()]));
    warm_segment_v3(&toggle, SEGMENT, &[field], &mut cht, &mut device, &read, &halving);
    let stats_after = cht.stats();
    assert_eq!(
        stats_before.inserts, stats_after.inserts,
        "warm_segment_v3 must not insert anything when toggle is off"
    );
    assert_eq!(
        stats_before.entries, stats_after.entries,
        "warm_segment_v3 must not grow the cache when toggle is off"
    );
    assert_eq!(device.unwrap().stats().entries, 0);
}

#[test]
fn warm_segment_v3_populates_v1_cache_when_enabled() {
    let mut toggle = WarmToggle::new();
    set_segment_warm_on_open(&mut toggle, true);
    // 5 distinct terms across 2 docs.
    let (field, postings) = segment(&["alpha beta gamma", "delta epsilon"]);
    let mut cht = Cht::with_budget(1 << 30);
    cht.reset();
    let mut device: Device = Some(VramCompressedCht::with_budget(1 << 30, false));
    let inserts_before = cht.stats().inserts;
    let read = |_f: usize, t: usize| Some(BlockSegmentPostings::new(vec![postings[t].clone()]));
    warm_segment_v3(&toggle, SEGMENT, &[field], &mut cht, &mut device, &read, &halving);
    let inserts_after = cht.stats().inserts;
    assert!(
        inserts_after >= inserts_before + 5,
        "warm_segment_v3 must insert at least 5 distinct terms; before={} after={}",
        inserts_before,
        inserts_after,
    );
    let key = ChtKey { segment_id: SEGMENT, field: 0, term_hash: term_hash("delta") };
    assert_eq!(cht.get(&key).unwrap().iter().collect(), vec![1]);
    let mut device = device.unwrap();
    assert_eq!(device.stats().promotions, 5);
    assert!(device.get(&key).is_some());
}

#[test]
fn warming_twice_inserts_once() {
    let mut toggle = WarmToggle::new();
    set_segment_warm_on_open(&mut toggle, true);
    let (field, postings) = segment(&["alpha beta", "beta gamma"]);
    let fields = [field];
    let mut cht = Cht::with_budget(1 << 30);
    let mut device: Device = None;
    let read = |_f: usize, t: usize| Some(BlockSegmentPostings::new(vec![postings[t].clone()]));
    warm_segment_v3(&toggle, SEGMENT, &fields, &mut cht, &mut device, &read, &halving);
    warm_segment_v3(&toggle, SEGMENT, &fields, &mut cht, &mut device, &read, &halving);
    assert_eq!(cht.stats().inserts, 3);
    assert_eq!(cht.stats().hits, 3);
}

#[test]
fn warming_skips_what_is_not_eligible() {
    let mut toggle = WarmToggle::new();
    set_segment_warm_on_open(&mut toggle, true);
    let field = |field_id: u32, indexed: bool, json: bool, readable: bool| WarmField {
        field_id,
        indexed,
        json,
        term_hashes: if readable { Some(vec![7]) } else { None },
    };
    let fields = [
        field(0, false, false, true),
        field(1, true, true, true),
        field(2, true, false, false),
        field(3, true, false, true),
    ];
    let mut cht = Cht::with_budget(1 << 30);
    let mut device: Device = None;
    let read = |_f: usize, _t: usize| Some(BlockSegmentPostings::new(vec![vec![5]]));
    warm_segment_v3(&toggle, SEGMENT, &fields, &mut cht, &mut device, &read, &halving);
    assert_eq!(cht.stats().inserts, 1);
    assert!(cht.get(&ChtKey { segment_id: SEGMENT, field: 3, term_hash: 7 }).is_some());
}

#[test]
fn warming_stops_at_the_limit_and_passes_over_failures() {
    let mut toggle = WarmToggle::new();
    set_segment_warm_on_open(&mut toggle, true);
    let terms = MAX_WARMUP_TERMS_PER_FIELD as u64 + 200;
    let field = WarmField {
        field_id: 0,
        indexed: true,
        json: false,
        term_hashes: Some((0..terms).collect()),
    };
    let mut cht = Cht::with_budget(1 << 30);
    let mut device: Device = None;
    // Every hundredth cursor cannot be opened.
    let read = |_f: usize, t: usize| {
        if t % 100 == 0 {
            None
        } else {
            Some(BlockSegmentPostings::new(vec![vec![t as u32]]))
        }
    };
    warm_segment_v3(&toggle, SEGMENT, &[field], &mut cht, &mut device, &read, &halving);
    assert_eq!(cht.stats().inserts, MAX_WARMUP_TERMS_PER_FIELD as u64);
    let key = |term_hash: u64| ChtKey { segment_id: SEGMENT, field: 0, term_hash };
    assert!(cht.get(&key(1)).is_some());
    assert!(cht.get(&key(100)).is_none());
    assert!(cht.get(&key(terms - 1)).is_none());
}

#[test]
fn warmup_per_field_limit_is_nonzero_and_bounded() {
    assert!(
        MAX_WARMUP_TERMS_PER_FIELD > 0,
        "MAX_WARMUP_TERMS_PER_FIELD must be > 0; an accidental zero would disable warming for \
         every field with terms"
    );
    assert!(
        MAX_WARMUP_TERMS_PER_FIELD <= 1_000_000,
        "MAX_WARMUP_TERMS_PER_FIELD is too large; segment open latency would balloon on wide \
         term spaces"
    );
}
