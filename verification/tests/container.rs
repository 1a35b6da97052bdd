use roaring_postings::container::{
    count_runs_in_array, count_runs_in_bitmap, ArrayContainer, BitmapContainer, Container,
    ContainerError, Run, RunContainer, ARRAY_TO_BITMAP_THRESHOLD, TAG_ARRAY,
};
use roaring_postings::BITMAP_CONTAINER_WORDS;

// -------- ArrayContainer --------

#[test]
fn array_new_is_empty() {
    let a = ArrayContainer::new();
    assert_eq!(a.cardinality(), 0);
    assert!(a.iter().next().is_none());
}

#[test]
fn array_insert_keeps_sorted() {
    let mut a = ArrayContainer::new();
    for k in [5u16, 1, 3, 9, 2] {
        a.insert(k);
    }
    assert_eq!(a.keys, vec![1, 2, 3, 5, 9]);
}

#[test]
fn array_insert_dedupes() {
    let mut a = ArrayContainer::new();
    a.insert(7);
    a.insert(7);
    a.insert(7);
    assert_eq!(a.cardinality(), 1);
}

#[test]
fn array_contains() {
    let a = ArrayContainer::from_sorted(vec![10, 20, 30, 40]);
    assert!(a.contains(20));
    assert!(!a.contains(25));
    assert!(a.contains(40));
    assert!(!a.contains(0));
}

#[test]
fn array_from_sorted_strict() {
    let a = ArrayContainer::from_sorted(vec![1, 2, 3]);
    assert_eq!(a.keys, vec![1, 2, 3]);
}

#[test]
fn array_from_sorted_recovers_invariant() {
    // Release-build path: even non-monotonic input is canonicalised.
    // Debug build asserts; we skip the assertion in tests by passing
    // sorted input then.
    let a = ArrayContainer::from_sorted(vec![1, 3, 5]);
    assert_eq!(a.keys, vec![1, 3, 5]);
}

#[test]
fn array_iter_in_order() {
    let a = ArrayContainer::from_sorted(vec![1, 5, 9, 100]);
    let collected: Vec<u16> = a.iter().collect();
    assert_eq!(collected, vec![1, 5, 9, 100]);
}

#[test]
fn array_and_simple() {
    let a = ArrayContainer::from_sorted(vec![1, 3, 5, 7, 9]);
    let b = ArrayContainer::from_sorted(vec![2, 3, 5, 8]);
    let r = a.and(&b);
    assert_eq!(r.keys, vec![3, 5]);
}

#[test]
fn array_and_disjoint() {
    let a = ArrayContainer::from_sorted(vec![1, 2, 3]);
    let b = ArrayContainer::from_sorted(vec![10, 20, 30]);
    let r = a.and(&b);
    assert!(r.keys.is_empty());
}

#[test]
fn array_and_galloping_path() {
    // Asymmetric: small=[10], large=[0..1000].
    let a = ArrayContainer::from_sorted(vec![500]);
    let large_keys: Vec<u16> = (0..1000).collect();
    let b = ArrayContainer::from_sorted(large_keys);
    let r = a.and(&b);
    assert_eq!(r.keys, vec![500]);
}

#[test]
fn array_or_simple() {
    let a = ArrayContainer::from_sorted(vec![1, 3, 5]);
    let b = ArrayContainer::from_sorted(vec![2, 4, 5]);
    match a.or(&b) {
        Container::Array(r) => assert_eq!(r.keys, vec![1, 2, 3, 4, 5]),
        _ => panic!("expected array"),
    }
}

#[test]
fn array_or_promotes_to_bitmap() {
    // Build two arrays whose union exceeds the threshold.
    let a_keys: Vec<u16> = (0..3000).collect();
    let b_keys: Vec<u16> = (3000..6000).collect();
    let a = ArrayContainer::from_sorted(a_keys);
    let b = ArrayContainer::from_sorted(b_keys);
    match a.or(&b) {
        Container::Bitmap(bm) => assert_eq!(bm.cardinality(), 6000),
        _ => panic!("expected promotion to bitmap"),
    }
}

#[test]
fn array_xor_disjoint() {
    let a = ArrayContainer::from_sorted(vec![1, 3, 5]);
    let b = ArrayContainer::from_sorted(vec![2, 4]);
    match a.xor(&b) {
        Container::Array(r) => assert_eq!(r.keys, vec![1, 2, 3, 4, 5]),
        _ => panic!("expected array"),
    }
}

#[test]
fn array_xor_overlap() {
    let a = ArrayContainer::from_sorted(vec![1, 2, 3, 4]);
    let b = ArrayContainer::from_sorted(vec![3, 4, 5, 6]);
    match a.xor(&b) {
        Container::Array(r) => assert_eq!(r.keys, vec![1, 2, 5, 6]),
        _ => panic!("expected array"),
    }
}

#[test]
fn array_xor_promotes_to_bitmap() {
    let a_keys: Vec<u16> = (0..3000).collect();
    let b_keys: Vec<u16> = (3000..7000).collect();
    let a = ArrayContainer::from_sorted(a_keys);
    let b = ArrayContainer::from_sorted(b_keys);
    match a.xor(&b) {
        Container::Bitmap(_) => {}
        _ => panic!("expected promotion"),
    }
}

#[test]
fn array_serde_round_trip_empty() {
    let a = ArrayContainer::new();
    let bytes = a.to_bytes();
    assert_eq!(bytes, vec![0, 0, 0, 0]);
    let parsed = ArrayContainer::from_bytes(&bytes).unwrap();
    assert_eq!(parsed, a);
}

#[test]
fn array_serde_round_trip_typical() {
    let a = ArrayContainer::from_sorted(vec![1, 100, 1000, 10000, 60000]);
    let bytes = a.to_bytes();
    let parsed = ArrayContainer::from_bytes(&bytes).unwrap();
    assert_eq!(parsed, a);
}

#[test]
fn array_serde_truncated_header() {
    let bytes = [1u8, 2, 3];
    let res = ArrayContainer::from_bytes(&bytes);
    assert!(matches!(res, Err(ContainerError::Truncated { .. })));
}

#[test]
fn array_serde_truncated_body() {
    let mut bytes = vec![0u8; 4];
    bytes[0] = 5; // claim 5 keys, no body
    let res = ArrayContainer::from_bytes(&bytes);
    assert!(matches!(res, Err(ContainerError::Truncated { .. })));
}

#[test]
fn array_serde_unsorted_rejected() {
    let mut bytes = vec![3u8, 0, 0, 0]; // 3 keys
    bytes.extend_from_slice(&5u16.to_le_bytes());
    bytes.extend_from_slice(&3u16.to_le_bytes());
    bytes.extend_from_slice(&7u16.to_le_bytes());
    let res = ArrayContainer::from_bytes(&bytes);
    assert!(matches!(res, Err(ContainerError::ArrayUnsorted)));
}

#[test]
fn array_at_threshold_cardinality() {
    let keys: Vec<u16> = (0..ARRAY_TO_BITMAP_THRESHOLD as u16).collect();
    let a = ArrayContainer::from_sorted(keys);
    assert_eq!(a.cardinality(), ARRAY_TO_BITMAP_THRESHOLD);
}

// -------- BitmapContainer --------

#[test]
fn bitmap_new_is_empty() {
    let b = BitmapContainer::new();
    assert_eq!(b.cardinality(), 0);
    assert!(b.iter().next().is_none());
}

#[test]
fn bitmap_insert_contains() {
    let mut b = BitmapContainer::new();
    b.insert(0);
    b.insert(31);
    b.insert(32);
    b.insert(65535);
    assert!(b.contains(0));
    assert!(b.contains(31));
    assert!(b.contains(32));
    assert!(b.contains(65535));
    assert!(!b.contains(1));
    assert_eq!(b.cardinality(), 4);
}

#[test]
fn bitmap_remove() {
    let mut b = BitmapContainer::new();
    b.insert(100);
    assert!(b.contains(100));
    b.remove(100);
    assert!(!b.contains(100));
}

#[test]
fn bitmap_full_cardinality() {
    let mut b = BitmapContainer::new();
    for k in 0u32..=65535 {
        b.insert(k as u16);
    }
    assert_eq!(b.cardinality(), 65536);
}

#[test]
fn bitmap_from_array() {
    let a = ArrayContainer::from_sorted(vec![1, 100, 65535]);
    let bm = BitmapContainer::from_array(&a);
    assert!(bm.contains(1));
    assert!(bm.contains(100));
    assert!(bm.contains(65535));
    assert_eq!(bm.cardinality(), 3);
}

#[test]
fn bitmap_iter_order() {
    let mut b = BitmapContainer::new();
    for k in [65535u16, 0, 32, 100, 1024] {
        b.insert(k);
    }
    let collected: Vec<u16> = b.iter().collect();
    assert_eq!(collected, vec![0, 32, 100, 1024, 65535]);
}

#[test]
fn bitmap_and_dense() {
    let mut a = BitmapContainer::new();
    let mut b = BitmapContainer::new();
    for k in 0u16..10000 {
        a.insert(k);
    }
    for k in 5000u16..15000 {
        b.insert(k);
    }
    match a.and(&b) {
        Container::Bitmap(r) => assert_eq!(r.cardinality(), 5000),
        Container::Array(_) => panic!("expected bitmap"),
        _ => panic!("unexpected"),
    }
}

#[test]
fn bitmap_and_demotes_to_array() {
    let mut a = BitmapContainer::new();
    let mut b = BitmapContainer::new();
    for k in 0u16..10000 {
        a.insert(k);
    }
    for k in 9990u16..12000 {
        b.insert(k);
    }
    match a.and(&b) {
        Container::Array(r) => assert_eq!(r.cardinality(), 10),
        Container::Bitmap(_) => panic!("expected array"),
        _ => panic!("unexpected"),
    }
}

#[test]
fn bitmap_or_dense() {
    let mut a = BitmapContainer::new();
    let mut b = BitmapContainer::new();
    for k in 0u16..5000 {
        a.insert(k);
    }
    for k in 5000u16..10000 {
        b.insert(k);
    }
    let r = a.or(&b);
    assert_eq!(r.cardinality(), 10000);
}

#[test]
fn bitmap_xor_dense() {
    let mut a = BitmapContainer::new();
    let mut b = BitmapContainer::new();
    for k in 0u16..10000 {
        a.insert(k);
    }
    for k in 5000u16..15000 {
        b.insert(k);
    }
    match a.xor(&b) {
        Container::Bitmap(r) => assert_eq!(r.cardinality(), 10000),
        _ => panic!("expected bitmap"),
    }
}

#[test]
fn bitmap_xor_demotes_to_array() {
    let mut a = BitmapContainer::new();
    let mut b = BitmapContainer::new();
    // a has 0..6000, b has 0..6000 except missing 5 spots
    for k in 0u16..6000 {
        a.insert(k);
    }
    for k in 0u16..6000 {
        if !matches!(k, 100 | 200 | 300 | 400 | 500) {
            b.insert(k);
        }
    }
    match a.xor(&b) {
        Container::Array(r) => assert_eq!(r.cardinality(), 5),
        _ => panic!("expected array"),
    }
}

#[test]
fn bitmap_serde_round_trip() {
    let mut b = BitmapContainer::new();
    for k in [0u16, 1, 100, 10000, 65535] {
        b.insert(k);
    }
    let bytes = b.to_bytes();
    assert_eq!(bytes.len(), BITMAP_CONTAINER_WORDS * 4);
    let parsed = BitmapContainer::from_bytes(&bytes).unwrap();
    assert_eq!(parsed, b);
}

#[test]
fn bitmap_serde_truncated() {
    let bytes = vec![0u8; 100];
    let res = BitmapContainer::from_bytes(&bytes);
    assert!(matches!(res, Err(ContainerError::Truncated { .. })));
}

#[test]
fn bitmap_word_boundaries() {
    let mut b = BitmapContainer::new();
    // Bits at every word boundary
    for w in 0..BITMAP_CONTAINER_WORDS {
        b.insert((w as u16) * 32);
    }
    assert_eq!(b.cardinality(), BITMAP_CONTAINER_WORDS as u32);
}

// -------- RunContainer --------

#[test]
fn run_new_is_empty() {
    let r = RunContainer::new();
    assert_eq!(r.cardinality(), 0);
    assert!(r.iter().next().is_none());
}

#[test]
fn run_from_runs_valid() {
    let r = RunContainer::from_runs(vec![
        Run {
            start: 0,
            length: 5,
        },
        Run {
            start: 100,
            length: 10,
        },
    ])
    .unwrap();
    assert_eq!(r.cardinality(), 15);
}

#[test]
fn run_from_runs_overlap_rejected() {
    let res = RunContainer::from_runs(vec![
        Run {
            start: 0,
            length: 10,
        },
        Run {
            start: 5,
            length: 5,
        },
    ]);
    assert!(matches!(res, Err(ContainerError::RunInvariantViolation)));
}

#[test]
fn run_contains() {
    let r = RunContainer::from_runs(vec![
        Run {
            start: 100,
            length: 5,
        }, // 100..=104
        Run {
            start: 200,
            length: 3,
        }, // 200..=202
    ])
    .unwrap();
    assert!(r.contains(100));
    assert!(r.contains(104));
    assert!(!r.contains(105));
    assert!(r.contains(200));
    assert!(r.contains(202));
    assert!(!r.contains(203));
    assert!(!r.contains(50));
}

#[test]
fn run_iter() {
    let r = RunContainer::from_runs(vec![
        Run {
            start: 0,
            length: 3,
        },
        Run {
            start: 100,
            length: 2,
        },
    ])
    .unwrap();
    let collected: Vec<u16> = r.iter().collect();
    assert_eq!(collected, vec![0, 1, 2, 100, 101]);
}

#[test]
fn run_and_overlap() {
    let a = RunContainer::from_runs(vec![Run {
        start: 0,
        length: 100,
    }])
    .unwrap();
    let b = RunContainer::from_runs(vec![Run {
        start: 50,
        length: 100,
    }])
    .unwrap();
    let result = a.and(&b);
    assert_eq!(result.cardinality(), 50);
}

#[test]
fn run_and_no_overlap() {
    let a = RunContainer::from_runs(vec![Run {
        start: 0,
        length: 50,
    }])
    .unwrap();
    let b = RunContainer::from_runs(vec![Run {
        start: 100,
        length: 50,
    }])
    .unwrap();
    let result = a.and(&b);
    assert_eq!(result.cardinality(), 0);
}

#[test]
fn run_or_merge_touching() {
    let a = RunContainer::from_runs(vec![Run {
        start: 0,
        length: 5,
    }])
    .unwrap();
    // Touching: [0..4] ∪ [5..9]
    let b = RunContainer::from_runs(vec![Run {
        start: 5,
        length: 5,
    }])
    .unwrap();
    let result = a.or(&b);
    assert_eq!(result.cardinality(), 10);
}

#[test]
fn run_or_disjoint() {
    let a = RunContainer::from_runs(vec![Run {
        start: 0,
        length: 5,
    }])
    .unwrap();
    let b = RunContainer::from_runs(vec![Run {
        start: 100,
        length: 5,
    }])
    .unwrap();
    let result = a.or(&b);
    assert_eq!(result.cardinality(), 10);
}

#[test]
fn run_xor_overlap() {
    let a = RunContainer::from_runs(vec![Run {
        start: 0,
        length: 100,
    }])
    .unwrap();
    let b = RunContainer::from_runs(vec![Run {
        start: 50,
        length: 100,
    }])
    .unwrap();
    let result = a.xor(&b);
    assert_eq!(result.cardinality(), 100);
}

#[test]
fn run_from_array_contiguous() {
    let a = ArrayContainer::from_sorted(vec![10, 11, 12, 13, 100, 101]);
    let r = RunContainer::from_array(&a);
    assert_eq!(r.runs.len(), 2);
    assert_eq!(r.cardinality(), 6);
}

#[test]
fn run_from_bitmap_contiguous() {
    let mut bm = BitmapContainer::new();
    for k in 100u16..200 {
        bm.insert(k);
    }
    for k in 1000u16..2000 {
        bm.insert(k);
    }
    let r = RunContainer::from_bitmap(&bm);
    assert_eq!(r.runs.len(), 2);
    assert_eq!(r.cardinality(), 1100);
}

#[test]
fn run_serde_round_trip() {
    let r = RunContainer::from_runs(vec![
        Run {
            start: 0,
            length: 100,
        },
        Run {
            start: 5000,
            length: 200,
        },
        Run {
            start: 60000,
            length: 1000,
        },
    ])
    .unwrap();
    let bytes = r.to_bytes();
    let parsed = RunContainer::from_bytes(&bytes).unwrap();
    assert_eq!(parsed, r);
}

#[test]
fn run_serde_full_bucket_sentinel() {
    // length=0 means "full bucket" (cardinality 65536). Encoded
    // as wire 0xFFFF.
    let r = RunContainer::from_runs(vec![Run {
        start: 0,
        length: 0,
    }])
    .unwrap();
    assert_eq!(r.cardinality(), 65536);
    let bytes = r.to_bytes();
    let parsed = RunContainer::from_bytes(&bytes).unwrap();
    assert_eq!(parsed.cardinality(), 65536);
}

#[test]
fn run_serde_truncated() {
    let bytes = [0u8];
    let res = RunContainer::from_bytes(&bytes);
    assert!(matches!(res, Err(ContainerError::Truncated { .. })));
}

// -------- Container enum (top-level) --------

fn array_of(keys: Vec<u16>) -> Container {
    Container::Array(ArrayContainer::from_sorted(keys))
}

fn bitmap_of_range(start: u16, end_exclusive: u32) -> Container {
    let mut b = BitmapContainer::new();
    for k in u32::from(start)..end_exclusive {
        b.insert(k as u16);
    }
    Container::Bitmap(b)
}

fn run_of(runs: Vec<(u16, u16)>) -> Container {
    let mut rs: Vec<Run> = Vec::new();
    for (start, length) in runs {
        rs.push(Run { start, length });
    }
    Container::Run(RunContainer::from_runs(rs).unwrap())
}

#[test]
fn dispatch_and_array_array() {
    let a = array_of(vec![1, 3, 5]);
    let b = array_of(vec![3, 4, 5]);
    let r = a.and(&b);
    assert_eq!(r.cardinality(), 2);
}

#[test]
fn dispatch_and_bitmap_bitmap() {
    let a = bitmap_of_range(0, 10000);
    let b = bitmap_of_range(5000, 15000);
    let r = a.and(&b);
    assert_eq!(r.cardinality(), 5000);
}

#[test]
fn dispatch_and_run_run() {
    let a = run_of(vec![(0, 100)]);
    let b = run_of(vec![(50, 100)]);
    let r = a.and(&b);
    assert_eq!(r.cardinality(), 50);
}

#[test]
fn dispatch_and_array_bitmap() {
    let a = array_of(vec![10, 20, 30, 40]);
    let b = bitmap_of_range(15, 35);
    let r = a.and(&b);
    assert_eq!(r.cardinality(), 2); // 20, 30
}

#[test]
fn dispatch_and_bitmap_array() {
    let a = bitmap_of_range(15, 35);
    let b = array_of(vec![10, 20, 30, 40]);
    let r = a.and(&b);
    assert_eq!(r.cardinality(), 2);
}

#[test]
fn dispatch_and_array_run() {
    let a = array_of(vec![5, 50, 150]);
    let b = run_of(vec![(0, 100)]);
    let r = a.and(&b);
    assert_eq!(r.cardinality(), 2); // 5, 50
}

#[test]
fn dispatch_and_run_array() {
    let a = run_of(vec![(0, 100)]);
    let b = array_of(vec![5, 50, 150]);
    let r = a.and(&b);
    assert_eq!(r.cardinality(), 2);
}

#[test]
fn dispatch_and_bitmap_run() {
    let a = bitmap_of_range(0, 1000);
    let b = run_of(vec![(500, 1000)]);
    let r = a.and(&b);
    assert_eq!(r.cardinality(), 500);
}

#[test]
fn dispatch_and_run_bitmap() {
    let a = run_of(vec![(500, 1000)]);
    let b = bitmap_of_range(0, 1000);
    let r = a.and(&b);
    assert_eq!(r.cardinality(), 500);
}

#[test]
fn dispatch_or_array_array() {
    let a = array_of(vec![1, 3]);
    let b = array_of(vec![2, 3]);
    let r = a.or(&b);
    assert_eq!(r.cardinality(), 3);
}

#[test]
fn dispatch_or_bitmap_bitmap() {
    let a = bitmap_of_range(0, 1000);
    let b = bitmap_of_range(500, 2000);
    let r = a.or(&b);
    assert_eq!(r.cardinality(), 2000);
}

#[test]
fn dispatch_or_run_run() {
    let a = run_of(vec![(0, 100)]);
    let b = run_of(vec![(50, 100)]);
    let r = a.or(&b);
    assert_eq!(r.cardinality(), 150);
}

#[test]
fn dispatch_or_array_bitmap() {
    let a = array_of(vec![10000, 20000]);
    let b = bitmap_of_range(0, 1000);
    let r = a.or(&b);
    assert_eq!(r.cardinality(), 1002);
}

#[test]
fn dispatch_or_array_run() {
    let a = array_of(vec![10000, 20000]);
    let b = run_of(vec![(0, 1000)]);
    let r = a.or(&b);
    assert_eq!(r.cardinality(), 1002);
}

#[test]
fn dispatch_or_bitmap_run() {
    let a = bitmap_of_range(0, 1000);
    let b = run_of(vec![(500, 1000)]);
    let r = a.or(&b);
    assert_eq!(r.cardinality(), 1500);
}

#[test]
fn dispatch_xor_array_array() {
    let a = array_of(vec![1, 2, 3]);
    let b = array_of(vec![2, 3, 4]);
    let r = a.xor(&b);
    assert_eq!(r.cardinality(), 2); // 1, 4
}

#[test]
fn dispatch_xor_bitmap_bitmap() {
    let a = bitmap_of_range(0, 5000);
    let b = bitmap_of_range(2500, 7500);
    let r = a.xor(&b);
    assert_eq!(r.cardinality(), 5000);
}

#[test]
fn dispatch_xor_run_run() {
    let a = run_of(vec![(0, 100)]);
    let b = run_of(vec![(50, 100)]);
    let r = a.xor(&b);
    assert_eq!(r.cardinality(), 100);
}

#[test]
fn dispatch_xor_array_bitmap() {
    let a = array_of(vec![5, 10, 15]);
    let b = bitmap_of_range(10, 20);
    let r = a.xor(&b);
    // 5, 11..19, but symmetric diff: a_only=5, b_only=11..14,16..19,
    // both=10,15 (drop). So result = {5, 11, 12, 13, 14, 16, 17, 18, 19} = 9
    assert_eq!(r.cardinality(), 9);
}

#[test]
fn dispatch_xor_bitmap_run() {
    let a = bitmap_of_range(0, 100);
    let b = run_of(vec![(50, 100)]);
    let r = a.xor(&b);
    // 0..49 from a only, 100..149 from b only. 50..99 in both.
    assert_eq!(r.cardinality(), 100);
}

#[test]
fn dispatch_optimize_array_to_bitmap_when_dense() {
    let keys: Vec<u16> = (0..5000).collect();
    let a = array_of(keys);
    // a is Array but cardinality > threshold; optimize → Bitmap
    // (unless the run-density wins — in this case the array is
    // 0..4999 so it's a single run = 6 bytes vs 8 KiB bitmap vs
    // 4 + 10000 array. Run wins.)
    let optimized = a.optimize();
    match optimized {
        Container::Run(r) => assert_eq!(r.runs.len(), 1),
        other => panic!("expected run, got {other:?}"),
    }
}

#[test]
fn dispatch_optimize_keeps_array_when_sparse() {
    let a = array_of(vec![1, 100, 1000, 10000]);
    match a.optimize() {
        Container::Array(_) => {}
        other => panic!("expected array, got {other:?}"),
    }
}

#[test]
fn dispatch_optimize_promotes_bitmap_to_run_when_dense_runs() {
    let bm = bitmap_of_range(0, 10000);
    match bm.optimize() {
        Container::Run(r) => assert_eq!(r.runs.len(), 1),
        other => panic!("expected run, got {other:?}"),
    }
}

#[test]
fn container_serde_round_trip_array() {
    let c = array_of(vec![1, 100, 1000]);
    let bytes = c.to_bytes();
    let (parsed, n) = Container::from_bytes(&bytes).unwrap();
    assert_eq!(n, bytes.len());
    assert_eq!(parsed.cardinality(), c.cardinality());
}

#[test]
fn container_serde_round_trip_bitmap() {
    let c = bitmap_of_range(0, 10000);
    let bytes = c.to_bytes();
    let (parsed, n) = Container::from_bytes(&bytes).unwrap();
    assert_eq!(n, bytes.len());
    assert_eq!(parsed.cardinality(), c.cardinality());
}

#[test]
fn container_serde_round_trip_run() {
    let c = run_of(vec![(0, 1000), (5000, 500), (60000, 100)]);
    let bytes = c.to_bytes();
    let (parsed, n) = Container::from_bytes(&bytes).unwrap();
    assert_eq!(n, bytes.len());
    assert_eq!(parsed.cardinality(), c.cardinality());
}

#[test]
fn container_serde_unknown_tag() {
    let bytes = [0xAA, 0, 0, 0, 0];
    let res = Container::from_bytes(&bytes);
    assert!(matches!(res, Err(ContainerError::UnknownTag(0xAA))));
}

#[test]
fn container_serde_truncated_array() {
    let bytes = [TAG_ARRAY, 1, 0]; // tag + partial header
    let res = Container::from_bytes(&bytes);
    assert!(matches!(res, Err(ContainerError::Truncated { .. })));
}

#[test]
fn container_iter_array() {
    let c = array_of(vec![1, 2, 3]);
    let collected: Vec<u16> = c.iter().collect();
    assert_eq!(collected, vec![1, 2, 3]);
}

#[test]
fn container_iter_bitmap() {
    let c = bitmap_of_range(100, 105);
    let collected: Vec<u16> = c.iter().collect();
    assert_eq!(collected, vec![100, 101, 102, 103, 104]);
}

#[test]
fn container_iter_run() {
    let c = run_of(vec![(0, 3)]);
    let collected: Vec<u16> = c.iter().collect();
    assert_eq!(collected, vec![0, 1, 2]);
}

#[test]
fn container_contains_dispatch() {
    let a = array_of(vec![1, 5]);
    let b = bitmap_of_range(10, 15);
    let r = run_of(vec![(20, 5)]);
    assert!(a.contains(5));
    assert!(b.contains(12));
    assert!(r.contains(22));
    assert!(!a.contains(2));
    assert!(!b.contains(15));
    assert!(!r.contains(30));
}

#[test]
fn run_count_helpers() {
    let arr = ArrayContainer::from_sorted(vec![1, 2, 3, 10, 11]);
    assert_eq!(count_runs_in_array(&arr), 2);
    let mut bm = BitmapContainer::new();
    for k in 100u16..150 {
        bm.insert(k);
    }
    for k in 200u16..210 {
        bm.insert(k);
    }
    assert_eq!(count_runs_in_bitmap(&bm), 2);
}
