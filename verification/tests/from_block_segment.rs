use roaring_postings::container::Container;
use roaring_postings::from_block_segment::{drain_block_segment_to_roaring, BlockSegmentPostings};
use roaring_postings::postings::RoaringPostings;

/// A cursor over `docs` in blocks of 128.
fn build_block_postings(docs: &[u32]) -> BlockSegmentPostings {
    BlockSegmentPostings::new(docs.chunks(128).map(|block| block.to_vec()).collect())
}

#[test]
fn drain_empty_cursor_yields_empty_roaring() {
    let mut cursor = BlockSegmentPostings::empty();
    let p = drain_block_segment_to_roaring(&mut cursor);
    assert_eq!(p.cardinality(), 0);
    assert_eq!(p.num_containers(), 0);
}

#[test]
fn drain_single_block_round_trip() {
    // 100 doc-ids, all in the same Roaring bucket (high16 = 0).
    let docs: Vec<u32> = (0..100).collect();
    let mut cursor = build_block_postings(&docs);
    let p = drain_block_segment_to_roaring(&mut cursor);
    assert_eq!(p.cardinality(), 100);
    let collected: Vec<u32> = p.iter().collect();
    assert_eq!(collected, docs);
}

#[test]
fn drain_multi_block_round_trip() {
    // 1300 ids — > 10 blocks (128 docs/block), still all in
    // bucket high16 = 0.
    let docs: Vec<u32> = (0..1300).collect();
    let mut cursor = build_block_postings(&docs);
    let p = drain_block_segment_to_roaring(&mut cursor);
    assert_eq!(p.cardinality(), 1300);
    let collected: Vec<u32> = p.iter().collect();
    assert_eq!(collected, docs);
}

#[test]
fn drain_dense_step_seven_round_trip() {
    // 0..100_000 in steps of seven, drained through the cursor: the documents come out
    // in the same order.
    let docs: Vec<u32> = (0..100_000).step_by(7).collect();
    assert!(docs.len() > 14_000); // sanity
    let mut cursor = build_block_postings(&docs);
    let p = drain_block_segment_to_roaring(&mut cursor);
    assert_eq!(p.cardinality() as usize, docs.len());
    let collected: Vec<u32> = p.iter().collect();
    assert_eq!(collected, docs);
    // All in high16 = 0 + high16 = 1 (since 65 536 < 100 000).
    assert!(p.num_containers() >= 2);
}

#[test]
fn drain_cross_bucket_optimizes_to_run() {
    // 0..200 000 contiguous → 4 buckets, each one densely packed
    // → optimize() should collapse to RunContainer in each.
    let docs: Vec<u32> = (0..200_000).collect();
    let mut cursor = build_block_postings(&docs);
    let p = drain_block_segment_to_roaring(&mut cursor);
    assert_eq!(p.cardinality(), 200_000);
    assert_eq!(p.num_containers(), 4); // 200_000 / 65_536 = 3.05
    for (_, c) in &p.containers {
        assert!(matches!(c, Container::Run(_)), "expected Run container");
    }
}

#[test]
fn drain_then_round_trip_through_wire_format() {
    // Ensure drained output round-trips through the wire format —
    // catches any encoder state forgotten between drain and
    // serialise.
    let docs: Vec<u32> = (0..500).step_by(3).collect();
    let mut cursor = build_block_postings(&docs);
    let p = drain_block_segment_to_roaring(&mut cursor);
    let bytes = p.to_bytes();
    let parsed = RoaringPostings::from_bytes(&bytes).unwrap();
    let collected: Vec<u32> = parsed.iter().collect();
    assert_eq!(collected, docs);
}

#[test]
fn drain_advances_cursor_past_end() {
    let docs: Vec<u32> = (0..200).collect();
    let mut cursor = build_block_postings(&docs);
    let _p = drain_block_segment_to_roaring(&mut cursor);
    // Cursor should now be at terminated state.
    assert!(cursor.docs().is_empty());
}

#[test]
fn cursor_shows_its_blocks_in_order() {
    let mut cursor = BlockSegmentPostings::new(vec![vec![1, 5], vec![9]]);
    assert_eq!(cursor.docs(), &[1, 5]);
    cursor.advance();
    assert_eq!(cursor.docs(), &[9]);
    cursor.advance();
    assert!(cursor.docs().is_empty());
    cursor.advance();
    assert!(cursor.docs().is_empty());
}

#[test]
fn drain_starts_at_the_current_block() {
    let mut cursor = BlockSegmentPostings::new(vec![vec![1, 5], vec![9, 70_000]]);
    cursor.advance();
    let p = drain_block_segment_to_roaring(&mut cursor);
    assert_eq!(p.iter().collect(), vec![9, 70_000]);
}
