use roaring_postings::planner::{
    should_dispatch_gpu, TermStat, MIN_COHORT_DOCS, MIN_PER_TERM_CARDINALITY, MIN_RATIO_MANTISSA,
};

/// The ratio of documents with the term, clamped to one, in single precision.
fn field_doc_ratio(t: &TermStat) -> f32 {
    if t.num_docs_in_segment == 0 {
        return 0.0;
    }
    let ratio = f64::from(t.doc_freq) / f64::from(t.num_docs_in_segment);
    ratio.min(1.0) as f32
}

/// The ratio floor in single precision.
fn min_ratio() -> f32 {
    MIN_RATIO_MANTISSA as f32 / 268_435_456.0
}

fn ts(doc_freq: u32, num_docs_in_segment: u32) -> TermStat {
    TermStat {
        doc_freq,
        num_docs_in_segment,
    }
}

// ------------------------------------------------------------
// Boundary table for the dispatch threshold.
// ------------------------------------------------------------

#[test]
fn planner_empty_cohort_does_not_dispatch() {
    assert!(!should_dispatch_gpu(&[]));
}

#[test]
fn three_terms_hundred_doc_segment_stays_cpu() {
    // 3-term × 100-doc cohort → false (per-term floor: 100 << 100K).
    let terms = [ts(100, 100), ts(50, 100), ts(80, 100)];
    assert!(!should_dispatch_gpu(&terms));
}

#[test]
fn hundred_term_million_doc_high_cardinality_dispatches() {
    // 100-term × 1M-doc cohort with high cardinality → true.
    // doc_freq = 500 K > MIN_PER_TERM_CARDINALITY,
    // cohort total = 50 M > MIN_COHORT_DOCS,
    // ratio = 50 % > MIN_RATIO.
    let terms: Vec<TermStat> = (0..100).map(|_| ts(500_000, 1_000_000)).collect();
    assert!(should_dispatch_gpu(&terms));
}

#[test]
fn just_under_per_term_cardinality_stays_cpu() {
    // 100 terms × 99 999 doc_freq each → cohort total ~10 M (passes),
    // ratio ~10 % (passes), BUT every term is one below the per-term
    // floor → CPU.
    let terms: Vec<TermStat> = (0..100).map(|_| ts(99_999, 1_000_000)).collect();
    let cohort: u64 = terms.iter().map(|t| u64::from(t.doc_freq)).sum();
    assert!(cohort >= MIN_COHORT_DOCS, "cohort total should clear");
    assert!(!should_dispatch_gpu(&terms));
}

#[test]
fn just_at_per_term_cardinality_with_cohort_passes() {
    // Every term exactly at the per-term floor (= passes), small
    // cohort that just clears MIN_COHORT_DOCS.
    // 10 terms × 100 000 = 1 000 000 cohort total (= MIN_COHORT_DOCS).
    // num_docs = 1 000 000 → ratio = 10 % > 5 %.
    let terms: Vec<TermStat> = (0..10).map(|_| ts(100_000, 1_000_000)).collect();
    let cohort: u64 = terms.iter().map(|t| u64::from(t.doc_freq)).sum();
    assert_eq!(cohort, MIN_COHORT_DOCS);
    assert!(should_dispatch_gpu(&terms));
}

#[test]
fn cohort_total_just_below_min_stays_cpu() {
    // 9 terms × 100 000 = 900 000 cohort total (= MIN_COHORT_DOCS - 100 K).
    // Per-term floor passes; cohort gate rejects.
    let terms: Vec<TermStat> = (0..9).map(|_| ts(100_000, 1_000_000)).collect();
    assert!(!should_dispatch_gpu(&terms));
}

#[test]
fn just_under_five_percent_ratio_stays_cpu() {
    // Per-term and cohort gates pass, but ratio < 5 % → CPU.
    // 10 terms × 100 000 doc_freq, num_docs = 2 100 000 → 4.76 %.
    let terms: Vec<TermStat> = (0..10).map(|_| ts(100_000, 2_100_000)).collect();
    let max_ratio = terms
        .iter()
        .map(field_doc_ratio)
        .fold(0.0_f32, f32::max);
    assert!(max_ratio < min_ratio(), "expected ratio < 5 % for sanity, got {max_ratio}");
    assert!(!should_dispatch_gpu(&terms));
}

#[test]
fn at_five_percent_ratio_dispatches() {
    // Just at the 5 % ratio gate with all other gates passing.
    // 10 × 100 000 doc_freq / 2 000 000 = 5.0 %.
    let terms: Vec<TermStat> = (0..10).map(|_| ts(100_000, 2_000_000)).collect();
    let max_ratio = terms
        .iter()
        .map(field_doc_ratio)
        .fold(0.0_f32, f32::max);
    assert!((max_ratio - 0.05).abs() < 1e-4);
    assert!(should_dispatch_gpu(&terms));
}

// ------------------------------------------------------------
// Edge cases
// ------------------------------------------------------------

#[test]
fn single_high_cardinality_term_stays_cpu() {
    // Single stopword → per-term passes, cohort = 1 × 50 000 < 1 M → CPU.
    let terms = [ts(50_000, 60_000)];
    assert!(!should_dispatch_gpu(&terms));
}

#[test]
fn empty_segment_treated_as_zero_ratio() {
    // num_docs_in_segment = 0 → ratio clamped to 0 → CPU.
    // (Per-term + cohort gates pass on the inputs.)
    let terms: Vec<TermStat> = (0..20).map(|_| ts(100_000, 0)).collect();
    assert!(!should_dispatch_gpu(&terms));
}

#[test]
fn doc_freq_exceeding_segment_is_clamped() {
    // doc_freq > num_docs gets clamped to ratio = 1.0 (passes ratio).
    // Per-term + cohort gates pass on the inputs.
    let terms: Vec<TermStat> = (0..20).map(|_| ts(2_000_000, 1_000_000)).collect();
    assert!(should_dispatch_gpu(&terms));
}

#[test]
fn zero_frequency_term_in_cohort_disables_dispatch() {
    // Zero-freq term has doc_freq = 0 < MIN_PER_TERM_CARDINALITY →
    // per-term gate rejects regardless of the rest.
    let mut terms: Vec<TermStat> = (0..20).map(|_| ts(500_000, 1_000_000)).collect();
    terms.push(ts(0, 1_000_000));
    assert!(!should_dispatch_gpu(&terms));
}

#[test]
fn min_per_term_cardinality_constant_matches_design() {
    assert_eq!(MIN_PER_TERM_CARDINALITY, 100_000);
}

#[test]
fn min_cohort_docs_constant_matches_design() {
    assert_eq!(MIN_COHORT_DOCS, 1_000_000);
}

#[test]
fn min_ratio_constant_unchanged_from_wave6() {
    assert!((min_ratio() - 0.05).abs() < f32::EPSILON);
}

#[test]
fn estimated_containers_zero_frequency_returns_zero() {
    assert_eq!(ts(0, 1000).estimated_containers(), 0);
}

#[test]
fn estimated_containers_one_id_one_container() {
    assert_eq!(ts(1, 1000).estimated_containers(), 1);
}

#[test]
fn estimated_containers_exact_bucket_boundary() {
    assert_eq!(ts(65_536, 1_000_000).estimated_containers(), 1);
    assert_eq!(ts(65_537, 1_000_000).estimated_containers(), 2);
    assert_eq!(ts(131_072, 1_000_000).estimated_containers(), 2);
}

#[test]
fn field_doc_ratio_clamped_to_one() {
    let stat = ts(1_500_000, 1_000_000);
    assert!((field_doc_ratio(&stat) - 1.0).abs() < f32::EPSILON);
}

#[test]
fn field_doc_ratio_zero_segment() {
    let stat = ts(100, 0);
    assert!(field_doc_ratio(&stat).abs() < f32::EPSILON);
}
