use roaring_postings::encoder::{RoaringEncoder, RoaringPostings};
use roaring_postings::flat::BoolOp;
use roaring_postings::gpu_dispatch::{
    cpu_fallback_count, decode_flat, flat_buffer_for_term, gpu_dispatch_count,
    record_cpu_fallback, reset_dispatch_counters, try_gpu_bool, union_high16_keys,
    DispatchCounters,
};
use std::collections::BTreeSet;

/// Kernel that works on the host.
fn host_kernel(op: BoolOp, a: &Vec<u32>, b: &Vec<u32>) -> Option<Vec<u32>> {
    Some(
        a.iter()
            .zip(b.iter())
            .map(|(x, y)| match op {
                BoolOp::And => x & y,
                BoolOp::Or => x | y,
                BoolOp::Xor => x ^ y,
            })
            .collect(),
    )
}

/// Kernel that always fails.
fn broken_kernel(_op: BoolOp, _a: &Vec<u32>, _b: &Vec<u32>) -> Option<Vec<u32>> {
    None
}

type Kernel = fn(BoolOp, &Vec<u32>, &Vec<u32>) -> Option<Vec<u32>>;

fn cohort(step: u32) -> Vec<RoaringPostings> {
    (0..12)
        .map(|i| {
            let start = i as u32 * step;
            let ids: Vec<u32> = (start..start + 100_000).collect();
            RoaringEncoder::from_doc_ids(&ids)
        })
        .collect()
}

#[test]
fn boolop_variants_compile() {
    let ops = [BoolOp::And, BoolOp::Or, BoolOp::Xor];
    assert_eq!(ops.len(), 3);
}

#[test]
fn light_query_does_not_dispatch() {
    // 3-term cohort with tiny posting lists: the planner says CPU.
    let mut counters = DispatchCounters::new();
    reset_dispatch_counters(&mut counters);
    let p1 = RoaringEncoder::from_doc_ids(&[1, 2, 3]);
    let p2 = RoaringEncoder::from_doc_ids(&[2, 3, 4]);
    let p3 = RoaringEncoder::from_doc_ids(&[3, 4, 5]);
    let terms: [&RoaringPostings; 3] = [&p1, &p2, &p3];
    let res = try_gpu_bool(
        &mut counters,
        BoolOp::And,
        &terms,
        1_000_000,
        Some(host_kernel),
    );
    assert!(res.is_none(), "light query should not dispatch to GPU");
    assert_eq!(gpu_dispatch_count(&counters), 0, "no GPU dispatch on light query");
    assert!(cpu_fallback_count(&counters) >= 1, "CPU fallback must be observable");
}

#[test]
fn gpu_dispatch_empty_cohort_does_not_dispatch() {
    let mut counters = DispatchCounters::new();
    reset_dispatch_counters(&mut counters);
    let res = try_gpu_bool(&mut counters, BoolOp::And, &[], 1_000_000, Some(host_kernel));
    assert!(res.is_none());
    assert_eq!(gpu_dispatch_count(&counters), 0);
}

#[test]
fn single_term_does_not_dispatch() {
    let mut counters = DispatchCounters::new();
    reset_dispatch_counters(&mut counters);
    let p1 = RoaringEncoder::from_doc_ids(&[1, 2, 3]);
    let res = try_gpu_bool(
        &mut counters,
        BoolOp::And,
        &[&p1],
        1_000_000,
        Some(host_kernel),
    );
    assert!(res.is_none());
    assert_eq!(gpu_dispatch_count(&counters), 0);
}

#[test]
fn heavy_cohort_dispatches_to_gpu() {
    let mut counters = DispatchCounters::new();
    reset_dispatch_counters(&mut counters);
    // Each term has 100_000 ids, the per-term floor; the cohort has 1.2 M ids in
    // total; the ratio is 10 %. All three conditions hold.
    let terms_owned = cohort(10);
    let term_refs: Vec<&RoaringPostings> = terms_owned.iter().collect();
    let res = try_gpu_bool(
        &mut counters,
        BoolOp::And,
        &term_refs,
        1_000_000,
        Some(host_kernel),
    );
    if res.is_some() {
        assert_eq!(gpu_dispatch_count(&counters), 1, "GPU path should bump the counter");
    } else {
        panic!("the cohort clears the planner and the kernel works");
    }
}

#[test]
fn gpu_resources_caches_init() {
    let mut counters = DispatchCounters::new();
    reset_dispatch_counters(&mut counters);
    let kernel: Option<Kernel> = Some(host_kernel);
    let cohort_a = cohort(10);
    let refs_a: Vec<&RoaringPostings> = cohort_a.iter().collect();
    let res_a = try_gpu_bool(&mut counters, BoolOp::And, &refs_a, 1_000_000, kernel);
    assert!(res_a.is_some());
    // The kernel of the first call serves the second one too.
    let cohort_b = cohort(10);
    let refs_b: Vec<&RoaringPostings> = cohort_b.iter().collect();
    let res_b = try_gpu_bool(&mut counters, BoolOp::And, &refs_b, 1_000_000, kernel);
    assert!(res_b.is_some(), "second call must succeed via cache");
    assert_eq!(
        gpu_dispatch_count(&counters),
        2,
        "two heavy-cohort dispatches should both bump the counter"
    );
}

#[test]
fn gpu_and_matches_cpu_oracle() {
    let mut counters = DispatchCounters::new();
    reset_dispatch_counters(&mut counters);
    let terms_owned = cohort(100);
    let term_refs: Vec<&RoaringPostings> = terms_owned.iter().collect();
    let gpu_res = try_gpu_bool(
        &mut counters,
        BoolOp::And,
        &term_refs,
        1_000_000,
        Some(host_kernel),
    );
    let gpu_out = gpu_res.unwrap();
    // CPU oracle: intersection of every term.
    let mut acc: BTreeSet<u32> = terms_owned[0].iter().collect().into_iter().collect();
    for t in &terms_owned[1..] {
        let next: BTreeSet<u32> = t.iter().collect().into_iter().collect();
        acc = acc.intersection(&next).copied().collect();
    }
    let expected: Vec<u32> = acc.into_iter().collect();
    let actual: Vec<u32> = gpu_out.iter().collect();
    assert_eq!(actual, expected, "GPU AND output must equal CPU oracle");
}

#[test]
fn xor_and_or_match_set_operations() {
    let terms_owned = cohort(7_000);
    let term_refs: Vec<&RoaringPostings> = terms_owned.iter().collect();
    for op in [BoolOp::Or, BoolOp::Xor] {
        let mut counters = DispatchCounters::new();
        let out = try_gpu_bool(&mut counters, op, &term_refs, 1_000_000, Some(host_kernel)).unwrap();
        let mut acc: BTreeSet<u32> = terms_owned[0].iter().collect().into_iter().collect();
        for t in &terms_owned[1..] {
            let next: BTreeSet<u32> = t.iter().collect().into_iter().collect();
            acc = match op {
                BoolOp::Or => acc.union(&next).copied().collect(),
                _ => acc.symmetric_difference(&next).copied().collect(),
            };
        }
        let expected: Vec<u32> = acc.into_iter().collect();
        assert_eq!(out.iter().collect(), expected);
        // The result is canonical: encoding its documents anew gives the same bytes.
        assert_eq!(
            out.to_bytes(),
            RoaringEncoder::from_doc_ids(&expected).to_bytes()
        );
    }
}

#[test]
fn missing_or_failing_kernel_falls_back() {
    let terms_owned = cohort(10);
    let term_refs: Vec<&RoaringPostings> = terms_owned.iter().collect();
    let mut counters = DispatchCounters::new();
    let none: Option<Kernel> = None;
    assert!(try_gpu_bool(&mut counters, BoolOp::And, &term_refs, 1_000_000, none).is_none());
    assert!(try_gpu_bool(
        &mut counters,
        BoolOp::And,
        &term_refs,
        1_000_000,
        Some(broken_kernel)
    )
    .is_none());
    assert_eq!(cpu_fallback_count(&counters), 2);
    assert_eq!(gpu_dispatch_count(&counters), 0);
    record_cpu_fallback(&mut counters);
    assert_eq!(cpu_fallback_count(&counters), 3);
    reset_dispatch_counters(&mut counters);
    assert_eq!(cpu_fallback_count(&counters), 0);
}

#[test]
fn flat_buffers_align_on_the_union_of_buckets() {
    let a = RoaringEncoder::from_doc_ids(&[1, 65_536 * 3 + 5]);
    let b = RoaringEncoder::from_doc_ids(&[65_536 + 7]);
    let keys = union_high16_keys(&[&a, &b]);
    assert_eq!(keys, vec![0, 1, 3]);
    let flat = flat_buffer_for_term(&a, &keys);
    assert_eq!(flat.len(), 3 * 2048);
    assert_eq!(flat[0], 1 << 1);
    assert_eq!(flat[2048], 0);
    assert_eq!(flat[2 * 2048], 1 << 5);
    assert_eq!(decode_flat(&keys, &flat).iter().collect(), vec![1, 65_536 * 3 + 5]);
}
