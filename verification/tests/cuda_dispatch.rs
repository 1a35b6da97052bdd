use roaring_postings::bitmap::BitmapContainer;
use roaring_postings::cht::{ChtKey, SegmentId};
use roaring_postings::container::Container;
use roaring_postings::cuda_dispatch::{
    index_in_range, CudaBitmapError, CudaBitmapOpKernel, FoldPlan, INITIAL_CAPACITY_WORDS,
};
use roaring_postings::device_plan::{DeviceAction, DeviceSlot, DeviceStep};
use roaring_postings::encoder::{RoaringEncoder, RoaringPostings};
use roaring_postings::flat::BoolOp;
use roaring_postings::gpu_dispatch::{flat_buffer_for_term, union_high16_keys};
use roaring_postings::vram_cht::{VramCht, VramChtError, VramTermEntry};
use roaring_postings::vram_cht_v3::{
    VramCompressedCht, VramCompressedChtError, VramCompressedTermEntry, BUCKETS_PER_CHUNK,
};
use roaring_postings::BITMAP_CONTAINER_WORDS;
use std::sync::Arc;

fn pseudo_random(seed: u64, len: usize) -> Vec<u32> {
    let mut s = seed.max(1);
    let mut out = Vec::with_capacity(len);
    for _ in 0..len {
        s ^= s << 13;
        s ^= s >> 7;
        s ^= s << 17;
        out.push((s & 0xffff_ffff) as u32);
    }
    out
}

/// Words that a fresh allocation holds.
const JUNK: u32 = 0xdead_beef;

/// A device on the host: carries out plans step by step, and panics where a step
/// leaves its buffers.
struct Device {
    kernel: CudaBitmapOpKernel,
    a: Vec<u32>,
    b: Vec<u32>,
    out: Vec<u32>,
    bench: Vec<u32>,
    host: Vec<u32>,
}

impl Device {
    fn new() -> Self {
        Device {
            kernel: CudaBitmapOpKernel::new(true),
            a: vec![JUNK; INITIAL_CAPACITY_WORDS],
            b: vec![JUNK; INITIAL_CAPACITY_WORDS],
            out: vec![JUNK; INITIAL_CAPACITY_WORDS],
            bench: Vec::new(),
            host: Vec::new(),
        }
    }

    fn slot(&mut self, slot: DeviceSlot) -> &mut Vec<u32> {
        match slot {
            DeviceSlot::A => &mut self.a,
            DeviceSlot::B => &mut self.b,
            DeviceSlot::Out => &mut self.out,
        }
    }

    fn step(&mut self, step: &DeviceStep, hosts: &[&[u32]], buffers: &[&[u32]]) {
        match step.action {
            DeviceAction::Reserve { .. } | DeviceAction::Sync => {}
            DeviceAction::Install { words } => {
                self.a = vec![JUNK; words];
                self.b = vec![JUNK; words];
                self.out = vec![JUNK; words];
            }
            DeviceAction::GrowBench { bytes } => self.bench = vec![JUNK; bytes / 4],
            DeviceAction::Upload { dst, term, words } => {
                self.slot(dst)[..words].copy_from_slice(&hosts[term][..words])
            }
            DeviceAction::Zero { dst, words } => self.slot(dst)[..words].fill(0),
            DeviceAction::CopyBucket { dst, dst_word, term, src_word } => self.slot(dst)
                [dst_word..dst_word + 2048]
                .copy_from_slice(&buffers[term][src_word..src_word + 2048]),
            DeviceAction::CopyBench { dst, dst_word, src_word } => {
                let bucket = self.bench[src_word..src_word + 2048].to_vec();
                self.slot(dst)[dst_word..dst_word + 2048].copy_from_slice(&bucket)
            }
            DeviceAction::Compute { op, words } => {
                for i in 0..words {
                    self.out[i] = match op {
                        BoolOp::And => self.a[i] & self.b[i],
                        BoolOp::Or => self.a[i] | self.b[i],
                        BoolOp::Xor => self.a[i] ^ self.b[i],
                    }
                }
            }
            DeviceAction::Swap => std::mem::swap(&mut self.a, &mut self.out),
            DeviceAction::Download { src, words } => self.host = self.slot(src)[..words].to_vec(),
            DeviceAction::HostZero { words } => self.host = vec![0; words],
            DeviceAction::GatherBucket { dst_word, term, src_word } => self.host
                [dst_word..dst_word + 2048]
                .copy_from_slice(&buffers[term][src_word..src_word + 2048]),
            DeviceAction::GatherBench { dst_word, src_word } => self.host
                [dst_word..dst_word + 2048]
                .copy_from_slice(&self.bench[src_word..src_word + 2048]),
        }
        self.kernel.completed(step);
    }

    fn run(
        &mut self,
        plan: FoldPlan,
        hosts: &[&[u32]],
        buffers: &[&[u32]],
        chunks: &[&VramCompressedTermEntry<Vec<u32>>],
    ) -> Result<Vec<u32>, CudaBitmapError> {
        match plan {
            FoldPlan::Done(words) => Ok(words),
            FoldPlan::Fault { steps, what } => {
                for step in &steps {
                    self.step(step, hosts, buffers);
                }
                Err(CudaBitmapError::Cuda { what, code: 0 })
            }
            FoldPlan::Run { grow, batch, steps } => {
                for step in &grow {
                    self.step(step, hosts, buffers);
                }
                for slot in &batch {
                    let words = &chunks[slot.term].chunks()[slot.chunk].d_compressed;
                    let at = slot.byte_offset / 4;
                    self.bench[at..at + words.len()].copy_from_slice(words);
                }
                for step in &steps {
                    self.step(step, hosts, buffers);
                }
                Ok(self.host.clone())
            }
        }
    }

    fn compute(&mut self, op: BoolOp, a: &[u32], b: &[u32]) -> Result<Vec<u32>, CudaBitmapError> {
        let plan = self.kernel.compute(op, a, b)?;
        self.run(plan, &[a, b], &[], &[])
    }

    fn compute_fold(
        &mut self,
        op: BoolOp,
        terms: &[&[u32]],
    ) -> Result<Vec<u32>, CudaBitmapError> {
        let plan = self.kernel.compute_fold(op, terms)?;
        self.run(plan, terms, &[], &[])
    }

    fn compute_fold_vram(
        &mut self,
        op: BoolOp,
        terms: &[Arc<VramTermEntry<Vec<u32>>>],
        union_keys: &[u16],
    ) -> Result<Vec<u32>, CudaBitmapError> {
        let plan = self.kernel.compute_fold_vram(op, terms, union_keys)?;
        let buffers: Vec<&[u32]> = terms.iter().map(|t| t.device_ptr().as_slice()).collect();
        self.run(plan, &[], &buffers, &[])
    }

    fn compute_fold_v3(
        &mut self,
        op: BoolOp,
        terms: &[Arc<VramCompressedTermEntry<Vec<u32>>>],
        union_keys: &[u16],
    ) -> Result<Vec<u32>, CudaBitmapError> {
        assert!(terms.iter().all(|t| index_in_range(t.bucket_index())));
        let plan = self.kernel.compute_fold_v3(op, terms, union_keys)?;
        let chunks: Vec<&VramCompressedTermEntry<Vec<u32>>> =
            terms.iter().map(|t| t.as_ref()).collect();
        self.run(plan, &[], &[], &chunks)
    }
}

fn upload(words: &Vec<u32>) -> Result<Vec<u32>, VramChtError> {
    Ok(words.clone())
}

/// Compressor that keeps the words of a chunk as they are.
fn compress(
    staging: &Vec<u32>,
    offset: usize,
    len: usize,
) -> Result<(Vec<u32>, usize), VramCompressedChtError> {
    Ok((staging[offset / 4..(offset + len) / 4].to_vec(), len))
}

fn plain_cache(budget: u64) -> VramCht<Vec<u32>> {
    VramCht::with_budget(budget, false)
}

fn packed_cache(budget: u64) -> VramCompressedCht<Vec<u32>> {
    VramCompressedCht::with_budget(budget, false)
}

#[test]
fn length_mismatch_is_caught_before_dispatch() {
    let mut kernel = Device::new();
    let a = vec![0u32; 10];
    let b = vec![0u32; 11];
    let res = kernel.compute(BoolOp::And, &a, &b);
    assert!(matches!(
        res,
        Err(CudaBitmapError::LenMismatch { a: 10, b: 11 })
    ));
}

#[test]
fn empty_input_returns_empty_output_without_dispatch() {
    let mut kernel = Device::new();
    let res = kernel.compute(BoolOp::And, &[], &[]).unwrap();
    assert!(res.is_empty());
}

#[test]
fn cuda_and_matches_cpu_oracle_small() {
    let mut kernel = Device::new();
    let a = pseudo_random(0x1234_5678, 2048);
    let b = pseudo_random(0x8765_4321, 2048);
    let got = kernel.compute(BoolOp::And, &a, &b).unwrap();
    let expected: Vec<u32> = a.iter().zip(b.iter()).map(|(x, y)| x & y).collect();
    assert_eq!(got, expected);
}

#[test]
fn cuda_or_xor_match_cpu_oracle() {
    let mut kernel = Device::new();
    let a = pseudo_random(7, 2048);
    let b = pseudo_random(11, 2048);
    let got_or = kernel.compute(BoolOp::Or, &a, &b).unwrap();
    let want_or: Vec<u32> = a.iter().zip(b.iter()).map(|(x, y)| x | y).collect();
    assert_eq!(got_or, want_or);
    let got_xor = kernel.compute(BoolOp::Xor, &a, &b).unwrap();
    let want_xor: Vec<u32> = a.iter().zip(b.iter()).map(|(x, y)| x ^ y).collect();
    assert_eq!(got_xor, want_xor);
}

#[test]
fn buffer_growth_on_oversize_cohort() {
    let mut kernel = Device::new();
    let oversize = INITIAL_CAPACITY_WORDS * 4; // 4× initial = 98 304 words
    let a = pseudo_random(1, oversize);
    let b = pseudo_random(2, oversize);
    let got = kernel.compute(BoolOp::And, &a, &b).unwrap();
    assert_eq!(got.len(), oversize);
    let expected: Vec<u32> = a.iter().zip(b.iter()).map(|(x, y)| x & y).collect();
    assert_eq!(got, expected);
    let mid = INITIAL_CAPACITY_WORDS * 2;
    let a2 = pseudo_random(3, mid);
    let b2 = pseudo_random(4, mid);
    let got2 = kernel.compute(BoolOp::Xor, &a2, &b2).unwrap();
    assert_eq!(got2.len(), mid);
}

#[test]
fn fold_empty_returns_empty() {
    let mut kernel = Device::new();
    let res = kernel.compute_fold(BoolOp::And, &[]).unwrap();
    assert!(res.is_empty());
}

#[test]
fn fold_single_term_round_trips_input() {
    let mut kernel = Device::new();
    let term = pseudo_random(99, 2048);
    let got = kernel.compute_fold(BoolOp::And, &[&term]).unwrap();
    assert_eq!(got, term);
}

#[test]
fn fold_matches_sequential_compute_oracle() {
    let mut kernel = Device::new();
    let t0 = pseudo_random(1, 2048);
    let t1 = pseudo_random(2, 2048);
    let t2 = pseudo_random(3, 2048);
    let terms: [&[u32]; 3] = [&t0, &t1, &t2];
    let step0 = kernel.compute(BoolOp::And, &t0, &t1).unwrap();
    let oracle = kernel.compute(BoolOp::And, &step0, &t2).unwrap();
    let got = kernel.compute_fold(BoolOp::And, &terms).unwrap();
    assert_eq!(got, oracle, "AND fold must match sequential compute");

    let or_step0 = kernel.compute(BoolOp::Or, &t0, &t1).unwrap();
    let or_oracle = kernel.compute(BoolOp::Or, &or_step0, &t2).unwrap();
    let or_got = kernel.compute_fold(BoolOp::Or, &terms).unwrap();
    assert_eq!(or_got, or_oracle, "OR fold must match sequential compute");

    let xor_step0 = kernel.compute(BoolOp::Xor, &t0, &t1).unwrap();
    let xor_oracle = kernel.compute(BoolOp::Xor, &xor_step0, &t2).unwrap();
    let xor_got = kernel.compute_fold(BoolOp::Xor, &terms).unwrap();
    assert_eq!(xor_got, xor_oracle, "XOR fold must match sequential compute");
}

#[test]
fn fold_length_mismatch_caught_pre_dispatch() {
    let mut kernel = Device::new();
    let t0 = vec![0u32; 10];
    let t1 = vec![0u32; 11]; // mismatched
    let terms: [&[u32]; 2] = [&t0, &t1];
    let res = kernel.compute_fold(BoolOp::And, &terms);
    assert!(matches!(
        res,
        Err(CudaBitmapError::LenMismatch { a: 10, b: 11 })
    ));
}

#[test]
fn fold_mega_cohort_correctness_on_smaller_proxy() {
    let mut kernel = Device::new();
    let owned: Vec<Vec<u32>> = (0..12)
        .map(|i| pseudo_random(0xfeed + i as u64, 1024))
        .collect();
    let terms: Vec<&[u32]> = owned.iter().map(|v| v.as_slice()).collect();
    let got = kernel.compute_fold(BoolOp::And, &terms).unwrap();
    let mut want = owned[0].clone();
    for term in &owned[1..] {
        for (w, t) in want.iter_mut().zip(term.iter()) {
            *w &= *t;
        }
    }
    assert_eq!(got, want, "12-term AND fold must match host oracle");
}

#[test]
fn debug_format_does_not_panic() {
    let kernel = Device::new();
    let dbg = format!("{:?}", kernel.kernel);
    assert!(dbg.contains("CudaBitmapOpKernel"));
    assert!(dbg.contains("capacity_words"));
}


/// An entry for `rp` from a cache of the uncompressed tier.
fn vram_term_entry(
    rp: &RoaringPostings,
    cache: &mut VramCht<Vec<u32>>,
    term_hash: u64,
) -> Arc<VramTermEntry<Vec<u32>>> {
    let key = ChtKey { segment_id: SegmentId { value: 7 }, field: 0, term_hash };
    assert!(cache.insert(key, rp, &upload).unwrap());
    cache.get(&key).unwrap()
}

#[test]
fn vram_fold_empty_returns_empty() {
    let mut kernel = Device::new();
    let union_keys: [u16; 1] = [0];
    let res = kernel
        .compute_fold_vram(BoolOp::And, &[], &union_keys)
        .unwrap();
    assert!(res.is_empty());
}

#[test]
fn vram_fold_empty_union_returns_empty() {
    let mut kernel = Device::new();
    let mut cache = plain_cache(64 * 1024 * 1024);
    let rp = RoaringEncoder::from_doc_ids(&[1, 2, 3]);
    let t1 = vram_term_entry(&rp, &mut cache, 0xa1);
    let t2 = vram_term_entry(&rp, &mut cache, 0xa2);
    let res = kernel
        .compute_fold_vram(BoolOp::And, &[t1, t2], &[])
        .unwrap();
    assert!(res.is_empty());
}

#[test]
fn vram_fold_single_term_round_trips_layout() {
    let mut kernel = Device::new();
    let mut cache = plain_cache(64 * 1024 * 1024);
    let docs: Vec<u32> = (0..3).chain(std::iter::once(65540)).collect();
    let rp = RoaringEncoder::from_doc_ids(&docs);
    let term = vram_term_entry(&rp, &mut cache, 0xfeed);
    let union_keys: [u16; 2] = [0, 1];
    let got = kernel
        .compute_fold_vram(BoolOp::And, &[term], &union_keys)
        .unwrap();
    let mut expected = vec![0u32; union_keys.len() * BITMAP_CONTAINER_WORDS];
    for (high16, container) in &rp.containers {
        if container.cardinality() == 0 {
            continue;
        }
        let Ok(idx) = union_keys.binary_search(high16) else {
            continue;
        };
        let start = idx * BITMAP_CONTAINER_WORDS;
        let end = start + BITMAP_CONTAINER_WORDS;
        match container {
            Container::Bitmap(bm) => {
                expected[start..end].copy_from_slice(bm.words.as_ref());
            }
            Container::Array(arr) => {
                let bm = BitmapContainer::from_array(arr);
                expected[start..end].copy_from_slice(bm.words.as_ref());
            }
            Container::Run(rc) => {
                let bm = BitmapContainer::from_run(rc);
                expected[start..end].copy_from_slice(bm.words.as_ref());
            }
        }
    }
    assert_eq!(got, expected);
}

#[test]
fn vram_fold_matches_compute_fold_oracle() {
    let mut kernel = Device::new();
    let mut cache = plain_cache(64 * 1024 * 1024);
    let t0 = RoaringEncoder::from_doc_ids(&[
        1, 2, 3, 65540, 65541,
    ]);
    let t1 = RoaringEncoder::from_doc_ids(&[
        2, 3, 4, 65541, 65542,
    ]);
    let t2 = RoaringEncoder::from_doc_ids(&[
        3, 4, 5, 65540, 65541,
    ]);
    let v0 = vram_term_entry(&t0, &mut cache, 0xa1);
    let v1 = vram_term_entry(&t1, &mut cache, 0xa2);
    let v2 = vram_term_entry(&t2, &mut cache, 0xa3);

    let term_refs: Vec<&RoaringPostings> = vec![&t0, &t1, &t2];
    let union_keys =
        union_high16_keys(
            &term_refs,
        );

    let host_bufs: Vec<Vec<u32>> = term_refs
        .iter()
        .map(|t| {
            flat_buffer_for_term(
                t,
                &union_keys,
            )
        })
        .collect();
    let host_refs: Vec<&[u32]> = host_bufs.iter().map(|v| v.as_slice()).collect();
    let oracle = kernel.compute_fold(BoolOp::And, &host_refs).unwrap();

    let vram_terms = vec![v0, v1, v2];
    let got = kernel
        .compute_fold_vram(BoolOp::And, &vram_terms, &union_keys)
        .unwrap();

    assert_eq!(
        got, oracle,
        "VRAM fold result must equal host-fold oracle byte-for-byte"
    );
}

#[test]
fn vram_fold_or_xor_match_oracle() {
    let mut kernel = Device::new();
    let mut cache = plain_cache(64 * 1024 * 1024);
    let t0 = RoaringEncoder::from_doc_ids(&[1, 2, 3]);
    let t1 = RoaringEncoder::from_doc_ids(&[3, 4, 5]);
    let v0 = vram_term_entry(&t0, &mut cache, 0xb1);
    let v1 = vram_term_entry(&t1, &mut cache, 0xb2);
    let term_refs: Vec<&RoaringPostings> = vec![&t0, &t1];
    let union_keys =
        union_high16_keys(
            &term_refs,
        );

    for op in [BoolOp::Or, BoolOp::Xor] {
        let host_bufs: Vec<Vec<u32>> = term_refs
            .iter()
            .map(|t| {
                flat_buffer_for_term(
                    t,
                    &union_keys,
                )
            })
            .collect();
        let host_refs: Vec<&[u32]> = host_bufs.iter().map(|v| v.as_slice()).collect();
        let oracle = kernel.compute_fold(op, &host_refs).unwrap();
        let got = kernel
            .compute_fold_vram(op, &vec![Arc::clone(&v0), Arc::clone(&v1)], &union_keys)
            .unwrap();
        assert_eq!(got, oracle, "{op:?} VRAM fold must match host oracle");
    }
}

/// An entry for `rp` from a cache of the compressed tier.
fn vram_v3_term_entry(
    rp: &RoaringPostings,
    cache: &mut VramCompressedCht<Vec<u32>>,
    term_hash: u64,
) -> Arc<VramCompressedTermEntry<Vec<u32>>> {
    let key = ChtKey { segment_id: SegmentId { value: 7 }, field: 0, term_hash };
    assert!(cache.insert(key, rp, &compress).unwrap());
    cache.get(&key).unwrap()
}

#[test]
fn v3_fold_empty_returns_empty() {
    let mut kernel = Device::new();
    let union_keys: [u16; 1] = [0];
    let res = kernel
        .compute_fold_v3(BoolOp::And, &[], &union_keys)
        .unwrap();
    assert!(res.is_empty());
}

#[test]
fn v3_fold_matches_v2_fold_oracle() {
    let mut kernel = Device::new();
    let mut cache_v2 = plain_cache(64 * 1024 * 1024);
    let mut cache_v3 = packed_cache(
            64 * 1024 * 1024,
        );
    let t0 = RoaringEncoder::from_doc_ids(&[
        1, 2, 3, 65540, 65541,
    ]);
    let t1 = RoaringEncoder::from_doc_ids(&[
        2, 3, 4, 65541, 65542,
    ]);
    let t2 = RoaringEncoder::from_doc_ids(&[
        3, 4, 5, 65540, 65541,
    ]);
    let v2_t0 = vram_term_entry(&t0, &mut cache_v2, 0xa1);
    let v2_t1 = vram_term_entry(&t1, &mut cache_v2, 0xa2);
    let v2_t2 = vram_term_entry(&t2, &mut cache_v2, 0xa3);
    let v3_t0 = vram_v3_term_entry(&t0, &mut cache_v3, 0xb1);
    let v3_t1 = vram_v3_term_entry(&t1, &mut cache_v3, 0xb2);
    let v3_t2 = vram_v3_term_entry(&t2, &mut cache_v3, 0xb3);

    let term_refs: Vec<&RoaringPostings> = vec![&t0, &t1, &t2];
    let union_keys =
        union_high16_keys(
            &term_refs,
        );

    let v2_terms = vec![v2_t0, v2_t1, v2_t2];
    let v3_terms = vec![v3_t0, v3_t1, v3_t2];

    for op in [BoolOp::And, BoolOp::Or, BoolOp::Xor] {
        let v2_result = kernel
            .compute_fold_vram(op, &v2_terms, &union_keys)
            .expect("v2 fold");
        let v3_result = kernel
            .compute_fold_v3(op, &v3_terms, &union_keys)
            .expect("v3 fold");
        assert_eq!(
            v2_result, v3_result,
            "{op:?} v3 fold (decompressed) must equal v2 fold byte-for-byte"
        );
    }
}

#[test]
fn v3_fold_multi_chunk_matches_single_chunk_oracle() {
    let mut kernel = Device::new();
    let mut cache = packed_cache(
        256 * 1024 * 1024,
    );

    let n_multi_buckets =
        BUCKETS_PER_CHUNK * 2;
    let docs_multi: Vec<u32> =
        (0..n_multi_buckets).map(|i| (i as u32) << 16).collect();
    let rp_multi =
        RoaringEncoder::from_doc_ids(
            &docs_multi,
        );
    let single_high16 = (BUCKETS_PER_CHUNK
        as u32
        + 1)
        << 16;
    let rp_single =
        RoaringEncoder::from_doc_ids(&[
            0,
            1 << 16,
            single_high16,
        ]);

    let v3_multi = vram_v3_term_entry(&rp_multi, &mut cache, 0xc6_03_01);
    let v3_single = vram_v3_term_entry(&rp_single, &mut cache, 0xc6_03_02);

    assert!(
        v3_multi.chunk_count() >= 2,
        "test fixture must exercise multi-chunk dispatch (got chunk_count={})",
        v3_multi.chunk_count()
    );
    assert_eq!(v3_single.chunk_count(), 1);

    let term_refs: Vec<&RoaringPostings> =
        vec![&rp_multi, &rp_single];
    let union_keys =
        union_high16_keys(
            &term_refs,
        );
    let v3_terms = vec![v3_multi, v3_single];

    let buf_multi =
        flat_buffer_for_term(
            &rp_multi,
            &union_keys,
        );
    let buf_single =
        flat_buffer_for_term(
            &rp_single,
            &union_keys,
        );

    for op in [BoolOp::And, BoolOp::Or, BoolOp::Xor] {
        let v3_result = kernel
            .compute_fold_v3(op, &v3_terms, &union_keys)
            .expect("multi-chunk v3 fold");
        let expected: Vec<u32> = buf_multi
            .iter()
            .zip(buf_single.iter())
            .map(|(&a, &b)| match op {
                BoolOp::And => a & b,
                BoolOp::Or => a | b,
                BoolOp::Xor => a ^ b,
            })
            .collect();
        assert_eq!(
            v3_result, expected,
            "{op:?} multi-chunk v3 fold must equal CPU oracle byte-for-byte"
        );
    }
}

#[test]
fn v3_fold_single_term_round_trips_layout() {
    let mut kernel = Device::new();
    let mut cache = packed_cache(
        64 * 1024 * 1024,
    );
    let docs: Vec<u32> = (0..3).chain(std::iter::once(65540)).collect();
    let rp = RoaringEncoder::from_doc_ids(&docs);
    let term = vram_v3_term_entry(&rp, &mut cache, 0xfeed);
    let union_keys: [u16; 2] = [0, 1];
    let got = kernel
        .compute_fold_v3(BoolOp::And, &[term], &union_keys)
        .unwrap();
    let expected = flat_buffer_for_term(
        &rp,
        &union_keys,
    );
    assert_eq!(got, expected);
}

#[test]
fn vram_fold_capacity_growth_on_large_union() {
    let mut kernel = Device::new();
    let mut cache = plain_cache(1 << 30);
    let docs1: Vec<u32> = (0..24).map(|b| b * 65536).collect();
    let docs2: Vec<u32> = (0..24).map(|b| b * 65536 + 1).collect();
    let rp1 = RoaringEncoder::from_doc_ids(&docs1);
    let rp2 = RoaringEncoder::from_doc_ids(&docs2);
    let v1 = vram_term_entry(&rp1, &mut cache, 0xc1);
    let v2 = vram_term_entry(&rp2, &mut cache, 0xc2);
    let union_keys: Vec<u16> = (0..24).collect();
    let res = kernel
        .compute_fold_vram(BoolOp::Or, &[v1, v2], &union_keys)
        .unwrap();
    assert_eq!(res.len(), 24 * BITMAP_CONTAINER_WORDS);
    assert!(res[0] & 0b11 == 0b11, "OR result must have bits 0 and 1 set in bucket 0");
}

#[test]
fn growth_goes_to_the_next_power_of_two() {
    let kernel = CudaBitmapOpKernel::new(true);
    let words = vec![0u32; INITIAL_CAPACITY_WORDS + 1];
    let plan = kernel.compute(BoolOp::And, &words, &words).unwrap();
    if let FoldPlan::Run { grow, batch, .. } = plan {
        assert!(batch.is_empty());
        let install = grow.iter().find_map(|s| match s.action {
            DeviceAction::Install { words } => Some(words),
            _ => None,
        });
        assert_eq!(install, Some(32_768));
    } else {
        panic!("words that are there are computed on the device");
    }
}

#[test]
fn compressed_folds_need_the_codec() {
    let kernel = CudaBitmapOpKernel::new(false);
    let mut cache = packed_cache(1 << 30);
    let rp = RoaringEncoder::from_doc_ids(&[1, 2, 3]);
    let t1 = vram_v3_term_entry(&rp, &mut cache, 1);
    let t2 = vram_v3_term_entry(&rp, &mut cache, 2);
    // The buffers and the workbench have grown by then: 24 buckets, two terms of 8 KiB.
    let keys: Vec<u16> = (0..24).collect();
    let plan = kernel.compute_fold_v3(BoolOp::And, &[Arc::clone(&t1), t2], &keys).unwrap();
    if let FoldPlan::Fault { steps, what } = &plan {
        assert_eq!(*what, "v3 decompress codec unavailable");
        let actions: Vec<DeviceAction> = steps.iter().map(|s| s.action).collect();
        assert_eq!(actions.len(), 5);
        assert_eq!(actions[3], DeviceAction::Install { words: 65_536 });
        assert_eq!(actions[4], DeviceAction::GrowBench { bytes: 16_384 });
    } else {
        panic!("a fold without a codec ends in an error");
    }
    // A single term needs the workbench alone.
    let plan = kernel.compute_fold_v3(BoolOp::And, &[t1], &keys).unwrap();
    if let FoldPlan::Fault { steps, what } = &plan {
        assert_eq!(*what, "v3 decompress codec unavailable");
        assert_eq!(steps.len(), 1);
        assert_eq!(steps[0].action, DeviceAction::GrowBench { bytes: 8192 });
    } else {
        panic!("a gather without a codec ends in an error");
    }
}

#[test]
fn a_fold_that_ends_in_an_error_leaves_grown_buffers() {
    let mut device = Device::new();
    device.kernel = CudaBitmapOpKernel::new(false);
    let mut cache = packed_cache(1 << 30);
    let rp = RoaringEncoder::from_doc_ids(&[1, 2, 3]);
    let t1 = vram_v3_term_entry(&rp, &mut cache, 1);
    let t2 = vram_v3_term_entry(&rp, &mut cache, 2);
    let keys: Vec<u16> = (0..24).collect();
    assert_eq!(
        device.compute_fold_v3(BoolOp::And, &[t1, t2], &keys),
        Err(CudaBitmapError::Cuda { what: "v3 decompress codec unavailable", code: 0 })
    );
    assert_eq!(device.a.len(), 65_536);
    assert_eq!(device.bench.len(), 4096);
    // The next fold of that size needs no growth.
    let words = vec![0u32; 65_536];
    let plan = device.kernel.compute(BoolOp::Or, &words, &words).unwrap();
    if let FoldPlan::Run { grow, .. } = plan {
        assert!(grow.is_empty());
    } else {
        panic!("words that are there are computed on the device");
    }
}

#[test]
fn scatter_needs_a_workbench() {
    let kernel = CudaBitmapOpKernel::new(true);
    let mut cache = packed_cache(1 << 30);
    let rp = RoaringEncoder::from_doc_ids(&[1, 2, 3]);
    let term = vram_v3_term_entry(&rp, &mut cache, 1);
    assert!(matches!(
        kernel.decompress_then_scatter(DeviceSlot::A, &term, &[0]),
        Err(CudaBitmapError::Cuda { what: "v3 workbench not allocated", code: 0 })
    ));
}

#[test]
fn scatter_lays_a_term_out_by_keys() {
    let mut device = Device::new();
    let mut cache = packed_cache(1 << 30);
    let rp = RoaringEncoder::from_doc_ids(&[1, 65_536 + 2, 3 * 65_536 + 3]);
    let term = vram_v3_term_entry(&rp, &mut cache, 1);
    // A fold sets the workbench up.
    device
        .compute_fold_v3(BoolOp::Or, &[Arc::clone(&term), Arc::clone(&term)], &[0, 1, 3])
        .unwrap();
    let keys = [0u16, 2, 3];
    let plan = device.kernel.decompress_then_scatter(DeviceSlot::B, &term, &keys).unwrap();
    device.run(plan, &[], &[], &[term.as_ref()]).unwrap();
    assert_eq!(device.b[..3 * 2048], flat_buffer_for_term(&rp, &keys)[..]);
}

#[test]
fn index_range() {
    assert!(index_in_range(&[]));
    assert!(index_in_range(&[(0, 0), (5, 2048)]));
    assert!(!index_in_range(&[(0, 0), (5, 2049)]));
}
