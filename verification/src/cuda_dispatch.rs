//! Planning of Bool folds on the device.
//!
//! The kernel combines two word arrays on the device. A fold over many terms keeps
//! everything there: the accumulator and the result swap places after each launch,
//! and only the final words come back. Terms come from host arrays, from the
//! uncompressed device tier, or from the compressed one by way of a workbench. This
//! module decides what the driver has to do, step by step; `device_plan` says what the
//! steps compute.

use std::sync::Arc;
use vstd::prelude::*;

use crate::device_plan;
use crate::keyset;
use crate::vram_cht_v3;

use crate::device_plan::{ChunkSlot, DeviceAction, DeviceSlot, DeviceStep};
use crate::flat::BoolOp;
use crate::vram_cht::VramTermEntry;
use crate::vram_cht_v3::{DeviceChunkSlice, VramCompressedTermEntry};
use crate::BITMAP_CONTAINER_WORDS;

verus! {

/// Why a fold could not be planned or carried out.
#[derive(Debug, PartialEq, Eq)]
pub enum CudaBitmapError {
    /// A device call failed, or a size is out of range.
    Cuda {
        /// Call site.
        what: &'static str,
        /// Raw device error code; zero where no call was made.
        code: u32,
    },
    /// The kernel or the codec failed.
    Inner {
        /// What it reported.
        message: String,
    },
    /// The operands differ in length.
    LenMismatch {
        /// Length of the first operand.
        a: usize,
        /// Length of the other one.
        b: usize,
    },
}

/// What a fold asks of the driver.
pub enum FoldPlan {
    /// Nothing: these are the words.
    Done(Vec<u32>),
    /// The steps of `grow`, then the decompression of `batch` in one launch where it
    /// is not empty, then `steps`; the words are in the host array afterwards.
    Run {
        /// Growth of the buffers and the workbench.
        grow: Vec<DeviceStep>,
        /// Chunks to decompress.
        batch: Vec<ChunkSlot>,
        /// The fold itself.
        steps: Vec<DeviceStep>,
    },
    /// These steps, and if none of them fails, an error without a device call: the
    /// buffers have grown by then, and a failure to grow them comes first.
    Fault {
        /// What is done before the error.
        steps: Vec<DeviceStep>,
        /// What is wrong.
        what: &'static str,
    },
}

/// Words of each buffer at the start: twelve buckets.
pub const INITIAL_CAPACITY_WORDS: usize = 24_576;

/// Sizes of the buffers and the workbench, and whether the codec could be set up.
#[derive(Debug)]
pub struct CudaBitmapOpKernel {
    capacity_words: usize,
    bench_bytes: usize,
    codec_ready: bool,
}

/// The least of `p`, `2 * p`, `4 * p`, ... that is at least `n`.
pub open spec fn doubled(p: int, n: int) -> int
    decreases 2 * n - p,
{
    if p >= n || p <= 0 {
        p
    } else {
        doubled(2 * p, n)
    }
}

/// The least power of two that is at least `n`.
pub open spec fn next_pow2(n: int) -> int {
    doubled(1, n)
}

proof fn lemma_doubled(p: int, n: int)
    requires
        p >= 1,
        p < 2 * n,
        vstd::arithmetic::power2::is_pow2(p),
    ensures
        n <= doubled(p, n) < 2 * n,
        vstd::arithmetic::power2::is_pow2(doubled(p, n)),
    decreases 2 * n - p,
{
    if p < n {
        reveal(vstd::arithmetic::power2::is_pow2);
        assert((2 * p) / 2 == p);
        lemma_doubled(2 * p, n);
    }
}

/// The grown capacity is a power of two, suffices, and is less than twice what is
/// needed.
pub proof fn lemma_next_pow2(n: int)
    requires
        n >= 1,
    ensures
        n <= next_pow2(n) < 2 * n,
        vstd::arithmetic::power2::is_pow2(next_pow2(n)),
{
    reveal(vstd::arithmetic::power2::is_pow2);
    lemma_doubled(1, n);
}

/// The least power of two that is at least `n`.
fn next_power_of_two(n: u64) -> (r: u64)
    requires
        1 <= n <= 0x4000_0000_0000_0000,
    ensures
        r == next_pow2(n as int),
        r < 2 * n,
{
    let mut p: u64 = 1;
    while p < n
        invariant
            1 <= p < 2 * n,
            n <= 0x4000_0000_0000_0000,
            doubled(p as int, n as int) == next_pow2(n as int),
        decreases 2 * n - p,
    {
        p = 2 * p;
    }
    p
}

/// Where `key` stands among `keys`.
pub open spec fn key_place(keys: Seq<u16>, key: u16) -> Option<int> {
    if keys.contains(key) {
        Some(choose|i: int| 0 <= i < keys.len() && keys[i] == key)
    } else {
        None
    }
}

/// Where `key` stands among ascending `keys`.
fn find_key(keys: &[u16], key: u16) -> (r: Option<usize>)
    requires
        keyset::increasing(keys@),
    ensures
        match r {
            Some(i) => key_place(keys@, key) == Some(i as int) && i < keys@.len(),
            None => key_place(keys@, key) is None,
        },
{
    let mut lo: usize = 0;
    let mut hi: usize = keys.len();
    while lo < hi
        invariant
            keyset::increasing(keys@),
            lo <= hi <= keys@.len(),
            forall|i: int| 0 <= i < lo ==> keys@[i] < key,
            forall|i: int| hi <= i < keys@.len() ==> keys@[i] > key,
        decreases hi - lo,
    {
        let mid: usize = lo + (hi - lo) / 2;
        if keys[mid] == key {
            proof {
                assert(keys@.contains(key));
                let p = choose|i: int| 0 <= i < keys@.len() && keys@[i] == key;
                if p < mid {
                    assert(keys@[p] < keys@[mid as int]);
                } else if mid < p {
                    assert(keys@[mid as int] < keys@[p]);
                }
            }
            return Some(mid);
        }
        if keys[mid] < key {
            lo = mid + 1;
        } else {
            hi = mid;
        }
    }
    None
}

/// Where the words of a term are on the device.
#[derive(Debug, Clone, Copy, PartialEq, Eq, Structural)]
pub enum TermSource {
    /// In the buffer of a cached term.
    Buffer {
        /// Number of the term.
        term: usize,
    },
    /// On the workbench.
    Bench {
        /// First word of the term.
        word: usize,
    },
}

/// Clear a buffer before the buckets of a term are scattered.
pub open spec fn zero_step(source: TermSource, dst: DeviceSlot, words: usize) -> DeviceStep {
    DeviceStep {
        what: match source {
            TermSource::Buffer { .. } => "cudaMemsetAsync(scatter zero-fill)",
            TermSource::Bench { .. } => "cudaMemsetAsync(v3 dst zero-fill)",
        },
        action: DeviceAction::Zero { dst, words },
    }
}

/// Copy a bucket to its place among the keys of the fold.
pub open spec fn copy_step(source: TermSource, dst: DeviceSlot, place: int, offset: u32) -> DeviceStep {
    match source {
        TermSource::Buffer { term } => DeviceStep {
            what: "cudaMemcpyAsync(scatter D2D bucket)",
            action: DeviceAction::CopyBucket {
                dst,
                dst_word: (2048 * place) as usize,
                term,
                src_word: offset as usize,
            },
        },
        TermSource::Bench { word } => DeviceStep {
            what: "cudaMemcpyAsync(v3 scatter D2D bucket)",
            action: DeviceAction::CopyBench {
                dst,
                dst_word: (2048 * place) as usize,
                src_word: (word + offset) as usize,
            },
        },
    }
}

/// Copy a bucket to its place in the host array.
pub open spec fn gather_step(source: TermSource, place: int, offset: u32) -> DeviceStep {
    match source {
        TermSource::Buffer { term } => DeviceStep {
            what: "cudaMemcpy(gather single-term D2H)",
            action: DeviceAction::GatherBucket {
                dst_word: (2048 * place) as usize,
                term,
                src_word: offset as usize,
            },
        },
        TermSource::Bench { word } => DeviceStep {
            what: "cudaMemcpy(gather v3 single-term D2H)",
            action: DeviceAction::GatherBench {
                dst_word: (2048 * place) as usize,
                src_word: (word + offset) as usize,
            },
        },
    }
}

/// Copies of the first `n` buckets that are among the keys.
pub open spec fn bucket_steps(
    source: TermSource,
    dst: DeviceSlot,
    index: Seq<(u16, u32)>,
    keys: Seq<u16>,
    n: int,
) -> Seq<DeviceStep>
    decreases n,
{
    if n <= 0 {
        Seq::empty()
    } else {
        let front = bucket_steps(source, dst, index, keys, n - 1);
        match key_place(keys, index[n - 1].0) {
            Some(j) => front.push(copy_step(source, dst, j, index[n - 1].1)),
            None => front,
        }
    }
}

/// Scatter a term into a buffer, in the layout of the keys.
pub open spec fn scatter_steps(
    source: TermSource,
    dst: DeviceSlot,
    index: Seq<(u16, u32)>,
    keys: Seq<u16>,
    words: usize,
) -> Seq<DeviceStep> {
    seq![zero_step(source, dst, words)] + bucket_steps(
        source,
        dst,
        index,
        keys,
        index.len() as int,
    )
}

/// Host copies of the first `n` buckets that are among the keys.
pub open spec fn gather_bucket_steps(
    source: TermSource,
    index: Seq<(u16, u32)>,
    keys: Seq<u16>,
    n: int,
) -> Seq<DeviceStep>
    decreases n,
{
    if n <= 0 {
        Seq::empty()
    } else {
        let front = gather_bucket_steps(source, index, keys, n - 1);
        match key_place(keys, index[n - 1].0) {
            Some(j) => front.push(gather_step(source, j, index[n - 1].1)),
            None => front,
        }
    }
}

/// Gather a term into the host array, in the layout of the keys.
pub open spec fn gather_steps(
    source: TermSource,
    index: Seq<(u16, u32)>,
    keys: Seq<u16>,
    words: usize,
) -> Seq<DeviceStep> {
    seq![host_zero_step(words)] + gather_bucket_steps(source, index, keys, index.len() as int)
}

/// Start with a host array of zeros.
pub open spec fn host_zero_step(words: usize) -> DeviceStep {
    DeviceStep { what: "host zero-fill", action: DeviceAction::HostZero { words } }
}

/// Every bucket of an index lies within the words of the term.
pub open spec fn in_range(index: Seq<(u16, u32)>) -> bool {
    forall|i: int| 0 <= i < index.len() ==> (#[trigger] index[i]).1 + 2048 <= 2048 * index.len()
}

/// Whether every bucket of an index lies within the words of the term.
pub fn index_in_range(index: &[(u16, u32)]) -> (r: bool)
    requires
        index@.len() <= u32::MAX,
    ensures
        r == in_range(index@),
{
    let n: usize = index.len();
    let mut i: usize = 0;
    while i < n
        invariant
            n == index@.len(),
            n <= u32::MAX,
            i <= n,
            forall|j: int| 0 <= j < i ==> (#[trigger] index@[j]).1 + 2048 <= 2048 * n,
        decreases n - i,
    {
        if index[i].1 as u64 + 2048 > 2048 * (n as u64) {
            assert(!(index@[i as int].1 + 2048 <= 2048 * index@.len()));
            return false;
        }
        i = i + 1;
    }
    true
}

/// Append the scatter of a term.
fn push_scatter(
    steps: &mut Vec<DeviceStep>,
    source: TermSource,
    dst: DeviceSlot,
    index: &[(u16, u32)],
    keys: &[u16],
    words: usize,
)
    requires
        keyset::increasing(keys@),
        words == 2048 * keys@.len(),
        source matches TermSource::Bench { word } ==> forall|i: int|
            0 <= i < index@.len() ==> word + (#[trigger] index@[i]).1 <= usize::MAX,
    ensures
        final(steps)@ == old(steps)@ + scatter_steps(source, dst, index@, keys@, words),
{
    let zero: DeviceStep = match source {
        TermSource::Buffer { .. } => DeviceStep {
            what: "cudaMemsetAsync(scatter zero-fill)",
            action: DeviceAction::Zero { dst, words },
        },
        TermSource::Bench { .. } => DeviceStep {
            what: "cudaMemsetAsync(v3 dst zero-fill)",
            action: DeviceAction::Zero { dst, words },
        },
    };
    steps.push(zero);
    let ghost front = steps@;
    let n: usize = index.len();
    let mut i: usize = 0;
    assert(front + bucket_steps(source, dst, index@, keys@, 0) =~= front);
    while i < n
        invariant
            keyset::increasing(keys@),
            words == 2048 * keys@.len(),
            source matches TermSource::Bench { word } ==> forall|i: int|
                0 <= i < index@.len() ==> word + (#[trigger] index@[i]).1 <= usize::MAX,
            n == index@.len(),
            i <= n,
            steps@ == front + bucket_steps(source, dst, index@, keys@, i as int),
        decreases n - i,
    {
        let (high16, offset): (u16, u32) = index[i];
        match find_key(keys, high16) {
            Some(j) => {
                assert(2048 * j < words);
                let dst_word: usize = j * BITMAP_CONTAINER_WORDS;
                let copy: DeviceStep = match source {
                    TermSource::Buffer { term } => DeviceStep {
                        what: "cudaMemcpyAsync(scatter D2D bucket)",
                        action: DeviceAction::CopyBucket {
                            dst,
                            dst_word,
                            term,
                            src_word: offset as usize,
                        },
                    },
                    TermSource::Bench { word } => DeviceStep {
                        what: "cudaMemcpyAsync(v3 scatter D2D bucket)",
                        action: DeviceAction::CopyBench {
                            dst,
                            dst_word,
                            src_word: word + offset as usize,
                        },
                    },
                };
                assert(copy == copy_step(source, dst, j as int, offset));
                steps.push(copy);
            },
            None => {},
        }
        i = i + 1;
        assert(steps@ =~= front + bucket_steps(source, dst, index@, keys@, i as int));
    }
    assert(steps@ =~= old(steps)@ + scatter_steps(source, dst, index@, keys@, words));
}

/// The gather of a term into the host array.
fn plan_gather(source: TermSource, index: &[(u16, u32)], keys: &[u16], words: usize) -> (r: Vec<
    DeviceStep,
>)
    requires
        keyset::increasing(keys@),
        words == 2048 * keys@.len(),
        source matches TermSource::Bench { word } ==> forall|i: int|
            0 <= i < index@.len() ==> word + (#[trigger] index@[i]).1 <= usize::MAX,
    ensures
        r@ == gather_steps(source, index@, keys@, words),
{
    let mut steps: Vec<DeviceStep> = Vec::new();
    steps.push(DeviceStep { what: "host zero-fill", action: DeviceAction::HostZero { words } });
    let ghost front = steps@;
    let n: usize = index.len();
    let mut i: usize = 0;
    assert(front + gather_bucket_steps(source, index@, keys@, 0) =~= front);
    while i < n
        invariant
            keyset::increasing(keys@),
            words == 2048 * keys@.len(),
            source matches TermSource::Bench { word } ==> forall|i: int|
                0 <= i < index@.len() ==> word + (#[trigger] index@[i]).1 <= usize::MAX,
            n == index@.len(),
            i <= n,
            steps@ == front + gather_bucket_steps(source, index@, keys@, i as int),
        decreases n - i,
    {
        let (high16, offset): (u16, u32) = index[i];
        match find_key(keys, high16) {
            Some(j) => {
                assert(2048 * j < words);
                let dst_word: usize = j * BITMAP_CONTAINER_WORDS;
                let copy: DeviceStep = match source {
                    TermSource::Buffer { term } => DeviceStep {
                        what: "cudaMemcpy(gather single-term D2H)",
                        action: DeviceAction::GatherBucket {
                            dst_word,
                            term,
                            src_word: offset as usize,
                        },
                    },
                    TermSource::Bench { word } => DeviceStep {
                        what: "cudaMemcpy(gather v3 single-term D2H)",
                        action: DeviceAction::GatherBench {
                            dst_word,
                            src_word: word + offset as usize,
                        },
                    },
                };
                assert(copy == gather_step(source, j as int, offset));
                steps.push(copy);
            },
            None => {},
        }
        i = i + 1;
        assert(steps@ =~= front + gather_bucket_steps(source, index@, keys@, i as int));
    }
    assert(steps@ =~= gather_steps(source, index@, keys@, words));
    steps
}

/// What planning came to.
#[verifier::ext_equal]
pub enum PlanView {
    /// No plan.
    Fail(CudaBitmapError),
    /// These words, without the device.
    Done(Seq<u32>),
    /// Work for the driver.
    Run {
        /// Growth of the buffers and the workbench.
        grow: Seq<DeviceStep>,
        /// Chunks to decompress.
        batch: Seq<ChunkSlot>,
        /// The fold itself.
        steps: Seq<DeviceStep>,
    },
    /// Work for the driver that ends in an error.
    Fault {
        /// What is done before the error.
        steps: Seq<DeviceStep>,
        /// What is wrong.
        what: &'static str,
    },
}

/// What a result of planning says.
pub open spec fn outcome(r: Result<FoldPlan, CudaBitmapError>) -> PlanView {
    match r {
        Err(e) => PlanView::Fail(e),
        Ok(FoldPlan::Done(words)) => PlanView::Done(words@),
        Ok(FoldPlan::Run { grow, batch, steps }) => PlanView::Run {
            grow: grow@,
            batch: batch@,
            steps: steps@,
        },
        Ok(FoldPlan::Fault { steps, what }) => PlanView::Fault { steps: steps@, what },
    }
}

/// An error without a device call.
pub open spec fn plain_error(what: &'static str) -> CudaBitmapError {
    CudaBitmapError::Cuda { what, code: 0 }
}

/// What keeps the buffers from growing for arrays of `n` words, if anything, where they
/// have `capacity` words.
pub open spec fn size_fault(n: int, capacity: int) -> Option<&'static str> {
    if 4 * n > usize::MAX {
        Some("byte-size overflow")
    } else if n > capacity && 4 * next_pow2(n) > usize::MAX {
        Some("capacity byte-size overflow")
    } else {
        None
    }
}

/// The kernel takes no more than 2^32 - 1 words. This is found out after the buffers have
/// grown.
pub open spec fn launchable(n: int) -> bool {
    n <= u32::MAX
}

/// Growth of the buffers for arrays of `n` words.
pub open spec fn grow_steps(n: int, capacity: int) -> Seq<DeviceStep> {
    let words = next_pow2(n) as usize;
    if n <= capacity {
        Seq::empty()
    } else {
        seq![
            DeviceStep {
                what: "cudaMalloc(d_a)",
                action: DeviceAction::Reserve { slot: DeviceSlot::A, words },
            },
            DeviceStep {
                what: "cudaMalloc(d_b)",
                action: DeviceAction::Reserve { slot: DeviceSlot::B, words },
            },
            DeviceStep {
                what: "cudaMalloc(d_out)",
                action: DeviceAction::Reserve { slot: DeviceSlot::Out, words },
            },
            DeviceStep { what: "install buffers", action: DeviceAction::Install { words } },
        ]
    }
}

/// Growth of the workbench for `total` bytes.
pub open spec fn bench_steps(total: int, bench_bytes: int) -> Seq<DeviceStep> {
    if bench_bytes < total {
        seq![
            DeviceStep {
                what: "cudaMalloc(v3 workbench)",
                action: DeviceAction::GrowBench { bytes: total as usize },
            },
        ]
    } else {
        Seq::empty()
    }
}

/// Copy the words of the accumulator or the result back, and wait for them.
pub open spec fn finish_steps(
    src: DeviceSlot,
    words: usize,
    copy: &'static str,
    sync: &'static str,
) -> Seq<DeviceStep> {
    seq![
        DeviceStep { what: copy, action: DeviceAction::Download { src, words } },
        DeviceStep { what: sync, action: DeviceAction::Sync },
    ]
}

/// Upload a host array.
pub open spec fn upload_step(
    what: &'static str,
    dst: DeviceSlot,
    term: usize,
    words: usize,
) -> DeviceStep {
    DeviceStep { what, action: DeviceAction::Upload { dst, term, words } }
}

/// The uploads of two host arrays.
pub open spec fn pair_uploads(words: usize) -> Seq<DeviceStep> {
    seq![
        upload_step("cudaMemcpyAsync(a H2D)", DeviceSlot::A, 0, words),
        upload_step("cudaMemcpyAsync(b H2D)", DeviceSlot::B, 1, words),
    ]
}

/// The steps that combine two host arrays.
pub open spec fn pair_steps(op: BoolOp, words: usize) -> Seq<DeviceStep> {
    pair_uploads(words) + seq![device_plan::kernel_step(op, words)] + finish_steps(
        DeviceSlot::Out,
        words,
        "cudaMemcpyAsync(out D2H)",
        "cudaStreamSynchronize",
    )
}

/// The plan for two host arrays.
pub open spec fn pair_plan(capacity: int, op: BoolOp, a: int, b: int) -> PlanView {
    if a != b {
        PlanView::Fail(CudaBitmapError::LenMismatch { a: a as usize, b: b as usize })
    } else if a == 0 {
        PlanView::Done(Seq::empty())
    } else {
        match size_fault(a, capacity) {
            Some(what) => PlanView::Fail(plain_error(what)),
            None => if launchable(a) {
                PlanView::Run {
                    grow: grow_steps(a, capacity),
                    batch: Seq::empty(),
                    steps: pair_steps(op, a as usize),
                }
            } else {
                PlanView::Fault {
                    steps: grow_steps(a, capacity) + pair_uploads(a as usize),
                    what: "num_words exceeds u32::MAX",
                }
            },
        }
    }
}

/// The first array from number `i` on whose length is not `n`.
pub open spec fn odd_one(terms: Seq<Seq<u32>>, n: int, i: int) -> Option<int>
    decreases terms.len() - i,
{
    if i >= terms.len() {
        None
    } else if terms[i].len() != n {
        Some(i)
    } else {
        odd_one(terms, n, i + 1)
    }
}

/// Load host array `i` into a buffer.
pub open spec fn host_load(words: usize) -> spec_fn(DeviceSlot, int) -> Seq<DeviceStep> {
    |dst: DeviceSlot, i: int|
        seq![
            upload_step(
                if i == 0 {
                    "cudaMemcpyAsync(fold init H2D)"
                } else {
                    "cudaMemcpyAsync(fold term H2D)"
                },
                dst,
                i as usize,
                words,
            ),
        ]
}

/// The plan for a fold over host arrays.
pub open spec fn host_plan(capacity: int, op: BoolOp, terms: Seq<Seq<u32>>) -> PlanView {
    if terms.len() == 0 {
        PlanView::Done(Seq::empty())
    } else if terms.len() == 1 {
        PlanView::Done(terms[0])
    } else if terms[0].len() == 0 {
        PlanView::Done(Seq::empty())
    } else {
        let n = terms[0].len() as int;
        match odd_one(terms, n, 1) {
            Some(i) => PlanView::Fail(
                CudaBitmapError::LenMismatch { a: n as usize, b: terms[i].len() as usize },
            ),
            None => match size_fault(n, capacity) {
                Some(what) => PlanView::Fail(plain_error(what)),
                None => if launchable(n) {
                    PlanView::Run {
                        grow: grow_steps(n, capacity),
                        batch: Seq::empty(),
                        steps: device_plan::fold_steps(
                            host_load(n as usize),
                            op,
                            n as usize,
                            terms.len() as int,
                        ) + finish_steps(
                            DeviceSlot::A,
                            n as usize,
                            "cudaMemcpyAsync(fold result D2H)",
                            "cudaStreamSynchronize(fold)",
                        ),
                    }
                } else {
                    PlanView::Fault {
                        steps: grow_steps(n, capacity),
                        what: "num_words exceeds u32::MAX",
                    }
                },
            },
        }
    }
}

/// The words of each of the arrays.
pub open spec fn arrays(terms: Seq<&[u32]>) -> Seq<Seq<u32>> {
    Seq::new(terms.len(), |i: int| terms[i]@)
}

impl CudaBitmapOpKernel {
    /// Words of each buffer.
    pub closed spec fn capacity(&self) -> int {
        self.capacity_words as int
    }

    /// Bytes of the workbench; none is allocated while this is zero.
    pub closed spec fn bench(&self) -> int {
        self.bench_bytes as int
    }

    /// The codec could be set up.
    pub closed spec fn codec(&self) -> bool {
        self.codec_ready
    }

    /// Buffers of the initial size and no workbench.
    pub fn new(codec_ready: bool) -> (r: Self)
        ensures
            r.capacity() == INITIAL_CAPACITY_WORDS,
            r.bench() == 0,
            r.codec() == codec_ready,
    {
        CudaBitmapOpKernel { capacity_words: INITIAL_CAPACITY_WORDS, bench_bytes: 0, codec_ready }
    }

    /// Take note that a step was carried out.
    pub fn completed(&mut self, step: &DeviceStep)
        ensures
            final(self).codec() == old(self).codec(),
            final(self).capacity() == (match step.action {
                DeviceAction::Install { words } => words as int,
                _ => old(self).capacity(),
            }),
            final(self).bench() == (match step.action {
                DeviceAction::GrowBench { bytes } => bytes as int,
                _ => old(self).bench(),
            }),
    {
        match step.action {
            DeviceAction::Install { words } => {
                self.capacity_words = words;
            },
            DeviceAction::GrowBench { bytes } => {
                self.bench_bytes = bytes;
            },
            _ => {},
        }
    }

    /// What keeps the buffers from growing for arrays of `n` words, if anything.
    fn check_size(&self, n: usize) -> (r: Option<&'static str>)
        requires
            n >= 1,
        ensures
            r == size_fault(n as int, self.capacity()),
    {
        if n > usize::MAX / 4 {
            return Some("byte-size overflow");
        }
        if n > self.capacity_words {
            let p: u64 = next_power_of_two(n as u64);
            if p > (usize::MAX / 4) as u64 {
                return Some("capacity byte-size overflow");
            }
        }
        None
    }

    /// Growth of the buffers for arrays of `n` words.
    fn plan_growth(&self, n: usize) -> (r: Vec<DeviceStep>)
        requires
            n >= 1,
            size_fault(n as int, self.capacity()) is None,
        ensures
            r@ == grow_steps(n as int, self.capacity()),
    {
        let mut steps: Vec<DeviceStep> = Vec::new();
        if n > self.capacity_words {
            let words: usize = next_power_of_two(n as u64) as usize;
            steps.push(
                DeviceStep {
                    what: "cudaMalloc(d_a)",
                    action: DeviceAction::Reserve { slot: DeviceSlot::A, words },
                },
            );
            steps.push(
                DeviceStep {
                    what: "cudaMalloc(d_b)",
                    action: DeviceAction::Reserve { slot: DeviceSlot::B, words },
                },
            );
            steps.push(
                DeviceStep {
                    what: "cudaMalloc(d_out)",
                    action: DeviceAction::Reserve { slot: DeviceSlot::Out, words },
                },
            );
            steps.push(
                DeviceStep { what: "install buffers", action: DeviceAction::Install { words } },
            );
        }
        assert(steps@ =~= grow_steps(n as int, self.capacity()));
        steps
    }

    /// Plan `out = a op b` on two host arrays. Arrays of different lengths are an
    /// error, empty ones need no device. Buffers that are too small grow to the next
    /// power of two. More words than the kernel takes are an error once the buffers have
    /// grown and the arrays are on the device.
    pub fn compute(&self, op: BoolOp, a: &[u32], b: &[u32]) -> (r: Result<
        FoldPlan,
        CudaBitmapError,
    >)
        ensures
            outcome(r) == pair_plan(self.capacity(), op, a@.len() as int, b@.len() as int),
    {
        if a.len() != b.len() {
            return Err(CudaBitmapError::LenMismatch { a: a.len(), b: b.len() });
        }
        let n: usize = a.len();
        if n == 0 {
            return Ok(FoldPlan::Done(Vec::new()));
        }
        match self.check_size(n) {
            Some(what) => {
                return Err(CudaBitmapError::Cuda { what, code: 0 });
            },
            None => {},
        }
        let mut grow: Vec<DeviceStep> = self.plan_growth(n);
        if n as u64 > 0xFFFF_FFFF {
            push_pair(&mut grow, n);
            return Ok(FoldPlan::Fault { steps: grow, what: "num_words exceeds u32::MAX" });
        }
        let mut steps: Vec<DeviceStep> = Vec::new();
        push_pair(&mut steps, n);
        steps.push(
            DeviceStep {
                what: "BitmapOpKernel::compute",
                action: DeviceAction::Compute { op, words: n },
            },
        );
        push_finish(
            &mut steps,
            DeviceSlot::Out,
            n,
            "cudaMemcpyAsync(out D2H)",
            "cudaStreamSynchronize",
        );
        assert(steps@ =~= pair_steps(op, n));
        Ok(FoldPlan::Run { grow, batch: Vec::new(), steps })
    }

    /// Plan `terms[0] op terms[1] op ...` on host arrays, with one wait at the end and
    /// no copy back between the launches. No arrays give no words, a single one its
    /// own words; arrays of different lengths are an error. More words than the kernel
    /// takes are an error once the buffers have grown.
    pub fn compute_fold(&self, op: BoolOp, terms: &[&[u32]]) -> (r: Result<
        FoldPlan,
        CudaBitmapError,
    >)
        ensures
            outcome(r) == host_plan(self.capacity(), op, arrays(terms@)),
    {
        let count: usize = terms.len();
        if count == 0 {
            return Ok(FoldPlan::Done(Vec::new()));
        }
        if count == 1 {
            let words: Vec<u32> = copy_words(terms[0]);
            return Ok(FoldPlan::Done(words));
        }
        let n: usize = terms[0].len();
        if n == 0 {
            return Ok(FoldPlan::Done(Vec::new()));
        }
        let ghost views = arrays(terms@);
        let mut i: usize = 1;
        while i < count
            invariant
                views == arrays(terms@),
                count == terms@.len(),
                2 <= count,
                1 <= i <= count,
                n == views[0].len(),
                n > 0,
                odd_one(views, n as int, 1) == odd_one(views, n as int, i as int),
            decreases count - i,
        {
            let len: usize = terms[i].len();
            assert(views[i as int].len() == len);
            if len != n {
                return Err(CudaBitmapError::LenMismatch { a: n, b: len });
            }
            i = i + 1;
        }
        match self.check_size(n) {
            Some(what) => {
                return Err(CudaBitmapError::Cuda { what, code: 0 });
            },
            None => {},
        }
        let grow: Vec<DeviceStep> = self.plan_growth(n);
        if n as u64 > 0xFFFF_FFFF {
            return Ok(FoldPlan::Fault { steps: grow, what: "num_words exceeds u32::MAX" });
        }
        let ghost load = host_load(n);
        let mut steps: Vec<DeviceStep> = Vec::new();
        steps.push(
            DeviceStep {
                what: "cudaMemcpyAsync(fold init H2D)",
                action: DeviceAction::Upload { dst: DeviceSlot::A, term: 0, words: n },
            },
        );
        assert(steps@ =~= device_plan::fold_steps(load, op, n, 1));
        let mut k: usize = 1;
        while k < count
            invariant
                load == host_load(n),
                1 <= k <= count,
                steps@ == device_plan::fold_steps(load, op, n, k as int),
            decreases count - k,
        {
            let ghost before = steps@;
            steps.push(
                DeviceStep {
                    what: "cudaMemcpyAsync(fold term H2D)",
                    action: DeviceAction::Upload { dst: DeviceSlot::B, term: k, words: n },
                },
            );
            push_kernel(&mut steps, op, n);
            k = k + 1;
            assert(load(DeviceSlot::B, k - 1) =~= seq![
                upload_step("cudaMemcpyAsync(fold term H2D)", DeviceSlot::B, (k - 1) as usize, n),
            ]);
            assert(steps@ =~= device_plan::fold_steps(load, op, n, k as int));
        }
        push_finish(
            &mut steps,
            DeviceSlot::A,
            n,
            "cudaMemcpyAsync(fold result D2H)",
            "cudaStreamSynchronize(fold)",
        );
        Ok(FoldPlan::Run { grow, batch: Vec::new(), steps })
    }
}

/// Load the cached term `i` into a buffer.
pub open spec fn vram_load(
    indexes: Seq<Seq<(u16, u32)>>,
    keys: Seq<u16>,
    words: usize,
) -> spec_fn(DeviceSlot, int) -> Seq<DeviceStep> {
    |dst: DeviceSlot, i: int|
        scatter_steps(TermSource::Buffer { term: i as usize }, dst, indexes[i], keys, words)
}

/// The plan for a fold over terms of the uncompressed tier with the given bucket
/// indexes.
pub open spec fn vram_plan(
    capacity: int,
    op: BoolOp,
    indexes: Seq<Seq<(u16, u32)>>,
    keys: Seq<u16>,
) -> PlanView {
    let words = (2048 * keys.len()) as usize;
    if indexes.len() == 0 || keys.len() == 0 {
        PlanView::Done(Seq::empty())
    } else if indexes.len() == 1 {
        PlanView::Run {
            grow: Seq::empty(),
            batch: Seq::empty(),
            steps: gather_steps(TermSource::Buffer { term: 0 }, indexes[0], keys, words),
        }
    } else {
        PlanView::Run {
            grow: grow_steps(words as int, capacity),
            batch: Seq::empty(),
            steps: device_plan::fold_steps(
                vram_load(indexes, keys, words),
                op,
                words,
                indexes.len() as int,
            ) + finish_steps(
                DeviceSlot::A,
                words,
                "cudaMemcpyAsync(vram fold result D2H)",
                "cudaStreamSynchronize(vram fold)",
            ),
        }
    }
}

/// The bucket indexes of terms.
pub open spec fn term_indexes<B>(terms: Seq<Arc<VramTermEntry<B>>>) -> Seq<Seq<(u16, u32)>> {
    Seq::new(terms.len(), |i: int| terms[i].bucket_index@)
}

/// First byte of term `i` on the workbench: the terms stand one behind the other.
pub open spec fn bench_start<B>(terms: Seq<Arc<VramCompressedTermEntry<B>>>, i: int) -> int
    decreases i,
{
    if i <= 0 {
        0
    } else {
        bench_start(terms, i - 1) + terms[i - 1].uncompressed_bytes
    }
}

/// The first `n` chunks of a term, one behind the other from byte `start` on.
pub open spec fn term_batch<B>(
    term: usize,
    start: int,
    chunks: Seq<DeviceChunkSlice<B>>,
    n: int,
) -> Seq<ChunkSlot>
    decreases n,
{
    if n <= 0 {
        Seq::empty()
    } else {
        term_batch(term, start, chunks, n - 1).push(
            ChunkSlot {
                term,
                chunk: (n - 1) as usize,
                byte_offset: (start + vram_cht_v3::plain_sum(chunks.take(n - 1))) as usize,
            },
        )
    }
}

/// The chunks of the first `n` terms.
pub open spec fn terms_batch<B>(terms: Seq<Arc<VramCompressedTermEntry<B>>>, n: int) -> Seq<
    ChunkSlot,
>
    decreases n,
{
    if n <= 0 {
        Seq::empty()
    } else {
        terms_batch(terms, n - 1) + term_batch(
            (n - 1) as usize,
            bench_start(terms, n - 1),
            terms[n - 1].chunks@,
            terms[n - 1].chunks@.len() as int,
        )
    }
}

/// Load the decompressed term `i` into a buffer.
pub open spec fn bench_load<B>(
    terms: Seq<Arc<VramCompressedTermEntry<B>>>,
    keys: Seq<u16>,
    words: usize,
) -> spec_fn(DeviceSlot, int) -> Seq<DeviceStep> {
    |dst: DeviceSlot, i: int|
        scatter_steps(
            TermSource::Bench { word: (bench_start(terms, i) / 4) as usize },
            dst,
            terms[i].bucket_index@,
            keys,
            words,
        )
}

/// What is wrong with decompressing `total` bytes onto the workbench, if anything. This
/// is found out after the workbench has grown.
pub open spec fn bench_fault(total: int, bench_bytes: int, codec: bool) -> Option<&'static str> {
    if total == 0 && bench_bytes == 0 {
        Some("v3 workbench not allocated")
    } else if !codec {
        Some("v3 decompress codec unavailable")
    } else {
        None
    }
}

/// The plan for a fold over terms of the compressed tier.
pub open spec fn v3_plan<B>(
    capacity: int,
    bench_bytes: int,
    codec: bool,
    op: BoolOp,
    terms: Seq<Arc<VramCompressedTermEntry<B>>>,
    keys: Seq<u16>,
) -> PlanView {
    let n = terms.len() as int;
    let words = (2048 * keys.len()) as usize;
    let total = bench_start(terms, n);
    if n == 0 || keys.len() == 0 {
        PlanView::Done(Seq::empty())
    } else if total > usize::MAX {
        PlanView::Fail(plain_error("workbench offset overflow"))
    } else {
        let grow = if n == 1 {
            bench_steps(total, bench_bytes)
        } else {
            grow_steps(words as int, capacity) + bench_steps(total, bench_bytes)
        };
        match bench_fault(total, bench_bytes, codec) {
            Some(what) => PlanView::Fault { steps: grow, what },
            None => if n == 1 {
                PlanView::Run {
                    grow,
                    batch: terms_batch(terms, 1),
                    steps: gather_steps(
                        TermSource::Bench { word: 0 },
                        terms[0].bucket_index@,
                        keys,
                        words,
                    ),
                }
            } else {
                PlanView::Run {
                    grow,
                    batch: terms_batch(terms, n),
                    steps: device_plan::fold_steps(bench_load(terms, keys, words), op, words, n)
                        + finish_steps(
                        DeviceSlot::A,
                        words,
                        "cudaMemcpyAsync(v3 fold result D2H)",
                        "cudaStreamSynchronize(v3 fold)",
                    ),
                }
            },
        }
    }
}

/// The plan for one term of the compressed tier into a buffer.
pub open spec fn scatter_plan<B>(
    bench_bytes: int,
    codec: bool,
    dst: DeviceSlot,
    term: VramCompressedTermEntry<B>,
    keys: Seq<u16>,
) -> PlanView {
    if bench_bytes == 0 {
        PlanView::Fail(plain_error("v3 workbench not allocated"))
    } else if !codec {
        PlanView::Fail(plain_error("v3 decompress codec unavailable"))
    } else {
        PlanView::Run {
            grow: Seq::empty(),
            batch: term_batch(0, 0, term.chunks@, term.chunks@.len() as int),
            steps: scatter_steps(
                TermSource::Bench { word: 0 },
                dst,
                term.bucket_index@,
                keys,
                (2048 * keys.len()) as usize,
            ),
        }
    }
}

/// Ascending keys need at most 2^27 words, which no size check refuses.
pub proof fn lemma_key_words(keys: Seq<u16>, capacity: int)
    requires
        keyset::increasing(keys),
        keys.len() > 0,
        capacity >= 0,
    ensures
        2048 <= 2048 * keys.len() <= 0x0800_0000,
        size_fault(2048 * keys.len() as int, capacity) is None,
        launchable(2048 * keys.len() as int),
{
    keyset::lemma_increasing_len(keys);
    lemma_next_pow2(2048 * keys.len() as int);
}

/// Append the chunks of a term.
fn push_term_batch<B>(
    batch: &mut Vec<ChunkSlot>,
    term: usize,
    start: usize,
    entry: &VramCompressedTermEntry<B>,
)
    requires
        entry.wf(),
        start + entry.uncompressed_bytes <= usize::MAX,
    ensures
        final(batch)@ == old(batch)@ + term_batch(
            term,
            start as int,
            entry.chunks@,
            entry.chunks@.len() as int,
        ),
{
    let ghost front = batch@;
    let ghost chunks = entry.chunks@;
    let n: usize = entry.chunks.len();
    let mut offset: usize = 0;
    let mut k: usize = 0;
    proof {
        vram_cht_v3::lemma_tiled_sum(chunks, entry.bucket_index@.len() as int);
        assert(chunks.take(0) =~= Seq::empty());
        assert(front + term_batch(term, start as int, chunks, 0) =~= front);
    }
    while k < n
        invariant
            chunks == entry.chunks@,
            n == chunks.len(),
            k <= n,
            vram_cht_v3::plain_sum(chunks) == entry.uncompressed_bytes,
            start + entry.uncompressed_bytes <= usize::MAX,
            offset == vram_cht_v3::plain_sum(chunks.take(k as int)),
            batch@ == front + term_batch(term, start as int, chunks, k as int),
        decreases n - k,
    {
        proof {
            vram_cht_v3::lemma_plain_take(chunks, k as int);
            vram_cht_v3::lemma_plain_take(chunks, k + 1);
            assert(chunks.take(k + 1).drop_last() =~= chunks.take(k as int));
            assert(chunks.take(k + 1).last() == chunks[k as int]);
        }
        batch.push(ChunkSlot { term, chunk: k, byte_offset: start + offset });
        offset = offset + entry.chunks[k].uncompressed_bytes;
        k = k + 1;
        assert(batch@ =~= front + term_batch(term, start as int, chunks, k as int));
    }
}

impl CudaBitmapOpKernel {
    /// Growth of the workbench for `total` bytes.
    fn plan_bench(&self, steps: &mut Vec<DeviceStep>, total: usize)
        ensures
            final(steps)@ == old(steps)@ + bench_steps(total as int, self.bench()),
    {
        if self.bench_bytes < total {
            steps.push(
                DeviceStep {
                    what: "cudaMalloc(v3 workbench)",
                    action: DeviceAction::GrowBench { bytes: total },
                },
            );
        }
        assert(steps@ =~= old(steps)@ + bench_steps(total as int, self.bench()));
    }

    /// Plan `terms[0] op terms[1] op ...` on terms of the uncompressed tier, in the
    /// layout of `union_keys`: each term is scattered into a cleared buffer, bucket by
    /// bucket; buckets that are not among the keys are left out. No terms or no keys
    /// give no words; a single term is gathered into the host array.
    pub fn compute_fold_vram<B>(
        &self,
        op: BoolOp,
        terms: &[Arc<VramTermEntry<B>>],
        union_keys: &[u16],
    ) -> (r: Result<FoldPlan, CudaBitmapError>)
        requires
            keyset::increasing(union_keys@),
        ensures
            outcome(r) == vram_plan(self.capacity(), op, term_indexes(terms@), union_keys@),
    {
        let count: usize = terms.len();
        if count == 0 || union_keys.len() == 0 {
            return Ok(FoldPlan::Done(Vec::new()));
        }
        let ghost indexes = term_indexes(terms@);
        proof {
            lemma_key_words(union_keys@, self.capacity());
        }
        let words: usize = union_keys.len() * BITMAP_CONTAINER_WORDS;
        if count == 1 {
            let steps: Vec<DeviceStep> = plan_gather(
                TermSource::Buffer { term: 0 },
                terms[0].bucket_index(),
                union_keys,
                words,
            );
            return Ok(FoldPlan::Run { grow: Vec::new(), batch: Vec::new(), steps });
        }
        let grow: Vec<DeviceStep> = self.plan_growth(words);
        let ghost load = vram_load(indexes, union_keys@, words);
        let mut steps: Vec<DeviceStep> = Vec::new();
        push_scatter(
            &mut steps,
            TermSource::Buffer { term: 0 },
            DeviceSlot::A,
            terms[0].bucket_index(),
            union_keys,
            words,
        );
        assert(steps@ =~= device_plan::fold_steps(load, op, words, 1));
        let mut k: usize = 1;
        while k < count
            invariant
                keyset::increasing(union_keys@),
                words == 2048 * union_keys@.len(),
                indexes == term_indexes(terms@),
                load == vram_load(indexes, union_keys@, words),
                count == terms@.len(),
                1 <= k <= count,
                steps@ == device_plan::fold_steps(load, op, words, k as int),
            decreases count - k,
        {
            push_scatter(
                &mut steps,
                TermSource::Buffer { term: k },
                DeviceSlot::B,
                terms[k].bucket_index(),
                union_keys,
                words,
            );
            push_kernel(&mut steps, op, words);
            k = k + 1;
            assert(steps@ =~= device_plan::fold_steps(load, op, words, k as int));
        }
        push_finish(
            &mut steps,
            DeviceSlot::A,
            words,
            "cudaMemcpyAsync(vram fold result D2H)",
            "cudaStreamSynchronize(vram fold)",
        );
        Ok(FoldPlan::Run { grow, batch: Vec::new(), steps })
    }

    /// Plan `terms[0] op terms[1] op ...` on terms of the compressed tier, in the
    /// layout of `union_keys`: one launch decompresses all chunks of all terms onto
    /// the workbench, one term behind the other, and the fold scatters from there. No
    /// terms or no keys give no words; a single term is gathered into the host array.
    /// A missing codec is an error once the buffers and the workbench have grown.
    pub fn compute_fold_v3<B>(
        &self,
        op: BoolOp,
        terms: &[Arc<VramCompressedTermEntry<B>>],
        union_keys: &[u16],
    ) -> (r: Result<FoldPlan, CudaBitmapError>)
        requires
            keyset::increasing(union_keys@),
            forall|i: int|
                0 <= i < terms@.len() ==> (#[trigger] terms@[i]).wf() && in_range(
                    terms@[i].bucket_index@,
                ),
        ensures
            outcome(r) == v3_plan(
                self.capacity(),
                self.bench(),
                self.codec(),
                op,
                terms@,
                union_keys@,
            ),
    {
        let count: usize = terms.len();
        if count == 0 || union_keys.len() == 0 {
            return Ok(FoldPlan::Done(Vec::new()));
        }
        proof {
            lemma_key_words(union_keys@, self.capacity());
        }
        let words: usize = union_keys.len() * BITMAP_CONTAINER_WORDS;
        let mut offsets: Vec<usize> = Vec::new();
        let mut total: usize = 0;
        let mut i: usize = 0;
        while i < count
            invariant
                count == terms@.len(),
                count > 0,
                union_keys@.len() > 0,
                i <= count,
                offsets@.len() == i,
                forall|j: int| 0 <= j < i ==> #[trigger] offsets@[j] == bench_start(terms@, j),
                total == bench_start(terms@, i as int),
            decreases count - i,
        {
            offsets.push(total);
            let more: usize = terms[i].uncompressed_bytes();
            if total > usize::MAX - more {
                proof {
                    lemma_start_monotone(terms@, i + 1, count as int);
                }
                return Err(CudaBitmapError::Cuda { what: "workbench offset overflow", code: 0 });
            }
            total = total + more;
            i = i + 1;
        }
        let mut grow: Vec<DeviceStep> = if count == 1 {
            Vec::new()
        } else {
            self.plan_growth(words)
        };
        self.plan_bench(&mut grow, total);
        assert(count == 1 ==> grow@ =~= bench_steps(total as int, self.bench()));
        if total == 0 && self.bench_bytes == 0 {
            return Ok(FoldPlan::Fault { steps: grow, what: "v3 workbench not allocated" });
        }
        if !self.codec_ready {
            return Ok(FoldPlan::Fault { steps: grow, what: "v3 decompress codec unavailable" });
        }
        let mut batch: Vec<ChunkSlot> = Vec::new();
        let mut t: usize = 0;
        while t < count
            invariant
                count == terms@.len(),
                t <= count,
                offsets@.len() == count,
                forall|j: int| 0 <= j < count ==> #[trigger] offsets@[j] == bench_start(terms@, j),
                total == bench_start(terms@, count as int),
                forall|i: int| 0 <= i < terms@.len() ==> (#[trigger] terms@[i]).wf(),
                batch@ == terms_batch(terms@, t as int),
            decreases count - t,
        {
            proof {
                lemma_start_monotone(terms@, t + 1, count as int);
                assert(terms@[t as int].wf());
            }
            push_term_batch(&mut batch, t, offsets[t], &terms[t]);
            t = t + 1;
        }
        if count == 1 {
            proof {
                assert(in_range(terms@[0].bucket_index@));
                assert(terms@[0].wf());
                assert(bench_start(terms@, 1) == terms@[0].uncompressed_bytes);
            }
            let steps: Vec<DeviceStep> = plan_gather(
                TermSource::Bench { word: 0 },
                terms[0].bucket_index(),
                union_keys,
                words,
            );
            return Ok(FoldPlan::Run { grow, batch, steps });
        }
        let ghost load = bench_load(terms@, union_keys@, words);
        let mut steps: Vec<DeviceStep> = Vec::new();
        proof {
            lemma_word_fits(terms@, 0, total);
        }
        push_scatter(
            &mut steps,
            TermSource::Bench { word: offsets[0] / 4 },
            DeviceSlot::A,
            terms[0].bucket_index(),
            union_keys,
            words,
        );
        assert(steps@ =~= device_plan::fold_steps(load, op, words, 1));
        let mut k: usize = 1;
        while k < count
            invariant
                keyset::increasing(union_keys@),
                words == 2048 * union_keys@.len(),
                load == bench_load(terms@, union_keys@, words),
                count == terms@.len(),
                offsets@.len() == count,
                forall|j: int| 0 <= j < count ==> #[trigger] offsets@[j] == bench_start(terms@, j),
                total == bench_start(terms@, count as int),
                forall|i: int|
                    0 <= i < terms@.len() ==> (#[trigger] terms@[i]).wf() && in_range(
                        terms@[i].bucket_index@,
                    ),
                1 <= k <= count,
                steps@ == device_plan::fold_steps(load, op, words, k as int),
            decreases count - k,
        {
            proof {
                lemma_word_fits(terms@, k as int, total);
            }
            push_scatter(
                &mut steps,
                TermSource::Bench { word: offsets[k] / 4 },
                DeviceSlot::B,
                terms[k].bucket_index(),
                union_keys,
                words,
            );
            push_kernel(&mut steps, op, words);
            k = k + 1;
            assert(steps@ =~= device_plan::fold_steps(load, op, words, k as int));
        }
        push_finish(
            &mut steps,
            DeviceSlot::A,
            words,
            "cudaMemcpyAsync(v3 fold result D2H)",
            "cudaStreamSynchronize(v3 fold)",
        );
        Ok(FoldPlan::Run { grow, batch, steps })
    }

    /// Plan the decompression of one term to the front of the workbench, chunk by
    /// chunk, and its scatter into `dst`, in the layout of `union_keys`.
    pub fn decompress_then_scatter<B>(
        &self,
        dst: DeviceSlot,
        term: &VramCompressedTermEntry<B>,
        union_keys: &[u16],
    ) -> (r: Result<FoldPlan, CudaBitmapError>)
        requires
            keyset::increasing(union_keys@),
            term.wf(),
            in_range(term.bucket_index@),
        ensures
            outcome(r) == scatter_plan(self.bench(), self.codec(), dst, *term, union_keys@),
    {
        if self.bench_bytes == 0 {
            return Err(CudaBitmapError::Cuda { what: "v3 workbench not allocated", code: 0 });
        }
        if !self.codec_ready {
            return Err(CudaBitmapError::Cuda { what: "v3 decompress codec unavailable", code: 0 });
        }
        proof {
            keyset::lemma_increasing_len(union_keys@);
        }
        let words: usize = union_keys.len() * BITMAP_CONTAINER_WORDS;
        let mut batch: Vec<ChunkSlot> = Vec::new();
        push_term_batch(&mut batch, 0, 0, term);
        assert(batch@ =~= term_batch(0, 0, term.chunks@, term.chunks@.len() as int));
        let mut steps: Vec<DeviceStep> = Vec::new();
        push_scatter(
            &mut steps,
            TermSource::Bench { word: 0 },
            dst,
            term.bucket_index(),
            union_keys,
            words,
        );
        assert(steps@ =~= scatter_steps(
            TermSource::Bench { word: 0 },
            dst,
            term.bucket_index@,
            union_keys@,
            words,
        ));
        Ok(FoldPlan::Run { grow: Vec::new(), batch, steps })
    }
}

/// Later terms start further on.
pub proof fn lemma_start_monotone<B>(terms: Seq<Arc<VramCompressedTermEntry<B>>>, i: int, j: int)
    requires
        0 <= i <= j,
    ensures
        0 <= bench_start(terms, i) <= bench_start(terms, j),
    decreases j,
{
    if i < j {
        lemma_start_monotone(terms, i, j - 1);
    } else if j > 0 {
        lemma_start_monotone(terms, 0, j - 1);
    }
}

/// The buckets of a term lie within the workbench.
proof fn lemma_word_fits<B>(terms: Seq<Arc<VramCompressedTermEntry<B>>>, k: int, total: usize)
    requires
        0 <= k < terms.len(),
        terms[k].wf(),
        in_range(terms[k].bucket_index@),
        total == bench_start(terms, terms.len() as int),
    ensures
        forall|i: int|
            0 <= i < terms[k].bucket_index@.len() ==> bench_start(terms, k) / 4 + (
            #[trigger] terms[k].bucket_index@[i]).1 <= usize::MAX,
{
    lemma_start_monotone(terms, k + 1, terms.len() as int);
    lemma_start_monotone(terms, 0, k);
    let index = terms[k].bucket_index@;
    assert forall|i: int| 0 <= i < index.len() implies bench_start(terms, k) / 4 + (
    #[trigger] index[i]).1 <= usize::MAX by {
        assert(index[i].1 + 2048 <= 2048 * index.len());
    }
}

/// Append the uploads of two host arrays.
fn push_pair(steps: &mut Vec<DeviceStep>, words: usize)
    ensures
        final(steps)@ == old(steps)@ + pair_uploads(words),
{
    steps.push(
        DeviceStep {
            what: "cudaMemcpyAsync(a H2D)",
            action: DeviceAction::Upload { dst: DeviceSlot::A, term: 0, words },
        },
    );
    steps.push(
        DeviceStep {
            what: "cudaMemcpyAsync(b H2D)",
            action: DeviceAction::Upload { dst: DeviceSlot::B, term: 1, words },
        },
    );
    assert(steps@ =~= old(steps)@ + pair_uploads(words));
}

/// Append the kernel launch and the swap.
fn push_kernel(steps: &mut Vec<DeviceStep>, op: BoolOp, words: usize)
    ensures
        final(steps)@ == old(steps)@ + seq![
            device_plan::kernel_step(op, words),
            device_plan::swap_step(),
        ],
{
    steps.push(
        DeviceStep {
            what: "BitmapOpKernel::compute",
            action: DeviceAction::Compute { op, words },
        },
    );
    steps.push(DeviceStep { what: "swap", action: DeviceAction::Swap });
    assert(steps@ =~= old(steps)@ + seq![
        device_plan::kernel_step(op, words),
        device_plan::swap_step(),
    ]);
}

/// Append the copy back and the wait.
fn push_finish(
    steps: &mut Vec<DeviceStep>,
    src: DeviceSlot,
    words: usize,
    copy: &'static str,
    sync: &'static str,
)
    ensures
        final(steps)@ == old(steps)@ + finish_steps(src, words, copy, sync),
{
    steps.push(DeviceStep { what: copy, action: DeviceAction::Download { src, words } });
    steps.push(DeviceStep { what: sync, action: DeviceAction::Sync });
    assert(steps@ =~= old(steps)@ + finish_steps(src, words, copy, sync));
}

/// A copy of an array.
fn copy_words(words: &[u32]) -> (r: Vec<u32>)
    ensures
        r@ == words@,
{
    let n: usize = words.len();
    let mut out: Vec<u32> = Vec::new();
    let mut i: usize = 0;
    while i < n
        invariant
            n == words@.len(),
            i <= n,
            out@ == words@.take(i as int),
        decreases n - i,
    {
        out.push(words[i]);
        i = i + 1;
        assert(out@ =~= words@.take(i as int));
    }
    assert(words@.take(n as int) =~= words@);
    out
}

} // verus!
