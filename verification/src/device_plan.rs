//! Steps of device work, and what they compute.
//!
//! A fold on the device is planned as a list of steps that a driver carries out in
//! order, on one stream: reserve buffers, copy words in, between buffers and out,
//! launch the kernel, swap two buffers. This module says what each step does to the
//! words on the device, when a step stays within its buffers, and what a whole fold
//! leaves behind.

use vstd::prelude::*;

use crate::flat;

use crate::flat::BoolOp;

verus! {

/// One of the three buffers that the kernel works on.
#[derive(Debug, Clone, Copy, PartialEq, Eq, Structural)]
pub enum DeviceSlot {
    /// First operand, and the accumulator of a fold.
    A,
    /// Second operand.
    B,
    /// Result.
    Out,
}

/// One piece of work for the driver.
#[derive(Debug, Clone, Copy, PartialEq, Eq, Structural)]
pub enum DeviceAction {
    /// Allocate a buffer that is to replace `slot`.
    Reserve {
        /// The buffer to replace.
        slot: DeviceSlot,
        /// Words to allocate.
        words: usize,
    },
    /// Free the three buffers and put the reserved ones in their place.
    Install {
        /// Words of each reserved buffer.
        words: usize,
    },
    /// Replace the workbench by a fresh allocation.
    GrowBench {
        /// Bytes to allocate.
        bytes: usize,
    },
    /// Copy the words of a host array to the front of a buffer.
    Upload {
        /// The buffer.
        dst: DeviceSlot,
        /// Number of the host array.
        term: usize,
        /// Words to copy.
        words: usize,
    },
    /// Set words at the front of a buffer to zero.
    Zero {
        /// The buffer.
        dst: DeviceSlot,
        /// Words to clear.
        words: usize,
    },
    /// Copy the 2048 words of a bucket from the device buffer of a cached term.
    CopyBucket {
        /// The buffer to copy to.
        dst: DeviceSlot,
        /// First word to write.
        dst_word: usize,
        /// Number of the cached term.
        term: usize,
        /// First word to read.
        src_word: usize,
    },
    /// Copy the 2048 words of a bucket from the workbench.
    CopyBench {
        /// The buffer to copy to.
        dst: DeviceSlot,
        /// First word to write.
        dst_word: usize,
        /// First word to read.
        src_word: usize,
    },
    /// Launch the kernel: `out = a op b` on words at the front of the buffers.
    Compute {
        /// The operation.
        op: BoolOp,
        /// Words to compute.
        words: usize,
    },
    /// Let the result buffer and the accumulator change places.
    Swap,
    /// Copy words from the front of a buffer into a fresh host array.
    Download {
        /// The buffer.
        src: DeviceSlot,
        /// Words to copy.
        words: usize,
    },
    /// Make the host array one of zeros.
    HostZero {
        /// Words of the host array.
        words: usize,
    },
    /// Copy the 2048 words of a bucket of a cached term into the host array.
    GatherBucket {
        /// First word to write.
        dst_word: usize,
        /// Number of the cached term.
        term: usize,
        /// First word to read.
        src_word: usize,
    },
    /// Copy the 2048 words of a bucket from the workbench into the host array.
    GatherBench {
        /// First word to write.
        dst_word: usize,
        /// First word to read.
        src_word: usize,
    },
    /// Wait until everything queued so far is done.
    Sync,
}

/// A piece of work and the call site reported when it fails.
#[derive(Debug, Clone, Copy, PartialEq, Eq)]
pub struct DeviceStep {
    /// Call site, for error reports.
    pub what: &'static str,
    /// What to do.
    pub action: DeviceAction,
}

/// Where a decompressed chunk goes.
#[derive(Debug, Clone, Copy, PartialEq, Eq, Structural)]
pub struct ChunkSlot {
    /// Number of the cached term.
    pub term: usize,
    /// Number of the chunk within the term.
    pub chunk: usize,
    /// First byte of the workbench to write.
    pub byte_offset: usize,
}

/// The words on the device, and the host array that receives a result.
pub struct DeviceMemory {
    /// Words of buffer `A`.
    pub a: Seq<u32>,
    /// Words of buffer `B`.
    pub b: Seq<u32>,
    /// Words of the result buffer.
    pub out: Seq<u32>,
    /// Words of the workbench.
    pub bench: Seq<u32>,
    /// The host array.
    pub host: Seq<u32>,
}

/// What a plan reads: host arrays, the device buffers of cached terms, the words that
/// the chunks of cached terms decompress to, and whatever fresh allocations hold.
pub struct DeviceInputs {
    /// Host arrays.
    pub hosts: Seq<Seq<u32>>,
    /// Device buffers of cached terms.
    pub bufs: Seq<Seq<u32>>,
    /// The words of each chunk of each cached term.
    pub plain: Seq<Seq<Seq<u32>>>,
    /// What a fresh allocation for a buffer holds.
    pub junk: spec_fn(DeviceSlot, int) -> u32,
    /// What a fresh workbench holds.
    pub bench_junk: spec_fn(int) -> u32,
}

/// `words` with `data` written from `off` on.
pub open spec fn written(words: Seq<u32>, off: int, data: Seq<u32>) -> Seq<u32> {
    Seq::new(
        words.len(),
        |i: int|
            if off <= i < off + data.len() {
                data[i - off]
            } else {
                words[i]
            },
    )
}

/// `n` zero words.
pub open spec fn zeros(n: int) -> Seq<u32> {
    Seq::new(n as nat, |i: int| 0u32)
}

impl DeviceMemory {
    /// The words of a buffer.
    pub open spec fn slot(self, s: DeviceSlot) -> Seq<u32> {
        match s {
            DeviceSlot::A => self.a,
            DeviceSlot::B => self.b,
            DeviceSlot::Out => self.out,
        }
    }

    /// The memory with other words in a buffer.
    pub open spec fn with_slot(self, s: DeviceSlot, words: Seq<u32>) -> DeviceMemory {
        match s {
            DeviceSlot::A => DeviceMemory { a: words, ..self },
            DeviceSlot::B => DeviceMemory { b: words, ..self },
            DeviceSlot::Out => DeviceMemory { out: words, ..self },
        }
    }

    /// All three buffers have at least `n` words, and the workbench holds `bench`.
    pub open spec fn ready(self, n: int, bench: Seq<u32>) -> bool {
        self.a.len() >= n && self.b.len() >= n && self.out.len() >= n && self.bench == bench
    }
}

/// What a fresh buffer of `n` words holds.
pub open spec fn fresh_words(inputs: DeviceInputs, s: DeviceSlot, n: int) -> Seq<u32> {
    Seq::new(n as nat, |i: int| (inputs.junk)(s, i))
}

/// What an action does.
pub open spec fn act(m: DeviceMemory, action: DeviceAction, inputs: DeviceInputs) -> DeviceMemory {
    match action {
        DeviceAction::Reserve { .. } => m,
        DeviceAction::Install { words } => DeviceMemory {
            a: fresh_words(inputs, DeviceSlot::A, words as int),
            b: fresh_words(inputs, DeviceSlot::B, words as int),
            out: fresh_words(inputs, DeviceSlot::Out, words as int),
            ..m
        },
        DeviceAction::GrowBench { bytes } => DeviceMemory {
            bench: Seq::new((bytes / 4) as nat, |i: int| (inputs.bench_junk)(i)),
            ..m
        },
        DeviceAction::Upload { dst, term, words } => m.with_slot(
            dst,
            written(m.slot(dst), 0, inputs.hosts[term as int].take(words as int)),
        ),
        DeviceAction::Zero { dst, words } => m.with_slot(
            dst,
            written(m.slot(dst), 0, zeros(words as int)),
        ),
        DeviceAction::CopyBucket { dst, dst_word, term, src_word } => m.with_slot(
            dst,
            written(
                m.slot(dst),
                dst_word as int,
                inputs.bufs[term as int].subrange(src_word as int, src_word + 2048),
            ),
        ),
        DeviceAction::CopyBench { dst, dst_word, src_word } => m.with_slot(
            dst,
            written(
                m.slot(dst),
                dst_word as int,
                m.bench.subrange(src_word as int, src_word + 2048),
            ),
        ),
        DeviceAction::Compute { op, words } => DeviceMemory {
            out: written(
                m.out,
                0,
                flat::op_words(op, m.a.take(words as int), m.b.take(words as int)),
            ),
            ..m
        },
        DeviceAction::Swap => DeviceMemory { a: m.out, out: m.a, ..m },
        DeviceAction::Download { src, words } => DeviceMemory {
            host: m.slot(src).take(words as int),
            ..m
        },
        DeviceAction::HostZero { words } => DeviceMemory { host: zeros(words as int), ..m },
        DeviceAction::GatherBucket { dst_word, term, src_word } => DeviceMemory {
            host: written(
                m.host,
                dst_word as int,
                inputs.bufs[term as int].subrange(src_word as int, src_word + 2048),
            ),
            ..m
        },
        DeviceAction::GatherBench { dst_word, src_word } => DeviceMemory {
            host: written(
                m.host,
                dst_word as int,
                m.bench.subrange(src_word as int, src_word + 2048),
            ),
            ..m
        },
        DeviceAction::Sync => m,
    }
}

/// An action reads and writes only words that are there.
pub open spec fn in_bounds(
    m: DeviceMemory,
    action: DeviceAction,
    inputs: DeviceInputs,
) -> bool {
    match action {
        DeviceAction::Upload { dst, term, words } => words <= m.slot(dst).len() && term
            < inputs.hosts.len() && words <= inputs.hosts[term as int].len(),
        DeviceAction::Zero { dst, words } => words <= m.slot(dst).len(),
        DeviceAction::CopyBucket { dst, dst_word, term, src_word } => dst_word + 2048 <= m.slot(
            dst,
        ).len() && term < inputs.bufs.len() && src_word + 2048 <= inputs.bufs[term as int].len(),
        DeviceAction::CopyBench { dst, dst_word, src_word } => dst_word + 2048 <= m.slot(dst).len()
            && src_word + 2048 <= m.bench.len(),
        DeviceAction::Compute { op, words } => words <= m.a.len() && words <= m.b.len() && words
            <= m.out.len(),
        DeviceAction::Download { src, words } => words <= m.slot(src).len(),
        DeviceAction::GatherBucket { dst_word, term, src_word } => dst_word + 2048 <= m.host.len()
            && term < inputs.bufs.len() && src_word + 2048 <= inputs.bufs[term as int].len(),
        DeviceAction::GatherBench { dst_word, src_word } => dst_word + 2048 <= m.host.len()
            && src_word + 2048 <= m.bench.len(),
        _ => true,
    }
}

/// What steps do, one after the other.
pub open spec fn run(m: DeviceMemory, steps: Seq<DeviceStep>, inputs: DeviceInputs) -> DeviceMemory
    decreases steps.len(),
{
    if steps.len() == 0 {
        m
    } else {
        act(run(m, steps.drop_last(), inputs), steps.last().action, inputs)
    }
}

/// Every step stays in bounds.
pub open spec fn safe(m: DeviceMemory, steps: Seq<DeviceStep>, inputs: DeviceInputs) -> bool
    decreases steps.len(),
{
    steps.len() == 0 || (safe(m, steps.drop_last(), inputs) && in_bounds(
        run(m, steps.drop_last(), inputs),
        steps.last().action,
        inputs,
    ))
}

/// What decompressing chunks leaves on the workbench.
pub open spec fn bench_after(bench: Seq<u32>, batch: Seq<ChunkSlot>, inputs: DeviceInputs) -> Seq<
    u32,
>
    decreases batch.len(),
{
    if batch.len() == 0 {
        bench
    } else {
        let c = batch.last();
        written(
            bench_after(bench, batch.drop_last(), inputs),
            c.byte_offset as int / 4,
            inputs.plain[c.term as int][c.chunk as int],
        )
    }
}

/// Every chunk lands on the workbench.
pub open spec fn batch_safe(bench: Seq<u32>, batch: Seq<ChunkSlot>, inputs: DeviceInputs) -> bool {
    forall|i: int|
        0 <= i < batch.len() ==> {
            let c = #[trigger] batch[i];
            &&& c.byte_offset % 4 == 0
            &&& c.term < inputs.plain.len()
            &&& c.chunk < inputs.plain[c.term as int].len()
            &&& c.byte_offset as int / 4 + inputs.plain[c.term as int][c.chunk as int].len()
                <= bench.len()
        }
}

/// Steps one after the other: first all of `s`, then all of `t`.
pub proof fn lemma_run_concat(
    m: DeviceMemory,
    s: Seq<DeviceStep>,
    t: Seq<DeviceStep>,
    inputs: DeviceInputs,
)
    ensures
        run(m, s + t, inputs) == run(run(m, s, inputs), t, inputs),
        safe(m, s + t, inputs) == (safe(m, s, inputs) && safe(run(m, s, inputs), t, inputs)),
    decreases t.len(),
{
    if t.len() == 0 {
        assert(s + t =~= s);
    } else {
        lemma_run_concat(m, s, t.drop_last(), inputs);
        assert((s + t).drop_last() =~= s + t.drop_last());
        assert((s + t).last() == t.last());
    }
}

/// What a single step does.
pub proof fn lemma_run_one(m: DeviceMemory, s: DeviceStep, inputs: DeviceInputs)
    ensures
        run(m, seq![s], inputs) == act(m, s.action, inputs),
        safe(m, seq![s], inputs) == in_bounds(m, s.action, inputs),
{
    assert(seq![s].drop_last() =~= Seq::empty());
    assert(seq![s].last() == s);
    assert(run(m, Seq::empty(), inputs) == m);
    assert(safe(m, Seq::empty(), inputs));
}

/// Steps of a fold over `n` terms: the first term is loaded into the accumulator, and
/// each further term into the second operand, followed by the kernel and a swap.
pub open spec fn fold_steps(
    load: spec_fn(DeviceSlot, int) -> Seq<DeviceStep>,
    op: BoolOp,
    words: usize,
    n: int,
) -> Seq<DeviceStep>
    decreases n,
{
    if n <= 1 {
        load(DeviceSlot::A, 0)
    } else {
        fold_steps(load, op, words, n - 1) + load(DeviceSlot::B, n - 1) + seq![
            kernel_step(op, words),
            swap_step(),
        ]
    }
}

/// Launch the kernel.
pub open spec fn kernel_step(op: BoolOp, words: usize) -> DeviceStep {
    DeviceStep { what: "BitmapOpKernel::compute", action: DeviceAction::Compute { op, words } }
}

/// Swap the accumulator and the result.
pub open spec fn swap_step() -> DeviceStep {
    DeviceStep { what: "swap", action: DeviceAction::Swap }
}

/// Loading term `i` into a buffer leaves `data[i]` at its front, whatever was there,
/// and touches nothing else.
pub open spec fn loads_term(
    load: spec_fn(DeviceSlot, int) -> Seq<DeviceStep>,
    dst: DeviceSlot,
    i: int,
    m: DeviceMemory,
    data: Seq<Seq<u32>>,
    words: int,
    inputs: DeviceInputs,
) -> bool {
    let after = run(m, load(dst, i), inputs);
    &&& safe(m, load(dst, i), inputs)
    &&& after == m.with_slot(dst, after.slot(dst))
    &&& after.slot(dst).len() == m.slot(dst).len()
    &&& after.slot(dst).take(words) == data[i]
}

/// A fold leaves the word-wise fold of all terms in the accumulator, stays in bounds,
/// and keeps the workbench.
pub proof fn lemma_fold_steps(
    load: spec_fn(DeviceSlot, int) -> Seq<DeviceStep>,
    op: BoolOp,
    words: usize,
    n: int,
    m: DeviceMemory,
    data: Seq<Seq<u32>>,
    bench: Seq<u32>,
    inputs: DeviceInputs,
)
    requires
        1 <= n <= data.len(),
        m.ready(words as int, bench),
        forall|i: int| 0 <= i < data.len() ==> (#[trigger] data[i]).len() == words,
        forall|dst: DeviceSlot, i: int, mem: DeviceMemory|
            0 <= i < data.len() && mem.ready(words as int, bench) ==> #[trigger] loads_term(
                load,
                dst,
                i,
                mem,
                data,
                words as int,
                inputs,
            ),
    ensures
        safe(m, fold_steps(load, op, words, n), inputs),
        ({
            let after = run(m, fold_steps(load, op, words, n), inputs);
            &&& after.ready(words as int, bench)
            &&& after.a.take(words as int) == flat::fold_words(op, data, n)
        }),
        flat::fold_words(op, data, n).len() == words,
    decreases n,
{
    if n == 1 {
        assert(loads_term(load, DeviceSlot::A, 0, m, data, words as int, inputs));
        assert(data[0].len() == words);
    } else {
        lemma_fold_steps(load, op, words, n - 1, m, data, bench, inputs);
        let front = fold_steps(load, op, words, n - 1);
        let before = run(m, front, inputs);
        let loading = load(DeviceSlot::B, n - 1);
        assert(loads_term(load, DeviceSlot::B, n - 1, before, data, words as int, inputs));
        let loaded = run(before, loading, inputs);
        let k = kernel_step(op, words);
        let s = swap_step();
        let tail = seq![k, s];
        assert(tail =~= seq![k] + seq![s]);
        lemma_run_concat(loaded, seq![k], seq![s], inputs);
        lemma_run_one(loaded, k, inputs);
        let computed = act(loaded, k.action, inputs);
        lemma_run_one(computed, s, inputs);
        lemma_run_concat(m, front, loading, inputs);
        lemma_run_concat(m, front + loading, tail, inputs);
        assert(data[n - 1].len() == words);
        let result = flat::op_words(
            op,
            loaded.a.take(words as int),
            loaded.b.take(words as int),
        );
        assert(result == flat::fold_words(op, data, n));
        assert(written(loaded.out, 0, result).take(words as int) =~= result);
    }
}

} // verus!
