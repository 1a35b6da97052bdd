//! What the device plans compute.
//!
//! For each way of folding, carrying out the plan stays within the buffers and leaves
//! the word-wise fold of the terms in the host array, whatever the buffers held
//! before and whatever fresh allocations hold. With bucket keys that cover all terms,
//! the documents of those words are the fold of the documents of the terms.

use std::sync::Arc;
use vstd::prelude::*;

use crate::bitmap;
use crate::cuda_dispatch;
use crate::device_plan;
use crate::flat;
use crate::keyset;
use crate::shared_bitmap_payload;
use crate::vram_cht_v3;

use crate::cuda_dispatch::{PlanView, TermSource};
use crate::device_plan::{
    ChunkSlot, DeviceAction, DeviceInputs, DeviceMemory, DeviceSlot, DeviceStep,
};
use crate::flat::BoolOp;
use crate::vram_cht_v3::{DeviceChunkSlice, VramCompressedTermEntry};

verus! {

/// The words of a term with bucket keys `own`, laid out for `keys`, as far as its
/// first `n` buckets go; zeros where it has no bucket.
pub open spec fn aligned_upto(src: Seq<u32>, own: Seq<u16>, keys: Seq<u16>, n: int) -> Seq<u32> {
    Seq::new(
        (2048 * keys.len()) as nat,
        |p: int|
            match cuda_dispatch::key_place(own, keys[p / 2048]) {
                Some(j) => if j < n {
                    src[2048 * j + p % 2048]
                } else {
                    0u32
                },
                None => 0u32,
            },
    )
}

/// The words of a term with bucket keys `own`, laid out for `keys`.
pub open spec fn aligned(src: Seq<u32>, own: Seq<u16>, keys: Seq<u16>) -> Seq<u32> {
    aligned_upto(src, own, keys, own.len() as int)
}

/// A key of an ascending list stands in one place only.
proof fn lemma_place(own: Seq<u16>, i: int)
    requires
        keyset::increasing(own),
        0 <= i < own.len(),
    ensures
        cuda_dispatch::key_place(own, own[i]) == Some(i),
{
    assert(own.contains(own[i]));
    let p = choose|p: int| 0 <= p < own.len() && own[p] == own[i];
    if p < i {
        assert(own[p] < own[i]);
    } else if i < p {
        assert(own[i] < own[p]);
    }
}

/// The place of a key holds it.
proof fn lemma_placed(own: Seq<u16>, key: u16)
    ensures
        match cuda_dispatch::key_place(own, key) {
            Some(j) => 0 <= j < own.len() && own[j] == key,
            None => !own.contains(key),
        },
{
    if own.contains(key) {
        let w = choose|i: int| 0 <= i < own.len() && own[i] == key;
        assert(own[w] == key);
    }
}

/// The documents of a term do not change when it is laid out for keys that cover it.
pub proof fn lemma_aligned_docs(src: Seq<u32>, own: Seq<u16>, keys: Seq<u16>)
    requires
        flat::flat_wf(own, src),
        keyset::increasing(keys),
        forall|i: int| 0 <= i < own.len() ==> keys.contains(#[trigger] own[i]),
    ensures
        flat::flat_wf(keys, aligned(src, own, keys)),
        flat::flat_docs(keys, aligned(src, own, keys)) == flat::flat_docs(own, src),
{
    let words = aligned(src, own, keys);
    assert forall|d: u32| flat::flat_docs(keys, words).contains(d) == flat::flat_docs(
        own,
        src,
    ).contains(d) by {
        let high = (d / 65536) as u16;
        let low = (d % 65536) as u16;
        lemma_placed(own, high);
        lemma_placed(keys, high);
        if own.contains(high) {
            let j = cuda_dispatch::key_place(own, high)->0;
            assert(keys.contains(own[j]));
            let i = cuda_dispatch::key_place(keys, high)->0;
            flat::lemma_flat_bucket(own, src, j, d);
            flat::lemma_flat_bucket(keys, words, i, d);
            let w = low as int / 32;
            assert((2048 * i + w) / 2048 == i && (2048 * i + w) % 2048 == w);
            assert(flat::window(words, i)[w] == words[2048 * i + w]);
            assert(flat::window(src, j)[w] == src[2048 * j + w]);
            assert(words[2048 * i + w] == src[2048 * j + w]);
        } else {
            assert(!flat::has_flat_doc(own, src, d)) by {
                if flat::has_flat_doc(own, src, d) {
                    let j = choose|j: int|
                        0 <= j < own.len() && #[trigger] own[j] == d / 65536 && bitmap::has_bit(
                            flat::window(src, j),
                            low,
                        );
                    assert(own[j] == high);
                }
            }
            if keys.contains(high) {
                let i = cuda_dispatch::key_place(keys, high)->0;
                flat::lemma_flat_bucket(keys, words, i, d);
                let w = low as int / 32;
                assert((2048 * i + w) / 2048 == i);
                assert(flat::window(words, i)[w] == words[2048 * i + w]);
                assert(words[2048 * i + w] == 0);
                bitmap::lemma_bit_zero(low as int % 32);
            } else {
                if flat::has_flat_doc(keys, words, d) {
                    let i = choose|i: int|
                        0 <= i < keys.len() && #[trigger] keys[i] == d / 65536 && bitmap::has_bit(
                            flat::window(words, i),
                            low,
                        );
                    assert(keys[i] == high);
                }
            }
        }
    }
    assert(flat::flat_docs(keys, words) =~= flat::flat_docs(own, src));
}

/// The words of a term are where its source says.
pub open spec fn source_holds(
    source: TermSource,
    src: Seq<u32>,
    bench: Seq<u32>,
    inputs: DeviceInputs,
) -> bool {
    match source {
        TermSource::Buffer { term } => term < inputs.bufs.len() && inputs.bufs[term as int] == src,
        TermSource::Bench { word } => word + src.len() <= bench.len() && bench.subrange(
            word as int,
            word + src.len(),
        ) == src,
    }
}

/// Scattering the first `n` buckets of a term into a cleared buffer.
proof fn lemma_buckets(
    source: TermSource,
    dst: DeviceSlot,
    index: Seq<(u16, u32)>,
    keys: Seq<u16>,
    words: usize,
    n: int,
    m: DeviceMemory,
    inputs: DeviceInputs,
    src: Seq<u32>,
    bench: Seq<u32>,
)
    requires
        shared_bitmap_payload::index_wf(index),
        src.len() == 2048 * index.len(),
        keyset::increasing(keys),
        words == 2048 * keys.len(),
        0 <= n <= index.len(),
        m.ready(words as int, bench),
        bench.len() <= usize::MAX,
        source_holds(source, src, bench, inputs),
        m.slot(dst).take(words as int) == device_plan::zeros(words as int),
    ensures
        ({
            let steps = cuda_dispatch::bucket_steps(source, dst, index, keys, n);
            let after = device_plan::run(m, steps, inputs);
            &&& device_plan::safe(m, steps, inputs)
            &&& after == m.with_slot(dst, after.slot(dst))
            &&& after.slot(dst).len() == m.slot(dst).len()
            &&& after.slot(dst).take(words as int) == aligned_upto(
                src,
                shared_bitmap_payload::index_keys(index),
                keys,
                n,
            )
        }),
    decreases n,
{
    let own = shared_bitmap_payload::index_keys(index);
    let steps = cuda_dispatch::bucket_steps(source, dst, index, keys, n);
    if n == 0 {
        let after = device_plan::run(m, steps, inputs);
        assert(after == m);
        assert(m == m.with_slot(dst, m.slot(dst)));
        assert forall|p: int| 0 <= p < 2048 * keys.len() implies #[trigger] aligned_upto(
            src,
            own,
            keys,
            0,
        )[p] == 0u32 by {
            lemma_placed(own, keys[p / 2048]);
        }
        assert(aligned_upto(src, own, keys, 0) =~= device_plan::zeros(words as int));
    } else {
        lemma_buckets(source, dst, index, keys, words, n - 1, m, inputs, src, bench);
        let front = cuda_dispatch::bucket_steps(source, dst, index, keys, n - 1);
        let before = device_plan::run(m, front, inputs);
        let key = index[n - 1].0;
        assert(own[n - 1] == key);
        lemma_place(own, n - 1);
        lemma_placed(keys, key);
        match cuda_dispatch::key_place(keys, key) {
            None => {
                assert forall|p: int| 0 <= p < 2048 * keys.len() implies #[trigger] aligned_upto(
                    src,
                    own,
                    keys,
                    n,
                )[p] == aligned_upto(src, own, keys, n - 1)[p] by {
                    lemma_placed(own, keys[p / 2048]);
                    assert(keys.contains(keys[p / 2048]));
                }
                assert(aligned_upto(src, own, keys, n) =~= aligned_upto(src, own, keys, n - 1));
            },
            Some(j) => {
                let offset = index[n - 1].1;
                assert(offset == 2048 * (n - 1));
                let step = cuda_dispatch::copy_step(source, dst, j, offset);
                assert(steps.drop_last() =~= front);
                assert(steps.last() == step);
                let x = before.slot(dst);
                let data = src.subrange(offset as int, offset + 2048);
                assert(before.bench == bench);
                match source {
                    TermSource::Buffer { term } => {
                        assert(inputs.bufs[term as int].subrange(offset as int, offset + 2048)
                            == data);
                    },
                    TermSource::Bench { word } => {
                        assert(bench.subrange((word + offset) as int, word + offset + 2048)
                            =~= data) by {
                            assert forall|q: int| 0 <= q < 2048 implies bench[word + offset + q]
                                == data[q] by {
                                assert(bench.subrange(word as int, word + src.len())[offset + q]
                                    == src[offset + q]);
                            }
                        }
                    },
                }
                let y = device_plan::written(x, 2048 * j, data);
                let after = device_plan::act(before, step.action, inputs);
                assert(after == before.with_slot(dst, y));
                assert(after.slot(dst) == y);
                assert(after == m.with_slot(dst, y));
                assert forall|p: int| 0 <= p < words implies y.take(words as int)[p]
                    == #[trigger] aligned_upto(src, own, keys, n)[p] by {
                    let k = keys[p / 2048];
                    lemma_placed(own, k);
                    assert(x.take(words as int)[p] == aligned_upto(src, own, keys, n - 1)[p]);
                    if p / 2048 == j {
                        assert(cuda_dispatch::key_place(own, k) == Some(n - 1));
                        assert(2048 * j <= p < 2048 * j + 2048);
                        assert(p % 2048 == p - 2048 * j);
                        assert(data[p - 2048 * j] == src[2048 * (n - 1) + p % 2048]);
                    } else {
                        assert(!(2048 * j <= p < 2048 * j + 2048));
                        if k == key {
                            if p / 2048 < j {
                                assert(keys[p / 2048] < keys[j]);
                            } else {
                                assert(keys[j] < keys[p / 2048]);
                            }
                        }
                        assert(cuda_dispatch::key_place(own, k) != Some(n - 1));
                    }
                }
                assert(y.take(words as int) =~= aligned_upto(src, own, keys, n));
            },
        }
    }
}

/// Scattering a term leaves its words, laid out for the keys, at the front of the
/// buffer, whatever was there, and touches nothing else.
pub proof fn lemma_scatter(
    source: TermSource,
    dst: DeviceSlot,
    index: Seq<(u16, u32)>,
    keys: Seq<u16>,
    words: usize,
    m: DeviceMemory,
    inputs: DeviceInputs,
    src: Seq<u32>,
    bench: Seq<u32>,
)
    requires
        shared_bitmap_payload::index_wf(index),
        src.len() == 2048 * index.len(),
        keyset::increasing(keys),
        words == 2048 * keys.len(),
        m.ready(words as int, bench),
        bench.len() <= usize::MAX,
        source_holds(source, src, bench, inputs),
    ensures
        ({
            let steps = cuda_dispatch::scatter_steps(source, dst, index, keys, words);
            let after = device_plan::run(m, steps, inputs);
            &&& device_plan::safe(m, steps, inputs)
            &&& after == m.with_slot(dst, after.slot(dst))
            &&& after.slot(dst).len() == m.slot(dst).len()
            &&& after.slot(dst).take(words as int) == aligned(
                src,
                shared_bitmap_payload::index_keys(index),
                keys,
            )
        }),
{
    let zero = cuda_dispatch::zero_step(source, dst, words);
    let rest = cuda_dispatch::bucket_steps(source, dst, index, keys, index.len() as int);
    device_plan::lemma_run_one(m, zero, inputs);
    let cleared = device_plan::act(m, zero.action, inputs);
    assert(cleared.slot(dst).take(words as int) =~= device_plan::zeros(words as int));
    assert(cleared.ready(words as int, bench));
    lemma_buckets(
        source,
        dst,
        index,
        keys,
        words,
        index.len() as int,
        cleared,
        inputs,
        src,
        bench,
    );
    device_plan::lemma_run_concat(m, seq![zero], rest, inputs);
    let after = device_plan::run(cleared, rest, inputs);
    assert(after == m.with_slot(dst, after.slot(dst)));
}

/// Growing leaves buffers that are large enough, and the workbench as it was.
proof fn lemma_grow(n: int, capacity: int, m: DeviceMemory, inputs: DeviceInputs)
    requires
        n >= 1,
        cuda_dispatch::size_fault(n, capacity) is None,
        m.ready(capacity, m.bench),
    ensures
        device_plan::safe(m, cuda_dispatch::grow_steps(n, capacity), inputs),
        device_plan::run(m, cuda_dispatch::grow_steps(n, capacity), inputs).ready(n, m.bench),
{
    let steps = cuda_dispatch::grow_steps(n, capacity);
    if n > capacity {
        cuda_dispatch::lemma_next_pow2(n);
        let words = cuda_dispatch::next_pow2(n) as usize;
        let (a, b, c, d) = (steps[0], steps[1], steps[2], steps[3]);
        assert(steps =~= seq![a] + seq![b] + seq![c] + seq![d]);
        device_plan::lemma_run_one(m, a, inputs);
        device_plan::lemma_run_one(m, b, inputs);
        device_plan::lemma_run_one(m, c, inputs);
        device_plan::lemma_run_one(m, d, inputs);
        device_plan::lemma_run_concat(m, seq![a], seq![b], inputs);
        device_plan::lemma_run_concat(m, seq![a] + seq![b], seq![c], inputs);
        device_plan::lemma_run_concat(m, seq![a] + seq![b] + seq![c], seq![d], inputs);
    }
}

/// Copying the words of a buffer back puts them into the host array.
proof fn lemma_finish(
    src: DeviceSlot,
    words: usize,
    copy: &'static str,
    sync: &'static str,
    m: DeviceMemory,
    inputs: DeviceInputs,
)
    requires
        m.slot(src).len() >= words,
    ensures
        ({
            let steps = cuda_dispatch::finish_steps(src, words, copy, sync);
            &&& device_plan::safe(m, steps, inputs)
            &&& device_plan::run(m, steps, inputs).host == m.slot(src).take(words as int)
        }),
{
    let steps = cuda_dispatch::finish_steps(src, words, copy, sync);
    let (a, b) = (steps[0], steps[1]);
    assert(steps =~= seq![a] + seq![b]);
    device_plan::lemma_run_one(m, a, inputs);
    let after = device_plan::act(m, a.action, inputs);
    device_plan::lemma_run_one(after, b, inputs);
    device_plan::lemma_run_concat(m, seq![a], seq![b], inputs);
}

/// What carrying out a plan leaves on the device: growth, then decompression, then
/// the steps.
pub open spec fn after_plan(
    m: DeviceMemory,
    grow: Seq<DeviceStep>,
    batch: Seq<ChunkSlot>,
    steps: Seq<DeviceStep>,
    inputs: DeviceInputs,
) -> DeviceMemory {
    let grown = device_plan::run(m, grow, inputs);
    device_plan::run(
        DeviceMemory { bench: device_plan::bench_after(grown.bench, batch, inputs), ..grown },
        steps,
        inputs,
    )
}

/// Carrying out a plan stays in bounds.
pub open spec fn plan_safe(
    m: DeviceMemory,
    grow: Seq<DeviceStep>,
    batch: Seq<ChunkSlot>,
    steps: Seq<DeviceStep>,
    inputs: DeviceInputs,
) -> bool {
    let grown = device_plan::run(m, grow, inputs);
    &&& device_plan::safe(m, grow, inputs)
    &&& device_plan::batch_safe(grown.bench, batch, inputs)
    &&& device_plan::safe(
        DeviceMemory { bench: device_plan::bench_after(grown.bench, batch, inputs), ..grown },
        steps,
        inputs,
    )
}

/// Carrying out a plan stays in bounds and leaves `words` in the host array.
pub open spec fn plan_gives(
    m: DeviceMemory,
    grow: Seq<DeviceStep>,
    batch: Seq<ChunkSlot>,
    steps: Seq<DeviceStep>,
    inputs: DeviceInputs,
    words: Seq<u32>,
) -> bool {
    plan_safe(m, grow, batch, steps, inputs) && after_plan(m, grow, batch, steps, inputs).host
        == words
}

/// A plan gives `words`, from any memory with buffers of `capacity` words and a
/// workbench of `bench_words` words.
pub open spec fn gives(
    plan: PlanView,
    capacity: int,
    bench_words: int,
    inputs: DeviceInputs,
    words: Seq<u32>,
) -> bool {
    match plan {
        PlanView::Fail(_) => false,
        PlanView::Fault { .. } => false,
        PlanView::Done(w) => w == words,
        PlanView::Run { grow, batch, steps } => forall|m: DeviceMemory|
            m.ready(capacity, m.bench) && m.bench.len() == bench_words
                ==> #[trigger] plan_gives(m, grow, batch, steps, inputs, words),
    }
}

/// Two host arrays are combined word by word.
pub proof fn lemma_pair_plan(
    capacity: int,
    bench_words: int,
    op: BoolOp,
    a: Seq<u32>,
    b: Seq<u32>,
    inputs: DeviceInputs,
)
    requires
        a.len() == b.len(),
        a.len() > 0 ==> cuda_dispatch::size_fault(a.len() as int, capacity) is None,
        cuda_dispatch::launchable(a.len() as int),
        inputs.hosts == seq![a, b],
    ensures
        gives(
            cuda_dispatch::pair_plan(capacity, op, a.len() as int, b.len() as int),
            capacity,
            bench_words,
            inputs,
            flat::op_words(op, a, b),
        ),
{
    let n = a.len() as int;
    if n == 0 {
        assert(flat::op_words(op, a, b) =~= Seq::empty());
    } else {
        let grow = cuda_dispatch::grow_steps(n, capacity);
        let words = n as usize;
        let steps = cuda_dispatch::pair_steps(op, words);
        let batch = Seq::<ChunkSlot>::empty();
        assert(cuda_dispatch::pair_plan(capacity, op, n, n)
            == PlanView::Run { grow, batch, steps });
        assert forall|m: DeviceMemory|
            m.ready(capacity, m.bench) && m.bench.len() == bench_words
                implies #[trigger] plan_gives(
            m,
            grow,
            batch,
            steps,
            inputs,
            flat::op_words(op, a, b),
        ) by {
            lemma_grow(n, capacity, m, inputs);
            let m0 = device_plan::run(m, grow, inputs);
            let (s0, s1, s2) = (steps[0], steps[1], steps[2]);
            let finish = cuda_dispatch::finish_steps(
                DeviceSlot::Out,
                words,
                "cudaMemcpyAsync(out D2H)",
                "cudaStreamSynchronize",
            );
            assert(steps =~= seq![s0] + seq![s1] + seq![s2] + finish);
            device_plan::lemma_run_one(m0, s0, inputs);
            let m1 = device_plan::act(m0, s0.action, inputs);
            device_plan::lemma_run_one(m1, s1, inputs);
            let m2 = device_plan::act(m1, s1.action, inputs);
            device_plan::lemma_run_one(m2, s2, inputs);
            let m3 = device_plan::act(m2, s2.action, inputs);
            device_plan::lemma_run_concat(m0, seq![s0], seq![s1], inputs);
            device_plan::lemma_run_concat(m0, seq![s0] + seq![s1], seq![s2], inputs);
            device_plan::lemma_run_concat(
                m0,
                seq![s0] + seq![s1] + seq![s2],
                finish,
                inputs,
            );
            assert(a.take(n) =~= a);
            assert(b.take(n) =~= b);
            assert(m2.a.take(n) =~= a);
            assert(m2.b.take(n) =~= b);
            assert(m3.out.take(n) =~= flat::op_words(op, a, b));
            lemma_finish(
                DeviceSlot::Out,
                words,
                "cudaMemcpyAsync(out D2H)",
                "cudaStreamSynchronize",
                m3,
                inputs,
            );
        }
    }
}

/// Growth of the workbench stays in bounds.
proof fn lemma_bench_safe(total: int, bench_bytes: int, m: DeviceMemory, inputs: DeviceInputs)
    ensures
        device_plan::safe(m, cuda_dispatch::bench_steps(total, bench_bytes), inputs),
{
    let steps = cuda_dispatch::bench_steps(total, bench_bytes);
    if steps.len() > 0 {
        assert(steps =~= seq![steps[0]]);
        device_plan::lemma_run_one(m, steps[0], inputs);
    }
}

/// What is done before a plan fails stays in bounds, from any memory with buffers of
/// `capacity` words.
pub open spec fn faults_safely(plan: PlanView, capacity: int, inputs: DeviceInputs) -> bool {
    plan matches PlanView::Fault { steps, what } ==> forall|m: DeviceMemory|
        m.ready(capacity, m.bench) ==> #[trigger] device_plan::safe(m, steps, inputs)
}

/// What is done before two host arrays turn out to be too long for the kernel stays in
/// bounds.
pub proof fn lemma_pair_fault(
    capacity: int,
    op: BoolOp,
    a: Seq<u32>,
    b: Seq<u32>,
    inputs: DeviceInputs,
)
    requires
        a.len() <= usize::MAX,
        inputs.hosts == seq![a, b],
    ensures
        faults_safely(
            cuda_dispatch::pair_plan(capacity, op, a.len() as int, b.len() as int),
            capacity,
            inputs,
        ),
{
    let n = a.len() as int;
    if cuda_dispatch::pair_plan(capacity, op, n, b.len() as int) is Fault {
        let grow = cuda_dispatch::grow_steps(n, capacity);
        let uploads = cuda_dispatch::pair_uploads(n as usize);
        assert forall|m: DeviceMemory| m.ready(capacity, m.bench) implies #[trigger]
            device_plan::safe(m, grow + uploads, inputs) by {
            lemma_grow(n, capacity, m, inputs);
            let m0 = device_plan::run(m, grow, inputs);
            let (s0, s1) = (uploads[0], uploads[1]);
            assert(uploads =~= seq![s0] + seq![s1]);
            device_plan::lemma_run_one(m0, s0, inputs);
            let m1 = device_plan::act(m0, s0.action, inputs);
            device_plan::lemma_run_one(m1, s1, inputs);
            device_plan::lemma_run_concat(m0, seq![s0], seq![s1], inputs);
            device_plan::lemma_run_concat(m, grow, uploads, inputs);
        }
    }
}

/// What is done before a fold over host arrays fails stays in bounds.
pub proof fn lemma_host_fault(
    capacity: int,
    op: BoolOp,
    terms: Seq<Seq<u32>>,
    inputs: DeviceInputs,
)
    ensures
        faults_safely(cuda_dispatch::host_plan(capacity, op, terms), capacity, inputs),
{
    if cuda_dispatch::host_plan(capacity, op, terms) is Fault {
        let n = terms[0].len() as int;
        let grow = cuda_dispatch::grow_steps(n, capacity);
        assert forall|m: DeviceMemory| m.ready(capacity, m.bench) implies #[trigger]
            device_plan::safe(m, grow, inputs) by {
            lemma_grow(n, capacity, m, inputs);
        }
    }
}

/// What is done before a fold over terms of the compressed tier fails stays in bounds.
pub proof fn lemma_v3_fault<B>(
    capacity: int,
    bench_bytes: int,
    codec: bool,
    op: BoolOp,
    terms: Seq<Arc<VramCompressedTermEntry<B>>>,
    keys: Seq<u16>,
    inputs: DeviceInputs,
)
    requires
        keyset::increasing(keys),
        capacity >= 0,
    ensures
        faults_safely(
            cuda_dispatch::v3_plan(capacity, bench_bytes, codec, op, terms, keys),
            capacity,
            inputs,
        ),
{
    let plan = cuda_dispatch::v3_plan(capacity, bench_bytes, codec, op, terms, keys);
    if let PlanView::Fault { steps, what } = plan {
        cuda_dispatch::lemma_key_words(keys, capacity);
        let n = terms.len() as int;
        let words = 2048 * keys.len() as int;
        let grow = cuda_dispatch::grow_steps(words, capacity);
        let bench = cuda_dispatch::bench_steps(
            cuda_dispatch::bench_start(terms, n),
            bench_bytes,
        );
        assert forall|m: DeviceMemory| m.ready(capacity, m.bench) implies #[trigger]
            device_plan::safe(m, steps, inputs) by {
            lemma_grow(words, capacity, m, inputs);
            let m0 = device_plan::run(m, grow, inputs);
            lemma_bench_safe(cuda_dispatch::bench_start(terms, n), bench_bytes, m, inputs);
            lemma_bench_safe(cuda_dispatch::bench_start(terms, n), bench_bytes, m0, inputs);
            device_plan::lemma_run_concat(m, grow, bench, inputs);
        }
    }
}

/// The last part of every fold: from grown buffers and a filled workbench, the steps of
/// the fold and the copy back put the word-wise fold into the host array.
proof fn lemma_fold_tail(
    load: spec_fn(DeviceSlot, int) -> Seq<DeviceStep>,
    op: BoolOp,
    words: usize,
    n: int,
    m: DeviceMemory,
    data: Seq<Seq<u32>>,
    bench: Seq<u32>,
    copy: &'static str,
    sync: &'static str,
    inputs: DeviceInputs,
)
    requires
        1 <= n <= data.len(),
        m.ready(words as int, bench),
        forall|i: int| 0 <= i < data.len() ==> (#[trigger] data[i]).len() == words,
        forall|dst: DeviceSlot, i: int, mem: DeviceMemory|
            0 <= i < data.len() && mem.ready(words as int, bench)
                ==> #[trigger] device_plan::loads_term(
                load,
                dst,
                i,
                mem,
                data,
                words as int,
                inputs,
            ),
    ensures
        ({
            let steps = device_plan::fold_steps(load, op, words, n) + cuda_dispatch::finish_steps(
                DeviceSlot::A,
                words,
                copy,
                sync,
            );
            &&& device_plan::safe(m, steps, inputs)
            &&& device_plan::run(m, steps, inputs).host == flat::fold_words(op, data, n)
        }),
{
    device_plan::lemma_fold_steps(load, op, words, n, m, data, bench, inputs);
    let folding = device_plan::fold_steps(load, op, words, n);
    let after = device_plan::run(m, folding, inputs);
    lemma_finish(DeviceSlot::A, words, copy, sync, after, inputs);
    device_plan::lemma_run_concat(
        m,
        folding,
        cuda_dispatch::finish_steps(DeviceSlot::A, words, copy, sync),
        inputs,
    );
}

/// Host arrays of one length are folded word by word.
pub proof fn lemma_host_plan(
    capacity: int,
    bench_words: int,
    op: BoolOp,
    terms: Seq<Seq<u32>>,
    inputs: DeviceInputs,
)
    requires
        terms.len() >= 1,
        terms.len() <= usize::MAX,
        terms[0].len() > 0,
        forall|i: int| 0 <= i < terms.len() ==> (#[trigger] terms[i]).len() == terms[0].len(),
        cuda_dispatch::size_fault(terms[0].len() as int, capacity) is None,
        cuda_dispatch::launchable(terms[0].len() as int),
        inputs.hosts == terms,
    ensures
        gives(
            cuda_dispatch::host_plan(capacity, op, terms),
            capacity,
            bench_words,
            inputs,
            flat::fold_words(op, terms, terms.len() as int),
        ),
{
    let n = terms[0].len() as int;
    let words = n as usize;
    if terms.len() > 1 {
        lemma_no_odd(terms, n, 1);
        let load = cuda_dispatch::host_load(words);
        let grow = cuda_dispatch::grow_steps(n, capacity);
        let batch = Seq::<ChunkSlot>::empty();
        let steps = device_plan::fold_steps(load, op, words, terms.len() as int)
            + cuda_dispatch::finish_steps(
            DeviceSlot::A,
            words,
            "cudaMemcpyAsync(fold result D2H)",
            "cudaStreamSynchronize(fold)",
        );
        assert(cuda_dispatch::host_plan(capacity, op, terms) == PlanView::Run {
            grow,
            batch,
            steps,
        });
        assert forall|m: DeviceMemory|
            m.ready(capacity, m.bench) && m.bench.len() == bench_words
                implies #[trigger] plan_gives(
            m,
            grow,
            batch,
            steps,
            inputs,
            flat::fold_words(op, terms, terms.len() as int),
        ) by {
            lemma_grow(n, capacity, m, inputs);
            let m0 = device_plan::run(m, grow, inputs);
            assert forall|dst: DeviceSlot, i: int, mem: DeviceMemory|
                0 <= i < terms.len() && mem.ready(
                    words as int,
                    m0.bench,
                ) implies #[trigger] device_plan::loads_term(
                load,
                dst,
                i,
                mem,
                terms,
                words as int,
                inputs,
            ) by {
                let step = load(dst, i)[0];
                assert(load(dst, i) =~= seq![step]);
                device_plan::lemma_run_one(mem, step, inputs);
                assert(terms[i].len() == words);
                assert(terms[i].take(words as int) =~= terms[i]);
                assert(device_plan::written(mem.slot(dst), 0, terms[i]).take(words as int)
                    =~= terms[i]);
            }
            lemma_fold_tail(
                load,
                op,
                words,
                terms.len() as int,
                m0,
                terms,
                m0.bench,
                "cudaMemcpyAsync(fold result D2H)",
                "cudaStreamSynchronize(fold)",
                inputs,
            );
        }
    }
}

proof fn lemma_no_odd(terms: Seq<Seq<u32>>, n: int, i: int)
    requires
        0 <= i <= terms.len(),
        forall|j: int| 0 <= j < terms.len() ==> (#[trigger] terms[j]).len() == n,
    ensures
        cuda_dispatch::odd_one(terms, n, i) is None,
    decreases terms.len() - i,
{
    if i < terms.len() {
        assert(terms[i].len() == n);
        lemma_no_odd(terms, n, i + 1);
    }
}

/// Gathering the first `n` buckets of a term into a host array of zeros.
proof fn lemma_gather_buckets(
    source: TermSource,
    index: Seq<(u16, u32)>,
    keys: Seq<u16>,
    words: usize,
    n: int,
    m: DeviceMemory,
    inputs: DeviceInputs,
    src: Seq<u32>,
)
    requires
        shared_bitmap_payload::index_wf(index),
        src.len() == 2048 * index.len(),
        keyset::increasing(keys),
        words == 2048 * keys.len(),
        0 <= n <= index.len(),
        m.bench.len() <= usize::MAX,
        source_holds(source, src, m.bench, inputs),
        m.host == device_plan::zeros(words as int),
    ensures
        ({
            let steps = cuda_dispatch::gather_bucket_steps(source, index, keys, n);
            let after = device_plan::run(m, steps, inputs);
            &&& device_plan::safe(m, steps, inputs)
            &&& after.bench == m.bench
            &&& after.host == aligned_upto(
                src,
                shared_bitmap_payload::index_keys(index),
                keys,
                n,
            )
        }),
    decreases n,
{
    let own = shared_bitmap_payload::index_keys(index);
    let steps = cuda_dispatch::gather_bucket_steps(source, index, keys, n);
    if n == 0 {
        assert forall|p: int| 0 <= p < 2048 * keys.len() implies #[trigger] aligned_upto(
            src,
            own,
            keys,
            0,
        )[p] == 0u32 by {
            lemma_placed(own, keys[p / 2048]);
        }
        assert(aligned_upto(src, own, keys, 0) =~= device_plan::zeros(words as int));
    } else {
        lemma_gather_buckets(source, index, keys, words, n - 1, m, inputs, src);
        let front = cuda_dispatch::gather_bucket_steps(source, index, keys, n - 1);
        let before = device_plan::run(m, front, inputs);
        let key = index[n - 1].0;
        assert(own[n - 1] == key);
        lemma_place(own, n - 1);
        lemma_placed(keys, key);
        match cuda_dispatch::key_place(keys, key) {
            None => {
                assert forall|p: int| 0 <= p < 2048 * keys.len() implies #[trigger] aligned_upto(
                    src,
                    own,
                    keys,
                    n,
                )[p] == aligned_upto(src, own, keys, n - 1)[p] by {
                    lemma_placed(own, keys[p / 2048]);
                    assert(keys.contains(keys[p / 2048]));
                }
                assert(aligned_upto(src, own, keys, n) =~= aligned_upto(src, own, keys, n - 1));
            },
            Some(j) => {
                let offset = index[n - 1].1;
                assert(offset == 2048 * (n - 1));
                let step = cuda_dispatch::gather_step(source, j, offset);
                assert(steps.drop_last() =~= front);
                assert(steps.last() == step);
                let x = before.host;
                let data = src.subrange(offset as int, offset + 2048);
                match source {
                    TermSource::Buffer { term } => {
                        assert(inputs.bufs[term as int].subrange(offset as int, offset + 2048)
                            == data);
                    },
                    TermSource::Bench { word } => {
                        assert(m.bench.subrange((word + offset) as int, word + offset + 2048)
                            =~= data) by {
                            assert forall|q: int| 0 <= q < 2048 implies m.bench[word + offset + q]
                                == data[q] by {
                                assert(m.bench.subrange(word as int, word + src.len())[offset + q]
                                    == src[offset + q]);
                            }
                        }
                    },
                }
                let y = device_plan::written(x, 2048 * j, data);
                let after = device_plan::act(before, step.action, inputs);
                assert(after.host == y);
                assert forall|p: int| 0 <= p < words implies y[p] == #[trigger] aligned_upto(
                    src,
                    own,
                    keys,
                    n,
                )[p] by {
                    let k = keys[p / 2048];
                    lemma_placed(own, k);
                    assert(x[p] == aligned_upto(src, own, keys, n - 1)[p]);
                    if p / 2048 == j {
                        assert(cuda_dispatch::key_place(own, k) == Some(n - 1));
                        assert(2048 * j <= p < 2048 * j + 2048);
                        assert(p % 2048 == p - 2048 * j);
                        assert(data[p - 2048 * j] == src[2048 * (n - 1) + p % 2048]);
                    } else {
                        assert(!(2048 * j <= p < 2048 * j + 2048));
                        if k == key {
                            if p / 2048 < j {
                                assert(keys[p / 2048] < keys[j]);
                            } else {
                                assert(keys[j] < keys[p / 2048]);
                            }
                        }
                        assert(cuda_dispatch::key_place(own, k) != Some(n - 1));
                    }
                }
                assert(y =~= aligned_upto(src, own, keys, n));
            },
        }
    }
}

/// Gathering a term puts its words, laid out for the keys, into the host array.
proof fn lemma_gather(
    source: TermSource,
    index: Seq<(u16, u32)>,
    keys: Seq<u16>,
    words: usize,
    m: DeviceMemory,
    inputs: DeviceInputs,
    src: Seq<u32>,
)
    requires
        shared_bitmap_payload::index_wf(index),
        src.len() == 2048 * index.len(),
        keyset::increasing(keys),
        words == 2048 * keys.len(),
        m.bench.len() <= usize::MAX,
        source_holds(source, src, m.bench, inputs),
    ensures
        ({
            let steps = cuda_dispatch::gather_steps(source, index, keys, words);
            &&& device_plan::safe(m, steps, inputs)
            &&& device_plan::run(m, steps, inputs).host == aligned(
                src,
                shared_bitmap_payload::index_keys(index),
                keys,
            )
        }),
{
    let zero = cuda_dispatch::host_zero_step(words);
    let rest = cuda_dispatch::gather_bucket_steps(source, index, keys, index.len() as int);
    device_plan::lemma_run_one(m, zero, inputs);
    let cleared = device_plan::act(m, zero.action, inputs);
    lemma_gather_buckets(source, index, keys, words, index.len() as int, cleared, inputs, src);
    device_plan::lemma_run_concat(m, seq![zero], rest, inputs);
}

/// The words of terms, each laid out for the keys.
pub open spec fn all_aligned(
    bufs: Seq<Seq<u32>>,
    indexes: Seq<Seq<(u16, u32)>>,
    keys: Seq<u16>,
) -> Seq<Seq<u32>> {
    Seq::new(
        indexes.len(),
        |i: int| aligned(bufs[i], shared_bitmap_payload::index_keys(indexes[i]), keys),
    )
}

/// Bucket indexes and words of terms belong together.
pub open spec fn terms_wf(bufs: Seq<Seq<u32>>, indexes: Seq<Seq<(u16, u32)>>) -> bool {
    &&& bufs.len() == indexes.len()
    &&& forall|i: int|
        0 <= i < indexes.len() ==> shared_bitmap_payload::index_wf(#[trigger] indexes[i])
            && bufs[i].len() == 2048 * indexes[i].len()
}

/// Terms of the uncompressed tier are folded word by word, each laid out for the keys.
pub proof fn lemma_vram_plan(
    capacity: int,
    bench_words: int,
    op: BoolOp,
    indexes: Seq<Seq<(u16, u32)>>,
    keys: Seq<u16>,
    inputs: DeviceInputs,
)
    requires
        1 <= indexes.len() <= usize::MAX,
        terms_wf(inputs.bufs, indexes),
        keyset::increasing(keys),
        keys.len() > 0,
        capacity >= 0,
        0 <= bench_words <= usize::MAX,
    ensures
        gives(
            cuda_dispatch::vram_plan(capacity, op, indexes, keys),
            capacity,
            bench_words,
            inputs,
            flat::fold_words(
                op,
                all_aligned(inputs.bufs, indexes, keys),
                indexes.len() as int,
            ),
        ),
{
    cuda_dispatch::lemma_key_words(keys, capacity);
    let words = (2048 * keys.len()) as usize;
    let n = indexes.len() as int;
    let data = all_aligned(inputs.bufs, indexes, keys);
    let result = flat::fold_words(op, data, n);
    let batch = Seq::<ChunkSlot>::empty();
    if n == 1 {
        let grow = Seq::<DeviceStep>::empty();
        let steps = cuda_dispatch::gather_steps(
            TermSource::Buffer { term: 0 },
            indexes[0],
            keys,
            words,
        );
        assert(cuda_dispatch::vram_plan(capacity, op, indexes, keys) == PlanView::Run {
            grow,
            batch,
            steps,
        });
        assert forall|m: DeviceMemory|
            m.ready(capacity, m.bench) && m.bench.len()
                == bench_words implies #[trigger] plan_gives(
            m,
            grow,
            batch,
            steps,
            inputs,
            result,
        ) by {
            assert(shared_bitmap_payload::index_wf(indexes[0]));
            lemma_gather(
                TermSource::Buffer { term: 0 },
                indexes[0],
                keys,
                words,
                m,
                inputs,
                inputs.bufs[0],
            );
        }
    } else {
        let load = cuda_dispatch::vram_load(indexes, keys, words);
        let grow = cuda_dispatch::grow_steps(words as int, capacity);
        let steps = device_plan::fold_steps(load, op, words, n) + cuda_dispatch::finish_steps(
            DeviceSlot::A,
            words,
            "cudaMemcpyAsync(vram fold result D2H)",
            "cudaStreamSynchronize(vram fold)",
        );
        assert(cuda_dispatch::vram_plan(capacity, op, indexes, keys) == PlanView::Run {
            grow,
            batch,
            steps,
        });
        assert forall|m: DeviceMemory|
            m.ready(capacity, m.bench) && m.bench.len()
                == bench_words implies #[trigger] plan_gives(
            m,
            grow,
            batch,
            steps,
            inputs,
            result,
        ) by {
            lemma_grow(words as int, capacity, m, inputs);
            let m0 = device_plan::run(m, grow, inputs);
            assert forall|dst: DeviceSlot, i: int, mem: DeviceMemory|
                0 <= i < data.len() && mem.ready(
                    words as int,
                    m0.bench,
                ) implies #[trigger] device_plan::loads_term(
                load,
                dst,
                i,
                mem,
                data,
                words as int,
                inputs,
            ) by {
                assert(shared_bitmap_payload::index_wf(indexes[i]));
                lemma_scatter(
                    TermSource::Buffer { term: i as usize },
                    dst,
                    indexes[i],
                    keys,
                    words,
                    mem,
                    inputs,
                    inputs.bufs[i],
                    m0.bench,
                );
            }
            lemma_fold_tail(
                load,
                op,
                words,
                n,
                m0,
                data,
                m0.bench,
                "cudaMemcpyAsync(vram fold result D2H)",
                "cudaStreamSynchronize(vram fold)",
                inputs,
            );
        }
    }
}

/// The documents of each of the terms.
pub open spec fn term_docs(bufs: Seq<Seq<u32>>, indexes: Seq<Seq<(u16, u32)>>) -> Seq<Set<u32>> {
    Seq::new(
        indexes.len(),
        |i: int| flat::flat_docs(shared_bitmap_payload::index_keys(indexes[i]), bufs[i]),
    )
}

/// With keys that cover all terms, the documents of the folded words are the fold of
/// the documents of the terms.
pub proof fn lemma_fold_is_docs(
    op: BoolOp,
    bufs: Seq<Seq<u32>>,
    indexes: Seq<Seq<(u16, u32)>>,
    keys: Seq<u16>,
)
    requires
        indexes.len() >= 1,
        terms_wf(bufs, indexes),
        keyset::increasing(keys),
        forall|i: int, j: int|
            0 <= i < indexes.len() && 0 <= j < indexes[i].len() ==> keys.contains(
                (#[trigger] indexes[i][j]).0,
            ),
    ensures
        flat::flat_docs(
            keys,
            flat::fold_words(op, all_aligned(bufs, indexes, keys), indexes.len() as int),
        ) == flat::fold_docs(op, term_docs(bufs, indexes), indexes.len() as int),
{
    let data = all_aligned(bufs, indexes, keys);
    let n = indexes.len() as int;
    assert forall|i: int| 0 <= i < n implies flat::flat_wf(keys, #[trigger] data[i])
        && flat::flat_docs(keys, data[i]) == term_docs(bufs, indexes)[i] by {
        let own = shared_bitmap_payload::index_keys(indexes[i]);
        assert(shared_bitmap_payload::index_wf(indexes[i]));
        assert forall|j: int| 0 <= j < own.len() implies keys.contains(#[trigger] own[j]) by {
            assert(own[j] == indexes[i][j].0);
        }
        lemma_aligned_docs(bufs[i], own, keys);
    }
    flat::lemma_fold_words(op, keys, data, n);
    assert(Seq::new(data.len(), |i: int| flat::flat_docs(keys, data[i])) =~= term_docs(
        bufs,
        indexes,
    ));
}

/// The first `n` chunks of a term, one behind the other.
pub open spec fn joined(plain: Seq<Seq<u32>>, n: int) -> Seq<u32>
    decreases n,
{
    if n <= 0 {
        Seq::empty()
    } else {
        joined(plain, n - 1) + plain[n - 1]
    }
}

/// The words that each term decompresses to.
pub open spec fn all_joined(plain: Seq<Seq<Seq<u32>>>) -> Seq<Seq<u32>> {
    Seq::new(plain.len(), |i: int| joined(plain[i], plain[i].len() as int))
}

/// The words of each chunk of a term take the bytes the chunk accounts for.
pub open spec fn chunks_fit<B>(chunks: Seq<DeviceChunkSlice<B>>, plain: Seq<Seq<u32>>) -> bool {
    &&& plain.len() == chunks.len()
    &&& forall|k: int|
        0 <= k < chunks.len() ==> 4 * (#[trigger] plain[k]).len() == chunks[k].uncompressed_bytes
}

proof fn lemma_joined_len<B>(chunks: Seq<DeviceChunkSlice<B>>, plain: Seq<Seq<u32>>, n: int)
    requires
        chunks_fit(chunks, plain),
        0 <= n <= chunks.len(),
    ensures
        4 * joined(plain, n).len() == vram_cht_v3::plain_sum(chunks.take(n)),
    decreases n,
{
    if n > 0 {
        lemma_joined_len(chunks, plain, n - 1);
        assert(chunks.take(n).drop_last() =~= chunks.take(n - 1));
        assert(chunks.take(n).last() == chunks[n - 1]);
        assert(4 * plain[n - 1].len() == chunks[n - 1].uncompressed_bytes);
    } else {
        assert(chunks.take(0) =~= Seq::empty());
    }
}

/// Decompressing all of `s`, then all of `t`.
proof fn lemma_bench_concat(
    bench: Seq<u32>,
    s: Seq<ChunkSlot>,
    t: Seq<ChunkSlot>,
    inputs: DeviceInputs,
)
    ensures
        device_plan::bench_after(bench, s + t, inputs) == device_plan::bench_after(
            device_plan::bench_after(bench, s, inputs),
            t,
            inputs,
        ),
    decreases t.len(),
{
    if t.len() == 0 {
        assert(s + t =~= s);
    } else {
        lemma_bench_concat(bench, s, t.drop_last(), inputs);
        assert((s + t).drop_last() =~= s + t.drop_last());
        assert((s + t).last() == t.last());
    }
}

/// Decompressing the first `n` chunks of a term fills its place on the workbench and
/// nothing else.
proof fn lemma_term_batch<B>(
    term: usize,
    start: int,
    chunks: Seq<DeviceChunkSlice<B>>,
    n: int,
    bench: Seq<u32>,
    inputs: DeviceInputs,
)
    requires
        0 <= n <= chunks.len(),
        chunks.len() <= usize::MAX,
        term < inputs.plain.len(),
        chunks_fit(chunks, inputs.plain[term as int]),
        0 <= start,
        start % 4 == 0,
        start + vram_cht_v3::plain_sum(chunks) <= 4 * bench.len(),
        start + vram_cht_v3::plain_sum(chunks) <= usize::MAX,
    ensures
        ({
            let batch = cuda_dispatch::term_batch(term, start, chunks, n);
            let after = device_plan::bench_after(bench, batch, inputs);
            let words = joined(inputs.plain[term as int], n);
            &&& device_plan::batch_safe(bench, batch, inputs)
            &&& after == device_plan::written(bench, start / 4, words)
            &&& start / 4 + words.len() <= bench.len()
        }),
    decreases n,
{
    let plain = inputs.plain[term as int];
    let batch = cuda_dispatch::term_batch(term, start, chunks, n);
    lemma_joined_len(chunks, plain, n);
    vram_cht_v3::lemma_plain_take(chunks, n);
    if n == 0 {
        assert(device_plan::written(bench, start / 4, joined(plain, 0)) =~= bench);
    } else {
        lemma_term_batch(term, start, chunks, n - 1, bench, inputs);
        lemma_joined_len(chunks, plain, n - 1);
        vram_cht_v3::lemma_plain_take(chunks, n - 1);
        let front = cuda_dispatch::term_batch(term, start, chunks, n - 1);
        let c = batch.last();
        assert(batch.drop_last() =~= front);
        let len = joined(plain, n - 1).len() as int;
        assert(c.byte_offset == start + 4 * len);
        assert(c.byte_offset as int / 4 == start / 4 + len);
        let before = device_plan::bench_after(bench, front, inputs);
        let after = device_plan::bench_after(bench, batch, inputs);
        assert(after == device_plan::written(before, start / 4 + len, plain[n - 1]));
        assert(after =~= device_plan::written(bench, start / 4, joined(plain, n)));
        assert forall|i: int| 0 <= i < batch.len() implies {
            let x = #[trigger] batch[i];
            &&& x.byte_offset % 4 == 0
            &&& x.term < inputs.plain.len()
            &&& x.chunk < inputs.plain[x.term as int].len()
            &&& x.byte_offset as int / 4 + inputs.plain[x.term as int][x.chunk as int].len()
                <= bench.len()
        } by {
            if i < front.len() {
                assert(batch[i] == front[i]);
            } else {
                assert(batch[i] == c);
            }
        }
    }
}

/// The terms are well formed, and `plain` holds what their chunks decompress to.
pub open spec fn compressed_wf<B>(
    terms: Seq<Arc<VramCompressedTermEntry<B>>>,
    plain: Seq<Seq<Seq<u32>>>,
) -> bool {
    &&& plain.len() == terms.len()
    &&& forall|i: int|
        0 <= i < terms.len() ==> {
            &&& (#[trigger] terms[i]).wf()
            &&& shared_bitmap_payload::index_wf(terms[i].bucket_index@)
            &&& chunks_fit(terms[i].chunks@, plain[i])
        }
}

/// The bucket indexes of terms of the compressed tier.
pub open spec fn compressed_indexes<B>(terms: Seq<Arc<VramCompressedTermEntry<B>>>) -> Seq<
    Seq<(u16, u32)>,
> {
    Seq::new(terms.len(), |i: int| terms[i].bucket_index@)
}

/// Term `i` stands in its place on the workbench.
pub open spec fn in_place<B>(
    bench: Seq<u32>,
    terms: Seq<Arc<VramCompressedTermEntry<B>>>,
    plain: Seq<Seq<Seq<u32>>>,
    i: int,
) -> bool {
    let words = all_joined(plain)[i];
    let at = cuda_dispatch::bench_start(terms, i) / 4;
    at + words.len() <= bench.len() && bench.subrange(at, at + words.len()) == words
}

/// Decompressing the chunks of the first `n` terms puts each of them in its place.
proof fn lemma_terms_batch<B>(
    terms: Seq<Arc<VramCompressedTermEntry<B>>>,
    n: int,
    bench: Seq<u32>,
    inputs: DeviceInputs,
)
    requires
        0 <= n <= terms.len(),
        terms.len() <= usize::MAX,
        compressed_wf(terms, inputs.plain),
        cuda_dispatch::bench_start(terms, terms.len() as int) <= 4 * bench.len(),
        cuda_dispatch::bench_start(terms, terms.len() as int) <= usize::MAX,
    ensures
        ({
            let batch = cuda_dispatch::terms_batch(terms, n);
            let after = device_plan::bench_after(bench, batch, inputs);
            &&& device_plan::batch_safe(bench, batch, inputs)
            &&& after.len() == bench.len()
            &&& forall|i: int| 0 <= i < n ==> #[trigger] in_place(after, terms, inputs.plain, i)
        }),
        cuda_dispatch::bench_start(terms, n) % 4 == 0,
        cuda_dispatch::bench_start(terms, n) >= 0,
    decreases n,
{
    if n > 0 {
        lemma_terms_batch(terms, n - 1, bench, inputs);
        let front = cuda_dispatch::terms_batch(terms, n - 1);
        let before = device_plan::bench_after(bench, front, inputs);
        let t = terms[n - 1];
        let chunks = t.chunks@;
        let start = cuda_dispatch::bench_start(terms, n - 1);
        let own = cuda_dispatch::term_batch(
            (n - 1) as usize,
            start,
            chunks,
            chunks.len() as int,
        );
        let batch = cuda_dispatch::terms_batch(terms, n);
        assert(t.wf());
        vram_cht_v3::lemma_tiled_sum(chunks, t.bucket_index@.len() as int);
        cuda_dispatch::lemma_start_monotone(terms, n, terms.len() as int);
        assert(cuda_dispatch::bench_start(terms, n) == start + t.uncompressed_bytes);
        lemma_term_batch(
            (n - 1) as usize,
            start,
            chunks,
            chunks.len() as int,
            before,
            inputs,
        );
        lemma_bench_concat(bench, front, own, inputs);
        let after = device_plan::bench_after(bench, batch, inputs);
        let words = joined(inputs.plain[n - 1], chunks.len() as int);
        assert(after == device_plan::written(before, start / 4, words));
        assert forall|i: int| 0 <= i < n implies #[trigger] in_place(
            after,
            terms,
            inputs.plain,
            i,
        ) by {
            let w = all_joined(inputs.plain)[i];
            let at = cuda_dispatch::bench_start(terms, i) / 4;
            if i < n - 1 {
                assert(in_place(before, terms, inputs.plain, i));
                assert(terms[i].wf());
                lemma_joined_len(
                    terms[i].chunks@,
                    inputs.plain[i],
                    terms[i].chunks@.len() as int,
                );
                assert(terms[i].chunks@.take(terms[i].chunks@.len() as int) =~= terms[i].chunks@);
                vram_cht_v3::lemma_tiled_sum(
                    terms[i].chunks@,
                    terms[i].bucket_index@.len() as int,
                );
                cuda_dispatch::lemma_start_monotone(terms, i + 1, n - 1);
                cuda_dispatch::lemma_start_monotone(terms, 0, i);
                assert(at + w.len() <= start / 4);
                assert(after.subrange(at, at + w.len()) =~= before.subrange(at, at + w.len()));
            } else {
                assert(w == words);
                assert(after.subrange(at, at + w.len()) =~= words);
            }
        }
        assert forall|i: int| 0 <= i < batch.len() implies {
            let x = #[trigger] batch[i];
            &&& x.byte_offset % 4 == 0
            &&& x.term < inputs.plain.len()
            &&& x.chunk < inputs.plain[x.term as int].len()
            &&& x.byte_offset as int / 4 + inputs.plain[x.term as int][x.chunk as int].len()
                <= bench.len()
        } by {
            if i < front.len() {
                assert(batch[i] == front[i]);
            } else {
                assert(batch[i] == own[i - front.len()]);
            }
        }
    }
}

/// Growing the workbench leaves one that is large enough, and the buffers as they
/// were.
proof fn lemma_grow_bench(total: int, bench_bytes: int, m: DeviceMemory, inputs: DeviceInputs)
    requires
        0 <= total <= usize::MAX,
        total % 4 == 0,
        m.bench.len() == bench_bytes / 4,
        0 <= bench_bytes <= usize::MAX,
    ensures
        ({
            let steps = cuda_dispatch::bench_steps(total, bench_bytes);
            let after = device_plan::run(m, steps, inputs);
            &&& device_plan::safe(m, steps, inputs)
            &&& total <= 4 * after.bench.len()
            &&& after.bench.len() <= usize::MAX
            &&& after == (DeviceMemory { bench: after.bench, ..m })
        }),
{
    let steps = cuda_dispatch::bench_steps(total, bench_bytes);
    if bench_bytes < total {
        let s = steps[0];
        assert(steps =~= seq![s]);
        device_plan::lemma_run_one(m, s, inputs);
    }
}

/// Terms of the compressed tier are folded word by word, each laid out for the keys:
/// the result is that of the uncompressed tier on the words that the chunks decompress
/// to.
pub proof fn lemma_v3_plan<B>(
    capacity: int,
    bench_bytes: int,
    op: BoolOp,
    terms: Seq<Arc<VramCompressedTermEntry<B>>>,
    keys: Seq<u16>,
    inputs: DeviceInputs,
)
    requires
        1 <= terms.len() <= usize::MAX,
        compressed_wf(terms, inputs.plain),
        keyset::increasing(keys),
        keys.len() > 0,
        capacity >= 0,
        0 <= bench_bytes <= usize::MAX,
        cuda_dispatch::bench_start(terms, terms.len() as int) <= usize::MAX,
        cuda_dispatch::bench_start(terms, terms.len() as int) > 0 || bench_bytes > 0,
    ensures
        gives(
            cuda_dispatch::v3_plan(capacity, bench_bytes, true, op, terms, keys),
            capacity,
            bench_bytes / 4,
            inputs,
            flat::fold_words(
                op,
                all_aligned(all_joined(inputs.plain), compressed_indexes(terms), keys),
                terms.len() as int,
            ),
        ),
{
    cuda_dispatch::lemma_key_words(keys, capacity);
    let words = (2048 * keys.len()) as usize;
    let n = terms.len() as int;
    let total = cuda_dispatch::bench_start(terms, n);
    let indexes = compressed_indexes(terms);
    let bufs = all_joined(inputs.plain);
    let data = all_aligned(bufs, indexes, keys);
    let result = flat::fold_words(op, data, n);
    let batch = cuda_dispatch::terms_batch(terms, n);
    let bench_grow = cuda_dispatch::bench_steps(total, bench_bytes);
    lemma_start_aligned(terms, n);
    assert forall|i: int| 0 <= i < n implies (#[trigger] bufs[i]).len() == 2048
        * indexes[i].len() by {
        let t = terms[i];
        assert(t.wf());
        lemma_joined_len(t.chunks@, inputs.plain[i], t.chunks@.len() as int);
        assert(t.chunks@.take(t.chunks@.len() as int) =~= t.chunks@);
        vram_cht_v3::lemma_tiled_sum(t.chunks@, t.bucket_index@.len() as int);
    }
    if n == 1 {
        let steps = cuda_dispatch::gather_steps(
            TermSource::Bench { word: 0 },
            terms[0].bucket_index@,
            keys,
            words,
        );
        assert(cuda_dispatch::v3_plan(capacity, bench_bytes, true, op, terms, keys)
            == PlanView::Run { grow: bench_grow, batch, steps });
        assert forall|m: DeviceMemory|
            m.ready(capacity, m.bench) && m.bench.len() == bench_bytes
                / 4 implies #[trigger] plan_gives(
            m,
            bench_grow,
            batch,
            steps,
            inputs,
            result,
        ) by {
            lemma_grow_bench(total, bench_bytes, m, inputs);
            let m0 = device_plan::run(m, bench_grow, inputs);
            lemma_terms_batch(terms, n, m0.bench, inputs);
            let bench = device_plan::bench_after(m0.bench, batch, inputs);
            let m1 = DeviceMemory { bench, ..m0 };
            assert(in_place(bench, terms, inputs.plain, 0));
            assert(terms[0].wf());
            assert(bufs[0].len() == 2048 * indexes[0].len());
            lemma_gather(
                TermSource::Bench { word: 0 },
                terms[0].bucket_index@,
                keys,
                words,
                m1,
                inputs,
                bufs[0],
            );
        }
    } else {
        let load = cuda_dispatch::bench_load(terms, keys, words);
        let buffer_grow = cuda_dispatch::grow_steps(words as int, capacity);
        let grow = buffer_grow + bench_grow;
        let steps = device_plan::fold_steps(load, op, words, n) + cuda_dispatch::finish_steps(
            DeviceSlot::A,
            words,
            "cudaMemcpyAsync(v3 fold result D2H)",
            "cudaStreamSynchronize(v3 fold)",
        );
        assert(cuda_dispatch::v3_plan(capacity, bench_bytes, true, op, terms, keys)
            == PlanView::Run { grow, batch, steps });
        assert forall|m: DeviceMemory|
            m.ready(capacity, m.bench) && m.bench.len() == bench_bytes
                / 4 implies #[trigger] plan_gives(m, grow, batch, steps, inputs, result) by {
            lemma_grow(words as int, capacity, m, inputs);
            let m0 = device_plan::run(m, buffer_grow, inputs);
            lemma_grow_bench(total, bench_bytes, m0, inputs);
            device_plan::lemma_run_concat(m, buffer_grow, bench_grow, inputs);
            let m1 = device_plan::run(m, grow, inputs);
            lemma_terms_batch(terms, n, m1.bench, inputs);
            let bench = device_plan::bench_after(m1.bench, batch, inputs);
            let m2 = DeviceMemory { bench, ..m1 };
            assert forall|dst: DeviceSlot, i: int, mem: DeviceMemory|
                0 <= i < data.len() && mem.ready(
                    words as int,
                    bench,
                ) implies #[trigger] device_plan::loads_term(
                load,
                dst,
                i,
                mem,
                data,
                words as int,
                inputs,
            ) by {
                assert(in_place(bench, terms, inputs.plain, i));
                assert(terms[i].wf());
                assert(bufs[i].len() == 2048 * indexes[i].len());
                cuda_dispatch::lemma_start_monotone(terms, 0, i);
                cuda_dispatch::lemma_start_monotone(terms, i, n);
                lemma_scatter(
                    TermSource::Bench { word: (cuda_dispatch::bench_start(terms, i) / 4) as usize },
                    dst,
                    terms[i].bucket_index@,
                    keys,
                    words,
                    mem,
                    inputs,
                    bufs[i],
                    bench,
                );
            }
            lemma_fold_tail(
                load,
                op,
                words,
                n,
                m2,
                data,
                bench,
                "cudaMemcpyAsync(v3 fold result D2H)",
                "cudaStreamSynchronize(v3 fold)",
                inputs,
            );
        }
    }
}

/// A single term of the compressed tier is decompressed and laid out for the keys in
/// the given buffer.
pub proof fn lemma_scatter_plan<B>(
    bench_bytes: int,
    dst: DeviceSlot,
    term: VramCompressedTermEntry<B>,
    keys: Seq<u16>,
    m: DeviceMemory,
    inputs: DeviceInputs,
)
    requires
        bench_bytes > 0,
        term.wf(),
        shared_bitmap_payload::index_wf(term.bucket_index@),
        inputs.plain.len() >= 1,
        chunks_fit(term.chunks@, inputs.plain[0]),
        keyset::increasing(keys),
        m.ready(2048 * keys.len() as int, m.bench),
        term.uncompressed_bytes <= 4 * m.bench.len(),
        m.bench.len() <= usize::MAX,
    ensures
        ({
            let words = joined(inputs.plain[0], inputs.plain[0].len() as int);
            cuda_dispatch::scatter_plan(bench_bytes, true, dst, term, keys) matches PlanView::Run {
                grow,
                batch,
                steps,
            } && plan_safe(m, grow, batch, steps, inputs) && after_plan(
                m,
                grow,
                batch,
                steps,
                inputs,
            ).slot(dst).take(2048 * keys.len() as int) == aligned(
                words,
                shared_bitmap_payload::index_keys(term.bucket_index@),
                keys,
            )
        }),
{
    keyset::lemma_increasing_len(keys);
    let chunks = term.chunks@;
    let n = chunks.len() as int;
    vram_cht_v3::lemma_tiled_sum(chunks, term.bucket_index@.len() as int);
    lemma_term_batch(0, 0, chunks, n, m.bench, inputs);
    lemma_joined_len(chunks, inputs.plain[0], n);
    assert(chunks.take(n) =~= chunks);
    let words = joined(inputs.plain[0], n);
    let batch = cuda_dispatch::term_batch(0, 0, chunks, n);
    let bench = device_plan::bench_after(m.bench, batch, inputs);
    assert(bench.subrange(0, words.len() as int) =~= words);
    lemma_scatter(
        TermSource::Bench { word: 0 },
        dst,
        term.bucket_index@,
        keys,
        (2048 * keys.len()) as usize,
        DeviceMemory { bench, ..m },
        inputs,
        words,
        bench,
    );
}

/// Every term starts at a whole word.
proof fn lemma_start_aligned<B>(terms: Seq<Arc<VramCompressedTermEntry<B>>>, n: int)
    requires
        0 <= n <= terms.len(),
        forall|i: int| 0 <= i < terms.len() ==> (#[trigger] terms[i]).wf(),
    ensures
        cuda_dispatch::bench_start(terms, n) % 4 == 0,
        cuda_dispatch::bench_start(terms, n) >= 0,
    decreases n,
{
    if n > 0 {
        lemma_start_aligned(terms, n - 1);
        assert(terms[n - 1].wf());
    }
}

} // verus!
