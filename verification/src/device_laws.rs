//! What the steps of a device plan do, and which plan a fold gets.

use std::sync::Arc;
use vstd::prelude::*;

use crate::cuda_dispatch;
use crate::device_plan;
use crate::flat;
use crate::fold_laws;
use crate::keyset;
use crate::vram_cht_v3;

use crate::cuda_dispatch::{CudaBitmapError, FoldPlan, PlanView, TermSource};
use crate::device_plan::{
    ChunkSlot, DeviceAction, DeviceInputs, DeviceMemory, DeviceSlot, DeviceStep,
};
use crate::flat::BoolOp;
use crate::vram_cht::VramTermEntry;
use crate::vram_cht_v3::{DeviceChunkSlice, VramCompressedTermEntry};

verus! {

/// Writing words into a buffer changes those words and no others.
pub proof fn lemma_writing(words: Seq<u32>, off: int, data: Seq<u32>, n: int)
    requires
        0 <= n,
    ensures
        device_plan::written(words, off, data).len() == words.len(),
        forall|i: int|
            0 <= i < words.len() ==> #[trigger] device_plan::written(words, off, data)[i] == if off
                <= i < off + data.len() {
                data[i - off]
            } else {
                words[i]
            },
        device_plan::zeros(n).len() == n,
        forall|i: int| 0 <= i < n ==> #[trigger] device_plan::zeros(n)[i] == 0,
{
}

/// The steps that fill a buffer: an upload copies the first words of a host array to the
/// front of the buffer; a zero fill clears its first words; a bucket copy copies 2048 words
/// of the buffer of a term, or of the bench, to a place of the buffer. Nothing else changes.
pub proof fn lemma_filling_steps(
    m: DeviceMemory,
    dst: DeviceSlot,
    term: usize,
    words: usize,
    dst_word: usize,
    src_word: usize,
    inputs: DeviceInputs,
)
    ensures
        device_plan::act(m, DeviceAction::Upload { dst, term, words }, inputs) == m.with_slot(
            dst,
            device_plan::written(m.slot(dst), 0, inputs.hosts[term as int].take(words as int)),
        ),
        device_plan::act(m, DeviceAction::Zero { dst, words }, inputs) == m.with_slot(
            dst,
            device_plan::written(m.slot(dst), 0, Seq::new(words as nat, |i: int| 0u32)),
        ),
        device_plan::act(
            m,
            DeviceAction::CopyBucket { dst, dst_word, term, src_word },
            inputs,
        ) == m.with_slot(
            dst,
            device_plan::written(
                m.slot(dst),
                dst_word as int,
                inputs.bufs[term as int].subrange(src_word as int, src_word + 2048),
            ),
        ),
        device_plan::act(m, DeviceAction::CopyBench { dst, dst_word, src_word }, inputs)
            == m.with_slot(
            dst,
            device_plan::written(
                m.slot(dst),
                dst_word as int,
                m.bench.subrange(src_word as int, src_word + 2048),
            ),
        ),
{
    assert(device_plan::zeros(words as int) =~= Seq::new(words as nat, |i: int| 0u32));
}

/// The steps behind a fill: the kernel combines the first words of the two operand buffers
/// into the result buffer, word by word; a swap exchanges the first operand and the result;
/// a download takes the first words of a buffer to the host. Nothing else changes.
pub proof fn lemma_working_steps(
    m: DeviceMemory,
    inputs: DeviceInputs,
    op: BoolOp,
    words: usize,
    term: usize,
    dst_word: usize,
    src_word: usize,
)
    requires
        words <= m.a.len(),
        words <= m.b.len(),
        words <= m.out.len(),
    ensures
        ({
                let t = device_plan::act(m, DeviceAction::Compute { op, words }, inputs);
                &&& t == (DeviceMemory { out: t.out, ..m })
                &&& t.out.len() == m.out.len()
                &&& forall|i: int|
                    0 <= i < m.out.len() ==> #[trigger] t.out[i] == (if i < words {
                        match op {
                            BoolOp::And => m.a[i] & m.b[i],
                            BoolOp::Or => m.a[i] | m.b[i],
                            BoolOp::Xor => m.a[i] ^ m.b[i],
                        }
                    } else {
                        m.out[i]
                    })
            }),
        device_plan::act(m, DeviceAction::Swap, inputs) == (DeviceMemory { a: m.out, out: m.a, ..m }),
        device_plan::act(m, DeviceAction::Sync, inputs) == m,
        device_plan::act(m, DeviceAction::Download { src: DeviceSlot::A, words }, inputs)
            == (DeviceMemory { host: m.a.take(words as int), ..m }),
        device_plan::act(m, DeviceAction::Download { src: DeviceSlot::B, words }, inputs)
            == (DeviceMemory { host: m.b.take(words as int), ..m }),
        device_plan::act(m, DeviceAction::Download { src: DeviceSlot::Out, words }, inputs)
            == (DeviceMemory { host: m.out.take(words as int), ..m }),
        device_plan::act(m, DeviceAction::HostZero { words }, inputs)
            == (DeviceMemory { host: Seq::new(words as nat, |i: int| 0u32), ..m }),
        device_plan::act(m, DeviceAction::GatherBucket { dst_word, term, src_word }, inputs)
                == (DeviceMemory {
                host: device_plan::written(
                    m.host,
                    dst_word as int,
                    inputs.bufs[term as int].subrange(src_word as int, src_word + 2048),
                ),
                ..m
            }),
        device_plan::act(m, DeviceAction::GatherBench { dst_word, src_word }, inputs)
                == (DeviceMemory {
                host: device_plan::written(
                    m.host,
                    dst_word as int,
                    m.bench.subrange(src_word as int, src_word + 2048),
                ),
                ..m
            }),
{
    assert(device_plan::zeros(words as int) =~= Seq::new(words as nat, |i: int| 0u32));
}

/// The steps that make room leave buffers of the asked size with unknown contents.
pub proof fn lemma_growing_steps(
    m: DeviceMemory,
    inputs: DeviceInputs,
    slot: DeviceSlot,
    words: usize,
)
    ensures
        ({
            let t = device_plan::act(m, DeviceAction::Install { words }, inputs);
            &&& t.a.len() == words
            &&& t.b.len() == words
            &&& t.out.len() == words
            &&& t.bench == m.bench
            &&& t.host == m.host
            &&& forall|i: int| 0 <= i < words ==> #[trigger] t.a[i] == (inputs.junk)(
                DeviceSlot::A,
                i,
            )
            &&& forall|i: int| 0 <= i < words ==> #[trigger] t.b[i] == (inputs.junk)(
                DeviceSlot::B,
                i,
            )
            &&& forall|i: int| 0 <= i < words ==> #[trigger] t.out[i] == (inputs.junk)(
                DeviceSlot::Out,
                i,
            )
        }),
        ({
            let t = device_plan::act(m, DeviceAction::GrowBench { bytes: words }, inputs);
            &&& t == (DeviceMemory { bench: t.bench, ..m })
            &&& t.bench.len() == words as int / 4
            &&& forall|i: int| 0 <= i < words as int / 4 ==> #[trigger] t.bench[i] == (
            inputs.bench_junk)(i)
        }),
        device_plan::act(m, DeviceAction::Reserve { slot, words }, inputs) == m,
{
}

/// Steps are carried out one behind the other, and chunks are unpacked onto the bench one
/// behind the other, each at its byte offset.
pub proof fn lemma_steps_in_order(
    m: DeviceMemory,
    steps: Seq<DeviceStep>,
    s: DeviceStep,
    bench: Seq<u32>,
    batch: Seq<ChunkSlot>,
    c: ChunkSlot,
    inputs: DeviceInputs,
)
    ensures
        device_plan::run(m, Seq::empty(), inputs) == m,
        device_plan::run(m, steps.push(s), inputs) == device_plan::act(
            device_plan::run(m, steps, inputs),
            s.action,
            inputs,
        ),
        device_plan::bench_after(bench, Seq::empty(), inputs) == bench,
        device_plan::bench_after(bench, batch.push(c), inputs) == device_plan::written(
            device_plan::bench_after(bench, batch, inputs),
            c.byte_offset as int / 4,
            inputs.plain[c.term as int][c.chunk as int],
        ),
{
    assert(steps.push(s).drop_last() =~= steps);
    assert(batch.push(c).drop_last() =~= batch);
}

/// A fold over one array is that array, and one more array is combined with the fold of
/// those before it.
pub proof fn lemma_fold_adds_a_term(op: BoolOp, bufs: Seq<Seq<u32>>, n: int)
    requires
        1 <= n < bufs.len(),
    ensures
        flat::fold_words(op, bufs, 1) == bufs[0],
        flat::fold_words(op, bufs, n + 1) == flat::op_words(
            op,
            flat::fold_words(op, bufs, n),
            bufs[n],
        ),
{
}

/// Words laid out for the keys of a cohort: where a term has the bucket, its words; where it
/// has not, zeros.
pub proof fn lemma_laid_out_words(src: Seq<u32>, own: Seq<u16>, keys: Seq<u16>, p: int)
    requires
        keyset::increasing(own),
        0 <= p < 2048 * keys.len(),
    ensures
        fold_laws::aligned(src, own, keys).len() == 2048 * keys.len(),
        forall|j: int|
            0 <= j < own.len() && #[trigger] own[j] == keys[p / 2048] ==> fold_laws::aligned(
                src,
                own,
                keys,
            )[p] == src[2048 * j + p % 2048],
        (forall|j: int| 0 <= j < own.len() ==> #[trigger] own[j] != keys[p / 2048])
            ==> fold_laws::aligned(src, own, keys)[p] == 0,
{
    let key = keys[p / 2048];
    if own.contains(key) {
        let i = choose|i: int| 0 <= i < own.len() && own[i] == key;
        assert(cuda_dispatch::key_place(own, key) == Some(i));
        assert forall|j: int| 0 <= j < own.len() && #[trigger] own[j] == key implies j == i by {
            if j < i {
                assert(own[j] < own[i]);
            } else if i < j {
                assert(own[i] < own[j]);
            }
        }
    } else {
        assert forall|j: int| 0 <= j < own.len() implies #[trigger] own[j] != key by {
            assert(own.contains(own[j]));
        }
    }
}

/// The unpacked chunks of a term joined in order.
pub proof fn lemma_joined_chunks(plain: Seq<Seq<u32>>, n: int)
    requires
        0 <= n <= plain.len(),
    ensures
        fold_laws::joined(plain, n) == plain.take(n).flatten(),
    decreases n,
{
    if n > 0 {
        lemma_joined_chunks(plain, n - 1);
        plain.take(n - 1).lemma_flatten_push(plain[n - 1]);
        assert(plain.take(n) =~= plain.take(n - 1).push(plain[n - 1]));
    } else {
        assert(plain.take(0) =~= Seq::<Seq<u32>>::empty());
        assert(plain.take(0).flatten() =~= Seq::<u32>::empty());
    }
}

/// The place of a key among ascending keys, if it is there.
pub proof fn lemma_key_place(keys: Seq<u16>, key: u16)
    requires
        keyset::increasing(keys),
    ensures
        forall|i: int|
            0 <= i < keys.len() && #[trigger] keys[i] == key ==> cuda_dispatch::key_place(keys, key)
                == Some(i),
        (forall|i: int| 0 <= i < keys.len() ==> #[trigger] keys[i] != key)
            ==> cuda_dispatch::key_place(keys, key) is None,
{
    if keys.contains(key) {
        let k = choose|i: int| 0 <= i < keys.len() && keys[i] == key;
        assert forall|i: int| 0 <= i < keys.len() && #[trigger] keys[i] == key implies i == k by {
            if i < k {
                assert(keys[i] < keys[k]);
            } else if k < i {
                assert(keys[k] < keys[i]);
            }
        }
    } else {
        assert forall|i: int| 0 <= i < keys.len() implies #[trigger] keys[i] != key by {
            assert(keys.contains(keys[i]));
        }
    }
}

/// Buffers grow only where they are too small, to the least power of two that holds the
/// words: all three are reserved before they are installed. The bench grows to what is
/// needed.
pub proof fn lemma_growth(n: int, capacity: int, total: int, bench_bytes: int)
    requires
        1 <= n,
        4 * cuda_dispatch::next_pow2(n) <= usize::MAX,
        0 <= total <= usize::MAX,
    ensures
        n <= capacity ==> cuda_dispatch::grow_steps(n, capacity).len() == 0,
        n > capacity ==> ({
            let g = cuda_dispatch::grow_steps(n, capacity);
            let words = cuda_dispatch::next_pow2(n) as usize;
            &&& words == cuda_dispatch::next_pow2(n)
            &&& n <= words < 2 * n
            &&& vstd::arithmetic::power2::is_pow2(words as int)
            &&& g.len() == 4
            &&& g[0].action == (DeviceAction::Reserve { slot: DeviceSlot::A, words })
            &&& g[1].action == (DeviceAction::Reserve { slot: DeviceSlot::B, words })
            &&& g[2].action == (DeviceAction::Reserve { slot: DeviceSlot::Out, words })
            &&& g[3].action == (DeviceAction::Install { words })
            &&& g[0].what == "cudaMalloc(d_a)"
            &&& g[1].what == "cudaMalloc(d_b)"
            &&& g[2].what == "cudaMalloc(d_out)"
        }),
        bench_bytes >= total ==> cuda_dispatch::bench_steps(total, bench_bytes).len() == 0,
        bench_bytes < total ==> ({
            let g = cuda_dispatch::bench_steps(total, bench_bytes);
            &&& g.len() == 1
            &&& g[0].action == (DeviceAction::GrowBench { bytes: total as usize })
            &&& g[0].what == "cudaMalloc(v3 workbench)"
        }),
{
    cuda_dispatch::lemma_next_pow2(n);
}

/// When a size cannot be served: its bytes, or those of the buffers that it needs, do not
/// fit a machine word. More than 2^32 - 1 words cannot be launched.
pub proof fn lemma_sizes_served(n: int, capacity: int)
    requires
        n >= 1,
    ensures
        cuda_dispatch::size_fault(n, capacity) is None <==> 4 * n <= usize::MAX && (n <= capacity
            || 4 * cuda_dispatch::next_pow2(n) <= usize::MAX),
        4 * n > usize::MAX ==> cuda_dispatch::size_fault(n, capacity) == Some("byte-size overflow"),
        4 * n <= usize::MAX && n > capacity && 4 * cuda_dispatch::next_pow2(n) > usize::MAX
            ==> cuda_dispatch::size_fault(n, capacity) == Some("capacity byte-size overflow"),
        cuda_dispatch::launchable(n) <==> n <= 0xFFFF_FFFF,
{
}

/// Which plan a pair gets: arrays of different lengths are refused; of empty arrays the
/// result is empty; a size that cannot be served is refused; one that cannot be launched
/// fails behind the uploads; any other is run.
pub proof fn lemma_pair_outcomes(capacity: int, op: BoolOp, a: int, b: int)
    requires
        0 <= a <= usize::MAX,
        0 <= b <= usize::MAX,
    ensures
        ({
            let plan = cuda_dispatch::pair_plan(capacity, op, a, b);
            &&& a != b ==> plan == PlanView::Fail(
                CudaBitmapError::LenMismatch { a: a as usize, b: b as usize },
            )
            &&& a == b && a == 0 ==> plan == PlanView::Done(Seq::empty())
            &&& a == b && a > 0 && 4 * a > usize::MAX ==> plan == PlanView::Fail(
                CudaBitmapError::Cuda { what: "byte-size overflow", code: 0 },
            )
            &&& a == b && a > 0 && 4 * a <= usize::MAX && a > capacity && 4
                * cuda_dispatch::next_pow2(a) > usize::MAX ==> plan == PlanView::Fail(
                CudaBitmapError::Cuda { what: "capacity byte-size overflow", code: 0 },
            )
            &&& a == b && a > 0 && 4 * a <= usize::MAX && (a <= capacity || 4
                * cuda_dispatch::next_pow2(a) <= usize::MAX) ==> if a <= 0xFFFF_FFFF {
                plan matches PlanView::Run { grow, batch, steps } && grow
                    == cuda_dispatch::grow_steps(a, capacity) && batch.len() == 0
            } else {
                plan matches PlanView::Fault { steps, what } && what == "num_words exceeds u32::MAX"
            }
        }),
{
}

/// The first array behind the first whose length differs, if there is one.
pub proof fn lemma_first_odd_length(terms: Seq<Seq<u32>>, n: int, i: int)
    requires
        0 <= i <= terms.len(),
    ensures
        match cuda_dispatch::odd_one(terms, n, i) {
            Some(k) => i <= k < terms.len() && terms[k].len() != n && forall|j: int|
                i <= j < k ==> (#[trigger] terms[j]).len() == n,
            None => forall|j: int| i <= j < terms.len() ==> (#[trigger] terms[j]).len() == n,
        },
    decreases terms.len() - i,
{
    if i < terms.len() && terms[i].len() == n {
        lemma_first_odd_length(terms, n, i + 1);
    }
}

/// Which plan a fold over host arrays gets: of no arrays, and of empty ones, the result is
/// empty; of one array it is that array; the first array whose length differs from the
/// first is refused; sizes are refused as for a pair; any other fold is run.
pub proof fn lemma_host_outcomes(capacity: int, op: BoolOp, terms: Seq<Seq<u32>>)
    requires
        forall|i: int| 0 <= i < terms.len() ==> (#[trigger] terms[i]).len() <= usize::MAX,
    ensures
        ({
            let plan = cuda_dispatch::host_plan(capacity, op, terms);
            let n = terms[0].len() as int;
            &&& terms.len() == 0 ==> plan == PlanView::Done(Seq::empty())
            &&& terms.len() == 1 ==> plan == PlanView::Done(terms[0])
            &&& terms.len() >= 2 && n == 0 ==> plan == PlanView::Done(Seq::empty())
            &&& forall|k: int|
                1 <= k < terms.len() && n > 0 && (#[trigger] terms[k]).len() != n && (forall|j: int|
                    1 <= j < k ==> (#[trigger] terms[j]).len() == n) ==> plan == PlanView::Fail(
                    CudaBitmapError::LenMismatch { a: n as usize, b: terms[k].len() as usize },
                )
            &&& terms.len() >= 2 && n > 0 && (forall|j: int|
                1 <= j < terms.len() ==> (#[trigger] terms[j]).len() == n)
                ==> match cuda_dispatch::size_fault(n, capacity) {
                Some(what) => plan == PlanView::Fail(CudaBitmapError::Cuda { what, code: 0 }),
                None => if n <= 0xFFFF_FFFF {
                    plan matches PlanView::Run { grow, batch, steps } && grow
                        == cuda_dispatch::grow_steps(n, capacity) && batch.len() == 0
                } else {
                    plan == (PlanView::Fault {
                        steps: cuda_dispatch::grow_steps(n, capacity),
                        what: "num_words exceeds u32::MAX",
                    })
                },
            }
        }),
{
    if terms.len() >= 2 {
        lemma_first_odd_length(terms, terms[0].len() as int, 1);
    }
}

/// Which plan a fold over the device tier gets: without terms or keys the result is empty;
/// one term is gathered without growing anything; any other fold is run.
pub proof fn lemma_vram_outcomes(
    capacity: int,
    op: BoolOp,
    indexes: Seq<Seq<(u16, u32)>>,
    keys: Seq<u16>,
)
    requires
        2048 * keys.len() <= usize::MAX,
    ensures
        ({
            let plan = cuda_dispatch::vram_plan(capacity, op, indexes, keys);
            &&& indexes.len() == 0 || keys.len() == 0 ==> plan == PlanView::Done(Seq::empty())
            &&& indexes.len() == 1 && keys.len() > 0 ==> (plan matches PlanView::Run {
                grow,
                batch,
                steps,
            } && grow.len() == 0 && batch.len() == 0)
            &&& indexes.len() >= 2 && keys.len() > 0 ==> (plan matches PlanView::Run {
                grow,
                batch,
                steps,
            } && grow == cuda_dispatch::grow_steps(2048 * keys.len() as int, capacity)
                && batch.len() == 0)
        }),
{
}

/// A term's chunks are unpacked behind the unpacked bytes of all terms before it, each chunk
/// behind those before it.
pub proof fn lemma_bench_places<B>(
    terms: Seq<Arc<VramCompressedTermEntry<B>>>,
    n: int,
    term: usize,
    start: int,
    chunks: Seq<DeviceChunkSlice<B>>,
)
    requires
        0 <= n <= terms.len(),
        0 <= start,
        start + chunks.fold_left(
            0int,
            |sum: int, c: DeviceChunkSlice<B>| sum + c.uncompressed_bytes,
        ) <= usize::MAX,
        chunks.len() <= usize::MAX,
    ensures
        cuda_dispatch::bench_start(terms, n) == terms.take(n).fold_left(
            0int,
            |sum: int, t: Arc<VramCompressedTermEntry<B>>| sum + t.uncompressed_bytes,
        ),
        ({
            let batch = cuda_dispatch::term_batch(term, start, chunks, chunks.len() as int);
            &&& batch.len() == chunks.len()
            &&& forall|k: int|
                0 <= k < chunks.len() ==> (#[trigger] batch[k]).term == term && batch[k].chunk == k
                    && batch[k].byte_offset == start + chunks.take(k).fold_left(
                    0int,
                    |sum: int, c: DeviceChunkSlice<B>| sum + c.uncompressed_bytes,
                )
        }),
{
    lemma_bench_start_is_sum(terms, n);
    crate::chunk_laws::lemma_packed_is_sum(chunks);
    lemma_term_batch_places(term, start, chunks, chunks.len() as int);
    let batch = cuda_dispatch::term_batch(term, start, chunks, chunks.len() as int);
    assert forall|k: int| 0 <= k < chunks.len() implies (#[trigger] batch[k]).term == term
        && batch[k].chunk == k && batch[k].byte_offset == start + chunks.take(k).fold_left(
        0int,
        |sum: int, c: DeviceChunkSlice<B>| sum + c.uncompressed_bytes,
    ) by {
        crate::chunk_laws::lemma_packed_is_sum(chunks.take(k));
        vram_cht_v3::lemma_plain_take(chunks, k);
    }
}

proof fn lemma_bench_start_is_sum<B>(terms: Seq<Arc<VramCompressedTermEntry<B>>>, n: int)
    requires
        0 <= n <= terms.len(),
    ensures
        cuda_dispatch::bench_start(terms, n) == terms.take(n).fold_left(
            0int,
            |sum: int, t: Arc<VramCompressedTermEntry<B>>| sum + t.uncompressed_bytes,
        ),
    decreases n,
{
    if n > 0 {
        lemma_bench_start_is_sum(terms, n - 1);
        assert(terms.take(n).drop_last() =~= terms.take(n - 1));
        assert(terms.take(n).last() == terms[n - 1]);
    }
}

proof fn lemma_term_batch_places<B>(
    term: usize,
    start: int,
    chunks: Seq<DeviceChunkSlice<B>>,
    n: int,
)
    requires
        0 <= n <= chunks.len(),
    ensures
        cuda_dispatch::term_batch(term, start, chunks, n).len() == n,
        forall|k: int|
            0 <= k < n ==> #[trigger] cuda_dispatch::term_batch(term, start, chunks, n)[k]
                == (ChunkSlot {
                term,
                chunk: k as usize,
                byte_offset: (start + vram_cht_v3::plain_sum(chunks.take(k))) as usize,
            }),
    decreases n,
{
    if n > 0 {
        lemma_term_batch_places(term, start, chunks, n - 1);
    }
}

/// The chunks of several terms are unpacked term by term.
pub proof fn lemma_batch_goes_term_by_term<B>(
    terms: Seq<Arc<VramCompressedTermEntry<B>>>,
    n: int,
)
    requires
        0 <= n <= terms.len(),
    ensures
        cuda_dispatch::terms_batch(terms, n) == Seq::new(
            n as nat,
            |i: int|
                cuda_dispatch::term_batch(
                    i as usize,
                    cuda_dispatch::bench_start(terms, i),
                    terms[i].chunks@,
                    terms[i].chunks@.len() as int,
                ),
        ).flatten(),
    decreases n,
{
    let parts = Seq::new(
        n as nat,
        |i: int|
            cuda_dispatch::term_batch(
                i as usize,
                cuda_dispatch::bench_start(terms, i),
                terms[i].chunks@,
                terms[i].chunks@.len() as int,
            ),
    );
    if n > 0 {
        lemma_batch_goes_term_by_term(terms, n - 1);
        let front = Seq::new(
            (n - 1) as nat,
            |i: int|
                cuda_dispatch::term_batch(
                    i as usize,
                    cuda_dispatch::bench_start(terms, i),
                    terms[i].chunks@,
                    terms[i].chunks@.len() as int,
                ),
        );
        assert(parts =~= front.push(parts[n - 1]));
        front.lemma_flatten_push(parts[n - 1]);
    } else {
        assert(parts.flatten() =~= Seq::<ChunkSlot>::empty());
    }
}

/// Which plan a fold over the compressed tier gets: without terms or keys the result is
/// empty; unpacked bytes that do not fit a machine word are refused; behind the growth, a
/// bench that was never allocated or a codec that is not there is a fault; any other fold is
/// run, with all chunks of all terms unpacked.
pub proof fn lemma_compressed_outcomes<B>(
    capacity: int,
    bench_bytes: int,
    codec: bool,
    op: BoolOp,
    terms: Seq<Arc<VramCompressedTermEntry<B>>>,
    keys: Seq<u16>,
)
    requires
        2048 * keys.len() <= usize::MAX,
        bench_bytes >= 0,
    ensures
        ({
            let plan = cuda_dispatch::v3_plan(capacity, bench_bytes, codec, op, terms, keys);
            let total = cuda_dispatch::bench_start(terms, terms.len() as int);
            let growth = if terms.len() == 1 {
                cuda_dispatch::bench_steps(total, bench_bytes)
            } else {
                cuda_dispatch::grow_steps(2048 * keys.len() as int, capacity)
                    + cuda_dispatch::bench_steps(total, bench_bytes)
            };
            &&& terms.len() == 0 || keys.len() == 0 ==> plan == PlanView::Done(Seq::empty())
            &&& terms.len() > 0 && keys.len() > 0 && total > usize::MAX ==> plan == PlanView::Fail(
                CudaBitmapError::Cuda { what: "workbench offset overflow", code: 0 },
            )
            &&& terms.len() > 0 && keys.len() > 0 && total <= usize::MAX && total == 0
                && bench_bytes == 0 ==> plan == (PlanView::Fault {
                steps: growth,
                what: "v3 workbench not allocated",
            })
            &&& terms.len() > 0 && keys.len() > 0 && total <= usize::MAX && (total != 0
                || bench_bytes != 0) && !codec ==> plan == (PlanView::Fault {
                steps: growth,
                what: "v3 decompress codec unavailable",
            })
            &&& terms.len() > 0 && keys.len() > 0 && total <= usize::MAX && (total != 0
                || bench_bytes != 0) && codec ==> (plan matches PlanView::Run {
                grow,
                batch,
                steps,
            } && grow == growth && batch == cuda_dispatch::terms_batch(terms, terms.len() as int))
        }),
{
}

/// Which plan unpacking one term gets: without a bench or without a codec it is refused;
/// otherwise its chunks are unpacked from the front of the bench on.
pub proof fn lemma_scatter_outcomes<B>(
    bench_bytes: int,
    codec: bool,
    dst: DeviceSlot,
    term: VramCompressedTermEntry<B>,
    keys: Seq<u16>,
)
    ensures
        ({
            let plan = cuda_dispatch::scatter_plan(bench_bytes, codec, dst, term, keys);
            &&& bench_bytes == 0 ==> plan == PlanView::Fail(
                CudaBitmapError::Cuda { what: "v3 workbench not allocated", code: 0 },
            )
            &&& bench_bytes != 0 && !codec ==> plan == PlanView::Fail(
                CudaBitmapError::Cuda { what: "v3 decompress codec unavailable", code: 0 },
            )
            &&& bench_bytes != 0 && codec ==> (plan matches PlanView::Run { grow, batch, steps }
                && grow.len() == 0 && batch == cuda_dispatch::term_batch(
                0,
                0,
                term.chunks@,
                term.chunks@.len() as int,
            ) && steps == cuda_dispatch::scatter_steps(
                TermSource::Bench { word: 0 },
                dst,
                term.bucket_index@,
                keys,
                (2048 * keys.len()) as usize,
            ))
        }),
{
}

/// What a caller gets is what was planned.
pub proof fn lemma_plan_handed_out(r: Result<FoldPlan, CudaBitmapError>)
    ensures
        match r {
            Err(e) => cuda_dispatch::outcome(r) == PlanView::Fail(e),
            Ok(FoldPlan::Done(words)) => cuda_dispatch::outcome(r) == PlanView::Done(words@),
            Ok(FoldPlan::Run { grow, batch, steps }) => cuda_dispatch::outcome(r)
                == (PlanView::Run { grow: grow@, batch: batch@, steps: steps@ }),
            Ok(FoldPlan::Fault { steps, what }) => cuda_dispatch::outcome(r)
                == (PlanView::Fault { steps: steps@, what }),
        },
{
}

/// A bucket index is in range when the 2048 words of each bucket end within the words of
/// all buckets.
pub proof fn lemma_index_in_range(index: Seq<(u16, u32)>)
    ensures
        cuda_dispatch::in_range(index) <==> forall|i: int|
            0 <= i < index.len() ==> (#[trigger] index[i]).1 + 2048 <= 2048 * index.len(),
{
}

/// The arrays and bucket indexes that a fold goes over are those of its terms, in order.
pub proof fn lemma_terms_of_fold<B>(
    arrays: Seq<&[u32]>,
    terms: Seq<Arc<VramTermEntry<B>>>,
)
    ensures
        cuda_dispatch::arrays(arrays).len() == arrays.len(),
        forall|i: int|
            0 <= i < arrays.len() ==> #[trigger] cuda_dispatch::arrays(arrays)[i] == arrays[i]@,
        cuda_dispatch::term_indexes(terms).len() == terms.len(),
        forall|i: int|
            0 <= i < terms.len() ==> #[trigger] cuda_dispatch::term_indexes(terms)[i]
                == terms[i].bucket_index@,
{
}

/// Which step comes behind which in a fold: the first term is loaded into the first operand
/// buffer, every other into the second; behind each of the others the kernel runs and its
/// result becomes the first operand.
pub proof fn lemma_fold_steps_in_order(
    load: spec_fn(DeviceSlot, int) -> Seq<DeviceStep>,
    op: BoolOp,
    words: usize,
    n: int,
)
    requires
        1 <= n,
    ensures
        device_plan::fold_steps(load, op, words, 1) == load(DeviceSlot::A, 0),
        device_plan::fold_steps(load, op, words, n + 1) == device_plan::fold_steps(
            load,
            op,
            words,
            n,
        ) + load(DeviceSlot::B, n) + seq![
            DeviceStep {
                what: "BitmapOpKernel::compute",
                action: DeviceAction::Compute { op, words },
            },
            DeviceStep { what: "swap", action: DeviceAction::Swap },
        ],
{
}

/// The steps of a pair: both uploads, the kernel, the download and the wait. Where the
/// number of words cannot be launched, both uploads come before the fault.
pub proof fn lemma_pair_steps(capacity: int, op: BoolOp, n: int)
    requires
        0 < n,
        4 * n <= usize::MAX,
        n <= capacity || 4 * cuda_dispatch::next_pow2(n) <= usize::MAX,
    ensures
        ({
            let words = n as usize;
            let uploads = seq![
                DeviceStep {
                    what: "cudaMemcpyAsync(a H2D)",
                    action: DeviceAction::Upload { dst: DeviceSlot::A, term: 0, words },
                },
                DeviceStep {
                    what: "cudaMemcpyAsync(b H2D)",
                    action: DeviceAction::Upload { dst: DeviceSlot::B, term: 1, words },
                },
            ];
            match cuda_dispatch::pair_plan(capacity, op, n, n) {
                PlanView::Run { grow, batch, steps } => n <= 0xFFFF_FFFF && steps == uploads + seq![
                    DeviceStep {
                        what: "BitmapOpKernel::compute",
                        action: DeviceAction::Compute { op, words },
                    },
                    DeviceStep {
                        what: "cudaMemcpyAsync(out D2H)",
                        action: DeviceAction::Download { src: DeviceSlot::Out, words },
                    },
                    DeviceStep { what: "cudaStreamSynchronize", action: DeviceAction::Sync },
                ],
                PlanView::Fault { steps, what } => n > 0xFFFF_FFFF && steps
                    == cuda_dispatch::grow_steps(n, capacity) + uploads,
                _ => false,
            }
        }),
{
    let words = n as usize;
    let uploads = seq![
        DeviceStep {
            what: "cudaMemcpyAsync(a H2D)",
            action: DeviceAction::Upload { dst: DeviceSlot::A, term: 0, words },
        },
        DeviceStep {
            what: "cudaMemcpyAsync(b H2D)",
            action: DeviceAction::Upload { dst: DeviceSlot::B, term: 1, words },
        },
    ];
    assert(cuda_dispatch::pair_uploads(words) =~= uploads);
    assert(cuda_dispatch::pair_steps(op, words) =~= uploads + seq![
        DeviceStep {
            what: "BitmapOpKernel::compute",
            action: DeviceAction::Compute { op, words },
        },
        DeviceStep {
            what: "cudaMemcpyAsync(out D2H)",
            action: DeviceAction::Download { src: DeviceSlot::Out, words },
        },
        DeviceStep { what: "cudaStreamSynchronize", action: DeviceAction::Sync },
    ]);
}

/// The steps of a fold over host arrays: each array is uploaded as its turn comes; behind
/// the last, the first operand is downloaded and waited for.
pub proof fn lemma_host_steps(capacity: int, op: BoolOp, terms: Seq<Seq<u32>>, i: int)
    requires
        terms.len() >= 2,
        0 < terms[0].len() <= 0xFFFF_FFFF,
        terms[0].len() <= usize::MAX,
        forall|i: int| 0 <= i < terms.len() ==> (#[trigger] terms[i]).len() == terms[0].len(),
        cuda_dispatch::size_fault(terms[0].len() as int, capacity) is None,
        0 <= i < terms.len(),
    ensures
        ({
            let words = terms[0].len() as usize;
            &&& cuda_dispatch::host_plan(capacity, op, terms) matches PlanView::Run {
                grow,
                batch,
                steps,
            }
            &&& steps == device_plan::fold_steps(
                cuda_dispatch::host_load(words),
                op,
                words,
                terms.len() as int,
            ) + seq![
                DeviceStep {
                    what: "cudaMemcpyAsync(fold result D2H)",
                    action: DeviceAction::Download { src: DeviceSlot::A, words },
                },
                DeviceStep { what: "cudaStreamSynchronize(fold)", action: DeviceAction::Sync },
            ]
        }),
        ({
            let words = terms[0].len() as usize;
            forall|dst: DeviceSlot| #[trigger]
                cuda_dispatch::host_load(words)(dst, i) == seq![
                    DeviceStep {
                        what: if i == 0 {
                            "cudaMemcpyAsync(fold init H2D)"
                        } else {
                            "cudaMemcpyAsync(fold term H2D)"
                        },
                        action: DeviceAction::Upload { dst, term: i as usize, words },
                    },
                ]
        }),
{
    lemma_first_odd_length(terms, terms[0].len() as int, 1);
    let words = terms[0].len() as usize;
    assert(cuda_dispatch::finish_steps(
        DeviceSlot::A,
        words,
        "cudaMemcpyAsync(fold result D2H)",
        "cudaStreamSynchronize(fold)",
    ) =~= seq![
        DeviceStep {
            what: "cudaMemcpyAsync(fold result D2H)",
            action: DeviceAction::Download { src: DeviceSlot::A, words },
        },
        DeviceStep { what: "cudaStreamSynchronize(fold)", action: DeviceAction::Sync },
    ]);
}

/// Laying a term out in a buffer: the buffer is cleared; then each bucket of the term whose
/// key is among the keys is copied to the place of that key, in the order of the index.
pub proof fn lemma_scatter_steps_in_order(
    source: TermSource,
    dst: DeviceSlot,
    index: Seq<(u16, u32)>,
    keys: Seq<u16>,
    words: usize,
    n: int,
)
    requires
        0 <= n < index.len(),
    ensures
        cuda_dispatch::scatter_steps(source, dst, index, keys, words) == seq![
            DeviceStep {
                what: match source {
                    TermSource::Buffer { .. } => "cudaMemsetAsync(scatter zero-fill)",
                    TermSource::Bench { .. } => "cudaMemsetAsync(v3 dst zero-fill)",
                },
                action: DeviceAction::Zero { dst, words },
            },
        ] + cuda_dispatch::bucket_steps(source, dst, index, keys, index.len() as int),
        cuda_dispatch::bucket_steps(source, dst, index, keys, 0).len() == 0,
        cuda_dispatch::bucket_steps(source, dst, index, keys, n + 1)
            == cuda_dispatch::bucket_steps(source, dst, index, keys, n)
            + match cuda_dispatch::key_place(keys, index[n].0) {
            None => Seq::empty(),
            Some(j) => seq![
                match source {
                    TermSource::Buffer { term } => DeviceStep {
                        what: "cudaMemcpyAsync(scatter D2D bucket)",
                        action: DeviceAction::CopyBucket {
                            dst,
                            dst_word: (2048 * j) as usize,
                            term,
                            src_word: index[n].1 as usize,
                        },
                    },
                    TermSource::Bench { word } => DeviceStep {
                        what: "cudaMemcpyAsync(v3 scatter D2D bucket)",
                        action: DeviceAction::CopyBench {
                            dst,
                            dst_word: (2048 * j) as usize,
                            src_word: (word + index[n].1) as usize,
                        },
                    },
                },
            ],
        },
{
    let front = cuda_dispatch::bucket_steps(source, dst, index, keys, n);
    match cuda_dispatch::key_place(keys, index[n].0) {
        None => {
            assert(front + Seq::empty() =~= front);
        },
        Some(j) => {
            let s = cuda_dispatch::copy_step(source, dst, j, index[n].1);
            assert(front.push(s) =~= front + seq![s]);
        },
    }
}

/// Gathering one term: the host array is cleared; then each bucket of the term whose key is
/// among the keys is copied to the place of that key, in the order of the index.
pub proof fn lemma_gather_steps_in_order(
    source: TermSource,
    index: Seq<(u16, u32)>,
    keys: Seq<u16>,
    words: usize,
    n: int,
)
    requires
        0 <= n < index.len(),
    ensures
        cuda_dispatch::gather_steps(source, index, keys, words) == seq![
            DeviceStep { what: "host zero-fill", action: DeviceAction::HostZero { words } },
        ] + cuda_dispatch::gather_bucket_steps(source, index, keys, index.len() as int),
        cuda_dispatch::gather_bucket_steps(source, index, keys, 0).len() == 0,
        cuda_dispatch::gather_bucket_steps(source, index, keys, n + 1)
            == cuda_dispatch::gather_bucket_steps(source, index, keys, n)
            + match cuda_dispatch::key_place(keys, index[n].0) {
            None => Seq::empty(),
            Some(j) => seq![
                match source {
                    TermSource::Buffer { term } => DeviceStep {
                        what: "cudaMemcpy(gather single-term D2H)",
                        action: DeviceAction::GatherBucket {
                            dst_word: (2048 * j) as usize,
                            term,
                            src_word: index[n].1 as usize,
                        },
                    },
                    TermSource::Bench { word } => DeviceStep {
                        what: "cudaMemcpy(gather v3 single-term D2H)",
                        action: DeviceAction::GatherBench {
                            dst_word: (2048 * j) as usize,
                            src_word: (word + index[n].1) as usize,
                        },
                    },
                },
            ],
        },
{
    let front = cuda_dispatch::gather_bucket_steps(source, index, keys, n);
    match cuda_dispatch::key_place(keys, index[n].0) {
        None => {
            assert(front + Seq::empty() =~= front);
        },
        Some(j) => {
            let s = cuda_dispatch::gather_step(source, j, index[n].1);
            assert(front.push(s) =~= front + seq![s]);
        },
    }
}

/// The steps of a fold over the device tiers: one term is gathered; several are folded, each
/// laid out as its turn comes, and the first operand is downloaded and waited for.
pub proof fn lemma_tier_steps<B>(
    capacity: int,
    bench_bytes: int,
    op: BoolOp,
    indexes: Seq<Seq<(u16, u32)>>,
    terms: Seq<Arc<VramCompressedTermEntry<B>>>,
    keys: Seq<u16>,
    dst: DeviceSlot,
    i: int,
)
    requires
        keys.len() > 0,
        2048 * keys.len() <= usize::MAX,
        indexes.len() > 0,
        terms.len() > 0,
        bench_bytes >= 0,
        bench_bytes > 0 || cuda_dispatch::bench_start(terms, terms.len() as int) > 0,
        cuda_dispatch::bench_start(terms, terms.len() as int) <= usize::MAX,
        0 <= i,
    ensures
        ({
            let words = (2048 * keys.len()) as usize;
            &&& cuda_dispatch::vram_plan(capacity, op, indexes, keys) matches PlanView::Run {
                grow,
                batch,
                steps,
            }
            &&& steps == if indexes.len() == 1 {
                cuda_dispatch::gather_steps(TermSource::Buffer { term: 0 }, indexes[0], keys, words)
            } else {
                device_plan::fold_steps(
                    cuda_dispatch::vram_load(indexes, keys, words),
                    op,
                    words,
                    indexes.len() as int,
                ) + seq![
                    DeviceStep {
                        what: "cudaMemcpyAsync(vram fold result D2H)",
                        action: DeviceAction::Download { src: DeviceSlot::A, words },
                    },
                    DeviceStep {
                        what: "cudaStreamSynchronize(vram fold)",
                        action: DeviceAction::Sync,
                    },
                ]
            }
        }),
        ({
            let words = (2048 * keys.len()) as usize;
            &&& cuda_dispatch::v3_plan(capacity, bench_bytes, true, op, terms, keys) matches
                PlanView::Run { grow, batch, steps }
            &&& steps == if terms.len() == 1 {
                cuda_dispatch::gather_steps(
                    TermSource::Bench { word: 0 },
                    terms[0].bucket_index@,
                    keys,
                    words,
                )
            } else {
                device_plan::fold_steps(
                    cuda_dispatch::bench_load(terms, keys, words),
                    op,
                    words,
                    terms.len() as int,
                ) + seq![
                    DeviceStep {
                        what: "cudaMemcpyAsync(v3 fold result D2H)",
                        action: DeviceAction::Download { src: DeviceSlot::A, words },
                    },
                    DeviceStep {
                        what: "cudaStreamSynchronize(v3 fold)",
                        action: DeviceAction::Sync,
                    },
                ]
            }
        }),
        ({
            let words = (2048 * keys.len()) as usize;
            &&& cuda_dispatch::vram_load(indexes, keys, words)(dst, i)
                == cuda_dispatch::scatter_steps(
                TermSource::Buffer { term: i as usize },
                dst,
                indexes[i],
                keys,
                words,
            )
            &&& cuda_dispatch::bench_load(terms, keys, words)(dst, i)
                == cuda_dispatch::scatter_steps(
                TermSource::Bench { word: (cuda_dispatch::bench_start(terms, i) / 4) as usize },
                dst,
                terms[i].bucket_index@,
                keys,
                words,
            )
        }),
{
    let words = (2048 * keys.len()) as usize;
    assert(cuda_dispatch::finish_steps(
        DeviceSlot::A,
        words,
        "cudaMemcpyAsync(vram fold result D2H)",
        "cudaStreamSynchronize(vram fold)",
    ) =~= seq![
        DeviceStep {
            what: "cudaMemcpyAsync(vram fold result D2H)",
            action: DeviceAction::Download { src: DeviceSlot::A, words },
        },
        DeviceStep { what: "cudaStreamSynchronize(vram fold)", action: DeviceAction::Sync },
    ]);
    assert(cuda_dispatch::finish_steps(
        DeviceSlot::A,
        words,
        "cudaMemcpyAsync(v3 fold result D2H)",
        "cudaStreamSynchronize(v3 fold)",
    ) =~= seq![
        DeviceStep {
            what: "cudaMemcpyAsync(v3 fold result D2H)",
            action: DeviceAction::Download { src: DeviceSlot::A, words },
        },
        DeviceStep { what: "cudaStreamSynchronize(v3 fold)", action: DeviceAction::Sync },
    ]);
}

/// The three buffers are told apart, and a step is within bounds when what it reads and what
/// it writes are there.
pub proof fn lemma_buffers_and_bounds(
    m: DeviceMemory,
    words: Seq<u32>,
    dst: DeviceSlot,
    op: BoolOp,
    term: usize,
    n: usize,
    dst_word: usize,
    src_word: usize,
    steps: Seq<DeviceStep>,
    s: DeviceStep,
    inputs: DeviceInputs,
)
    ensures
        m.slot(DeviceSlot::A) == m.a,
        m.slot(DeviceSlot::B) == m.b,
        m.slot(DeviceSlot::Out) == m.out,
        m.with_slot(DeviceSlot::A, words) == (DeviceMemory { a: words, ..m }),
        m.with_slot(DeviceSlot::B, words) == (DeviceMemory { b: words, ..m }),
        m.with_slot(DeviceSlot::Out, words) == (DeviceMemory { out: words, ..m }),
        device_plan::safe(m, Seq::empty(), inputs),
        device_plan::safe(m, steps.push(s), inputs) <==> device_plan::safe(m, steps, inputs)
            && device_plan::in_bounds(device_plan::run(m, steps, inputs), s.action, inputs),
        device_plan::in_bounds(m, DeviceAction::Upload { dst, term, words: n }, inputs) ==> n
            <= m.slot(dst).len() && term < inputs.hosts.len() && n <= inputs.hosts[term as int].len(),
        device_plan::in_bounds(m, DeviceAction::Zero { dst, words: n }, inputs) ==> n <= m.slot(
            dst,
        ).len(),
        device_plan::in_bounds(
            m,
            DeviceAction::CopyBucket { dst, dst_word, term, src_word },
            inputs,
        ) ==> dst_word + 2048 <= m.slot(dst).len() && term < inputs.bufs.len() && src_word + 2048
            <= inputs.bufs[term as int].len(),
        device_plan::in_bounds(m, DeviceAction::CopyBench { dst, dst_word, src_word }, inputs)
            ==> dst_word + 2048 <= m.slot(dst).len() && src_word + 2048 <= m.bench.len(),
        device_plan::in_bounds(m, DeviceAction::Compute { op, words: n }, inputs) ==> n <= m.a.len()
            && n <= m.b.len() && n <= m.out.len(),
        device_plan::in_bounds(m, DeviceAction::Download { src: dst, words: n }, inputs) ==> n
            <= m.slot(dst).len(),
        device_plan::in_bounds(m, DeviceAction::GatherBucket { dst_word, term, src_word }, inputs)
            ==> dst_word + 2048 <= m.host.len() && term < inputs.bufs.len() && src_word + 2048
            <= inputs.bufs[term as int].len(),
        device_plan::in_bounds(m, DeviceAction::GatherBench { dst_word, src_word }, inputs)
            ==> dst_word + 2048 <= m.host.len() && src_word + 2048 <= m.bench.len(),
{
    assert(steps.push(s).drop_last() =~= steps);
}

} // verus!
