//! Bool query dispatch.
//!
//! When the planner approves a cohort, every posting list is expanded to a flat
//! bitmap over the union of the cohort's bucket keys, the bitmaps are folded by a
//! word-wise kernel, and the result is decoded back into a posting list. Otherwise
//! the caller stays on its CPU path.
//!
//! The kernel is a function value: it may run on any device, and it may fail.

use vstd::prelude::*;

use crate::postings;
use crate::planner;
use crate::keyset;
use crate::flat;
use crate::encoder;
use crate::bitmap;
pub use crate::flat::BoolOp;

use crate::array::merge_or;
use crate::bitmap::BitmapContainer;
use crate::container::Container;
use crate::planner::{should_dispatch_gpu, TermStat};
use crate::postings::RoaringPostings;
use crate::shared_bitmap_payload::{bitmap_of, push_words};
use crate::BITMAP_CONTAINER_WORDS;

verus! {

/// How often cohorts went to the GPU and how often they stayed on the CPU.
#[derive(Debug, Clone, Copy, PartialEq, Eq, Structural)]
pub struct DispatchCounters {
    /// Cohorts that a kernel folded.
    pub gpu: usize,
    /// Cohorts that fell back to the CPU.
    pub cpu: usize,
}

/// `x + 1`, back to zero at the end of the range.
pub open spec fn bumped(x: usize) -> usize {
    if x == usize::MAX {
        0
    } else {
        (x + 1) as usize
    }
}

/// A bucket of the list has key `h`.
pub open spec fn has_bucket(cs: Seq<(u16, Container)>, h: u16) -> bool {
    exists|j: int| 0 <= j < cs.len() && (#[trigger] cs[j]).0 == h
}

/// The keys in the bucket with key `h`.
pub open spec fn bucket_set(cs: Seq<(u16, Container)>, h: u16) -> Set<u16> {
    Set::new(
        |k: u16| exists|j: int| 0 <= j < cs.len() && (#[trigger] cs[j]).0 == h
            && cs[j].1@.contains(k),
    )
}

/// One of the first `n` terms has a bucket with key `h`.
pub open spec fn any_bucket(terms: Seq<&RoaringPostings>, n: int, h: u16) -> bool {
    exists|i: int| 0 <= i < n && has_bucket((#[trigger] terms[i]).containers@, h)
}

/// The bucket keys of a cohort, ascending.
pub open spec fn cohort_keys(terms: Seq<&RoaringPostings>) -> Seq<u16> {
    keyset::sorted_keys(Set::new(|h: u16| any_bucket(terms, terms.len() as int, h)))
}

/// The planner's view of a posting list.
pub open spec fn term_stat(p: RoaringPostings, num_docs: u32) -> TermStat {
    TermStat {
        doc_freq: if p@.len() <= u32::MAX { p@.len() as u32 } else { u32::MAX },
        num_docs_in_segment: num_docs,
    }
}

/// The cohort has at least two terms and the planner approves it.
pub open spec fn approved(terms: Seq<&RoaringPostings>, num_docs: u32) -> bool {
    terms.len() >= 2 && planner::dispatches(
        Seq::new(terms.len(), |i: int| term_stat(*terms[i], num_docs)),
    )
}

/// `words` is the flat bitmap of `docs` over `keys`.
pub open spec fn is_flat(keys: Seq<u16>, words: Seq<u32>, docs: Set<u32>) -> bool {
    flat::flat_wf(keys, words) && flat::flat_docs(keys, words) == docs
}

/// `acc` is what the kernel can make of the first `n` terms, folded from the left.
pub open spec fn folded<K: Fn(BoolOp, &Vec<u32>, &Vec<u32>) -> Option<Vec<u32>>>(
    kernel: K,
    op: BoolOp,
    keys: Seq<u16>,
    terms: Seq<&RoaringPostings>,
    n: int,
    acc: Vec<u32>,
) -> bool
    decreases n,
{
    if n <= 1 {
        is_flat(keys, acc@, terms[0]@)
    } else {
        exists|prev: Vec<u32>, other: Vec<u32>|
            #![trigger call_ensures(kernel, (op, &prev, &other), Some(acc))]
            folded(kernel, op, keys, terms, n - 1, prev) && is_flat(keys, other@, terms[n - 1]@)
                && call_ensures(kernel, (op, &prev, &other), Some(acc))
    }
}

/// The kernel can be called on flat bitmaps over `keys` and gives flat bitmaps back.
pub open spec fn kernel_ready<K: Fn(BoolOp, &Vec<u32>, &Vec<u32>) -> Option<Vec<u32>>>(
    kernel: K,
    op: BoolOp,
    words: nat,
) -> bool {
    &&& forall|a: Vec<u32>, b: Vec<u32>|
        a@.len() == words && b@.len() == words ==> #[trigger] call_requires(kernel, (op, &a, &b))
    &&& forall|a: Vec<u32>, b: Vec<u32>, r: Vec<u32>| #[trigger]
        call_ensures(kernel, (op, &a, &b), Some(r)) ==> r@.len() == a@.len()
}

/// The kernel computes the operation word by word whenever it succeeds.
pub open spec fn kernel_exact<K: Fn(BoolOp, &Vec<u32>, &Vec<u32>) -> Option<Vec<u32>>>(
    kernel: K,
    op: BoolOp,
) -> bool {
    forall|a: Vec<u32>, b: Vec<u32>, r: Vec<u32>| #[trigger]
        call_ensures(kernel, (op, &a, &b), Some(r)) ==> r@ == flat::op_words(op, a@, b@)
}

/// The document sets of a cohort.
pub open spec fn term_sets(terms: Seq<&RoaringPostings>) -> Seq<Set<u32>> {
    Seq::new(terms.len(), |i: int| terms[i]@)
}

/// Number of dispatches that a kernel completed.
pub fn gpu_dispatch_count(counters: &DispatchCounters) -> (r: usize)
    ensures
        r == counters.gpu,
{
    counters.gpu
}

/// Number of cohorts that stayed on the CPU.
pub fn cpu_fallback_count(counters: &DispatchCounters) -> (r: usize)
    ensures
        r == counters.cpu,
{
    counters.cpu
}

/// Record a CPU fallback from a higher-level call site.
pub fn record_cpu_fallback(counters: &mut DispatchCounters)
    ensures
        final(counters).cpu == bumped(old(counters).cpu),
        final(counters).gpu == old(counters).gpu,
{
    counters.cpu = counters.cpu.wrapping_add(1);
}

/// Record a completed dispatch.
fn record_gpu_dispatch(counters: &mut DispatchCounters)
    ensures
        final(counters).gpu == bumped(old(counters).gpu),
        final(counters).cpu == old(counters).cpu,
{
    counters.gpu = counters.gpu.wrapping_add(1);
}

/// Reset both counters.
pub fn reset_dispatch_counters(counters: &mut DispatchCounters)
    ensures
        *final(counters) == (DispatchCounters { gpu: 0, cpu: 0 }),
{
    counters.gpu = 0;
    counters.cpu = 0;
}

impl DispatchCounters {
    /// Both counters at zero.
    pub fn new() -> (r: Self)
        ensures
            r.gpu == 0,
            r.cpu == 0,
    {
        DispatchCounters { gpu: 0, cpu: 0 }
    }
}

/// The union of the bucket keys of a cohort, in ascending order.
pub fn union_high16_keys(terms: &[&RoaringPostings]) -> (r: Vec<u16>)
    requires
        forall|i: int| 0 <= i < terms@.len() ==> (#[trigger] terms@[i]).wf(),
    ensures
        r@ == cohort_keys(terms@),
        keyset::increasing(r@),
        r@.len() <= 65536,
        forall|h: u16| #[trigger]
            r@.contains(h) <==> any_bucket(terms@, terms@.len() as int, h),
{
    let mut keys: Vec<u16> = Vec::new();
    let n: usize = terms.len();
    let mut i: usize = 0;
    while i < n
        invariant
            n == terms@.len(),
            i <= n,
            forall|j: int| 0 <= j < terms@.len() ==> (#[trigger] terms@[j]).wf(),
            keyset::increasing(keys@),
            forall|h: u16| #[trigger] keys@.contains(h) <==> any_bucket(terms@, i as int, h),
        decreases n - i,
    {
        let term: &RoaringPostings = terms[i];
        assert(terms@[i as int].wf());
        let highs: Vec<u16> = bucket_keys(term);
        let ghost before = keys@;
        keys = merge_or(&keys, &highs);
        proof {
            assert forall|h: u16| #[trigger] keys@.contains(h)
                <==> any_bucket(terms@, i + 1, h) by {
                if any_bucket(terms@, i as int, h) {
                    let j = choose|j: int|
                        0 <= j < i && has_bucket((#[trigger] terms@[j]).containers@, h);
                    assert(has_bucket(terms@[j].containers@, h));
                }
                if any_bucket(terms@, i + 1, h) {
                    let j = choose|j: int|
                        0 <= j < i + 1 && has_bucket((#[trigger] terms@[j]).containers@, h);
                    if j < i {
                        assert(any_bucket(terms@, i as int, h));
                    }
                }
                if has_bucket(terms@[i as int].containers@, h) {
                    assert(any_bucket(terms@, i + 1, h));
                }
                assert(before.contains(h) <==> any_bucket(terms@, i as int, h));
            }
        }
        i = i + 1;
    }
    proof {
        let set = Set::new(|h: u16| any_bucket(terms@, terms@.len() as int, h));
        assert forall|h: u16| keys@.contains(h) <==> set.contains(h) by {}
        keyset::lemma_sorted_keys(keys@, set);
        keyset::lemma_increasing_len(keys@);
    }
    keys
}

/// The bucket keys of a posting list, in ascending order.
fn bucket_keys(term: &RoaringPostings) -> (r: Vec<u16>)
    requires
        term.wf(),
    ensures
        keyset::increasing(r@),
        forall|h: u16| #[trigger] r@.contains(h) <==> has_bucket(term.containers@, h),
{
    let mut highs: Vec<u16> = Vec::new();
    let n: usize = term.containers.len();
    let ghost cs = term.containers@;
    let mut i: usize = 0;
    while i < n
        invariant
            term.wf(),
            cs == term.containers@,
            n == cs.len(),
            i <= n,
            highs@.len() == i,
            forall|j: int| 0 <= j < i ==> highs@[j] == (#[trigger] cs[j]).0,
        decreases n - i,
    {
        highs.push(term.containers[i].0);
        i = i + 1;
    }
    proof {
        assert forall|x: int, y: int| 0 <= x < y < highs@.len() implies highs@[x] < highs@[y] by {
            assert(cs[x].0 < cs[y].0);
        }
        assert forall|h: u16| #[trigger] highs@.contains(h) <==> has_bucket(cs, h) by {
            if highs@.contains(h) {
                let j = choose|j: int| 0 <= j < highs@.len() && highs@[j] == h;
                assert(cs[j].0 == h);
            }
            if has_bucket(cs, h) {
                let j = choose|j: int| 0 <= j < cs.len() && (#[trigger] cs[j]).0 == h;
                assert(highs@[j] == h);
            }
        }
    }
    highs
}

/// The flat bitmap of a posting list over `keys`: 2048 words per key, zero where
/// the list has no such bucket.
pub fn flat_buffer_for_term(term: &RoaringPostings, keys: &[u16]) -> (r: Vec<u32>)
    requires
        term.wf(),
        keyset::increasing(keys@),
    ensures
        flat::flat_wf(keys@, r@),
        forall|d: u32| #[trigger]
            flat::flat_docs(keys@, r@).contains(d) <==> term@.contains(d) && keys@.contains(
                (d / 65536) as u16,
            ),
{
    let mut out: Vec<u32> = Vec::new();
    let ghost cs = term.containers@;
    let n: usize = term.containers.len();
    let m: usize = keys.len();
    let mut i: usize = 0;
    let mut j: usize = 0;
    while i < m
        invariant
            term.wf(),
            keyset::increasing(keys@),
            cs == term.containers@,
            n == cs.len(),
            m == keys@.len(),
            i <= m,
            j <= n,
            out@.len() == 2048 * i,
            i < m ==> forall|x: int| 0 <= x < j ==> (#[trigger] cs[x]).0 < keys@[i as int],
            forall|p: int|
                0 <= p < i ==> bitmap::word_set(#[trigger] flat::window(out@, p))
                    == bucket_set(cs, keys@[p]),
        decreases m - i,
    {
        let want: u16 = keys[i];
        while j < n && term.containers[j].0 < want
            invariant
                term.wf(),
                cs == term.containers@,
                n == cs.len(),
                j <= n,
                forall|x: int| 0 <= x < j ==> (#[trigger] cs[x]).0 < want,
            decreases n - j,
        {
            j = j + 1;
        }
        let ghost before = out@;
        if j < n && term.containers[j].0 == want {
            assert(cs[j as int].1.wf());
            let bm: BitmapContainer = bitmap_of(&term.containers[j].1);
            push_words(&mut out, &bm);
            proof {
                assert(flat::window(out@, i as int) =~= bm.words@);
                lemma_bucket_at(cs, j as int);
            }
            j = j + 1;
        } else {
            let bm: BitmapContainer = BitmapContainer::new();
            push_words(&mut out, &bm);
            proof {
                assert(flat::window(out@, i as int) =~= bm.words@);
                lemma_no_bucket(cs, j as int, want);
            }
        }
        proof {
            assert forall|p: int| 0 <= p < i
                implies #[trigger] flat::window(out@, p) == flat::window(before, p) by {
                assert(flat::window(out@, p) =~= flat::window(before, p));
            }
            if i + 1 < m {
                assert(keys@[i as int] < keys@[i + 1]);
            }
        }
        i = i + 1;
    }
    proof {
        assert forall|d: u32| #[trigger]
            flat::flat_docs(keys@, out@).contains(d) <==> term@.contains(d) && keys@.contains(
                (d / 65536) as u16,
            ) by {
            let h = (d / 65536) as u16;
            if keys@.contains(h) {
                let p = choose|p: int| 0 <= p < keys@.len() && keys@[p] == h;
                flat::lemma_flat_bucket(keys@, out@, p, d);
                assert(bitmap::word_set(flat::window(out@, p)).contains((d % 65536) as u16)
                    == bitmap::has_bit(
                    flat::window(out@, p),
                    (d % 65536) as u16,
                ));
            } else if flat::has_flat_doc(keys@, out@, d) {
                let p = choose|p: int|
                    0 <= p < keys@.len() && #[trigger] keys@[p] == d / 65536 && bitmap::has_bit(
                        flat::window(out@, p),
                        (d % 65536) as u16,
                    );
                assert(keys@.contains(h));
            }
        }
    }
    out
}

proof fn lemma_bucket_at(cs: Seq<(u16, Container)>, j: int)
    requires
        postings::buckets_wf(cs),
        0 <= j < cs.len(),
    ensures
        bucket_set(cs, cs[j].0) == cs[j].1@,
{
    let h = cs[j].0;
    assert forall|k: u16| bucket_set(cs, h).contains(k) == cs[j].1@.contains(k) by {
        if bucket_set(cs, h).contains(k) {
            let x = choose|x: int|
                0 <= x < cs.len() && (#[trigger] cs[x]).0 == h && cs[x].1@.contains(k);
            if x < j {
                assert(cs[x].0 < cs[j].0);
            } else if j < x {
                assert(cs[j].0 < cs[x].0);
            }
        }
    }
    assert(bucket_set(cs, h) =~= cs[j].1@);
}

proof fn lemma_no_bucket(cs: Seq<(u16, Container)>, j: int, h: u16)
    requires
        postings::buckets_wf(cs),
        0 <= j <= cs.len(),
        forall|x: int| 0 <= x < j ==> (#[trigger] cs[x]).0 < h,
        j < cs.len() ==> cs[j].0 > h,
    ensures
        bucket_set(cs, h) == Set::<u16>::empty(),
{
    assert forall|k: u16| !bucket_set(cs, h).contains(k) by {
        if bucket_set(cs, h).contains(k) {
            let x = choose|x: int|
                0 <= x < cs.len() && (#[trigger] cs[x]).0 == h && cs[x].1@.contains(k);
            if j < x {
                assert(cs[j].0 < cs[x].0);
            }
        }
    }
    assert(bucket_set(cs, h) =~= Set::<u16>::empty());
}

/// Decode a flat bitmap: every populated bucket becomes a container in its best
/// form, empty buckets are dropped.
pub fn decode_flat(keys: &[u16], words: &[u32]) -> (r: RoaringPostings)
    requires
        flat::flat_wf(keys@, words@),
    ensures
        r.wf(),
        r@ == flat::flat_docs(keys@, words@),
        encoder::canonical(r.containers@),
{
    let m: usize = keys.len();
    let mut out: Vec<(u16, Container)> = Vec::new();
    let mut i: usize = 0;
    while i < m
        invariant
            flat::flat_wf(keys@, words@),
            m == keys@.len(),
            i <= m,
            encoder::canonical(out@),
            i < m ==> forall|x: int| 0 <= x < out@.len()
                ==> (#[trigger] out@[x]).0 < keys@[i as int],
            forall|d: u32| #[trigger]
                postings::has_doc_from(out@, 0, d)
                    <==> has_flat_doc_upto(keys@, words@, i as int, d),
        decreases m - i,
    {
        let high16: u16 = keys[i];
        let ghost before = out@;
        let mut chunk: Box<[u32; BITMAP_CONTAINER_WORDS]> = Box::new(
            [0u32; BITMAP_CONTAINER_WORDS],
        );
        let mut w: usize = 0;
        while w < BITMAP_CONTAINER_WORDS
            invariant
                w <= 2048,
                m == keys@.len(),
                i < m,
                words@.len() == 2048 * m,
                forall|x: int| 0 <= x < w ==> chunk@[x] == words@[2048 * i + x],
            decreases 2048 - w,
        {
            assert(2048 * i + w < words.len());
            chunk[w] = words[2048 * i + w];
            w = w + 1;
        }
        let bm = BitmapContainer::from_words(chunk);
        assert(bm.words@ =~= flat::window(words@, i as int));
        if bm.cardinality() > 0 {
            let best: Container = Container::Bitmap(bm).optimize();
            out.push((high16, best));
            proof {
                let b = out@;
                assert forall|x: int, y: int| 0 <= x < y < b.len() implies (#[trigger] b[x]).0 < (
                #[trigger] b[y]).0 by {
                    if y < before.len() {
                        assert(before[x].0 < before[y].0);
                    } else {
                        assert(before[x].0 < high16);
                    }
                }
                assert forall|d: u32| #[trigger]
                    postings::has_doc_from(b, 0, d)
                        <==> has_flat_doc_upto(keys@, words@, i + 1, d) by {
                    lemma_decode_push(keys@, words@, i as int, before, b, d);
                }
            }
        } else {
            proof {
                keyset::lemma_sorted_keys_spec(bm@);
                assert forall|d: u32| #[trigger]
                    postings::has_doc_from(out@, 0, d)
                        <==> has_flat_doc_upto(keys@, words@, i + 1, d) by {
                    lemma_decode_skip(keys@, words@, i as int, d);
                }
            }
        }
        proof {
            if i + 1 < m {
                assert(keys@[i as int] < keys@[i + 1]);
            }
        }
        i = i + 1;
    }
    let r = RoaringPostings { containers: out };
    proof {
        assert forall|d: u32| r@.contains(d) == flat::flat_docs(keys@, words@).contains(d) by {
            assert(postings::has_doc_from(out@, 0, d)
                <==> has_flat_doc_upto(keys@, words@, m as int, d));
            assert(has_flat_doc_upto(keys@, words@, m as int, d)
                == flat::has_flat_doc(keys@, words@, d));
        }
        assert(r@ =~= flat::flat_docs(keys@, words@));
    }
    r
}

/// Document `d` is set in one of the first `n` buckets of a flat bitmap.
spec fn has_flat_doc_upto(keys: Seq<u16>, words: Seq<u32>, n: int, d: u32) -> bool {
    exists|i: int|
        0 <= i < n && #[trigger] keys[i] == d / 65536 && bitmap::has_bit(
            flat::window(words, i),
            (d % 65536) as u16,
        )
}

proof fn lemma_decode_push(
    keys: Seq<u16>,
    words: Seq<u32>,
    i: int,
    a: Seq<(u16, Container)>,
    b: Seq<(u16, Container)>,
    d: u32,
)
    requires
        0 <= i < keys.len(),
        b.len() == a.len() + 1,
        forall|x: int| 0 <= x < a.len() ==> #[trigger] b[x] == a[x],
        b[a.len() as int].0 == keys[i],
        b[a.len() as int].1@ == bitmap::word_set(flat::window(words, i)),
        postings::has_doc_from(a, 0, d) <==> has_flat_doc_upto(keys, words, i, d),
    ensures
        postings::has_doc_from(b, 0, d) <==> has_flat_doc_upto(keys, words, i + 1, d),
{
    let low = (d % 65536) as u16;
    let n = a.len() as int;
    assert(bitmap::word_set(flat::window(words, i)).contains(low)
        == bitmap::has_bit(flat::window(words, i), low));
    if postings::has_doc_from(b, 0, d) {
        let x = choose|x: int|
            0 <= x < b.len() && (#[trigger] b[x]).0 == d / 65536 && b[x].1@.contains(low);
        if x < n {
            assert(a[x].0 == d / 65536);
            assert(postings::has_doc_from(a, 0, d));
            let p = choose|p: int|
                0 <= p < i && #[trigger] keys[p] == d / 65536
                    && bitmap::has_bit(flat::window(words, p), low);
            assert(keys[p] == d / 65536);
        } else {
            assert(keys[i] == d / 65536);
        }
    }
    if has_flat_doc_upto(keys, words, i + 1, d) {
        let p = choose|p: int|
            0 <= p < i + 1 && #[trigger] keys[p] == d / 65536
                && bitmap::has_bit(flat::window(words, p), low);
        if p < i {
            assert(has_flat_doc_upto(keys, words, i, d));
            let x = choose|x: int|
                0 <= x < a.len() && (#[trigger] a[x]).0 == d / 65536 && a[x].1@.contains(low);
            assert(b[x].0 == d / 65536);
        } else {
            assert(b[n].0 == d / 65536);
        }
    }
}

proof fn lemma_decode_skip(keys: Seq<u16>, words: Seq<u32>, i: int, d: u32)
    requires
        0 <= i < keys.len(),
        bitmap::word_set(flat::window(words, i)).finite(),
        bitmap::word_set(flat::window(words, i)).len() == 0,
    ensures
        has_flat_doc_upto(keys, words, i + 1, d) == has_flat_doc_upto(keys, words, i, d),
{
    let low = (d % 65536) as u16;
    bitmap::word_set(flat::window(words, i)).lemma_len0_is_empty();
    assert(bitmap::word_set(flat::window(words, i)).contains(low)
        == bitmap::has_bit(flat::window(words, i), low));
    if has_flat_doc_upto(keys, words, i, d) {
        let p = choose|p: int|
            0 <= p < i && #[trigger] keys[p] == d / 65536
                && bitmap::has_bit(flat::window(words, p), low);
        assert(keys[p] == d / 65536);
    }
}

/// The flat bitmap of a term of the cohort over the cohort's keys.
proof fn lemma_cohort_flat(
    terms: Seq<&RoaringPostings>,
    i: int,
    keys: Seq<u16>,
    words: Seq<u32>,
)
    requires
        0 <= i < terms.len(),
        flat::flat_wf(keys, words),
        forall|h: u16| #[trigger] keys.contains(h) <==> any_bucket(terms, terms.len() as int, h),
        forall|d: u32| #[trigger]
            flat::flat_docs(keys, words).contains(d) <==> terms[i]@.contains(d) && keys.contains(
                (d / 65536) as u16,
            ),
    ensures
        is_flat(keys, words, terms[i]@),
{
    assert forall|d: u32| flat::flat_docs(keys, words).contains(d) == terms[i]@.contains(d) by {
        if terms[i]@.contains(d) {
            let cs = terms[i].containers@;
            let j = choose|j: int|
                0 <= j < cs.len() && (#[trigger] cs[j]).0 == d / 65536 && cs[j].1@.contains(
                    (d % 65536) as u16,
                );
            assert(has_bucket(cs, (d / 65536) as u16));
            assert(has_bucket(terms[i].containers@, (d / 65536) as u16));
            assert(any_bucket(terms, terms.len() as int, (d / 65536) as u16));
        }
    }
    assert(flat::flat_docs(keys, words) =~= terms[i]@);
}

/// The planner statistics of a cohort.
fn cohort_stats(terms: &[&RoaringPostings], num_docs_in_segment: u32) -> (r: Vec<TermStat>)
    requires
        forall|i: int| 0 <= i < terms@.len() ==> (#[trigger] terms@[i]).wf(),
    ensures
        r@ == Seq::new(terms@.len(), |i: int| term_stat(*terms@[i], num_docs_in_segment)),
{
    let n: usize = terms.len();
    let mut stats: Vec<TermStat> = Vec::new();
    let mut i: usize = 0;
    while i < n
        invariant
            n == terms@.len(),
            i <= n,
            forall|j: int| 0 <= j < terms@.len() ==> (#[trigger] terms@[j]).wf(),
            stats@.len() == i,
            forall|j: int|
                0 <= j < i ==> #[trigger] stats@[j] == term_stat(*terms@[j], num_docs_in_segment),
        decreases n - i,
    {
        assert(terms@[i as int].wf());
        let card: u64 = terms[i].cardinality();
        let doc_freq: u32 = if card <= 0xFFFF_FFFF {
            card as u32
        } else {
            0xFFFF_FFFF
        };
        stats.push(TermStat { doc_freq, num_docs_in_segment });
        i = i + 1;
    }
    assert(stats@ =~= Seq::new(terms@.len(), |i: int| term_stat(*terms@[i], num_docs_in_segment)));
    stats
}

/// Try to run a Bool cohort through a word-wise kernel.
///
/// Returns a posting list iff the cohort has at least two terms, the planner
/// approves it, a kernel is there, and every kernel call succeeds. In every other
/// case the caller falls back to its CPU path. Each call is counted as either.
pub fn try_gpu_bool<K: Fn(BoolOp, &Vec<u32>, &Vec<u32>) -> Option<Vec<u32>>>(
    counters: &mut DispatchCounters,
    op: BoolOp,
    terms: &[&RoaringPostings],
    num_docs_in_segment: u32,
    kernel: Option<K>,
) -> (r: Option<RoaringPostings>)
    requires
        forall|i: int| 0 <= i < terms@.len() ==> (#[trigger] terms@[i]).wf(),
        kernel matches Some(k) ==> kernel_ready(k, op, 2048 * cohort_keys(terms@).len()),
    ensures
        r is Some ==> final(counters).gpu == bumped(old(counters).gpu)
            && final(counters).cpu == old(counters).cpu,
        r is None ==> final(counters).cpu == bumped(old(counters).cpu)
            && final(counters).gpu == old(counters).gpu,
        r is Some ==> approved(terms@, num_docs_in_segment) && kernel is Some,
        r matches Some(p) ==> p.wf() && encoder::canonical(p.containers@),
        approved(terms@, num_docs_in_segment) && kernel is Some ==> (match r {
            Some(p) => exists|acc: Vec<u32>|
                #![trigger folded(
                    kernel->0,
                    op,
                    cohort_keys(terms@),
                    terms@,
                    terms@.len() as int,
                    acc,
                )]
                folded(kernel->0, op, cohort_keys(terms@), terms@, terms@.len() as int, acc) && p@
                    == flat::flat_docs(cohort_keys(terms@), acc@),
            None => exists|m: int, prev: Vec<u32>, other: Vec<u32>|
                #![trigger folded(kernel->0, op, cohort_keys(terms@), terms@, m, prev), is_flat(
                    cohort_keys(terms@),
                    other@,
                    terms@[m]@,
                )]
                1 <= m < terms@.len() && folded(
                    kernel->0,
                    op,
                    cohort_keys(terms@),
                    terms@,
                    m,
                    prev,
                ) && is_flat(cohort_keys(terms@), other@, terms@[m]@) && call_ensures(
                    kernel->0,
                    (op, &prev, &other),
                    None,
                ),
        }),
        r matches Some(p) ==> (kernel_exact(kernel->0, op) ==> p@ == flat::fold_docs(
            op,
            term_sets(terms@),
            terms@.len() as int,
        )),
{
    let n: usize = terms.len();
    if n < 2 {
        record_cpu_fallback(counters);
        return None;
    }
    let stats: Vec<TermStat> = cohort_stats(terms, num_docs_in_segment);
    if !should_dispatch_gpu(stats.as_slice()) {
        record_cpu_fallback(counters);
        return None;
    }
    let k: K = match kernel {
        Some(k) => k,
        None => {
            record_cpu_fallback(counters);
            return None;
        },
    };
    let keys: Vec<u16> = union_high16_keys(terms);
    assert(terms@[0].wf());
    let mut acc: Vec<u32> = flat_buffer_for_term(terms[0], &keys);
    proof {
        lemma_cohort_flat(terms@, 0, keys@, acc@);
    }
    let mut i: usize = 1;
    while i < n
        invariant
            n == terms@.len(),
            1 <= i <= n,
            forall|j: int| 0 <= j < terms@.len() ==> (#[trigger] terms@[j]).wf(),
            keys@ == cohort_keys(terms@),
            keyset::increasing(keys@),
            forall|h: u16| #[trigger]
                keys@.contains(h) <==> any_bucket(terms@, terms@.len() as int, h),
            kernel == Some(k),
            kernel_ready(k, op, 2048 * keys@.len()),
            flat::flat_wf(keys@, acc@),
            folded(k, op, keys@, terms@, i as int, acc),
            *counters == *old(counters),
            approved(terms@, num_docs_in_segment),
        decreases n - i,
    {
        assert(terms@[i as int].wf());
        let other: Vec<u32> = flat_buffer_for_term(terms[i], &keys);
        proof {
            lemma_cohort_flat(terms@, i as int, keys@, other@);
        }
        let ghost prev = acc;
        match k(op, &acc, &other) {
            Some(v) => {
                assert(call_ensures(k, (op, &prev, &other), Some(v)));
                acc = v;
            },
            None => {
                proof {
                    let m = i as int;
                    assert(call_ensures(k, (op, &prev, &other), None::<Vec<u32>>));
                    assert(is_flat(cohort_keys(terms@), other@, terms@[m]@));
                    assert(folded(kernel->0, op, cohort_keys(terms@), terms@, m, prev));
                }
                record_cpu_fallback(counters);
                return None;
            },
        }
        i = i + 1;
    }
    record_gpu_dispatch(counters);
    let r: RoaringPostings = decode_flat(&keys, &acc);
    proof {
        if kernel_exact(k, op) {
            lemma_folded_exact(k, op, keys@, terms@, n as int, acc);
        }
    }
    Some(r)
}

/// A kernel that computes the operation word by word makes a cohort's fold the set
/// operation on the terms' documents.
pub proof fn lemma_folded_exact<K: Fn(BoolOp, &Vec<u32>, &Vec<u32>) -> Option<Vec<u32>>>(
    kernel: K,
    op: BoolOp,
    keys: Seq<u16>,
    terms: Seq<&RoaringPostings>,
    n: int,
    acc: Vec<u32>,
)
    requires
        kernel_exact(kernel, op),
        1 <= n <= terms.len(),
        folded(kernel, op, keys, terms, n, acc),
    ensures
        flat::flat_wf(keys, acc@),
        flat::flat_docs(keys, acc@) == flat::fold_docs(op, term_sets(terms), n),
    decreases n,
{
    if n > 1 {
        let (prev, other) = choose|prev: Vec<u32>, other: Vec<u32>|
            #![trigger call_ensures(kernel, (op, &prev, &other), Some(acc))]
            folded(kernel, op, keys, terms, n - 1, prev) && is_flat(keys, other@, terms[n - 1]@)
                && call_ensures(kernel, (op, &prev, &other), Some(acc));
        lemma_folded_exact(kernel, op, keys, terms, n - 1, prev);
        flat::lemma_op_words(op, keys, prev@, other@);
    }
}

} // verus!
