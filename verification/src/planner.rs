//! GPU dispatch threshold for Bool queries.
//!
//! Three conditions must hold for a cohort of terms to go to the GPU:
//!
//! 1. every term has at least [`MIN_PER_TERM_CARDINALITY`] documents;
//! 2. the terms have at least [`MIN_COHORT_DOCS`] documents in total;
//! 3. the densest term covers at least 5 % of the segment.
//!
//! Any condition failing routes the cohort to the CPU.
//!
//! ## The ratio in integers
//!
//! The ratio of a term is `doc_freq / num_docs_in_segment` in double precision,
//! clamped to one and rounded to single precision; the floor is the
//! single-precision number nearest to 0.05, which is
//! `MIN_RATIO_MANTISSA / 2^28`. A quotient reaches the floor after both roundings
//! exactly when it is greater than the midpoint between the floor and the
//! single-precision number below it by more than half a unit in the last place of
//! double precision, that is, when
//! `doc_freq * 2^58 > num_docs_in_segment * (26843545 * 2^29 + 1)`.

use vstd::prelude::*;

verus! {

/// Per-term statistic the planner consumes.
#[derive(Debug, Clone, Copy, PartialEq, Eq, Structural)]
pub struct TermStat {
    /// Number of distinct doc-ids the term appears in inside the segment under
    /// consideration.
    pub doc_freq: u32,
    /// Total live doc-ids in the segment under consideration.
    pub num_docs_in_segment: u32,
}

/// Bucket size: one container covers 65536 doc-ids.
pub const BUCKET_SIZE: u64 = 65536;

/// Minimum per-term `doc_freq` for GPU dispatch.
///
/// The cardinality of a conjunction is bounded by its smallest term, so a single
/// term below the floor caps the work the GPU has to do.
pub const MIN_PER_TERM_CARDINALITY: u32 = 100_000;

/// Minimum cohort-wide total `doc_freq` for GPU dispatch.
pub const MIN_COHORT_DOCS: u64 = 1_000_000;

/// Significand of the single-precision number nearest to 0.05, in units of 2^-28.
pub const MIN_RATIO_MANTISSA: u32 = 13_421_773;

/// Scale of the ratio test: 2^58.
pub const RATIO_SCALE: u128 = 288_230_376_151_711_744;

/// Largest quotient below the ratio floor, in units of `1 / RATIO_SCALE`:
/// `26843545 * 2^29 + 1`, where `26843545 == 2 * MIN_RATIO_MANTISSA - 1`.
pub const RATIO_CUT: u128 = 14_411_518_485_463_041;

/// The ratio of the term reaches the floor.
pub open spec fn reaches_ratio(t: TermStat) -> bool {
    t.num_docs_in_segment > 0 && t.doc_freq * RATIO_SCALE > t.num_docs_in_segment * RATIO_CUT
}

/// The documents of the first `n` terms, each term counted by itself.
pub open spec fn cohort_docs(terms: Seq<TermStat>, n: int) -> int
    decreases n,
{
    if n <= 0 {
        0
    } else {
        cohort_docs(terms, n - 1) + terms[n - 1].doc_freq
    }
}

/// The cohort goes to the GPU.
pub open spec fn dispatches(terms: Seq<TermStat>) -> bool {
    &&& terms.len() > 0
    &&& forall|i: int|
        0 <= i < terms.len() ==> (#[trigger] terms[i]).doc_freq >= MIN_PER_TERM_CARDINALITY
    &&& cohort_docs(terms, terms.len() as int) >= MIN_COHORT_DOCS
    &&& exists|i: int| 0 <= i < terms.len() && reaches_ratio(#[trigger] terms[i])
}

impl TermStat {
    /// Estimated number of containers this term occupies: the documents in units of
    /// 65536, rounded up.
    pub fn estimated_containers(self) -> (r: u64)
        ensures
            r == (self.doc_freq + 65535) / 65536,
    {
        (self.doc_freq as u64 + (BUCKET_SIZE - 1)) / BUCKET_SIZE
    }

    /// Whether the ratio of documents with the term to all documents reaches the
    /// 5 % floor. An empty segment has ratio zero.
    pub fn ratio_reaches_floor(self) -> (r: bool)
        ensures
            r == reaches_ratio(self),
    {
        if self.num_docs_in_segment == 0 {
            return false;
        }
        assert(self.doc_freq * RATIO_SCALE <= 0xFFFF_FFFF * 288_230_376_151_711_744);
        assert(self.num_docs_in_segment * RATIO_CUT <= 0xFFFF_FFFF * 14_411_518_485_463_041);
        (self.doc_freq as u128) * RATIO_SCALE > (self.num_docs_in_segment as u128) * RATIO_CUT
    }
}

/// The documents of the first `n` terms are the sum of theirs.
proof fn lemma_cohort_sum(terms: Seq<TermStat>, n: int)
    requires
        0 <= n <= terms.len(),
    ensures
        cohort_docs(terms, n) == terms.take(n).fold_left(
            0int,
            |sum: int, t: TermStat| sum + t.doc_freq,
        ),
    decreases n,
{
    if n > 0 {
        lemma_cohort_sum(terms, n - 1);
        assert(terms.take(n).drop_last() =~= terms.take(n - 1));
        assert(terms.take(n).last() == terms[n - 1]);
    }
}

/// A term covers the floor when its documents times 2^58 exceed the documents of the
/// segment times 26843545 * 2^29 + 1: a twentieth of the segment always does, and what
/// does is more than 49999998 parts in 10^9 of it.
pub proof fn lemma_ratio_floor(t: TermStat)
    ensures
        t.num_docs_in_segment > 0 ==> (reaches_ratio(t) <==> t.doc_freq * 288_230_376_151_711_744
            > t.num_docs_in_segment * 14_411_518_485_463_041),
        20 * t.doc_freq >= t.num_docs_in_segment && t.num_docs_in_segment > 0 ==> reaches_ratio(t),
        reaches_ratio(t) ==> t.num_docs_in_segment > 0 && 1_000_000_000 * t.doc_freq > 49_999_998
            * t.num_docs_in_segment,
{
}

/// The ratio gate asks for one dense term: a cohort whose terms all have 100000
/// documents, with a million in total, is dispatched as soon as some term covers a
/// twentieth of its segment, whatever the ratios of the others.
pub proof fn lemma_one_dense_term_dispatches(terms: Seq<TermStat>, i: int)
    requires
        0 <= i < terms.len(),
        forall|j: int| 0 <= j < terms.len() ==> (#[trigger] terms[j]).doc_freq >= 100_000,
        terms.fold_left(0int, |sum: int, t: TermStat| sum + t.doc_freq) >= 1_000_000,
        20 * terms[i].doc_freq >= terms[i].num_docs_in_segment,
        terms[i].num_docs_in_segment > 0,
    ensures
        dispatches(terms),
{
    lemma_cohort_sum(terms, terms.len() as int);
    assert(terms.take(terms.len() as int) =~= terms);
    lemma_ratio_floor(terms[i]);
    assert(reaches_ratio(terms[i]));
}

/// What a dispatched cohort must satisfy: it has terms, each with 100000 documents, a
/// million in total, and one of them covers a twentieth of its segment, up to rounding.
pub proof fn lemma_dispatch_needs(terms: Seq<TermStat>)
    requires
        dispatches(terms),
    ensures
        terms.len() > 0,
        forall|j: int| 0 <= j < terms.len() ==> (#[trigger] terms[j]).doc_freq >= 100_000,
        terms.fold_left(0int, |sum: int, t: TermStat| sum + t.doc_freq) >= 1_000_000,
        exists|i: int|
            0 <= i < terms.len() && (#[trigger] terms[i]).num_docs_in_segment > 0 && 1_000_000_000
                * terms[i].doc_freq > 49_999_998 * terms[i].num_docs_in_segment,
{
    lemma_cohort_sum(terms, terms.len() as int);
    assert(terms.take(terms.len() as int) =~= terms);
    let i = choose|i: int| 0 <= i < terms.len() && reaches_ratio(#[trigger] terms[i]);
    lemma_ratio_floor(terms[i]);
    assert(terms[i].num_docs_in_segment > 0);
}

/// A cohort that is dispatched stays so when a term above the per-term floor joins it,
/// however sparse, and wherever it stands.
pub proof fn lemma_joining_term_keeps_dispatch(terms: Seq<TermStat>, at: int, t: TermStat)
    requires
        dispatches(terms),
        0 <= at <= terms.len(),
        t.doc_freq >= 100_000,
    ensures
        dispatches(terms.insert(at, t)),
{
    let more = terms.insert(at, t);
    lemma_cohort_insert(terms, at, t, more.len() as int);
    let i = choose|i: int| 0 <= i < terms.len() && reaches_ratio(#[trigger] terms[i]);
    let k = if i < at {
        i
    } else {
        i + 1
    };
    assert(more[k] == terms[i]);
    assert forall|j: int| 0 <= j < more.len() implies (#[trigger] more[j]).doc_freq
        >= MIN_PER_TERM_CARDINALITY by {
        if j < at {
            assert(more[j] == terms[j]);
        } else if j > at {
            assert(more[j] == terms[j - 1]);
        }
    }
}

proof fn lemma_cohort_insert(terms: Seq<TermStat>, at: int, t: TermStat, n: int)
    requires
        0 <= at <= terms.len(),
        0 <= n <= terms.len() + 1,
    ensures
        cohort_docs(terms.insert(at, t), n) == if n <= at {
            cohort_docs(terms, n)
        } else {
            cohort_docs(terms, n - 1) + t.doc_freq
        },
    decreases n,
{
    if n > 0 {
        lemma_cohort_insert(terms, at, t, n - 1);
    }
}

/// Decide whether a Bool query cohort should dispatch to the GPU path.
///
/// An empty cohort does not. A single term below the per-term floor disables
/// dispatch.
pub fn should_dispatch_gpu(terms: &[TermStat]) -> (r: bool)
    ensures
        r == dispatches(terms@),
{
    let n: usize = terms.len();
    if n == 0 {
        return false;
    }
    let mut total: u64 = 0;
    let mut dense: bool = false;
    let mut i: usize = 0;
    while i < n
        invariant
            n == terms@.len(),
            i <= n,
            forall|j: int|
                0 <= j < i ==> (#[trigger] terms@[j]).doc_freq >= MIN_PER_TERM_CARDINALITY,
            total == (if cohort_docs(terms@, i as int) <= u64::MAX {
                cohort_docs(terms@, i as int)
            } else {
                u64::MAX as int
            }),
            dense <==> exists|j: int| 0 <= j < i && reaches_ratio(#[trigger] terms@[j]),
        decreases n - i,
    {
        let t: TermStat = terms[i];
        if t.doc_freq < MIN_PER_TERM_CARDINALITY {
            assert(terms@[i as int].doc_freq < MIN_PER_TERM_CARDINALITY);
            return false;
        }
        total = total.saturating_add(t.doc_freq as u64);
        let passes: bool = t.ratio_reaches_floor();
        assert(passes == reaches_ratio(terms@[i as int]));
        dense = dense || passes;
        i = i + 1;
    }
    total >= MIN_COHORT_DOCS && dense
}

} // verus!
