//! Run-length containers: sorted, non-overlapping intervals of keys.

use vstd::prelude::*;

use crate::wire;
use crate::keyset;
use crate::array::ArrayContainer;
use crate::bitmap::BitmapContainer;
use crate::error::ContainerError;
use crate::wire::{get_u16, push_u16};

verus! {

/// A single contiguous run of set bits inside a 16-bit bucket.
///
/// `start` is the first set position; `length` is the number of consecutive set
/// bits, where 0 stands for the 65536 of a full bucket. On the wire `length - 1`
/// is encoded, so the bit pattern `0xFFFF` denotes a length-65536 run.
#[derive(Debug, Clone, Copy, PartialEq, Eq, Hash, Structural)]
pub struct Run {
    /// First set position in the run (inclusive).
    pub start: u16,
    /// Number of consecutive set positions; 0 encodes the full bucket.
    pub length: u16,
}

/// Run-length-encoded container: a sorted, non-overlapping list of [`Run`]s.
#[derive(Debug, PartialEq, Eq)]
pub struct RunContainer {
    /// Sorted, non-overlapping runs.
    pub runs: Vec<Run>,
}

/// Iterator over a [`RunContainer`] yielding every set position in strictly
/// increasing order.
pub struct RunContainerIter<'a> {
    runs: &'a Vec<Run>,
    run_idx: usize,
    offset: u32,
}

impl Run {
    /// Number of positions in the run.
    pub open spec fn card(self) -> int {
        if self.length == 0 {
            65536
        } else {
            self.length as int
        }
    }

    /// Last position of the run.
    pub open spec fn last(self) -> int {
        self.start + self.card() - 1
    }

    /// `k` is a position of the run.
    pub open spec fn has(self, k: u16) -> bool {
        self.start <= k <= self.last()
    }

    /// Build a [`Run`] from its inclusive endpoints, or `None` if `end < start`.
    pub fn from_inclusive(start: u16, end: u16) -> (r: Option<Self>)
        ensures
            r is None <==> end < start,
            r matches Some(run) ==> run.start == start && run.last() == end,
    {
        if end < start {
            return None;
        }
        Some(Run::between(start as u32, end as u32))
    }

    /// The run from `start` to `end`, both inclusive.
    pub(crate) fn between(start: u32, end: u32) -> (r: Run)
        requires
            start <= end <= 65535,
        ensures
            r.start == start,
            r.last() == end,
    {
        let len: u32 = end - start + 1;
        Run {
            start: start as u16,
            length: if len == 65536 {
                0
            } else {
                len as u16
            },
        }
    }

    /// Inclusive end position of the run (`start + length - 1`), extended to `u32`
    /// to avoid overflow in the full-bucket case.
    pub fn end_inclusive(self) -> (r: u32)
        ensures
            r == self.last(),
    {
        self.start as u32 + self.cardinality() - 1
    }

    /// Cardinality of this run (`length`, with 0 as a full 65536-cell bucket).
    pub fn cardinality(self) -> (r: u32)
        ensures
            r == self.card(),
            1 <= r <= 65536,
    {
        if self.length == 0 {
            65536
        } else {
            self.length as u32
        }
    }

    /// True iff `key` is one of the set positions in this run.
    pub fn contains(self, key: u16) -> (r: bool)
        ensures
            r == self.has(key),
    {
        key >= self.start && key as u32 <= self.end_inclusive()
    }
}

/// The runs lie inside the bucket, in ascending order, without overlap.
pub open spec fn runs_wf(runs: Seq<Run>) -> bool {
    &&& forall|i: int| 0 <= i < runs.len() ==> (#[trigger] runs[i]).last() <= 65535
    &&& forall|i: int, j: int|
        0 <= i < j < runs.len() ==> (#[trigger] runs[i]).last() < (#[trigger] runs[j]).start
}

/// No two runs touch: each is as long as it can be.
pub open spec fn maximal(runs: Seq<Run>) -> bool {
    forall|i: int, j: int|
        0 <= i < j < runs.len() ==> (#[trigger] runs[i]).last() + 1 < (#[trigger] runs[j]).start
}

/// The positions of a list of runs.
pub open spec fn runs_set(runs: Seq<Run>) -> Set<u16> {
    Set::new(|k: u16| exists|i: int| 0 <= i < runs.len() && (#[trigger] runs[i]).has(k))
}

/// The positions of a list of runs, run by run.
pub open spec fn run_keys(runs: Seq<Run>) -> Seq<u16>
    decreases runs.len(),
{
    if runs.len() == 0 {
        Seq::empty()
    } else {
        run_keys(runs.drop_last()) + Seq::new(
            runs.last().card() as nat,
            |i: int| (runs.last().start + i) as u16,
        )
    }
}

/// A zero-length run stands before the last one, and everything in front of it is
/// in order.
pub open spec fn empty_run_first(runs: Seq<Run>) -> bool {
    exists|i: int|
        0 <= i < runs.len() - 1 && (#[trigger] runs[i]).length == 0 && in_order_up_to(runs, i)
}

/// The first `n` runs are non-empty and end before the run behind them starts.
pub open spec fn in_order_up_to(runs: Seq<Run>, n: int) -> bool {
    forall|j: int|
        0 <= j < n ==> (#[trigger] runs[j]).length != 0 && runs[j].last() < runs[j + 1].start
}

/// The error of a list of runs that does not make a container.
pub open spec fn runs_error(runs: Seq<Run>) -> Option<ContainerError> {
    if runs_wf(runs) {
        None
    } else if empty_run_first(runs) {
        Some(ContainerError::EmptyRun)
    } else {
        Some(ContainerError::RunInvariantViolation)
    }
}

/// A run length as it is written: one less, the full bucket as `0xFFFF`.
pub open spec fn wire_length(r: Run) -> u16 {
    (r.card() - 1) as u16
}

/// The bytes of a list of runs, back to back.
pub open spec fn enc_runs(runs: Seq<Run>) -> Seq<u8> {
    Seq::new(
        4 * runs.len(),
        |i: int| (wire::le16(runs[i / 4].start) + wire::le16(wire_length(runs[i / 4])))[i % 4],
    )
}

/// The encoding of a run body: `[u16 count LE]([u16 start LE][u16 length-1 LE])*`.
pub open spec fn run_bytes(runs: Seq<Run>) -> Seq<u8> {
    wire::le16(if runs.len() <= 65535 { runs.len() as u16 } else { 65535u16 }) + enc_runs(runs)
}

/// The run that starts at byte `off`.
pub open spec fn run_at(b: Seq<u8>, off: int) -> Run {
    Run { start: wire::at16(b, off), length: ((wire::at16(b, off + 2) + 1) % 65536) as u16 }
}

/// What a run body decodes to.
pub open spec fn parse_runs(b: Seq<u8>) -> Result<Seq<Run>, ContainerError> {
    if b.len() < 2 {
        Err(ContainerError::Truncated { needed: 2, got: b.len() as usize })
    } else {
        let needed = 2 + 4 * wire::at16(b, 0);
        let runs = Seq::new(wire::at16(b, 0) as nat, |i: int| run_at(b, 2 + 4 * i));
        if b.len() < needed {
            Err(ContainerError::Truncated { needed: needed as usize, got: b.len() as usize })
        } else if runs_wf(runs) {
            Ok(runs)
        } else {
            Err(ContainerError::RunInvariantViolation)
        }
    }
}

/// The common positions of two runs, as a list of at most one run.
pub open spec fn overlap(a: Run, b: Run) -> Seq<Run> {
    let lo = if a.start >= b.start { a.start as int } else { b.start as int };
    let hi = if a.last() <= b.last() { a.last() } else { b.last() };
    if lo <= hi {
        seq![Run { start: lo as u16, length: ((hi - lo + 1) % 65536) as u16 }]
    } else {
        Seq::empty()
    }
}

/// The overlaps of the runs from `i` on with the runs from `j` on, left to right.
pub open spec fn overlaps_from(a: Seq<Run>, b: Seq<Run>, i: int, j: int) -> Seq<Run>
    decreases a.len() - i + b.len() - j,
{
    if i < 0 || j < 0 || i >= a.len() || j >= b.len() {
        Seq::empty()
    } else {
        overlap(a[i], b[j]) + if a[i].last() < b[j].last() {
            overlaps_from(a, b, i + 1, j)
        } else {
            overlaps_from(a, b, i, j + 1)
        }
    }
}

/// What the run-by-run enumeration is.
pub proof fn lemma_run_keys(runs: Seq<Run>)
    requires
        runs_wf(runs),
    ensures
        keyset::increasing(run_keys(runs)),
        forall|k: u16| #[trigger] run_keys(runs).contains(k) <==> runs_set(runs).contains(k),
        run_keys(runs).len() <= 65536,
    decreases runs.len(),
{
    if runs.len() > 0 {
        let front = runs.drop_last();
        let last = runs.last();
        assert(last == runs[runs.len() - 1]);
        assert forall|i: int| 0 <= i < front.len()
            implies (#[trigger] front[i]).last() <= 65535 by {
            assert(front[i] == runs[i]);
        }
        assert forall|i: int, j: int| 0 <= i < j < front.len() implies (#[trigger] front[i]).last()
            < (#[trigger] front[j]).start by {
            assert(front[i] == runs[i] && front[j] == runs[j]);
        }
        lemma_run_keys(front);
        let p = run_keys(front);
        let q = Seq::new(last.card() as nat, |i: int| (last.start + i) as u16);
        let all = run_keys(runs);
        assert(all == p + q);
        assert forall|x: int| 0 <= x < p.len() implies (#[trigger] p[x]) < last.start by {
            assert(p.contains(p[x]));
            let i = choose|i: int| 0 <= i < front.len() && (#[trigger] front[i]).has(p[x]);
            assert(front[i] == runs[i]);
        }
        assert forall|x: int, y: int| 0 <= x < y < all.len() implies all[x] < all[y] by {
            if y < p.len() {
                assert(all[x] == p[x] && all[y] == p[y]);
            } else if x < p.len() {
                assert(all[x] == p[x]);
            }
        }
        assert forall|k: u16| #[trigger] all.contains(k) <==> runs_set(runs).contains(k) by {
            if all.contains(k) {
                let x = choose|x: int| 0 <= x < all.len() && all[x] == k;
                if x < p.len() {
                    assert(p[x] == k);
                    assert(p.contains(k));
                    let i = choose|i: int| 0 <= i < front.len() && (#[trigger] front[i]).has(k);
                    assert(runs[i].has(k));
                } else {
                    assert(runs[runs.len() - 1].has(k));
                }
            }
            if runs_set(runs).contains(k) {
                let i = choose|i: int| 0 <= i < runs.len() && (#[trigger] runs[i]).has(k);
                if i < front.len() {
                    assert(front[i].has(k));
                    assert(p.contains(k));
                    let x = choose|x: int| 0 <= x < p.len() && p[x] == k;
                    assert(all[x] == k);
                } else {
                    assert(all[p.len() + (k - last.start)] == k);
                }
            }
        }
        keyset::lemma_increasing_len(all);
    }
}

/// A list of maximal runs has as many runs as its positions have.
proof fn lemma_maximal_count_below(runs: Seq<Run>, n: int, m: int)
    requires
        runs_wf(runs),
        maximal(runs),
        0 <= n <= 65536,
        0 <= m <= runs.len(),
        forall|i: int| 0 <= i < m ==> (#[trigger] runs[i]).start < n,
        forall|i: int| m <= i < runs.len() ==> (#[trigger] runs[i]).start >= n,
    ensures
        keyset::runs_below(runs_set(runs), n) == m,
    decreases n,
{
    let set = runs_set(runs);
    if n == 0 {
        if m > 0 {
            assert(runs[0].start < 0);
        }
    } else if m > 0 && runs[m - 1].start == n - 1 {
        assert(runs[m - 1].has((n - 1) as u16));
        assert(set.contains((n - 1) as u16));
        if n - 1 > 0 && set.contains((n - 2) as u16) {
            let i = choose|i: int| 0 <= i < runs.len() && (#[trigger] runs[i]).has((n - 2) as u16);
            assert(i < m - 1);
            assert(runs[i].last() + 1 < runs[m - 1].start);
        }
        lemma_maximal_count_below(runs, n - 1, m - 1);
    } else {
        assert forall|i: int| 0 <= i < m implies (#[trigger] runs[i]).start < n - 1 by {
            if i < m - 1 {
                assert(runs[i].last() < runs[m - 1].start);
            }
        }
        if keyset::opens_run(set, n - 1) {
            let i = choose|i: int| 0 <= i < runs.len() && (#[trigger] runs[i]).has((n - 1) as u16);
            assert(runs[i].start < n - 1);
            assert(runs[i].has((n - 2) as u16));
            assert(set.contains((n - 2) as u16));
        }
        lemma_maximal_count_below(runs, n - 1, m);
    }
}

/// A list of maximal runs has as many runs as its positions have.
pub proof fn lemma_maximal_count(runs: Seq<Run>)
    requires
        runs_wf(runs),
        maximal(runs),
    ensures
        runs.len() == keyset::run_count(runs_set(runs)),
{
    lemma_maximal_count_below(runs, 65536, runs.len() as int);
}

/// There are at most 65536 runs, and the starts grow with the index.
pub proof fn lemma_runs_len(runs: Seq<Run>)
    requires
        runs_wf(runs),
    ensures
        runs.len() <= 65536,
{
    let starts = Seq::new(runs.len(), |i: int| runs[i].start);
    assert forall|i: int, j: int| 0 <= i < j < starts.len() implies starts[i] < starts[j] by {
        assert(runs[i].last() < runs[j].start);
    }
    keyset::lemma_increasing_len(starts);
}

/// Whether a list of runs makes a container.
fn check_runs(runs: &Vec<Run>) -> (r: Option<ContainerError>)
    ensures
        r == runs_error(runs@),
{
    let n: usize = runs.len();
    if n == 0 {
        return None;
    }
    let mut i: usize = 0;
    while i + 1 < n
        invariant
            n == runs@.len(),
            i < n,
            in_order_up_to(runs@, i as int),
        decreases n - i,
    {
        if runs[i].length == 0 {
            assert(runs@[i as int].last() >= 65535);
            assert(!(runs@[i as int].last() < runs@[i + 1].start));
            return Some(ContainerError::EmptyRun);
        }
        if runs[i].end_inclusive() >= runs[i + 1].start as u32 {
            proof {
                assert(!(runs@[i as int].last() < runs@[i + 1].start));
                lemma_not_empty_first(runs@, i as int);
            }
            return Some(ContainerError::RunInvariantViolation);
        }
        i = i + 1;
    }
    proof {
        lemma_in_order_sorted(runs@);
        if empty_run_first(runs@) {
            let z = choose|z: int|
                0 <= z < runs@.len() - 1 && (#[trigger] runs@[z]).length == 0 && in_order_up_to(
                    runs@,
                    z,
                );
            assert(runs@[z].length != 0);
        }
    }
    if runs[n - 1].end_inclusive() > 65535 {
        assert(runs@[n - 1].last() > 65535);
        return Some(ContainerError::RunInvariantViolation);
    }
    proof {
        assert forall|j: int| 0 <= j < runs@.len()
            implies (#[trigger] runs@[j]).last() <= 65535 by {
            if j < n - 1 {
                assert(runs@[j].last() < runs@[n - 1].start);
            }
        }
    }
    None
}

/// An overlap in front of every zero-length run rules out the zero-length error.
proof fn lemma_not_empty_first(runs: Seq<Run>, i: int)
    requires
        0 <= i < runs.len() - 1,
        in_order_up_to(runs, i),
        runs[i].length != 0,
        runs[i].last() >= runs[i + 1].start,
    ensures
        !empty_run_first(runs),
{
    if empty_run_first(runs) {
        let z = choose|z: int|
            0 <= z < runs.len() - 1 && (#[trigger] runs[z]).length == 0 && in_order_up_to(runs, z);
        if z < i {
            assert(runs[z].length != 0);
        } else if z > i {
            assert(runs[i].last() < runs[i + 1].start);
        }
    }
}

/// Runs in order one by one are in order pair by pair.
proof fn lemma_in_order_sorted(runs: Seq<Run>)
    requires
        in_order_up_to(runs, runs.len() - 1),
    ensures
        forall|i: int, j: int|
            0 <= i < j < runs.len() ==> (#[trigger] runs[i]).last() < (#[trigger] runs[j]).start,
{
    assert forall|i: int, j: int| 0 <= i < j < runs.len() implies (#[trigger] runs[i]).last() < (
    #[trigger] runs[j]).start by {
        lemma_in_order_pair(runs, i, j);
    }
}

proof fn lemma_in_order_pair(runs: Seq<Run>, i: int, j: int)
    requires
        in_order_up_to(runs, runs.len() - 1),
        0 <= i < j < runs.len(),
    ensures
        runs[i].last() < runs[j].start,
    decreases j - i,
{
    assert(runs[j - 1].last() < runs[j - 1 + 1].start);
    if i < j - 1 {
        lemma_in_order_pair(runs, i, j - 1);
    }
}

impl View for RunContainer {
    type V = Set<u16>;

    /// The positions inside the runs.
    open spec fn view(&self) -> Set<u16> {
        runs_set(self.runs@)
    }
}

impl Default for RunContainer {
    fn default() -> (r: Self)
        ensures
            r.wf(),
            r.runs@ == Seq::<Run>::empty(),
    {
        RunContainer::new()
    }
}

impl Clone for RunContainer {
    fn clone(&self) -> (r: Self)
        ensures
            r.runs@ == self.runs@,
    {
        let mut runs: Vec<Run> = Vec::new();
        let mut i: usize = 0;
        while i < self.runs.len()
            invariant
                i <= self.runs@.len(),
                runs@ == self.runs@.take(i as int),
            decreases self.runs@.len() - i,
        {
            runs.push(self.runs[i]);
            i = i + 1;
            assert(runs@ =~= self.runs@.take(i as int));
        }
        assert(self.runs@.take(i as int) =~= self.runs@);
        RunContainer { runs }
    }
}

impl RunContainer {
    /// The runs lie inside the bucket, in ascending order, without overlap.
    pub open spec fn wf(&self) -> bool {
        runs_wf(self.runs@)
    }

    /// The cardinality of the position set of a well-formed run container.
    pub proof fn lemma_view(&self)
        requires
            self.wf(),
        ensures
            self@.finite(),
            self@.len() == run_keys(self.runs@).len(),
            run_keys(self.runs@) == keyset::sorted_keys(self@),
            self@.len() <= 65536,
            self.runs@.len() <= 65536,
    {
        lemma_run_keys(self.runs@);
        keyset::lemma_sorted_keys(run_keys(self.runs@), self@);
        lemma_runs_len(self.runs@);
    }

    /// Empty run container.
    pub fn new() -> (r: Self)
        ensures
            r.wf(),
            r.runs@ == Seq::<Run>::empty(),
            r@ == Set::<u16>::empty(),
    {
        let r = RunContainer { runs: Vec::new() };
        assert(r@ =~= Set::<u16>::empty());
        r
    }

    /// Build from a list of runs. Fails if a run in front of the last has zero
    /// length, or if the runs are not strictly increasing, overlap or leave the
    /// bucket. The full bucket, `length == 0` at `start == 0`, is accepted as the
    /// only run.
    pub fn from_runs(runs: Vec<Run>) -> (r: Result<Self, ContainerError>)
        ensures
            match r {
                Ok(c) => runs_error(runs@) is None && c.runs@ == runs@ && c.wf(),
                Err(e) => runs_error(runs@) == Some(e),
            },
    {
        match check_runs(&runs) {
            Some(e) => Err(e),
            None => Ok(RunContainer { runs }),
        }
    }

    /// Sum of `cardinality` across all runs.
    pub fn cardinality(&self) -> (r: u32)
        requires
            self.wf(),
        ensures
            r == self@.len(),
            r <= 65536,
    {
        let mut sum: u32 = 0;
        let mut i: usize = 0;
        while i < self.runs.len()
            invariant
                self.wf(),
                i <= self.runs@.len(),
                sum == run_keys(self.runs@.take(i as int)).len(),
            decreases self.runs@.len() - i,
        {
            proof {
                let next = self.runs@.take(i + 1);
                assert(next.drop_last() =~= self.runs@.take(i as int));
                assert(runs_wf(next));
                lemma_run_keys(next);
            }
            sum = sum + self.runs[i].cardinality();
            i = i + 1;
        }
        proof {
            assert(self.runs@.take(i as int) =~= self.runs@);
            self.lemma_view();
        }
        sum
    }

    /// True iff `key` is inside any run, by binary search on the sorted run starts.
    pub fn contains(&self, key: u16) -> (r: bool)
        requires
            self.wf(),
        ensures
            r == self@.contains(key),
    {
        let mut lo: usize = 0;
        let mut hi: usize = self.runs.len();
        while lo < hi
            invariant
                self.wf(),
                lo <= hi <= self.runs@.len(),
                forall|i: int| 0 <= i < lo ==> (#[trigger] self.runs@[i]).start <= key,
                forall|i: int| hi <= i < self.runs@.len()
                    ==> (#[trigger] self.runs@[i]).start > key,
            decreases hi - lo,
        {
            let mid: usize = lo + (hi - lo) / 2;
            if self.runs[mid].start <= key {
                assert forall|i: int| 0 <= i < mid
                    implies (#[trigger] self.runs@[i]).start <= key by {
                    assert(self.runs@[i].last() < self.runs@[mid as int].start);
                }
                lo = mid + 1;
            } else {
                assert forall|i: int| mid < i < self.runs@.len()
                    implies (#[trigger] self.runs@[i]).start
                    > key by {
                    assert(self.runs@[mid as int].last() < self.runs@[i].start);
                }
                hi = mid;
            }
        }
        if lo == 0 {
            return false;
        }
        let r: bool = self.runs[lo - 1].contains(key);
        proof {
            if r {
                assert(self.runs@[lo - 1].has(key));
            } else if self@.contains(key) {
                let i = choose|i: int| 0 <= i < self.runs@.len()
                    && (#[trigger] self.runs@[i]).has(key);
                if i < lo - 1 {
                    assert(self.runs@[i].last() < self.runs@[lo - 1].start);
                }
            }
        }
        r
    }

    /// Iterator over all set keys, in strictly increasing order.
    pub fn iter(&self) -> (r: RunContainerIter<'_>)
        requires
            self.wf(),
        ensures
            r.wf(),
            r.remaining() == keyset::sorted_keys(self@),
    {
        let r = RunContainerIter { runs: &self.runs, run_idx: 0, offset: 0 };
        assert forall|k: u16| r.rest().contains(k) == self@.contains(k) by {
            if self@.contains(k) {
                let i = choose|i: int| 0 <= i < self.runs@.len()
                    && (#[trigger] self.runs@[i]).has(k);
                assert(r.runs@[i].has(k));
            }
        }
        assert(r.rest() =~= self@);
        r
    }

    /// Iterator over all set keys from `key` on.
    pub fn iter_from(&self, key: u16) -> (r: RunContainerIter<'_>)
        requires
            self.wf(),
        ensures
            r.wf(),
            r.remaining() == keyset::sorted_keys(keyset::at_or_after(self@, key)),
    {
        let n: usize = self.runs.len();
        let mut lo: usize = 0;
        let mut hi: usize = n;
        while lo < hi
            invariant
                self.wf(),
                n == self.runs@.len(),
                lo <= hi <= n,
                forall|i: int| 0 <= i < lo ==> (#[trigger] self.runs@[i]).last() < key,
                forall|i: int| hi <= i < n ==> (#[trigger] self.runs@[i]).last() >= key,
            decreases hi - lo,
        {
            let mid: usize = lo + (hi - lo) / 2;
            if self.runs[mid].end_inclusive() < key as u32 {
                assert forall|i: int| 0 <= i < mid
                    implies (#[trigger] self.runs@[i]).last() < key by {
                    assert(self.runs@[i].last() < self.runs@[mid as int].start);
                }
                lo = mid + 1;
            } else {
                assert forall|i: int| mid < i < n
                    implies (#[trigger] self.runs@[i]).last() >= key by {
                    assert(self.runs@[mid as int].last() < self.runs@[i].start);
                }
                hi = mid;
            }
        }
        let mut offset: u32 = 0;
        if lo < n {
            let run: Run = self.runs[lo];
            if run.start < key {
                offset = key as u32 - run.start as u32;
            }
        }
        let r = RunContainerIter { runs: &self.runs, run_idx: lo, offset };
        proof {
            let want = keyset::at_or_after(self@, key);
            assert forall|k: u16| r.rest().contains(k) == want.contains(k) by {
                if r.rest().contains(k) {
                    let i = choose|i: int|
                        lo <= i < n && (#[trigger] r.runs@[i]).has(k) && (i == lo ==> k
                            >= r.runs@[i].start + offset);
                    assert(self.runs@[i].has(k));
                    if i > lo {
                        assert(self.runs@[lo as int].last() < self.runs@[i].start);
                    }
                }
                if want.contains(k) {
                    let i = choose|i: int| 0 <= i < n && (#[trigger] self.runs@[i]).has(k);
                    assert(r.runs@[i].has(k));
                }
            }
            assert(r.rest() =~= want);
        }
        r
    }

    /// Convert from an [`ArrayContainer`] by run-length scanning.
    pub fn from_array(arr: &ArrayContainer) -> (r: Self)
        requires
            arr.wf(),
        ensures
            r.wf(),
            r@ == arr@,
            maximal(r.runs@),
    {
        let r = RunContainer { runs: runs_of_keys(&arr.keys) };
        assert(r@ =~= arr@);
        r
    }

    /// Convert from a [`BitmapContainer`] by scanning bit transitions.
    pub fn from_bitmap(bm: &BitmapContainer) -> (r: Self)
        ensures
            r.wf(),
            r@ == bm@,
            maximal(r.runs@),
    {
        let keys: Vec<u16> = bm.iter().collect();
        proof {
            keyset::lemma_sorted_keys_spec(bm@);
        }
        let r = RunContainer { runs: runs_of_keys(&keys) };
        assert(r@ =~= bm@);
        r
    }

    /// On-disk encoding:
    /// `[u16 num_runs LE]([u16 start LE][u16 length-1 LE])*`.
    ///
    /// `length - 1` is encoded so that the full bucket, whose length does not fit
    /// in `u16`, can ride in `0xFFFF`. The count is clamped to `u16::MAX`.
    pub fn to_bytes(&self) -> (r: Vec<u8>)
        ensures
            r@ == run_bytes(self.runs@),
    {
        let mut out: Vec<u8> = Vec::new();
        let n: usize = self.runs.len();
        let count: u16 = if n <= 65535 {
            n as u16
        } else {
            65535
        };
        push_u16(&mut out, count);
        let mut i: usize = 0;
        assert(enc_runs(self.runs@.take(0)) =~= Seq::<u8>::empty());
        while i < n
            invariant
                n == self.runs@.len(),
                i <= n,
                out@ == wire::le16(count) + enc_runs(self.runs@.take(i as int)),
            decreases n - i,
        {
            let r: Run = self.runs[i];
            let wire: u16 = if r.length == 0 {
                0xFFFF
            } else {
                r.length - 1
            };
            push_u16(&mut out, r.start);
            push_u16(&mut out, wire);
            proof {
                lemma_enc_runs_push(self.runs@.take(i as int), r);
                assert(self.runs@.take(i + 1) =~= self.runs@.take(i as int).push(r));
                assert(out@ =~= wire::le16(count) + enc_runs(self.runs@.take(i + 1)));
            }
            i = i + 1;
        }
        assert(self.runs@.take(n as int) =~= self.runs@);
        out
    }

    /// Inverse of [`Self::to_bytes`].
    pub fn from_bytes(slice: &[u8]) -> (r: Result<Self, ContainerError>)
        ensures
            match r {
                Ok(c) => c.wf() && parse_runs(slice@) == Ok::<Seq<Run>, ContainerError>(c.runs@),
                Err(e) => parse_runs(slice@) == Err::<Seq<Run>, ContainerError>(e),
            },
    {
        if slice.len() < 2 {
            return Err(ContainerError::Truncated { needed: 2, got: slice.len() });
        }
        let n: usize = get_u16(slice, 0) as usize;
        let needed: usize = 2 + 4 * n;
        if slice.len() < needed {
            return Err(ContainerError::Truncated { needed, got: slice.len() });
        }
        let ghost want = Seq::new(n as nat, |i: int| run_at(slice@, 2 + 4 * i));
        let mut runs: Vec<Run> = Vec::new();
        let mut i: usize = 0;
        while i < n
            invariant
                i <= n,
                2 + 4 * n <= slice@.len(),
                n <= 65535,
                want == Seq::new(n as nat, |i: int| run_at(slice@, 2 + 4 * i)),
                runs@ == want.take(i as int),
            decreases n - i,
        {
            let start: u16 = get_u16(slice, 2 + 4 * i);
            let wire: u16 = get_u16(slice, 2 + 4 * i + 2);
            let length: u16 = if wire == 0xFFFF {
                0
            } else {
                wire + 1
            };
            runs.push(Run { start, length });
            i = i + 1;
            assert(runs@ =~= want.take(i as int));
        }
        assert(want.take(n as int) =~= want);
        match check_runs(&runs) {
            Some(_) => Err(ContainerError::RunInvariantViolation),
            None => Ok(RunContainer { runs }),
        }
    }
}

proof fn lemma_enc_runs_push(s: Seq<Run>, r: Run)
    ensures
        enc_runs(s.push(r)) == enc_runs(s) + (wire::le16(r.start) + wire::le16(wire_length(r))),
{
    let x = wire::le16(r.start) + wire::le16(wire_length(r));
    assert forall|i: int| 0 <= i < 4 * s.len() + 4 implies #[trigger] enc_runs(s.push(r))[i] == (
    enc_runs(s) + x)[i] by {
        if i < 4 * s.len() {
            assert(i / 4 < s.len());
        } else {
            assert(i / 4 == s.len());
            assert(i % 4 == i - 4 * s.len());
        }
    }
    assert(enc_runs(s.push(r)) =~= enc_runs(s) + x);
}

/// The maximal runs of a sorted list of keys.
pub(crate) fn runs_of_keys(keys: &Vec<u16>) -> (runs: Vec<Run>)
    requires
        keyset::increasing(keys@),
    ensures
        runs_wf(runs@),
        maximal(runs@),
        forall|k: u16| #[trigger] runs_set(runs@).contains(k) <==> keys@.contains(k),
{
    let mut runs: Vec<Run> = Vec::new();
    let n: usize = keys.len();
    if n == 0 {
        return runs;
    }
    let mut start: u16 = keys[0];
    let mut prev: u16 = start;
    let mut i: usize = 1;
    assert forall|k: u16| #[trigger] keys@.take(1).contains(k) <==> k == keys@[0] by {
        assert(keys@.take(1)[0] == keys@[0]);
    }
    while i < n
        invariant
            1 <= i <= n,
            n == keys@.len(),
            keyset::increasing(keys@),
            prev == keys@[i - 1],
            start <= prev,
            runs_wf(runs@),
            maximal(runs@),
            forall|x: int| 0 <= x < runs@.len() ==> (#[trigger] runs@[x]).last() + 1 < start,
            forall|k: u16| #[trigger]
                keys@.take(i as int).contains(k) <==> runs_set(runs@).contains(k) || start <= k
                    <= prev,
        decreases n - i,
    {
        let k: u16 = keys[i];
        proof {
            crate::array::lemma_take_has(keys@, i as int);
            assert(keys@[i - 1] < keys@[i as int]);
        }
        if k == prev + 1 {
            prev = k;
        } else {
            let ghost before = runs@;
            let r: Run = Run::between(start as u32, prev as u32);
            runs.push(r);
            proof {
                lemma_runs_push(before, r);
            }
            start = k;
            prev = k;
        }
        i = i + 1;
    }
    let ghost before = runs@;
    let r: Run = Run::between(start as u32, prev as u32);
    runs.push(r);
    proof {
        lemma_runs_push(before, r);
        assert(keys@.take(n as int) =~= keys@);
    }
    runs
}

/// A run behind all others adds exactly its positions.
proof fn lemma_runs_push(runs: Seq<Run>, r: Run)
    ensures
        forall|k: u16| #[trigger]
            runs_set(runs.push(r)).contains(k) <==> runs_set(runs).contains(k) || r.has(k),
{
    let all = runs.push(r);
    assert forall|k: u16| #[trigger]
        runs_set(all).contains(k) <==> runs_set(runs).contains(k) || r.has(k) by {
        if runs_set(all).contains(k) {
            let i = choose|i: int| 0 <= i < all.len() && (#[trigger] all[i]).has(k);
            if i < runs.len() {
                assert(runs[i].has(k));
            }
        }
        if runs_set(runs).contains(k) {
            let i = choose|i: int| 0 <= i < runs.len() && (#[trigger] runs[i]).has(k);
            assert(all[i].has(k));
        }
        if r.has(k) {
            assert(all[runs.len() as int].has(k));
        }
    }
}

/// The overlaps of two lists of runs, by a sweep over both.
#[verifier::spinoff_prover]
#[verifier::rlimit(60)]
pub(crate) fn sweep_and(a: &Vec<Run>, b: &Vec<Run>) -> (out: Vec<Run>)
    requires
        runs_wf(a@),
        runs_wf(b@),
    ensures
        runs_wf(out@),
        out@ == overlaps_from(a@, b@, 0, 0),
        runs_set(out@) == runs_set(a@).intersect(runs_set(b@)),
{
    let mut out: Vec<Run> = Vec::new();
    let mut i: usize = 0;
    let mut j: usize = 0;
    assert(out@ + overlaps_from(a@, b@, 0, 0) =~= overlaps_from(a@, b@, 0, 0));
    proof {
        assert forall|k: u16| #[trigger]
            runs_set(a@).contains(k) && runs_set(b@).contains(k) implies runs_set(out@).contains(k)
            || (from_has(a@, 0, k) && from_has(b@, 0, k)) by {}
    }
    while i < a.len() && j < b.len()
        invariant
            i <= a@.len(),
            j <= b@.len(),
            runs_wf(a@),
            runs_wf(b@),
            runs_wf(out@),
            out@ + overlaps_from(a@, b@, i as int, j as int) == overlaps_from(a@, b@, 0, 0),
            i < a@.len() && j < b@.len() ==> forall|x: int|
                0 <= x < out@.len() ==> (#[trigger] out@[x]).last() < a@[i as int].start
                    || out@[x].last() < b@[j as int].start,
            forall|k: u16| #[trigger]
                runs_set(out@).contains(k) ==> runs_set(a@).contains(k) && runs_set(b@).contains(
                    k,
                ),
            forall|k: u16| #[trigger]
                runs_set(a@).contains(k) && runs_set(b@).contains(k) ==> runs_set(out@).contains(k)
                    || (from_has(a@, i as int, k) && from_has(b@, j as int, k)),
        decreases a@.len() - i + b@.len() - j,
    {
        let x: Run = a[i];
        let y: Run = b[j];
        let x_end: u32 = x.end_inclusive();
        let y_end: u32 = y.end_inclusive();
        let lo: u32 = if x.start >= y.start {
            x.start as u32
        } else {
            y.start as u32
        };
        let hi: u32 = if x_end <= y_end {
            x_end
        } else {
            y_end
        };
        let ghost before = out@;
        assert(a@[i as int].last() <= 65535);
        assert(b@[j as int].last() <= 65535);
        if lo <= hi {
            let r: Run = Run::between(lo, hi);
            out.push(r);
            proof {
                lemma_runs_push(before, r);
                assert(overlap(x, y) =~= seq![r]);
                assert forall|k: u16| r.has(k) implies runs_set(a@).contains(k)
                    && runs_set(b@).contains(
                    k,
                ) by {
                    assert(a@[i as int].has(k));
                    assert(b@[j as int].has(k));
                }
            }
        } else {
            assert(overlap(x, y) =~= Seq::<Run>::empty());
        }
        proof {
            assert forall|k: u16| #[trigger]
                runs_set(a@).contains(k) && runs_set(b@).contains(k) && !runs_set(out@).contains(
                    k,
                ) implies (if x_end < y_end {
                from_has(a@, i + 1, k) && from_has(b@, j as int, k)
            } else {
                from_has(a@, i as int, k) && from_has(b@, j + 1, k)
            }) by {
                assert(!runs_set(before).contains(k));
                let p = choose|p: int| i <= p < a@.len() && (#[trigger] a@[p]).has(k);
                let q = choose|q: int| j <= q < b@.len() && (#[trigger] b@[q]).has(k);
                if p == i && q == j {
                    assert(lo <= k <= hi);
                    assert(false);
                } else if p == i {
                    assert(b@[j as int].last() < b@[q].start);
                } else if q == j {
                    assert(a@[i as int].last() < a@[p].start);
                } else {
                    assert(a@[i as int].last() < a@[p].start);
                    assert(b@[j as int].last() < b@[q].start);
                }
            }
            assert(out@ + (if x_end < y_end {
                overlaps_from(a@, b@, i + 1, j as int)
            } else {
                overlaps_from(a@, b@, i as int, j + 1)
            }) =~= before + overlaps_from(a@, b@, i as int, j as int));
        }
        if x_end < y_end {
            proof {
                if i + 1 < a@.len() {
                    assert(a@[i as int].last() < a@[i + 1].start);
                }
            }
            i = i + 1;
        } else {
            proof {
                if j + 1 < b@.len() {
                    assert(b@[j as int].last() < b@[j + 1].start);
                }
            }
            j = j + 1;
        }
    }
    proof {
        assert(out@ + overlaps_from(a@, b@, i as int, j as int) =~= out@);
        assert forall|k: u16| runs_set(out@).contains(k) == runs_set(a@).intersect(
            runs_set(b@),
        ).contains(k) by {
            if runs_set(a@).contains(k) && runs_set(b@).contains(k) {
                assert(!from_has(a@, i as int, k) || !from_has(b@, j as int, k));
            }
        }
        assert(runs_set(out@) =~= runs_set(a@).intersect(runs_set(b@)));
    }
    out
}

/// A run at or behind index `i` holds `k`.
spec fn from_has(runs: Seq<Run>, i: int, k: u16) -> bool {
    exists|p: int| i <= p < runs.len() && (#[trigger] runs[p]).has(k)
}

/// Append `next`, or merge it into the last run where the two touch or overlap.
pub(crate) fn push_or_merge(out: &mut Vec<Run>, next: Run)
    requires
        runs_wf(old(out)@),
        maximal(old(out)@),
        next.last() <= 65535,
        forall|i: int| 0 <= i < old(out)@.len() ==> (#[trigger] old(out)@[i]).start <= next.start,
    ensures
        runs_wf(final(out)@),
        maximal(final(out)@),
        final(out)@.len() > 0,
        forall|i: int| 0 <= i < final(out)@.len()
            ==> (#[trigger] final(out)@[i]).start <= next.start,
        forall|k: u16| #[trigger]
            runs_set(final(out)@).contains(k) <==> runs_set(old(out)@).contains(k) || next.has(k),
{
    let n: usize = out.len();
    if n > 0 {
        let last: Run = out[n - 1];
        let last_end: u32 = last.end_inclusive();
        assert(old(out)@[n - 1].last() <= 65535);
        if last_end + 1 >= next.start as u32 {
            let next_end: u32 = next.end_inclusive();
            let new_end: u32 = if last_end >= next_end {
                last_end
            } else {
                next_end
            };
            assert(old(out)@[n - 1].start <= next.start);
            let merged: Run = Run::between(last.start as u32, new_end);
            out.set(n - 1, merged);
            proof {
                let a = old(out)@;
                let b = out@;
                assert forall|k: u16| #[trigger]
                    runs_set(b).contains(k) <==> runs_set(a).contains(k) || next.has(k) by {
                    if runs_set(b).contains(k) {
                        let i = choose|i: int| 0 <= i < b.len() && (#[trigger] b[i]).has(k);
                        if i < n - 1 {
                            assert(a[i].has(k));
                        } else if !next.has(k) {
                            assert(a[n - 1].has(k));
                        }
                    }
                    if runs_set(a).contains(k) {
                        let i = choose|i: int| 0 <= i < a.len() && (#[trigger] a[i]).has(k);
                        assert(b[i].has(k));
                    }
                    if next.has(k) {
                        assert(b[n - 1].has(k));
                    }
                }
                assert forall|i: int, j: int| 0 <= i < j < b.len()
                    implies (#[trigger] b[i]).last() + 1
                    < (#[trigger] b[j]).start by {
                    assert(a[i].last() + 1 < a[j].start);
                }
            }
            return;
        }
    }
    let ghost before = out@;
    out.push(next);
    proof {
        lemma_runs_push(before, next);
        let b = out@;
        assert forall|i: int, j: int| 0 <= i < j < b.len() implies (#[trigger] b[i]).last() + 1 < (
        #[trigger] b[j]).start by {
            if j == before.len() && i < before.len() - 1 {
                assert(before[i].last() + 1 < before[before.len() - 1].start);
            }
        }
    }
}

/// The maximal runs of a union, by a sweep in order of run starts.
pub(crate) fn sweep_or(a: &Vec<Run>, b: &Vec<Run>) -> (out: Vec<Run>)
    requires
        runs_wf(a@),
        runs_wf(b@),
    ensures
        runs_wf(out@),
        maximal(out@),
        runs_set(out@) == runs_set(a@).union(runs_set(b@)),
{
    let mut out: Vec<Run> = Vec::new();
    let mut i: usize = 0;
    let mut j: usize = 0;
    while i < a.len() || j < b.len()
        invariant
            i <= a@.len(),
            j <= b@.len(),
            runs_wf(a@),
            runs_wf(b@),
            runs_wf(out@),
            maximal(out@),
            i < a@.len() ==> forall|x: int|
                0 <= x < out@.len() ==> (#[trigger] out@[x]).start <= a@[i as int].start,
            j < b@.len() ==> forall|x: int|
                0 <= x < out@.len() ==> (#[trigger] out@[x]).start <= b@[j as int].start,
            forall|k: u16| #[trigger]
                runs_set(out@).contains(k) <==> runs_set(a@.take(i as int)).contains(k) || runs_set(
                    b@.take(j as int),
                ).contains(k),
        decreases a@.len() - i + b@.len() - j,
    {
        proof {
            if i + 1 < a@.len() {
                assert(a@[i as int].last() < a@[i + 1].start);
            }
            if j + 1 < b@.len() {
                assert(b@[j as int].last() < b@[j + 1].start);
            }
        }
        if j >= b.len() || (i < a.len() && a[i].start <= b[j].start) {
            assert(a@[i as int].last() <= 65535);
            push_or_merge(&mut out, a[i]);
            proof {
                assert(a@.take(i + 1) =~= a@.take(i as int).push(a@[i as int]));
                lemma_runs_push(a@.take(i as int), a@[i as int]);
            }
            i = i + 1;
        } else {
            assert(b@[j as int].last() <= 65535);
            push_or_merge(&mut out, b[j]);
            proof {
                assert(b@.take(j + 1) =~= b@.take(j as int).push(b@[j as int]));
                lemma_runs_push(b@.take(j as int), b@[j as int]);
            }
            j = j + 1;
        }
    }
    proof {
        assert(a@.take(i as int) =~= a@);
        assert(b@.take(j as int) =~= b@);
        assert(runs_set(out@) =~= runs_set(a@).union(runs_set(b@)));
    }
    out
}

impl BitmapContainer {
    /// Set the bit of every position inside the runs.
    pub(crate) fn insert_runs(&mut self, runs: &Vec<Run>)
        requires
            runs_wf(runs@),
        ensures
            final(self)@ == old(self)@.union(runs_set(runs@)),
    {
        let mut i: usize = 0;
        while i < runs.len()
            invariant
                runs_wf(runs@),
                i <= runs@.len(),
                forall|k: u16| #[trigger]
                    self@.contains(k) <==> old(self)@.contains(k) || runs_set(
                        runs@.take(i as int),
                    ).contains(k),
            decreases runs@.len() - i,
        {
            let r: Run = runs[i];
            let card: u32 = r.cardinality();
            let mut offset: u32 = 0;
            let ghost before = self@;
            assert(runs@[i as int].last() <= 65535);
            while offset < card
                invariant
                    offset <= card,
                    card == r.card(),
                    r.last() <= 65535,
                    forall|k: u16| #[trigger]
                        self@.contains(k) <==> before.contains(k)
                            || r.start <= k < r.start + offset,
                decreases card - offset,
            {
                self.insert((r.start as u32 + offset) as u16);
                offset = offset + 1;
            }
            proof {
                assert(runs@.take(i + 1) =~= runs@.take(i as int).push(r));
                lemma_runs_push(runs@.take(i as int), r);
            }
            i = i + 1;
        }
        assert(runs@.take(i as int) =~= runs@);
        assert(self@ =~= old(self)@.union(runs_set(runs@)));
    }

    /// Materialise a [`RunContainer`] into the dense form. Inverse of
    /// [`RunContainer::from_bitmap`].
    pub fn from_run(rc: &RunContainer) -> (r: Self)
        requires
            rc.wf(),
        ensures
            r@ == rc@,
    {
        let mut bm = BitmapContainer::new();
        bm.insert_runs(&rc.runs);
        assert(bm@ =~= rc@);
        bm
    }
}

impl<'a> RunContainerIter<'a> {
    /// The position lies within the runs.
    pub closed spec fn wf(&self) -> bool {
        &&& runs_wf(self.runs@)
        &&& self.run_idx <= self.runs@.len()
        &&& self.run_idx < self.runs@.len()
            ==> self.offset <= self.runs@[self.run_idx as int].card()
    }

    /// The keys still to come, as a set: what is left of the current run and every
    /// position of the runs behind it.
    closed spec fn rest(&self) -> Set<u16> {
        Set::new(
            |k: u16|
                exists|i: int|
                    self.run_idx <= i < self.runs@.len() && (#[trigger] self.runs@[i]).has(k) && (i
                        == self.run_idx ==> k >= self.runs@[i].start + self.offset),
        )
    }

    /// The keys still to come, in ascending order.
    pub closed spec fn remaining(&self) -> Seq<u16> {
        keyset::sorted_keys(self.rest())
    }

    /// The next position, in ascending order.
    pub fn next(&mut self) -> (r: Option<u16>)
        requires
            old(self).wf(),
        ensures
            final(self).wf(),
            match r {
                Some(k) => old(self).remaining().len() > 0 && k == old(self).remaining()[0]
                    && final(self).remaining() == old(self).remaining().drop_first(),
                None => old(self).remaining().len() == 0
                    && final(self).remaining() == old(self).remaining(),
            },
    {
        loop
            invariant
                self.wf(),
                self.rest() == old(self).rest(),
            decreases self.runs@.len() - self.run_idx,
        {
            if self.run_idx >= self.runs.len() {
                proof {
                    keyset::lemma_sorted_keys_empty(self.rest());
                }
                return None;
            }
            let r: Run = self.runs[self.run_idx];
            let ghost runs = self.runs@;
            let ghost at = self.run_idx as int;
            let ghost rest = self.rest();
            assert(runs[at].last() <= 65535);
            if self.offset < r.cardinality() {
                let key: u16 = (r.start as u32 + self.offset) as u16;
                self.offset = self.offset + 1;
                proof {
                    assert(runs[at].has(key));
                    assert(rest.contains(key));
                    assert forall|x: u16| rest.contains(x) implies key <= x by {
                        let i = choose|i: int|
                            at <= i < runs.len() && (#[trigger] runs[i]).has(x) && (i == at ==> x
                                >= runs[i].start + self.offset - 1);
                        if i > at {
                            assert(runs[at].last() < runs[i].start);
                        }
                    }
                    assert forall|x: u16| self.rest().contains(x)
                        == rest.remove(key).contains(x) by {
                        if rest.contains(x) && x != key {
                            let i = choose|i: int|
                                at <= i < runs.len() && (#[trigger] runs[i]).has(x)
                                    && (i == at ==> x
                                    >= runs[i].start + self.offset - 1);
                            assert(self.runs@[i].has(x));
                        }
                        if self.rest().contains(x) {
                            let i = choose|i: int|
                                at <= i < runs.len() && (#[trigger] self.runs@[i]).has(x)
                                    && (i == at
                                    ==> x >= self.runs@[i].start + self.offset);
                            assert(runs[i].has(x));
                            if i > at {
                                assert(runs[at].last() < runs[i].start);
                            }
                        }
                    }
                    assert(self.rest() =~= rest.remove(key));
                    keyset::lemma_sorted_keys_first(rest, key);
                }
                return Some(key);
            }
            self.run_idx = self.run_idx + 1;
            self.offset = 0;
            proof {
                assert forall|x: u16| self.rest().contains(x) == rest.contains(x) by {
                    if rest.contains(x) {
                        let i = choose|i: int|
                            at <= i < runs.len() && (#[trigger] runs[i]).has(x) && (i == at ==> x
                                >= runs[i].start + runs[at].card());
                        assert(self.runs@[i].has(x));
                    }
                    if self.rest().contains(x) {
                        let i = choose|i: int|
                            at < i < runs.len() && (#[trigger] self.runs@[i]).has(x);
                        assert(runs[i].has(x));
                    }
                }
                assert(self.rest() =~= rest);
            }
        }
    }

    /// All keys still to come.
    pub fn collect(self) -> (r: Vec<u16>)
        requires
            self.wf(),
        ensures
            r@ == self.remaining(),
    {
        let mut it = self;
        let mut out: Vec<u16> = Vec::new();
        let ghost all = self.remaining();
        assert(all =~= out@ + it.remaining());
        loop
            invariant
                it.wf(),
                all == out@ + it.remaining(),
            ensures
                out@ == all,
            decreases it.remaining().len(),
        {
            match it.next() {
                Some(k) => {
                    out.push(k);
                    assert(all =~= out@ + it.remaining());
                },
                None => {
                    assert(all =~= out@);
                    break;
                },
            }
        }
        out
    }
}

/// Decoding encoded runs gives them back, as long as their number fits the count.
pub proof fn lemma_run_round_trip(runs: Seq<Run>, tail: Seq<u8>)
    requires
        runs_wf(runs),
        runs.len() <= 65535,
    ensures
        parse_runs(run_bytes(runs) + tail) == Ok::<Seq<Run>, ContainerError>(runs),
{
    let b = run_bytes(runs) + tail;
    let n = runs.len() as u16;
    assert(wire::holds_at(b, 0, wire::le16(n))) by {
        assert forall|i: int| 0 <= i < 2 implies b[0 + i] == #[trigger] wire::le16(n)[i] by {}
    }
    wire::lemma_at16(b, 0, n);
    let got = Seq::new(wire::at16(b, 0) as nat, |i: int| run_at(b, 2 + 4 * i));
    assert forall|i: int| 0 <= i < runs.len() implies got[i] == runs[i] by {
        let r = runs[i];
        let x = wire::le16(r.start) + wire::le16(wire_length(r));
        assert forall|j: int| 0 <= j < 4 implies b[2 + 4 * i + j] == #[trigger] x[j] by {
            assert((4 * i + j) / 4 == i && (4 * i + j) % 4 == j);
            assert(enc_runs(runs)[4 * i + j] == x[j]);
        }
        assert forall|j: int| 0 <= j < 2
            implies b[2 + 4 * i + j] == #[trigger] wire::le16(r.start)[j] by {
            assert(x[j] == wire::le16(r.start)[j]);
        }
        assert forall|j: int| 0 <= j < 2 implies b[2 + 4 * i + 2 + j] == #[trigger] wire::le16(
            wire_length(r),
        )[j] by {
            assert(x[2 + j] == wire::le16(wire_length(r))[j]);
            assert(b[2 + 4 * i + (2 + j)] == x[2 + j]);
        }
        wire::lemma_at16(b, 2 + 4 * i, r.start);
        wire::lemma_at16(b, 2 + 4 * i + 2, wire_length(r));
    }
    assert(got =~= runs);
}

} // verus!
