//! What key sets, containers and their walks are, key by key.
//!
//! The containers of a bucket differ in layout only. These laws say for each layout which
//! keys it stands for, in what order a walk hands them out, and when each layout is chosen.

use vstd::prelude::*;

use crate::bitmap;
use crate::container;
use crate::keyset;
use crate::run;

use crate::array::ArrayContainer;
use crate::bitmap::BitmapContainer;
use crate::container::{Container, ContainerForm};
use crate::run::{Run, RunContainer};

verus! {

/// Keys are ascending when each is less than the next.
pub proof fn lemma_ascending_by_neighbours(s: Seq<u16>)
    ensures
        keyset::increasing(s) <==> forall|i: int| 0 <= i < s.len() - 1 ==> #[trigger] s[i] < s[i + 1],
{
    if forall|i: int| 0 <= i < s.len() - 1 ==> #[trigger] s[i] < s[i + 1] {
        assert forall|i: int, j: int| 0 <= i < j < s.len() implies s[i] < s[j] by {
            lemma_chain(s, i, j);
        }
    }
}

proof fn lemma_chain(s: Seq<u16>, i: int, j: int)
    requires
        forall|i: int| 0 <= i < s.len() - 1 ==> #[trigger] s[i] < s[i + 1],
        0 <= i < j < s.len(),
    ensures
        s[i] < s[j],
    decreases j - i,
{
    if i + 1 < j {
        lemma_chain(s, i, j - 1);
        assert(s[j - 1] < s[j - 1 + 1]);
    } else {
        assert(s[i] < s[i + 1]);
    }
}

/// Documents are ascending when each is less than the next.
pub proof fn lemma_ascending_docs_by_neighbours(s: Seq<u32>)
    ensures
        keyset::increasing_docs(s) <==> forall|i: int|
            0 <= i < s.len() - 1 ==> #[trigger] s[i] < s[i + 1],
{
    if forall|i: int| 0 <= i < s.len() - 1 ==> #[trigger] s[i] < s[i + 1] {
        assert forall|i: int, j: int| 0 <= i < j < s.len() implies s[i] < s[j] by {
            lemma_doc_chain(s, i, j);
        }
    }
}

proof fn lemma_doc_chain(s: Seq<u32>, i: int, j: int)
    requires
        forall|i: int| 0 <= i < s.len() - 1 ==> #[trigger] s[i] < s[i + 1],
        0 <= i < j < s.len(),
    ensures
        s[i] < s[j],
    decreases j - i,
{
    if i + 1 < j {
        lemma_doc_chain(s, i, j - 1);
        assert(s[j - 1] < s[j - 1 + 1]);
    } else {
        assert(s[i] < s[i + 1]);
    }
}

/// A walk hands out each key of the set once, in ascending order; a walk from a key hands
/// out those from it on.
pub proof fn lemma_walk_is_every_key_ascending(set: Set<u16>, from: u16)
    ensures
        ({
            let walk = keyset::sorted_keys(set);
            &&& forall|k: u16| set.contains(k) <==> #[trigger] walk.contains(k)
            &&& forall|i: int, j: int| 0 <= i < j < walk.len() ==> walk[i] < walk[j]
            &&& walk.len() == set.len()
        }),
        ({
            let walk = keyset::sorted_keys(keyset::at_or_after(set, from));
            &&& forall|k: u16| (set.contains(k) && from <= k) <==> #[trigger] walk.contains(k)
            &&& forall|i: int, j: int| 0 <= i < j < walk.len() ==> walk[i] < walk[j]
        }),
{
    keyset::lemma_sorted_keys_spec(set);
    let later = keyset::at_or_after(set, from);
    keyset::lemma_sorted_keys_spec(later);
    let walk = keyset::sorted_keys(later);
    assert forall|k: u16| (set.contains(k) && from <= k) <==> #[trigger] walk.contains(k) by {
        assert(later.contains(k) <==> set.contains(k) && from <= k);
        assert(walk.to_set().contains(k) <==> walk.contains(k));
    }
}

/// The number of runs of a set is the number of its keys whose predecessor is missing.
pub proof fn lemma_runs_start_where_predecessor_is_missing(set: Set<u16>)
    ensures
        keyset::run_count(set) == Set::new(
            |k: u16| set.contains(k) && (k == 0 || !set.contains((k - 1) as u16)),
        ).len(),
{
    let starts = Set::new(
        |k: u16| set.contains(k) && (k == 0 || !set.contains((k - 1) as u16)),
    );
    lemma_runs_below(set, starts, 65536);
    keyset::lemma_sorted_keys_spec(starts);
}

proof fn lemma_runs_below(set: Set<u16>, starts: Set<u16>, n: int)
    requires
        0 <= n <= 65536,
        forall|k: u16| #[trigger]
            starts.contains(k) <==> set.contains(k) && (k == 0 || !set.contains((k - 1) as u16)),
    ensures
        keyset::runs_below(set, n) == keyset::keys_below(starts, n).len(),
    decreases n,
{
    if n > 0 {
        lemma_runs_below(set, starts, n - 1);
        assert(starts.contains((n - 1) as u16) <==> keyset::opens_run(set, n - 1));
    }
}

/// Seeking in ascending documents leaves those from the target on and drops the others.
pub proof fn lemma_seek_keeps_from_target_on(docs: Seq<u32>, target: u32)
    requires
        forall|i: int| 0 <= i < docs.len() - 1 ==> #[trigger] docs[i] < docs[i + 1],
    ensures
        ({
            let left = keyset::docs_at_or_after(docs, target);
            let dropped = docs.len() - left.len();
            &&& 0 <= dropped
            &&& left == docs.skip(dropped)
            &&& forall|i: int| 0 <= i < dropped ==> #[trigger] docs[i] < target
            &&& forall|i: int| dropped <= i < docs.len() ==> #[trigger] docs[i] >= target
        }),
{
    lemma_ascending_docs_by_neighbours(docs);
    keyset::lemma_first_at_or_after(docs, target, 0);
}

/// An array stands for the keys it lists, and is well formed when each is less than the
/// next.
pub proof fn lemma_array_keys(a: ArrayContainer)
    ensures
        forall|k: u16| #[trigger]
            a@.contains(k) <==> exists|i: int| 0 <= i < a.keys@.len() && a.keys@[i] == k,
        a.wf() <==> forall|i: int|
            0 <= i < a.keys@.len() - 1 ==> #[trigger] a.keys@[i] < a.keys@[i + 1],
{
    lemma_ascending_by_neighbours(a.keys@);
    assert forall|k: u16| #[trigger] a@.contains(k) <==> exists|i: int|
        0 <= i < a.keys@.len() && a.keys@[i] == k by {
        assert(a@.contains(k) <==> a.keys@.contains(k));
    }
}

/// A bitmap stands for the keys whose bits are set: key `k` has bit `k % 32` of word
/// `k / 32`.
pub proof fn lemma_bitmap_keys(b: BitmapContainer, k: u16)
    ensures
        b@.contains(k) <==> (b.words@[k as int / 32] >> ((k % 32) as u32)) & 1u32 == 1u32,
{
}

/// A bit of a word is set when the word divided by the power of two is odd.
pub proof fn lemma_bit_is_binary_digit(w: u32, b: u32)
    requires
        b < 32,
    ensures
        bitmap::bit(w, b as int) <==> (w as int / vstd::arithmetic::power2::pow2(b as nat) as int)
            % 2 == 1,
{
    vstd::bits::lemma_u32_shr_is_div(w, b);
    let x = w >> b;
    assert(x & 1u32 == x % 2) by (bit_vector);
}

/// The keys of a run go from its start on, as many as its length says, where the length
/// zero stands for all 65536.
pub proof fn lemma_run_holds(r: Run, k: u16)
    ensures
        r.card() == if r.length == 0 {
            65536int
        } else {
            r.length as int
        },
        r.last() == r.start + r.card() - 1,
        r.has(k) <==> r.start <= k && k - r.start < r.card(),
{
}

/// A run container stands for the keys of its runs. It is well formed when each run ends
/// within the bucket and in front of the start of the next.
pub proof fn lemma_run_container_keys(c: RunContainer)
    ensures
        forall|k: u16| #[trigger]
            c@.contains(k) <==> exists|i: int|
                0 <= i < c.runs@.len() && (#[trigger] c.runs@[i]).start <= k && (c.runs@[i].length
                    == 0 || k - c.runs@[i].start < c.runs@[i].length),
        c.wf() <==> (forall|i: int|
            0 <= i < c.runs@.len() ==> (#[trigger] c.runs@[i]).start + (if c.runs@[i].length == 0 {
                65536int
            } else {
                c.runs@[i].length as int
            }) <= 65536) && (forall|i: int, j: int|
            0 <= i < j < c.runs@.len() ==> (#[trigger] c.runs@[i]).start + (if c.runs@[i].length
                == 0 {
                65536int
            } else {
                c.runs@[i].length as int
            }) <= (#[trigger] c.runs@[j]).start),
{
    assert forall|k: u16| #[trigger] c@.contains(k) <==> exists|i: int|
        0 <= i < c.runs@.len() && (#[trigger] c.runs@[i]).start <= k && (c.runs@[i].length == 0 || k
            - c.runs@[i].start < c.runs@[i].length) by {
        if c@.contains(k) {
            let i = choose|i: int| 0 <= i < c.runs@.len() && (#[trigger] c.runs@[i]).has(k);
            assert(c.runs@[i].start <= k);
        }
        if exists|i: int|
            0 <= i < c.runs@.len() && (#[trigger] c.runs@[i]).start <= k && (c.runs@[i].length == 0
                || k - c.runs@[i].start < c.runs@[i].length) {
            let i = choose|i: int|
                0 <= i < c.runs@.len() && (#[trigger] c.runs@[i]).start <= k && (c.runs@[i].length
                    == 0 || k - c.runs@[i].start < c.runs@[i].length);
            assert(c.runs@[i].has(k));
        }
    }
}

/// Runs are maximal when between a run and a later one at least one key is missing.
pub proof fn lemma_maximal_runs_leave_gaps(runs: Seq<Run>)
    ensures
        run::maximal(runs) <==> forall|i: int, j: int|
            0 <= i < j < runs.len() ==> (#[trigger] runs[i]).start + (if runs[i].length == 0 {
                65536int
            } else {
                runs[i].length as int
            }) < (#[trigger] runs[j]).start,
{
}

/// Which lists of runs are refused, and why: the runs are refused when one ends behind the
/// bucket or does not end in front of the next; of those, a run of length zero in front of
/// the last, with all runs before it in order, is reported as empty.
pub proof fn lemma_runs_refused(c: RunContainer)
    ensures
        run::runs_error(c.runs@) is None <==> c.wf(),
        run::runs_error(c.runs@) == Some(crate::error::ContainerError::EmptyRun) <==> !c.wf()
            && exists|i: int|
            0 <= i < c.runs@.len() - 1 && (#[trigger] c.runs@[i]).length == 0 && forall|j: int|
                0 <= j < i ==> (#[trigger] c.runs@[j]).length != 0 && c.runs@[j].start
                    + c.runs@[j].length <= c.runs@[j + 1].start,
        run::runs_error(c.runs@) is Some ==> run::runs_error(c.runs@) == Some(
            crate::error::ContainerError::EmptyRun,
        ) || run::runs_error(c.runs@) == Some(
            crate::error::ContainerError::RunInvariantViolation,
        ),
{
    let runs = c.runs@;
    assert forall|i: int| 0 <= i < runs.len() - 1 implies (run::in_order_up_to(runs, i) <==> forall|
        j: int,
    |
        0 <= j < i ==> (#[trigger] runs[j]).length != 0 && runs[j].start + runs[j].length
            <= runs[j + 1].start) by {}
}

/// Each run of an intersection is where one run of either side meets one of the other: it
/// starts at the later start and ends at the earlier end.
pub proof fn lemma_overlap_runs_are_meetings(a: Seq<Run>, b: Seq<Run>, i: int, j: int)
    requires
        run::runs_wf(a),
        run::runs_wf(b),
        0 <= i,
        0 <= j,
    ensures
        forall|m: int|
            0 <= m < run::overlaps_from(a, b, i, j).len() ==> is_meeting(
                a,
                b,
                #[trigger] run::overlaps_from(a, b, i, j)[m],
            ),
    decreases a.len() - i + b.len() - j,
{
    if i < a.len() && j < b.len() {
        let first = run::overlap(a[i], b[j]);
        let rest = if a[i].last() < b[j].last() {
            run::overlaps_from(a, b, i + 1, j)
        } else {
            run::overlaps_from(a, b, i, j + 1)
        };
        if a[i].last() < b[j].last() {
            lemma_overlap_runs_are_meetings(a, b, i + 1, j);
        } else {
            lemma_overlap_runs_are_meetings(a, b, i, j + 1);
        }
        let out = run::overlaps_from(a, b, i, j);
        assert(out == first + rest);
        assert forall|m: int| 0 <= m < out.len() implies is_meeting(a, b, #[trigger] out[m]) by {
            if m < first.len() {
                assert(a[i].last() <= 65535 && b[j].last() <= 65535);
                assert(meets(a[i], b[j], out[m]));
            } else {
                assert(out[m] == rest[m - first.len()]);
            }
        }
    }
}

/// `r` starts at the later start of `x` and `y` and ends at the earlier end.
pub open spec fn meets(x: Run, y: Run, r: Run) -> bool {
    &&& r.start == if x.start >= y.start {
        x.start
    } else {
        y.start
    }
    &&& r.last() == if x.last() <= y.last() {
        x.last()
    } else {
        y.last()
    }
}

/// `r` is where a run of `a` meets a run of `b`.
pub open spec fn is_meeting(a: Seq<Run>, b: Seq<Run>, r: Run) -> bool {
    exists|i: int, j: int|
        0 <= i < a.len() && 0 <= j < b.len() && #[trigger] meets(a[i], b[j], r)
}

/// The exclusive or of two sets holds the keys of one that are not in the other.
pub proof fn lemma_exclusive_or_keys(a: Set<u16>, b: Set<u16>)
    ensures
        bitmap::sym_diff(a, b) == a.difference(b).union(b.difference(a)),
{
    assert(bitmap::sym_diff(a, b) =~= a.difference(b).union(b.difference(a)));
}

/// A container stands for the keys of what it holds.
pub proof fn lemma_container_keys(c: Container)
    ensures
        c matches Container::Array(a) ==> c@ == a@ && (c.wf() <==> a.wf()) && c.form()
            == ContainerForm::Array,
        c matches Container::Bitmap(b) ==> c@ == b@ && c.wf() && c.form() == ContainerForm::Bitmap,
        c matches Container::Run(r) ==> c@ == r@ && (c.wf() <==> r.wf()) && c.form()
            == ContainerForm::Run,
{
}

/// The smallest layout is chosen: an array takes 4 bytes and 2 for each key, for at most
/// 4096 keys; a bitmap takes 8192; runs take 2 bytes and 4 for each run. Runs are chosen
/// only where they take less than the other, and not for the empty set.
pub proof fn lemma_smallest_layout(card: nat, runs: nat)
    ensures
        container::best_form(card, runs) == ContainerForm::Run <==> card > 0 && (card <= 4096
            && 2 + 4 * runs < 4 + 2 * card || card > 4096 && 2 + 4 * runs < 8192),
        container::best_form(card, runs) == ContainerForm::Bitmap <==> card > 4096 && 2 + 4 * runs
            >= 8192,
        container::best_form(card, runs) == ContainerForm::Array <==> card == 0 || card <= 4096 && 2
            + 4 * runs >= 4 + 2 * card,
        container::small_form(card) == ContainerForm::Array <==> card <= 4096,
        container::small_form(card) == ContainerForm::Bitmap <==> card > 4096,
{
}

/// The layout of an intersection, a union and an exclusive or, by the layouts of the two
/// sides: with an array an intersection is an array; with a bitmap a union is a bitmap;
/// two runs, and what mixes runs, go to the smallest layout; everything else is an array
/// up to 4096 keys and a bitmap above.
pub proof fn lemma_layout_of_result(a: Container, b: Container)
    ensures
        a is Array || b is Array ==> container::and_form(a, b) == ContainerForm::Array,
        a is Bitmap && b !is Array || a !is Array && b is Bitmap ==> (container::and_form(a, b)
            == ContainerForm::Array <==> a@.intersect(b@).len() <= 4096) && container::and_form(
            a,
            b,
        ) != ContainerForm::Run,
        a is Bitmap || b is Bitmap ==> container::or_form(a, b) == ContainerForm::Bitmap,
        a is Array && b is Array ==> (container::or_form(a, b) == ContainerForm::Array
            <==> a@.union(b@).len() <= 4096) && container::or_form(a, b) != ContainerForm::Run,
        a is Run && b !is Bitmap || a !is Bitmap && b is Run ==> container::or_form(a, b)
            == container::best_form(a@.union(b@).len(), keyset::run_count(a@.union(b@))),
        a is Array && b is Array || a is Bitmap && b is Bitmap ==> (container::xor_form(a, b)
            == ContainerForm::Array <==> a@.difference(b@).union(b@.difference(a@)).len() <= 4096)
            && container::xor_form(a, b) != ContainerForm::Run,
        a is Run || b is Run || a is Array && b is Bitmap || a is Bitmap && b is Array
            ==> container::xor_form(a, b) == container::best_form(
            a@.difference(b@).union(b@.difference(a@)).len(),
            keyset::run_count(a@.difference(b@).union(b@.difference(a@))),
        ),
        a is Run && b is Run ==> container::and_form(a, b) == container::best_form(
            a@.intersect(b@).len(),
            run::overlaps_from(a->Run_0.runs@, b->Run_0.runs@, 0, 0).len(),
        ),
{
    lemma_exclusive_or_keys(a@, b@);
}

/// The runs that re-packing counts: those of a run container as it lists them, otherwise
/// those of its keys.
pub proof fn lemma_runs_counted(c: Container)
    ensures
        c matches Container::Run(r) ==> c.run_total() == r.runs@.len(),
        c !is Run ==> c.run_total() == keyset::run_count(c@),
{
}

/// The keys of words are those whose bits are set, and the keys of runs those of each run.
pub proof fn lemma_keys_of_words_and_runs(words: Seq<u32>, runs: Seq<Run>, k: u16)
    ensures
        bitmap::word_set(words).contains(k) <==> (words[k as int / 32] >> ((k % 32) as u32)) & 1u32
            == 1u32,
        run::runs_set(runs).contains(k) <==> exists|i: int|
            0 <= i < runs.len() && (#[trigger] runs[i]).start <= k && (runs[i].length == 0 || k
                - runs[i].start < runs[i].length),
{
    if run::runs_set(runs).contains(k) {
        let i = choose|i: int| 0 <= i < runs.len() && (#[trigger] runs[i]).has(k);
        assert(runs[i].start <= k);
    }
    if exists|i: int|
        0 <= i < runs.len() && (#[trigger] runs[i]).start <= k && (runs[i].length == 0 || k
            - runs[i].start < runs[i].length) {
        let i = choose|i: int|
            0 <= i < runs.len() && (#[trigger] runs[i]).start <= k && (runs[i].length == 0 || k
                - runs[i].start < runs[i].length);
        assert(runs[i].has(k));
    }
}

/// The ones of a word are counted bit by bit.
pub proof fn lemma_ones_are_counted(w: u32, n: nat)
    ensures
        bitmap::ones_below(w, n) == Seq::new(
            n,
            |b: int| (w >> (b as u32)) & 1u32 == 1u32,
        ).fold_left(
            0int,
            |count: int, one: bool| if one {
                count + 1
            } else {
                count
            },
        ),
    decreases n,
{
    let bits = Seq::new(n, |b: int| (w >> (b as u32)) & 1u32 == 1u32);
    if n > 0 {
        lemma_ones_are_counted(w, (n - 1) as nat);
        assert(bits.drop_last() =~= Seq::new(
            (n - 1) as nat,
            |b: int| (w >> (b as u32)) & 1u32 == 1u32,
        ));
        assert(bits.last() == bitmap::bit(w, n - 1));
    }
}

} // verus!
