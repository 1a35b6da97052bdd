//! Key sets and their ascending enumerations.
//!
//! Every container stands for a set of 16-bit keys and every posting list for a
//! set of 32-bit document ids. This module holds the enumeration of such sets in
//! ascending order, together with the facts that tie a strictly increasing
//! sequence to the set of its elements.

use vstd::prelude::*;

verus! {

/// `s` is strictly increasing.
pub open spec fn increasing(s: Seq<u16>) -> bool {
    forall|i: int, j: int| 0 <= i < j < s.len() ==> s[i] < s[j]
}

/// `s` is strictly increasing.
pub open spec fn increasing_docs(s: Seq<u32>) -> bool {
    forall|i: int, j: int| 0 <= i < j < s.len() ==> s[i] < s[j]
}

/// The keys of `set` below `n`, in ascending order.
pub open spec fn keys_below(set: Set<u16>, n: int) -> Seq<u16>
    decreases n,
{
    if n <= 0 {
        Seq::empty()
    } else if set.contains((n - 1) as u16) {
        keys_below(set, n - 1).push((n - 1) as u16)
    } else {
        keys_below(set, n - 1)
    }
}

/// The keys of `set` in ascending order.
pub open spec fn sorted_keys(set: Set<u16>) -> Seq<u16> {
    keys_below(set, 65536)
}

/// The keys of `set` that are not below `key`.
pub open spec fn at_or_after(set: Set<u16>, key: u16) -> Set<u16> {
    Set::new(|k: u16| set.contains(k) && key <= k)
}

/// The number of leading documents of an ascending sequence, from `i` on, that are
/// below `target`.
pub open spec fn first_at_or_after(docs: Seq<u32>, target: u32, i: int) -> int
    decreases docs.len() - i,
{
    if i < 0 || i >= docs.len() {
        docs.len() as int
    } else if docs[i] >= target {
        i
    } else {
        first_at_or_after(docs, target, i + 1)
    }
}

/// The documents of an ascending sequence that are not below `target`.
pub open spec fn docs_at_or_after(docs: Seq<u32>, target: u32) -> Seq<u32> {
    docs.skip(first_at_or_after(docs, target, 0))
}

/// `k` opens a run of consecutive keys in `set`: it is a member and its
/// predecessor is not.
pub open spec fn opens_run(set: Set<u16>, k: int) -> bool {
    set.contains(k as u16) && (k == 0 || !set.contains((k - 1) as u16))
}

/// Number of maximal runs of consecutive keys that start below `n`.
pub open spec fn runs_below(set: Set<u16>, n: int) -> nat
    decreases n,
{
    if n <= 0 {
        0
    } else {
        runs_below(set, n - 1) + if opens_run(set, n - 1) { 1nat } else { 0nat }
    }
}

/// Number of maximal runs of consecutive keys in `set`.
pub open spec fn run_count(set: Set<u16>) -> nat {
    runs_below(set, 65536)
}

pub proof fn lemma_increasing_lower(s: Seq<u16>, i: int)
    requires
        increasing(s),
        0 <= i < s.len(),
    ensures
        s[i] >= i,
    decreases i,
{
    if i > 0 {
        lemma_increasing_lower(s, i - 1);
        assert(s[i - 1] < s[i]);
    }
}

/// A strictly increasing sequence of keys has at most 65536 elements.
pub proof fn lemma_increasing_len(s: Seq<u16>)
    requires
        increasing(s),
    ensures
        s.len() <= 65536,
{
    if s.len() > 65536 {
        lemma_increasing_lower(s, 65536);
    }
}

/// The elements of a strictly increasing sequence are distinct, so it is as long
/// as the set of its elements is large.
pub proof fn lemma_increasing_card(s: Seq<u16>)
    requires
        increasing(s),
    ensures
        s.no_duplicates(),
        s.to_set().finite(),
        s.to_set().len() == s.len(),
{
    s.unique_seq_to_set();
}

pub proof fn lemma_keys_below(set: Set<u16>, n: int)
    requires
        0 <= n <= 65536,
    ensures
        increasing(keys_below(set, n)),
        forall|k: u16| #[trigger]
            keys_below(set, n).contains(k) <==> set.contains(k) && k < n,
        forall|i: int| 0 <= i < keys_below(set, n).len() ==> (#[trigger] keys_below(set, n)[i]) < n,
    decreases n,
{
    if n > 0 {
        lemma_keys_below(set, n - 1);
        let prev = keys_below(set, n - 1);
        let all = keys_below(set, n);
        assert forall|k: u16| #[trigger] all.contains(k) <==> set.contains(k) && k < n by {
            if set.contains((n - 1) as u16) {
                assert(all == prev.push((n - 1) as u16));
                if all.contains(k) {
                    let i = choose|i: int| 0 <= i < all.len() && all[i] == k;
                    if i < prev.len() {
                        assert(prev[i] == k);
                        assert(prev.contains(k));
                    }
                }
                if set.contains(k) && k < n {
                    if k == (n - 1) as u16 {
                        assert(all[prev.len() as int] == k);
                    } else {
                        assert(prev.contains(k));
                        let i = choose|i: int| 0 <= i < prev.len() && prev[i] == k;
                        assert(all[i] == k);
                    }
                }
            } else {
                assert(all == prev);
                assert(prev.contains(k) <==> set.contains(k) && k < n - 1);
            }
        }
    }
}

/// Two strictly increasing sequences with the same elements are equal.
pub proof fn lemma_increasing_unique(a: Seq<u16>, b: Seq<u16>)
    requires
        increasing(a),
        increasing(b),
        forall|k: u16| a.contains(k) <==> b.contains(k),
    ensures
        a == b,
    decreases a.len(),
{
    if a.len() == 0 {
        if b.len() > 0 {
            assert(b.contains(b[0]));
            assert(a.contains(b[0]));
        }
        assert(a =~= b);
    } else {
        assert(a.contains(a.last()));
        assert(b.contains(a.last()));
        assert(b.len() > 0);
        assert(b.contains(b.last()));
        assert(a.contains(b.last()));
        assert(a.last() == b.last());
        let a1 = a.drop_last();
        let b1 = b.drop_last();
        assert forall|k: u16| a1.contains(k) <==> b1.contains(k) by {
            if a1.contains(k) {
                let i = choose|i: int| 0 <= i < a1.len() && a1[i] == k;
                assert(a[i] == k);
                assert(a.contains(k));
                assert(b.contains(k));
                let j = choose|j: int| 0 <= j < b.len() && b[j] == k;
                assert(b1[j] == k);
            }
            if b1.contains(k) {
                let i = choose|i: int| 0 <= i < b1.len() && b1[i] == k;
                assert(b[i] == k);
                assert(b.contains(k));
                assert(a.contains(k));
                let j = choose|j: int| 0 <= j < a.len() && a[j] == k;
                assert(a1[j] == k);
            }
        }
        lemma_increasing_unique(a1, b1);
        assert(a =~= a1.push(a.last()));
        assert(b =~= b1.push(b.last()));
    }
}

/// The ascending enumeration of a key set is the only strictly increasing
/// sequence with its elements, and it is as long as the set is large.
pub proof fn lemma_sorted_keys(s: Seq<u16>, set: Set<u16>)
    requires
        increasing(s),
        forall|k: u16| s.contains(k) <==> set.contains(k),
    ensures
        s == sorted_keys(set),
        set.finite(),
        set.len() == s.len(),
        s.to_set() == set,
{
    lemma_keys_below(set, 65536);
    lemma_increasing_unique(s, sorted_keys(set));
    assert(s.to_set() =~= set);
    lemma_increasing_card(s);
}

/// What the ascending enumeration of a key set is.
pub proof fn lemma_sorted_keys_spec(set: Set<u16>)
    ensures
        increasing(sorted_keys(set)),
        forall|k: u16| sorted_keys(set).contains(k) <==> set.contains(k),
        sorted_keys(set).to_set() == set,
        set.finite(),
        set.len() == sorted_keys(set).len(),
        set.len() <= 65536,
{
    lemma_keys_below(set, 65536);
    lemma_sorted_keys(sorted_keys(set), set);
    lemma_increasing_len(sorted_keys(set));
}

/// The least member of a key set comes first in its enumeration; the rest of the
/// enumeration belongs to the set without it.
pub proof fn lemma_sorted_keys_first(set: Set<u16>, k: u16)
    requires
        set.contains(k),
        forall|x: u16| set.contains(x) ==> k <= x,
    ensures
        sorted_keys(set).len() > 0,
        sorted_keys(set)[0] == k,
        sorted_keys(set).drop_first() == sorted_keys(set.remove(k)),
{
    lemma_sorted_keys_spec(set);
    let s = sorted_keys(set);
    assert(s.contains(k));
    assert(s.contains(s[0]));
    assert(set.contains(s[0]));
    let r = s.drop_first();
    assert forall|x: u16| r.contains(x) <==> set.remove(k).contains(x) by {
        if r.contains(x) {
            let i = choose|i: int| 0 <= i < r.len() && r[i] == x;
            assert(s[i + 1] == x);
            assert(s.contains(x));
        }
        if set.remove(k).contains(x) {
            assert(s.contains(x));
            let i = choose|i: int| 0 <= i < s.len() && s[i] == x;
            assert(r[i - 1] == x);
        }
    }
    lemma_sorted_keys(r, set.remove(k));
}

/// An empty key set has an empty enumeration.
pub proof fn lemma_sorted_keys_empty(set: Set<u16>)
    requires
        forall|x: u16| !set.contains(x),
    ensures
        sorted_keys(set) == Seq::<u16>::empty(),
        set.len() == 0,
{
    lemma_sorted_keys(Seq::<u16>::empty(), set);
}

pub proof fn lemma_first_at_or_after(docs: Seq<u32>, target: u32, i: int)
    requires
        increasing_docs(docs),
        0 <= i <= docs.len(),
        forall|j: int| 0 <= j < i ==> docs[j] < target,
    ensures
        i <= first_at_or_after(docs, target, i) <= docs.len(),
        forall|j: int| 0 <= j < first_at_or_after(docs, target, i) ==> docs[j] < target,
        forall|j: int|
            first_at_or_after(docs, target, i) <= j < docs.len() ==> docs[j] >= target,
    decreases docs.len() - i,
{
    if i < docs.len() && docs[i] < target {
        lemma_first_at_or_after(docs, target, i + 1);
    }
}

/// An ascending sequence with exactly the documents from `target` on is what
/// `docs_at_or_after` gives.
pub proof fn lemma_docs_at_or_after(docs: Seq<u32>, target: u32, tail: Seq<u32>)
    requires
        increasing_docs(docs),
        increasing_docs(tail),
        forall|d: u32| #[trigger] tail.contains(d) <==> docs.contains(d) && d >= target,
    ensures
        tail == docs_at_or_after(docs, target),
{
    lemma_first_at_or_after(docs, target, 0);
    let p = first_at_or_after(docs, target, 0);
    let want = docs_at_or_after(docs, target);
    assert forall|d: u32| tail.contains(d) <==> want.contains(d) by {
        if want.contains(d) {
            let i = choose|i: int| 0 <= i < want.len() && want[i] == d;
            assert(docs[p + i] == d);
        }
        if docs.contains(d) && d >= target {
            let i = choose|i: int| 0 <= i < docs.len() && docs[i] == d;
            assert(want[i - p] == d);
        }
    }
    lemma_docs_unique(tail, want);
}

pub proof fn lemma_docs_lower(s: Seq<u32>, i: int)
    requires
        increasing_docs(s),
        0 <= i < s.len(),
    ensures
        s[i] >= i,
    decreases i,
{
    if i > 0 {
        lemma_docs_lower(s, i - 1);
        assert(s[i - 1] < s[i]);
    }
}

/// A strictly increasing sequence of document ids has at most 2^32 elements, all
/// distinct.
pub proof fn lemma_docs_card(s: Seq<u32>)
    requires
        increasing_docs(s),
    ensures
        s.len() <= 0x1_0000_0000,
        s.no_duplicates(),
        s.to_set().finite(),
        s.to_set().len() == s.len(),
{
    if s.len() > 0x1_0000_0000 {
        lemma_docs_lower(s, 0x1_0000_0000);
    }
    s.unique_seq_to_set();
}

/// Two strictly increasing document sequences with the same elements are equal.
pub proof fn lemma_docs_unique(a: Seq<u32>, b: Seq<u32>)
    requires
        increasing_docs(a),
        increasing_docs(b),
        forall|k: u32| a.contains(k) <==> b.contains(k),
    ensures
        a == b,
    decreases a.len(),
{
    if a.len() == 0 {
        if b.len() > 0 {
            assert(b.contains(b[0]));
            assert(a.contains(b[0]));
        }
        assert(a =~= b);
    } else {
        assert(a.contains(a.last()));
        assert(b.contains(a.last()));
        assert(b.len() > 0);
        assert(b.contains(b.last()));
        assert(a.contains(b.last()));
        assert(a.last() == b.last());
        let a1 = a.drop_last();
        let b1 = b.drop_last();
        assert forall|k: u32| a1.contains(k) <==> b1.contains(k) by {
            if a1.contains(k) {
                let i = choose|i: int| 0 <= i < a1.len() && a1[i] == k;
                assert(a[i] == k);
                assert(a.contains(k));
                assert(b.contains(k));
                let j = choose|j: int| 0 <= j < b.len() && b[j] == k;
                assert(b1[j] == k);
            }
            if b1.contains(k) {
                let i = choose|i: int| 0 <= i < b1.len() && b1[i] == k;
                assert(b[i] == k);
                assert(b.contains(k));
                assert(a.contains(k));
                let j = choose|j: int| 0 <= j < a.len() && a[j] == k;
                assert(a1[j] == k);
            }
        }
        lemma_docs_unique(a1, b1);
        assert(a =~= a1.push(a.last()));
        assert(b =~= b1.push(b.last()));
    }
}

} // verus!
