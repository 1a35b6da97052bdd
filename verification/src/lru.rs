//! Least-recently-used storage under a byte budget.
//!
//! The three cache tiers share this store. Entries stand in order of last use,
//! oldest first: a lookup or a repeated insert moves an entry to the back, and
//! room for a new entry is made from the front.

use std::sync::Arc;
use vstd::prelude::*;

use crate::cht::ChtKey;
use crate::segment_id::SegmentId;

verus! {

/// One cached value, shared with whoever looked it up.
pub struct Slot<T> {
    /// What the value is filed under.
    pub key: ChtKey,
    /// The value.
    pub value: Arc<T>,
    /// What the value costs of the budget.
    pub bytes: u64,
}

/// What a slot stands for.
pub struct Entry<T> {
    /// What the value is filed under.
    pub key: ChtKey,
    /// The value.
    pub value: T,
    /// What the value costs of the budget.
    pub bytes: u64,
}

/// Entries in order of last use, oldest first.
pub struct LruStore<T> {
    slots: Vec<Slot<T>>,
    current_bytes: u64,
    budget_bytes: u64,
}

/// Another handle on the same value (`Arc::clone`).
#[verifier::external_body]
pub(crate) fn share<T>(a: &Arc<T>) -> (r: Arc<T>)
    ensures
        r == *a,
{
    Arc::clone(a)
}

/// `x + n` in 64 bits, wrapping around.
pub open spec fn wadd(x: u64, n: int) -> u64 {
    ((x + n) % 0x1_0000_0000_0000_0000) as u64
}

/// Wrapping additions add up.
pub proof fn lemma_wadd(x: u64, n: int, m: int)
    ensures
        wadd(wadd(x, n), m) == wadd(x, n + m),
        wadd(x, 0) == x,
{
    let k = 0x1_0000_0000_0000_0000int;
    vstd::arithmetic::div_mod::lemma_add_mod_noop(x + n, m, k);
    vstd::arithmetic::div_mod::lemma_add_mod_noop((x + n) % k, m, k);
    assert(((x + n) % k) % k == (x + n) % k);
}

/// The bytes of all entries.
pub open spec fn total<T>(s: Seq<Entry<T>>) -> int
    decreases s.len(),
{
    if s.len() == 0 {
        0
    } else {
        total(s.drop_first()) + s[0].bytes
    }
}

/// An entry is filed under `key`.
pub open spec fn held<T>(s: Seq<Entry<T>>, key: ChtKey) -> bool {
    exists|i: int| 0 <= i < s.len() && (#[trigger] s[i]).key == key
}

/// Where the entry for `key` stands.
pub open spec fn place<T>(s: Seq<Entry<T>>, key: ChtKey) -> int {
    choose|i: int| 0 <= i < s.len() && (#[trigger] s[i]).key == key
}

/// No key occurs twice.
pub open spec fn distinct<T>(s: Seq<Entry<T>>) -> bool {
    forall|i: int, j: int|
        0 <= i < j < s.len() ==> (#[trigger] s[i]).key != (#[trigger] s[j]).key
}

/// The entries after entry `i` was used.
pub open spec fn touched<T>(s: Seq<Entry<T>>, i: int) -> Seq<Entry<T>> {
    s.remove(i).push(s[i])
}

/// What is left once the oldest entries have made room for `bytes` more.
pub open spec fn shed<T>(s: Seq<Entry<T>>, bytes: int, budget: int) -> Seq<Entry<T>>
    decreases s.len(),
{
    if s.len() > 0 && total(s) + bytes > budget {
        shed(s.drop_first(), bytes, budget)
    } else {
        s
    }
}

/// The entries after `e` was stored.
pub open spec fn stored<T>(s: Seq<Entry<T>>, e: Entry<T>, budget: int) -> Seq<Entry<T>> {
    shed(s, e.bytes as int, budget).push(e)
}

/// How many entries make room for `bytes` more.
pub open spec fn shed_count<T>(s: Seq<Entry<T>>, bytes: int, budget: int) -> int {
    s.len() - shed(s, bytes, budget).len()
}

/// The entries whose segment is in `segments`.
pub open spec fn in_segments(key: ChtKey, segments: Seq<SegmentId>) -> bool {
    segments.contains(key.segment_id)
}

/// The entries whose segments are not among `segments`.
pub open spec fn without_segments<T>(s: Seq<Entry<T>>, segments: Seq<SegmentId>) -> Seq<Entry<T>> {
    s.filter(|e: Entry<T>| !in_segments(e.key, segments))
}

pub proof fn lemma_total_push<T>(s: Seq<Entry<T>>, e: Entry<T>)
    ensures
        total(s.push(e)) == total(s) + e.bytes,
    decreases s.len(),
{
    if s.len() == 0 {
        assert(s.push(e).drop_first() =~= s);
    } else {
        lemma_total_push(s.drop_first(), e);
        assert(s.push(e).drop_first() =~= s.drop_first().push(e));
    }
}

pub proof fn lemma_total_remove<T>(s: Seq<Entry<T>>, i: int)
    requires
        0 <= i < s.len(),
    ensures
        total(s.remove(i)) == total(s) - s[i].bytes,
    decreases s.len(),
{
    if i == 0 {
        assert(s.remove(0) =~= s.drop_first());
    } else {
        lemma_total_remove(s.drop_first(), i - 1);
        assert(s.remove(i).drop_first() =~= s.drop_first().remove(i - 1));
        assert(s.remove(i)[0] == s[0]);
    }
}

pub proof fn lemma_total_nonneg<T>(s: Seq<Entry<T>>)
    ensures
        total(s) >= 0,
    decreases s.len(),
{
    if s.len() > 0 {
        lemma_total_nonneg(s.drop_first());
    }
}

/// The first `n` entries take no more bytes than all of them.
pub proof fn lemma_total_take<T>(s: Seq<Entry<T>>, n: int)
    requires
        0 <= n <= s.len(),
    ensures
        total(s.take(n)) <= total(s),
    decreases s.len() - n,
{
    if n == s.len() {
        assert(s.take(n) =~= s);
    } else {
        assert(s.take(n + 1) =~= s.take(n).push(s[n]));
        lemma_total_push(s.take(n), s[n]);
        lemma_total_take(s, n + 1);
    }
}

/// Making room adds no entry.
pub proof fn lemma_shed_len<T>(s: Seq<Entry<T>>, bytes: int, budget: int)
    ensures
        0 <= shed_count(s, bytes, budget) <= s.len(),
    decreases s.len(),
{
    if s.len() > 0 && total(s) + bytes > budget {
        lemma_shed_len(s.drop_first(), bytes, budget);
    }
}

/// Making room takes entries from the front, no more than needed, and leaves room.
pub proof fn lemma_shed<T>(s: Seq<Entry<T>>, bytes: int, budget: int)
    requires
        0 <= bytes <= budget,
    ensures
        0 <= shed_count(s, bytes, budget) <= s.len(),
        shed(s, bytes, budget) == s.skip(shed_count(s, bytes, budget)),
        total(shed(s, bytes, budget)) + bytes <= budget,
        total(s) + bytes <= budget ==> shed(s, bytes, budget) == s,
        shed_count(s, bytes, budget) > 0 ==> total(s.skip(shed_count(s, bytes, budget) - 1)) + bytes
            > budget,
        distinct(s) ==> distinct(shed(s, bytes, budget)),
    decreases s.len(),
{
    if s.len() > 0 && total(s) + bytes > budget {
        lemma_shed(s.drop_first(), bytes, budget);
        let n = shed_count(s, bytes, budget);
        assert(s.drop_first().skip(n - 1) =~= s.skip(n));
        if n == 1 {
            assert(s.skip(0) =~= s);
        } else {
            assert(s.drop_first().skip(n - 2) =~= s.skip(n - 1));
        }
        if distinct(s) {
            assert forall|i: int, j: int| 0 <= i < j < s.drop_first().len() implies (
            #[trigger] s.drop_first()[i]).key != (#[trigger] s.drop_first()[j]).key by {
                assert(s[i + 1].key != s[j + 1].key);
            }
        }
    } else {
        assert(s.skip(0) =~= s);
        if s.len() == 0 {
            assert(total(s) == 0);
        }
    }
}

/// Among distinct keys an entry stands in one place only.
pub proof fn lemma_place<T>(s: Seq<Entry<T>>, i: int)
    requires
        distinct(s),
        0 <= i < s.len(),
    ensures
        held(s, s[i].key),
        place(s, s[i].key) == i,
{
    let p = place(s, s[i].key);
    assert(s[i].key == s[i].key);
    if p < i {
        assert(s[p].key != s[i].key);
    } else if i < p {
        assert(s[i].key != s[p].key);
    }
}

impl<T> View for Slot<T> {
    type V = Entry<T>;

    open spec fn view(&self) -> Entry<T> {
        Entry { key: self.key, value: *self.value, bytes: self.bytes }
    }
}

impl<T> View for LruStore<T> {
    type V = Seq<Entry<T>>;

    /// The entries in order of last use, oldest first.
    closed spec fn view(&self) -> Seq<Entry<T>> {
        Seq::new(self.slots@.len(), |i: int| self.slots@[i]@)
    }
}

impl<T> LruStore<T> {
    /// Keys are distinct, the byte count is exact and within the budget.
    pub closed spec fn wf(&self) -> bool {
        &&& distinct(self@)
        &&& self.current_bytes == total(self@)
        &&& self.current_bytes <= self.budget_bytes
    }

    /// The byte budget.
    pub closed spec fn budget(&self) -> u64 {
        self.budget_bytes
    }

    /// What well-formedness says from outside.
    pub proof fn lemma_wf(&self)
        requires
            self.wf(),
        ensures
            distinct(self@),
            0 <= total(self@) <= self.budget(),
    {
        lemma_total_nonneg(self@);
    }

    /// Empty store.
    pub fn new(budget_bytes: u64) -> (r: Self)
        ensures
            r.wf(),
            r@ == Seq::<Entry<T>>::empty(),
            r.budget() == budget_bytes,
    {
        let r = LruStore { slots: Vec::new(), current_bytes: 0, budget_bytes };
        assert(r@ =~= Seq::<Entry<T>>::empty());
        r
    }

    /// Bytes of all entries.
    pub fn current_bytes(&self) -> (r: u64)
        requires
            self.wf(),
        ensures
            r == total(self@),
    {
        self.current_bytes
    }

    /// The byte budget.
    pub fn budget_bytes(&self) -> (r: u64)
        ensures
            r == self.budget(),
    {
        self.budget_bytes
    }

    /// Number of entries.
    pub fn len(&self) -> (r: usize)
        ensures
            r == self@.len(),
    {
        self.slots.len()
    }

    /// The entry at position `i`, oldest first.
    pub fn slot(&self, i: usize) -> (r: &Slot<T>)
        requires
            i < self@.len(),
        ensures
            r@ == self@[i as int],
    {
        &self.slots[i]
    }

    /// Where the entry for `key` stands, if there is one.
    pub fn find(&self, key: &ChtKey) -> (r: Option<usize>)
        requires
            self.wf(),
        ensures
            match r {
                Some(i) => held(self@, *key) && i < self@.len() && i == place(self@, *key)
                    && self@[i as int].key == *key,
                None => !held(self@, *key),
            },
    {
        let n: usize = self.slots.len();
        let mut i: usize = 0;
        while i < n
            invariant
                self.wf(),
                n == self.slots@.len(),
                i <= n,
                forall|j: int| 0 <= j < i ==> (#[trigger] self@[j]).key != *key,
            decreases n - i,
        {
            if self.slots[i].key == *key {
                proof {
                    assert(self@[i as int].key == *key);
                    lemma_place(self@, i as int);
                }
                return Some(i);
            }
            assert(self@[i as int].key != *key);
            i = i + 1;
        }
        None
    }

    /// Mark the entry at position `i` as just used.
    pub fn touch(&mut self, i: usize)
        requires
            old(self).wf(),
            i < old(self)@.len(),
        ensures
            final(self).wf(),
            final(self)@ == touched(old(self)@, i as int),
            final(self).budget() == old(self).budget(),
    {
        let ghost s = self@;
        let slot: Slot<T> = self.slots.remove(i);
        self.slots.push(slot);
        proof {
            let t = self@;
            assert(t =~= touched(s, i as int));
            lemma_total_remove(s, i as int);
            lemma_total_push(s.remove(i as int), s[i as int]);
            assert forall|x: int, y: int| 0 <= x < y < t.len() implies (#[trigger] t[x]).key != (
            #[trigger] t[y]).key by {
                let x0 = if x < i { x } else { x + 1 };
                let y0 = if y == t.len() - 1 {
                    i as int
                } else if y < i {
                    y
                } else {
                    y + 1
                };
                assert(t[x] == s[x0]);
                assert(t[y] == s[y0]);
                if x0 < y0 {
                    assert(s[x0].key != s[y0].key);
                } else {
                    assert(s[y0].key != s[x0].key);
                }
            }
        }
    }

    /// Look up a value and mark it as just used.
    pub fn get(&mut self, key: &ChtKey) -> (r: Option<Arc<T>>)
        requires
            old(self).wf(),
        ensures
            final(self).wf(),
            final(self).budget() == old(self).budget(),
            r is Some <==> held(old(self)@, *key),
            match r {
                Some(v) => *v == old(self)@[place(old(self)@, *key)].value && final(self)@
                    == touched(old(self)@, place(old(self)@, *key)),
                None => final(self)@ == old(self)@,
            },
    {
        match self.find(key) {
            Some(i) => {
                let v: Arc<T> = share(&self.slots[i].value);
                self.touch(i);
                Some(v)
            },
            None => None,
        }
    }

    /// Store a new entry, making room from the oldest ones. Returns how many made
    /// room.
    pub fn store(&mut self, key: ChtKey, value: Arc<T>, bytes: u64) -> (r: u64)
        requires
            old(self).wf(),
            bytes <= old(self).budget(),
            !held(old(self)@, key),
        ensures
            final(self).wf(),
            final(self)@ == stored(
                old(self)@,
                (Entry { key, value: *value, bytes }),
                old(self).budget() as int,
            ),
            final(self).budget() == old(self).budget(),
            r == shed_count(old(self)@, bytes as int, old(self).budget() as int),
    {
        let ghost s = self@;
        let ghost budget = self.budget_bytes as int;
        let slot: Slot<T> = Slot { key, value, bytes };
        let ghost e = slot@;
        let mut evicted: u64 = 0;
        proof {
            lemma_shed(s, bytes as int, budget);
            assert(s.skip(0) =~= s);
            assert(s.len() == self.slots.len());
        }
        while self.slots.len() > 0 && self.budget_bytes - self.current_bytes < bytes
            invariant
                distinct(s),
                0 <= bytes <= budget,
                budget == self.budget_bytes,
                self.current_bytes == total(self@),
                self.current_bytes <= self.budget_bytes,
                evicted <= s.len(),
                s.len() <= usize::MAX,
                self@ == s.skip(evicted as int),
                shed(self@, bytes as int, budget) == shed(s, bytes as int, budget),
            decreases self.slots@.len(),
        {
            let ghost t = self@;
            let gone: Slot<T> = self.slots.remove(0);
            proof {
                assert(self@ =~= t.drop_first());
                assert(gone@ == t[0]);
                lemma_total_nonneg(t.drop_first());
                assert(s.skip(evicted + 1) =~= t.drop_first());
            }
            self.current_bytes = self.current_bytes - gone.bytes;
            evicted = evicted + 1;
        }
        let ghost left = self@;
        proof {
            if left.len() == 0 {
                assert(total(left) == 0);
            }
            assert(shed(left, bytes as int, budget) == left);
            lemma_total_push(left, e);
            assert(s.len() - left.len() == evicted);
        }
        self.slots.push(slot);
        self.current_bytes = self.current_bytes + bytes;
        proof {
            let t = self@;
            assert(t =~= left.push(e));
            assert forall|x: int, y: int| 0 <= x < y < t.len() implies (#[trigger] t[x]).key != (
            #[trigger] t[y]).key by {
                assert(t[x] == s[x + evicted]);
                if y < left.len() {
                    assert(t[y] == s[y + evicted]);
                    assert(s[x + evicted].key != s[y + evicted].key);
                } else {
                    assert(held(s, s[x + evicted].key));
                }
            }
        }
        evicted
    }

    /// Drop every entry of the given segments. Returns how many went.
    pub fn remove_segments(&mut self, segments: &[SegmentId]) -> (r: u64)
        requires
            old(self).wf(),
        ensures
            final(self).wf(),
            final(self)@ == without_segments(old(self)@, segments@),
            final(self).budget() == old(self).budget(),
            r == old(self)@.len() - final(self)@.len(),
    {
        let ghost s = self@;
        let ghost keep = |e: Entry<T>| !in_segments(e.key, segments@);
        let mut gone: u64 = 0;
        let mut i: usize = 0;
        proof {
            assert(s.take(0) + s.filter(keep) =~= s.filter(keep));
            assert(s.skip(0) =~= s);
            assert(s.len() == self.slots.len());
        }
        while i < self.slots.len()
            invariant
                keep == (|e: Entry<T>| !in_segments(e.key, segments@)),
                distinct(self@),
                self.current_bytes == total(self@),
                self.current_bytes <= self.budget_bytes,
                self.budget_bytes == old(self).budget_bytes,
                i <= self.slots@.len(),
                gone + self.slots@.len() == s.len(),
                s.len() <= usize::MAX,
                s.filter(keep) == self@.take(i as int) + self@.skip(i as int).filter(keep),
            decreases self.slots@.len() - i,
        {
            let ghost t = self@;
            let ghost head = t[i as int];
            proof {
                lemma_filter_head(t, i as int, keep);
            }
            if contains_segment(segments, &self.slots[i].key.segment_id) {
                let slot: Slot<T> = self.slots.remove(i);
                proof {
                    lemma_total_remove(t, i as int);
                    lemma_total_nonneg(t.remove(i as int));
                    let u = self@;
                    assert(u =~= t.remove(i as int));
                    assert(slot@ == head);
                    assert(u.take(i as int) =~= t.take(i as int));
                    assert(u.skip(i as int) =~= t.skip(i + 1));
                    assert forall|x: int, y: int| 0 <= x < y < u.len() implies (#[trigger] u[x]).key
                        != (#[trigger] u[y]).key by {
                        let x0 = if x < i { x } else { x + 1 };
                        let y0 = if y < i { y } else { y + 1 };
                        assert(t[x0].key != t[y0].key);
                    }
                }
                self.current_bytes = self.current_bytes - slot.bytes;
                gone = gone + 1;
            } else {
                proof {
                    assert(t.take(i as int) + (seq![head] + t.skip(i + 1).filter(keep)) =~= t.take(
                        i + 1,
                    ) + t.skip(i + 1).filter(keep));
                }
                i = i + 1;
            }
        }
        proof {
            let t = self@;
            assert(t.skip(i as int) =~= Seq::<Entry<T>>::empty());
            assert(Seq::<Entry<T>>::empty().filter(keep) =~= Seq::<Entry<T>>::empty()) by {
                reveal(Seq::filter);
            }
            assert(t.take(i as int) + Seq::<Entry<T>>::empty() =~= t);
        }
        gone
    }

    /// Drop every entry.
    pub fn clear(&mut self)
        ensures
            final(self).wf(),
            final(self)@ == Seq::<Entry<T>>::empty(),
            final(self).budget() == old(self).budget(),
    {
        self.slots.clear();
        self.current_bytes = 0;
        assert(self@ =~= Seq::<Entry<T>>::empty());
    }
}

/// Filtering from position `i` on decides on entry `i` first.
pub proof fn lemma_filter_head<T>(t: Seq<Entry<T>>, i: int, keep: spec_fn(Entry<T>) -> bool)
    requires
        0 <= i < t.len(),
    ensures
        t.skip(i).filter(keep) == if keep(t[i]) {
            seq![t[i]] + t.skip(i + 1).filter(keep)
        } else {
            t.skip(i + 1).filter(keep)
        },
{
    let head = t[i];
    assert(t.skip(i) =~= seq![head] + t.skip(i + 1));
    Seq::filter_distributes_over_add(seq![head], t.skip(i + 1), keep);
    assert(seq![head].filter(keep) =~= if keep(head) {
        seq![head]
    } else {
        Seq::<Entry<T>>::empty()
    }) by {
        reveal(Seq::filter);
        assert(seq![head].drop_last() =~= Seq::<Entry<T>>::empty());
        assert(seq![head].last() == head);
        assert(Seq::<Entry<T>>::empty().filter(keep) =~= Seq::<Entry<T>>::empty());
    }
    assert(Seq::<Entry<T>>::empty() + t.skip(i + 1).filter(keep) =~= t.skip(i + 1).filter(keep));
}

/// Whether `id` is one of `segments`.
pub fn contains_segment(segments: &[SegmentId], id: &SegmentId) -> (r: bool)
    ensures
        r == segments@.contains(*id),
{
    let n: usize = segments.len();
    let mut i: usize = 0;
    while i < n
        invariant
            n == segments@.len(),
            i <= n,
            forall|j: int| 0 <= j < i ==> segments@[j] != *id,
        decreases n - i,
    {
        if segments[i] == *id {
            assert(segments@[i as int] == *id);
            return true;
        }
        i = i + 1;
    }
    false
}

/// A value just stored is found, as the most recently used one.
pub proof fn lemma_stored_is_held<T>(s: Seq<Entry<T>>, e: Entry<T>, budget: int)
    requires
        distinct(s),
        !held(s, e.key),
        0 <= e.bytes <= budget,
    ensures
        distinct(stored(s, e, budget)),
        held(stored(s, e, budget), e.key),
        place(stored(s, e, budget), e.key) == stored(s, e, budget).len() - 1,
        total(stored(s, e, budget)) <= budget,
{
    lemma_shed(s, e.bytes as int, budget);
    let left = shed(s, e.bytes as int, budget);
    let n = shed_count(s, e.bytes as int, budget);
    let t = stored(s, e, budget);
    lemma_total_push(left, e);
    assert forall|x: int, y: int| 0 <= x < y < t.len() implies (#[trigger] t[x]).key != (
    #[trigger] t[y]).key by {
        assert(t[x] == s[x + n]);
        if y < left.len() {
            assert(left[x].key != left[y].key);
        } else {
            assert(held(s, s[x + n].key));
        }
    }
    lemma_place(t, t.len() - 1);
}

/// Using an entry keeps every entry and changes only the order.
pub proof fn lemma_touch_keeps<T>(s: Seq<Entry<T>>, i: int, key: ChtKey)
    requires
        distinct(s),
        0 <= i < s.len(),
    ensures
        held(touched(s, i), key) == held(s, key),
        touched(s, i).last() == s[i],
        total(touched(s, i)) == total(s),
{
    let t = touched(s, i);
    lemma_total_remove(s, i);
    lemma_total_push(s.remove(i), s[i]);
    if held(s, key) {
        let p = place(s, key);
        let q = if p < i {
            p
        } else if p == i {
            t.len() - 1
        } else {
            p - 1
        };
        assert(t[q].key == key);
    }
    if held(t, key) {
        let q = place(t, key);
        let p = if q == t.len() - 1 {
            i
        } else if q < i {
            q
        } else {
            q + 1
        };
        assert(s[p].key == key);
    }
}

/// The bytes of all entries are the sum of the bytes of each.
pub proof fn lemma_total_is_sum<T>(s: Seq<Entry<T>>)
    ensures
        total(s) == s.fold_left(0int, |sum: int, e: Entry<T>| sum + e.bytes),
    decreases s.len(),
{
    if s.len() > 0 {
        let front = s.drop_last();
        lemma_total_is_sum(front);
        assert(s =~= front.push(s.last()));
        lemma_total_push(front, s.last());
    }
}

/// An entry is filed under a key where one of the entries has it, and where keys do not
/// repeat, its place is the only one.
pub proof fn lemma_held_place<T>(s: Seq<Entry<T>>, key: ChtKey)
    ensures
        held(s, key) <==> exists|i: int| 0 <= i < s.len() && (#[trigger] s[i]).key == key,
        held(s, key) ==> 0 <= place(s, key) < s.len() && s[place(s, key)].key == key,
        distinct(s) <==> forall|i: int, j: int|
            0 <= i < s.len() && 0 <= j < s.len() && (#[trigger] s[i]).key == (#[trigger] s[j]).key
                ==> i == j,
{
    if distinct(s) {
        assert forall|i: int, j: int|
            0 <= i < s.len() && 0 <= j < s.len() && (#[trigger] s[i]).key == (#[trigger] s[j]).key
            implies i == j by {
            if i < j {
                assert(s[i].key != s[j].key);
            } else if j < i {
                assert(s[j].key != s[i].key);
            }
        }
    }
}

/// Using an entry makes it the last and leaves all others as they stood: of any two other
/// entries, the one used longer ago still stands in front.
pub proof fn lemma_touch_keeps_order<T>(s: Seq<Entry<T>>, i: int)
    requires
        0 <= i < s.len(),
    ensures
        touched(s, i).len() == s.len(),
        touched(s, i)[s.len() - 1] == s[i],
        forall|x: int| 0 <= x < i ==> #[trigger] touched(s, i)[x] == s[x],
        forall|x: int| i < x < s.len() ==> touched(s, i)[x - 1] == #[trigger] s[x],
        forall|x: int, y: int|
            #![trigger s[x], s[y]]
            0 <= x < y < s.len() && x != i && y != i ==> {
                let p = if x < i {
                    x
                } else {
                    x - 1
                };
                let q = if y < i {
                    y
                } else {
                    y - 1
                };
                p < q && touched(s, i)[p] == s[x] && touched(s, i)[q] == s[y]
            },
{
}

/// Storing an entry that fits puts it last. Of the others the oldest go, in order, as many
/// as it takes and no more: `gone` of them, where with one less the rest and the new entry
/// would exceed the budget.
pub proof fn lemma_store_evicts_oldest<T>(s: Seq<Entry<T>>, e: Entry<T>, budget: int)
    requires
        e.bytes <= budget,
    ensures
        ({
            let gone = shed_count(s, e.bytes as int, budget);
            let t = stored(s, e, budget);
            &&& 0 <= gone <= s.len()
            &&& t.len() == s.len() - gone + 1
            &&& t[t.len() - 1] == e
            &&& forall|x: int| 0 <= x < s.len() - gone ==> #[trigger] t[x] == s[x + gone]
            &&& t.fold_left(0int, |sum: int, e: Entry<T>| sum + e.bytes) <= budget
            &&& gone > 0 ==> s.skip(gone - 1).fold_left(
                0int,
                |sum: int, e: Entry<T>| sum + e.bytes,
            ) + e.bytes > budget
        }),
{
    let gone = shed_count(s, e.bytes as int, budget);
    let left = shed(s, e.bytes as int, budget);
    lemma_shed(s, e.bytes as int, budget);
    lemma_total_push(left, e);
    lemma_total_is_sum(stored(s, e, budget));
    if gone > 0 {
        lemma_total_is_sum(s.skip(gone - 1));
    }
}

/// Counters add up in 64 bits.
pub proof fn lemma_wadd_counts(x: u64, n: int)
    requires
        n >= 0,
    ensures
        x + n <= u64::MAX ==> wadd(x, n) == x + n,
        (x + n - wadd(x, n)) % 0x1_0000_0000_0000_0000 == 0,
{
    let k = 0x1_0000_0000_0000_0000int;
    vstd::arithmetic::div_mod::lemma_fundamental_div_mod(x + n, k);
    vstd::arithmetic::div_mod::lemma_mod_multiples_basic((x + n) / k, k);
}

/// Dropping segments keeps the others in order: what is left is what was there without the
/// entries of those segments, one behind the other as before.
pub proof fn lemma_without_segments_keeps_order<T>(s: Seq<Entry<T>>, segments: Seq<SegmentId>)
    ensures
        without_segments(s, segments) == s.filter(
            |e: Entry<T>| !segments.contains(e.key.segment_id),
        ),
{
    assert((|e: Entry<T>| !in_segments(e.key, segments)) =~= (|e: Entry<T>|
        !segments.contains(e.key.segment_id)));
}

/// Dropping segments drops exactly their entries.
pub proof fn lemma_without_segments<T>(s: Seq<Entry<T>>, segments: Seq<SegmentId>, key: ChtKey)
    ensures
        held(without_segments(s, segments), key) == (held(s, key) && !in_segments(key, segments)),
    decreases s.len(),
{
    reveal(Seq::filter);
    let keep = |e: Entry<T>| !in_segments(e.key, segments);
    let t = without_segments(s, segments);
    if s.len() > 0 {
        let front = s.drop_last();
        lemma_without_segments(front, segments, key);
        let u = without_segments(front, segments);
        assert(s =~= front.push(s.last()));
        if held(front, key) {
            let i = place(front, key);
            assert(s[i].key == key);
        }
        if held(u, key) {
            let i = place(u, key);
            assert(t[i].key == key);
        }
        if s.last().key == key {
            assert(s[s.len() - 1].key == key);
            if keep(s.last()) {
                assert(t[t.len() - 1].key == key);
            }
        }
        if held(s, key) && s.last().key != key {
            let i = place(s, key);
            assert(front[i].key == key);
        }
        if held(t, key) {
            let i = place(t, key);
            if i < u.len() {
                assert(u[i].key == key);
            } else {
                assert(t[i] == s.last());
            }
        }
    }
}

} // verus!
