//! Sparse containers: a strictly increasing list of keys.

use vstd::prelude::*;

use crate::wire;
use crate::keyset;
use crate::error::ContainerError;
use crate::wire::{get_u16, get_u32, push_u16, push_u32, to_usize};

verus! {

/// Sparse container backed by a strictly increasing `Vec<u16>`.
///
/// Contained keys are kept sorted at all times; the constructors and `insert`
/// keep the invariant. `cardinality` is the same as `keys.len()`.
#[derive(Debug, PartialEq, Eq)]
pub struct ArrayContainer {
    /// Sorted, unique low-16 keys in this bucket.
    pub keys: Vec<u16>,
}

/// Iterator over the keys of an [`ArrayContainer`], in ascending order.
pub struct ArrayContainerIter<'a> {
    keys: &'a Vec<u16>,
    pos: usize,
}

/// The encoding of an array body: `[u32 cardinality LE][u16 key LE]*`.
pub open spec fn array_bytes(keys: Seq<u16>) -> Seq<u8> {
    wire::le32(keys.len() as u32) + wire::enc16(keys)
}

/// What an array body decodes to.
pub open spec fn parse_array(b: Seq<u8>) -> Result<Seq<u16>, ContainerError> {
    if b.len() < 4 {
        Err(ContainerError::Truncated { needed: 4, got: b.len() as usize })
    } else {
        let needed = 4 + 2 * wire::at32(b, 0);
        let keys = Seq::new(wire::at32(b, 0) as nat, |i: int| wire::at16(b, 4 + 2 * i));
        if b.len() < needed {
            Err(ContainerError::Truncated { needed: wire::clamp_usize(needed), got: b.len() as usize })
        } else if keyset::increasing(keys) {
            Ok(keys)
        } else {
            Err(ContainerError::ArrayUnsorted)
        }
    }
}

/// Pushing `v` adds exactly `v` to the elements.
pub proof fn lemma_push_has(s: Seq<u16>, v: u16)
    ensures
        forall|k: u16| #[trigger] s.push(v).contains(k) <==> s.contains(k) || k == v,
{
    let t = s.push(v);
    assert forall|k: u16| #[trigger] t.contains(k) <==> s.contains(k) || k == v by {
        if t.contains(k) {
            let i = choose|i: int| 0 <= i < t.len() && t[i] == k;
            if i < s.len() {
                assert(s[i] == k);
            }
        }
        if s.contains(k) {
            let i = choose|i: int| 0 <= i < s.len() && s[i] == k;
            assert(t[i] == k);
        }
        if k == v {
            assert(t[s.len() as int] == k);
        }
    }
}

/// A prefix grown by one has exactly one more element.
pub proof fn lemma_take_has(s: Seq<u16>, n: int)
    requires
        0 <= n < s.len(),
    ensures
        forall|k: u16| #[trigger] s.take(n + 1).contains(k) <==> s.take(n).contains(k) || k == s[n],
{
    assert(s.take(n + 1) =~= s.take(n).push(s[n]));
    lemma_push_has(s.take(n), s[n]);
}

/// The first index at or after `from` whose key is not below `key`.
pub(crate) fn lower_bound(keys: &Vec<u16>, from: usize, key: u16) -> (r: usize)
    requires
        keyset::increasing(keys@),
        from <= keys@.len(),
    ensures
        from <= r <= keys@.len(),
        forall|i: int| from <= i < r ==> keys@[i] < key,
        forall|i: int| r <= i < keys@.len() ==> key <= keys@[i],
{
    let mut lo: usize = from;
    let mut hi: usize = keys.len();
    while lo < hi
        invariant
            from <= lo <= hi <= keys@.len(),
            keyset::increasing(keys@),
            forall|i: int| from <= i < lo ==> keys@[i] < key,
            forall|i: int| hi <= i < keys@.len() ==> key <= keys@[i],
        decreases hi - lo,
    {
        let mid: usize = lo + (hi - lo) / 2;
        if keys[mid] < key {
            lo = mid + 1;
        } else {
            hi = mid;
        }
    }
    lo
}

/// Whether `keys` is strictly increasing.
fn is_strictly_increasing(keys: &Vec<u16>) -> (r: bool)
    ensures
        r == keyset::increasing(keys@),
{
    let n: usize = keys.len();
    let mut i: usize = 1;
    while i < n
        invariant
            n == keys@.len(),
            1 <= i,
            i <= n || n == 0,
            keyset::increasing(keys@.take(if i <= n { i as int } else { 0 })),
        decreases n - i,
    {
        if keys[i - 1] >= keys[i] {
            assert(!(keys@[i - 1] < keys@[i as int]));
            return false;
        }
        let ghost p = keys@.take(i as int);
        let ghost q = keys@.take(i + 1);
        assert forall|a: int, b: int| 0 <= a < b < q.len() implies q[a] < q[b] by {
            if b < i {
                assert(p[a] < p[b]);
            } else if a < i - 1 {
                assert(p[a] < p[i - 1]);
            }
        }
        i = i + 1;
    }
    if n > 0 {
        assert(keys@.take(n as int) =~= keys@);
    }
    true
}

/// Number of maximal runs of consecutive keys.
pub fn count_runs_in_array(arr: &ArrayContainer) -> (r: usize)
    requires
        arr.wf(),
    ensures
        r == keyset::run_count(arr@),
        r <= 65536,
{
    let n: usize = arr.keys.len();
    let mut runs: usize = 0;
    let mut i: usize = 0;
    while i < n
        invariant
            n == arr.keys@.len(),
            arr.wf(),
            i <= n,
            runs <= i,
            runs == keyset::runs_below(arr@, if i == 0 { 0 } else { arr.keys@[i - 1] + 1 }),
        decreases n - i,
    {
        let k: u16 = arr.keys[i];
        let ghost from = if i == 0 { 0 } else { arr.keys@[i - 1] + 1 };
        if i == 0 || k as u32 > arr.keys[i - 1] as u32 + 1 {
            runs = runs + 1;
        }
        proof {
            if i > 0 {
                assert(arr.keys@[i - 1] < arr.keys@[i as int]);
                assert(arr.keys@.contains(arr.keys@[i - 1]));
            }
            assert forall|x: u16| from <= x < k implies !arr@.contains(x) by {
                if arr.keys@.contains(x) {
                    let z = choose|z: int| 0 <= z < n && arr.keys@[z] == x;
                    if z < i {
                        assert(arr.keys@[z] <= arr.keys@[i - 1]);
                    }
                }
            }
            lemma_runs_gap(arr@, from, k as int);
            assert(arr.keys@.contains(k));
        }
        i = i + 1;
    }
    proof {
        let from = if n == 0 { 0 } else { arr.keys@[n - 1] + 1 };
        assert forall|x: u16| from <= x < 65536 implies !arr@.contains(x) by {
            if arr.keys@.contains(x) {
                let z = choose|z: int| 0 <= z < n && arr.keys@[z] == x;
                assert(arr.keys@[z] <= arr.keys@[n - 1]);
            }
        }
        lemma_runs_gap(arr@, from, 65536);
        arr.lemma_view();
    }
    runs
}

/// No run opens where there are no keys.
proof fn lemma_runs_gap(set: Set<u16>, lo: int, hi: int)
    requires
        0 <= lo <= hi <= 65536,
        forall|x: u16| lo <= x < hi ==> !set.contains(x),
    ensures
        keyset::runs_below(set, hi) == keyset::runs_below(set, lo),
    decreases hi - lo,
{
    if lo < hi {
        lemma_runs_gap(set, lo, hi - 1);
        assert(!set.contains((hi - 1) as u16));
    }
}

impl View for ArrayContainer {
    type V = Set<u16>;

    /// The keys in this bucket.
    open spec fn view(&self) -> Set<u16> {
        self.keys@.to_set()
    }
}

impl Default for ArrayContainer {
    fn default() -> (r: Self)
        ensures
            r.wf(),
            r.keys@ == Seq::<u16>::empty(),
    {
        ArrayContainer::new()
    }
}

impl Clone for ArrayContainer {
    fn clone(&self) -> (r: Self)
        ensures
            r.keys@ == self.keys@,
    {
        let keys: Vec<u16> = self.keys.clone();
        assert(keys@ =~= self.keys@);
        ArrayContainer { keys }
    }
}

impl ArrayContainer {
    /// The keys are strictly increasing.
    pub open spec fn wf(&self) -> bool {
        keyset::increasing(self.keys@)
    }

    /// A well-formed array is the ascending enumeration of its key set.
    pub proof fn lemma_view(&self)
        requires
            self.wf(),
        ensures
            self.keys@ == keyset::sorted_keys(self@),
            self@.finite(),
            self@.len() == self.keys@.len(),
            self.keys@.len() <= 65536,
    {
        assert forall|k: u16| self.keys@.contains(k) <==> self@.contains(k) by {}
        keyset::lemma_sorted_keys(self.keys@, self@);
        keyset::lemma_increasing_len(self.keys@);
    }

    /// Empty array container.
    pub fn new() -> (r: Self)
        ensures
            r.wf(),
            r.keys@ == Seq::<u16>::empty(),
            r@ == Set::<u16>::empty(),
    {
        let r = ArrayContainer { keys: Vec::new() };
        assert(r@ =~= Set::<u16>::empty());
        r
    }

    /// Build from sorted unique keys without the per-key search of
    /// [`Self::insert`].
    ///
    /// Keys that are not strictly increasing are sorted and deduplicated.
    pub fn from_sorted(keys: Vec<u16>) -> (r: Self)
        ensures
            r.wf(),
            r@ == keys@.to_set(),
            keyset::increasing(keys@) ==> r.keys@ == keys@,
    {
        if is_strictly_increasing(&keys) {
            return ArrayContainer { keys };
        }
        let mut r = ArrayContainer::new();
        let n: usize = keys.len();
        let mut i: usize = 0;
        assert(keys@.take(0).to_set() =~= Set::<u16>::empty());
        while i < n
            invariant
                i <= n,
                n == keys@.len(),
                r.wf(),
                r@ == keys@.take(i as int).to_set(),
            decreases n - i,
        {
            r.insert(keys[i]);
            proof {
                lemma_take_has(keys@, i as int);
                assert(r@ =~= keys@.take(i + 1).to_set());
            }
            i = i + 1;
        }
        assert(keys@.take(n as int) =~= keys@);
        r
    }

    /// Insert `key`, keeping the `keys` invariant. No-op if the key is already
    /// present.
    pub fn insert(&mut self, key: u16)
        requires
            old(self).wf(),
        ensures
            final(self).wf(),
            final(self)@ == old(self)@.insert(key),
    {
        let pos: usize = lower_bound(&self.keys, 0, key);
        if pos < self.keys.len() && self.keys[pos] == key {
            assert(self@ =~= old(self)@.insert(key));
        } else {
            self.keys.insert(pos, key);
            let ghost a = old(self).keys@;
            let ghost b = self.keys@;
            assert forall|k: u16| self@.contains(k) <==> old(self)@.insert(key).contains(k) by {
                if b.contains(k) {
                    let i = choose|i: int| 0 <= i < b.len() && b[i] == k;
                    if i < pos {
                        assert(a[i] == k);
                    } else if i > pos {
                        assert(a[i - 1] == k);
                    }
                }
                if a.contains(k) {
                    let i = choose|i: int| 0 <= i < a.len() && a[i] == k;
                    if i < pos {
                        assert(b[i] == k);
                    } else {
                        assert(b[i + 1] == k);
                    }
                }
                if k == key {
                    assert(b[pos as int] == k);
                }
            }
            assert(self@ =~= old(self)@.insert(key));
        }
    }

    /// True iff `key` is in this container.
    pub fn contains(&self, key: u16) -> (r: bool)
        requires
            self.wf(),
        ensures
            r == self@.contains(key),
    {
        let pos: usize = lower_bound(&self.keys, 0, key);
        if pos < self.keys.len() && self.keys[pos] == key {
            assert(self.keys@.contains(key));
            true
        } else {
            false
        }
    }

    /// Number of set bits. Always equal to `self.keys.len()`.
    pub fn cardinality(&self) -> (r: u32)
        requires
            self.wf(),
        ensures
            r == self@.len(),
            r == self.keys@.len(),
            r <= 65536,
    {
        proof {
            self.lemma_view();
        }
        self.keys.len() as u32
    }

    /// Iterator over the sorted keys.
    pub fn iter(&self) -> (r: ArrayContainerIter<'_>)
        requires
            self.wf(),
        ensures
            r.wf(),
            r.remaining() == keyset::sorted_keys(self@),
    {
        proof {
            self.lemma_view();
            assert(self.keys@.skip(0) =~= self.keys@);
        }
        ArrayContainerIter { keys: &self.keys, pos: 0 }
    }

    /// Iterator over the sorted keys from `key` on.
    pub fn iter_from(&self, key: u16) -> (r: ArrayContainerIter<'_>)
        requires
            self.wf(),
        ensures
            r.wf(),
            r.remaining() == keyset::sorted_keys(keyset::at_or_after(self@, key)),
    {
        let pos: usize = lower_bound(&self.keys, 0, key);
        let r = ArrayContainerIter { keys: &self.keys, pos };
        proof {
            let s = r.remaining();
            let want = keyset::at_or_after(self@, key);
            assert forall|k: u16| s.contains(k) <==> want.contains(k) by {
                if s.contains(k) {
                    let i = choose|i: int| 0 <= i < s.len() && s[i] == k;
                    assert(self.keys@[pos + i] == k);
                }
                if want.contains(k) {
                    let i = choose|i: int| 0 <= i < self.keys@.len() && self.keys@[i] == k;
                    assert(s[i - pos] == k);
                }
            }
            keyset::lemma_sorted_keys(s, want);
        }
        r
    }

    /// The keys of both containers.
    ///
    /// Both inputs are sorted. Inputs of similar size are merged; where one side
    /// is at least 32 times larger, each key of the smaller side is searched in
    /// what is left of the larger one.
    pub fn and(&self, other: &ArrayContainer) -> (r: ArrayContainer)
        requires
            self.wf(),
            other.wf(),
        ensures
            r.wf(),
            r@ == self@.intersect(other@),
    {
        let r = if self.keys.len() <= other.keys.len() {
            intersect_keys(&self.keys, &other.keys)
        } else {
            intersect_keys(&other.keys, &self.keys)
        };
        let out = ArrayContainer { keys: r };
        assert(out@ =~= self@.intersect(other@));
        out
    }

    /// On-disk encoding: `[u32 cardinality LE][u16 key LE]*`.
    pub fn to_bytes(&self) -> (r: Vec<u8>)
        requires
            self.wf(),
        ensures
            r@ == array_bytes(self.keys@),
    {
        let mut out: Vec<u8> = Vec::new();
        push_u32(&mut out, self.cardinality());
        let n: usize = self.keys.len();
        let mut i: usize = 0;
        assert(wire::enc16(self.keys@.take(0)) =~= Seq::<u8>::empty());
        while i < n
            invariant
                i <= n,
                n == self.keys@.len(),
                out@ == wire::le32(n as u32) + wire::enc16(self.keys@.take(i as int)),
            decreases n - i,
        {
            push_u16(&mut out, self.keys[i]);
            proof {
                wire::lemma_enc16_push(self.keys@.take(i as int), self.keys@[i as int]);
                assert(self.keys@.take(i + 1) =~= self.keys@.take(i as int).push(
                    self.keys@[i as int],
                ));
                assert(out@ =~= wire::le32(n as u32) + wire::enc16(self.keys@.take(i + 1)));
            }
            i = i + 1;
        }
        assert(self.keys@.take(n as int) =~= self.keys@);
        out
    }

    /// Inverse of [`Self::to_bytes`].
    pub fn from_bytes(slice: &[u8]) -> (r: Result<Self, ContainerError>)
        ensures
            match r {
                Ok(a) => a.wf() && parse_array(slice@) == Ok::<Seq<u16>, ContainerError>(a.keys@),
                Err(e) => parse_array(slice@) == Err::<Seq<u16>, ContainerError>(e),
            },
    {
        if slice.len() < 4 {
            return Err(ContainerError::Truncated { needed: 4, got: slice.len() });
        }
        let card: u32 = get_u32(slice, 0);
        let needed: u64 = 4 + 2 * (card as u64);
        if (slice.len() as u64) < needed {
            return Err(ContainerError::Truncated { needed: to_usize(needed), got: slice.len() });
        }
        let n: usize = card as usize;
        let ghost want = Seq::new(n as nat, |i: int| wire::at16(slice@, 4 + 2 * i));
        let mut keys: Vec<u16> = Vec::new();
        let mut i: usize = 0;
        while i < n
            invariant
                i <= n,
                n == wire::at32(slice@, 0),
                4 + 2 * n <= slice.len(),
                slice.len() == slice@.len(),
                want == Seq::new(n as nat, |i: int| wire::at16(slice@, 4 + 2 * i)),
                keys@ == want.take(i as int),
                keyset::increasing(keys@),
            decreases n - i,
        {
            let k: u16 = get_u16(slice, 4 + 2 * i);
            assert(k == want[i as int]);
            if i > 0 && k <= keys[i - 1] {
                assert(want[i - 1] >= want[i as int]);
                assert(!keyset::increasing(want));
                return Err(ContainerError::ArrayUnsorted);
            }
            let ghost before = keys@;
            keys.push(k);
            proof {
                assert(keys@ =~= want.take(i + 1));
                assert forall|a: int, b: int| 0 <= a < b < keys@.len()
                    implies keys@[a] < keys@[b] by {
                    if b < i {
                        assert(before[a] < before[b]);
                    } else if a < i - 1 {
                        assert(before[a] < before[i - 1]);
                    }
                }
            }
            i = i + 1;
        }
        assert(want.take(n as int) =~= want);
        Ok(ArrayContainer { keys })
    }
}

/// The keys of two sorted lists, `small` being no longer than `large`.
fn intersect_keys(small: &Vec<u16>, large: &Vec<u16>) -> (out: Vec<u16>)
    requires
        keyset::increasing(small@),
        keyset::increasing(large@),
        small@.len() <= large@.len(),
    ensures
        keyset::increasing(out@),
        forall|k: u16| #[trigger]
            out@.contains(k) <==> small@.contains(k) && large@.contains(k),
{
    let divisor: usize = if small.len() > 0 {
        small.len()
    } else {
        1
    };
    if large.len() / divisor < 32 {
        merge_and(small, large)
    } else {
        gallop_and(small, large)
    }
}

/// Linear-merge intersection.
fn merge_and(a: &Vec<u16>, b: &Vec<u16>) -> (out: Vec<u16>)
    requires
        keyset::increasing(a@),
        keyset::increasing(b@),
    ensures
        keyset::increasing(out@),
        forall|k: u16| #[trigger] out@.contains(k) <==> a@.contains(k) && b@.contains(k),
{
    let mut out: Vec<u16> = Vec::new();
    let mut i: usize = 0;
    let mut j: usize = 0;
    while i < a.len() && j < b.len()
        invariant
            i <= a@.len(),
            j <= b@.len(),
            keyset::increasing(a@),
            keyset::increasing(b@),
            keyset::increasing(out@),
            forall|k: u16| #[trigger]
                out@.contains(k) <==> a@.take(i as int).contains(k) && b@.contains(k),
            i < a@.len() ==> forall|x: int| 0 <= x < out@.len() ==> out@[x] < a@[i as int],
            i < a@.len() && j > 0 ==> b@[j - 1] < a@[i as int],
        decreases a.len() - i + b.len() - j,
    {
        let x: u16 = a[i];
        let y: u16 = b[j];
        let ghost o = out@;
        if x == y {
            out.push(x);
            proof {
                lemma_push_has(o, x);
                lemma_take_has(a@, i as int);
                assert(b@.contains(x));
            }
            i = i + 1;
            j = j + 1;
        } else if x < y {
            proof {
                lemma_take_has(a@, i as int);
                if b@.contains(x) {
                    let z = choose|z: int| 0 <= z < b@.len() && b@[z] == x;
                    if z < j {
                        assert(b@[z] <= b@[j - 1]);
                    }
                }
            }
            i = i + 1;
        } else {
            j = j + 1;
        }
    }
    proof {
        assert forall|k: u16| #[trigger] out@.contains(k) <==> a@.contains(k) && b@.contains(k) by {
            if a@.contains(k) {
                let z = choose|z: int| 0 <= z < a@.len() && a@[z] == k;
                if z < i {
                    assert(a@.take(i as int)[z] == k);
                } else if b@.contains(k) {
                    let w = choose|w: int| 0 <= w < b@.len() && b@[w] == k;
                    assert(b@[w] <= b@[j - 1]);
                    assert(a@[i as int] <= a@[z]);
                }
            }
            if a@.take(i as int).contains(k) {
                let z = choose|z: int|
                    0 <= z < a@.take(i as int).len() && a@.take(i as int)[z] == k;
                assert(a@[z] == k);
            }
        }
    }
    out
}

/// Intersection by searching each key of the smaller side.
fn gallop_and(small: &Vec<u16>, large: &Vec<u16>) -> (out: Vec<u16>)
    requires
        keyset::increasing(small@),
        keyset::increasing(large@),
    ensures
        keyset::increasing(out@),
        forall|k: u16| #[trigger]
            out@.contains(k) <==> small@.contains(k) && large@.contains(k),
{
    let mut out: Vec<u16> = Vec::new();
    let mut start: usize = 0;
    let mut i: usize = 0;
    while i < small.len() && start < large.len()
        invariant
            i <= small@.len(),
            start <= large@.len(),
            keyset::increasing(small@),
            keyset::increasing(large@),
            keyset::increasing(out@),
            forall|k: u16| #[trigger]
                out@.contains(k) <==> small@.take(i as int).contains(k) && large@.contains(k),
            i < small@.len() ==> forall|x: int|
                0 <= x < out@.len() ==> out@[x] < small@[i as int],
            i < small@.len() ==> forall|x: int|
                0 <= x < start ==> large@[x] < small@[i as int],
        decreases small.len() - i,
    {
        let k: u16 = small[i];
        let ghost o = out@;
        let pos: usize = lower_bound(large, start, k);
        proof {
            lemma_take_has(small@, i as int);
        }
        if pos < large.len() && large[pos] == k {
            out.push(k);
            proof {
                lemma_push_has(o, k);
                assert(large@.contains(k));
            }
            start = pos + 1;
        } else {
            proof {
                if large@.contains(k) {
                    let z = choose|z: int| 0 <= z < large@.len() && large@[z] == k;
                    assert(false);
                }
            }
            start = pos;
        }
        i = i + 1;
    }
    proof {
        assert forall|k: u16| #[trigger]
            out@.contains(k) <==> small@.contains(k) && large@.contains(k) by {
            if small@.contains(k) {
                let z = choose|z: int| 0 <= z < small@.len() && small@[z] == k;
                if z < i {
                    assert(small@.take(i as int)[z] == k);
                } else if large@.contains(k) {
                    let w = choose|w: int| 0 <= w < large@.len() && large@[w] == k;
                    assert(small@[i as int] <= small@[z]);
                }
            }
            if small@.take(i as int).contains(k) {
                let z = choose|z: int|
                    0 <= z < small@.take(i as int).len() && small@.take(i as int)[z] == k;
                assert(small@[z] == k);
            }
        }
    }
    out
}

/// Linear-merge union.
pub(crate) fn merge_or(a: &Vec<u16>, b: &Vec<u16>) -> (out: Vec<u16>)
    requires
        keyset::increasing(a@),
        keyset::increasing(b@),
    ensures
        keyset::increasing(out@),
        forall|k: u16| #[trigger] out@.contains(k) <==> a@.contains(k) || b@.contains(k),
{
    let mut out: Vec<u16> = Vec::new();
    let mut i: usize = 0;
    let mut j: usize = 0;
    while i < a.len() || j < b.len()
        invariant
            i <= a@.len(),
            j <= b@.len(),
            keyset::increasing(a@),
            keyset::increasing(b@),
            keyset::increasing(out@),
            forall|k: u16| #[trigger]
                out@.contains(k) <==> a@.take(i as int).contains(k) || b@.take(j as int).contains(
                    k,
                ),
            i < a@.len() ==> forall|x: int| 0 <= x < out@.len() ==> out@[x] < a@[i as int],
            j < b@.len() ==> forall|x: int| 0 <= x < out@.len() ==> out@[x] < b@[j as int],
        decreases a.len() - i + b.len() - j,
    {
        let ghost o = out@;
        if j >= b.len() || (i < a.len() && a[i] < b[j]) {
            out.push(a[i]);
            proof {
                lemma_push_has(o, a@[i as int]);
                lemma_take_has(a@, i as int);
            }
            i = i + 1;
        } else if i >= a.len() || b[j] < a[i] {
            out.push(b[j]);
            proof {
                lemma_push_has(o, b@[j as int]);
                lemma_take_has(b@, j as int);
            }
            j = j + 1;
        } else {
            out.push(a[i]);
            proof {
                lemma_push_has(o, a@[i as int]);
                lemma_take_has(a@, i as int);
                lemma_take_has(b@, j as int);
            }
            i = i + 1;
            j = j + 1;
        }
    }
    assert(a@.take(i as int) =~= a@);
    assert(b@.take(j as int) =~= b@);
    out
}

/// Linear-merge symmetric difference.
pub(crate) fn merge_xor(a: &Vec<u16>, b: &Vec<u16>) -> (out: Vec<u16>)
    requires
        keyset::increasing(a@),
        keyset::increasing(b@),
    ensures
        keyset::increasing(out@),
        forall|k: u16| #[trigger] out@.contains(k) <==> a@.contains(k) != b@.contains(k),
{
    let mut out: Vec<u16> = Vec::new();
    let mut i: usize = 0;
    let mut j: usize = 0;
    while i < a.len() || j < b.len()
        invariant
            i <= a@.len(),
            j <= b@.len(),
            keyset::increasing(a@),
            keyset::increasing(b@),
            keyset::increasing(out@),
            forall|k: u16| #[trigger]
                out@.contains(k) <==> a@.take(i as int).contains(k) != b@.take(j as int).contains(
                    k,
                ),
            i < a@.len() ==> forall|x: int| 0 <= x < out@.len() ==> out@[x] < a@[i as int],
            j < b@.len() ==> forall|x: int| 0 <= x < out@.len() ==> out@[x] < b@[j as int],
            i < a@.len() && j > 0 ==> b@[j - 1] < a@[i as int],
            j < b@.len() && i > 0 ==> a@[i - 1] < b@[j as int],
        decreases a.len() - i + b.len() - j,
    {
        let ghost o = out@;
        proof {
            if i < a@.len() {
                assert(!b@.take(j as int).contains(a@[i as int])) by {
                    if b@.take(j as int).contains(a@[i as int]) {
                        let z = choose|z: int| 0 <= z < j && b@.take(j as int)[z] == a@[i as int];
                        assert(b@[z] <= b@[j - 1]);
                    }
                }
                assert(!a@.take(i as int).contains(a@[i as int])) by {
                    if a@.take(i as int).contains(a@[i as int]) {
                        let z = choose|z: int| 0 <= z < i && a@.take(i as int)[z] == a@[i as int];
                        assert(a@[z] < a@[i as int]);
                    }
                }
            }
            if j < b@.len() {
                assert(!a@.take(i as int).contains(b@[j as int])) by {
                    if a@.take(i as int).contains(b@[j as int]) {
                        let z = choose|z: int| 0 <= z < i && a@.take(i as int)[z] == b@[j as int];
                        assert(a@[z] <= a@[i - 1]);
                    }
                }
                assert(!b@.take(j as int).contains(b@[j as int])) by {
                    if b@.take(j as int).contains(b@[j as int]) {
                        let z = choose|z: int| 0 <= z < j && b@.take(j as int)[z] == b@[j as int];
                        assert(b@[z] < b@[j as int]);
                    }
                }
            }
        }
        if j >= b.len() || (i < a.len() && a[i] < b[j]) {
            out.push(a[i]);
            proof {
                lemma_push_has(o, a@[i as int]);
                lemma_take_has(a@, i as int);
            }
            i = i + 1;
        } else if i >= a.len() || b[j] < a[i] {
            out.push(b[j]);
            proof {
                lemma_push_has(o, b@[j as int]);
                lemma_take_has(b@, j as int);
            }
            j = j + 1;
        } else {
            // Present on both sides: dropped.
            proof {
                lemma_take_has(a@, i as int);
                lemma_take_has(b@, j as int);
            }
            i = i + 1;
            j = j + 1;
        }
    }
    assert(a@.take(i as int) =~= a@);
    assert(b@.take(j as int) =~= b@);
    out
}

impl<'a> ArrayContainerIter<'a> {
    /// The position lies within the keys.
    pub closed spec fn wf(&self) -> bool {
        self.pos <= self.keys@.len()
    }

    /// The keys still to come.
    pub closed spec fn remaining(&self) -> Seq<u16> {
        self.keys@.skip(self.pos as int)
    }

    /// The next key, in ascending order.
    pub fn next(&mut self) -> (r: Option<u16>)
        requires
            old(self).wf(),
        ensures
            final(self).wf(),
            match r {
                Some(k) => old(self).remaining().len() > 0 && k == old(self).remaining()[0]
                    && final(self).remaining() == old(self).remaining().drop_first(),
                None => old(self).remaining().len() == 0
                    && final(self).remaining() == old(self).remaining(),
            },
    {
        if self.pos < self.keys.len() {
            let k: u16 = self.keys[self.pos];
            self.pos = self.pos + 1;
            assert(self.remaining() =~= old(self).remaining().drop_first());
            Some(k)
        } else {
            None
        }
    }

    /// All keys still to come.
    pub fn collect(self) -> (r: Vec<u16>)
        requires
            self.wf(),
        ensures
            r@ == self.remaining(),
    {
        let mut it = self;
        let mut out: Vec<u16> = Vec::new();
        let ghost all = self.remaining();
        assert(all =~= out@ + it.remaining());
        loop
            invariant
                it.wf(),
                all == out@ + it.remaining(),
            ensures
                out@ == all,
            decreases it.remaining().len(),
        {
            match it.next() {
                Some(k) => {
                    out.push(k);
                    assert(all =~= out@ + it.remaining());
                },
                None => {
                    assert(all =~= out@);
                    break;
                },
            }
        }
        out
    }
}

/// Decoding an encoded array gives its keys back.
pub proof fn lemma_array_round_trip(keys: Seq<u16>, tail: Seq<u8>)
    requires
        keyset::increasing(keys),
    ensures
        parse_array(array_bytes(keys) + tail) == Ok::<Seq<u16>, ContainerError>(keys),
{
    keyset::lemma_increasing_len(keys);
    let b = array_bytes(keys) + tail;
    let n = keys.len() as u32;
    assert(wire::holds_at(b, 0, wire::le32(n))) by {
        assert forall|i: int| 0 <= i < 4 implies b[0 + i] == #[trigger] wire::le32(n)[i] by {}
    }
    wire::lemma_at32(b, 0, n);
    assert(wire::holds_at(b, 4, wire::enc16(keys))) by {
        assert forall|i: int| 0 <= i < wire::enc16(keys).len()
            implies b[4 + i] == #[trigger] wire::enc16(
            keys,
        )[i] by {}
    }
    let got = Seq::new(wire::at32(b, 0) as nat, |i: int| wire::at16(b, 4 + 2 * i));
    assert forall|i: int| 0 <= i < keys.len() implies got[i] == keys[i] by {
        wire::lemma_enc16_at(b, 4, keys, i);
    }
    assert(got =~= keys);
}

} // verus!
