//! Streaming construction of posting lists.

use vstd::prelude::*;

use crate::run;
use crate::postings;
use crate::keyset;
use crate::container;
pub use crate::postings::{
    RoaringFormatError, RoaringPostings, RoaringPostingsIter, HEADER_MIN, MAGIC, VERSION_V1,
};

use crate::container::{ArrayContainer, BitmapContainer, Container, ARRAY_TO_BITMAP_THRESHOLD};

verus! {

/// Streaming encoder. Accepts doc-ids in any order; finalises into a
/// [`RoaringPostings`] with each per-bucket container individually optimised.
#[derive(Debug)]
pub struct RoaringEncoder {
    /// Buckets in ascending `high16` order, in array form up to the promotion
    /// threshold and in bitmap form above it.
    containers: Vec<(u16, Container)>,
    /// Total cardinality, kept in sync with `containers`.
    cardinality: u64,
}

/// Every bucket is populated and holds its keys in the smallest form: the list is
/// determined by its documents.
pub open spec fn canonical(cs: Seq<(u16, Container)>) -> bool {
    &&& postings::buckets_wf(cs)
    &&& forall|i: int|
        0 <= i < cs.len() ==> {
            &&& (#[trigger] cs[i]).1@.len() > 0
            &&& cs[i].1.form() == container::best_form(cs[i].1@.len(), keyset::run_count(cs[i].1@))
            &&& cs[i].1 matches Container::Run(r) ==> run::maximal(r.runs@)
        }
}

/// The buckets that hold a document of `docs`.
pub open spec fn populated(docs: Set<u32>, high: u16) -> bool {
    exists|d: u32| #[trigger] docs.contains(d) && d / 65536 == high
}

/// Insert a single low-16 key into the bucket container, promoting an array that
/// has reached the threshold to a bitmap first.
fn insert_low16(container: &mut Container, low16: u16)
    requires
        old(container).wf(),
        !old(container)@.contains(low16),
        old(container).form() == container::small_form(old(container)@.len()),
    ensures
        final(container).wf(),
        final(container)@ == old(container)@.insert(low16),
        final(container).form() == container::small_form(final(container)@.len()),
{
    proof {
        keyset::lemma_sorted_keys_spec(container@);
    }
    match container {
        Container::Array(a) => {
            if a.cardinality() >= ARRAY_TO_BITMAP_THRESHOLD {
                let mut bm = BitmapContainer::from_array(a);
                bm.insert(low16);
                *container = Container::Bitmap(bm);
            } else {
                a.insert(low16);
            }
        },
        Container::Bitmap(b) => {
            b.insert(low16);
        },
        Container::Run(r) => {
            let mut bm = BitmapContainer::from_run(r);
            bm.insert(low16);
            *container = Container::Bitmap(bm);
        },
    }
}

impl View for RoaringEncoder {
    type V = Set<u32>;

    /// The documents inserted so far.
    closed spec fn view(&self) -> Set<u32> {
        postings::bucket_docs(self.containers@)
    }
}

impl Default for RoaringEncoder {
    fn default() -> (r: Self)
        ensures
            r.wf(),
            r@ == Set::<u32>::empty(),
    {
        RoaringEncoder::new()
    }
}

impl RoaringEncoder {
    /// Buckets are populated, in ascending order, and hold their keys in array form
    /// up to the promotion threshold and in bitmap form above it.
    pub closed spec fn wf(&self) -> bool {
        &&& postings::buckets_wf(self.containers@)
        &&& forall|i: int|
            0 <= i < self.containers@.len() ==> {
                &&& (#[trigger] self.containers@[i]).1@.len() > 0
                &&& self.containers@[i].1.form()
                    == container::small_form(self.containers@[i].1@.len())
            }
        &&& self.cardinality == self@.len()
    }

    /// The bucket keys in ascending order.
    pub closed spec fn buckets(&self) -> Seq<u16> {
        Seq::new(self.containers@.len(), |i: int| self.containers@[i].0)
    }

    proof fn lemma_card(&self)
        requires
            postings::buckets_wf(self.containers@),
        ensures
            self@.finite(),
            self@.len() <= 0x1_0000_0000,
    {
        postings::lemma_docs_from(self.containers@, 0);
        let docs = crate::postings::docs_from(self.containers@, 0);
        keyset::lemma_docs_card(docs);
        assert(docs.to_set() =~= self@);
    }

    /// Empty encoder.
    pub fn new() -> (r: Self)
        ensures
            r.wf(),
            r@ == Set::<u32>::empty(),
    {
        let r = RoaringEncoder { containers: Vec::new(), cardinality: 0 };
        assert(r@ =~= Set::<u32>::empty());
        r
    }

    /// The first bucket whose key is not below `high16`.
    fn bucket_position(&self, high16: u16) -> (r: usize)
        requires
            self.wf(),
        ensures
            r <= self.containers@.len(),
            forall|i: int| 0 <= i < r ==> (#[trigger] self.containers@[i]).0 < high16,
            forall|i: int|
                r <= i < self.containers@.len() ==> (#[trigger] self.containers@[i]).0 >= high16,
    {
        let mut lo: usize = 0;
        let mut hi: usize = self.containers.len();
        while lo < hi
            invariant
                self.wf(),
                lo <= hi <= self.containers@.len(),
                forall|i: int| 0 <= i < lo ==> (#[trigger] self.containers@[i]).0 < high16,
                forall|i: int|
                    hi <= i < self.containers@.len() ==> (#[trigger] self.containers@[i]).0
                        >= high16,
            decreases hi - lo,
        {
            let mid: usize = lo + (hi - lo) / 2;
            if self.containers[mid].0 < high16 {
                assert forall|i: int| 0 <= i < mid implies (#[trigger] self.containers@[i]).0
                    < high16 by {
                    assert(self.containers@[i].0 < self.containers@[mid as int].0);
                }
                lo = mid + 1;
            } else {
                assert forall|i: int| mid < i < self.containers@.len() implies (
                #[trigger] self.containers@[i]).0 >= high16 by {
                    assert(self.containers@[mid as int].0 < self.containers@[i].0);
                }
                hi = mid;
            }
        }
        lo
    }

    /// Insert a single doc-id.
    pub fn add(&mut self, doc_id: u32)
        requires
            old(self).wf(),
        ensures
            final(self).wf(),
            final(self)@ == old(self)@.insert(doc_id),
    {
        let high16: u16 = (doc_id / 65536) as u16;
        let low16: u16 = (doc_id % 65536) as u16;
        let pos: usize = self.bucket_position(high16);
        let ghost a = self.containers@;
        if pos < self.containers.len() && self.containers[pos].0 == high16 {
            assert(a[pos as int].1.wf());
            assert(a[pos as int].1@.len() > 0);
            if self.containers[pos].1.contains(low16) {
                assert(postings::has_doc_from(a, 0, doc_id));
                assert(self@ =~= old(self)@.insert(doc_id));
                return;
            }
            insert_low16(&mut self.containers[pos].1, low16);
            let ghost b = self.containers@;
            proof {
                assert(b[pos as int].1@.contains(low16));
                keyset::lemma_sorted_keys_spec(b[pos as int].1@);
                assert(b =~= a.update(pos as int, b[pos as int]));
                assert forall|d: u32| postings::has_doc_from(b, 0, d)
                    == (postings::has_doc_from(a, 0, d) || d == doc_id) by {
                    lemma_same_bucket(a, b, pos as int, low16, d);
                }
                assert forall|x: int, y: int| 0 <= x < y < b.len() implies (#[trigger] b[x]).0 < (
                #[trigger] b[y]).0 by {
                    assert(a[x].0 < a[y].0);
                }
            }
        } else {
            let c = Container::Array(ArrayContainer::from_sorted(vec![low16]));
            proof {
                assert(seq![low16].contains(low16)) by {
                    assert(seq![low16][0] == low16);
                }
                assert(c@ =~= Set::<u16>::empty().insert(low16));
            }
            self.containers.insert(pos, (high16, c));
            let ghost b = self.containers@;
            proof {
                assert(b[pos as int] == (high16, c));
                assert forall|x: int| 0 <= x < b.len() && x != pos implies #[trigger] b[x] == a[if x
                    < pos { x } else { x - 1 }] by {}
                assert forall|d: u32| postings::has_doc_from(b, 0, d)
                    == (postings::has_doc_from(a, 0, d) || d == doc_id) by {
                    lemma_new_bucket(a, b, pos as int, low16, d);
                }
                assert forall|x: int, y: int| 0 <= x < y < b.len() implies (#[trigger] b[x]).0 < (
                #[trigger] b[y]).0 by {
                    let x0 = if x < pos { x } else { x - 1 };
                    let y0 = if y < pos { y } else { y - 1 };
                    if x != pos && y != pos {
                        assert(a[x0].0 < a[y0].0);
                    } else if x == pos {
                        assert(a[y0].0 >= high16);
                    } else {
                        assert(a[x0].0 < high16);
                    }
                }
            }
        }
        proof {
            assert(self@ =~= old(self)@.insert(doc_id));
            old(self).lemma_card();
            self.lemma_card();
            assert(!old(self)@.contains(doc_id)) by {
                if old(self)@.contains(doc_id) {
                    let j = choose|j: int|
                        0 <= j < a.len() && (#[trigger] a[j]).0 == doc_id / 65536
                            && a[j].1@.contains((doc_id % 65536) as u16);
                    if j < pos {
                        assert(a[j].0 < high16);
                    } else if j > pos {
                        assert(a[pos as int].0 < a[j].0);
                        assert(a[pos as int].0 >= high16);
                    }
                }
            }
        }
        self.cardinality = self.cardinality + 1;
    }

    /// Bulk insert. Identical semantics to repeated [`Self::add`].
    pub fn add_sorted(&mut self, ids: &[u32])
        requires
            old(self).wf(),
        ensures
            final(self).wf(),
            final(self)@ == old(self)@.union(ids@.to_set()),
    {
        let n: usize = ids.len();
        let mut i: usize = 0;
        while i < n
            invariant
                n == ids@.len(),
                i <= n,
                self.wf(),
                forall|d: u32| #[trigger]
                    self@.contains(d) <==> old(self)@.contains(d) || exists|j: int|
                        0 <= j < i && ids@[j] == d,
            decreases n - i,
        {
            self.add(ids[i]);
            i = i + 1;
            assert(ids@[i - 1] == ids@[i - 1]);
        }
        assert(self@ =~= old(self)@.union(ids@.to_set()));
    }

    /// Total cardinality (the count of distinct doc-ids inserted).
    pub fn cardinality(&self) -> (r: u64)
        requires
            self.wf(),
        ensures
            r == self@.len(),
    {
        self.cardinality
    }

    /// Number of populated buckets.
    pub fn num_containers(&self) -> (r: usize)
        requires
            self.wf(),
        ensures
            r == self.buckets().len(),
            keyset::increasing(self.buckets()),
            forall|h: u16| #[trigger] self.buckets().contains(h) <==> populated(self@, h),
    {
        proof {
            let cs = self.containers@;
            assert forall|i: int, j: int| 0 <= i < j < cs.len() implies self.buckets()[i]
                < self.buckets()[j] by {
                assert(cs[i].0 < cs[j].0);
            }
            assert forall|h: u16| #[trigger] self.buckets().contains(h)
                <==> populated(self@, h) by {
                if self.buckets().contains(h) {
                    let i = choose|i: int| 0 <= i < cs.len() && self.buckets()[i] == h;
                    let set = cs[i].1@;
                    assert(set.len() > 0);
                    keyset::lemma_sorted_keys_spec(set);
                    let k = keyset::sorted_keys(set)[0];
                    assert(keyset::sorted_keys(set).contains(k));
                    let d = crate::postings::doc_of(h, k);
                    assert(d / 65536 == h && (d % 65536) as u16 == k);
                    assert(cs[i].0 == d / 65536);
                    assert(self@.contains(d));
                }
                if populated(self@, h) {
                    let d = choose|d: u32| #[trigger] self@.contains(d) && d / 65536 == h;
                    let j = choose|j: int|
                        0 <= j < cs.len() && (#[trigger] cs[j]).0 == d / 65536
                            && cs[j].1@.contains((d % 65536) as u16);
                    assert(self.buckets()[j] == h);
                }
            }
        }
        self.containers.len()
    }

    /// Finalise: pick the best form for each bucket.
    pub fn finalize(self) -> (r: RoaringPostings)
        requires
            self.wf(),
        ensures
            r.wf(),
            r@ == self@,
            canonical(r.containers@),
    {
        let mut containers: Vec<(u16, Container)> = self.containers;
        let ghost a = containers@;
        let mut out: Vec<(u16, Container)> = Vec::new();
        while containers.len() > 0
            invariant
                postings::buckets_wf(a),
                forall|i: int|
                    0 <= i < a.len() ==> {
                        &&& (#[trigger] a[i]).1@.len() > 0
                        &&& a[i].1.form() == container::small_form(a[i].1@.len())
                    },
                containers@.len() + out@.len() == a.len(),
                forall|i: int|
                    0 <= i < containers@.len() ==> #[trigger] containers@[i] == a[i],
                forall|i: int|
                    0 <= i < out@.len() ==> {
                        &&& (#[trigger] out@[i]).0 == a[a.len() - 1 - i].0
                        &&& out@[i].1@ == a[a.len() - 1 - i].1@
                        &&& out@[i].1.wf()
                        &&& out@[i].1.form()
                            == container::best_form(out@[i].1@.len(), keyset::run_count(out@[i].1@))
                        &&& out@[i].1 matches Container::Run(r) ==> run::maximal(r.runs@)
                    },
            decreases containers@.len(),
        {
            let ghost at = containers@.len() - 1;
            assert(containers@[at] == a[at]);
            let last = containers.pop();
            match last {
                Some((high16, container)) => {
                    assert(a[at].1.wf());
                    let optimized: Container = container.optimize();
                    out.push((high16, optimized));
                },
                None => {},
            }
        }
        let mut sorted: Vec<(u16, Container)> = Vec::new();
        while out.len() > 0
            invariant
                postings::buckets_wf(a),
                forall|i: int| 0 <= i < a.len() ==> (#[trigger] a[i]).1@.len() > 0,
                out@.len() + sorted@.len() == a.len(),
                forall|i: int|
                    0 <= i < out@.len() ==> {
                        &&& (#[trigger] out@[i]).0 == a[a.len() - 1 - i].0
                        &&& out@[i].1@ == a[a.len() - 1 - i].1@
                        &&& out@[i].1.wf()
                        &&& out@[i].1.form()
                            == container::best_form(out@[i].1@.len(), keyset::run_count(out@[i].1@))
                        &&& out@[i].1 matches Container::Run(r) ==> run::maximal(r.runs@)
                    },
                forall|i: int|
                    0 <= i < sorted@.len() ==> {
                        &&& (#[trigger] sorted@[i]).0 == a[i].0
                        &&& sorted@[i].1@ == a[i].1@
                        &&& sorted@[i].1.wf()
                        &&& sorted@[i].1.form() == container::best_form(
                            sorted@[i].1@.len(),
                            keyset::run_count(sorted@[i].1@),
                        )
                        &&& sorted@[i].1 matches Container::Run(r) ==> run::maximal(r.runs@)
                    },
            decreases out@.len(),
        {
            let ghost top = out@[out@.len() - 1];
            match out.pop() {
                Some(e) => {
                    assert(e == top);
                    sorted.push(e);
                },
                None => {},
            }
        }
        let r = RoaringPostings { containers: sorted };
        proof {
            let b = r.containers@;
            assert forall|x: int, y: int| 0 <= x < y < b.len() implies (#[trigger] b[x]).0 < (
            #[trigger] b[y]).0 by {
                assert(a[x].0 < a[y].0);
            }
            assert forall|d: u32| r@.contains(d) == self@.contains(d) by {
                if postings::has_doc_from(a, 0, d) {
                    let j = choose|j: int|
                        0 <= j < a.len() && (#[trigger] a[j]).0 == d / 65536 && a[j].1@.contains(
                            (d % 65536) as u16,
                        );
                    assert(b[j].0 == d / 65536);
                }
                if postings::has_doc_from(b, 0, d) {
                    let j = choose|j: int|
                        0 <= j < b.len() && (#[trigger] b[j]).0 == d / 65536 && b[j].1@.contains(
                            (d % 65536) as u16,
                        );
                    assert(a[j].0 == d / 65536);
                }
            }
            assert(r@ =~= self@);
            assert forall|i: int| 0 <= i < b.len() implies (#[trigger] b[i]).1@.len() > 0 by {
                assert(a[i].1@.len() > 0);
            }
        }
        r
    }

    /// Build a posting list from document ids in any order.
    pub fn from_doc_ids(doc_ids: &[u32]) -> (r: RoaringPostings)
        ensures
            r.wf(),
            r@ == doc_ids@.to_set(),
            canonical(r.containers@),
    {
        let mut enc = RoaringEncoder::new();
        enc.add_sorted(doc_ids);
        assert(enc@ =~= doc_ids@.to_set());
        enc.finalize()
    }
}

/// A key added to bucket `pos` adds exactly its document.
proof fn lemma_same_bucket(
    a: Seq<(u16, Container)>,
    b: Seq<(u16, Container)>,
    pos: int,
    low: u16,
    d: u32,
)
    requires
        0 <= pos < a.len(),
        b == a.update(pos, b[pos]),
        b[pos].0 == a[pos].0,
        b[pos].1@ == a[pos].1@.insert(low),
    ensures
        postings::has_doc_from(b, 0, d) == (postings::has_doc_from(a, 0, d)
            || d == crate::postings::doc_of(
            a[pos].0,
            low,
        )),
{
    if postings::has_doc_from(b, 0, d) {
        let j = choose|j: int|
            0 <= j < b.len() && (#[trigger] b[j]).0 == d / 65536 && b[j].1@.contains(
                (d % 65536) as u16,
            );
        if j != pos {
            assert(a[j] == b[j]);
            assert(a[j].0 == d / 65536);
        } else if (d % 65536) as u16 != low {
            assert(a[pos].0 == d / 65536);
        }
    }
    if postings::has_doc_from(a, 0, d) {
        let j = choose|j: int|
            0 <= j < a.len() && (#[trigger] a[j]).0 == d / 65536 && a[j].1@.contains(
                (d % 65536) as u16,
            );
        if j != pos {
            assert(a[j] == b[j]);
        }
        assert(b[j].0 == d / 65536);
    }
    if d == crate::postings::doc_of(a[pos].0, low) {
        assert(b[pos].0 == d / 65536);
    }
}

/// A new bucket with one key adds exactly its document.
proof fn lemma_new_bucket(
    a: Seq<(u16, Container)>,
    b: Seq<(u16, Container)>,
    pos: int,
    low: u16,
    d: u32,
)
    requires
        0 <= pos <= a.len(),
        b.len() == a.len() + 1,
        forall|x: int|
            0 <= x < b.len() && x != pos ==> #[trigger] b[x] == a[if x < pos { x } else { x - 1 }],
        b[pos].1@ == Set::<u16>::empty().insert(low),
    ensures
        postings::has_doc_from(b, 0, d) == (postings::has_doc_from(a, 0, d)
            || d == crate::postings::doc_of(
            b[pos].0,
            low,
        )),
{
    if postings::has_doc_from(b, 0, d) {
        let j = choose|j: int|
            0 <= j < b.len() && (#[trigger] b[j]).0 == d / 65536 && b[j].1@.contains(
                (d % 65536) as u16,
            );
        if j != pos {
            let j0 = if j < pos { j } else { j - 1 };
            assert(a[j0].0 == d / 65536);
        }
    }
    if postings::has_doc_from(a, 0, d) {
        let j = choose|j: int|
            0 <= j < a.len() && (#[trigger] a[j]).0 == d / 65536 && a[j].1@.contains(
                (d % 65536) as u16,
            );
        let j1 = if j < pos { j } else { j + 1 };
        assert(b[j1] == a[j]);
        assert(b[j1].0 == d / 65536);
    }
    if d == crate::postings::doc_of(b[pos].0, low) {
        assert(b[pos].0 == d / 65536);
    }
}

} // verus!
