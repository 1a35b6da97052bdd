//! Dense expansion of a posting list, shared by the device cache tiers.

use vstd::prelude::*;

use crate::bitmap;
use crate::canonical;
use crate::flat;
use crate::keyset;
use crate::postings;

use crate::bitmap::BitmapContainer;
use crate::container::Container;
use crate::postings::RoaringPostings;
use crate::BITMAP_CONTAINER_WORDS;

verus! {

/// Bitmap representation produced by container-to-bitmap expansion.
///
/// - `bucket_index.len() == bucket_count`
/// - `total_words == bucket_count * BITMAP_CONTAINER_WORDS`
/// - `staging.len() == total_words`
/// - `bucket_index` is sorted in ascending `high16` order and holds no empty bucket.
/// - For bucket `i`, the 2048 words of `staging` from `bucket_index[i].1` on hold
///   the bitmap form of the container at `bucket_index[i].0`.
#[derive(Debug)]
pub struct SharedBitmapPayload {
    /// `(high16, word_offset)` for each non-empty bucket; `word_offset` is in `u32`
    /// units relative to the start of `staging`.
    pub bucket_index: Vec<(u16, u32)>,
    /// Number of non-empty buckets.
    pub bucket_count: usize,
    /// Total `u32` words across all buckets.
    pub total_words: usize,
    /// Host-side flat staging buffer.
    pub staging: Vec<u32>,
}

/// The bucket keys of an index.
pub open spec fn index_keys(index: Seq<(u16, u32)>) -> Seq<u16> {
    Seq::new(index.len(), |i: int| index[i].0)
}

/// Ascending bucket keys, laid out 2048 words apart.
pub open spec fn index_wf(index: Seq<(u16, u32)>) -> bool {
    &&& keyset::increasing(index_keys(index))
    &&& forall|i: int| 0 <= i < index.len() ==> (#[trigger] index[i]).1 == 2048 * i
}

/// Some document of `docs` is in bucket `high`.
pub open spec fn has_high(docs: Set<u32>, high: u16) -> bool {
    exists|low: u16| docs.contains(#[trigger] postings::doc_of(high, low))
}

/// The keys of the non-empty buckets of a document set, ascending.
pub open spec fn high_keys(docs: Set<u32>) -> Seq<u16> {
    keyset::sorted_keys(Set::new(|high: u16| has_high(docs, high)))
}

/// Bytes of a document set in expanded form: 8192 for each non-empty bucket.
pub open spec fn expanded_bytes(docs: Set<u32>) -> int {
    8192int * high_keys(docs).len()
}

/// The bitmap form of a container.
pub(crate) fn bitmap_of(container: &Container) -> (r: BitmapContainer)
    requires
        container.wf(),
    ensures
        r@ == container@,
{
    match container {
        Container::Bitmap(b) => b.clone(),
        Container::Array(a) => BitmapContainer::from_array(a),
        Container::Run(r) => BitmapContainer::from_run(r),
    }
}

/// Append the words of a bitmap.
pub(crate) fn push_words(out: &mut Vec<u32>, bm: &BitmapContainer)
    ensures
        final(out)@ == old(out)@ + bm.words@,
{
    let mut i: usize = 0;
    while i < BITMAP_CONTAINER_WORDS
        invariant
            i <= 2048,
            out@ == old(out)@ + bm.words@.take(i as int),
        decreases 2048 - i,
    {
        out.push(bm.words[i]);
        i = i + 1;
        assert(out@ =~= old(out)@ + bm.words@.take(i as int));
    }
    assert(bm.words@.take(2048) =~= bm.words@);
}

impl SharedBitmapPayload {
    /// The layout invariants hold.
    pub open spec fn wf(&self) -> bool {
        &&& index_wf(self.bucket_index@)
        &&& self.bucket_count == self.bucket_index@.len()
        &&& 0 < self.bucket_count <= 65536
        &&& self.total_words == 2048 * self.bucket_count
        &&& self.staging@.len() == self.total_words
        &&& forall|i: int|
            0 <= i < self.bucket_index@.len()
                ==> bitmap::word_set(#[trigger] flat::window(self.staging@, i)).len()
                > 0
    }

    /// The documents in the staging buffer.
    pub open spec fn docs(&self) -> Set<u32> {
        flat::flat_docs(index_keys(self.bucket_index@), self.staging@)
    }

    /// The payload is the expansion of `docs`.
    pub open spec fn expands(&self, docs: Set<u32>) -> bool {
        self.wf() && self.docs() == docs
    }

    /// The buckets of a payload are the non-empty buckets of its documents.
    pub proof fn lemma_keys(&self)
        requires
            self.wf(),
        ensures
            index_keys(self.bucket_index@) == high_keys(self.docs()),
            4 * self.total_words == expanded_bytes(self.docs()),
    {
        let keys = index_keys(self.bucket_index@);
        let set = Set::new(|high: u16| has_high(self.docs(), high));
        assert forall|h: u16| keys.contains(h) <==> set.contains(h) by {
            if keys.contains(h) {
                let i = choose|i: int| 0 <= i < keys.len() && keys[i] == h;
                let w = bitmap::word_set(flat::window(self.staging@, i));
                assert(w.len() > 0);
                keyset::lemma_sorted_keys_spec(w);
                let k = keyset::sorted_keys(w)[0];
                assert(keyset::sorted_keys(w).contains(k));
                let d = postings::doc_of(h, k);
                assert(d / 65536 == h && (d % 65536) as u16 == k);
                assert(w.contains(k));
                assert(bitmap::has_bit(flat::window(self.staging@, i), k));
                flat::lemma_flat_bucket(keys, self.staging@, i, d);
                assert(self.docs().contains(postings::doc_of(h, k)));
            }
            if set.contains(h) {
                let k = choose|k: u16| self.docs().contains(#[trigger] postings::doc_of(h, k));
                let d = postings::doc_of(h, k);
                assert(d / 65536 == h);
                assert(flat::has_flat_doc(keys, self.staging@, d));
                let i = choose|i: int|
                    0 <= i < keys.len() && #[trigger] keys[i] == d / 65536 && bitmap::has_bit(
                        flat::window(self.staging@, i),
                        (d % 65536) as u16,
                    );
                assert(keys[i] == h);
            }
        }
        keyset::lemma_sorted_keys(keys, set);
    }

    /// The expansion of a document set is unique: index and staging words follow from
    /// the documents.
    pub proof fn lemma_determined(&self, other: &Self)
        requires
            self.wf(),
            other.wf(),
            self.docs() == other.docs(),
        ensures
            self.bucket_index@ == other.bucket_index@,
            self.total_words == other.total_words,
            self.staging@ == other.staging@,
    {
        self.lemma_keys();
        other.lemma_keys();
        let keys = index_keys(self.bucket_index@);
        let n = self.bucket_index@.len();
        assert(index_keys(other.bucket_index@).len() == keys.len());
        assert forall|i: int| 0 <= i < n
            implies self.bucket_index@[i] == other.bucket_index@[i] by {
            assert(keys[i] == index_keys(other.bucket_index@)[i]);
            assert(self.bucket_index@[i].1 == 2048 * i);
            assert(other.bucket_index@[i].1 == 2048 * i);
        }
        assert(self.bucket_index@ =~= other.bucket_index@);
        assert forall|i: int| 0 <= i < n implies #[trigger] flat::window(self.staging@, i)
            == flat::window(other.staging@, i) by {
            let a = flat::window(self.staging@, i);
            let b = flat::window(other.staging@, i);
            assert forall|k: u16| bitmap::word_set(a).contains(k) == bitmap::word_set(b).contains(
                k,
            ) by {
                let d = postings::doc_of(keys[i], k);
                assert(d / 65536 == keys[i] && d % 65536 == k);
                flat::lemma_flat_bucket(keys, self.staging@, i, d);
                flat::lemma_flat_bucket(keys, other.staging@, i, d);
            }
            assert(bitmap::word_set(a) =~= bitmap::word_set(b));
            canonical::lemma_words_determined(a, b);
        }
        assert forall|j: int| 0 <= j < self.staging@.len() implies self.staging@[j]
            == other.staging@[j] by {
            let i = j / 2048;
            assert(flat::window(self.staging@, i)[j % 2048] == flat::window(other.staging@, i)[j
                % 2048]);
        }
        assert(self.staging@ =~= other.staging@);
    }

    /// Expand a posting list, or `None` when it has no non-empty bucket: caching is
    /// meaningless for an empty term.
    pub fn from_postings(postings: &RoaringPostings) -> (r: Option<Self>)
        requires
            postings.wf(),
        ensures
            r is None <==> postings@.len() == 0,
            r matches Some(p) ==> p.expands(postings@),
    {
        proof {
            postings.lemma_num_buckets();
        }
        let n: usize = postings.containers.len();
        let ghost cs = postings.containers@;
        let mut staging: Vec<u32> = Vec::new();
        let mut bucket_index: Vec<(u16, u32)> = Vec::new();
        let mut i: usize = 0;
        while i < n
            invariant
                postings.wf(),
                cs == postings.containers@,
                n == cs.len(),
                n <= 65536,
                i <= n,
                bucket_index@.len() <= i,
                index_wf(bucket_index@),
                staging@.len() == 2048 * bucket_index@.len(),
                forall|j: int|
                    0 <= j < bucket_index@.len() ==> (#[trigger] bucket_index@[j]).0 <= (if i > 0 {
                        cs[i - 1].0 as int
                    } else {
                        -1
                    }),
                forall|j: int|
                    0 <= j < bucket_index@.len()
                        ==> bitmap::word_set(#[trigger] flat::window(staging@, j)).len()
                        > 0,
                forall|d: u32| #[trigger]
                    flat::has_flat_doc(index_keys(bucket_index@), staging@, d) <==> has_doc_upto(
                        cs,
                        i as int,
                        d,
                    ),
            decreases n - i,
        {
            assert(cs[i as int].1.wf());
            let high16: u16 = postings.containers[i].0;
            let ghost idx = bucket_index@;
            let ghost stg = staging@;
            if postings.containers[i].1.cardinality() > 0 {
                let bm: BitmapContainer = bitmap_of(&postings.containers[i].1);
                let offset: u32 = staging.len() as u32;
                push_words(&mut staging, &bm);
                bucket_index.push((high16, offset));
                proof {
                    assert forall|j: int| 0 <= j < idx.len()
                        implies #[trigger] flat::window(staging@, j)
                        == flat::window(stg, j) by {
                        assert(flat::window(staging@, j) =~= flat::window(stg, j));
                    }
                    assert(flat::window(staging@, idx.len() as int) =~= bm.words@);
                    assert(bitmap::word_set(bm.words@) == cs[i as int].1@);
                    assert(index_keys(bucket_index@) =~= index_keys(idx).push(high16));
                    assert forall|j: int| 0 <= j < idx.len() implies idx[j].0 < high16 by {
                        if i > 0 {
                            assert(cs[i - 1].0 < cs[i as int].0);
                        }
                    }
                    assert(keyset::increasing(index_keys(bucket_index@))) by {
                        let keys = index_keys(bucket_index@);
                        assert forall|x: int, y: int| 0 <= x < y < keys.len() implies keys[x]
                            < keys[y] by {
                            if y < idx.len() {
                                assert(index_keys(idx)[x] < index_keys(idx)[y]);
                            }
                        }
                    }
                    assert forall|d: u32| #[trigger]
                        flat::has_flat_doc(index_keys(bucket_index@), staging@, d)
                            <==> has_doc_upto(
                            cs,
                            i + 1,
                            d,
                        ) by {
                        lemma_grow(cs, i as int, idx, bucket_index@, stg, staging@, d);
                    }
                }
            } else {
                proof {
                    keyset::lemma_sorted_keys_spec(cs[i as int].1@);
                    assert forall|k: u16| !cs[i as int].1@.contains(k) by {
                        if cs[i as int].1@.contains(k) {
                            cs[i as int].1@.lemma_len0_is_empty();
                        }
                    }
                    assert forall|d: u32| #[trigger]
                        flat::has_flat_doc(index_keys(idx), stg, d)
                            <==> has_doc_upto(cs, i + 1, d) by {
                        lemma_skip(cs, i as int, d);
                    }
                    if i > 0 {
                        assert(cs[i - 1].0 < cs[i as int].0);
                    }
                }
            }
            i = i + 1;
        }
        let bucket_count: usize = bucket_index.len();
        proof {
            assert(flat::flat_docs(index_keys(bucket_index@), staging@) =~= postings@) by {
                assert forall|d: u32| flat::flat_docs(index_keys(bucket_index@), staging@).contains(d)
                    == postings@.contains(d) by {
                    assert(flat::has_flat_doc(index_keys(bucket_index@), staging@, d)
                        <==> has_doc_upto(
                        cs,
                        n as int,
                        d,
                    ));
                    lemma_upto_all(cs, d);
                }
            }
            postings.lemma_docs();
        }
        if bucket_count == 0 {
            proof {
                assert forall|d: u32| !postings@.contains(d) by {
                    assert(!flat::has_flat_doc(index_keys(bucket_index@), staging@, d));
                }
                assert(postings@ =~= Set::<u32>::empty());
            }
            return None;
        }
        proof {
            let set = bitmap::word_set(flat::window(staging@, 0));
            keyset::lemma_sorted_keys_spec(set);
            let k = keyset::sorted_keys(set)[0];
            assert(keyset::sorted_keys(set).contains(k));
            let h = index_keys(bucket_index@)[0];
            let d = postings::doc_of(h, k);
            assert(d / 65536 == h && (d % 65536) as u16 == k);
            assert(set.contains(k));
            assert(bitmap::has_bit(flat::window(staging@, 0), k));
            assert(index_keys(bucket_index@)[0] == d / 65536);
            assert(flat::has_flat_doc(index_keys(bucket_index@), staging@, d));
            assert(flat::flat_docs(index_keys(bucket_index@), staging@).contains(d));
            assert(postings@.contains(d));
            if postings@.len() == 0 {
                postings@.lemma_len0_is_empty();
            }
        }
        let total_words: usize = bucket_count * BITMAP_CONTAINER_WORDS;
        Some(SharedBitmapPayload { bucket_index, bucket_count, total_words, staging })
    }

    /// Total bytes of `staging`.
    pub fn total_bytes(&self) -> (r: usize)
        requires
            self.wf(),
        ensures
            r == 4 * self.total_words,
            r == 4 * self.staging@.len(),
    {
        self.total_words * 4
    }
}

/// Document `d` is in one of the first `n` buckets.
spec fn has_doc_upto(cs: Seq<(u16, Container)>, n: int, d: u32) -> bool {
    exists|j: int|
        0 <= j < n && (#[trigger] cs[j]).0 == d / 65536 && cs[j].1@.contains((d % 65536) as u16)
}

proof fn lemma_upto_all(cs: Seq<(u16, Container)>, d: u32)
    ensures
        has_doc_upto(cs, cs.len() as int, d) == postings::has_doc_from(cs, 0, d),
{
}

proof fn lemma_skip(cs: Seq<(u16, Container)>, n: int, d: u32)
    requires
        0 <= n < cs.len(),
        forall|k: u16| !cs[n].1@.contains(k),
    ensures
        has_doc_upto(cs, n + 1, d) == has_doc_upto(cs, n, d),
{
    if has_doc_upto(cs, n, d) {
        let j = choose|j: int|
            0 <= j < n && (#[trigger] cs[j]).0 == d / 65536 && cs[j].1@.contains(
                (d % 65536) as u16,
            );
        assert(cs[j].0 == d / 65536);
    }
}

/// A bucket appended to the index adds exactly its documents.
proof fn lemma_grow(
    cs: Seq<(u16, Container)>,
    n: int,
    idx: Seq<(u16, u32)>,
    grown: Seq<(u16, u32)>,
    stg: Seq<u32>,
    words: Seq<u32>,
    d: u32,
)
    requires
        0 <= n < cs.len(),
        index_keys(grown) == index_keys(idx).push(cs[n].0),
        forall|j: int| 0 <= j < idx.len()
            ==> #[trigger] flat::window(words, j) == flat::window(stg, j),
        bitmap::word_set(flat::window(words, idx.len() as int)) == cs[n].1@,
        flat::has_flat_doc(index_keys(idx), stg, d) <==> has_doc_upto(cs, n, d),
    ensures
        flat::has_flat_doc(index_keys(grown), words, d) <==> has_doc_upto(cs, n + 1, d),
{
    let a = index_keys(idx);
    let b = index_keys(grown);
    let low = (d % 65536) as u16;
    assert(bitmap::word_set(flat::window(words, idx.len() as int)).contains(low) == bitmap::has_bit(
        flat::window(words, idx.len() as int),
        low,
    ));
    if flat::has_flat_doc(b, words, d) {
        let i = choose|i: int|
            0 <= i < b.len() && #[trigger] b[i] == d / 65536
                && bitmap::has_bit(flat::window(words, i), low);
        if i < idx.len() {
            assert(a[i] == d / 65536);
            assert(flat::window(words, i) == flat::window(stg, i));
            assert(flat::has_flat_doc(a, stg, d));
            let j = choose|j: int|
                0 <= j < n && (#[trigger] cs[j]).0 == d / 65536 && cs[j].1@.contains(low);
            assert(cs[j].0 == d / 65536);
        } else {
            assert(cs[n].0 == d / 65536);
        }
    }
    if has_doc_upto(cs, n + 1, d) {
        let j = choose|j: int|
            0 <= j < n + 1 && (#[trigger] cs[j]).0 == d / 65536 && cs[j].1@.contains(low);
        if j < n {
            assert(has_doc_upto(cs, n, d));
            let i = choose|i: int|
                0 <= i < a.len() && #[trigger] a[i] == d / 65536
                    && bitmap::has_bit(flat::window(stg, i), low);
            assert(b[i] == d / 65536);
            assert(flat::window(words, i) == flat::window(stg, i));
        } else {
            assert(b[idx.len() as int] == d / 65536);
        }
    }
}

} // verus!
