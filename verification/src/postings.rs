//! Posting lists: sorted buckets of containers and their wire format.
//!
//! ## Wire format
//!
//! `[4 bytes "ROAR"][u8 version][u32 num_containers LE]`, then per bucket
//! `[u16 high16 LE][u32 body_len LE][body]` with the self-describing container
//! encoding as body. Buckets come in strictly increasing `high16` order.

use vstd::prelude::*;

use crate::wire;
use crate::keyset;
use crate::container;
use crate::container::{Container, ContainerError, ContainerIter, Contents};
use crate::wire::{get_u16, get_u32, push_bytes, push_u16, push_u32, slice_of};

verus! {

/// Wire format magic: the ASCII bytes `ROAR`.
pub const MAGIC: [u8; 4] = [0x52, 0x4F, 0x41, 0x52];

/// Current wire version.
pub const VERSION_V1: u8 = 1;

/// Minimum bytes needed to peek the magic, the version and the bucket count.
pub const HEADER_MIN: usize = 9;

/// Errors of the posting-list wire format.
#[derive(Debug, Clone, Copy, PartialEq, Eq)]
pub enum RoaringFormatError {
    /// Input bytes did not start with [`MAGIC`].
    BadMagic([u8; 4]),
    /// Wire version is newer or unknown.
    UnsupportedVersion(u8),
    /// Generic truncation while parsing.
    Truncated {
        /// Bytes the parser expected.
        needed: usize,
        /// Bytes available.
        got: usize,
    },
    /// Per-container parse failure.
    ContainerError {
        /// Bucket key whose container failed to parse.
        high16: u16,
        /// Underlying [`ContainerError`].
        err: ContainerError,
    },
    /// Containers were not in strictly increasing `high16` order.
    UnsortedContainers,
}

/// Sorted-by-high16 collection of containers.
#[derive(Debug, PartialEq, Eq)]
pub struct RoaringPostings {
    /// `(high16, Container)` pairs in strictly increasing `high16` order.
    pub containers: Vec<(u16, Container)>,
}

/// Iterator over [`RoaringPostings`] yielding 32-bit doc-ids in strictly
/// increasing order.
pub struct RoaringPostingsIter<'a> {
    containers: &'a Vec<(u16, Container)>,
    idx: usize,
    current: Option<(u16, ContainerIter<'a>)>,
}

/// Buckets in strictly increasing order, each with a well-formed container.
pub open spec fn buckets_wf(cs: Seq<(u16, Container)>) -> bool {
    &&& forall|i: int, j: int| 0 <= i < j < cs.len() ==> (#[trigger] cs[i]).0 < (#[trigger] cs[j]).0
    &&& forall|i: int| 0 <= i < cs.len() ==> (#[trigger] cs[i]).1.wf()
}

/// The document id of `low` in bucket `high`.
pub open spec fn doc_of(high: u16, low: u16) -> u32 {
    (high * 65536 + low) as u32
}

/// Document `d` is in one of the buckets from index `i` on.
pub open spec fn has_doc_from(cs: Seq<(u16, Container)>, i: int, d: u32) -> bool {
    exists|j: int|
        i <= j < cs.len() && (#[trigger] cs[j]).0 == d / 65536 && cs[j].1@.contains(
            (d % 65536) as u16,
        )
}

/// The documents of a list of buckets.
pub open spec fn bucket_docs(cs: Seq<(u16, Container)>) -> Set<u32> {
    Set::new(|d: u32| has_doc_from(cs, 0, d))
}

/// The documents with the given low halves in bucket `high`.
pub open spec fn with_high(high: u16, lows: Seq<u16>) -> Seq<u32> {
    Seq::new(lows.len(), |i: int| doc_of(high, lows[i]))
}

/// The documents of the buckets from index `i` on, in ascending order.
pub open spec fn docs_from(cs: Seq<(u16, Container)>, i: int) -> Seq<u32>
    decreases cs.len() - i,
{
    if i < 0 || i >= cs.len() {
        Seq::empty()
    } else {
        with_high(cs[i].0, keyset::sorted_keys(cs[i].1@)) + docs_from(cs, i + 1)
    }
}

/// What a list of buckets holds, container by container.
pub open spec fn bucket_contents(cs: Seq<(u16, Container)>) -> Seq<(u16, Contents)> {
    Seq::new(cs.len(), |i: int| (cs[i].0, cs[i].1.contents()))
}

/// The encoding of one bucket.
pub open spec fn entry_bytes(e: (u16, Contents)) -> Seq<u8> {
    wire::le16(e.0) + wire::le32(container::container_bytes(e.1).len() as u32)
        + container::container_bytes(e.1)
}

/// The encodings of a list of buckets, back to back.
pub open spec fn entries_bytes(es: Seq<(u16, Contents)>) -> Seq<u8>
    decreases es.len(),
{
    if es.len() == 0 {
        Seq::empty()
    } else {
        entries_bytes(es.drop_last()) + entry_bytes(es.last())
    }
}

/// The encoding of a posting list.
pub open spec fn postings_bytes(es: Seq<(u16, Contents)>) -> Seq<u8> {
    MAGIC@ + seq![VERSION_V1] + wire::le32(es.len() as u32) + entries_bytes(es)
}

/// What `n` encoded buckets at `off` decode to, when the bucket before them has
/// key `prev`.
pub open spec fn parse_entries(b: Seq<u8>, off: int, n: nat, prev: Option<u16>) -> Result<
    Seq<(u16, Contents)>,
    RoaringFormatError,
>
    decreases n,
{
    if n == 0 {
        Ok(Seq::empty())
    } else if off + 6 > b.len() {
        Err(RoaringFormatError::Truncated { needed: wire::clamp_usize(off
            + 6), got: b.len() as usize })
    } else {
        let high16 = wire::at16(b, off);
        let body_len = wire::at32(b, off + 2);
        let end = off + 6 + body_len;
        if prev is Some && high16 <= prev->0 {
            Err(RoaringFormatError::UnsortedContainers)
        } else if end > b.len() {
            Err(RoaringFormatError::Truncated { needed: wire::clamp_usize(end), got: b.len() as usize })
        } else {
            match container::parse_container(b.subrange(off + 6, end)) {
                Err(err) => Err(RoaringFormatError::ContainerError { high16, err }),
                Ok((c, used)) => if used != body_len {
                    Err(
                        RoaringFormatError::Truncated {
                            needed: end as usize,
                            got: (off + 6 + used) as usize,
                        },
                    )
                } else {
                    match parse_entries(b, end, (n - 1) as nat, Some(high16)) {
                        Ok(rest) => Ok(seq![(high16, c)] + rest),
                        Err(e) => Err(e),
                    }
                },
            }
        }
    }
}

/// What a byte string decodes to.
pub open spec fn parse_postings(b: Seq<u8>) -> Result<Seq<(u16, Contents)>, RoaringFormatError> {
    if b.len() < HEADER_MIN {
        Err(RoaringFormatError::Truncated { needed: HEADER_MIN, got: b.len() as usize })
    } else if b.subrange(0, 4) != MAGIC@ {
        Err(RoaringFormatError::BadMagic([b[0], b[1], b[2], b[3]]))
    } else if b[4] != VERSION_V1 {
        Err(RoaringFormatError::UnsupportedVersion(b[4]))
    } else {
        parse_entries(b, 9, wire::at32(b, 5) as nat, None)
    }
}

/// `r` with `front` put before a success.
pub open spec fn put_before(
    front: Seq<(u16, Contents)>,
    r: Result<Seq<(u16, Contents)>, RoaringFormatError>,
) -> Result<Seq<(u16, Contents)>, RoaringFormatError> {
    match r {
        Ok(s) => Ok(front + s),
        Err(e) => Err(e),
    }
}

/// What the ascending document sequence of a list of buckets is.
pub proof fn lemma_docs_from(cs: Seq<(u16, Container)>, i: int)
    requires
        buckets_wf(cs),
        0 <= i <= cs.len(),
    ensures
        keyset::increasing_docs(docs_from(cs, i)),
        forall|d: u32| #[trigger] docs_from(cs, i).contains(d) <==> has_doc_from(cs, i, d),
        forall|x: int|
            0 <= x < docs_from(cs, i).len() ==> i < cs.len() && cs[i].0 <= (
            #[trigger] docs_from(cs, i)[x]) / 65536,
    decreases cs.len() - i,
{
    if i < cs.len() {
        lemma_docs_from(cs, i + 1);
        let high = cs[i].0;
        let set = cs[i].1@;
        keyset::lemma_sorted_keys_spec(set);
        let lows = keyset::sorted_keys(set);
        let p = with_high(high, lows);
        let q = docs_from(cs, i + 1);
        let all = docs_from(cs, i);
        assert(all == p + q);
        assert forall|x: int, y: int| 0 <= x < y < all.len() implies all[x] < all[y] by {
            if y < p.len() {
                assert(lows[x] < lows[y]);
            } else if x < p.len() {
                assert(all[y] == q[y - p.len()]);
                assert(cs[i].0 < cs[i + 1].0);
            } else {
                assert(q[x - p.len()] < q[y - p.len()]);
            }
        }
        assert forall|d: u32| #[trigger] all.contains(d) <==> has_doc_from(cs, i, d) by {
            if all.contains(d) {
                let x = choose|x: int| 0 <= x < all.len() && all[x] == d;
                if x < p.len() {
                    assert(lows.contains(lows[x]));
                    assert(d / 65536 == high && (d % 65536) as u16 == lows[x]);
                    assert(cs[i].0 == d / 65536);
                } else {
                    assert(q[x - p.len()] == d);
                    assert(q.contains(d));
                    let j = choose|j: int|
                        i + 1 <= j < cs.len() && (#[trigger] cs[j]).0 == d / 65536
                            && cs[j].1@.contains((d % 65536) as u16);
                    assert(cs[j].0 == d / 65536);
                }
            }
            if has_doc_from(cs, i, d) {
                let j = choose|j: int|
                    i <= j < cs.len() && (#[trigger] cs[j]).0 == d / 65536 && cs[j].1@.contains(
                        (d % 65536) as u16,
                    );
                if j == i {
                    let low = (d % 65536) as u16;
                    assert(lows.contains(low));
                    let x = choose|x: int| 0 <= x < lows.len() && lows[x] == low;
                    assert(p[x] == d);
                    assert(all[x] == d);
                } else {
                    assert(has_doc_from(cs, i + 1, d));
                    assert(q.contains(d));
                    let x = choose|x: int| 0 <= x < q.len() && q[x] == d;
                    assert(all[p.len() + x] == d);
                }
            }
        }
        assert forall|x: int| 0 <= x < all.len() implies cs[i].0 <= (#[trigger] all[x]) / 65536 by {
            if x >= p.len() {
                assert(all[x] == q[x - p.len()]);
                assert(cs[i].0 < cs[i + 1].0);
            }
        }
    }
}

impl View for RoaringPostings {
    type V = Set<u32>;

    /// The documents in the list.
    open spec fn view(&self) -> Set<u32> {
        bucket_docs(self.containers@)
    }
}

impl Default for RoaringPostings {
    fn default() -> (r: Self)
        ensures
            r.wf(),
            r.containers@ == Seq::<(u16, Container)>::empty(),
    {
        RoaringPostings::new()
    }
}

impl Clone for RoaringPostings {
    fn clone(&self) -> (r: Self)
        ensures
            r.contents() == self.contents(),
            self.wf() ==> r.wf() && r@ == self@,
    {
        let n: usize = self.containers.len();
        let mut containers: Vec<(u16, Container)> = Vec::new();
        let mut i: usize = 0;
        while i < n
            invariant
                n == self.containers@.len(),
                i <= n,
                containers@.len() == i,
                forall|j: int|
                    0 <= j < i ==> (#[trigger] containers@[j]).0 == self.containers@[j].0
                        && containers@[j].1.contents() == self.containers@[j].1.contents()
                        && containers@[j].1@ == self.containers@[j].1@ && containers@[j].1.wf()
                        == self.containers@[j].1.wf(),
            decreases n - i,
        {
            let high: u16 = self.containers[i].0;
            let c: Container = self.containers[i].1.clone();
            containers.push((high, c));
            i = i + 1;
        }
        let r = RoaringPostings { containers };
        proof {
            assert(r.contents() =~= self.contents());
            if self.wf() {
                let a = self.containers@;
                let b = r.containers@;
                assert forall|d: u32| r@.contains(d) == self@.contains(d) by {
                    if has_doc_from(a, 0, d) {
                        let j = choose|j: int|
                            0 <= j < a.len() && (#[trigger] a[j]).0 == d / 65536
                                && a[j].1@.contains((d % 65536) as u16);
                        assert(b[j].0 == d / 65536);
                    }
                    if has_doc_from(b, 0, d) {
                        let j = choose|j: int|
                            0 <= j < b.len() && (#[trigger] b[j]).0 == d / 65536
                                && b[j].1@.contains((d % 65536) as u16);
                        assert(a[j].0 == d / 65536);
                    }
                }
                assert(r@ =~= self@);
                assert forall|x: int, y: int| 0 <= x < y < b.len() implies (#[trigger] b[x]).0 < (
                #[trigger] b[y]).0 by {
                    assert(a[x].0 < a[y].0);
                }
            }
        }
        r
    }
}

impl RoaringPostings {
    /// Buckets in strictly increasing order, each with a well-formed container.
    pub open spec fn wf(&self) -> bool {
        buckets_wf(self.containers@)
    }

    /// The documents in ascending order.
    pub open spec fn docs(&self) -> Seq<u32> {
        docs_from(self.containers@, 0)
    }

    /// What the list holds, bucket by bucket.
    pub open spec fn contents(&self) -> Seq<(u16, Contents)> {
        bucket_contents(self.containers@)
    }

    /// The ascending sequence and the set of the documents belong together.
    pub proof fn lemma_docs(&self)
        requires
            self.wf(),
        ensures
            keyset::increasing_docs(self.docs()),
            self.docs().to_set() == self@,
            forall|d: u32| #[trigger] self.docs().contains(d) <==> self@.contains(d),
            self@.finite(),
            self@.len() == self.docs().len(),
            self.docs().len() <= 0x1_0000_0000,
    {
        lemma_docs_from(self.containers@, 0);
        keyset::lemma_docs_card(self.docs());
        assert(self.docs().to_set() =~= self@);
    }

    /// There are at most 65536 buckets.
    pub proof fn lemma_num_buckets(&self)
        requires
            self.wf(),
        ensures
            self.containers@.len() <= 65536,
    {
        let cs = self.containers@;
        let highs = Seq::new(cs.len(), |i: int| cs[i].0);
        assert forall|i: int, j: int| 0 <= i < j < highs.len() implies highs[i] < highs[j] by {
            assert(cs[i].0 < cs[j].0);
        }
        keyset::lemma_increasing_len(highs);
    }

    /// Empty.
    pub fn new() -> (r: Self)
        ensures
            r.wf(),
            r.containers@ == Seq::<(u16, Container)>::empty(),
            r.docs() == Seq::<u32>::empty(),
    {
        RoaringPostings { containers: Vec::new() }
    }

    /// Total cardinality.
    pub fn cardinality(&self) -> (r: u64)
        requires
            self.wf(),
        ensures
            r == self@.len(),
            r == self.docs().len(),
            r <= 0x1_0000_0000,
    {
        let mut sum: u64 = 0;
        let mut i: usize = self.containers.len();
        while i > 0
            invariant
                self.wf(),
                i <= self.containers@.len(),
                sum == docs_from(self.containers@, i as int).len(),
            decreases i,
        {
            i = i - 1;
            proof {
                keyset::lemma_sorted_keys_spec(self.containers@[i as int].1@);
                lemma_docs_from(self.containers@, i as int);
                keyset::lemma_docs_card(docs_from(self.containers@, i as int));
                assert(self.containers@[i as int].1.wf());
            }
            sum = sum + self.containers[i].1.cardinality() as u64;
        }
        proof {
            self.lemma_docs();
        }
        sum
    }

    /// Number of buckets.
    pub fn num_containers(&self) -> (r: usize)
        ensures
            r == self.containers@.len(),
    {
        self.containers.len()
    }

    /// Iterate every doc-id in strictly increasing order.
    pub fn iter(&self) -> (r: RoaringPostingsIter<'_>)
        requires
            self.wf(),
        ensures
            r.wf(),
            r.remaining() == self.docs(),
    {
        let r = RoaringPostingsIter { containers: &self.containers, idx: 0, current: None };
        assert(r.remaining() =~= self.docs());
        r
    }

    /// Encode to the wire format described in the module docs.
    pub fn to_bytes(&self) -> (r: Vec<u8>)
        requires
            self.wf(),
        ensures
            r@ == postings_bytes(self.contents()),
    {
        let mut out: Vec<u8> = Vec::new();
        push_bytes(&mut out, MAGIC.as_slice());
        out.push(VERSION_V1);
        let n: usize = self.containers.len();
        proof {
            self.lemma_num_buckets();
        }
        push_u32(&mut out, n as u32);
        let ghost head = MAGIC@ + seq![VERSION_V1] + wire::le32(n as u32);
        let ghost es = self.contents();
        assert(out@ =~= head + entries_bytes(es.take(0)));
        let mut i: usize = 0;
        while i < n
            invariant
                self.wf(),
                n == self.containers@.len(),
                i <= n,
                es == self.contents(),
                out@ == head + entries_bytes(es.take(i as int)),
            decreases n - i,
        {
            assert(self.containers@[i as int].1.wf());
            let body: Vec<u8> = self.containers[i].1.to_bytes();
            proof {
                lemma_body_len(self.containers@[i as int].1);
            }
            push_u16(&mut out, self.containers[i].0);
            push_u32(&mut out, body.len() as u32);
            push_bytes(&mut out, body.as_slice());
            proof {
                assert(es.take(i + 1).drop_last() =~= es.take(i as int));
                assert(es.take(i + 1).last() == es[i as int]);
                assert(out@ =~= head + entries_bytes(es.take(i + 1)));
            }
            i = i + 1;
        }
        assert(es.take(n as int) =~= es);
        out
    }

    /// Decode from the wire format. Returns [`RoaringFormatError::BadMagic`] for
    /// inputs of another format and [`RoaringFormatError::UnsupportedVersion`] for
    /// unknown versions.
    pub fn from_bytes(slice: &[u8]) -> (r: Result<Self, RoaringFormatError>)
        ensures
            match r {
                Ok(p) => p.wf() && parse_postings(slice@) == Ok::<
                    Seq<(u16, Contents)>,
                    RoaringFormatError,
                >(p.contents()),
                Err(e) => parse_postings(slice@) == Err::<Seq<(u16, Contents)>, RoaringFormatError>(
                    e,
                ),
            },
    {
        let len: usize = slice.len();
        if len < HEADER_MIN {
            return Err(RoaringFormatError::Truncated { needed: HEADER_MIN, got: len });
        }
        let ghost head = slice@.subrange(0, 4);
        if slice[0] != MAGIC[0] || slice[1] != MAGIC[1] || slice[2] != MAGIC[2] || slice[3]
            != MAGIC[3] {
            proof {
                assert(head[0] == slice@[0] && head[1] == slice@[1] && head[2] == slice@[2]
                    && head[3] == slice@[3]);
            }
            return Err(RoaringFormatError::BadMagic([slice[0], slice[1], slice[2], slice[3]]));
        }
        assert(head =~= MAGIC@);
        let version: u8 = slice[4];
        if version != VERSION_V1 {
            return Err(RoaringFormatError::UnsupportedVersion(version));
        }
        let num: u32 = get_u32(slice, 5);
        let mut cursor: usize = HEADER_MIN;
        let mut containers: Vec<(u16, Container)> = Vec::new();
        let mut prev: Option<u16> = None;
        let mut i: u32 = 0;
        assert(put_before(
            bucket_contents(containers@),
            parse_entries(slice@, 9, num as nat, None),
        ) == parse_entries(slice@, 9, num as nat, None)) by {
            match parse_entries(slice@, 9, num as nat, None) {
                Ok(s) => {
                    assert(bucket_contents(containers@) + s =~= s);
                },
                Err(_) => {},
            }
        }
        while i < num
            invariant
                i <= num,
                len == slice@.len(),
                len == slice.len(),
                cursor <= len,
                parse_postings(slice@) == put_before(
                    bucket_contents(containers@),
                    parse_entries(slice@, cursor as int, (num - i) as nat, prev),
                ),
                buckets_wf(containers@),
                prev is None ==> containers@.len() == 0,
                prev matches Some(p) ==> forall|j: int|
                    0 <= j < containers@.len() ==> (#[trigger] containers@[j]).0 <= p,
            decreases num - i,
        {
            if len - cursor < 6 {
                return Err(
                    RoaringFormatError::Truncated { needed: cursor.saturating_add(6), got: len },
                );
            }
            let high16: u16 = get_u16(slice, cursor);
            if let Some(p) = prev {
                if high16 <= p {
                    return Err(RoaringFormatError::UnsortedContainers);
                }
            }
            let body_len: usize = get_u32(slice, cursor + 2) as usize;
            let body_at: usize = cursor + 6;
            if len - body_at < body_len {
                return Err(
                    RoaringFormatError::Truncated {
                        needed: body_at.saturating_add(body_len),
                        got: len,
                    },
                );
            }
            let body: &[u8] = slice_of(slice, body_at, body_at + body_len);
            match Container::from_bytes(body) {
                Err(err) => {
                    return Err(RoaringFormatError::ContainerError { high16, err });
                },
                Ok((container, consumed)) => {
                    proof {
                        lemma_used_bound(body@);
                    }
                    if consumed != body_len {
                        return Err(
                            RoaringFormatError::Truncated {
                                needed: body_at + body_len,
                                got: body_at + consumed,
                            },
                        );
                    }
                    let ghost before = containers@;
                    let ghost c = container.contents();
                    containers.push((high16, container));
                    proof {
                        let rest = parse_entries(
                            slice@,
                            body_at + body_len,
                            (num - i - 1) as nat,
                            Some(high16),
                        );
                        match rest {
                            Ok(s) => {
                                assert(bucket_contents(before) + (seq![(high16, c)] + s)
                                    =~= bucket_contents(containers@) + s);
                            },
                            Err(_) => {},
                        }
                    }
                    prev = Some(high16);
                    cursor = body_at + body_len;
                },
            }
            i = i + 1;
        }
        assert(bucket_contents(containers@) + Seq::<(u16, Contents)>::empty() =~= bucket_contents(
            containers@,
        ));
        Ok(RoaringPostings { containers })
    }
}

/// A parsed container takes no more bytes than there are.
proof fn lemma_used_bound(b: Seq<u8>)
    ensures
        container::parse_container(b) matches Ok((c, used)) ==> used <= b.len(),
{
}

/// An encoded container is short.
pub proof fn lemma_body_len(c: Container)
    requires
        c.wf(),
    ensures
        container::container_bytes(c.contents()).len() <= 262147,
{
    match c {
        Container::Array(a) => {
            keyset::lemma_increasing_len(a.keys@);
        },
        Container::Bitmap(_) => {},
        Container::Run(r) => {
            crate::run::lemma_runs_len(r.runs@);
        },
    }
}

impl<'a> RoaringPostingsIter<'a> {
    /// The position lies within well-formed buckets.
    pub closed spec fn wf(&self) -> bool {
        &&& buckets_wf(self.containers@)
        &&& self.idx <= self.containers@.len()
        &&& self.current matches Some((_, it)) ==> it.wf()
    }

    /// The documents still to come, in ascending order.
    pub closed spec fn remaining(&self) -> Seq<u32> {
        (match self.current {
            Some((high, it)) => with_high(high, it.remaining()),
            None => Seq::empty(),
        }) + docs_from(self.containers@, self.idx as int)
    }

    /// The next document, in ascending order.
    pub fn next(&mut self) -> (r: Option<u32>)
        requires
            old(self).wf(),
        ensures
            final(self).wf(),
            match r {
                Some(d) => old(self).remaining().len() > 0 && d == old(self).remaining()[0]
                    && final(self).remaining() == old(self).remaining().drop_first(),
                None => old(self).remaining().len() == 0
                    && final(self).remaining() == old(self).remaining(),
            },
    {
        loop
            invariant
                self.wf(),
                self.remaining() == old(self).remaining(),
            decreases self.containers@.len() - self.idx,
        {
            if let Some((high, it)) = &mut self.current {
                let ghost lows = it.remaining();
                if let Some(low) = it.next() {
                    let d: u32 = (*high as u32) * 65536 + low as u32;
                    assert(with_high(*high, lows.drop_first()) =~= with_high(
                        *high,
                        lows,
                    ).drop_first());
                    assert(self.remaining() =~= old(self).remaining().drop_first());
                    return Some(d);
                }
            }
            self.current = None;
            if self.idx >= self.containers.len() {
                assert(self.remaining() =~= Seq::<u32>::empty());
                return None;
            }
            assert(self.containers@[self.idx as int].1.wf());
            let high: u16 = self.containers[self.idx].0;
            let it: ContainerIter<'a> = self.containers[self.idx].1.iter();
            self.current = Some((high, it));
            self.idx = self.idx + 1;
            assert(self.remaining() =~= old(self).remaining());
        }
    }

    /// All documents still to come.
    pub fn collect(self) -> (r: Vec<u32>)
        requires
            self.wf(),
        ensures
            r@ == self.remaining(),
    {
        let mut it = self;
        let mut out: Vec<u32> = Vec::new();
        let ghost all = self.remaining();
        assert(all =~= out@ + it.remaining());
        loop
            invariant
                it.wf(),
                all == out@ + it.remaining(),
            ensures
                out@ == all,
            decreases it.remaining().len(),
        {
            match it.next() {
                Some(d) => {
                    out.push(d);
                    assert(all =~= out@ + it.remaining());
                },
                None => {
                    assert(all =~= out@);
                    break;
                },
            }
        }
        out
    }
}

/// Bucket `i` stands behind the encodings of the buckets in front of it.
proof fn lemma_entry_at(es: Seq<(u16, Contents)>, i: int)
    requires
        0 <= i < es.len(),
    ensures
        wire::holds_at(entries_bytes(es), entries_bytes(es.take(i)).len() as int, entry_bytes(es[i])),
        entries_bytes(es.take(i + 1)).len() == entries_bytes(es.take(i)).len() + entry_bytes(
            es[i],
        ).len(),
    decreases es.len(),
{
    assert(es.take(i + 1).drop_last() =~= es.take(i));
    assert(es.take(i + 1).last() == es[i]);
    if i == es.len() - 1 {
        assert(es.take(i) =~= es.drop_last());
        let a = entries_bytes(es.drop_last());
        let e = entry_bytes(es.last());
        assert(entries_bytes(es) == a + e);
        assert forall|x: int| 0 <= x < e.len() implies entries_bytes(es)[a.len() + x]
            == #[trigger] e[x] by {}
    } else {
        let front = es.drop_last();
        lemma_entry_at(front, i);
        assert(front.take(i) =~= es.take(i));
        let a = entries_bytes(front);
        let e = entry_bytes(es[i]);
        let off = entries_bytes(es.take(i)).len() as int;
        assert forall|x: int| 0 <= x < e.len()
            implies entries_bytes(es)[off + x] == #[trigger] e[x] by {
            assert(a[off + x] == e[x]);
        }
    }
}

/// The parts of an encoded bucket.
proof fn lemma_entry_parts(b: Seq<u8>, off: int, high: u16, body: Seq<u8>)
    requires
        body.len() <= u32::MAX,
        wire::holds_at(b, off, wire::le16(high) + wire::le32(body.len() as u32) + body),
    ensures
        off + 6 + body.len() <= b.len(),
        wire::at16(b, off) == high,
        wire::at32(b, off + 2) == body.len(),
        b.subrange(off + 6, off + 6 + body.len()) == body,
{
    let n = body.len() as u32;
    let e = wire::le16(high) + wire::le32(n) + body;
    assert(wire::holds_at(b, off, wire::le16(high))) by {
        assert forall|x: int| 0 <= x < 2 implies b[off + x] == #[trigger] wire::le16(high)[x] by {
            assert(e[x] == wire::le16(high)[x]);
        }
    }
    assert(wire::holds_at(b, off + 2, wire::le32(n))) by {
        assert forall|x: int| 0 <= x < 4 implies b[off + 2 + x] == #[trigger] wire::le32(n)[x] by {
            assert(e[2 + x] == wire::le32(n)[x]);
            assert(b[off + (2 + x)] == e[2 + x]);
        }
    }
    wire::lemma_at16(b, off, high);
    wire::lemma_at32(b, off + 2, n);
    assert(b.subrange(off + 6, off + 6 + n) =~= body) by {
        assert forall|x: int| 0 <= x < body.len() implies b[off + 6 + x] == #[trigger] body[x] by {
            assert(e[6 + x] == body[x]);
            assert(b[off + (6 + x)] == e[6 + x]);
        }
    }
}

/// One bucket decodes, and the buckets behind it after it.
proof fn lemma_parse_step(
    b: Seq<u8>,
    off: int,
    n: nat,
    prev: Option<u16>,
    high: u16,
    c: Contents,
    len: nat,
    rest: Seq<(u16, Contents)>,
)
    requires
        n > 0,
        0 <= off,
        off + 6 + len <= b.len(),
        len <= 262144,
        wire::at16(b, off) == high,
        wire::at32(b, off + 2) == len,
        prev matches Some(p) ==> p < high,
        container::parse_container(b.subrange(off + 6, off + 6 + len)) == Ok::<
            (Contents, usize),
            ContainerError,
        >((c, len as usize)),
        parse_entries(b, off + 6 + len, (n - 1) as nat, Some(high)) == Ok::<
            Seq<(u16, Contents)>,
            RoaringFormatError,
        >(rest),
    ensures
        parse_entries(b, off, n, prev) == Ok::<Seq<(u16, Contents)>, RoaringFormatError>(
            seq![(high, c)] + rest,
        ),
{
}

/// Where bucket `i` stands in the encoding of a posting list.
proof fn lemma_entry_in_postings(es: Seq<(u16, Contents)>, i: int)
    requires
        0 <= i < es.len(),
    ensures
        wire::holds_at(
            postings_bytes(es),
            9int + entries_bytes(es.take(i)).len(),
            entry_bytes(es[i]),
        ),
        entries_bytes(es.take(i + 1)).len() == entries_bytes(es.take(i)).len() + entry_bytes(
            es[i],
        ).len(),
{
    lemma_entry_at(es, i);
    let b = postings_bytes(es);
    let e = entry_bytes(es[i]);
    let ent = entries_bytes(es);
    let at = entries_bytes(es.take(i)).len() as int;
    let off = 9 + at;
    assert(b.len() == 9 + ent.len());
    assert forall|x: int| 0 <= x < e.len() implies b[off + x] == #[trigger] e[x] by {
        assert(ent[at + x] == e[x]);
        assert(b[9 + (at + x)] == ent[at + x]);
    }
}

/// Bucket `i` stands in `b` where the buckets in front of it end.
spec fn entry_stands(b: Seq<u8>, es: Seq<(u16, Contents)>, i: int) -> bool {
    &&& wire::holds_at(b, 9int + entries_bytes(es.take(i)).len(), entry_bytes(es[i]))
    &&& entries_bytes(es.take(i + 1)).len() == entries_bytes(es.take(i)).len() + entry_bytes(
        es[i],
    ).len()
}

/// The buckets decode one after the other.
proof fn lemma_parse_entries(b: Seq<u8>, es: Seq<(u16, Contents)>, i: int)
    requires
        entries_wf(es),
        0 <= i <= es.len(),
        forall|j: int| 0 <= j < es.len() ==> #[trigger] entry_stands(b, es, j),
    ensures
        parse_entries(
            b,
            9int + entries_bytes(es.take(i)).len(),
            (es.len() - i) as nat,
            if i == 0 { None } else { Some(es[i - 1].0) },
        ) == Ok::<Seq<(u16, Contents)>, RoaringFormatError>(es.skip(i)),
    decreases es.len() - i,
{
    if i < es.len() {
        let prev: Option<u16> = if i == 0 { None } else { Some(es[i - 1].0) };
        lemma_parse_entries(b, es, i + 1);
        assert(entry_stands(b, es, i));
        lemma_parse_one(
            b,
            9int + entries_bytes(es.take(i)).len(),
            (es.len() - i) as nat,
            prev,
            es[i],
            es.skip(i + 1),
        );
        assert(seq![es[i]] + es.skip(i + 1) =~= es.skip(i));
    } else {
        assert(es.skip(i) =~= Seq::<(u16, Contents)>::empty());
    }
}

proof fn lemma_parse_one(
    b: Seq<u8>,
    off: int,
    n: nat,
    prev: Option<u16>,
    e: (u16, Contents),
    rest: Seq<(u16, Contents)>,
)
    requires
        n > 0,
        prev matches Some(p) ==> p < e.0,
        container::contents_wf(e.1),
        e.1 matches Contents::Run(runs) ==> runs.len() <= 65535,
        wire::holds_at(b, off, entry_bytes(e)),
        parse_entries(b, off + entry_bytes(e).len(), (n - 1) as nat, Some(e.0)) == Ok::<
            Seq<(u16, Contents)>,
            RoaringFormatError,
        >(rest),
    ensures
        parse_entries(b, off, n, prev) == Ok::<Seq<(u16, Contents)>, RoaringFormatError>(
            seq![e] + rest,
        ),
{
    let body = container::container_bytes(e.1);
    container::lemma_container_round_trip(e.1, Seq::<u8>::empty());
    assert(body + Seq::<u8>::empty() =~= body);
    lemma_entry_parts(b, off, e.0, body);
    assert(entry_bytes(e).len() == 6 + body.len());
    lemma_parse_step(b, off, n, prev, e.0, e.1, body.len(), rest);
}

/// Buckets in strictly increasing order whose containers can be read back.
pub open spec fn entries_wf(es: Seq<(u16, Contents)>) -> bool {
    &&& forall|i: int, j: int| 0 <= i < j < es.len() ==> (#[trigger] es[i]).0 < (#[trigger] es[j]).0
    &&& forall|i: int| 0 <= i < es.len() ==> container::contents_wf((#[trigger] es[i]).1)
    &&& forall|i: int|
        0 <= i < es.len() ==> ((#[trigger] es[i]).1 matches Contents::Run(runs) ==> runs.len()
            <= 65535)
}

/// `from_bytes` undoes `to_bytes`, for every posting list whose run containers can
/// be counted in 16 bits.
pub proof fn lemma_postings_round_trip(es: Seq<(u16, Contents)>)
    requires
        entries_wf(es),
    ensures
        parse_postings(postings_bytes(es)) == Ok::<Seq<(u16, Contents)>, RoaringFormatError>(es),
{
    let highs = Seq::new(es.len(), |i: int| es[i].0);
    assert forall|i: int, j: int| 0 <= i < j < highs.len() implies highs[i] < highs[j] by {
        assert(es[i].0 < es[j].0);
    }
    keyset::lemma_increasing_len(highs);
    let b = postings_bytes(es);
    let n = es.len() as u32;
    assert(b.subrange(0, 4) =~= MAGIC@);
    assert(wire::holds_at(b, 5, wire::le32(n))) by {
        assert forall|x: int| 0 <= x < 4 implies b[5 + x] == #[trigger] wire::le32(n)[x] by {}
    }
    wire::lemma_at32(b, 5, n);
    assert forall|j: int| 0 <= j < es.len() implies #[trigger] entry_stands(b, es, j) by {
        lemma_entry_in_postings(es, j);
    }
    lemma_parse_entries(b, es, 0);
    assert(es.take(0) =~= Seq::<(u16, Contents)>::empty());
    assert(es.skip(0) =~= es);
}

} // verus!
