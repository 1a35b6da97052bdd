//! Posting list decoder: iteration and seek.
//!
//! The decoder advances through containers in `high16` order. `seek`
//! short-circuits across whole containers by binary search on the sorted bucket
//! keys, then jumps into the container's key stream.

use vstd::prelude::*;

use crate::postings;
use crate::keyset;
use crate::container::{Container, ContainerIter};
use crate::postings::RoaringPostings;

verus! {

/// Sentinel returned by [`RoaringDecoder::doc`] before the first `advance()` and
/// after the last hit.
pub const TERMINATED: u32 = 0xFFFF_FFFF;

/// Iterator and seek decoder over a [`RoaringPostings`].
///
/// `advance()` returns the next doc-id or `None`; `seek(target)` jumps to the
/// first doc-id not below `target`.
pub struct RoaringDecoder<'a> {
    /// Backing posting list.
    source: &'a RoaringPostings,
    /// Index into `source.containers` of the current container, or the number of
    /// containers at the end of the stream.
    container_idx: usize,
    /// Cached current doc-id.
    current_doc: u32,
    /// Key stream of the current container.
    low_state: Option<ContainerIter<'a>>,
}

impl<'a> RoaringDecoder<'a> {
    /// The position lies within a well-formed posting list.
    pub closed spec fn wf(&self) -> bool {
        &&& self.source.wf()
        &&& self.container_idx <= self.source.containers@.len()
        &&& self.low_state is Some <==> self.container_idx < self.source.containers@.len()
        &&& self.low_state matches Some(it) ==> it.wf()
    }

    /// The posting list under the decoder.
    pub closed spec fn source(&self) -> RoaringPostings {
        *self.source
    }

    /// The documents still to come, in ascending order.
    pub closed spec fn remaining(&self) -> Seq<u32> {
        match self.low_state {
            Some(it) => postings::with_high(
                self.source.containers@[self.container_idx as int].0,
                it.remaining(),
            ) + postings::docs_from(self.source.containers@, self.container_idx + 1),
            None => Seq::empty(),
        }
    }

    /// The current document, `TERMINATED` where there is none.
    pub closed spec fn current(&self) -> u32 {
        self.current_doc
    }

    /// Build a decoder positioned before the first doc-id. The caller must call
    /// [`Self::advance`] or [`Self::seek`] to consume the first hit.
    pub fn new(source: &'a RoaringPostings) -> (r: Self)
        requires
            source.wf(),
        ensures
            r.wf(),
            r.source() == *source,
            r.remaining() == source.docs(),
            r.current() == TERMINATED,
    {
        let mut dec = RoaringDecoder {
            source,
            container_idx: 0,
            current_doc: TERMINATED,
            low_state: None,
        };
        dec.enter_current_container();
        dec
    }

    /// Start the key stream of the container at `container_idx`.
    fn enter_current_container(&mut self)
        requires
            old(self).source.wf(),
            old(self).container_idx <= old(self).source.containers@.len(),
        ensures
            final(self).wf(),
            final(self).source == old(self).source,
            final(self).container_idx == old(self).container_idx,
            final(self).current_doc == old(self).current_doc,
            final(self).remaining() == postings::docs_from(
                old(self).source.containers@,
                old(self).container_idx as int,
            ),
    {
        if self.container_idx >= self.source.containers.len() {
            self.low_state = None;
        } else {
            assert(self.source.containers@[self.container_idx as int].1.wf());
            self.low_state = Some(self.source.containers[self.container_idx].1.iter());
        }
        assert(self.remaining() =~= postings::docs_from(
            old(self).source.containers@,
            old(self).container_idx as int,
        ));
    }

    /// Current doc-id ([`TERMINATED`] if not started or exhausted).
    pub fn doc(&self) -> (r: u32)
        ensures
            r == self.current(),
    {
        self.current_doc
    }

    /// Total cardinality of the underlying [`RoaringPostings`].
    pub fn cardinality(&self) -> (r: u64)
        requires
            self.wf(),
        ensures
            r == self.source()@.len(),
    {
        self.source.cardinality()
    }

    /// Step forward by one doc-id. Returns the new doc-id, or `None` when the
    /// stream is exhausted.
    pub fn advance(&mut self) -> (r: Option<u32>)
        requires
            old(self).wf(),
        ensures
            final(self).wf(),
            final(self).source() == old(self).source(),
            match r {
                Some(d) => old(self).remaining().len() > 0 && d == old(self).remaining()[0]
                    && final(self).remaining() == old(self).remaining().drop_first()
                        && final(self).current() == d,
                None => old(self).remaining().len() == 0 && final(self).remaining().len() == 0
                    && final(self).current() == TERMINATED,
            },
    {
        loop
            invariant
                self.wf(),
                self.source == old(self).source,
                self.remaining() == old(self).remaining(),
            decreases self.source.containers@.len() - self.container_idx,
        {
            if self.container_idx >= self.source.containers.len() {
                self.current_doc = TERMINATED;
                return None;
            }
            let high16: u16 = self.source.containers[self.container_idx].0;
            let ghost lows = self.low_state->0.remaining();
            let next: Option<u16> = self.next_low16();
            if let Some(low16) = next {
                let d: u32 = (high16 as u32) * 65536 + low16 as u32;
                self.current_doc = d;
                assert(postings::with_high(high16, lows.drop_first()) =~= postings::with_high(high16, lows).drop_first());
                assert(self.remaining() =~= old(self).remaining().drop_first());
                return Some(d);
            }
            let ghost at = self.container_idx as int;
            self.container_idx = self.container_idx + 1;
            self.enter_current_container();
            assert(postings::with_high(high16, lows)
                + postings::docs_from(self.source.containers@, at + 1)
                =~= postings::docs_from(self.source.containers@, at + 1));
        }
    }

    /// Pull the next low16 from the current container, or `None` when it is
    /// exhausted.
    fn next_low16(&mut self) -> (r: Option<u16>)
        requires
            old(self).wf(),
            old(self).low_state is Some,
        ensures
            final(self).wf(),
            final(self).source == old(self).source,
            final(self).container_idx == old(self).container_idx,
            final(self).low_state is Some,
            match r {
                Some(k) => old(self).low_state->0.remaining().len() > 0
                    && k == old(self).low_state->0.remaining()[0]
                        && final(self).low_state->0.remaining()
                            == old(self).low_state->0.remaining().drop_first(),
                None => old(self).low_state->0.remaining().len() == 0,
            },
    {
        match &mut self.low_state {
            Some(it) => it.next(),
            None => None,
        }
    }

    /// Seek to the first doc-id not below `target`, wherever the decoder stands.
    /// Returns the new doc-id or `None` if `target` exceeds every doc-id in the
    /// stream.
    pub fn seek(&mut self, target: u32) -> (r: Option<u32>)
        requires
            old(self).wf(),
        ensures
            final(self).wf(),
            final(self).source() == old(self).source(),
            ({
                let hits = keyset::docs_at_or_after(old(self).source().docs(), target);
                match r {
                    Some(d) => hits.len() > 0 && d == hits[0] && final(self).remaining()
                        == hits.drop_first() && final(self).current() == d,
                    None => hits.len() == 0 && final(self).remaining().len() == 0
                        && final(self).current() == TERMINATED,
                }
            }),
    {
        let high16: u16 = (target / 65536) as u16;
        let low16: u16 = (target % 65536) as u16;
        let n: usize = self.source.containers.len();
        let ghost cs = self.source.containers@;
        let mut lo: usize = 0;
        let mut hi: usize = n;
        while lo < hi
            invariant
                self.wf(),
                self.source == old(self).source,
                cs == self.source.containers@,
                n == cs.len(),
                lo <= hi <= n,
                forall|i: int| 0 <= i < lo ==> (#[trigger] cs[i]).0 < high16,
                forall|i: int| hi <= i < n ==> (#[trigger] cs[i]).0 >= high16,
            decreases hi - lo,
        {
            let mid: usize = lo + (hi - lo) / 2;
            if self.source.containers[mid].0 < high16 {
                assert forall|i: int| 0 <= i < mid implies (#[trigger] cs[i]).0 < high16 by {
                    assert(cs[i].0 < cs[mid as int].0);
                }
                lo = mid + 1;
            } else {
                assert forall|i: int| mid < i < n implies (#[trigger] cs[i]).0 >= high16 by {
                    assert(cs[mid as int].0 < cs[i].0);
                }
                hi = mid;
            }
        }
        self.container_idx = lo;
        if lo < n && self.source.containers[lo].0 == high16 {
            assert(cs[lo as int].1.wf());
            self.low_state = Some(self.source.containers[lo].1.iter_from(low16));
            proof {
                lemma_seek_inside(cs, lo as int, target, self.remaining());
            }
        } else {
            self.enter_current_container();
            proof {
                lemma_seek_between(cs, lo as int, target);
            }
        }
        proof {
            postings::lemma_docs_from(cs, 0);
            keyset::lemma_docs_at_or_after(postings::docs_from(cs, 0), target, self.remaining());
        }
        self.advance()
    }

    /// The next document; the same as [`Self::advance`].
    pub fn next(&mut self) -> (r: Option<u32>)
        requires
            old(self).wf(),
        ensures
            final(self).wf(),
            final(self).source() == old(self).source(),
            match r {
                Some(d) => old(self).remaining().len() > 0 && d == old(self).remaining()[0]
                    && final(self).remaining() == old(self).remaining().drop_first()
                        && final(self).current() == d,
                None => old(self).remaining().len() == 0 && final(self).remaining().len() == 0
                    && final(self).current() == TERMINATED,
            },
    {
        self.advance()
    }

    /// All documents still to come.
    pub fn collect(self) -> (r: Vec<u32>)
        requires
            self.wf(),
        ensures
            r@ == self.remaining(),
    {
        let mut dec = self;
        let mut out: Vec<u32> = Vec::new();
        let ghost all = self.remaining();
        assert(all =~= out@ + dec.remaining());
        loop
            invariant
                dec.wf(),
                all == out@ + dec.remaining(),
            ensures
                out@ == all,
            decreases dec.remaining().len(),
        {
            match dec.advance() {
                Some(d) => {
                    out.push(d);
                    assert(all =~= out@ + dec.remaining());
                },
                None => {
                    assert(all =~= out@);
                    break;
                },
            }
        }
        out
    }
}

/// What is left after a seek into bucket `at`: its keys from the low half of the
/// target on, and everything behind it.
proof fn lemma_seek_inside(cs: Seq<(u16, Container)>, at: int, target: u32, rest: Seq<u32>)
    requires
        postings::buckets_wf(cs),
        0 <= at < cs.len(),
        cs[at].0 == target / 65536,
        rest == postings::with_high(
            cs[at].0,
            keyset::sorted_keys(keyset::at_or_after(cs[at].1@, (target % 65536) as u16)),
        ) + postings::docs_from(cs, at + 1),
    ensures
        keyset::increasing_docs(rest),
        forall|d: u32| #[trigger]
            rest.contains(d) <==> postings::docs_from(cs, 0).contains(d) && d >= target,
{
    let low = (target % 65536) as u16;
    let set = keyset::at_or_after(cs[at].1@, low);
    let lows = keyset::sorted_keys(set);
    keyset::lemma_sorted_keys_spec(set);
    postings::lemma_docs_from(cs, at + 1);
    postings::lemma_docs_from(cs, 0);
    let p = postings::with_high(cs[at].0, lows);
    let q = postings::docs_from(cs, at + 1);
    assert forall|x: int, y: int| 0 <= x < y < rest.len() implies rest[x] < rest[y] by {
        if y < p.len() {
            assert(lows[x] < lows[y]);
        } else if x < p.len() {
            assert(rest[y] == q[y - p.len()]);
            assert(cs[at].0 < cs[at + 1].0);
        } else {
            assert(q[x - p.len()] < q[y - p.len()]);
        }
    }
    assert forall|d: u32| #[trigger] rest.contains(d)
        <==> postings::docs_from(cs, 0).contains(d) && d
        >= target by {
        if rest.contains(d) {
            let x = choose|x: int| 0 <= x < rest.len() && rest[x] == d;
            if x < p.len() {
                assert(lows.contains(lows[x]));
                assert(set.contains(lows[x]));
                assert(d / 65536 == cs[at].0 && (d % 65536) as u16 == lows[x]);
                assert(cs[at].0 == d / 65536);
                assert(postings::has_doc_from(cs, 0, d));
            } else {
                assert(q[x - p.len()] == d);
                assert(q.contains(d));
                let j = choose|j: int|
                    at + 1 <= j < cs.len() && (#[trigger] cs[j]).0 == d / 65536
                        && cs[j].1@.contains((d % 65536) as u16);
                assert(cs[at].0 < cs[j].0);
                assert(postings::has_doc_from(cs, 0, d));
            }
        }
        if postings::docs_from(cs, 0).contains(d) && d >= target {
            let j = choose|j: int|
                0 <= j < cs.len() && (#[trigger] cs[j]).0 == d / 65536 && cs[j].1@.contains(
                    (d % 65536) as u16,
                );
            if j < at {
                assert(cs[j].0 < cs[at].0);
            } else if j == at {
                let k = (d % 65536) as u16;
                assert(set.contains(k));
                assert(lows.contains(k));
                let x = choose|x: int| 0 <= x < lows.len() && lows[x] == k;
                assert(p[x] == d);
                assert(rest[x] == d);
            } else {
                assert(postings::has_doc_from(cs, at + 1, d));
                assert(q.contains(d));
                let x = choose|x: int| 0 <= x < q.len() && q[x] == d;
                assert(rest[p.len() + x] == d);
            }
        }
    }
}

/// What is left after a seek between buckets: everything from bucket `at` on.
proof fn lemma_seek_between(cs: Seq<(u16, Container)>, at: int, target: u32)
    requires
        postings::buckets_wf(cs),
        0 <= at <= cs.len(),
        forall|i: int| 0 <= i < at ==> (#[trigger] cs[i]).0 < target / 65536,
        forall|i: int| at <= i < cs.len() ==> (#[trigger] cs[i]).0 >= target / 65536,
        at < cs.len() ==> cs[at].0 != target / 65536,
    ensures
        keyset::increasing_docs(postings::docs_from(cs, at)),
        forall|d: u32| #[trigger]
            postings::docs_from(cs, at).contains(d)
                <==> postings::docs_from(cs, 0).contains(d) && d >= target,
{
    postings::lemma_docs_from(cs, at);
    postings::lemma_docs_from(cs, 0);
    assert forall|d: u32| #[trigger] postings::docs_from(cs, at).contains(d)
        <==> postings::docs_from(cs, 0).contains(d)
        && d >= target by {
        if postings::docs_from(cs, at).contains(d) {
            let j = choose|j: int|
                at <= j < cs.len() && (#[trigger] cs[j]).0 == d / 65536 && cs[j].1@.contains(
                    (d % 65536) as u16,
                );
            assert(cs[at].0 <= cs[j].0);
            assert(postings::has_doc_from(cs, 0, d));
        }
        if postings::docs_from(cs, 0).contains(d) && d >= target {
            let j = choose|j: int|
                0 <= j < cs.len() && (#[trigger] cs[j]).0 == d / 65536 && cs[j].1@.contains(
                    (d % 65536) as u16,
                );
            if j < at {
                assert(cs[j].0 < target / 65536);
            }
            assert(postings::has_doc_from(cs, at, d));
        }
    }
}

} // verus!
