//! From block-wise posting cursors to posting lists.
//!
//! A block cursor hands out the document ids of a posting list block by block, in
//! ascending order; an empty block ends the list. Draining one gives the posting list
//! of all its documents. Term frequencies are not kept.

use vstd::prelude::*;

use crate::encoder;

use crate::encoder::RoaringEncoder;
use crate::postings::RoaringPostings;

verus! {

/// Cursor over the blocks of a posting list.
pub struct BlockSegmentPostings {
    blocks: Vec<Vec<u32>>,
    position: usize,
}

/// The documents of the blocks from number `i` on, up to the first empty one.
pub open spec fn docs_until_end(blocks: Seq<Vec<u32>>, i: int) -> Set<u32>
    decreases blocks.len() - i,
{
    if i < 0 || i >= blocks.len() || blocks[i]@.len() == 0 {
        Set::empty()
    } else {
        blocks[i]@.to_set().union(docs_until_end(blocks, i + 1))
    }
}

/// The number of the first empty block from `i` on, or of the end.
pub open spec fn end_from(blocks: Seq<Vec<u32>>, i: int) -> int
    decreases blocks.len() - i,
{
    if i < 0 || i >= blocks.len() || blocks[i]@.len() == 0 {
        i
    } else {
        end_from(blocks, i + 1)
    }
}

impl BlockSegmentPostings {
    /// The position is that of a block, or the end.
    pub closed spec fn wf(&self) -> bool {
        self.position <= self.blocks@.len()
    }

    /// All blocks.
    pub closed spec fn blocks(&self) -> Seq<Vec<u32>> {
        self.blocks@
    }

    /// Number of the current block.
    pub closed spec fn at(&self) -> int {
        self.position as int
    }

    /// The documents that a drain would still find.
    pub open spec fn remaining(&self) -> Set<u32> {
        docs_until_end(self.blocks(), self.at())
    }

    /// Cursor at the first of the given blocks.
    pub fn new(blocks: Vec<Vec<u32>>) -> (r: Self)
        ensures
            r.wf(),
            r.blocks() == blocks@,
            r.at() == 0,
    {
        BlockSegmentPostings { blocks, position: 0 }
    }

    /// Cursor without blocks.
    pub fn empty() -> (r: Self)
        ensures
            r.wf(),
            r.blocks() == Seq::<Vec<u32>>::empty(),
            r.at() == 0,
    {
        BlockSegmentPostings { blocks: Vec::new(), position: 0 }
    }

    /// The documents of the current block; none at the end.
    pub fn docs(&self) -> (r: &[u32])
        requires
            self.wf(),
        ensures
            r@ == (if self.at() < self.blocks().len() {
                self.blocks()[self.at()]@
            } else {
                Seq::empty()
            }),
    {
        if self.position < self.blocks.len() {
            self.blocks[self.position].as_slice()
        } else {
            &[]
        }
    }

    /// Go to the next block.
    pub fn advance(&mut self)
        requires
            old(self).wf(),
        ensures
            final(self).wf(),
            final(self).blocks() == old(self).blocks(),
            final(self).at() == (if old(self).at() < old(self).blocks().len() {
                old(self).at() + 1
            } else {
                old(self).at()
            }),
    {
        if self.position < self.blocks.len() {
            self.position = self.position + 1;
        }
    }
}

/// A drain finds every document of every block up to the first empty one, nothing else,
/// and ends there: `e` is the number of the first empty block from `p` on, or of the
/// blocks where none is empty.
pub proof fn lemma_drain_finds_every_block(blocks: Seq<Vec<u32>>, p: int, e: int)
    requires
        0 <= p <= e <= blocks.len(),
        forall|i: int| p <= i < e ==> (#[trigger] blocks[i])@.len() > 0,
        e == blocks.len() || blocks[e]@.len() == 0,
    ensures
        end_from(blocks, p) == e,
        forall|i: int, j: int|
            p <= i < e && 0 <= j < blocks[i]@.len() ==> docs_until_end(blocks, p).contains(
                #[trigger] blocks[i]@[j],
            ),
        forall|d: u32| #[trigger]
            docs_until_end(blocks, p).contains(d) ==> exists|i: int, j: int|
                p <= i < e && 0 <= j < blocks[i]@.len() && #[trigger] blocks[i]@[j] == d,
    decreases e - p,
{
    if p < e {
        lemma_drain_finds_every_block(blocks, p + 1, e);
        let all = docs_until_end(blocks, p);
        assert(blocks[p]@.len() > 0);
        assert(all == blocks[p]@.to_set().union(docs_until_end(blocks, p + 1)));
        assert forall|i: int, j: int| p <= i < e && 0 <= j < blocks[i]@.len() implies all.contains(
            #[trigger] blocks[i]@[j],
        ) by {
            if i == p {
                assert(blocks[p]@.contains(blocks[p]@[j]));
            }
        }
        assert forall|d: u32| #[trigger] all.contains(d) implies exists|i: int, j: int|
            p <= i < e && 0 <= j < blocks[i]@.len() && #[trigger] blocks[i]@[j] == d by {
            if blocks[p]@.to_set().contains(d) {
                let j = choose|j: int| 0 <= j < blocks[p]@.len() && blocks[p]@[j] == d;
                assert(blocks[p]@[j] == d);
            } else {
                assert(docs_until_end(blocks, p + 1).contains(d));
            }
        }
    }
}

/// What a drain of a cursor finds: the documents of the blocks from its own on, up to the
/// first empty one.
pub proof fn lemma_cursor_still_holds(cursor: BlockSegmentPostings, e: int, d: u32)
    requires
        0 <= cursor.at() <= e <= cursor.blocks().len(),
        forall|i: int| cursor.at() <= i < e ==> (#[trigger] cursor.blocks()[i])@.len() > 0,
        e == cursor.blocks().len() || cursor.blocks()[e]@.len() == 0,
    ensures
        cursor.remaining().contains(d) <==> exists|i: int, j: int|
            cursor.at() <= i < e && 0 <= j < cursor.blocks()[i]@.len()
                && #[trigger] cursor.blocks()[i]@[j] == d,
{
    lemma_drain_finds_every_block(cursor.blocks(), cursor.at(), e);
}

/// Drain a block cursor into a posting list. The cursor is left at the empty block, or
/// at the end.
pub fn drain_block_segment_to_roaring(cursor: &mut BlockSegmentPostings) -> (r: RoaringPostings)
    requires
        old(cursor).wf(),
    ensures
        final(cursor).wf(),
        final(cursor).blocks() == old(cursor).blocks(),
        final(cursor).at() == end_from(old(cursor).blocks(), old(cursor).at()),
        r.wf(),
        r@ == old(cursor).remaining(),
        encoder::canonical(r.containers@),
{
    let ghost blocks = cursor.blocks();
    let ghost all = cursor.remaining();
    let ghost end = end_from(blocks, cursor.at());
    let mut enc: RoaringEncoder = RoaringEncoder::new();
    assert(enc@.union(all) =~= all);
    while cursor.docs().len() > 0
        invariant
            cursor.wf(),
            cursor.blocks() == blocks,
            enc.wf(),
            enc@.union(docs_until_end(blocks, cursor.at())) == all,
            end_from(blocks, cursor.at()) == end,
        decreases blocks.len() - cursor.at(),
    {
        let ghost before = enc@;
        let ghost i = cursor.at();
        enc.add_sorted(cursor.docs());
        cursor.advance();
        assert(enc@.union(docs_until_end(blocks, i + 1)) =~= before.union(
            docs_until_end(blocks, i),
        ));
    }
    assert(enc@.union(Set::empty()) =~= enc@);
    enc.finalize()
}

} // verus!
