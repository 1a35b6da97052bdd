//! Flat bitmaps: 2048 words per bucket for a fixed list of buckets.
//!
//! A list of posting lists is aligned on a common ascending list of bucket keys.
//! Each list then becomes one flat word array, and Bool queries become word-wise
//! operations on these arrays.

use vstd::prelude::*;

use crate::bitmap;
use crate::keyset;

verus! {

/// Bool operation on posting lists.
#[derive(Debug, Clone, Copy, PartialEq, Eq, Hash, Structural)]
pub enum BoolOp {
    /// `out[i] = a[i] & b[i]`.
    And,
    /// `out[i] = a[i] | b[i]`.
    Or,
    /// `out[i] = a[i] ^ b[i]`.
    Xor,
}

/// The operation on one word.
pub open spec fn op_word(op: BoolOp, x: u32, y: u32) -> u32 {
    match op {
        BoolOp::And => x & y,
        BoolOp::Or => x | y,
        BoolOp::Xor => x ^ y,
    }
}

/// The operation word by word.
pub open spec fn op_words(op: BoolOp, a: Seq<u32>, b: Seq<u32>) -> Seq<u32> {
    Seq::new(a.len(), |i: int| op_word(op, a[i], b[i]))
}

/// The operation on document sets.
pub open spec fn op_docs(op: BoolOp, a: Set<u32>, b: Set<u32>) -> Set<u32> {
    match op {
        BoolOp::And => a.intersect(b),
        BoolOp::Or => a.union(b),
        BoolOp::Xor => Set::new(|d: u32| a.contains(d) != b.contains(d)),
    }
}

/// The words of bucket `i`.
pub open spec fn window(words: Seq<u32>, i: int) -> Seq<u32> {
    words.subrange(2048 * i, 2048 * i + 2048)
}

/// A flat array with 2048 words for each key.
pub open spec fn flat_wf(keys: Seq<u16>, words: Seq<u32>) -> bool {
    keyset::increasing(keys) && words.len() == 2048 * keys.len()
}

/// Document `d` is set in the flat array.
pub open spec fn has_flat_doc(keys: Seq<u16>, words: Seq<u32>, d: u32) -> bool {
    exists|i: int|
        0 <= i < keys.len() && #[trigger] keys[i] == d / 65536 && bitmap::has_bit(
            window(words, i),
            (d % 65536) as u16,
        )
}

/// The documents of a flat array.
pub open spec fn flat_docs(keys: Seq<u16>, words: Seq<u32>) -> Set<u32> {
    Set::new(|d: u32| has_flat_doc(keys, words, d))
}

/// The bucket of a document is the only one that can hold it.
pub proof fn lemma_flat_bucket(keys: Seq<u16>, words: Seq<u32>, i: int, d: u32)
    requires
        flat_wf(keys, words),
        0 <= i < keys.len(),
        keys[i] == d / 65536,
    ensures
        flat_docs(keys, words).contains(d) == bitmap::has_bit(window(words, i), (d % 65536) as u16),
{
    if has_flat_doc(keys, words, d) {
        let j = choose|j: int|
            0 <= j < keys.len() && #[trigger] keys[j] == d / 65536 && bitmap::has_bit(
                window(words, j),
                (d % 65536) as u16,
            );
        if j < i {
            assert(keys[j] < keys[i]);
        } else if i < j {
            assert(keys[i] < keys[j]);
        }
    }
}

/// The word-wise operation on flat arrays is the set operation on their documents.
pub proof fn lemma_op_words(op: BoolOp, keys: Seq<u16>, a: Seq<u32>, b: Seq<u32>)
    requires
        flat_wf(keys, a),
        flat_wf(keys, b),
    ensures
        flat_wf(keys, op_words(op, a, b)),
        flat_docs(keys, op_words(op, a, b)) == op_docs(op, flat_docs(keys, a), flat_docs(keys, b)),
{
    let c = op_words(op, a, b);
    assert forall|d: u32| flat_docs(keys, c).contains(d) == op_docs(
        op,
        flat_docs(keys, a),
        flat_docs(keys, b),
    ).contains(d) by {
        if exists|i: int| 0 <= i < keys.len() && #[trigger] keys[i] == d / 65536 {
            let i = choose|i: int| 0 <= i < keys.len() && #[trigger] keys[i] == d / 65536;
            lemma_flat_bucket(keys, a, i, d);
            lemma_flat_bucket(keys, b, i, d);
            lemma_flat_bucket(keys, c, i, d);
            let low = (d % 65536) as u16;
            let w = low as int / 32;
            let x = window(a, i)[w];
            let y = window(b, i)[w];
            assert(window(c, i)[w] == op_word(op, x, y));
            bitmap::lemma_bit_and(x, y, low as int % 32);
            bitmap::lemma_bit_or(x, y, low as int % 32);
            bitmap::lemma_bit_xor(x, y, low as int % 32);
        } else {
            assert(!has_flat_doc(keys, a, d));
            assert(!has_flat_doc(keys, b, d));
            assert(!has_flat_doc(keys, c, d));
        }
    }
    assert(flat_docs(keys, c) =~= op_docs(op, flat_docs(keys, a), flat_docs(keys, b)));
}

/// The operation over a whole list of word arrays, from the left.
pub open spec fn fold_words(op: BoolOp, bufs: Seq<Seq<u32>>, n: int) -> Seq<u32>
    decreases n,
{
    if n <= 1 {
        bufs[0]
    } else {
        op_words(op, fold_words(op, bufs, n - 1), bufs[n - 1])
    }
}

/// The operation over a whole list of document sets, from the left.
pub open spec fn fold_docs(op: BoolOp, sets: Seq<Set<u32>>, n: int) -> Set<u32>
    decreases n,
{
    if n <= 1 {
        sets[0]
    } else {
        op_docs(op, fold_docs(op, sets, n - 1), sets[n - 1])
    }
}

/// Folding flat arrays word by word folds their document sets.
pub proof fn lemma_fold_words(op: BoolOp, keys: Seq<u16>, bufs: Seq<Seq<u32>>, n: int)
    requires
        1 <= n <= bufs.len(),
        forall|i: int| 0 <= i < bufs.len() ==> flat_wf(keys, #[trigger] bufs[i]),
    ensures
        flat_wf(keys, fold_words(op, bufs, n)),
        flat_docs(keys, fold_words(op, bufs, n)) == fold_docs(
            op,
            Seq::new(bufs.len(), |i: int| flat_docs(keys, bufs[i])),
            n,
        ),
    decreases n,
{
    assert(flat_wf(keys, bufs[n - 1]));
    if n > 1 {
        lemma_fold_words(op, keys, bufs, n - 1);
        lemma_op_words(op, keys, fold_words(op, bufs, n - 1), bufs[n - 1]);
    }
}

} // verus!
