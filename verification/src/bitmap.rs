//! Dense containers: one bit per key in 2048 32-bit words.

use vstd::prelude::*;

use crate::wire;
use crate::keyset;
use crate::array::ArrayContainer;
use crate::error::ContainerError;
use crate::wire::{get_u32, push_u32};
use crate::BITMAP_CONTAINER_WORDS;

verus! {

/// Dense container with fixed `[u32; BITMAP_CONTAINER_WORDS]` storage (8 KiB).
///
/// Word `w` covers positions `32 * w .. 32 * (w + 1)`, and inside a word, bit `b`
/// covers position `32 * w + b`.
#[derive(Debug, PartialEq, Eq)]
pub struct BitmapContainer {
    /// 8 KiB raw word array.
    pub words: Box<[u32; BITMAP_CONTAINER_WORDS]>,
}

/// Bit-scan iterator over a [`BitmapContainer`] yielding set keys in strictly
/// increasing order.
pub struct BitmapContainerIter<'a> {
    words: &'a Box<[u32; BITMAP_CONTAINER_WORDS]>,
    word_idx: usize,
    current_word: u32,
}

/// Bit `b` of `w` is set.
pub open spec fn bit(w: u32, b: int) -> bool {
    (w >> (b as u32)) & 1u32 == 1u32
}

/// The bit that stands for key `k` is set in `words`.
pub open spec fn has_bit(words: Seq<u32>, k: u16) -> bool {
    bit(words[k as int / 32], k as int % 32)
}

/// The keys whose bits are set in `words`.
pub open spec fn word_set(words: Seq<u32>) -> Set<u16> {
    Set::new(|k: u16| has_bit(words, k))
}

/// Number of set bits among the `n` lowest bits of `w`.
pub open spec fn ones_below(w: u32, n: nat) -> nat
    decreases n,
{
    if n == 0 {
        0
    } else {
        ones_below(w, (n - 1) as nat) + if bit(w, n - 1) { 1nat } else { 0nat }
    }
}

/// `u32::count_ones`: the number of ones in the binary representation.
pub assume_specification[ u32::count_ones ](w: u32) -> (r: u32)
    ensures
        r == ones_below(w, 32),
;

/// What a bitmap body decodes to.
pub open spec fn parse_bitmap(b: Seq<u8>) -> Result<Seq<u32>, ContainerError> {
    if b.len() < 8192 {
        Err(ContainerError::Truncated { needed: 8192, got: b.len() as usize })
    } else {
        Ok(Seq::new(2048, |i: int| wire::at32(b, 4 * i)))
    }
}

pub proof fn lemma_bit_and(x: u32, y: u32, b: int)
    requires
        0 <= b < 32,
    ensures
        bit(x & y, b) == (bit(x, b) && bit(y, b)),
{
    let c = b as u32;
    assert(c < 32 ==> (((x & y) >> c) & 1u32 == 1u32) == ((x >> c) & 1u32 == 1u32 && (y >> c) & 1u32
        == 1u32)) by (bit_vector);
}

pub proof fn lemma_bit_or(x: u32, y: u32, b: int)
    requires
        0 <= b < 32,
    ensures
        bit(x | y, b) == (bit(x, b) || bit(y, b)),
{
    let c = b as u32;
    assert(c < 32 ==> (((x | y) >> c) & 1u32 == 1u32) == ((x >> c) & 1u32 == 1u32 || (y >> c) & 1u32
        == 1u32)) by (bit_vector);
}

pub proof fn lemma_bit_xor(x: u32, y: u32, b: int)
    requires
        0 <= b < 32,
    ensures
        bit(x ^ y, b) == (bit(x, b) != bit(y, b)),
{
    let c = b as u32;
    assert(c < 32 ==> (((x ^ y) >> c) & 1u32 == 1u32) == (((x >> c) & 1u32 == 1u32) != ((y >> c)
        & 1u32 == 1u32))) by (bit_vector);
}

pub proof fn lemma_bit_zero(b: int)
    requires
        0 <= b < 32,
    ensures
        !bit(0u32, b),
{
    let c = b as u32;
    assert((0u32 >> c) & 1u32 == 0u32) by (bit_vector);
}

proof fn lemma_bit_set(w: u32, s: u32, b: int)
    requires
        s < 32,
        0 <= b < 32,
    ensures
        bit(w | (1u32 << s), b) == (bit(w, b) || b == s),
{
    let c = b as u32;
    assert(c < 32 && s < 32 ==> (((w | (1u32 << s)) >> c) & 1u32 == 1u32) == ((w >> c) & 1u32
        == 1u32 || c == s)) by (bit_vector);
}

proof fn lemma_bit_clear(w: u32, s: u32, b: int)
    requires
        s < 32,
        0 <= b < 32,
    ensures
        bit(w & !(1u32 << s), b) == (bit(w, b) && b != s),
{
    let c = b as u32;
    assert(c < 32 && s < 32 ==> (((w & !(1u32 << s)) >> c) & 1u32 == 1u32) == ((w >> c) & 1u32
        == 1u32 && c != s)) by (bit_vector);
}

/// Masking off the `s` lowest bits.
proof fn lemma_bit_mask(w: u32, s: u32, b: int)
    requires
        s < 32,
        0 <= b < 32,
    ensures
        bit(w & !(((1u32 << s) - 1) as u32), b) == (bit(w, b) && b >= s),
{
    let c = b as u32;
    assert(c < 32 && s < 32
        ==> (((w & !(((1u32 << s) - 1) as u32)) >> c) & 1u32 == 1u32) == ((w >> c)
        & 1u32 == 1u32 && c >= s)) by (bit_vector);
}

/// The lowest set bit `t` of `w`: nothing below it is set, and clearing the lowest
/// set bit clears exactly it.
proof fn lemma_lowest_bit(w: u32, t: u32)
    requires
        w != 0,
        t == vstd::std_specs::bits::u32_trailing_zeros(w),
    ensures
        t < 32,
        bit(w, t as int),
        forall|b: int| 0 <= b < t ==> !#[trigger] bit(w, b),
        forall|b: int|
            0 <= b < 32 ==> #[trigger] bit(w & (w - 1) as u32, b) == (bit(w, b) && b != t),
{
    vstd::std_specs::bits::axiom_u32_trailing_zeros(w);
    assert forall|b: int| 0 <= b < t implies !#[trigger] bit(w, b) by {
        let c = b as u32;
        assert((w >> c) & 1u32 == 0u32);
    }
    let d = (32 - t) as u32;
    assert(w << d == 0);
    assert forall|b: int| 0 <= b < 32 implies #[trigger] bit(w & (w - 1) as u32, b) == (bit(w, b)
        && b != t) by {
        let c = b as u32;
        let v = (w - 1) as u32;
        assert((((w & v) >> c) & 1u32 == 1u32) == ((w >> c) & 1u32 == 1u32
            && c != t)) by (bit_vector)
            requires
                w != 0u32,
                v == w - 1,
                t < 32u32,
                c < 32u32,
                d == 32 - t,
                w << d == 0u32,
                (w >> t) & 1u32 == 1u32,
        ;
    }
}

/// Bits of word `i` count towards the keys below it.
proof fn lemma_word_count(words: Seq<u32>, i: int, n: nat)
    requires
        words.len() == 2048,
        0 <= i < 2048,
        n <= 32,
    ensures
        keyset::keys_below(word_set(words), 32 * i + n).len() == keyset::keys_below(
            word_set(words),
            32 * i,
        ).len() + ones_below(words[i], n),
    decreases n,
{
    if n > 0 {
        lemma_word_count(words, i, (n - 1) as nat);
        let k = (32 * i + n - 1) as u16;
        assert(k as int / 32 == i && k as int % 32 == n - 1);
        assert(word_set(words).contains(k) == bit(words[i], n - 1));
    }
}

impl View for BitmapContainer {
    type V = Set<u16>;

    /// The keys whose bits are set.
    open spec fn view(&self) -> Set<u16> {
        word_set(self.words@)
    }
}

impl Default for BitmapContainer {
    fn default() -> (r: Self)
        ensures
            r@ == Set::<u16>::empty(),
    {
        BitmapContainer::new()
    }
}

impl Clone for BitmapContainer {
    fn clone(&self) -> (r: Self)
        ensures
            r.words@ == self.words@,
            r@ == self@,
    {
        let mut words: Box<[u32; BITMAP_CONTAINER_WORDS]> = Box::new([0u32; BITMAP_CONTAINER_WORDS]);
        let mut i: usize = 0;
        while i < BITMAP_CONTAINER_WORDS
            invariant
                i <= 2048,
                forall|j: int| 0 <= j < i ==> words@[j] == self.words@[j],
            decreases 2048 - i,
        {
            words[i] = self.words[i];
            i = i + 1;
        }
        assert(words@ =~= self.words@);
        BitmapContainer { words }
    }
}

impl BitmapContainer {
    /// All-zero bitmap (cardinality 0).
    pub fn new() -> (r: Self)
        ensures
            r.words@ == Seq::new(2048, |i: int| 0u32),
            r@ == Set::<u16>::empty(),
    {
        let r = BitmapContainer { words: Box::new([0u32; BITMAP_CONTAINER_WORDS]) };
        proof {
            assert forall|k: u16| !r@.contains(k) by {
                lemma_bit_zero(k as int % 32);
            }
            assert(r@ =~= Set::<u16>::empty());
            assert(r.words@ =~= Seq::new(2048, |i: int| 0u32));
        }
        r
    }

    /// Promote an [`ArrayContainer`] into this dense form.
    pub fn from_array(arr: &ArrayContainer) -> (r: Self)
        ensures
            r@ == arr@,
    {
        let mut bm = BitmapContainer::new();
        bm.insert_all(&arr.keys);
        assert(bm@ =~= arr@);
        bm
    }

    /// Set the bit of every key in `keys`.
    pub(crate) fn insert_all(&mut self, keys: &Vec<u16>)
        ensures
            final(self)@ == old(self)@.union(keys@.to_set()),
    {
        let n: usize = keys.len();
        let mut i: usize = 0;
        while i < n
            invariant
                i <= n,
                n == keys@.len(),
                forall|k: u16| #[trigger]
                    self@.contains(k) <==> old(self)@.contains(k) || exists|j: int|
                        0 <= j < i && keys@[j] == k,
            decreases n - i,
        {
            self.insert(keys[i]);
            i = i + 1;
            assert(keys@[i - 1] == keys@[i - 1]);
        }
        assert(self@ =~= old(self)@.union(keys@.to_set()));
    }

    /// Take an existing word array without re-inserting bit by bit.
    pub fn from_words(words: Box<[u32; BITMAP_CONTAINER_WORDS]>) -> (r: Self)
        ensures
            r.words@ == words@,
            r@ == word_set(words@),
    {
        BitmapContainer { words }
    }

    /// Set bit `key`. Idempotent.
    pub fn insert(&mut self, key: u16)
        ensures
            final(self)@ == old(self)@.insert(key),
    {
        let word: usize = (key / 32) as usize;
        let shift: u32 = (key % 32) as u32;
        self.words[word] = self.words[word] | (1u32 << shift);
        proof {
            assert forall|k: u16| self@.contains(k) == old(self)@.insert(key).contains(k) by {
                lemma_bit_set(old(self).words@[word as int], shift, k as int % 32);
            }
            assert(self@ =~= old(self)@.insert(key));
        }
    }

    /// Clear bit `key`. Idempotent.
    pub fn remove(&mut self, key: u16)
        ensures
            final(self)@ == old(self)@.remove(key),
    {
        let word: usize = (key / 32) as usize;
        let shift: u32 = (key % 32) as u32;
        self.words[word] = self.words[word] & !(1u32 << shift);
        proof {
            assert forall|k: u16| self@.contains(k) == old(self)@.remove(key).contains(k) by {
                lemma_bit_clear(old(self).words@[word as int], shift, k as int % 32);
            }
            assert(self@ =~= old(self)@.remove(key));
        }
    }

    /// True iff bit `key` is set.
    pub fn contains(&self, key: u16) -> (r: bool)
        ensures
            r == self@.contains(key),
    {
        let word: usize = (key / 32) as usize;
        let shift: u32 = (key % 32) as u32;
        (self.words[word] >> shift) & 1u32 == 1u32
    }

    /// Population count summed over the full word array.
    pub fn cardinality(&self) -> (r: u32)
        ensures
            r == self@.len(),
            r <= 65536,
    {
        let mut sum: u32 = 0;
        let mut i: usize = 0;
        while i < BITMAP_CONTAINER_WORDS
            invariant
                i <= 2048,
                sum == keyset::keys_below(self@, 32 * i as int).len(),
            decreases 2048 - i,
        {
            proof {
                lemma_word_count(self.words@, i as int, 32);
                keyset::lemma_keys_below(self@, 32 * (i + 1) as int);
                keyset::lemma_increasing_len(keyset::keys_below(self@, 32 * (i + 1) as int));
            }
            sum = sum + self.words[i].count_ones();
            i = i + 1;
        }
        proof {
            keyset::lemma_sorted_keys_spec(self@);
        }
        sum
    }

    /// Bit-scan iterator. Yields keys in increasing order.
    pub fn iter(&self) -> (r: BitmapContainerIter<'_>)
        ensures
            r.wf(),
            r.remaining() == keyset::sorted_keys(self@),
    {
        let r = BitmapContainerIter { words: &self.words, word_idx: 0, current_word: self.words[0] };
        assert(r.rest() =~= self@);
        r
    }

    /// Bit-scan iterator over the set keys from `key` on.
    pub fn iter_from(&self, key: u16) -> (r: BitmapContainerIter<'_>)
        ensures
            r.wf(),
            r.remaining() == keyset::sorted_keys(keyset::at_or_after(self@, key)),
    {
        let word_idx: usize = (key / 32) as usize;
        let low: u32 = (key % 32) as u32;
        assert(1u32 << low >= 1u32) by (bit_vector)
            requires
                low < 32,
        ;
        let mask: u32 = !((1u32 << low) - 1);
        let r = BitmapContainerIter {
            words: &self.words,
            word_idx,
            current_word: self.words[word_idx] & mask,
        };
        proof {
            assert forall|k: u16| r.rest().contains(k) == keyset::at_or_after(self@, key).contains(
                k,
            ) by {
                lemma_bit_mask(self.words@[word_idx as int], low, k as int % 32);
            }
            assert(r.rest() =~= keyset::at_or_after(self@, key));
        }
        r
    }

    /// Word-wise AND, in the dense form.
    pub(crate) fn and_words(&self, other: &BitmapContainer) -> (r: BitmapContainer)
        ensures
            r@ == self@.intersect(other@),
    {
        let mut out: Box<[u32; BITMAP_CONTAINER_WORDS]> = Box::new([0u32; BITMAP_CONTAINER_WORDS]);
        let mut i: usize = 0;
        while i < BITMAP_CONTAINER_WORDS
            invariant
                i <= 2048,
                forall|j: int| 0 <= j < i ==> out@[j] == self.words@[j] & other.words@[j],
            decreases 2048 - i,
        {
            out[i] = self.words[i] & other.words[i];
            i = i + 1;
        }
        let r = BitmapContainer { words: out };
        proof {
            assert forall|k: u16| r@.contains(k) == self@.intersect(other@).contains(k) by {
                lemma_bit_and(self.words@[k as int / 32], other.words@[k as int / 32], k as int % 32);
            }
            assert(r@ =~= self@.intersect(other@));
        }
        r
    }

    /// Word-wise OR. The result stays a bitmap.
    pub fn or(&self, other: &BitmapContainer) -> (r: BitmapContainer)
        ensures
            r@ == self@.union(other@),
    {
        let mut out: Box<[u32; BITMAP_CONTAINER_WORDS]> = Box::new([0u32; BITMAP_CONTAINER_WORDS]);
        let mut i: usize = 0;
        while i < BITMAP_CONTAINER_WORDS
            invariant
                i <= 2048,
                forall|j: int| 0 <= j < i ==> out@[j] == self.words@[j] | other.words@[j],
            decreases 2048 - i,
        {
            out[i] = self.words[i] | other.words[i];
            i = i + 1;
        }
        let r = BitmapContainer { words: out };
        proof {
            assert forall|k: u16| r@.contains(k) == self@.union(other@).contains(k) by {
                lemma_bit_or(self.words@[k as int / 32], other.words@[k as int / 32], k as int % 32);
            }
            assert(r@ =~= self@.union(other@));
        }
        r
    }

    /// Word-wise XOR, in the dense form.
    pub(crate) fn xor_words(&self, other: &BitmapContainer) -> (r: BitmapContainer)
        ensures
            r@ == sym_diff(self@, other@),
    {
        let mut out: Box<[u32; BITMAP_CONTAINER_WORDS]> = Box::new([0u32; BITMAP_CONTAINER_WORDS]);
        let mut i: usize = 0;
        while i < BITMAP_CONTAINER_WORDS
            invariant
                i <= 2048,
                forall|j: int| 0 <= j < i ==> out@[j] == self.words@[j] ^ other.words@[j],
            decreases 2048 - i,
        {
            out[i] = self.words[i] ^ other.words[i];
            i = i + 1;
        }
        let r = BitmapContainer { words: out };
        proof {
            assert forall|k: u16| r@.contains(k) == sym_diff(self@, other@).contains(k) by {
                lemma_bit_xor(self.words@[k as int / 32], other.words@[k as int / 32], k as int % 32);
            }
            assert(r@ =~= sym_diff(self@, other@));
        }
        r
    }

    /// On-disk encoding: 8 KiB raw little-endian word array.
    pub fn to_bytes(&self) -> (r: Vec<u8>)
        ensures
            r@ == wire::enc32(self.words@),
            r@.len() == 8192,
    {
        let mut out: Vec<u8> = Vec::new();
        let mut i: usize = 0;
        assert(wire::enc32(self.words@.take(0)) =~= Seq::<u8>::empty());
        while i < BITMAP_CONTAINER_WORDS
            invariant
                i <= 2048,
                out@ == wire::enc32(self.words@.take(i as int)),
            decreases 2048 - i,
        {
            push_u32(&mut out, self.words[i]);
            proof {
                wire::lemma_enc32_push(self.words@.take(i as int), self.words@[i as int]);
                assert(self.words@.take(i + 1) =~= self.words@.take(i as int).push(
                    self.words@[i as int],
                ));
            }
            i = i + 1;
        }
        assert(self.words@.take(2048) =~= self.words@);
        out
    }

    /// Inverse of [`Self::to_bytes`].
    pub fn from_bytes(slice: &[u8]) -> (r: Result<Self, ContainerError>)
        ensures
            match r {
                Ok(b) => parse_bitmap(slice@) == Ok::<Seq<u32>, ContainerError>(b.words@),
                Err(e) => parse_bitmap(slice@) == Err::<Seq<u32>, ContainerError>(e),
            },
    {
        let needed: usize = BITMAP_CONTAINER_WORDS * 4;
        if slice.len() < needed {
            return Err(ContainerError::Truncated { needed, got: slice.len() });
        }
        let mut words: Box<[u32; BITMAP_CONTAINER_WORDS]> = Box::new([0u32; BITMAP_CONTAINER_WORDS]);
        let mut i: usize = 0;
        while i < BITMAP_CONTAINER_WORDS
            invariant
                i <= 2048,
                slice@.len() >= 8192,
                forall|j: int| 0 <= j < i ==> words@[j] == wire::at32(slice@, 4 * j),
            decreases 2048 - i,
        {
            words[i] = get_u32(slice, 4 * i);
            i = i + 1;
        }
        assert(words@ =~= Seq::new(2048, |i: int| wire::at32(slice@, 4 * i)));
        Ok(BitmapContainer { words })
    }

}

/// Number of maximal runs of consecutive set keys.
pub fn count_runs_in_bitmap(bm: &BitmapContainer) -> (r: usize)
    ensures
        r == keyset::run_count(bm@),
        r <= 65536,
{
    let mut runs: usize = 0;
    let mut prev_set: bool = false;
    let mut k: u32 = 0;
    while k < 65536
        invariant
            k <= 65536,
            runs == keyset::runs_below(bm@, k as int),
            runs <= k,
            prev_set == (k > 0 && bm@.contains((k - 1) as u16)),
        decreases 65536 - k,
    {
        let is_set: bool = bm.contains(k as u16);
        if is_set && !prev_set {
            runs = runs + 1;
        }
        assert(keyset::opens_run(bm@, k as int) == (is_set && !prev_set));
        prev_set = is_set;
        k = k + 1;
    }
    runs
}

/// The keys in exactly one of two sets.
pub open spec fn sym_diff(a: Set<u16>, b: Set<u16>) -> Set<u16> {
    Set::new(|k: u16| a.contains(k) != b.contains(k))
}

impl<'a> BitmapContainerIter<'a> {
    /// The scan position lies within the words.
    pub closed spec fn wf(&self) -> bool {
        self.word_idx < 2048
    }

    /// The keys still to come, as a set: what is left of the current word and
    /// every key of the words behind it.
    closed spec fn rest(&self) -> Set<u16> {
        Set::new(
            |k: u16|
                if k as int / 32 == self.word_idx {
                    bit(self.current_word, k as int % 32)
                } else {
                    k as int / 32 > self.word_idx && has_bit(self.words@, k)
                },
        )
    }

    /// The keys still to come, in ascending order.
    pub closed spec fn remaining(&self) -> Seq<u16> {
        keyset::sorted_keys(self.rest())
    }

    /// The next set key, in ascending order.
    pub fn next(&mut self) -> (r: Option<u16>)
        requires
            old(self).wf(),
        ensures
            final(self).wf(),
            match r {
                Some(k) => old(self).remaining().len() > 0 && k == old(self).remaining()[0]
                    && final(self).remaining() == old(self).remaining().drop_first(),
                None => old(self).remaining().len() == 0
                    && final(self).remaining() == old(self).remaining(),
            },
    {
        loop
            invariant
                self.wf(),
                self.rest() == old(self).rest(),
            decreases 2048 - self.word_idx,
        {
            if self.current_word != 0 {
                let low: u32 = self.current_word.trailing_zeros();
                let ghost w = self.current_word;
                let ghost rest = self.rest();
                proof {
                    lemma_lowest_bit(w, low);
                }
                self.current_word = self.current_word & (self.current_word - 1);
                let key: u16 = (self.word_idx as u16) * 32 + low as u16;
                proof {
                    assert(key as int / 32 == self.word_idx && key as int % 32 == low);
                    assert(rest.contains(key));
                    assert forall|x: u16| rest.contains(x) implies key <= x by {
                        if x as int / 32 == self.word_idx {
                            assert(bit(w, x as int % 32));
                        }
                    }
                    assert forall|x: u16| self.rest().contains(x)
                        == rest.remove(key).contains(x) by {
                        if x as int / 32 == self.word_idx {
                            assert(bit(w & (w - 1) as u32, x as int % 32)
                                == (bit(w, x as int % 32) && x
                                as int % 32 != low));
                        }
                    }
                    assert(self.rest() =~= rest.remove(key));
                    keyset::lemma_sorted_keys_first(rest, key);
                }
                return Some(key);
            }
            if self.word_idx + 1 >= BITMAP_CONTAINER_WORDS {
                proof {
                    assert forall|x: u16| !self.rest().contains(x) by {
                        lemma_bit_zero(x as int % 32);
                    }
                    keyset::lemma_sorted_keys_empty(self.rest());
                }
                return None;
            }
            let ghost before = self.rest();
            self.word_idx = self.word_idx + 1;
            self.current_word = self.words[self.word_idx];
            proof {
                assert forall|x: u16| self.rest().contains(x) == before.contains(x) by {
                    lemma_bit_zero(x as int % 32);
                }
                assert(self.rest() =~= before);
            }
        }
    }

    /// All keys still to come.
    pub fn collect(self) -> (r: Vec<u16>)
        requires
            self.wf(),
        ensures
            r@ == self.remaining(),
    {
        let mut it = self;
        let mut out: Vec<u16> = Vec::new();
        let ghost all = self.remaining();
        assert(all =~= out@ + it.remaining());
        loop
            invariant
                it.wf(),
                all == out@ + it.remaining(),
            ensures
                out@ == all,
            decreases it.remaining().len(),
        {
            match it.next() {
                Some(k) => {
                    out.push(k);
                    assert(all =~= out@ + it.remaining());
                },
                None => {
                    assert(all =~= out@);
                    break;
                },
            }
        }
        out
    }
}

/// Decoding an encoded bitmap gives its words back.
pub proof fn lemma_bitmap_round_trip(words: Seq<u32>, tail: Seq<u8>)
    requires
        words.len() == 2048,
    ensures
        parse_bitmap(wire::enc32(words) + tail) == Ok::<Seq<u32>, ContainerError>(words),
{
    let b = wire::enc32(words) + tail;
    assert(wire::holds_at(b, 0, wire::enc32(words))) by {
        assert forall|i: int| 0 <= i < wire::enc32(words).len()
            implies b[0 + i] == #[trigger] wire::enc32(
            words,
        )[i] by {}
    }
    let got = Seq::new(2048, |i: int| wire::at32(b, 4 * i));
    assert forall|i: int| 0 <= i < 2048 implies got[i] == words[i] by {
        wire::lemma_enc32_at(b, 0, words, i);
    }
    assert(got =~= words);
}

} // verus!
