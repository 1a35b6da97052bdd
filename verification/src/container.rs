//! The top-level container and its dispatch over the three forms.
//!
//! A posting list partitions every 32-bit doc-id into a `(high16, low16)` pair.
//! Each `high16` key buckets the low 16 bits into one of three container forms
//! chosen for cardinality and run density: [`ArrayContainer`] for sparse buckets,
//! [`BitmapContainer`] for dense ones, [`RunContainer`] for buckets that consist
//! of few contiguous ranges.
//!
//! ## Wire format (per container)
//!
//! Every container serialises with a 1-byte tag prefix so that the stream is
//! self-describing: `0x01` and an array body, `0x02` and a bitmap body, `0x03` and
//! a run body. All multi-byte integers are little-endian.

use vstd::prelude::*;

use crate::wire;
use crate::run;
use crate::keyset;
use crate::bitmap;
use crate::array;
pub use crate::array::{count_runs_in_array, ArrayContainer, ArrayContainerIter};
pub use crate::bitmap::{count_runs_in_bitmap, BitmapContainer, BitmapContainerIter};
pub use crate::error::ContainerError;
pub use crate::run::{Run, RunContainer, RunContainerIter};

use crate::array::{merge_or, merge_xor};
use crate::run::{sweep_and, sweep_or};
use crate::wire::{get_u16, get_u32, push_bytes, slice_of, to_usize};
use crate::BITMAP_CONTAINER_WORDS;

verus! {

/// Promotion threshold: an [`ArrayContainer`] with strictly more than 4096 entries
/// upgrades to a [`BitmapContainer`] because the array crosses the storage
/// break-even point (2 x 4096 B = 8 KiB, the bitmap's fixed footprint).
pub const ARRAY_TO_BITMAP_THRESHOLD: u32 = 4096;

/// Total cells in a 16-bit bucket. [`BitmapContainer`] covers exactly this many
/// positions; no cardinality can exceed it.
pub const CONTAINER_CARDINALITY_MAX: u32 = 65536;

/// Tag of an array body.
pub const TAG_ARRAY: u8 = 0x01;

/// Tag of a bitmap body.
pub const TAG_BITMAP: u8 = 0x02;

/// Tag of a run body.
pub const TAG_RUN: u8 = 0x03;

/// Top-level dispatch over the three container forms.
///
/// All set ops are total: every pairing of forms has a defined path.
#[derive(Debug, PartialEq, Eq)]
pub enum Container {
    /// Sparse form.
    Array(ArrayContainer),
    /// Dense form (8 KiB fixed).
    Bitmap(BitmapContainer),
    /// Run-length form.
    Run(RunContainer),
}

/// Iterator over the keys of a [`Container`], in ascending order.
pub enum ContainerIter<'a> {
    /// Over the sparse form.
    Array(ArrayContainerIter<'a>),
    /// Over the dense form.
    Bitmap(BitmapContainerIter<'a>),
    /// Over the run-length form.
    Run(RunContainerIter<'a>),
}

/// The form of a container.
#[derive(Debug, Clone, Copy, PartialEq, Eq, Structural)]
pub enum ContainerForm {
    /// A sorted key list.
    Array,
    /// A fixed word array.
    Bitmap,
    /// A list of runs.
    Run,
}

/// What a container holds, form by form.
#[verifier::ext_equal]
pub enum Contents {
    /// The keys of the sparse form.
    Array(Seq<u16>),
    /// The words of the dense form.
    Bitmap(Seq<u32>),
    /// The runs of the run-length form.
    Run(Seq<Run>),
}

/// Bytes of the form that holds `card` keys without runs: a key list up to the
/// promotion threshold, else a bitmap.
pub open spec fn plain_bytes(card: nat) -> nat {
    if card <= 4096 {
        4 + 2 * card
    } else {
        8192
    }
}

/// The form with the smallest encoding: runs where they take strictly less than
/// the alternative, which is a key list up to the promotion threshold, else a
/// bitmap.
pub open spec fn best_form(card: nat, runs: nat) -> ContainerForm {
    if 2 + 4 * runs < plain_bytes(card) && card > 0 {
        ContainerForm::Run
    } else {
        small_form(card)
    }
}

/// A key list up to the promotion threshold, else a bitmap.
pub open spec fn small_form(card: nat) -> ContainerForm {
    if card <= 4096 {
        ContainerForm::Array
    } else {
        ContainerForm::Bitmap
    }
}

/// The form of an intersection.
pub open spec fn and_form(a: Container, b: Container) -> ContainerForm {
    let card = a@.intersect(b@).len();
    match (a, b) {
        (Container::Run(x), Container::Run(y)) => best_form(
            card,
            run::overlaps_from(x.runs@, y.runs@, 0, 0).len(),
        ),
        (Container::Array(_), _) => ContainerForm::Array,
        (_, Container::Array(_)) => ContainerForm::Array,
        _ => small_form(card),
    }
}

/// The form of a union.
pub open spec fn or_form(a: Container, b: Container) -> ContainerForm {
    let all = a@.union(b@);
    match (a, b) {
        (Container::Array(_), Container::Array(_)) => small_form(all.len()),
        (Container::Bitmap(_), _) => ContainerForm::Bitmap,
        (_, Container::Bitmap(_)) => ContainerForm::Bitmap,
        _ => best_form(all.len(), keyset::run_count(all)),
    }
}

/// The form of a symmetric difference.
pub open spec fn xor_form(a: Container, b: Container) -> ContainerForm {
    let all = bitmap::sym_diff(a@, b@);
    match (a, b) {
        (Container::Array(_), Container::Array(_)) => small_form(all.len()),
        (Container::Bitmap(_), Container::Bitmap(_)) => small_form(all.len()),
        _ => best_form(all.len(), keyset::run_count(all)),
    }
}

/// The encoding of a container: a tag and the body of its form.
pub open spec fn container_bytes(c: Contents) -> Seq<u8> {
    match c {
        Contents::Array(keys) => seq![TAG_ARRAY] + array::array_bytes(keys),
        Contents::Bitmap(words) => seq![TAG_BITMAP] + wire::enc32(words),
        Contents::Run(runs) => seq![TAG_RUN] + run::run_bytes(runs),
    }
}

/// What the front of a byte string decodes to, with the number of bytes it takes.
pub open spec fn parse_container(b: Seq<u8>) -> Result<(Contents, usize), ContainerError> {
    if b.len() == 0 {
        Err(ContainerError::Truncated { needed: 1, got: 0 })
    } else if b[0] == TAG_ARRAY {
        if b.len() < 5 {
            Err(ContainerError::Truncated { needed: 5, got: b.len() as usize })
        } else {
            let total = 5 + 2 * wire::at32(b, 1);
            if b.len() < total {
                Err(ContainerError::Truncated { needed: wire::clamp_usize(total), got: b.len() as usize })
            } else {
                match array::parse_array(b.subrange(1, total)) {
                    Ok(keys) => Ok((Contents::Array(keys), total as usize)),
                    Err(e) => Err(e),
                }
            }
        }
    } else if b[0] == TAG_BITMAP {
        if b.len() < 8193 {
            Err(ContainerError::Truncated { needed: 8193, got: b.len() as usize })
        } else {
            match bitmap::parse_bitmap(b.subrange(1, 8193)) {
                Ok(words) => Ok((Contents::Bitmap(words), 8193usize)),
                Err(e) => Err(e),
            }
        }
    } else if b[0] == TAG_RUN {
        if b.len() < 3 {
            Err(ContainerError::Truncated { needed: 3, got: b.len() as usize })
        } else {
            let total = 3 + 4 * wire::at16(b, 1);
            if b.len() < total {
                Err(ContainerError::Truncated { needed: total as usize, got: b.len() as usize })
            } else {
                match run::parse_runs(b.subrange(1, total)) {
                    Ok(runs) => Ok((Contents::Run(runs), total as usize)),
                    Err(e) => Err(e),
                }
            }
        }
    } else {
        Err(ContainerError::UnknownTag(b[0]))
    }
}

impl ArrayContainer {
    /// Set union. Promotes to a [`BitmapContainer`] if the result crosses the
    /// [`ARRAY_TO_BITMAP_THRESHOLD`] cutoff.
    pub fn or(&self, other: &ArrayContainer) -> (r: Container)
        requires
            self.wf(),
            other.wf(),
        ensures
            r.wf(),
            r@ == self@.union(other@),
            r.form() == small_form(r@.len()),
    {
        let out = ArrayContainer { keys: merge_or(&self.keys, &other.keys) };
        assert(out@ =~= self@.union(other@));
        promote(out)
    }

    /// Set symmetric difference. Promotes to a [`BitmapContainer`] if the result
    /// crosses the [`ARRAY_TO_BITMAP_THRESHOLD`] cutoff.
    pub fn xor(&self, other: &ArrayContainer) -> (r: Container)
        requires
            self.wf(),
            other.wf(),
        ensures
            r.wf(),
            r@ == bitmap::sym_diff(self@, other@),
            r.form() == small_form(r@.len()),
    {
        let out = ArrayContainer { keys: merge_xor(&self.keys, &other.keys) };
        assert(out@ =~= bitmap::sym_diff(self@, other@));
        promote(out)
    }
}

/// The array itself up to the promotion threshold, else its dense form.
fn promote(arr: ArrayContainer) -> (r: Container)
    requires
        arr.wf(),
    ensures
        r.wf(),
        r@ == arr@,
        r.form() == small_form(r@.len()),
{
    if arr.cardinality() > ARRAY_TO_BITMAP_THRESHOLD {
        Container::Bitmap(BitmapContainer::from_array(&arr))
    } else {
        Container::Array(arr)
    }
}

/// The bitmap itself above the promotion threshold, else its key list.
fn demote(bm: BitmapContainer) -> (r: Container)
    ensures
        r.wf(),
        r@ == bm@,
        r.form() == small_form(r@.len()),
{
    if bm.cardinality() <= ARRAY_TO_BITMAP_THRESHOLD {
        let keys: Vec<u16> = bm.iter().collect();
        proof {
            keyset::lemma_sorted_keys_spec(bm@);
        }
        Container::Array(ArrayContainer { keys })
    } else {
        Container::Bitmap(bm)
    }
}

impl BitmapContainer {
    /// Word-wise AND. Demotes to [`ArrayContainer`] if the result has at most
    /// [`ARRAY_TO_BITMAP_THRESHOLD`] keys.
    pub fn and(&self, other: &BitmapContainer) -> (r: Container)
        ensures
            r.wf(),
            r@ == self@.intersect(other@),
            r.form() == small_form(r@.len()),
    {
        demote(self.and_words(other))
    }

    /// Word-wise XOR. Demotes to [`ArrayContainer`] if the result has at most
    /// [`ARRAY_TO_BITMAP_THRESHOLD`] keys.
    pub fn xor(&self, other: &BitmapContainer) -> (r: Container)
        ensures
            r.wf(),
            r@ == bitmap::sym_diff(self@, other@),
            r.form() == small_form(r@.len()),
    {
        demote(self.xor_words(other))
    }
}

impl RunContainer {
    /// Sweep-line interval intersection.
    pub fn and(&self, other: &RunContainer) -> (r: Container)
        requires
            self.wf(),
            other.wf(),
        ensures
            r.wf(),
            r@ == self@.intersect(other@),
            r.form() == best_form(r@.len(), run::overlaps_from(self.runs@, other.runs@, 0, 0).len()),
            r matches Container::Run(x)
                ==> x.runs@ == run::overlaps_from(self.runs@, other.runs@, 0, 0),
    {
        Container::Run(RunContainer { runs: sweep_and(&self.runs, &other.runs) }).optimize()
    }

    /// Sweep-line interval union with greedy merge of touching runs.
    pub fn or(&self, other: &RunContainer) -> (r: Container)
        requires
            self.wf(),
            other.wf(),
        ensures
            r.wf(),
            r@ == self@.union(other@),
            r.form() == best_form(r@.len(), keyset::run_count(r@)),
            r matches Container::Run(x) ==> run::maximal(x.runs@),
    {
        let out = RunContainer { runs: sweep_or(&self.runs, &other.runs) };
        proof {
            run::lemma_maximal_count(out.runs@);
        }
        Container::Run(out).optimize()
    }

    /// Symmetric difference, by way of two bitmaps.
    pub fn xor(&self, other: &RunContainer) -> (r: Container)
        requires
            self.wf(),
            other.wf(),
        ensures
            r.wf(),
            r@ == bitmap::sym_diff(self@, other@),
            r.form() == best_form(r@.len(), keyset::run_count(r@)),
            r matches Container::Run(x) ==> run::maximal(x.runs@),
    {
        let a = BitmapContainer::from_run(self);
        let b = BitmapContainer::from_run(other);
        a.xor(&b).optimize()
    }
}

/// The keys of `arr` that are in `other` too.
fn filter_array(arr: &ArrayContainer, other: &Container) -> (r: ArrayContainer)
    requires
        arr.wf(),
        other.wf(),
    ensures
        r.wf(),
        r@ == arr@.intersect(other@),
{
    let mut keys: Vec<u16> = Vec::new();
    let n: usize = arr.keys.len();
    let mut i: usize = 0;
    while i < n
        invariant
            n == arr.keys@.len(),
            i <= n,
            arr.wf(),
            other.wf(),
            keyset::increasing(keys@),
            i < n ==> forall|x: int| 0 <= x < keys@.len() ==> keys@[x] < arr.keys@[i as int],
            forall|k: u16| #[trigger]
                keys@.contains(k) <==> arr.keys@.take(i as int).contains(k) && other@.contains(k),
        decreases n - i,
    {
        let k: u16 = arr.keys[i];
        let ghost before = keys@;
        if other.contains(k) {
            keys.push(k);
        }
        proof {
            crate::array::lemma_take_has(arr.keys@, i as int);
            crate::array::lemma_push_has(before, k);
        }
        i = i + 1;
    }
    let r = ArrayContainer { keys };
    assert(arr.keys@.take(n as int) =~= arr.keys@);
    assert(r@ =~= arr@.intersect(other@));
    r
}

/// Flip the bit of every key of `arr`.
fn flip_all(bm: &mut BitmapContainer, arr: &ArrayContainer)
    requires
        arr.wf(),
    ensures
        final(bm)@ == bitmap::sym_diff(old(bm)@, arr@),
{
    let n: usize = arr.keys.len();
    let mut i: usize = 0;
    while i < n
        invariant
            n == arr.keys@.len(),
            i <= n,
            arr.wf(),
            forall|k: u16| #[trigger]
                bm@.contains(k) <==> old(bm)@.contains(k) != arr.keys@.take(i as int).contains(k),
        decreases n - i,
    {
        let k: u16 = arr.keys[i];
        proof {
            crate::array::lemma_take_has(arr.keys@, i as int);
            assert(!arr.keys@.take(i as int).contains(k)) by {
                if arr.keys@.take(i as int).contains(k) {
                    let z = choose|z: int| 0 <= z < i && arr.keys@.take(i as int)[z] == k;
                    assert(arr.keys@[z] < arr.keys@[i as int]);
                }
            }
        }
        if bm.contains(k) {
            bm.remove(k);
        } else {
            bm.insert(k);
        }
        i = i + 1;
    }
    assert(arr.keys@.take(n as int) =~= arr.keys@);
    assert(bm@ =~= bitmap::sym_diff(old(bm)@, arr@));
}

impl View for Container {
    type V = Set<u16>;

    /// The keys in this bucket.
    open spec fn view(&self) -> Set<u16> {
        match self {
            Container::Array(a) => a@,
            Container::Bitmap(b) => b@,
            Container::Run(r) => r@,
        }
    }
}

impl Clone for Container {
    fn clone(&self) -> (r: Self)
        ensures
            r.contents() == self.contents(),
            r@ == self@,
            r.wf() == self.wf(),
    {
        match self {
            Container::Array(a) => Container::Array(a.clone()),
            Container::Bitmap(b) => Container::Bitmap(b.clone()),
            Container::Run(r) => Container::Run(r.clone()),
        }
    }
}

impl Container {
    /// The invariant of the form holds.
    pub open spec fn wf(&self) -> bool {
        match self {
            Container::Array(a) => a.wf(),
            Container::Bitmap(_) => true,
            Container::Run(r) => r.wf(),
        }
    }

    /// What the container holds, form by form.
    pub open spec fn contents(&self) -> Contents {
        match self {
            Container::Array(a) => Contents::Array(a.keys@),
            Container::Bitmap(b) => Contents::Bitmap(b.words@),
            Container::Run(r) => Contents::Run(r.runs@),
        }
    }

    /// The form of the container.
    pub open spec fn form(&self) -> ContainerForm {
        match self {
            Container::Array(_) => ContainerForm::Array,
            Container::Bitmap(_) => ContainerForm::Bitmap,
            Container::Run(_) => ContainerForm::Run,
        }
    }

    /// Number of runs the container takes in the run-length form.
    pub open spec fn run_total(&self) -> nat {
        match self {
            Container::Run(r) => r.runs@.len(),
            _ => keyset::run_count(self@),
        }
    }

    /// Total cardinality (always at most 65536).
    pub fn cardinality(&self) -> (r: u32)
        requires
            self.wf(),
        ensures
            r == self@.len(),
            r <= 65536,
    {
        match self {
            Container::Array(a) => a.cardinality(),
            Container::Bitmap(b) => b.cardinality(),
            Container::Run(r) => r.cardinality(),
        }
    }

    /// True iff `key` is in this container.
    pub fn contains(&self, key: u16) -> (r: bool)
        requires
            self.wf(),
        ensures
            r == self@.contains(key),
    {
        match self {
            Container::Array(a) => a.contains(key),
            Container::Bitmap(b) => b.contains(key),
            Container::Run(r) => r.contains(key),
        }
    }

    /// Iterator over all set keys in strictly increasing order.
    pub fn iter(&self) -> (r: ContainerIter<'_>)
        requires
            self.wf(),
        ensures
            r.wf(),
            r.remaining() == keyset::sorted_keys(self@),
    {
        match self {
            Container::Array(a) => ContainerIter::Array(a.iter()),
            Container::Bitmap(b) => ContainerIter::Bitmap(b.iter()),
            Container::Run(r) => ContainerIter::Run(r.iter()),
        }
    }

    /// Iterator over the set keys from `key` on, in strictly increasing order.
    pub fn iter_from(&self, key: u16) -> (r: ContainerIter<'_>)
        requires
            self.wf(),
        ensures
            r.wf(),
            r.remaining() == keyset::sorted_keys(keyset::at_or_after(self@, key)),
    {
        match self {
            Container::Array(a) => ContainerIter::Array(a.iter_from(key)),
            Container::Bitmap(b) => ContainerIter::Bitmap(b.iter_from(key)),
            Container::Run(r) => ContainerIter::Run(r.iter_from(key)),
        }
    }

    /// Set intersection over all pairings of forms.
    pub fn and(&self, other: &Container) -> (r: Container)
        requires
            self.wf(),
            other.wf(),
        ensures
            r.wf(),
            r@ == self@.intersect(other@),
            r.form() == and_form(*self, *other),
            r matches Container::Run(x) ==> self matches Container::Run(a)
                && other matches Container::Run(b) && x.runs@ == run::overlaps_from(
                a.runs@,
                b.runs@,
                0,
                0,
            ),
    {
        proof {
            assert(self@.intersect(other@) =~= other@.intersect(self@));
        }
        match (self, other) {
            (Container::Array(a), Container::Array(b)) => Container::Array(a.and(b)),
            (Container::Bitmap(a), Container::Bitmap(b)) => a.and(b),
            (Container::Run(a), Container::Run(b)) => a.and(b),
            (Container::Array(a), _) => Container::Array(filter_array(a, other)),
            (_, Container::Array(b)) => Container::Array(filter_array(b, self)),
            (Container::Bitmap(b), Container::Run(r)) => b.and(&BitmapContainer::from_run(r)),
            (Container::Run(r), Container::Bitmap(b)) => b.and(&BitmapContainer::from_run(r)),
        }
    }

    /// Set union over all pairings of forms.
    pub fn or(&self, other: &Container) -> (r: Container)
        requires
            self.wf(),
            other.wf(),
        ensures
            r.wf(),
            r@ == self@.union(other@),
            r.form() == or_form(*self, *other),
            r matches Container::Run(x) ==> run::maximal(x.runs@),
    {
        proof {
            assert(self@.union(other@) =~= other@.union(self@));
        }
        match (self, other) {
            (Container::Array(a), Container::Array(b)) => a.or(b),
            (Container::Bitmap(a), Container::Bitmap(b)) => Container::Bitmap(a.or(b)),
            (Container::Run(a), Container::Run(b)) => a.or(b),
            (Container::Array(a), Container::Bitmap(b)) => or_array(b.clone(), a),
            (Container::Bitmap(b), Container::Array(a)) => or_array(b.clone(), a),
            (Container::Array(a), Container::Run(r)) => or_array(
                BitmapContainer::from_run(r),
                a,
            ).optimize(),
            (Container::Run(r), Container::Array(a)) => or_array(
                BitmapContainer::from_run(r),
                a,
            ).optimize(),
            (Container::Bitmap(b), Container::Run(r)) => or_runs(b.clone(), r),
            (Container::Run(r), Container::Bitmap(b)) => or_runs(b.clone(), r),
        }
    }

    /// Symmetric difference over all pairings of forms.
    pub fn xor(&self, other: &Container) -> (r: Container)
        requires
            self.wf(),
            other.wf(),
        ensures
            r.wf(),
            r@ == bitmap::sym_diff(self@, other@),
            r.form() == xor_form(*self, *other),
            r matches Container::Run(x) ==> run::maximal(x.runs@),
    {
        proof {
            assert(bitmap::sym_diff(self@, other@) =~= bitmap::sym_diff(other@, self@));
        }
        match (self, other) {
            (Container::Array(a), Container::Array(b)) => a.xor(b),
            (Container::Bitmap(a), Container::Bitmap(b)) => a.xor(b),
            (Container::Run(a), Container::Run(b)) => a.xor(b),
            (Container::Array(a), Container::Bitmap(b)) => xor_array(b.clone(), a),
            (Container::Bitmap(b), Container::Array(a)) => xor_array(b.clone(), a),
            (Container::Array(a), Container::Run(r)) => xor_array(BitmapContainer::from_run(r), a),
            (Container::Run(r), Container::Array(a)) => xor_array(BitmapContainer::from_run(r), a),
            (Container::Bitmap(b), Container::Run(r)) => b.xor(
                &BitmapContainer::from_run(r),
            ).optimize(),
            (Container::Run(r), Container::Bitmap(b)) => b.xor(
                &BitmapContainer::from_run(r),
            ).optimize(),
        }
    }

    /// Pick the best container form for the current contents.
    ///
    /// The plain forms are an array up to [`ARRAY_TO_BITMAP_THRESHOLD`] keys
    /// (`4 + 2 * cardinality` bytes) and a bitmap beyond (8192 bytes). Runs win where
    /// their encoding (`2 + 4 * num_runs` bytes) is strictly less than the plain
    /// form's.
    pub fn optimize(self) -> (r: Self)
        requires
            self.wf(),
        ensures
            r.wf(),
            r@ == self@,
            r.form() == best_form(self@.len(), self.run_total()),
            r.form() == self.form() ==> r == self,
            self !is Run ==> (r matches Container::Run(x) ==> run::maximal(x.runs@)),
    {
        let card: u32 = self.cardinality();
        let runs: usize = match &self {
            Container::Array(a) => count_runs_in_array(a),
            Container::Bitmap(b) => count_runs_in_bitmap(b),
            Container::Run(r) => {
                proof {
                    crate::run::lemma_runs_len(r.runs@);
                }
                r.runs.len()
            },
        };
        let run_bytes: usize = 2 + 4 * runs;
        let plain_bytes: usize = if card <= ARRAY_TO_BITMAP_THRESHOLD {
            4 + 2 * (card as usize)
        } else {
            BITMAP_CONTAINER_WORDS * 4
        };
        if run_bytes < plain_bytes && card > 0 {
            return match self {
                Container::Run(r) => Container::Run(r),
                Container::Array(a) => Container::Run(RunContainer::from_array(&a)),
                Container::Bitmap(b) => Container::Run(RunContainer::from_bitmap(&b)),
            };
        }
        proof {
            keyset::lemma_sorted_keys_spec(self@);
        }
        if card <= ARRAY_TO_BITMAP_THRESHOLD {
            match self {
                Container::Array(a) => Container::Array(a),
                Container::Bitmap(b) => Container::Array(
                    ArrayContainer { keys: b.iter().collect() },
                ),
                Container::Run(r) => Container::Array(ArrayContainer { keys: r.iter().collect() }),
            }
        } else {
            match self {
                Container::Bitmap(b) => Container::Bitmap(b),
                Container::Array(a) => Container::Bitmap(BitmapContainer::from_array(&a)),
                Container::Run(r) => Container::Bitmap(BitmapContainer::from_run(&r)),
            }
        }
    }

    /// Self-describing encoding: `[u8 tag][body]`.
    pub fn to_bytes(&self) -> (r: Vec<u8>)
        requires
            self.wf(),
        ensures
            r@ == container_bytes(self.contents()),
    {
        let mut out: Vec<u8> = Vec::new();
        match self {
            Container::Array(a) => {
                out.push(TAG_ARRAY);
                push_bytes(&mut out, a.to_bytes().as_slice());
            },
            Container::Bitmap(b) => {
                out.push(TAG_BITMAP);
                push_bytes(&mut out, b.to_bytes().as_slice());
            },
            Container::Run(r) => {
                out.push(TAG_RUN);
                push_bytes(&mut out, r.to_bytes().as_slice());
            },
        }
        assert(out@ =~= container_bytes(self.contents()));
        out
    }

    /// Inverse of [`Self::to_bytes`]. Returns the parsed container and the number
    /// of bytes consumed, so that a stream of containers can be parsed without
    /// length prefixes.
    pub fn from_bytes(slice: &[u8]) -> (r: Result<(Self, usize), ContainerError>)
        ensures
            match r {
                Ok((c, used)) => c.wf() && parse_container(slice@) == Ok::<
                    (Contents, usize),
                    ContainerError,
                >((c.contents(), used)),
                Err(e) => parse_container(slice@) == Err::<(Contents, usize), ContainerError>(e),
            },
    {
        let len: usize = slice.len();
        if len == 0 {
            return Err(ContainerError::Truncated { needed: 1, got: 0 });
        }
        let tag: u8 = slice[0];
        if tag == TAG_ARRAY {
            if len < 5 {
                return Err(ContainerError::Truncated { needed: 5, got: len });
            }
            let card: u32 = get_u32(slice, 1);
            let total: u64 = 5 + 2 * (card as u64);
            if (len as u64) < total {
                return Err(ContainerError::Truncated { needed: to_usize(total), got: len });
            }
            match ArrayContainer::from_bytes(slice_of(slice, 1, total as usize)) {
                Ok(a) => Ok((Container::Array(a), total as usize)),
                Err(e) => Err(e),
            }
        } else if tag == TAG_BITMAP {
            let total: usize = 1 + BITMAP_CONTAINER_WORDS * 4;
            if len < total {
                return Err(ContainerError::Truncated { needed: total, got: len });
            }
            match BitmapContainer::from_bytes(slice_of(slice, 1, total)) {
                Ok(b) => Ok((Container::Bitmap(b), total)),
                Err(e) => Err(e),
            }
        } else if tag == TAG_RUN {
            if len < 3 {
                return Err(ContainerError::Truncated { needed: 3, got: len });
            }
            let n: usize = get_u16(slice, 1) as usize;
            let total: usize = 3 + 4 * n;
            if len < total {
                return Err(ContainerError::Truncated { needed: total, got: len });
            }
            match RunContainer::from_bytes(slice_of(slice, 1, total)) {
                Ok(r) => Ok((Container::Run(r), total)),
                Err(e) => Err(e),
            }
        } else {
            Err(ContainerError::UnknownTag(tag))
        }
    }
}

/// The dense union of a bitmap and a key list.
fn or_array(bm: BitmapContainer, arr: &ArrayContainer) -> (r: Container)
    ensures
        r is Bitmap,
        r@ == bm@.union(arr@),
{
    let mut out = bm;
    out.insert_all(&arr.keys);
    Container::Bitmap(out)
}

/// The dense union of a bitmap and a list of runs.
fn or_runs(bm: BitmapContainer, rc: &RunContainer) -> (r: Container)
    requires
        rc.wf(),
    ensures
        r is Bitmap,
        r@ == bm@.union(rc@),
{
    let mut out = bm;
    out.insert_runs(&rc.runs);
    Container::Bitmap(out)
}

/// The symmetric difference of a bitmap and a key list, in its best form.
fn xor_array(bm: BitmapContainer, arr: &ArrayContainer) -> (r: Container)
    requires
        arr.wf(),
    ensures
        r.wf(),
        r@ == bitmap::sym_diff(bm@, arr@),
        r.form() == best_form(r@.len(), keyset::run_count(r@)),
        r matches Container::Run(x) ==> run::maximal(x.runs@),
{
    let mut out = bm;
    flip_all(&mut out, arr);
    Container::Bitmap(out).optimize()
}

impl<'a> ContainerIter<'a> {
    /// The invariant of the inner iterator holds.
    pub open spec fn wf(&self) -> bool {
        match self {
            ContainerIter::Array(it) => it.wf(),
            ContainerIter::Bitmap(it) => it.wf(),
            ContainerIter::Run(it) => it.wf(),
        }
    }

    /// The keys still to come, in ascending order.
    pub open spec fn remaining(&self) -> Seq<u16> {
        match self {
            ContainerIter::Array(it) => it.remaining(),
            ContainerIter::Bitmap(it) => it.remaining(),
            ContainerIter::Run(it) => it.remaining(),
        }
    }

    /// The next key, in ascending order.
    pub fn next(&mut self) -> (r: Option<u16>)
        requires
            old(self).wf(),
        ensures
            final(self).wf(),
            match r {
                Some(k) => old(self).remaining().len() > 0 && k == old(self).remaining()[0]
                    && final(self).remaining() == old(self).remaining().drop_first(),
                None => old(self).remaining().len() == 0
                    && final(self).remaining() == old(self).remaining(),
            },
    {
        match self {
            ContainerIter::Array(it) => it.next(),
            ContainerIter::Bitmap(it) => it.next(),
            ContainerIter::Run(it) => it.next(),
        }
    }

    /// All keys still to come.
    pub fn collect(self) -> (r: Vec<u16>)
        requires
            self.wf(),
        ensures
            r@ == self.remaining(),
    {
        match self {
            ContainerIter::Array(it) => it.collect(),
            ContainerIter::Bitmap(it) => it.collect(),
            ContainerIter::Run(it) => it.collect(),
        }
    }
}

/// What a well-formed container holds, form by form, is well formed.
pub open spec fn contents_wf(c: Contents) -> bool {
    match c {
        Contents::Array(keys) => keyset::increasing(keys),
        Contents::Bitmap(words) => words.len() == 2048,
        Contents::Run(runs) => run::runs_wf(runs),
    }
}

/// `contents_wf` is the invariant of a container, seen from its contents.
pub proof fn lemma_contents_wf(c: Container)
    requires
        c.wf(),
    ensures
        contents_wf(c.contents()),
{
}

/// The tagged array body decodes.
proof fn lemma_array_container(keys: Seq<u16>, tail: Seq<u8>)
    requires
        keyset::increasing(keys),
    ensures
        container_bytes(Contents::Array(keys)).len() == 5 + 2 * keys.len(),
        keys.len() <= 65536,
        parse_container(container_bytes(Contents::Array(keys)) + tail) == Ok::<
            (Contents, usize),
            ContainerError,
        >((Contents::Array(keys), (5 + 2 * keys.len()) as usize)),
{
    let body = array::array_bytes(keys);
    let b = seq![TAG_ARRAY] + body + tail;
    keyset::lemma_increasing_len(keys);
    let n = keys.len() as u32;
    assert(wire::holds_at(b, 1, wire::le32(n))) by {
        assert forall|i: int| 0 <= i < 4 implies b[1 + i] == #[trigger] wire::le32(n)[i] by {
            assert(body[i] == wire::le32(n)[i]);
        }
    }
    wire::lemma_at32(b, 1, n);
    assert(b.subrange(1, 5 + 2 * n) =~= body + Seq::<u8>::empty());
    array::lemma_array_round_trip(keys, Seq::<u8>::empty());
}

/// The tagged bitmap body decodes.
proof fn lemma_bitmap_container(words: Seq<u32>, tail: Seq<u8>)
    requires
        words.len() == 2048,
    ensures
        container_bytes(Contents::Bitmap(words)).len() == 8193,
        parse_container(container_bytes(Contents::Bitmap(words)) + tail) == Ok::<
            (Contents, usize),
            ContainerError,
        >((Contents::Bitmap(words), 8193usize)),
{
    let b = seq![TAG_BITMAP] + wire::enc32(words) + tail;
    assert(b.subrange(1, 8193) =~= wire::enc32(words) + Seq::<u8>::empty());
    bitmap::lemma_bitmap_round_trip(words, Seq::<u8>::empty());
}

/// The tagged run body decodes.
proof fn lemma_run_container(runs: Seq<Run>, tail: Seq<u8>)
    requires
        run::runs_wf(runs),
        runs.len() <= 65535,
    ensures
        container_bytes(Contents::Run(runs)).len() == 3 + 4 * runs.len(),
        parse_container(container_bytes(Contents::Run(runs)) + tail) == Ok::<
            (Contents, usize),
            ContainerError,
        >((Contents::Run(runs), (3 + 4 * runs.len()) as usize)),
{
    let body = run::run_bytes(runs);
    let b = seq![TAG_RUN] + body + tail;
    let n = runs.len() as u16;
    assert(wire::holds_at(b, 1, wire::le16(n))) by {
        assert forall|i: int| 0 <= i < 2 implies b[1 + i] == #[trigger] wire::le16(n)[i] by {
            assert(body[i] == wire::le16(n)[i]);
        }
    }
    wire::lemma_at16(b, 1, n);
    assert(b.subrange(1, 3 + 4 * n) =~= body + Seq::<u8>::empty());
    run::lemma_run_round_trip(runs, Seq::<u8>::empty());
}

/// `from_bytes` undoes `to_bytes`, whatever follows, for every container whose
/// runs can be counted in 16 bits.
pub proof fn lemma_container_round_trip(c: Contents, tail: Seq<u8>)
    requires
        contents_wf(c),
        c matches Contents::Run(runs) ==> runs.len() <= 65535,
    ensures
        container_bytes(c).len() <= 262144,
        parse_container(container_bytes(c) + tail) == Ok::<(Contents, usize), ContainerError>(
            (c, container_bytes(c).len() as usize),
        ),
{
    match c {
        Contents::Array(keys) => {
            lemma_array_container(keys, tail);
        },
        Contents::Bitmap(words) => {
            lemma_bitmap_container(words, tail);
        },
        Contents::Run(runs) => {
            lemma_run_container(runs, tail);
        },
    }
}

} // verus!
