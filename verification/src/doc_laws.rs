//! What posting lists and flat arrays stand for, document by document.

use vstd::prelude::*;

use crate::bitmap;
use crate::container;
use crate::encoder;
use crate::flat;
use crate::format_laws;
use crate::gpu_dispatch;
use crate::keyset;
use crate::kill_switch;
use crate::planner;
use crate::posting_format;
use crate::postings;
use crate::run;
use crate::segment_id;

use crate::container::{Container, Contents};
use crate::ferro_compress_bridge::{
    BitcompCodec, BitcompError, DefaultBitcompCodec, FerroBitcompCodec, IdentityBitcompCodec,
};
use crate::flat::BoolOp;
use crate::planner::TermStat;
use crate::posting_format::PostingFormat;
use crate::postings::RoaringPostings;
use crate::segment_id::SegmentId;

verus! {

/// A posting list holds the documents whose upper half is the key of a bucket and whose
/// lower half is in its container.
pub proof fn lemma_list_holds(rp: RoaringPostings, d: u32)
    ensures
        rp@.contains(d) <==> exists|j: int|
            0 <= j < rp.containers@.len() && (#[trigger] rp.containers@[j]).0 == d / 65536
                && rp.containers@[j].1@.contains((d % 65536) as u16),
{
    assert(rp@.contains(d) <==> postings::has_doc_from(rp.containers@, 0, d));
}

/// A posting list is well formed when its bucket keys ascend and its containers are well
/// formed.
pub proof fn lemma_list_well_formed(rp: RoaringPostings)
    ensures
        rp.wf() <==> (forall|i: int, j: int|
            0 <= i < j < rp.containers@.len() ==> (#[trigger] rp.containers@[i]).0 < (
            #[trigger] rp.containers@[j]).0) && (forall|i: int|
            0 <= i < rp.containers@.len() ==> (#[trigger] rp.containers@[i]).1.wf()),
{
}

/// The documents of a list, as a walk hands them out: all of them, once, ascending.
pub proof fn lemma_walk_is_every_document_ascending(rp: RoaringPostings)
    requires
        rp.wf(),
    ensures
        forall|d: u32| rp@.contains(d) <==> #[trigger] rp.docs().contains(d),
        forall|i: int, j: int| 0 <= i < j < rp.docs().len() ==> rp.docs()[i] < rp.docs()[j],
        rp.docs().len() == rp@.len(),
{
    rp.lemma_docs();
    assert forall|d: u32| rp@.contains(d) <==> #[trigger] rp.docs().contains(d) by {
        assert(rp.docs().to_set().contains(d) <==> rp.docs().contains(d));
    }
}

/// A document is its bucket key times 65536 and its key in the bucket.
pub proof fn lemma_document_halves(high: u16, low: u16)
    ensures
        postings::doc_of(high, low) == 65536 * high + low,
        postings::doc_of(high, low) / 65536 == high,
        postings::doc_of(high, low) % 65536 == low,
{
}

/// What is written of a posting list: for each bucket its key and what its container holds.
pub proof fn lemma_list_contents(rp: RoaringPostings)
    ensures
        rp.contents().len() == rp.containers@.len(),
        forall|i: int|
            0 <= i < rp.containers@.len() ==> (#[trigger] rp.contents()[i]).0
                == rp.containers@[i].0 && rp.contents()[i].1 == (match rp.containers@[i].1 {
                Container::Array(a) => Contents::Array(a.keys@),
                Container::Bitmap(b) => Contents::Bitmap(b.words@),
                Container::Run(r) => Contents::Run(r.runs@),
            }),
{
}

/// What an encoder leaves: ascending buckets, none of them empty, each in the layout that
/// takes the fewest bytes, and runs that cannot be joined.
pub proof fn lemma_encoded_form(cs: Seq<(u16, Container)>)
    requires
        encoder::canonical(cs),
    ensures
        forall|i: int, j: int| 0 <= i < j < cs.len() ==> (#[trigger] cs[i]).0 < (#[trigger] cs[j]).0,
        forall|i: int|
            0 <= i < cs.len() ==> {
                let card = (#[trigger] cs[i]).1@.len();
                let runs = keyset::run_count(cs[i].1@);
                &&& cs[i].1.wf()
                &&& card > 0
                &&& cs[i].1 is Run <==> 2 + 4 * runs < (if card <= 4096 {
                    4 + 2 * card
                } else {
                    8192
                })
                &&& cs[i].1 is Array <==> card <= 4096 && 2 + 4 * runs >= 4 + 2 * card
                &&& cs[i].1 is Bitmap <==> card > 4096 && 2 + 4 * runs >= 8192
                &&& cs[i].1 matches Container::Run(r) ==> run::maximal(r.runs@)
            },
{
    assert forall|i: int| 0 <= i < cs.len() implies {
        let card = (#[trigger] cs[i]).1@.len();
        let runs = keyset::run_count(cs[i].1@);
        &&& cs[i].1.wf()
        &&& card > 0
        &&& cs[i].1 is Run <==> 2 + 4 * runs < (if card <= 4096 {
            4 + 2 * card
        } else {
            8192
        })
        &&& cs[i].1 is Array <==> card <= 4096 && 2 + 4 * runs >= 4 + 2 * card
        &&& cs[i].1 is Bitmap <==> card > 4096 && 2 + 4 * runs >= 8192
        &&& cs[i].1 matches Container::Run(r) ==> run::maximal(r.runs@)
    } by {
        assert(cs[i].1.form() == container::best_form(
            cs[i].1@.len(),
            keyset::run_count(cs[i].1@),
        ));
    }
}

/// A bucket is populated when some document falls into it.
pub proof fn lemma_populated(docs: Set<u32>, high: u16)
    ensures
        encoder::populated(docs, high) <==> exists|low: u16|
            docs.contains(#[trigger] ((65536 * high + low) as u32)),
{
    if encoder::populated(docs, high) {
        let d = choose|d: u32| #[trigger] docs.contains(d) && d / 65536 == high;
        let low = (d % 65536) as u16;
        assert((65536 * high + low) as u32 == d);
    }
    if exists|low: u16| docs.contains(#[trigger] ((65536 * high + low) as u32)) {
        let low = choose|low: u16| docs.contains(#[trigger] ((65536 * high + low) as u32));
        let d = (65536 * high + low) as u32;
        assert(d / 65536 == high);
        assert(docs.contains(d));
    }
}

/// A flat array has 2048 words for each of its ascending keys, and holds a document when
/// the bit of its lower half is set in the words of its upper half.
pub proof fn lemma_flat_holds(keys: Seq<u16>, words: Seq<u32>, d: u32)
    ensures
        flat::flat_wf(keys, words) ==> words.len() == 2048 * keys.len() && (forall|i: int, j: int|
            0 <= i < j < keys.len() ==> keys[i] < keys[j]),
        words.len() == 2048 * keys.len() ==> (flat::flat_docs(keys, words).contains(d)
            <==> exists|i: int|
            0 <= i < keys.len() && #[trigger] keys[i] == d / 65536 && (words[2048 * i + (d
                % 65536) as int / 32] >> (d % 32)) & 1u32 == 1u32),
{
    if words.len() == 2048 * keys.len() {
        let low = (d % 65536) as u16;
        assert((d % 65536) % 32 == d % 32);
        assert forall|i: int| 0 <= i < keys.len() implies (bitmap::has_bit(
            #[trigger] flat::window(words, i),
            low,
        ) <==> (words[2048 * i + (d % 65536) as int / 32] >> (d % 32)) & 1u32 == 1u32) by {
            assert(flat::window(words, i)[low as int / 32] == words[2048 * i + low as int / 32]);
        }
        if flat::has_flat_doc(keys, words, d) {
            let i = choose|i: int|
                0 <= i < keys.len() && #[trigger] keys[i] == d / 65536 && bitmap::has_bit(
                    flat::window(words, i),
                    low,
                );
            assert(keys[i] == d / 65536);
        }
        if exists|i: int|
            0 <= i < keys.len() && #[trigger] keys[i] == d / 65536 && (words[2048 * i + (d
                % 65536) as int / 32] >> (d % 32)) & 1u32 == 1u32 {
            let i = choose|i: int|
                0 <= i < keys.len() && #[trigger] keys[i] == d / 65536 && (words[2048 * i + (d
                    % 65536) as int / 32] >> (d % 32)) & 1u32 == 1u32;
            assert(bitmap::has_bit(flat::window(words, i), low));
        }
    }
}

/// An operation on words goes word by word.
pub proof fn lemma_operation_on_words(a: Seq<u32>, b: Seq<u32>)
    ensures
        flat::op_words(BoolOp::And, a, b) == Seq::new(a.len(), |i: int| a[i] & b[i]),
        flat::op_words(BoolOp::Or, a, b) == Seq::new(a.len(), |i: int| a[i] | b[i]),
        flat::op_words(BoolOp::Xor, a, b) == Seq::new(a.len(), |i: int| a[i] ^ b[i]),
{
}

/// A conjunction of lists holds the documents that all of them hold, a disjunction those
/// that some list holds, and an exclusive or those that an odd number of them hold.
pub proof fn lemma_fold_of_lists(sets: Seq<Set<u32>>, n: int, d: u32)
    requires
        1 <= n <= sets.len(),
    ensures
        flat::fold_docs(BoolOp::And, sets, n).contains(d) <==> forall|i: int|
            0 <= i < n ==> (#[trigger] sets[i]).contains(d),
        flat::fold_docs(BoolOp::Or, sets, n).contains(d) <==> exists|i: int|
            0 <= i < n && (#[trigger] sets[i]).contains(d),
        flat::fold_docs(BoolOp::Xor, sets, n).contains(d) <==> sets.take(n).fold_left(
            0int,
            |count: int, s: Set<u32>| if s.contains(d) {
                count + 1
            } else {
                count
            },
        ) % 2 == 1,
    decreases n,
{
    let count = |count: int, s: Set<u32>| if s.contains(d) {
        count + 1
    } else {
        count
    };
    assert(sets.take(n).drop_last() =~= sets.take(n - 1));
    assert(sets.take(n).last() == sets[n - 1]);
    assert(sets.take(n).fold_left(0int, count) == count(
        sets.take(n - 1).fold_left(0int, count),
        sets[n - 1],
    ));
    if n == 1 {
        assert(sets.take(0) =~= Seq::<Set<u32>>::empty());
        assert(sets.take(0).fold_left(0int, count) == 0);
        assert(sets[0] == flat::fold_docs(BoolOp::And, sets, 1));
    } else {
        lemma_fold_of_lists(sets, n - 1, d);
        let all = flat::fold_docs(BoolOp::And, sets, n - 1);
        let any = flat::fold_docs(BoolOp::Or, sets, n - 1);
        let odd = flat::fold_docs(BoolOp::Xor, sets, n - 1);
        assert(flat::fold_docs(BoolOp::And, sets, n) == flat::op_docs(
            BoolOp::And,
            all,
            sets[n - 1],
        ));
        assert(flat::fold_docs(BoolOp::Or, sets, n) == flat::op_docs(BoolOp::Or, any, sets[n - 1]));
        assert(flat::fold_docs(BoolOp::Xor, sets, n) == flat::op_docs(
            BoolOp::Xor,
            odd,
            sets[n - 1],
        ));
        assert(odd.contains(d) <==> sets.take(n - 1).fold_left(0int, count) % 2 == 1);
        if any.contains(d) {
            let i = choose|i: int| 0 <= i < n - 1 && (#[trigger] sets[i]).contains(d);
            assert(sets[i].contains(d));
        }
    }
}

/// The keys of a cohort are the bucket keys of its terms, each once, ascending.
pub proof fn lemma_cohort_keys(terms: Seq<&RoaringPostings>)
    ensures
        forall|i: int, j: int|
            0 <= i < j < gpu_dispatch::cohort_keys(terms).len() ==> gpu_dispatch::cohort_keys(
                terms,
            )[i] < gpu_dispatch::cohort_keys(terms)[j],
        forall|h: u16| #[trigger]
            gpu_dispatch::cohort_keys(terms).contains(h) <==> exists|i: int, j: int|
                0 <= i < terms.len() && 0 <= j < terms[i].containers@.len() && (
                #[trigger] terms[i].containers@[j]).0 == h,
{
    let set = Set::new(|h: u16| gpu_dispatch::any_bucket(terms, terms.len() as int, h));
    keyset::lemma_sorted_keys_spec(set);
    assert forall|h: u16| #[trigger]
        gpu_dispatch::cohort_keys(terms).contains(h) <==> exists|i: int, j: int|
            0 <= i < terms.len() && 0 <= j < terms[i].containers@.len() && (
            #[trigger] terms[i].containers@[j]).0 == h by {
        assert(keyset::sorted_keys(set).to_set().contains(h) <==> set.contains(h));
        if set.contains(h) {
            let i = choose|i: int|
                0 <= i < terms.len() && gpu_dispatch::has_bucket(
                    (#[trigger] terms[i]).containers@,
                    h,
                );
            let cs = terms[i].containers@;
            let j = choose|j: int| 0 <= j < cs.len() && (#[trigger] cs[j]).0 == h;
            assert(terms[i].containers@[j].0 == h);
        }
        if exists|i: int, j: int|
            0 <= i < terms.len() && 0 <= j < terms[i].containers@.len() && (
            #[trigger] terms[i].containers@[j]).0 == h {
            let (i, j) = choose|i: int, j: int|
                0 <= i < terms.len() && 0 <= j < terms[i].containers@.len() && (
                #[trigger] terms[i].containers@[j]).0 == h;
            assert(gpu_dispatch::has_bucket(terms[i].containers@, h));
        }
    }
}

/// A cohort is approved when it has two terms or more and the planner dispatches terms with
/// as many documents as theirs.
pub proof fn lemma_approval(terms: Seq<&RoaringPostings>, num_docs: u32, stats: Seq<TermStat>)
    requires
        stats.len() == terms.len(),
        forall|i: int|
            0 <= i < terms.len() ==> (#[trigger] stats[i]).num_docs_in_segment == num_docs
                && stats[i].doc_freq == (if terms[i]@.len() <= u32::MAX {
                terms[i]@.len()
            } else {
                u32::MAX as nat
            }),
    ensures
        gpu_dispatch::approved(terms, num_docs) <==> terms.len() >= 2 && planner::dispatches(stats),
{
    assert(stats =~= Seq::new(
        terms.len(),
        |i: int| gpu_dispatch::term_stat(*terms[i], num_docs),
    ));
}

/// The dispatch counters add one, and start over behind the largest number.
pub proof fn lemma_counter_steps(x: usize)
    ensures
        x < usize::MAX ==> gpu_dispatch::bumped(x) == x + 1,
        x == usize::MAX ==> gpu_dispatch::bumped(x) == 0,
{
}

/// What a fold over a cohort hands to the kernel: the flat array of the first term, then
/// each time what the kernel gave and the flat array of the next term, to the last.
pub proof fn lemma_fold_calls<K: Fn(BoolOp, &Vec<u32>, &Vec<u32>) -> Option<Vec<u32>>>(
    kernel: K,
    op: BoolOp,
    keys: Seq<u16>,
    terms: Seq<&RoaringPostings>,
    n: int,
    acc: Vec<u32>,
)
    requires
        1 <= n <= terms.len(),
        gpu_dispatch::folded(kernel, op, keys, terms, n, acc),
    ensures
        exists|accs: Seq<Vec<u32>>, others: Seq<Vec<u32>>| #[trigger]
            kernel_calls(kernel, op, keys, terms, n, acc, accs, others),
    decreases n,
{
    if n == 1 {
        assert(kernel_calls(kernel, op, keys, terms, n, acc, seq![acc], seq![acc]));
    } else {
        let (prev, other) = choose|prev: Vec<u32>, other: Vec<u32>|
            #![trigger call_ensures(kernel, (op, &prev, &other), Some(acc))]
            gpu_dispatch::folded(kernel, op, keys, terms, n - 1, prev) && gpu_dispatch::is_flat(
                keys,
                other@,
                terms[n - 1]@,
            ) && call_ensures(kernel, (op, &prev, &other), Some(acc));
        lemma_fold_calls(kernel, op, keys, terms, n - 1, prev);
        let (accs, others) = choose|accs: Seq<Vec<u32>>, others: Seq<Vec<u32>>| #[trigger]
            kernel_calls(kernel, op, keys, terms, n - 1, prev, accs, others);
        let a = accs.push(acc);
        let o = others.push(other);
        assert forall|k: int| #![trigger o[k]] 1 <= k < n implies call_ensures(
            kernel,
            (op, &a[k - 1], &o[k]),
            Some(a[k]),
        ) && flat::flat_wf(keys, o[k]@) && flat::flat_docs(keys, o[k]@) == terms[k]@ by {
            if k < n - 1 {
                assert(a[k - 1] == accs[k - 1] && a[k] == accs[k] && o[k] == others[k]);
            } else {
                assert(a[k - 1] == prev);
            }
        }
        assert(kernel_calls(kernel, op, keys, terms, n, acc, a, o));
    }
}

/// `accs` are what the calls of the kernel gave, one for each term behind the first, and
/// `others` the flat arrays of the terms.
pub open spec fn kernel_calls<K: Fn(BoolOp, &Vec<u32>, &Vec<u32>) -> Option<Vec<u32>>>(
    kernel: K,
    op: BoolOp,
    keys: Seq<u16>,
    terms: Seq<&RoaringPostings>,
    n: int,
    acc: Vec<u32>,
    accs: Seq<Vec<u32>>,
    others: Seq<Vec<u32>>,
) -> bool {
    &&& accs.len() == n
    &&& others.len() == n
    &&& accs[n - 1] == acc
    &&& flat::flat_wf(keys, accs[0]@)
    &&& flat::flat_docs(keys, accs[0]@) == terms[0]@
    &&& forall|k: int|
        #![trigger others[k]]
        1 <= k < n ==> call_ensures(kernel, (op, &accs[k - 1], &others[k]), Some(accs[k]))
            && flat::flat_wf(keys, others[k]@) && flat::flat_docs(keys, others[k]@) == terms[k]@
}

/// The tag bytes of the two posting formats, and how a body tells them apart: a body that
/// begins with `ROAR` is a posting list, any other is in the older format.
pub proof fn lemma_format_tags(body: Seq<u8>)
    ensures
        PostingFormat::BitPacker4x.tag_of() == 0,
        PostingFormat::Roaring.tag_of() == 1,
        posting_format::has_magic(body) <==> body.len() >= 4 && body[0] == 0x52 && body[1] == 0x4F
            && body[2] == 0x41 && body[3] == 0x52,
{
    let magic = crate::postings::MAGIC@;
    assert(magic =~= seq![0x52u8, 0x4Fu8, 0x41u8, 0x52u8]);
    if body.len() >= 4 {
        let front = body.take(4);
        if front == magic {
            assert(front[0] == body[0] && front[1] == body[1] && front[2] == body[2] && front[3]
                == body[3]);
        }
        if body[0] == 0x52 && body[1] == 0x4F && body[2] == 0x41 && body[3] == 0x52 {
            assert(front =~= magic);
        }
    }
}

/// A setting says yes when it is `1` or the word `true` in any mix of cases.
pub proof fn lemma_setting_says_yes(s: Seq<char>)
    ensures
        kill_switch::says_yes(s) <==> s.len() == 1 && s[0] == '1' || s.len() == 4 && (s[0] == 't'
            || s[0] == 'T') && (s[1] == 'r' || s[1] == 'R') && (s[2] == 'u' || s[2] == 'U') && (s[3]
            == 'e' || s[3] == 'E'),
{
    if s.len() == 1 && s[0] == '1' {
        assert(s =~= seq!['1']);
    }
}

/// The switch is asked once: the first question takes its answer from the setting, and every
/// later one repeats it, whatever the setting says then.
pub proof fn lemma_switch_is_asked_once(
    before: Option<bool>,
    setting: Option<Seq<char>>,
    answer: bool,
    after: Option<bool>,
)
    requires
        kill_switch::asked(before, setting, answer, after),
    ensures
        after == Some(answer),
        before matches Some(b) ==> answer == b,
        before is None && setting is None ==> !answer,
        before is None ==> (setting matches Some(s) ==> answer == kill_switch::says_yes(s)),
{
}

/// The identity codec writes a container word by word, four bytes each, lowest first, and
/// reads it back the same way. Other lengths are refused, and then nothing is written.
pub proof fn lemma_identity_codec(
    codec: IdentityBitcompCodec,
    raw: Seq<u32>,
    r: Result<Vec<u8>, BitcompError>,
    bytes: Seq<u8>,
    before: Seq<u32>,
    after: Seq<u32>,
    e: Option<BitcompError>,
)
    requires
        codec.compressed(raw, r),
        codec.decompressed(bytes, before, after, e),
    ensures
        raw.len() == 2048 ==> {
            &&& r matches Ok(b)
            &&& b@.len() == 8192
            &&& forall|i: int| 0 <= i < 2048 ==> format_laws::num4(b@, 4 * i) == #[trigger] raw[i]
        },
        raw.len() != 2048 ==> r == Err::<Vec<u8>, BitcompError>(
            BitcompError::LengthMismatch { expected: 2048, got: raw.len() as usize },
        ),
        bytes.len() == 8192 ==> {
            &&& e is None
            &&& after.len() == 2048
            &&& forall|i: int| 0 <= i < 2048 ==> #[trigger] after[i] == format_laws::num4(
                bytes,
                4 * i,
            )
        },
        bytes.len() != 8192 ==> e == Some(
            BitcompError::NotContainerSized { got: bytes.len() as usize },
        ) && after == before,
{
    if raw.len() == 2048 {
        format_laws::lemma_number_lists_written(Seq::empty(), raw);
    }
    if bytes.len() == 8192 {
        assert forall|i: int| 0 <= i < 2048 implies #[trigger] after[i] == format_laws::num4(
            bytes,
            4 * i,
        ) by {
            format_laws::lemma_read4(bytes, 4 * i);
        }
    }
}

/// The flat array of a term holds its documents and no others; the lists of a cohort are
/// combined as their documents; a kernel is exact when it combines word by word.
pub proof fn lemma_cohort_as_documents<
    K: Fn(BoolOp, &Vec<u32>, &Vec<u32>) -> Option<Vec<u32>>,
>(
    keys: Seq<u16>,
    words: Seq<u32>,
    docs: Set<u32>,
    terms: Seq<&RoaringPostings>,
    kernel: K,
    op: BoolOp,
    h: u16,
    num_docs: u32,
)
    ensures
        gpu_dispatch::is_flat(keys, words, docs) ==> words.len() == 2048 * keys.len()
            && flat::flat_docs(keys, words) == docs,
        gpu_dispatch::term_sets(terms) == terms.map_values(|t: &RoaringPostings| t@),
        (forall|a: Vec<u32>, b: Vec<u32>, r: Vec<u32>| #[trigger]
            call_ensures(kernel, (op, &a, &b), Some(r)) ==> r@ == flat::op_words(op, a@, b@))
            ==> gpu_dispatch::kernel_exact(kernel, op),
        gpu_dispatch::any_bucket(terms, terms.len() as int, h) <==> exists|i: int, j: int|
            0 <= i < terms.len() && 0 <= j < terms[i].containers@.len() && (
            #[trigger] terms[i].containers@[j]).0 == h,
        forall|p: RoaringPostings| #[trigger]
            gpu_dispatch::term_stat(p, num_docs) == (TermStat {
                doc_freq: if p@.len() <= u32::MAX {
                    p@.len() as u32
                } else {
                    u32::MAX
                },
                num_docs_in_segment: num_docs,
            }),
{
    assert(gpu_dispatch::term_sets(terms) =~= terms.map_values(|t: &RoaringPostings| t@));
    lemma_cohort_keys(terms);
    let set = Set::new(|h: u16| gpu_dispatch::any_bucket(terms, terms.len() as int, h));
    keyset::lemma_sorted_keys_spec(set);
    assert(keyset::sorted_keys(set).to_set().contains(h) <==> set.contains(h));
    assert(gpu_dispatch::cohort_keys(terms).contains(h) <==> set.contains(h));
}

/// The codec that is not there yet refuses everything and writes nothing; the default codec
/// does what the one it stands for does. A container is decompressed into zeros.
pub proof fn lemma_other_codecs(
    ferro: FerroBitcompCodec,
    codec: DefaultBitcompCodec,
    raw: Seq<u32>,
    r: Result<Vec<u8>, BitcompError>,
    bytes: Seq<u8>,
    before: Seq<u32>,
    after: Seq<u32>,
    e: Option<BitcompError>,
)
    ensures
        ferro.compressed(raw, r) ==> r == Err::<Vec<u8>, BitcompError>(BitcompError::WaitingOnWave6),
        ferro.decompressed(bytes, before, after, e) ==> e == Some(BitcompError::WaitingOnWave6)
            && after == before,
        codec matches DefaultBitcompCodec::Identity(c) ==> (codec.compressed(raw, r)
            <==> c.compressed(raw, r)) && (codec.decompressed(bytes, before, after, e)
            <==> c.decompressed(bytes, before, after, e)),
        codec matches DefaultBitcompCodec::Ferro(c) ==> (codec.compressed(raw, r) <==> c.compressed(
            raw,
            r,
        )) && (codec.decompressed(bytes, before, after, e) <==> c.decompressed(
            bytes,
            before,
            after,
            e,
        )),
        crate::ferro_compress_bridge::blank().len() == 2048,
        forall|i: int| 0 <= i < 2048 ==> #[trigger] crate::ferro_compress_bridge::blank()[i] == 0,
{
}

/// A segment id is written as 32 digits and read from 32 digits, and a setting is its text.
pub proof fn lemma_texts(id: SegmentId, s: Seq<u8>, setting: Option<&str>)
    ensures
        id.hex() == segment_id::hex_digits(id.value as int, 32),
        segment_id::all_hex(s) <==> forall|i: int|
            0 <= i < s.len() ==> segment_id::digit_value(#[trigger] s[i]) is Some,
        setting matches Some(t) ==> kill_switch::text(setting) == Some(t@),
        setting is None ==> kill_switch::text(setting) is None,
{
}

} // verus!
