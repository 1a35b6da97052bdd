//! Canonical posting lists are determined by their documents.
//!
//! An encoder, and the decoding of a flat bitmap, end in canonical lists: every
//! bucket is populated and holds its keys in the smallest form, with maximal runs.
//! Two such lists with the same documents hold the same containers, so they also
//! encode to the same bytes, whatever order the documents came in.

use vstd::prelude::*;

use crate::bitmap;
use crate::container;
use crate::encoder;
use crate::keyset;
use crate::postings;
use crate::run;

use crate::container::{Container, Contents};
use crate::run::Run;

verus! {

/// Two words with the same bits are equal.
proof fn lemma_word_determined(x: u32, y: u32)
    requires
        forall|b: int| 0 <= b < 32 ==> bitmap::bit(x, b) == bitmap::bit(y, b),
    ensures
        x == y,
{
    let z = x ^ y;
    if z != 0 {
        vstd::std_specs::bits::axiom_u32_trailing_zeros(z);
        let t = vstd::std_specs::bits::u32_trailing_zeros(z) as int;
        bitmap::lemma_bit_xor(x, y, t);
        assert(bitmap::bit(z, t));
    }
    assert(x ^ y == 0u32 ==> x == y) by (bit_vector);
}

/// Word arrays with the same key set are equal.
pub proof fn lemma_words_determined(a: Seq<u32>, b: Seq<u32>)
    requires
        a.len() == 2048,
        b.len() == 2048,
        bitmap::word_set(a) == bitmap::word_set(b),
    ensures
        a == b,
{
    assert forall|i: int| 0 <= i < 2048 implies a[i] == b[i] by {
        assert forall|c: int| 0 <= c < 32 implies bitmap::bit(a[i], c) == bitmap::bit(b[i], c) by {
            let k = (32 * i + c) as u16;
            assert(k as int / 32 == i && k as int % 32 == c);
            assert(bitmap::word_set(a).contains(k) == bitmap::has_bit(a, k));
            assert(bitmap::word_set(b).contains(k) == bitmap::has_bit(b, k));
        }
        lemma_word_determined(a[i], b[i]);
    }
    assert(a =~= b);
}

/// The last of maximal runs starts no earlier in one list than in the other.
proof fn lemma_last_start(a: Seq<Run>, b: Seq<Run>)
    requires
        run::runs_wf(a),
        run::maximal(a),
        run::runs_wf(b),
        run::maximal(b),
        run::runs_set(a) == run::runs_set(b),
        a.len() > 0,
        b.len() > 0,
        a.last().last() == b.last().last(),
    ensures
        a.last().start >= b.last().start,
{
    let n = b.len() - 1;
    if a.last().start < b.last().start {
        let k = (b.last().start - 1) as u16;
        assert(a[a.len() - 1].has(k));
        assert(run::runs_set(a).contains(k));
        assert(run::runs_set(b).contains(k));
        let j = choose|j: int| 0 <= j < b.len() && (#[trigger] b[j]).has(k);
        assert(b[n] == b.last());
        if j < n {
            assert(b[j].last() + 1 < b[n].start);
        }
    }
}

/// The last position of a list of runs is no greater than that of a list with the
/// same positions.
proof fn lemma_last_end(a: Seq<Run>, b: Seq<Run>)
    requires
        run::runs_wf(a),
        run::runs_wf(b),
        run::runs_set(a) == run::runs_set(b),
        a.len() > 0,
        b.len() > 0,
    ensures
        a.last().last() <= b.last().last(),
{
    assert(a[a.len() - 1].last() <= 65535);
    let k = a.last().last() as u16;
    assert(a[a.len() - 1].has(k));
    assert(run::runs_set(a).contains(k));
    assert(run::runs_set(b).contains(k));
    let j = choose|j: int| 0 <= j < b.len() && (#[trigger] b[j]).has(k);
    let n = b.len() - 1;
    if j < n {
        assert(b[j].last() < b[n].start);
    }
}

/// Lists of maximal runs with the same positions are equal.
pub proof fn lemma_runs_determined(a: Seq<Run>, b: Seq<Run>)
    requires
        run::runs_wf(a),
        run::maximal(a),
        run::runs_wf(b),
        run::maximal(b),
        run::runs_set(a) == run::runs_set(b),
    ensures
        a == b,
    decreases a.len(),
{
    if a.len() == 0 || b.len() == 0 {
        if a.len() > 0 {
            assert(a[0].has(a[0].start));
            assert(run::runs_set(a).contains(a[0].start));
            assert(run::runs_set(b).contains(a[0].start));
        }
        if b.len() > 0 {
            assert(b[0].has(b[0].start));
            assert(run::runs_set(b).contains(b[0].start));
            assert(run::runs_set(a).contains(b[0].start));
        }
        assert(a =~= b);
    } else {
        lemma_last_end(a, b);
        lemma_last_end(b, a);
        lemma_last_start(a, b);
        lemma_last_start(b, a);
        let last = a.last();
        assert(last == b.last());
        let a1 = a.drop_last();
        let b1 = b.drop_last();
        lemma_drop_last(a);
        lemma_drop_last(b);
        assert(run::runs_set(a1) =~= run::runs_set(b1));
        lemma_runs_determined(a1, b1);
        assert(a =~= a1.push(last));
        assert(b =~= b1.push(last));
    }
}

/// Without its last run a list of maximal runs loses exactly its positions.
proof fn lemma_drop_last(a: Seq<Run>)
    requires
        run::runs_wf(a),
        run::maximal(a),
        a.len() > 0,
    ensures
        run::runs_wf(a.drop_last()),
        run::maximal(a.drop_last()),
        forall|k: u16| #[trigger]
            run::runs_set(a.drop_last()).contains(k) <==> run::runs_set(a).contains(k)
                && !a.last().has(k),
{
    let f = a.drop_last();
    let n = a.len() - 1;
    assert forall|i: int| 0 <= i < f.len() implies (#[trigger] f[i]).last() <= 65535 by {
        assert(f[i] == a[i]);
    }
    assert forall|i: int, j: int| 0 <= i < j < f.len() implies (#[trigger] f[i]).last() < (
    #[trigger] f[j]).start && f[i].last() + 1 < f[j].start by {
        assert(a[i].last() + 1 < a[j].start);
    }
    assert forall|k: u16| #[trigger]
        run::runs_set(f).contains(k) <==> run::runs_set(a).contains(k) && !a.last().has(k) by {
        if run::runs_set(f).contains(k) {
            let i = choose|i: int| 0 <= i < f.len() && (#[trigger] f[i]).has(k);
            assert(a[i].has(k));
            assert(a[i].last() < a[n].start);
        }
        if run::runs_set(a).contains(k) && !a.last().has(k) {
            let i = choose|i: int| 0 <= i < a.len() && (#[trigger] a[i]).has(k);
            assert(f[i].has(k));
        }
    }
}

/// Containers in their smallest form with the same keys hold the same.
pub proof fn lemma_container_determined(a: Container, b: Container)
    requires
        a.wf(),
        b.wf(),
        a@ == b@,
        a.form() == b.form(),
        a matches Container::Run(r) ==> run::maximal(r.runs@),
        b matches Container::Run(r) ==> run::maximal(r.runs@),
    ensures
        a.contents() == b.contents(),
{
    match (a, b) {
        (Container::Array(x), Container::Array(y)) => {
            x.lemma_view();
            y.lemma_view();
        },
        (Container::Bitmap(x), Container::Bitmap(y)) => {
            lemma_words_determined(x.words@, y.words@);
        },
        (Container::Run(x), Container::Run(y)) => {
            lemma_runs_determined(x.runs@, y.runs@);
        },
        _ => {},
    }
}

/// The bucket keys of a list.
spec fn highs_of(cs: Seq<(u16, Container)>) -> Seq<u16> {
    Seq::new(cs.len(), |i: int| cs[i].0)
}

/// The bucket keys of a canonical list are those of its documents.
proof fn lemma_highs(cs: Seq<(u16, Container)>)
    requires
        encoder::canonical(cs),
    ensures
        keyset::increasing(highs_of(cs)),
        forall|h: u16| #[trigger]
            highs_of(cs).contains(h) <==> crate::encoder::populated(
                postings::bucket_docs(cs),
                h,
            ),
{
    let highs = highs_of(cs);
    assert forall|i: int, j: int| 0 <= i < j < highs.len() implies highs[i] < highs[j] by {
        assert(cs[i].0 < cs[j].0);
    }
    assert forall|h: u16| #[trigger] highs.contains(h) <==> crate::encoder::populated(
        postings::bucket_docs(cs),
        h,
    ) by {
        if highs.contains(h) {
            let i = choose|i: int| 0 <= i < highs.len() && highs[i] == h;
            let set = cs[i].1@;
            assert(set.len() > 0);
            keyset::lemma_sorted_keys_spec(set);
            let k = keyset::sorted_keys(set)[0];
            assert(keyset::sorted_keys(set).contains(k));
            let d = postings::doc_of(h, k);
            assert(d / 65536 == h && (d % 65536) as u16 == k);
            assert(cs[i].0 == d / 65536);
            assert(postings::has_doc_from(cs, 0, d));
            assert(postings::bucket_docs(cs).contains(d));
        }
        if crate::encoder::populated(postings::bucket_docs(cs), h) {
            let d = choose|d: u32| #[trigger] postings::bucket_docs(cs).contains(d)
                && d / 65536 == h;
            let j = choose|j: int|
                0 <= j < cs.len() && (#[trigger] cs[j]).0 == d / 65536 && cs[j].1@.contains(
                    (d % 65536) as u16,
                );
            assert(highs[j] == h);
        }
    }
}

/// The keys of bucket `i` are the low halves of its documents.
proof fn lemma_bucket_keys(cs: Seq<(u16, Container)>, i: int, k: u16)
    requires
        postings::buckets_wf(cs),
        0 <= i < cs.len(),
    ensures
        cs[i].1@.contains(k) == postings::bucket_docs(cs).contains(postings::doc_of(cs[i].0, k)),
{
    let d = postings::doc_of(cs[i].0, k);
    assert(d / 65536 == cs[i].0 && (d % 65536) as u16 == k);
    if postings::bucket_docs(cs).contains(d) {
        let j = choose|j: int|
            0 <= j < cs.len() && (#[trigger] cs[j]).0 == d / 65536 && cs[j].1@.contains(
                (d % 65536) as u16,
            );
        if j < i {
            assert(cs[j].0 < cs[i].0);
        } else if i < j {
            assert(cs[i].0 < cs[j].0);
        }
    }
}

/// Canonical posting lists with the same documents hold the same containers and
/// encode to the same bytes.
pub proof fn lemma_canonical_unique(a: Seq<(u16, Container)>, b: Seq<(u16, Container)>)
    requires
        encoder::canonical(a),
        encoder::canonical(b),
        postings::bucket_docs(a) == postings::bucket_docs(b),
    ensures
        postings::bucket_contents(a) == postings::bucket_contents(b),
        postings::postings_bytes(postings::bucket_contents(a))
            == postings::postings_bytes(postings::bucket_contents(b)),
{
    let ha = highs_of(a);
    let hb = highs_of(b);
    lemma_highs(a);
    lemma_highs(b);
    assert forall|h: u16| ha.contains(h) <==> hb.contains(h) by {}
    keyset::lemma_increasing_unique(ha, hb);
    assert(ha.len() == hb.len());
    assert forall|i: int| 0 <= i < a.len()
        implies postings::bucket_contents(a)[i] == postings::bucket_contents(b)[i] by {
        assert(ha[i] == hb[i]);
        assert forall|k: u16| a[i].1@.contains(k) == b[i].1@.contains(k) by {
            lemma_bucket_keys(a, i, k);
            lemma_bucket_keys(b, i, k);
        }
        assert(a[i].1@ =~= b[i].1@);
        lemma_container_determined(a[i].1, b[i].1);
    }
    assert(postings::bucket_contents(a) =~= postings::bucket_contents(b));
}

/// What the encoder produces always reads back: a canonical list has no run container
/// with more runs than can be counted in 16 bits.
pub proof fn lemma_canonical_round_trip(cs: Seq<(u16, Container)>)
    requires
        encoder::canonical(cs),
    ensures
        postings::parse_postings(postings::postings_bytes(postings::bucket_contents(cs))) == Ok::<
            Seq<(u16, Contents)>,
            postings::RoaringFormatError,
        >(postings::bucket_contents(cs)),
{
    let es = postings::bucket_contents(cs);
    assert forall|i: int, j: int| 0 <= i < j < es.len() implies (#[trigger] es[i]).0 < (
    #[trigger] es[j]).0 by {
        assert(cs[i].0 < cs[j].0);
    }
    assert forall|i: int| 0 <= i < es.len() implies container::contents_wf((#[trigger] es[i]).1)
        && (es[i].1 matches Contents::Run(runs) ==> runs.len() <= 65535) by {
        assert(cs[i].1.wf());
        container::lemma_contents_wf(cs[i].1);
        if let Container::Run(r) = cs[i].1 {
            run::lemma_maximal_count(r.runs@);
        }
    }
    postings::lemma_postings_round_trip(es);
}

} // verus!
