//! Dump records of the uncompressed device tier.
//!
//! A record is a key header, a bucket index, the length of the dense words in bytes
//! (`u64`) and the words, little-endian.

use vstd::prelude::*;

use crate::persist;
use crate::wire;

use crate::cht::ChtKey;
use crate::persist::{
    read_chtkey, read_exact_or_truncated, read_index, read_u64_le, ByteReader, LoadError,
    MAGIC_END, MAGIC_V2,
};
use crate::wire::{get_u32, push_u32, to_usize};

verus! {

/// A record as read from a dump.
pub struct VramRecord {
    /// What the entry is filed under.
    pub key: ChtKey,
    /// `(high16, word_offset)` of each bucket.
    pub bucket_index: Vec<(u16, u32)>,
    /// The bytes of the dense words.
    pub body: Vec<u8>,
}

/// What a record says.
#[verifier::ext_equal]
pub struct RecordView {
    /// What the entry is filed under.
    pub key: ChtKey,
    /// `(high16, word_offset)` of each bucket.
    pub index: Seq<(u16, u32)>,
    /// The bytes of the dense words.
    pub body: Seq<u8>,
}

impl View for VramRecord {
    type V = RecordView;

    open spec fn view(&self) -> RecordView {
        RecordView { key: self.key, index: self.bucket_index@, body: self.body@ }
    }
}

/// The lengths of a record fit their fields.
pub open spec fn encodable(r: RecordView) -> bool {
    r.index.len() <= u32::MAX && r.body.len() <= usize::MAX
}

/// The bytes of a record.
pub open spec fn record_bytes(r: RecordView) -> Seq<u8> {
    persist::key_bytes(r.key) + persist::index_bytes(r.index) + wire::le64(r.body.len() as u64)
        + r.body
}

/// The bytes of records, back to back.
pub open spec fn records_bytes(rs: Seq<RecordView>) -> Seq<u8>
    decreases rs.len(),
{
    if rs.len() == 0 {
        Seq::empty()
    } else {
        record_bytes(rs[0]) + records_bytes(rs.drop_first())
    }
}

/// The bytes of a dump.
pub open spec fn dump_bytes(rs: Seq<RecordView>) -> Seq<u8> {
    persist::header_bytes(MAGIC_V2, rs.len() as u64) + records_bytes(rs) + wire::le32(MAGIC_END)
}

/// What the front of a byte string says as a record, and the bytes behind it.
pub open spec fn parse_record(b: Seq<u8>, entry_index: u64) -> Result<
    (RecordView, Seq<u8>),
    LoadError,
> {
    match persist::parse_key(b, entry_index) {
        Err(e) => Err(e),
        Ok(key) => match persist::parse_index(b.skip(44)) {
            Err(e) => Err(e),
            Ok(index) => {
                let c = b.skip(48int + 6 * index.len());
                if c.len() < 8 {
                    Err(LoadError::TruncatedDump { needed: 8 })
                } else if c.len() - 8 < wire::at64(c, 0) {
                    Err(
                        LoadError::TruncatedDump {
                            needed: wire::clamp_usize(wire::at64(c, 0) as int),
                        },
                    )
                } else {
                    let n = wire::at64(c, 0) as int;
                    Ok((RecordView { key, index, body: c.subrange(8, 8 + n) }, c.skip(8 + n)))
                }
            },
        },
    }
}

/// The records from number `i` up to `n`, as far as they parse, and the bytes behind
/// the last of them or the error that stopped the reading.
pub open spec fn parse_records(b: Seq<u8>, i: int, n: int) -> (
    Seq<RecordView>,
    Result<Seq<u8>, LoadError>,
)
    decreases n - i,
{
    if i >= n {
        (Seq::empty(), Ok(b))
    } else {
        match parse_record(b, i as u64) {
            Err(e) => (Seq::empty(), Err(e)),
            Ok((r, rest)) => {
                let (rs, out) = parse_records(rest, i + 1, n);
                (seq![r] + rs, out)
            },
        }
    }
}

/// The records of a dump, as far as they parse, and whether the dump is sound.
pub open spec fn parse_dump(b: Seq<u8>) -> (Seq<RecordView>, Result<(), LoadError>) {
    match persist::parse_header(b, seq![MAGIC_V2]) {
        Err(e) => (Seq::empty(), Err(e)),
        Ok((_, n)) => {
            let (rs, out) = parse_records(b.skip(24), 0, n as int);
            match out {
                Err(e) => (rs, Err(e)),
                Ok(rest) => (rs, persist::parse_trailer(rest)),
            }
        },
    }
}

/// The dense words of a body.
pub open spec fn body_words(body: Seq<u8>) -> Seq<u32> {
    Seq::new(body.len() / 4, |i: int| wire::at32(body, 4 * i))
}

/// Read a record.
pub(crate) fn read_record(r: &mut ByteReader<'_>, entry_index: u64) -> (out: Result<VramRecord, LoadError>)
    requires
        old(r).wf(),
    ensures
        final(r).wf(),
        match out {
            Ok(rec) => parse_record(old(r).rest(), entry_index) == Ok::<
                (RecordView, Seq<u8>),
                LoadError,
            >((rec@, final(r).rest())) && encodable(rec@),
            Err(e) => parse_record(old(r).rest(), entry_index) == Err::<
                (RecordView, Seq<u8>),
                LoadError,
            >(e),
        },
{
    let ghost b = r.rest();
    let key: ChtKey = match read_chtkey(r, entry_index) {
        Ok(k) => k,
        Err(e) => {
            return Err(e);
        },
    };
    let bucket_index: Vec<(u16, u32)> = match read_index(r) {
        Ok(v) => v,
        Err(e) => {
            return Err(e);
        },
    };
    let ghost c = b.skip(48int + 6 * bucket_index@.len());
    assert(r.rest() =~= c);
    let n: u64 = match read_u64_le(r) {
        Ok(x) => x,
        Err(e) => {
            return Err(e);
        },
    };
    if (r.remaining() as u64) < n {
        return Err(LoadError::TruncatedDump { needed: to_usize(n) });
    }
    let body: Vec<u8> = match read_exact_or_truncated(r, n as usize) {
        Ok(v) => v,
        Err(e) => {
            return Err(e);
        },
    };
    proof {
        assert(body@ =~= c.subrange(8, 8 + n));
        assert(r.rest() =~= c.skip(8 + n));
        assert(body@.len() == body.len());
    }
    Ok(VramRecord { key, bucket_index, body })
}

/// Decode the dense words of a body.
pub(crate) fn decode_words(body: &Vec<u8>) -> (r: Vec<u32>)
    ensures
        r@ == body_words(body@),
{
    let n: usize = body.len() / 4;
    let mut words: Vec<u32> = Vec::new();
    let mut i: usize = 0;
    while i < n
        invariant
            n == body@.len() / 4,
            i <= n,
            words@ == body_words(body@).take(i as int),
        decreases n - i,
    {
        assert(4 * i + 4 <= body.len());
        words.push(get_u32(body.as_slice(), 4 * i));
        i = i + 1;
        assert(words@ =~= body_words(body@).take(i as int));
    }
    assert(body_words(body@).take(n as int) =~= body_words(body@));
    words
}

/// Append the bytes of dense words.
pub(crate) fn push_word_bytes(out: &mut Vec<u8>, words: &Vec<u32>)
    ensures
        final(out)@ == old(out)@ + wire::enc32(words@),
{
    let n: usize = words.len();
    let mut i: usize = 0;
    assert(out@ =~= old(out)@ + wire::enc32(words@.take(0)));
    while i < n
        invariant
            n == words@.len(),
            i <= n,
            out@ == old(out)@ + wire::enc32(words@.take(i as int)),
        decreases n - i,
    {
        push_u32(out, words[i]);
        proof {
            wire::lemma_enc32_push(words@.take(i as int), words@[i as int]);
            assert(words@.take(i as int).push(words@[i as int]) =~= words@.take(i + 1));
            assert(out@ =~= old(out)@ + wire::enc32(words@.take(i + 1)));
        }
        i = i + 1;
    }
    assert(words@.take(n as int) =~= words@);
}

/// A record appended appends its bytes.
pub proof fn lemma_records_push(rs: Seq<RecordView>, r: RecordView)
    ensures
        records_bytes(rs.push(r)) == records_bytes(rs) + record_bytes(r),
    decreases rs.len(),
{
    let t = rs.push(r);
    if rs.len() == 0 {
        assert(t.drop_first() =~= Seq::<RecordView>::empty());
        assert(records_bytes(t.drop_first()) =~= Seq::<u8>::empty());
        assert(record_bytes(r) + Seq::<u8>::empty() =~= Seq::<u8>::empty() + record_bytes(r));
    } else {
        assert(t.drop_first() =~= rs.drop_first().push(r));
        lemma_records_push(rs.drop_first(), r);
        wire::lemma_assoc(record_bytes(rs[0]), records_bytes(rs.drop_first()), record_bytes(r));
    }
}

/// Decoding encoded words gives them back.
pub proof fn lemma_words_round_trip(words: Seq<u32>)
    ensures
        body_words(wire::enc32(words)) == words,
{
    let b = wire::enc32(words);
    assert(b.subrange(0, b.len() as int) =~= b);
    wire::lemma_holds(b, 0, b);
    assert forall|i: int| 0 <= i < words.len() implies body_words(b)[i] == words[i] by {
        wire::lemma_enc32_at(b, 0, words, i);
    }
    assert(body_words(b) =~= words);
}

/// The parts of a record with something behind it.
proof fn lemma_parts(k: Seq<u8>, x: Seq<u8>, l: Seq<u8>, body: Seq<u8>, tail: Seq<u8>)
    ensures
        k + x + l + body + tail == k + (x + (l + (body + tail))),
{
    assert(k + x + l + body + tail =~= k + (x + (l + (body + tail))));
}

/// A record that was written reads back, and what stands behind it is left.
pub proof fn lemma_record_round_trip(r: RecordView, tail: Seq<u8>, entry_index: u64)
    requires
        encodable(r),
    ensures
        parse_record(record_bytes(r) + tail, entry_index) == Ok::<(RecordView, Seq<u8>), LoadError>(
            (r, tail),
        ),
{
    let len = r.body.len() as u64;
    let k = persist::key_bytes(r.key);
    let x = persist::index_bytes(r.index);
    let c = wire::le64(len) + (r.body + tail);
    lemma_parts(k, x, wire::le64(len), r.body, tail);
    persist::lemma_key_round_trip(r.key, x + c, entry_index);
    persist::lemma_index_round_trip(r.index, c);
    wire::lemma_front64(len, r.body + tail);
    lemma_assembled(k, x, c, r, tail, entry_index);
}

/// What the parts of a record say, the record says.
proof fn lemma_assembled(
    k: Seq<u8>,
    x: Seq<u8>,
    c: Seq<u8>,
    r: RecordView,
    tail: Seq<u8>,
    entry_index: u64,
)
    requires
        persist::parse_key(k + (x + c), entry_index) == Ok::<ChtKey, LoadError>(r.key),
        persist::parse_index(x + c) == Ok::<Seq<(u16, u32)>, LoadError>(r.index),
        k.len() == 44,
        x.len() == 4 + 6 * r.index.len(),
        wire::at64(c, 0) == r.body.len(),
        c.len() == 8 + r.body.len() + tail.len(),
        c.skip(8) == r.body + tail,
    ensures
        parse_record(k + (x + c), entry_index) == Ok::<(RecordView, Seq<u8>), LoadError>((r, tail)),
{
    let b = k + (x + c);
    let n = r.body.len() as int;
    assert(b.skip(44) =~= x + c);
    assert(b.skip(48int + 6 * r.index.len()) =~= c);
    assert(c.subrange(8, 8 + n) =~= c.skip(8).take(n));
    assert(c.skip(8).take(n) =~= r.body);
    assert(c.skip(8 + n) =~= c.skip(8).skip(n));
    assert(c.skip(8).skip(n) =~= tail);
}

proof fn lemma_records_round_trip(rs: Seq<RecordView>, tail: Seq<u8>, i: int)
    requires
        forall|j: int| 0 <= j < rs.len() ==> encodable(#[trigger] rs[j]),
        0 <= i,
        i + rs.len() <= u64::MAX,
    ensures
        parse_records(records_bytes(rs) + tail, i, i + rs.len()) == (
            rs,
            Ok::<Seq<u8>, LoadError>(tail),
        ),
    decreases rs.len(),
{
    let b = records_bytes(rs) + tail;
    if rs.len() == 0 {
        assert(b =~= tail);
        assert(rs =~= Seq::empty());
    } else {
        let rest = rs.drop_first();
        wire::lemma_assoc(record_bytes(rs[0]), records_bytes(rest), tail);
        lemma_record_round_trip(rs[0], records_bytes(rest) + tail, i as u64);
        assert forall|j: int| 0 <= j < rest.len() implies encodable(#[trigger] rest[j]) by {
            assert(rest[j] == rs[j + 1]);
        }
        lemma_records_round_trip(rest, tail, i + 1);
        assert(seq![rs[0]] + rest =~= rs);
    }
}

/// A dump that was written reads back as its records, and is sound, whatever stands
/// behind it.
pub proof fn lemma_dump_round_trip(rs: Seq<RecordView>, tail: Seq<u8>)
    requires
        forall|j: int| 0 <= j < rs.len() ==> encodable(#[trigger] rs[j]),
        rs.len() <= u64::MAX,
    ensures
        parse_dump(dump_bytes(rs) + tail) == (rs, Ok::<(), LoadError>(())),
{
    let n = rs.len() as u64;
    let b = dump_bytes(rs) + tail;
    let end = wire::le32(MAGIC_END) + tail;
    assert(seq![MAGIC_V2].contains(MAGIC_V2)) by {
        assert(seq![MAGIC_V2][0] == MAGIC_V2);
    }
    persist::lemma_header_round_trip(MAGIC_V2, n, records_bytes(rs) + end, seq![MAGIC_V2]);
    assert(b =~= persist::header_bytes(MAGIC_V2, n) + (records_bytes(rs) + end));
    assert(b.skip(24) =~= records_bytes(rs) + end);
    lemma_records_round_trip(rs, end, 0);
    persist::lemma_trailer_round_trip(tail);
}

} // verus!
