//! Dump records of the compressed device tier.
//!
//! A record is a key header, a bucket index, the length of the uncompressed words in
//! bytes (`u64`), the number of chunks (`u32`), and for each chunk the length of its
//! compressed bytes (`u32`) and the bytes. Dumps of the older form have one chunk for
//! each entry: in place of the chunk list stand the length of the compressed bytes
//! (`u64`) and the bytes.

use vstd::prelude::*;

use crate::persist;
use crate::wire;

use crate::cht::ChtKey;
use crate::persist::{
    read_chtkey, read_exact_or_truncated, read_index, read_u32_le, read_u64_le, ByteReader,
    LoadError, MAGIC_END, MAGIC_V3, MAGIC_V4,
};
use crate::wire::to_usize;

verus! {

/// A record as read from a dump.
pub struct CompressedRecord {
    /// What the entry is filed under.
    pub key: ChtKey,
    /// `(high16, word_offset)` of each bucket.
    pub bucket_index: Vec<(u16, u32)>,
    /// Bytes of the uncompressed words.
    pub uncompressed_bytes: u64,
    /// The compressed bytes of each chunk.
    pub bodies: Vec<Vec<u8>>,
}

/// What a record says.
#[verifier::ext_equal]
pub struct CompressedView {
    /// What the entry is filed under.
    pub key: ChtKey,
    /// `(high16, word_offset)` of each bucket.
    pub index: Seq<(u16, u32)>,
    /// Bytes of the uncompressed words.
    pub uncompressed_bytes: u64,
    /// The compressed bytes of each chunk.
    pub bodies: Seq<Seq<u8>>,
}

/// The contents of byte vectors.
pub open spec fn contents(vs: Seq<Vec<u8>>) -> Seq<Seq<u8>> {
    Seq::new(vs.len(), |i: int| vs[i]@)
}

impl View for CompressedRecord {
    type V = CompressedView;

    open spec fn view(&self) -> CompressedView {
        CompressedView {
            key: self.key,
            index: self.bucket_index@,
            uncompressed_bytes: self.uncompressed_bytes,
            bodies: contents(self.bodies@),
        }
    }
}

/// The lengths of a record fit their fields.
pub open spec fn encodable(r: CompressedView) -> bool {
    &&& r.index.len() <= u32::MAX
    &&& r.bodies.len() <= u32::MAX
    &&& forall|i: int| 0 <= i < r.bodies.len() ==> (#[trigger] r.bodies[i]).len() <= u32::MAX
}

/// `n` as a `u32`, or `u32::MAX` where it does not fit.
pub open spec fn clamp32(n: int) -> u32 {
    if n <= u32::MAX {
        n as u32
    } else {
        u32::MAX
    }
}

/// The bytes of a chunk.
pub open spec fn chunk_bytes(body: Seq<u8>) -> Seq<u8> {
    wire::le32(clamp32(body.len() as int)) + body
}

/// The bytes of chunks, back to back.
pub open spec fn chunks_bytes(bodies: Seq<Seq<u8>>) -> Seq<u8>
    decreases bodies.len(),
{
    if bodies.len() == 0 {
        Seq::empty()
    } else {
        chunk_bytes(bodies[0]) + chunks_bytes(bodies.drop_first())
    }
}

/// The bytes of a record.
pub open spec fn record_bytes(r: CompressedView) -> Seq<u8> {
    persist::key_bytes(r.key) + persist::index_bytes(r.index) + wire::le64(r.uncompressed_bytes)
        + (wire::le32(clamp32(r.bodies.len() as int)) + chunks_bytes(r.bodies))
}

/// The bytes of records, back to back.
pub open spec fn records_bytes(rs: Seq<CompressedView>) -> Seq<u8>
    decreases rs.len(),
{
    if rs.len() == 0 {
        Seq::empty()
    } else {
        record_bytes(rs[0]) + records_bytes(rs.drop_first())
    }
}

/// The bytes of a dump.
pub open spec fn dump_bytes(rs: Seq<CompressedView>) -> Seq<u8> {
    persist::header_bytes(MAGIC_V4, rs.len() as u64) + records_bytes(rs) + wire::le32(MAGIC_END)
}

/// What the front of a byte string says as a chunk, and the bytes behind it.
pub open spec fn parse_chunk(b: Seq<u8>) -> Result<(Seq<u8>, Seq<u8>), LoadError> {
    if b.len() < 4 {
        Err(LoadError::TruncatedDump { needed: 4 })
    } else if b.len() - 4 < wire::at32(b, 0) {
        Err(LoadError::TruncatedDump { needed: wire::at32(b, 0) as usize })
    } else {
        let n = wire::at32(b, 0) as int;
        Ok((b.subrange(4, 4 + n), b.skip(4 + n)))
    }
}

/// `n` chunks, and the bytes behind them.
pub open spec fn parse_chunks(b: Seq<u8>, n: int) -> Result<(Seq<Seq<u8>>, Seq<u8>), LoadError>
    decreases n,
{
    if n <= 0 {
        Ok((Seq::empty(), b))
    } else {
        match parse_chunk(b) {
            Err(e) => Err(e),
            Ok((body, rest)) => match parse_chunks(rest, n - 1) {
                Err(e) => Err(e),
                Ok((bodies, end)) => Ok((seq![body] + bodies, end)),
            },
        }
    }
}

/// What the front of a byte string says as a chunk list, and the bytes behind it.
pub open spec fn parse_chunk_list(b: Seq<u8>) -> Result<(Seq<Seq<u8>>, Seq<u8>), LoadError> {
    if b.len() < 4 {
        Err(LoadError::TruncatedDump { needed: 4 })
    } else {
        parse_chunks(b.skip(4), wire::at32(b, 0) as int)
    }
}

/// What the front of a byte string says as the single chunk of the older form, and
/// the bytes behind it.
pub open spec fn parse_single(b: Seq<u8>) -> Result<(Seq<Seq<u8>>, Seq<u8>), LoadError> {
    if b.len() < 8 {
        Err(LoadError::TruncatedDump { needed: 8 })
    } else if b.len() - 8 < wire::at64(b, 0) {
        Err(LoadError::TruncatedDump { needed: wire::clamp_usize(wire::at64(b, 0) as int) })
    } else {
        let n = wire::at64(b, 0) as int;
        Ok((seq![b.subrange(8, 8 + n)], b.skip(8 + n)))
    }
}

/// What the front of a byte string says as the chunks of a record in a dump with the
/// given magic.
pub open spec fn parse_bodies(b: Seq<u8>, magic: u32) -> Result<
    (Seq<Seq<u8>>, Seq<u8>),
    LoadError,
> {
    if magic == MAGIC_V4 {
        parse_chunk_list(b)
    } else {
        parse_single(b)
    }
}

/// What the front of a byte string says as a record, and the bytes behind it.
pub open spec fn parse_record(b: Seq<u8>, magic: u32, entry_index: u64) -> Result<
    (CompressedView, Seq<u8>),
    LoadError,
> {
    match persist::parse_key(b, entry_index) {
        Err(e) => Err(e),
        Ok(key) => match persist::parse_index(b.skip(44)) {
            Err(e) => Err(e),
            Ok(index) => {
                let c = b.skip(48int + 6 * index.len());
                if c.len() < 8 {
                    Err(LoadError::TruncatedDump { needed: 8 })
                } else {
                    match parse_bodies(c.skip(8), magic) {
                        Err(e) => Err(e),
                        Ok((bodies, rest)) => Ok(
                            (
                                CompressedView {
                                    key,
                                    index,
                                    uncompressed_bytes: wire::at64(c, 0),
                                    bodies,
                                },
                                rest,
                            ),
                        ),
                    }
                }
            },
        },
    }
}

/// The records from number `i` up to `n`, as far as they parse, and the bytes behind
/// the last of them or the error that stopped the reading.
pub open spec fn parse_records(b: Seq<u8>, magic: u32, i: int, n: int) -> (
    Seq<CompressedView>,
    Result<Seq<u8>, LoadError>,
)
    decreases n - i,
{
    if i >= n {
        (Seq::empty(), Ok(b))
    } else {
        match parse_record(b, magic, i as u64) {
            Err(e) => (Seq::empty(), Err(e)),
            Ok((r, rest)) => {
                let (rs, out) = parse_records(rest, magic, i + 1, n);
                (seq![r] + rs, out)
            },
        }
    }
}

/// The magics a dump may have: the current one, and that of the older form.
pub open spec fn magics() -> Seq<u32> {
    seq![MAGIC_V4, MAGIC_V3]
}

/// The records of a dump, as far as they parse, and whether the dump is sound.
pub open spec fn parse_dump(b: Seq<u8>) -> (Seq<CompressedView>, Result<(), LoadError>) {
    match persist::parse_header(b, magics()) {
        Err(e) => (Seq::empty(), Err(e)),
        Ok((magic, n)) => {
            let (rs, out) = parse_records(b.skip(24), magic, 0, n as int);
            match out {
                Err(e) => (rs, Err(e)),
                Ok(rest) => (rs, persist::parse_trailer(rest)),
            }
        },
    }
}

/// Read a chunk list.
fn read_chunk_list(r: &mut ByteReader<'_>) -> (out: Result<Vec<Vec<u8>>, LoadError>)
    requires
        old(r).wf(),
    ensures
        final(r).wf(),
        match out {
            Ok(v) => parse_chunk_list(old(r).rest()) == Ok::<(Seq<Seq<u8>>, Seq<u8>), LoadError>(
                (contents(v@), final(r).rest()),
            ) && v@.len() <= u32::MAX && body_sum(contents(v@)) + final(r).rest().len() <= old(
                r,
            ).rest().len(),
            Err(e) => parse_chunk_list(old(r).rest()) == Err::<
                (Seq<Seq<u8>>, Seq<u8>),
                LoadError,
            >(e),
        },
{
    let ghost b0 = r.rest();
    let n: u32 = match read_u32_le(r) {
        Ok(x) => x,
        Err(e) => {
            return Err(e);
        },
    };
    let ghost b = r.rest();
    let mut bodies: Vec<Vec<u8>> = Vec::new();
    let mut i: u32 = 0;
    proof {
        assert(contents(bodies@) =~= Seq::empty());
        if let Ok((rest_bodies, end)) = parse_chunks(b, n as int) {
            assert(contents(bodies@) + rest_bodies =~= rest_bodies);
        }
    }
    while i < n
        invariant
            r.wf(),
            b0 == old(r).rest(),
            b0.len() >= 4,
            b == b0.skip(4),
            n == wire::at32(b0, 0),
            i <= n,
            bodies@.len() == i,
            body_sum(contents(bodies@)) + r.rest().len() <= b.len(),
            match parse_chunks(r.rest(), n - i) {
                Err(e) => parse_chunks(b, n as int) == Err::<(Seq<Seq<u8>>, Seq<u8>), LoadError>(e),
                Ok((rest_bodies, end)) => parse_chunks(b, n as int) == Ok::<
                    (Seq<Seq<u8>>, Seq<u8>),
                    LoadError,
                >((contents(bodies@) + rest_bodies, end)),
            },
        decreases n - i,
    {
        let ghost c = r.rest();
        let len: u32 = match read_u32_le(r) {
            Ok(x) => x,
            Err(e) => {
                return Err(e);
            },
        };
        let body: Vec<u8> = match read_exact_or_truncated(r, len as usize) {
            Ok(v) => v,
            Err(e) => {
                return Err(e);
            },
        };
        let ghost before = contents(bodies@);
        let ghost w = body@;
        bodies.push(body);
        i = i + 1;
        proof {
            assert(w =~= c.subrange(4, 4 + len));
            assert(r.rest() =~= c.skip(4 + len));
            assert(contents(bodies@) =~= before.push(w));
            lemma_body_sum_push(before, w);
            if let Ok((rest_bodies, end)) = parse_chunks(r.rest(), n - i) {
                assert(before + (seq![w] + rest_bodies) =~= contents(bodies@) + rest_bodies);
            }
        }
    }
    proof {
        assert(contents(bodies@) + Seq::empty() =~= contents(bodies@));
    }
    Ok(bodies)
}

/// Bytes of all chunks.
pub open spec fn body_sum(bodies: Seq<Seq<u8>>) -> int
    decreases bodies.len(),
{
    if bodies.len() == 0 {
        0
    } else {
        body_sum(bodies.drop_last()) + bodies.last().len()
    }
}

proof fn lemma_body_sum_push(bodies: Seq<Seq<u8>>, body: Seq<u8>)
    ensures
        body_sum(bodies.push(body)) == body_sum(bodies) + body.len(),
{
    assert(bodies.push(body).drop_last() =~= bodies);
}

/// Read a record of a dump with the given magic.
pub(crate) fn read_record(r: &mut ByteReader<'_>, magic: u32, entry_index: u64) -> (out: Result<
    CompressedRecord,
    LoadError,
>)
    requires
        old(r).wf(),
    ensures
        final(r).wf(),
        match out {
            Ok(rec) => parse_record(old(r).rest(), magic, entry_index) == Ok::<
                (CompressedView, Seq<u8>),
                LoadError,
            >((rec@, final(r).rest())) && rec.bucket_index@.len() <= u32::MAX && rec.bodies@.len()
                <= u32::MAX && body_sum(rec@.bodies) <= u64::MAX,
            Err(e) => parse_record(old(r).rest(), magic, entry_index) == Err::<
                (CompressedView, Seq<u8>),
                LoadError,
            >(e),
        },
{
    let ghost b = r.rest();
    let all: usize = r.remaining();
    let key: ChtKey = match read_chtkey(r, entry_index) {
        Ok(k) => k,
        Err(e) => {
            return Err(e);
        },
    };
    let bucket_index: Vec<(u16, u32)> = match read_index(r) {
        Ok(v) => v,
        Err(e) => {
            return Err(e);
        },
    };
    let ghost c = b.skip(48int + 6 * bucket_index@.len());
    assert(r.rest() =~= c);
    let uncompressed_bytes: u64 = match read_u64_le(r) {
        Ok(x) => x,
        Err(e) => {
            return Err(e);
        },
    };
    let ghost d = r.rest();
    let bodies: Vec<Vec<u8>> = if magic == MAGIC_V4 {
        match read_chunk_list(r) {
            Ok(v) => v,
            Err(e) => {
                return Err(e);
            },
        }
    } else {
        let n: u64 = match read_u64_le(r) {
            Ok(x) => x,
            Err(e) => {
                return Err(e);
            },
        };
        if (r.remaining() as u64) < n {
            return Err(LoadError::TruncatedDump { needed: to_usize(n) });
        }
        let body: Vec<u8> = match read_exact_or_truncated(r, n as usize) {
            Ok(v) => v,
            Err(e) => {
                return Err(e);
            },
        };
        let ghost w = body@;
        let one: Vec<Vec<u8>> = vec![body];
        proof {
            assert(w =~= d.subrange(8, 8 + n));
            assert(r.rest() =~= d.skip(8 + n));
            assert(contents(one@) =~= seq![w]);
            assert(Seq::<Seq<u8>>::empty().push(w) =~= seq![w]);
            lemma_body_sum_push(Seq::empty(), w);
        }
        one
    };
    Ok(CompressedRecord { key, bucket_index, uncompressed_bytes, bodies })
}

/// A record appended appends its bytes.
pub proof fn lemma_records_push(rs: Seq<CompressedView>, r: CompressedView)
    ensures
        records_bytes(rs.push(r)) == records_bytes(rs) + record_bytes(r),
    decreases rs.len(),
{
    let t = rs.push(r);
    if rs.len() == 0 {
        assert(t.drop_first() =~= Seq::<CompressedView>::empty());
        assert(records_bytes(t.drop_first()) =~= Seq::<u8>::empty());
        assert(record_bytes(r) + Seq::<u8>::empty() =~= Seq::<u8>::empty() + record_bytes(r));
    } else {
        assert(t.drop_first() =~= rs.drop_first().push(r));
        lemma_records_push(rs.drop_first(), r);
        wire::lemma_assoc(record_bytes(rs[0]), records_bytes(rs.drop_first()), record_bytes(r));
    }
}

/// A chunk appended appends its bytes.
pub proof fn lemma_chunks_push(bodies: Seq<Seq<u8>>, body: Seq<u8>)
    ensures
        chunks_bytes(bodies.push(body)) == chunks_bytes(bodies) + chunk_bytes(body),
    decreases bodies.len(),
{
    let t = bodies.push(body);
    if bodies.len() == 0 {
        assert(t.drop_first() =~= Seq::<Seq<u8>>::empty());
        assert(chunks_bytes(t.drop_first()) =~= Seq::<u8>::empty());
        assert(chunk_bytes(body) + Seq::<u8>::empty() =~= Seq::<u8>::empty() + chunk_bytes(body));
    } else {
        assert(t.drop_first() =~= bodies.drop_first().push(body));
        lemma_chunks_push(bodies.drop_first(), body);
        wire::lemma_assoc(
            chunk_bytes(bodies[0]),
            chunks_bytes(bodies.drop_first()),
            chunk_bytes(body),
        );
    }
}

proof fn lemma_chunk_round_trip(body: Seq<u8>, tail: Seq<u8>)
    requires
        body.len() <= u32::MAX,
    ensures
        parse_chunk(chunk_bytes(body) + tail) == Ok::<(Seq<u8>, Seq<u8>), LoadError>((body, tail)),
{
    let n = body.len() as u32;
    let l = wire::le32(n);
    wire::lemma_front32(n, body + tail);
    wire::lemma_assoc(l, body, tail);
    let b = l + (body + tail);
    assert(b.subrange(4, 4 + n) =~= b.skip(4).take(n as int));
    assert((body + tail).take(n as int) =~= body);
    assert(b.skip(4 + n) =~= b.skip(4).skip(n as int));
    assert((body + tail).skip(n as int) =~= tail);
}

proof fn lemma_chunks_round_trip(bodies: Seq<Seq<u8>>, tail: Seq<u8>)
    requires
        forall|i: int| 0 <= i < bodies.len() ==> (#[trigger] bodies[i]).len() <= u32::MAX,
    ensures
        parse_chunks(chunks_bytes(bodies) + tail, bodies.len() as int) == Ok::<
            (Seq<Seq<u8>>, Seq<u8>),
            LoadError,
        >((bodies, tail)),
    decreases bodies.len(),
{
    if bodies.len() == 0 {
        assert(chunks_bytes(bodies) + tail =~= tail);
        assert(bodies =~= Seq::empty());
    } else {
        let rest = bodies.drop_first();
        wire::lemma_assoc(chunk_bytes(bodies[0]), chunks_bytes(rest), tail);
        lemma_chunk_round_trip(bodies[0], chunks_bytes(rest) + tail);
        assert forall|i: int| 0 <= i < rest.len() implies (#[trigger] rest[i]).len()
            <= u32::MAX by {
            assert(rest[i] == bodies[i + 1]);
        }
        lemma_chunks_round_trip(rest, tail);
        assert(seq![bodies[0]] + rest =~= bodies);
    }
}

/// A chunk list that was written reads back.
pub proof fn lemma_chunk_list_round_trip(bodies: Seq<Seq<u8>>, tail: Seq<u8>)
    requires
        bodies.len() <= u32::MAX,
        forall|i: int| 0 <= i < bodies.len() ==> (#[trigger] bodies[i]).len() <= u32::MAX,
    ensures
        parse_chunk_list(
            wire::le32(clamp32(bodies.len() as int)) + chunks_bytes(bodies) + tail,
        ) == Ok::<(Seq<Seq<u8>>, Seq<u8>), LoadError>((bodies, tail)),
{
    let n = bodies.len() as u32;
    wire::lemma_assoc(wire::le32(n), chunks_bytes(bodies), tail);
    wire::lemma_front32(n, chunks_bytes(bodies) + tail);
    lemma_chunks_round_trip(bodies, tail);
}

/// The single chunk of the older form reads back as a list of one chunk.
pub proof fn lemma_single_round_trip(body: Seq<u8>, tail: Seq<u8>)
    requires
        body.len() <= u64::MAX,
    ensures
        parse_single(wire::le64(body.len() as u64) + (body + tail)) == Ok::<
            (Seq<Seq<u8>>, Seq<u8>),
            LoadError,
        >((seq![body], tail)),
{
    let n = body.len() as u64;
    wire::lemma_front64(n, body + tail);
    let b = wire::le64(n) + (body + tail);
    assert(b.subrange(8, 8 + n) =~= b.skip(8).take(n as int));
    assert((body + tail).take(n as int) =~= body);
    assert(b.skip(8 + n) =~= b.skip(8).skip(n as int));
    assert((body + tail).skip(n as int) =~= tail);
}

/// What the parts of a record say, the record says.
proof fn lemma_assembled(
    k: Seq<u8>,
    x: Seq<u8>,
    c: Seq<u8>,
    r: CompressedView,
    magic: u32,
    tail: Seq<u8>,
    entry_index: u64,
)
    requires
        persist::parse_key(k + (x + c), entry_index) == Ok::<ChtKey, LoadError>(r.key),
        persist::parse_index(x + c) == Ok::<Seq<(u16, u32)>, LoadError>(r.index),
        k.len() == 44,
        x.len() == 4 + 6 * r.index.len(),
        c.len() >= 8,
        wire::at64(c, 0) == r.uncompressed_bytes,
        parse_bodies(c.skip(8), magic) == Ok::<(Seq<Seq<u8>>, Seq<u8>), LoadError>(
            (r.bodies, tail),
        ),
    ensures
        parse_record(k + (x + c), magic, entry_index) == Ok::<(CompressedView, Seq<u8>), LoadError>(
            (r, tail),
        ),
{
    let b = k + (x + c);
    assert(b.skip(44) =~= x + c);
    assert(b.skip(48int + 6 * r.index.len()) =~= c);
}

/// The parts of a record with something behind it.
proof fn lemma_parts(k: Seq<u8>, x: Seq<u8>, l: Seq<u8>, body: Seq<u8>, tail: Seq<u8>)
    ensures
        k + x + l + body + tail == k + (x + (l + (body + tail))),
{
    assert(k + x + l + body + tail =~= k + (x + (l + (body + tail))));
}

/// A record that was written reads back, and what stands behind it is left.
pub proof fn lemma_record_round_trip(r: CompressedView, tail: Seq<u8>, entry_index: u64)
    requires
        encodable(r),
    ensures
        parse_record(record_bytes(r) + tail, MAGIC_V4, entry_index) == Ok::<
            (CompressedView, Seq<u8>),
            LoadError,
        >((r, tail)),
{
    let k = persist::key_bytes(r.key);
    let x = persist::index_bytes(r.index);
    let l = wire::le64(r.uncompressed_bytes);
    let list = wire::le32(clamp32(r.bodies.len() as int)) + chunks_bytes(r.bodies);
    let c = l + (list + tail);
    lemma_parts(k, x, l, list, tail);
    persist::lemma_key_round_trip(r.key, x + c, entry_index);
    persist::lemma_index_round_trip(r.index, c);
    wire::lemma_front64(r.uncompressed_bytes, list + tail);
    lemma_chunk_list_round_trip(r.bodies, tail);
    lemma_assembled(k, x, c, r, MAGIC_V4, tail, entry_index);
}

/// A record of the older form, with its single chunk, reads back.
pub proof fn lemma_single_record_round_trip(
    r: CompressedView,
    body: Seq<u8>,
    tail: Seq<u8>,
    entry_index: u64,
)
    requires
        r.index.len() <= u32::MAX,
        r.bodies == seq![body],
        body.len() <= u64::MAX,
    ensures
        parse_record(
            persist::key_bytes(r.key) + (persist::index_bytes(r.index) + (wire::le64(
                r.uncompressed_bytes,
            ) + (wire::le64(body.len() as u64) + (body + tail)))),
            MAGIC_V3,
            entry_index,
        ) == Ok::<(CompressedView, Seq<u8>), LoadError>((r, tail)),
{
    let k = persist::key_bytes(r.key);
    let x = persist::index_bytes(r.index);
    let single = wire::le64(body.len() as u64) + (body + tail);
    let c = wire::le64(r.uncompressed_bytes) + single;
    persist::lemma_key_round_trip(r.key, x + c, entry_index);
    persist::lemma_index_round_trip(r.index, c);
    wire::lemma_front64(r.uncompressed_bytes, single);
    lemma_single_round_trip(body, tail);
    lemma_assembled(k, x, c, r, MAGIC_V3, tail, entry_index);
}

proof fn lemma_records_round_trip(rs: Seq<CompressedView>, tail: Seq<u8>, i: int)
    requires
        forall|j: int| 0 <= j < rs.len() ==> encodable(#[trigger] rs[j]),
        0 <= i,
        i + rs.len() <= u64::MAX,
    ensures
        parse_records(records_bytes(rs) + tail, MAGIC_V4, i, i + rs.len()) == (
            rs,
            Ok::<Seq<u8>, LoadError>(tail),
        ),
    decreases rs.len(),
{
    let b = records_bytes(rs) + tail;
    if rs.len() == 0 {
        assert(b =~= tail);
        assert(rs =~= Seq::empty());
    } else {
        let rest = rs.drop_first();
        wire::lemma_assoc(record_bytes(rs[0]), records_bytes(rest), tail);
        lemma_record_round_trip(rs[0], records_bytes(rest) + tail, i as u64);
        assert forall|j: int| 0 <= j < rest.len() implies encodable(#[trigger] rest[j]) by {
            assert(rest[j] == rs[j + 1]);
        }
        lemma_records_round_trip(rest, tail, i + 1);
        assert(seq![rs[0]] + rest =~= rs);
    }
}

/// A dump that was written reads back as its records, and is sound, whatever stands
/// behind it.
pub proof fn lemma_dump_round_trip(rs: Seq<CompressedView>, tail: Seq<u8>)
    requires
        forall|j: int| 0 <= j < rs.len() ==> encodable(#[trigger] rs[j]),
        rs.len() <= u64::MAX,
    ensures
        parse_dump(dump_bytes(rs) + tail) == (rs, Ok::<(), LoadError>(())),
{
    let n = rs.len() as u64;
    let b = dump_bytes(rs) + tail;
    let end = wire::le32(MAGIC_END) + tail;
    assert(magics().contains(MAGIC_V4)) by {
        assert(magics()[0] == MAGIC_V4);
    }
    persist::lemma_header_round_trip(MAGIC_V4, n, records_bytes(rs) + end, magics());
    assert(b =~= persist::header_bytes(MAGIC_V4, n) + (records_bytes(rs) + end));
    assert(b.skip(24) =~= records_bytes(rs) + end);
    lemma_records_round_trip(rs, end, 0);
    persist::lemma_trailer_round_trip(tail);
}

} // verus!
