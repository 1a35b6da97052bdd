//! Reading dumps and posting lists: what a read takes, and where it stops.

use vstd::prelude::*;

use crate::compressed_record;
use crate::container;
use crate::format_laws;
use crate::persist;
use crate::postings;
use crate::vram_record;
use crate::wire;

use crate::compressed_record::CompressedView;
use crate::container::Contents;
use crate::persist::{LoadError, MAGIC_V2};
use crate::postings::RoaringFormatError;
use crate::vram_record::RecordView;

verus! {

/// Reading a record of the uncompressed tier takes the key, the bucket index behind it and
/// as many body bytes as the eight bytes behind the index say.
pub proof fn lemma_record_read(b: Seq<u8>, entry_index: u64)
    ensures
        match vram_record::parse_record(b, entry_index) {
            Ok((r, rest)) => {
                let at = 48int + 6 * r.index.len();
                let size = format_laws::num8(b, at);
                &&& persist::parse_key(b, entry_index) == Ok::<crate::cht::ChtKey, LoadError>(r.key)
                &&& persist::parse_index(b.skip(44)) == Ok::<Seq<(u16, u32)>, LoadError>(r.index)
                &&& b.len() >= at + 8 + size
                &&& r.body == b.subrange(at + 8, at + 8 + size)
                &&& rest == b.skip(at + 8 + size)
            },
            Err(e) => {
                ||| persist::parse_key(b, entry_index) == Err::<crate::cht::ChtKey, LoadError>(e)
                ||| persist::parse_key(b, entry_index) is Ok && persist::parse_index(b.skip(44))
                    == Err::<Seq<(u16, u32)>, LoadError>(e)
                ||| persist::parse_key(b, entry_index) is Ok && (persist::parse_index(
                    b.skip(44),
                ) matches Ok(index) && {
                    let at = 48int + 6 * index.len();
                    if b.len() < at + 8 {
                        e == (LoadError::TruncatedDump { needed: 8 })
                    } else {
                        b.len() < at + 8 + format_laws::num8(b, at) && e
                            == (LoadError::TruncatedDump {
                            needed: wire::clamp_usize(format_laws::num8(b, at)),
                        })
                    }
                })
            },
        },
{
    reveal(persist::parse_key);
    reveal(persist::parse_index);
    if persist::parse_key(b, entry_index) is Ok {
        match persist::parse_index(b.skip(44)) {
            Ok(index) => {
                let at = 48int + 6 * index.len();
                format_laws::lemma_numbers_read(b.skip(44), 0);
                assert(b.len() >= at);
                let c = b.skip(at);
                format_laws::lemma_numbers_read(c, 0);
                if b.len() >= at + 8 {
                    assert(format_laws::num8(c, 0) == format_laws::num8(b, at));
                    let n = format_laws::num8(b, at);
                    if c.len() >= 8 + n {
                        assert(c.subrange(8, 8 + n) =~= b.subrange(at + 8, at + 8 + n));
                        assert(c.skip(8 + n) =~= b.skip(at + 8 + n));
                    }
                }
            },
            Err(_) => {},
        }
    }
}

/// Reading records one behind the other: `cuts` are what is left in front of each record.
/// Record `k` is read from `cuts[k]` and leaves `cuts[k + 1]`; reading stops at the first
/// record that is refused, with its error, or when all are read.
pub open spec fn records_cuts(
    b: Seq<u8>,
    i: int,
    n: int,
    cuts: Seq<Seq<u8>>,
    rs: Seq<RecordView>,
    out: Result<Seq<u8>, LoadError>,
) -> bool {
    &&& cuts.len() == rs.len() + 1
    &&& cuts[0] == b
    &&& forall|k: int|
        0 <= k < rs.len() ==> vram_record::parse_record(#[trigger] cuts[k], (i + k) as u64)
            == Ok::<(RecordView, Seq<u8>), LoadError>((rs[k], cuts[k + 1]))
    &&& match out {
        Ok(rest) => rs.len() == n - i && rest == cuts[rs.len() as int],
        Err(e) => rs.len() < n - i && vram_record::parse_record(
            cuts[rs.len() as int],
            (i + rs.len()) as u64,
        ) == Err::<(RecordView, Seq<u8>), LoadError>(e),
    }
}

/// The records of a dump are read one behind the other, up to the first that is refused.
pub proof fn lemma_records_read(b: Seq<u8>, i: int, n: int)
    requires
        i <= n,
    ensures
        exists|cuts: Seq<Seq<u8>>| #[trigger]
            records_cuts(
                b,
                i,
                n,
                cuts,
                vram_record::parse_records(b, i, n).0,
                vram_record::parse_records(b, i, n).1,
            ),
    decreases n - i,
{
    let (rs, out) = vram_record::parse_records(b, i, n);
    if i >= n {
        assert(records_cuts(b, i, n, seq![b], rs, out));
    } else {
        match vram_record::parse_record(b, i as u64) {
            Err(e) => {
                assert(records_cuts(b, i, n, seq![b], rs, out));
            },
            Ok((r, rest)) => {
                lemma_records_read(rest, i + 1, n);
                let (more, end) = vram_record::parse_records(rest, i + 1, n);
                let tail = choose|cuts: Seq<Seq<u8>>| #[trigger]
                    records_cuts(rest, i + 1, n, cuts, more, end);
                let cuts = seq![b] + tail;
                assert(rs == seq![r] + more);
                assert forall|k: int| 0 <= k < rs.len() implies vram_record::parse_record(
                    #[trigger] cuts[k],
                    (i + k) as u64,
                ) == Ok::<(RecordView, Seq<u8>), LoadError>((rs[k], cuts[k + 1])) by {
                    if k > 0 {
                        assert(cuts[k] == tail[k - 1]);
                        assert(rs[k] == more[k - 1]);
                        assert(cuts[k + 1] == tail[k]);
                        assert((i + 1) + (k - 1) == i + k);
                    } else {
                        assert(cuts[1] == tail[0]);
                    }
                }
                assert(cuts[rs.len() as int] == tail[more.len() as int]);
                assert((i + 1) + more.len() == i + rs.len());
                assert(records_cuts(b, i, n, cuts, rs, out));
            },
        }
    }
}

/// A dump is read header first; then the records, as many as the header says; then the
/// closing magic number. The records in front of a fault are handed out with it.
pub proof fn lemma_dump_read(b: Seq<u8>)
    ensures
        match persist::parse_header(b, seq![MAGIC_V2]) {
            Err(e) => vram_record::parse_dump(b) == (Seq::<RecordView>::empty(), Err::<(), LoadError>(e)),
            Ok((magic, n)) => exists|cuts: Seq<Seq<u8>>, out: Result<Seq<u8>, LoadError>| #[trigger]
                records_cuts(
                    b.skip(24),
                    0,
                    n as int,
                    cuts,
                    vram_record::parse_dump(b).0,
                    out,
                ) && vram_record::parse_dump(b).1 == (match out {
                    Ok(rest) => persist::parse_trailer(rest),
                    Err(e) => Err(e),
                }),
        },
{
    match persist::parse_header(b, seq![MAGIC_V2]) {
        Err(_) => {},
        Ok((magic, n)) => {
            lemma_records_read(b.skip(24), 0, n as int);
            let (rs, out) = vram_record::parse_records(b.skip(24), 0, n as int);
            let cuts = choose|cuts: Seq<Seq<u8>>| #[trigger]
                records_cuts(b.skip(24), 0, n as int, cuts, rs, out);
            assert(vram_record::parse_dump(b).0 == rs);
        },
    }
}

/// Reading a chunk takes its length and as many bytes.
pub proof fn lemma_chunk_read(b: Seq<u8>)
    ensures
        b.len() < 4 ==> compressed_record::parse_chunk(b) == Err::<(Seq<u8>, Seq<u8>), LoadError>(
            LoadError::TruncatedDump { needed: 4 },
        ),
        4 <= b.len() < 4 + format_laws::num4(b, 0) ==> compressed_record::parse_chunk(b) == Err::<
            (Seq<u8>, Seq<u8>),
            LoadError,
        >(LoadError::TruncatedDump { needed: format_laws::num4(b, 0) as usize }),
        b.len() >= 4 && b.len() >= 4 + format_laws::num4(b, 0) ==> compressed_record::parse_chunk(b)
            == Ok::<(Seq<u8>, Seq<u8>), LoadError>(
            (b.subrange(4, 4 + format_laws::num4(b, 0)), b.skip(4 + format_laws::num4(b, 0))),
        ),
{
    format_laws::lemma_numbers_read(b, 0);
}

/// Reading chunks one behind the other: chunk `k` is read from `cuts[k]` and leaves
/// `cuts[k + 1]`; the first chunk that is refused ends it with its error.
pub open spec fn chunk_cuts(
    b: Seq<u8>,
    n: int,
    cuts: Seq<Seq<u8>>,
    bodies: Seq<Seq<u8>>,
    out: Result<(Seq<Seq<u8>>, Seq<u8>), LoadError>,
) -> bool {
    &&& cuts.len() == bodies.len() + 1
    &&& cuts[0] == b
    &&& forall|k: int|
        0 <= k < bodies.len() ==> compressed_record::parse_chunk(#[trigger] cuts[k]) == Ok::<
            (Seq<u8>, Seq<u8>),
            LoadError,
        >((bodies[k], cuts[k + 1]))
    &&& match out {
        Ok((all, rest)) => bodies.len() == n && all == bodies && rest == cuts[bodies.len() as int],
        Err(e) => bodies.len() < n && compressed_record::parse_chunk(cuts[bodies.len() as int])
            == Err::<(Seq<u8>, Seq<u8>), LoadError>(e),
    }
}

/// The chunks of a record are read one behind the other.
pub proof fn lemma_chunks_read(b: Seq<u8>, n: int)
    requires
        0 <= n,
    ensures
        exists|cuts: Seq<Seq<u8>>, bodies: Seq<Seq<u8>>| #[trigger]
            chunk_cuts(b, n, cuts, bodies, compressed_record::parse_chunks(b, n)),
    decreases n,
{
    let out = compressed_record::parse_chunks(b, n);
    if n <= 0 {
        assert(chunk_cuts(b, n, seq![b], Seq::empty(), out));
    } else {
        match compressed_record::parse_chunk(b) {
            Err(e) => {
                assert(chunk_cuts(b, n, seq![b], Seq::empty(), out));
            },
            Ok((body, rest)) => {
                lemma_chunks_read(rest, n - 1);
                let end = compressed_record::parse_chunks(rest, n - 1);
                let (tail, more) = choose|cuts: Seq<Seq<u8>>, bodies: Seq<Seq<u8>>| #[trigger]
                    chunk_cuts(rest, n - 1, cuts, bodies, end);
                let cuts = seq![b] + tail;
                let bodies = seq![body] + more;
                assert forall|k: int| 0 <= k < bodies.len() implies compressed_record::parse_chunk(
                    #[trigger] cuts[k],
                ) == Ok::<(Seq<u8>, Seq<u8>), LoadError>((bodies[k], cuts[k + 1])) by {
                    if k > 0 {
                        assert(cuts[k] == tail[k - 1]);
                        assert(bodies[k] == more[k - 1]);
                        assert(cuts[k + 1] == tail[k]);
                    } else {
                        assert(cuts[1] == tail[0]);
                    }
                }
                assert(cuts[bodies.len() as int] == tail[more.len() as int]);
                assert(chunk_cuts(b, n, cuts, bodies, out));
            },
        }
    }
}

/// Reading the bodies of a record: in the current format a number of chunks in four bytes
/// and the chunks; in the older one a single body with its length in eight bytes.
pub proof fn lemma_bodies_read(b: Seq<u8>, magic: u32)
    ensures
        magic == 0x3456_4346 && b.len() < 4 || magic != 0x3456_4346 && b.len() < 8 ==> (
        compressed_record::parse_bodies(b, magic) matches Err(LoadError::TruncatedDump { needed })
            && needed == if magic == 0x3456_4346 {
            4int
        } else {
            8
        }),
        magic == 0x3456_4346 && b.len() >= 4 ==> compressed_record::parse_bodies(b, magic)
            == compressed_record::parse_chunks(b.skip(4), format_laws::num4(b, 0)),
        magic != 0x3456_4346 && b.len() >= 8 ==> ({
            let n = format_laws::num8(b, 0);
            compressed_record::parse_bodies(b, magic) == if b.len() < 8 + n {
                Err::<(Seq<Seq<u8>>, Seq<u8>), LoadError>(
                    LoadError::TruncatedDump { needed: wire::clamp_usize(n) },
                )
            } else {
                Ok((seq![b.subrange(8, 8 + n)], b.skip(8 + n)))
            }
        }),
{
    format_laws::lemma_numbers_read(b, 0);
}

/// Reading a record of the compressed tier takes the key, the bucket index behind it, the
/// uncompressed bytes in the eight bytes behind the index, and the bodies behind those.
pub proof fn lemma_compressed_record_read(b: Seq<u8>, magic: u32, entry_index: u64)
    ensures
        match compressed_record::parse_record(b, magic, entry_index) {
            Ok((r, rest)) => {
                let at = 48int + 6 * r.index.len();
                &&& persist::parse_key(b, entry_index) == Ok::<crate::cht::ChtKey, LoadError>(r.key)
                &&& persist::parse_index(b.skip(44)) == Ok::<Seq<(u16, u32)>, LoadError>(r.index)
                &&& b.len() >= at + 8
                &&& r.uncompressed_bytes == format_laws::num8(b, at)
                &&& compressed_record::parse_bodies(b.skip(at + 8), magic) == Ok::<
                    (Seq<Seq<u8>>, Seq<u8>),
                    LoadError,
                >((r.bodies, rest))
            },
            Err(e) => {
                ||| persist::parse_key(b, entry_index) == Err::<crate::cht::ChtKey, LoadError>(e)
                ||| persist::parse_key(b, entry_index) is Ok && persist::parse_index(b.skip(44))
                    == Err::<Seq<(u16, u32)>, LoadError>(e)
                ||| persist::parse_key(b, entry_index) is Ok && (persist::parse_index(
                    b.skip(44),
                ) matches Ok(index) && {
                    let at = 48int + 6 * index.len();
                    if b.len() < at + 8 {
                        e == (LoadError::TruncatedDump { needed: 8 })
                    } else {
                        compressed_record::parse_bodies(b.skip(at + 8), magic) == Err::<
                            (Seq<Seq<u8>>, Seq<u8>),
                            LoadError,
                        >(e)
                    }
                })
            },
        },
{
    reveal(persist::parse_key);
    reveal(persist::parse_index);
    if persist::parse_key(b, entry_index) is Ok {
        match persist::parse_index(b.skip(44)) {
            Ok(index) => {
                let at = 48int + 6 * index.len();
                format_laws::lemma_numbers_read(b.skip(44), 0);
                assert(b.len() >= at);
                let c = b.skip(at);
                format_laws::lemma_numbers_read(c, 0);
                if b.len() >= at + 8 {
                    assert(format_laws::num8(c, 0) == format_laws::num8(b, at));
                    assert(c.skip(8) =~= b.skip(at + 8));
                }
            },
            Err(_) => {},
        }
    }
}

/// Reading records one behind the other: `cuts` are what is left in front of each record.
/// Record `k` is read from `cuts[k]` and leaves `cuts[k + 1]`; reading stops at the first
/// record that is refused, with its error, or when all are read.
pub open spec fn compressed_records_cuts(
    b: Seq<u8>, magic: u32,
    i: int,
    n: int,
    cuts: Seq<Seq<u8>>,
    rs: Seq<CompressedView>,
    out: Result<Seq<u8>, LoadError>,
) -> bool {
    &&& cuts.len() == rs.len() + 1
    &&& cuts[0] == b
    &&& forall|k: int|
        0 <= k < rs.len() ==> compressed_record::parse_record(#[trigger] cuts[k], magic, (i + k) as u64)
            == Ok::<(CompressedView, Seq<u8>), LoadError>((rs[k], cuts[k + 1]))
    &&& match out {
        Ok(rest) => rs.len() == n - i && rest == cuts[rs.len() as int],
        Err(e) => rs.len() < n - i && compressed_record::parse_record(
            cuts[rs.len() as int], magic,
            (i + rs.len()) as u64,
        ) == Err::<(CompressedView, Seq<u8>), LoadError>(e),
    }
}

/// The records of a dump are read one behind the other, up to the first that is refused.
pub proof fn lemma_compressed_records_read(b: Seq<u8>, magic: u32, i: int, n: int)
    requires
        i <= n,
    ensures
        exists|cuts: Seq<Seq<u8>>| #[trigger]
            compressed_records_cuts(
                b, magic,
                i,
                n,
                cuts,
                compressed_record::parse_records(b, magic, i, n).0,
                compressed_record::parse_records(b, magic, i, n).1,
            ),
    decreases n - i,
{
    let (rs, out) = compressed_record::parse_records(b, magic, i, n);
    if i >= n {
        assert(compressed_records_cuts(b, magic, i, n, seq![b], rs, out));
    } else {
        match compressed_record::parse_record(b, magic, i as u64) {
            Err(e) => {
                assert(compressed_records_cuts(b, magic, i, n, seq![b], rs, out));
            },
            Ok((r, rest)) => {
                lemma_compressed_records_read(rest, magic, i + 1, n);
                let (more, end) = compressed_record::parse_records(rest, magic, i + 1, n);
                let tail = choose|cuts: Seq<Seq<u8>>| #[trigger]
                    compressed_records_cuts(rest, magic, i + 1, n, cuts, more, end);
                let cuts = seq![b] + tail;
                assert(rs == seq![r] + more);
                assert forall|k: int| 0 <= k < rs.len() implies compressed_record::parse_record(
                    #[trigger] cuts[k], magic,
                    (i + k) as u64,
                ) == Ok::<(CompressedView, Seq<u8>), LoadError>((rs[k], cuts[k + 1])) by {
                    if k > 0 {
                        assert(cuts[k] == tail[k - 1]);
                        assert(rs[k] == more[k - 1]);
                        assert(cuts[k + 1] == tail[k]);
                        assert((i + 1) + (k - 1) == i + k);
                    } else {
                        assert(cuts[1] == tail[0]);
                    }
                }
                assert(cuts[rs.len() as int] == tail[more.len() as int]);
                assert((i + 1) + more.len() == i + rs.len());
                assert(compressed_records_cuts(b, magic, i, n, cuts, rs, out));
            },
        }
    }
}

/// A dump is read header first; then the records, as many as the header says; then the
/// closing magic number. The records in front of a fault are handed out with it.
pub proof fn lemma_compressed_dump_read(b: Seq<u8>)
    ensures
        match persist::parse_header(b, compressed_record::magics()) {
            Err(e) => compressed_record::parse_dump(b) == (Seq::<CompressedView>::empty(), Err::<(), LoadError>(e)),
            Ok((magic, n)) => exists|cuts: Seq<Seq<u8>>, out: Result<Seq<u8>, LoadError>| #[trigger]
                compressed_records_cuts(
                    b.skip(24), magic,
                    0,
                    n as int,
                    cuts,
                    compressed_record::parse_dump(b).0,
                    out,
                ) && compressed_record::parse_dump(b).1 == (match out {
                    Ok(rest) => persist::parse_trailer(rest),
                    Err(e) => Err(e),
                }),
        },
{
    match persist::parse_header(b, compressed_record::magics()) {
        Err(_) => {},
        Ok((magic, n)) => {
            lemma_compressed_records_read(b.skip(24), magic, 0, n as int);
            let (rs, out) = compressed_record::parse_records(b.skip(24), magic, 0, n as int);
            let cuts = choose|cuts: Seq<Seq<u8>>| #[trigger]
                compressed_records_cuts(b.skip(24), magic, 0, n as int, cuts, rs, out);
            assert(compressed_record::parse_dump(b).0 == rs);
        },
    }
}

/// Why the bucket at `off`, behind a bucket with key `prev`, is refused, if it is; otherwise
/// its key, its container and where it ends.
pub open spec fn bucket_at(b: Seq<u8>, off: int, prev: Option<u16>) -> Result<
    (u16, Contents, int),
    RoaringFormatError,
> {
    let high = format_laws::num2(b, off);
    let end = off + 6 + format_laws::num4(b, off + 2);
    if b.len() < off + 6 {
        Err(
            RoaringFormatError::Truncated {
                needed: wire::clamp_usize(off + 6),
                got: b.len() as usize,
            },
        )
    } else if prev is Some && high <= prev->0 {
        Err(RoaringFormatError::UnsortedContainers)
    } else if b.len() < end {
        Err(
            RoaringFormatError::Truncated {
                needed: wire::clamp_usize(end),
                got: b.len() as usize,
            },
        )
    } else {
        match container::parse_container(b.subrange(off + 6, end)) {
            Err(err) => Err(RoaringFormatError::ContainerError { high16: high as u16, err }),
            Ok((c, used)) => if off + 6 + used == end {
                Ok((high as u16, c, end))
            } else {
                Err(
                    RoaringFormatError::Truncated {
                        needed: end as usize,
                        got: (off + 6 + used) as usize,
                    },
                )
            },
        }
    }
}

/// Reading buckets one behind the other: bucket `k` stands at `offs[k]`, behind the one with
/// the key before it, and ends at `offs[k + 1]`; the first that is refused ends it.
pub open spec fn bucket_cuts(
    b: Seq<u8>,
    off: int,
    n: int,
    prev: Option<u16>,
    offs: Seq<int>,
    es: Seq<(u16, Contents)>,
    out: Result<Seq<(u16, Contents)>, RoaringFormatError>,
) -> bool {
    &&& offs.len() == es.len() + 1
    &&& offs[0] == off
    &&& forall|k: int|
        0 <= k < es.len() ==> bucket_at(
            b,
            #[trigger] offs[k],
            if k == 0 {
                prev
            } else {
                Some(es[k - 1].0)
            },
        ) == Ok::<(u16, Contents, int), RoaringFormatError>((es[k].0, es[k].1, offs[k + 1]))
    &&& match out {
        Ok(all) => all == es && es.len() == n,
        Err(e) => es.len() < n && bucket_at(
            b,
            offs[es.len() as int],
            if es.len() == 0 {
                prev
            } else {
                Some(es[es.len() - 1].0)
            },
        ) == Err::<(u16, Contents, int), RoaringFormatError>(e),
    }
}

proof fn lemma_buckets_read(b: Seq<u8>, off: int, n: nat, prev: Option<u16>)
    requires
        0 <= off,
    ensures
        exists|offs: Seq<int>, es: Seq<(u16, Contents)>| #[trigger]
            bucket_cuts(
                b,
                off,
                n as int,
                prev,
                offs,
                es,
                postings::parse_entries(b, off, n, prev),
            ),
    decreases n,
{
    let out = postings::parse_entries(b, off, n, prev);
    let none = Seq::<(u16, Contents)>::empty();
    format_laws::lemma_numbers_read(b, off);
    format_laws::lemma_numbers_read(b, off + 2);
    if n == 0 {
        assert(bucket_cuts(b, off, n as int, prev, seq![off], none, out));
    } else {
        match bucket_at(b, off, prev) {
            Err(e) => {
                assert(bucket_cuts(b, off, n as int, prev, seq![off], none, out));
            },
            Ok((high, c, end)) => {
                lemma_buckets_read(b, end, (n - 1) as nat, Some(high));
                let rest = postings::parse_entries(b, end, (n - 1) as nat, Some(high));
                let (tail, more) = choose|offs: Seq<int>, es: Seq<(u16, Contents)>| #[trigger]
                    bucket_cuts(b, end, n - 1, Some(high), offs, es, rest);
                let offs = seq![off] + tail;
                let es = seq![(high, c)] + more;
                assert forall|k: int| 0 <= k < es.len() implies bucket_at(
                    b,
                    #[trigger] offs[k],
                    if k == 0 {
                        prev
                    } else {
                        Some(es[k - 1].0)
                    },
                ) == Ok::<(u16, Contents, int), RoaringFormatError>(
                    (es[k].0, es[k].1, offs[k + 1]),
                ) by {
                    if k > 0 {
                        assert(offs[k] == tail[k - 1]);
                        assert(es[k] == more[k - 1]);
                        assert(offs[k + 1] == tail[k]);
                        if k > 1 {
                            assert(es[k - 1] == more[k - 2]);
                        }
                    } else {
                        assert(offs[1] == tail[0]);
                    }
                }
                assert(offs[es.len() as int] == tail[more.len() as int]);
                if more.len() > 0 {
                    assert(es[es.len() - 1] == more[more.len() - 1]);
                }
                assert(bucket_cuts(b, off, n as int, prev, offs, es, out));
            },
        }
    }
}

/// Reading a posting list: nine bytes of header, the magic number `ROAR`, the version 1 and
/// the number of buckets, each refused in this order; then the buckets one behind the other
/// from the ninth byte on, with ascending keys.
pub proof fn lemma_postings_read(b: Seq<u8>)
    ensures
        b.len() < 9 ==> postings::parse_postings(b) == Err::<
            Seq<(u16, Contents)>,
            RoaringFormatError,
        >(RoaringFormatError::Truncated { needed: 9, got: b.len() as usize }),
        b.len() >= 9 && b.take(4) != seq![0x52u8, 0x4Fu8, 0x41u8, 0x52u8]
            ==> postings::parse_postings(b) == Err::<Seq<(u16, Contents)>, RoaringFormatError>(
            RoaringFormatError::BadMagic([b[0], b[1], b[2], b[3]]),
        ),
        b.len() >= 9 && b.take(4) == seq![0x52u8, 0x4Fu8, 0x41u8, 0x52u8] && b[4] != 1
            ==> postings::parse_postings(b) == Err::<Seq<(u16, Contents)>, RoaringFormatError>(
            RoaringFormatError::UnsupportedVersion(b[4]),
        ),
        b.len() >= 9 && b.take(4) == seq![0x52u8, 0x4Fu8, 0x41u8, 0x52u8] && b[4] == 1 ==> exists|
            offs: Seq<int>,
            es: Seq<(u16, Contents)>,
        | #[trigger]
            bucket_cuts(
                b,
                9,
                format_laws::num4(b, 5),
                None,
                offs,
                es,
                postings::parse_postings(b),
            ),
{
    format_laws::lemma_numbers_read(b, 5);
    assert(crate::postings::MAGIC@ =~= seq![0x52u8, 0x4Fu8, 0x41u8, 0x52u8]);
    assert(b.len() >= 4 ==> b.subrange(0, 4) =~= b.take(4));
    if b.len() >= 9 {
        lemma_buckets_read(b, 9, format_laws::num4(b, 5) as nat, None);
    }
}

} // verus!
