//! The dump and posting-list formats, field by field.

use vstd::arithmetic::power::pow;
use vstd::prelude::*;

use crate::compressed_record;
use crate::container;
use crate::format_laws;
use crate::persist;
use crate::postings;
use crate::segment_id;
use crate::vram_record;
use crate::wire;

use crate::cht::ChtKey;
use crate::compressed_record::CompressedView;
use crate::container::Contents;
use crate::persist::LoadError;
use crate::vram_record::RecordView;

verus! {

/// A dump header has 24 bytes: the magic number, the version 1, the hash function 0, the
/// number of entries in eight bytes, and four bytes of zero.
pub proof fn lemma_header_layout(magic: u32, entry_count: u64)
    ensures
        ({
            let b = persist::header_bytes(magic, entry_count);
            &&& b.len() == 24
            &&& format_laws::num4(b, 0) == magic
            &&& format_laws::num4(b, 4) == 1
            &&& format_laws::num4(b, 8) == 0
            &&& format_laws::num8(b, 12) == entry_count
            &&& format_laws::num4(b, 20) == 0
        }),
{
    reveal(persist::header_bytes);
    let a = wire::le32(magic);
    let v = wire::le32(1);
    let h = wire::le32(0);
    let n = wire::le64(entry_count);
    let z = wire::le32(0);
    format_laws::lemma_numbers_written(0, magic, entry_count);
    format_laws::lemma_written4(1);
    format_laws::lemma_written4(0);
    let b = persist::header_bytes(magic, entry_count);
    assert(b == a + v + h + n + z);
    format_laws::lemma_ahead(a, v, 0);
    format_laws::lemma_ahead(a + v, h, 0);
    format_laws::lemma_ahead(a + v + h, n, 0);
    format_laws::lemma_ahead(a + v + h + n, z, 0);
    format_laws::lemma_behind(a, v, 0);
    format_laws::lemma_ahead(a + v, h, 4);
    format_laws::lemma_ahead(a + v + h, n, 4);
    format_laws::lemma_ahead(a + v + h + n, z, 4);
    format_laws::lemma_behind(a + v, h, 0);
    format_laws::lemma_ahead(a + v + h, n, 8);
    format_laws::lemma_ahead(a + v + h + n, z, 8);
    format_laws::lemma_behind(a + v + h, n, 0);
    format_laws::lemma_ahead(a + v + h + n, z, 12);
    format_laws::lemma_behind(a + v + h + n, z, 0);
}

/// Reading a dump header checks the magic number, the version and the hash function in this
/// order, each as soon as its bytes are there, and gives the magic number and the number of
/// entries.
pub proof fn lemma_header_read(b: Seq<u8>, magics: Seq<u32>)
    ensures
        match persist::parse_header(b, magics) {
            Ok((magic, n)) => {
                &&& b.len() >= 24
                &&& magics.contains(magic)
                &&& magic == format_laws::num4(b, 0)
                &&& format_laws::num4(b, 4) == 1
                &&& format_laws::num4(b, 8) == 0
                &&& n == format_laws::num8(b, 12)
                &&& persist::header_used(b, magics) == 24
            },
            Err(LoadError::WrongMagic { expected, got }) => {
                &&& b.len() >= 4
                &&& got == format_laws::num4(b, 0)
                &&& !magics.contains(got)
                &&& magics.len() > 0 ==> expected == magics[0]
                &&& persist::header_used(b, magics) == 4
            },
            Err(LoadError::VersionMismatch { expected, got }) => {
                &&& b.len() >= 8
                &&& magics.contains(format_laws::num4(b, 0) as u32)
                &&& expected == 1
                &&& got == format_laws::num4(b, 4)
                &&& got != 1
                &&& persist::header_used(b, magics) == 8
            },
            Err(LoadError::HashFunctionMismatch { expected, got }) => {
                &&& b.len() >= 12
                &&& magics.contains(format_laws::num4(b, 0) as u32)
                &&& format_laws::num4(b, 4) == 1
                &&& expected == 0
                &&& got == format_laws::num4(b, 8)
                &&& got != 0
                &&& persist::header_used(b, magics) == 12
            },
            Err(LoadError::TruncatedDump { needed }) => {
                &&& b.len() < 24
                &&& needed == if 12 <= b.len() < 20 {
                    8int
                } else {
                    4
                }
                &&& b.len() >= 4 ==> magics.contains(format_laws::num4(b, 0) as u32)
                &&& b.len() >= 8 ==> format_laws::num4(b, 4) == 1
                &&& b.len() >= 12 ==> format_laws::num4(b, 8) == 0
            },
            Err(_) => false,
        },
{
    reveal(persist::parse_header);
    reveal(persist::header_used);
    format_laws::lemma_numbers_read(b, 0);
    format_laws::lemma_numbers_read(b, 4);
    format_laws::lemma_numbers_read(b, 8);
    format_laws::lemma_numbers_read(b, 12);
}

/// A dump ends with four bytes that read `0x56444E45`; anything else is refused.
pub proof fn lemma_trailer_read(b: Seq<u8>)
    ensures
        persist::parse_trailer(b) is Ok <==> b.len() >= 4 && format_laws::num4(b, 0)
            == 0x5644_4E45,
        b.len() < 4 ==> persist::parse_trailer(b) == Err::<(), LoadError>(
            LoadError::TruncatedDump { needed: 4 },
        ),
        b.len() >= 4 && format_laws::num4(b, 0) != 0x5644_4E45 ==> persist::parse_trailer(b)
            == Err::<(), LoadError>(
            LoadError::BadEndMagic {
                expected: 0x5644_4E45,
                got: format_laws::num4(b, 0) as u32,
            },
        ),
{
    format_laws::lemma_numbers_read(b, 0);
}

/// The hexadecimal digits of a number, most significant first, in lower case.
pub proof fn lemma_hex_digit_at(v: int, n: nat, i: int)
    requires
        v >= 0,
        0 <= i < n,
    ensures
        segment_id::hex_digits(v, n).len() == n,
        ({
            let d = (v / pow(16, (n - 1 - i) as nat)) % 16;
            segment_id::hex_digits(v, n)[i] == if d < 10 {
                48 + d
            } else {
                97 + (d - 10)
            }
        }),
    decreases n,
{
    vstd::arithmetic::power::lemma_pow0(16);
    lemma_hex_len(v, n);
    lemma_hex_len(v / 16, (n - 1) as nat);
    if i < n - 1 {
        lemma_hex_digit_at(v / 16, (n - 1) as nat, i);
        let e = (n - 2 - i) as nat;
        reveal(pow);
        assert(pow(16, (n - 1 - i) as nat) == 16 * pow(16, e));
        vstd::arithmetic::power::lemma_pow_positive(16, e);
        vstd::arithmetic::div_mod::lemma_div_denominator(v, 16, pow(16, e));
        assert(v / (16 * pow(16, e)) == (v / 16) / pow(16, e));
        assert(segment_id::hex_digits(v, n)[i] == segment_id::hex_digits(
            v / 16,
            (n - 1) as nat,
        )[i]);
    } else {
        assert(v / 1 == v);
    }
}

proof fn lemma_hex_len(v: int, n: nat)
    ensures
        segment_id::hex_digits(v, n).len() == n,
    decreases n,
{
    if n > 0 {
        lemma_hex_len(v / 16, (n - 1) as nat);
    }
}

/// Which bytes are hexadecimal digits, and what they stand for, in either case.
pub proof fn lemma_hex_digits_read(c: u8)
    ensures
        segment_id::digit_value(c) is Some <==> 48 <= c <= 57 || 65 <= c <= 70 || 97 <= c <= 102,
        48 <= c <= 57 ==> segment_id::digit_value(c) == Some(c as int - 48),
        65 <= c <= 70 ==> segment_id::digit_value(c) == Some(c as int - 55),
        97 <= c <= 102 ==> segment_id::digit_value(c) == Some(c as int - 87),
{
}

/// The number that digits stand for: each digit is worth sixteen times the one behind it.
pub proof fn lemma_hex_value_is_sum(s: Seq<u8>)
    ensures
        segment_id::hex_value(s) == s.fold_left(
            0int,
            |sum: int, c: u8| 16 * sum + segment_id::digit_value(c)->0,
        ),
    decreases s.len(),
{
    if s.len() > 0 {
        lemma_hex_value_is_sum(s.drop_last());
    }
}

/// A key has 44 bytes: the 32 hexadecimal digits of its segment, its field in four and its
/// term hash in eight.
pub proof fn lemma_key_layout(k: ChtKey)
    ensures
        ({
            let b = persist::key_bytes(k);
            &&& b.len() == 44
            &&& b.take(32) == segment_id::hex_digits(k.segment_id.value as int, 32)
            &&& format_laws::num4(b, 32) == k.field
            &&& format_laws::num8(b, 36) == k.term_hash
        }),
{
    reveal(persist::key_bytes);
    let h = k.segment_id.hex();
    let f = wire::le32(k.field);
    let t = wire::le64(k.term_hash);
    lemma_hex_len(k.segment_id.value as int, 32);
    format_laws::lemma_numbers_written(0, k.field, k.term_hash);
    let b = persist::key_bytes(k);
    assert(b == h + f + t);
    assert(b.take(32) =~= h);
    format_laws::lemma_behind(h, f, 0);
    format_laws::lemma_ahead(h + f, t, 32);
    format_laws::lemma_behind(h + f, t, 0);
}

/// Reading a key: the 32 digits come first and are checked as soon as they are there.
pub proof fn lemma_key_read(b: Seq<u8>, entry_index: u64)
    ensures
        b.len() < 32 ==> persist::parse_key(b, entry_index) == Err::<ChtKey, LoadError>(
            LoadError::TruncatedDump { needed: 32 },
        ) && persist::key_used(b) == 0,
        b.len() >= 32 && (exists|i: int|
            0 <= i < 32 && segment_id::digit_value(#[trigger] b[i]) is None) ==> (
        persist::parse_key(b, entry_index) matches Err(
            LoadError::InvalidSegmentId { entry_index: at, detail },
        ) && at == entry_index && detail == (if vstd::utf8::valid_utf8(b.take(32)) {
            "malformed uuid hex"
        } else {
            "non-utf8 segment_id hex"
        })) && persist::key_used(b) == 32,
        b.len() >= 32 && (forall|i: int|
            0 <= i < 32 ==> segment_id::digit_value(#[trigger] b[i]) is Some) ==> {
            &&& b.len() < 36 ==> persist::parse_key(b, entry_index) == Err::<ChtKey, LoadError>(
                LoadError::TruncatedDump { needed: 4 },
            ) && persist::key_used(b) == 32
            &&& 36 <= b.len() < 44 ==> persist::parse_key(b, entry_index) == Err::<
                ChtKey,
                LoadError,
            >(LoadError::TruncatedDump { needed: 8 }) && persist::key_used(b) == 36
            &&& b.len() >= 44 ==> {
                &&& persist::parse_key(b, entry_index) matches Ok(k)
                &&& k.segment_id.value == segment_id::hex_value(b.take(32)) as u128
                &&& k.field == format_laws::num4(b, 32)
                &&& k.term_hash == format_laws::num8(b, 36)
                &&& persist::key_used(b) == 44
            }
        },
{
    reveal(persist::parse_key);
    reveal(persist::key_used);
    format_laws::lemma_numbers_read(b, 32);
    format_laws::lemma_numbers_read(b, 36);
    if b.len() >= 32 {
        let d = b.take(32);
        if exists|i: int| 0 <= i < 32 && segment_id::digit_value(#[trigger] b[i]) is None {
            let i = choose|i: int| 0 <= i < 32 && segment_id::digit_value(#[trigger] b[i]) is None;
            assert(d[i] == b[i]);
            assert(!segment_id::all_hex(d));
        } else {
            assert forall|i: int| 0 <= i < d.len() implies segment_id::digit_value(
                #[trigger] d[i],
            ) is Some by {
                assert(d[i] == b[i]);
            }
        }
    }
}

/// A bucket index has its number of pairs in four bytes, then for each bucket its key in
/// two and its word offset in four.
pub proof fn lemma_index_layout(index: Seq<(u16, u32)>)
    requires
        index.len() <= u32::MAX,
    ensures
        ({
            let b = persist::index_bytes(index);
            &&& b.len() == 4 + 6 * index.len()
            &&& format_laws::num4(b, 0) == index.len()
            &&& forall|i: int|
                0 <= i < index.len() ==> format_laws::num2(b, 4 + 6 * i) == (
                #[trigger] index[i]).0 && format_laws::num4(b, 6 + 6 * i) == index[i].1
        }),
{
    reveal(persist::index_bytes);
    let n = wire::le32(index.len() as u32);
    let p = persist::pairs_bytes(index);
    format_laws::lemma_written4(index.len() as u32);
    lemma_pairs_layout(index);
    let b = persist::index_bytes(index);
    assert(b == n + p);
    format_laws::lemma_ahead(n, p, 0);
    assert forall|i: int| 0 <= i < index.len() implies format_laws::num2(b, 4 + 6 * i) == (
    #[trigger] index[i]).0 && format_laws::num4(b, 6 + 6 * i) == index[i].1 by {
        format_laws::lemma_behind(n, p, 6 * i);
        format_laws::lemma_behind(n, p, 6 * i + 2);
    }
}

proof fn lemma_pairs_layout(index: Seq<(u16, u32)>)
    ensures
        ({
            let p = persist::pairs_bytes(index);
            &&& p.len() == 6 * index.len()
            &&& forall|i: int|
                0 <= i < index.len() ==> format_laws::num2(p, 6 * i) == (#[trigger] index[i]).0
                    && format_laws::num4(p, 6 * i + 2) == index[i].1
        }),
    decreases index.len(),
{
    if index.len() > 0 {
        let front = index.drop_last();
        lemma_pairs_layout(front);
        let q = persist::pairs_bytes(front);
        let k = wire::le16(index.last().0);
        let o = wire::le32(index.last().1);
        format_laws::lemma_numbers_written(index.last().0, index.last().1, 0);
        let p = persist::pairs_bytes(index);
        assert(p == q + k + o);
        assert forall|i: int| 0 <= i < index.len() implies format_laws::num2(p, 6 * i) == (
        #[trigger] index[i]).0 && format_laws::num4(p, 6 * i + 2) == index[i].1 by {
            if i < front.len() {
                assert(front[i] == index[i]);
                format_laws::lemma_ahead(q, k, 6 * i);
                format_laws::lemma_ahead(q, k, 6 * i + 2);
                format_laws::lemma_ahead(q + k, o, 6 * i);
                format_laws::lemma_ahead(q + k, o, 6 * i + 2);
            } else {
                format_laws::lemma_behind(q, k, 0);
                format_laws::lemma_ahead(q + k, o, 6 * i);
                format_laws::lemma_behind(q + k, o, 0);
            }
        }
    }
}

/// Reading a bucket index takes the number of pairs and the pairs, and is refused where a
/// field is cut short.
pub proof fn lemma_index_read(b: Seq<u8>)
    ensures
        b.len() < 4 ==> persist::parse_index(b) == Err::<Seq<(u16, u32)>, LoadError>(
            LoadError::TruncatedDump { needed: 4 },
        ),
        b.len() >= 4 && b.len() >= 4 + 6 * format_laws::num4(b, 0) ==> {
            &&& persist::parse_index(b) matches Ok(index)
            &&& index.len() == format_laws::num4(b, 0)
            &&& forall|i: int|
                0 <= i < index.len() ==> (#[trigger] index[i]).0 == format_laws::num2(b, 4 + 6 * i)
                    && index[i].1 == format_laws::num4(b, 6 + 6 * i)
        },
        4 <= b.len() < 4 + 6 * format_laws::num4(b, 0) ==> persist::parse_index(b) == Err::<
            Seq<(u16, u32)>,
            LoadError,
        >(
            LoadError::TruncatedDump {
                needed: if (b.len() - 4) % 6 < 2 {
                    2
                } else {
                    4
                },
            },
        ),
{
    reveal(persist::parse_index);
    format_laws::lemma_numbers_read(b, 0);
    if b.len() >= 4 && b.len() >= 4 + 6 * format_laws::num4(b, 0) {
        let index = persist::pairs_at(b, wire::at32(b, 0) as int);
        assert forall|i: int| 0 <= i < index.len() implies (#[trigger] index[i]).0
            == format_laws::num2(b, 4 + 6 * i) && index[i].1 == format_laws::num4(b, 6 + 6 * i) by {
            format_laws::lemma_numbers_read(b, 4 + 6 * i);
            format_laws::lemma_numbers_read(b, 6 + 6 * i);
        }
    }
}

/// A record of the uncompressed tier is the key, the bucket index, the number of body bytes
/// in eight and the body; the words of a body are its bytes by fours.
pub proof fn lemma_record_layout(r: RecordView)
    requires
        r.index.len() <= u32::MAX,
        r.body.len() <= u64::MAX,
    ensures
        ({
            let b = vram_record::record_bytes(r);
            let n = 48int + 6 * r.index.len();
            &&& b.len() == n + 8 + r.body.len()
            &&& b.take(44) == persist::key_bytes(r.key)
            &&& b.subrange(44, n) == persist::index_bytes(r.index)
            &&& format_laws::num8(b, n) == r.body.len()
            &&& b.skip(n + 8) == r.body
        }),
        vram_record::body_words(r.body).len() == r.body.len() / 4,
        forall|i: int|
            0 <= i < r.body.len() as int / 4 ==> #[trigger] vram_record::body_words(r.body)[i]
                == format_laws::num4(r.body, 4 * i),
{
    let k = persist::key_bytes(r.key);
    let x = persist::index_bytes(r.index);
    let l = wire::le64(r.body.len() as u64);
    lemma_key_layout(r.key);
    lemma_index_layout(r.index);
    format_laws::lemma_numbers_written(0, 0, r.body.len() as u64);
    let b = vram_record::record_bytes(r);
    assert(b == k + x + l + r.body);
    assert(b.take(44) =~= k);
    assert(b.subrange(44, 48int + 6 * r.index.len()) =~= x);
    format_laws::lemma_behind(k + x, l, 0);
    format_laws::lemma_ahead(k + x + l, r.body, (k + x).len() as int);
    assert(b.skip(56int + 6 * r.index.len()) =~= r.body);
    assert forall|i: int| 0 <= i < r.body.len() as int / 4 implies #[trigger] vram_record::body_words(
        r.body,
    )[i] == format_laws::num4(r.body, 4 * i) by {
        format_laws::lemma_read4(r.body, 4 * i);
    }
}

/// A dump of the uncompressed tier is a header with the magic number `0x32564346` and the
/// number of records, the records in order, and the closing magic number.
pub proof fn lemma_dump_layout(rs: Seq<RecordView>)
    ensures
        vram_record::dump_bytes(rs) == persist::header_bytes(0x3256_4346, rs.len() as u64)
            + rs.map_values(|r: RecordView| vram_record::record_bytes(r)).flatten() + wire::le32(
            0x5644_4E45,
        ),
{
    lemma_records_joined(rs);
}

proof fn lemma_records_joined(rs: Seq<RecordView>)
    ensures
        vram_record::records_bytes(rs) == rs.map_values(
            |r: RecordView| vram_record::record_bytes(r),
        ).flatten(),
    decreases rs.len(),
{
    let m = rs.map_values(|r: RecordView| vram_record::record_bytes(r));
    if rs.len() > 0 {
        lemma_records_joined(rs.drop_first());
        assert(m.drop_first() =~= rs.drop_first().map_values(
            |r: RecordView| vram_record::record_bytes(r),
        ));
        assert(m.first() == vram_record::record_bytes(rs[0]));
    } else {
        assert(m.flatten() =~= Seq::<u8>::empty());
    }
}

/// A record of the compressed tier is the key, the bucket index, the uncompressed bytes in
/// eight, the number of chunks in four, and for each chunk its length in four and its body.
pub proof fn lemma_compressed_record_layout(r: CompressedView)
    requires
        compressed_record::encodable(r),
    ensures
        ({
            let b = compressed_record::record_bytes(r);
            let n = 48int + 6 * r.index.len();
            &&& b.len() >= n + 12
            &&& b.take(44) == persist::key_bytes(r.key)
            &&& b.subrange(44, n) == persist::index_bytes(r.index)
            &&& format_laws::num8(b, n) == r.uncompressed_bytes
            &&& format_laws::num4(b, n + 8) == r.bodies.len()
            &&& b.skip(n + 12) == r.bodies.map_values(
                |body: Seq<u8>| compressed_record::chunk_bytes(body),
            ).flatten()
        }),
        forall|i: int|
            0 <= i < r.bodies.len() ==> {
                &&& format_laws::num4(
                    compressed_record::chunk_bytes(#[trigger] r.bodies[i]),
                    0,
                ) == r.bodies[i].len()
                &&& compressed_record::chunk_bytes(r.bodies[i]).len() == 4 + r.bodies[i].len()
                &&& compressed_record::chunk_bytes(r.bodies[i]).skip(4) == r.bodies[i]
            },
{
    let k = persist::key_bytes(r.key);
    let x = persist::index_bytes(r.index);
    let u = wire::le64(r.uncompressed_bytes);
    let c = wire::le32(compressed_record::clamp32(r.bodies.len() as int));
    let t = compressed_record::chunks_bytes(r.bodies);
    lemma_key_layout(r.key);
    lemma_index_layout(r.index);
    format_laws::lemma_numbers_written(0, r.bodies.len() as u32, r.uncompressed_bytes);
    let b = compressed_record::record_bytes(r);
    assert(b == k + x + u + (c + t));
    assert(b.take(44) =~= k);
    assert(b.subrange(44, 48int + 6 * r.index.len()) =~= x);
    format_laws::lemma_behind(k + x, u, 0);
    format_laws::lemma_ahead(k + x + u, c + t, (k + x).len() as int);
    format_laws::lemma_ahead(c, t, 0);
    format_laws::lemma_behind(k + x + u, c + t, 0);
    lemma_chunks_joined(r.bodies);
    assert(b.skip(60int + 6 * r.index.len()) =~= t);
    assert forall|i: int| 0 <= i < r.bodies.len() implies {
        &&& format_laws::num4(compressed_record::chunk_bytes(#[trigger] r.bodies[i]), 0)
            == r.bodies[i].len()
        &&& compressed_record::chunk_bytes(r.bodies[i]).len() == 4 + r.bodies[i].len()
        &&& compressed_record::chunk_bytes(r.bodies[i]).skip(4) == r.bodies[i]
    } by {
        let body = r.bodies[i];
        let l = wire::le32(compressed_record::clamp32(body.len() as int));
        format_laws::lemma_written4(body.len() as u32);
        assert(compressed_record::chunk_bytes(body) == l + body);
        format_laws::lemma_ahead(l, body, 0);
        assert((l + body).skip(4) =~= body);
    }
}

proof fn lemma_chunks_joined(bodies: Seq<Seq<u8>>)
    ensures
        compressed_record::chunks_bytes(bodies) == bodies.map_values(
            |body: Seq<u8>| compressed_record::chunk_bytes(body),
        ).flatten(),
    decreases bodies.len(),
{
    let m = bodies.map_values(|body: Seq<u8>| compressed_record::chunk_bytes(body));
    if bodies.len() > 0 {
        lemma_chunks_joined(bodies.drop_first());
        assert(m.drop_first() =~= bodies.drop_first().map_values(
            |body: Seq<u8>| compressed_record::chunk_bytes(body),
        ));
        assert(m.first() == compressed_record::chunk_bytes(bodies[0]));
    } else {
        assert(m.flatten() =~= Seq::<u8>::empty());
    }
}

/// A dump of the compressed tier is a header with the magic number `0x34564346` and the
/// number of records, the records in order, and the closing magic number. Dumps with the
/// magic number `0x33564346` are read too.
pub proof fn lemma_compressed_dump_layout(rs: Seq<CompressedView>)
    ensures
        compressed_record::dump_bytes(rs) == persist::header_bytes(0x3456_4346, rs.len() as u64)
            + rs.map_values(|r: CompressedView| compressed_record::record_bytes(r)).flatten()
            + wire::le32(0x5644_4E45),
        compressed_record::magics() == seq![0x3456_4346u32, 0x3356_4346u32],
{
    lemma_compressed_records_joined(rs);
}

proof fn lemma_compressed_records_joined(rs: Seq<CompressedView>)
    ensures
        compressed_record::records_bytes(rs) == rs.map_values(
            |r: CompressedView| compressed_record::record_bytes(r),
        ).flatten(),
    decreases rs.len(),
{
    let m = rs.map_values(|r: CompressedView| compressed_record::record_bytes(r));
    if rs.len() > 0 {
        lemma_compressed_records_joined(rs.drop_first());
        assert(m.drop_first() =~= rs.drop_first().map_values(
            |r: CompressedView| compressed_record::record_bytes(r),
        ));
        assert(m.first() == compressed_record::record_bytes(rs[0]));
    } else {
        assert(m.flatten() =~= Seq::<u8>::empty());
    }
}

/// A posting list is the magic number `ROAR`, the version 1, the number of buckets in four
/// bytes, and for each bucket its key in two bytes, the length of its container in four and
/// the container.
pub proof fn lemma_postings_layout(es: Seq<(u16, Contents)>)
    requires
        es.len() <= u32::MAX,
    ensures
        ({
            let b = postings::postings_bytes(es);
            &&& b.len() >= 9
            &&& b.take(5) == seq![0x52u8, 0x4Fu8, 0x41u8, 0x52u8, 1u8]
            &&& format_laws::num4(b, 5) == es.len()
            &&& b.skip(9) == es.map_values(
                |e: (u16, Contents)| postings::entry_bytes(e),
            ).flatten()
        }),
        forall|i: int|
            0 <= i < es.len() && container::container_bytes((#[trigger] es[i]).1).len() <= u32::MAX
                ==> {
                let b = postings::entry_bytes(es[i]);
                &&& b.len() == 6 + container::container_bytes(es[i].1).len()
                &&& format_laws::num2(b, 0) == es[i].0
                &&& format_laws::num4(b, 2) == container::container_bytes(es[i].1).len()
                &&& b.skip(6) == container::container_bytes(es[i].1)
            },
{
    let m = crate::postings::MAGIC@;
    let v = seq![crate::postings::VERSION_V1];
    let n = wire::le32(es.len() as u32);
    let t = postings::entries_bytes(es);
    format_laws::lemma_written4(es.len() as u32);
    let b = postings::postings_bytes(es);
    assert(b == m + v + n + t);
    assert(b.take(5) =~= seq![0x52u8, 0x4Fu8, 0x41u8, 0x52u8, 1u8]);
    format_laws::lemma_behind(m + v, n, 0);
    format_laws::lemma_ahead(m + v + n, t, 5);
    lemma_entries_joined(es);
    assert(b.skip(9) =~= t);
    assert forall|i: int|
        0 <= i < es.len() && container::container_bytes((#[trigger] es[i]).1).len()
            <= u32::MAX implies ({
        let b = postings::entry_bytes(es[i]);
        &&& b.len() == 6 + container::container_bytes(es[i].1).len()
        &&& format_laws::num2(b, 0) == es[i].0
        &&& format_laws::num4(b, 2) == container::container_bytes(es[i].1).len()
        &&& b.skip(6) == container::container_bytes(es[i].1)
    }) by {
        let c = container::container_bytes(es[i].1);
        let h = wire::le16(es[i].0);
        let l = wire::le32(c.len() as u32);
        format_laws::lemma_numbers_written(es[i].0, c.len() as u32, 0);
        assert(postings::entry_bytes(es[i]) == h + l + c);
        format_laws::lemma_ahead(h, l, 0);
        format_laws::lemma_ahead(h + l, c, 0);
        format_laws::lemma_behind(h, l, 0);
        format_laws::lemma_ahead(h + l, c, 2);
        assert((h + l + c).skip(6) =~= c);
    }
}

proof fn lemma_entries_joined(es: Seq<(u16, Contents)>)
    ensures
        postings::entries_bytes(es) == es.map_values(
            |e: (u16, Contents)| postings::entry_bytes(e),
        ).flatten(),
    decreases es.len(),
{
    let m = es.map_values(|e: (u16, Contents)| postings::entry_bytes(e));
    if es.len() > 0 {
        let f = es.drop_last().map_values(|e: (u16, Contents)| postings::entry_bytes(e));
        lemma_entries_joined(es.drop_last());
        assert(m =~= f.push(postings::entry_bytes(es.last())));
        f.lemma_flatten_push(postings::entry_bytes(es.last()));
    } else {
        assert(m.flatten() =~= Seq::<u8>::empty());
    }
}

} // verus!
