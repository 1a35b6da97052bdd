//! Framing of cache dumps.
//!
//! Every dump is little-endian and follows:
//!
//! ```text
//! File header (24 bytes):
//!   magic            u32   tier-specific
//!   version          u32   = 1
//!   hash_function    u32   = HASH_FN_FXHASHER_V1 (= 0)
//!   entry_count      u64
//!   reserved         u32   = 0
//!
//! Per-entry key header (44 bytes):
//!   segment_id_hex   [u8; 32]   id as 32 ASCII lowercase hex digits
//!   field_id         u32
//!   term_hash        u64
//!
//! Tier-specific body
//!
//! Trailer (4 bytes):
//!   end_magic        u32   = MAGIC_END
//! ```
//!
//! `hash_function` pins the provenance of the term hashes: keys of a dump made with
//! another function would not line up with the keys that are built now, so such a
//! dump is refused.

use vstd::prelude::*;
use vstd::string::StringExecFns;

use crate::wire;
use crate::segment_id;
use crate::cht::ChtKey;
use crate::segment_id::SegmentId;
use crate::wire::{
    get_u16, get_u32, get_u64, push_bytes, push_u16, push_u32, push_u64, slice_of,
};

verus! {

/// File magic of the host-memory tier; on disk the bytes spell `FCV1`.
pub const MAGIC_V1: u32 = 0x3156_4346;

/// File magic of the uncompressed device tier; on disk `FCV2`.
pub const MAGIC_V2: u32 = 0x3256_4346;

/// File magic of the compressed device tier with one chunk per entry; on disk
/// `FCV3`.
pub const MAGIC_V3: u32 = 0x3356_4346;

/// File magic of the compressed device tier with chunk lists; on disk `FCV4`.
pub const MAGIC_V4: u32 = 0x3456_4346;

/// End-of-stream sentinel; on disk `ENDV`.
pub const MAGIC_END: u32 = 0x5644_4E45;

/// Current wire-format version.
pub const WIRE_VERSION: u32 = 1;

/// Identifier of the term hash function.
pub const HASH_FN_FXHASHER_V1: u32 = 0;

/// File-header size in bytes.
pub const FILE_HEADER_BYTES: usize = 24;

/// Per-entry key header size in bytes.
pub const CHTKEY_HEADER_BYTES: usize = 44;

/// File-trailer size in bytes.
pub const FILE_TRAILER_BYTES: usize = 4;

/// Why a dump was refused.
#[derive(Debug, Clone, Copy, PartialEq, Eq)]
pub enum LoadError {
    /// The magic did not match the expected tier constant.
    WrongMagic {
        /// Expected magic.
        expected: u32,
        /// Magic actually read.
        got: u32,
    },
    /// The version did not match [`WIRE_VERSION`].
    VersionMismatch {
        /// Expected wire version.
        expected: u32,
        /// Version actually read.
        got: u32,
    },
    /// The term hashes come from another hash function.
    HashFunctionMismatch {
        /// Expected hash-function identifier.
        expected: u32,
        /// Identifier actually read.
        got: u32,
    },
    /// The dump ended before the expected number of entries and the trailer.
    TruncatedDump {
        /// Bytes expected past the truncation point.
        needed: usize,
    },
    /// The trailer did not match [`MAGIC_END`].
    BadEndMagic {
        /// Expected end magic.
        expected: u32,
        /// End magic actually read.
        got: u32,
    },
    /// The 32-byte segment id was not text, or not a string of hexadecimal digits.
    InvalidSegmentId {
        /// Zero-based entry index where parsing failed.
        entry_index: u64,
        /// Why, for people.
        detail: &'static str,
    },
    /// A tier-specific body did not decode.
    BodyDecode {
        /// Zero-based entry index where parsing failed.
        entry_index: u64,
        /// Why, for people.
        detail: &'static str,
    },
    /// A device call failed for every entry. An entry whose call fails is skipped and
    /// the rest are loaded; only when all entries fail, the last failure is the error.
    Cuda {
        /// Zero-based entry index where the call failed.
        entry_index: u64,
        /// Bytes the failing call requested.
        bytes: usize,
        /// Raw device error code.
        code: u32,
    },
}

/// Why a dump could not be made.
#[derive(Debug, Clone, Copy, PartialEq, Eq, Structural)]
pub enum DumpError {
    /// A device buffer could not be copied back to the host.
    Cuda {
        /// Zero-based entry index where the call failed.
        entry_index: u64,
        /// Bytes the failing call requested.
        bytes: usize,
        /// Raw device error code.
        code: u32,
    },
}

/// A position in a byte string.
pub struct ByteReader<'a> {
    bytes: &'a [u8],
    pos: usize,
}

impl<'a> ByteReader<'a> {
    /// The position lies within the bytes.
    pub closed spec fn wf(&self) -> bool {
        self.pos <= self.bytes@.len()
    }

    /// The bytes not read yet.
    pub closed spec fn rest(&self) -> Seq<u8> {
        self.bytes@.skip(self.pos as int)
    }

    /// Read from the front of `bytes`.
    pub fn new(bytes: &'a [u8]) -> (r: Self)
        ensures
            r.wf(),
            r.rest() == bytes@,
    {
        assert(bytes@.skip(0) =~= bytes@);
        ByteReader { bytes, pos: 0 }
    }

    /// Number of bytes not read yet.
    pub fn remaining(&self) -> (r: usize)
        requires
            self.wf(),
        ensures
            r == self.rest().len(),
    {
        self.bytes.len() - self.pos
    }
}

/// The bytes of a file header.
#[verifier::opaque]
pub open spec fn header_bytes(magic: u32, entry_count: u64) -> Seq<u8> {
    wire::le32(magic) + wire::le32(WIRE_VERSION) + wire::le32(HASH_FN_FXHASHER_V1)
        + wire::le64(entry_count) + wire::le32(0)
}

/// What the front of a byte string says as a file header with one of the expected
/// magics.
#[verifier::opaque]
pub open spec fn parse_header(b: Seq<u8>, magics: Seq<u32>) -> Result<(u32, u64), LoadError> {
    if b.len() < 4 {
        Err(LoadError::TruncatedDump { needed: 4 })
    } else if !magics.contains(wire::at32(b, 0)) {
        Err(
            LoadError::WrongMagic {
                expected: if magics.len() > 0 { magics[0] } else { 0 },
                got: wire::at32(b, 0),
            },
        )
    } else if b.len() < 8 {
        Err(LoadError::TruncatedDump { needed: 4 })
    } else if wire::at32(b, 4) != WIRE_VERSION {
        Err(LoadError::VersionMismatch { expected: WIRE_VERSION, got: wire::at32(b, 4) })
    } else if b.len() < 12 {
        Err(LoadError::TruncatedDump { needed: 4 })
    } else if wire::at32(b, 8) != HASH_FN_FXHASHER_V1 {
        Err(LoadError::HashFunctionMismatch { expected: HASH_FN_FXHASHER_V1, got: wire::at32(b, 8) })
    } else if b.len() < 20 {
        Err(LoadError::TruncatedDump { needed: 8 })
    } else if b.len() < 24 {
        Err(LoadError::TruncatedDump { needed: 4 })
    } else {
        Ok((wire::at32(b, 0), wire::at64(b, 12)))
    }
}

/// How many bytes of a byte string are read before its front is accepted or refused as a
/// file header with one of the expected magics.
#[verifier::opaque]
pub open spec fn header_used(b: Seq<u8>, magics: Seq<u32>) -> int {
    if b.len() < 4 {
        0
    } else if b.len() < 8 || !magics.contains(wire::at32(b, 0)) {
        4
    } else if b.len() < 12 || wire::at32(b, 4) != WIRE_VERSION {
        8
    } else if b.len() < 20 || wire::at32(b, 8) != HASH_FN_FXHASHER_V1 {
        12
    } else if b.len() < 24 {
        20
    } else {
        24
    }
}

/// What the front of a byte string says as a trailer.
pub open spec fn parse_trailer(b: Seq<u8>) -> Result<(), LoadError> {
    if b.len() < 4 {
        Err(LoadError::TruncatedDump { needed: 4 })
    } else if wire::at32(b, 0) != MAGIC_END {
        Err(LoadError::BadEndMagic { expected: MAGIC_END, got: wire::at32(b, 0) })
    } else {
        Ok(())
    }
}

/// The bytes of a key header.
#[verifier::opaque]
pub open spec fn key_bytes(k: ChtKey) -> Seq<u8> {
    k.segment_id.hex() + wire::le32(k.field) + wire::le64(k.term_hash)
}

/// What is wrong with the bytes of a segment id that are not all hexadecimal digits.
pub open spec fn segment_id_fault(hex: Seq<u8>) -> &'static str {
    if !vstd::utf8::valid_utf8(hex) {
        "non-utf8 segment_id hex"
    } else {
        "malformed uuid hex"
    }
}

/// What the front of a byte string says as a key header.
#[verifier::opaque]
pub open spec fn parse_key(b: Seq<u8>, entry_index: u64) -> Result<ChtKey, LoadError> {
    if b.len() < 32 {
        Err(LoadError::TruncatedDump { needed: 32 })
    } else if !segment_id::all_hex(b.take(32)) {
        Err(LoadError::InvalidSegmentId { entry_index, detail: segment_id_fault(b.take(32)) })
    } else if b.len() < 36 {
        Err(LoadError::TruncatedDump { needed: 4 })
    } else if b.len() < 44 {
        Err(LoadError::TruncatedDump { needed: 8 })
    } else {
        Ok(
            ChtKey {
                segment_id: SegmentId { value: segment_id::hex_value(b.take(32)) as u128 },
                field: wire::at32(b, 32),
                term_hash: wire::at64(b, 36),
            },
        )
    }
}

/// How many bytes of a byte string are read before its front is accepted or refused as a
/// key header.
#[verifier::opaque]
pub open spec fn key_used(b: Seq<u8>) -> int {
    if b.len() < 32 {
        0
    } else if b.len() < 36 || !segment_id::all_hex(b.take(32)) {
        32
    } else if b.len() < 44 {
        36
    } else {
        44
    }
}

/// The bytes of a bucket index: the number of buckets, then each bucket's key and
/// word offset.
#[verifier::opaque]
pub open spec fn index_bytes(index: Seq<(u16, u32)>) -> Seq<u8> {
    wire::le32(index.len() as u32) + pairs_bytes(index)
}

/// The bytes of the pairs of a bucket index.
pub open spec fn pairs_bytes(index: Seq<(u16, u32)>) -> Seq<u8>
    decreases index.len(),
{
    if index.len() == 0 {
        Seq::empty()
    } else {
        pairs_bytes(index.drop_last()) + wire::le16(index.last().0) + wire::le32(index.last().1)
    }
}

/// The first `n` pairs of a bucket index whose bytes start at offset 4.
pub open spec fn pairs_at(b: Seq<u8>, n: int) -> Seq<(u16, u32)> {
    Seq::new(n as nat, |i: int| (wire::at16(b, 4 + 6 * i), wire::at32(b, 6 + 6 * i)))
}

/// What the front of a byte string says as a bucket index. Where the bytes end
/// within a pair, the part of the pair that is missing is reported.
#[verifier::opaque]
pub open spec fn parse_index(b: Seq<u8>) -> Result<Seq<(u16, u32)>, LoadError> {
    if b.len() < 4 {
        Err(LoadError::TruncatedDump { needed: 4 })
    } else if b.len() >= 4 + 6 * wire::at32(b, 0) {
        Ok(pairs_at(b, wire::at32(b, 0) as int))
    } else if (b.len() - 4) % 6 < 2 {
        Err(LoadError::TruncatedDump { needed: 2 })
    } else {
        Err(LoadError::TruncatedDump { needed: 4 })
    }
}

/// The path a dump is staged at before it is renamed: the final path with `.tmp`
/// behind it.
pub fn tmp_path_for(path: &str) -> (r: String)
    ensures
        r@ == path@ + ".tmp"@,
{
    let mut tmp: String = String::from_str(path);
    tmp.append(".tmp");
    tmp
}

/// Read exactly `n` bytes.
pub fn read_exact_or_truncated(r: &mut ByteReader<'_>, n: usize) -> (out: Result<
    Vec<u8>,
    LoadError,
>)
    requires
        old(r).wf(),
    ensures
        final(r).wf(),
        match out {
            Ok(v) => n <= old(r).rest().len() && v@ == old(r).rest().take(n as int)
                && final(r).rest() == old(r).rest().skip(n as int),
            Err(e) => n > old(r).rest().len() && e == (LoadError::TruncatedDump { needed: n })
                && final(r).rest() == old(r).rest(),
        },
{
    if r.bytes.len() - r.pos < n {
        return Err(LoadError::TruncatedDump { needed: n });
    }
    let mut v: Vec<u8> = Vec::new();
    push_bytes(&mut v, slice_of(r.bytes, r.pos, r.pos + n));
    r.pos = r.pos + n;
    proof {
        assert(v@ =~= old(r).rest().take(n as int));
        assert(r.rest() =~= old(r).rest().skip(n as int));
    }
    Ok(v)
}

/// Read a little-endian `u32`.
pub fn read_u32_le(r: &mut ByteReader<'_>) -> (out: Result<u32, LoadError>)
    requires
        old(r).wf(),
    ensures
        final(r).wf(),
        match out {
            Ok(x) => old(r).rest().len() >= 4 && x == wire::at32(old(r).rest(), 0)
                && final(r).rest()
                == old(r).rest().skip(4),
            Err(e) => old(r).rest().len() < 4 && e == (LoadError::TruncatedDump { needed: 4 })
                && final(r).rest() == old(r).rest(),
        },
{
    if r.bytes.len() - r.pos < 4 {
        return Err(LoadError::TruncatedDump { needed: 4 });
    }
    let x: u32 = get_u32(r.bytes, r.pos);
    r.pos = r.pos + 4;
    assert(r.rest() =~= old(r).rest().skip(4));
    Ok(x)
}

/// Read a little-endian `u64`.
pub fn read_u64_le(r: &mut ByteReader<'_>) -> (out: Result<u64, LoadError>)
    requires
        old(r).wf(),
    ensures
        final(r).wf(),
        match out {
            Ok(x) => old(r).rest().len() >= 8 && x == wire::at64(old(r).rest(), 0)
                && final(r).rest()
                == old(r).rest().skip(8),
            Err(e) => old(r).rest().len() < 8 && e == (LoadError::TruncatedDump { needed: 8 })
                && final(r).rest() == old(r).rest(),
        },
{
    if r.bytes.len() - r.pos < 8 {
        return Err(LoadError::TruncatedDump { needed: 8 });
    }
    let x: u64 = get_u64(r.bytes, r.pos);
    r.pos = r.pos + 8;
    assert(r.rest() =~= old(r).rest().skip(8));
    Ok(x)
}

/// Read a little-endian `u16`.
pub fn read_u16_le(r: &mut ByteReader<'_>) -> (out: Result<u16, LoadError>)
    requires
        old(r).wf(),
    ensures
        final(r).wf(),
        match out {
            Ok(x) => old(r).rest().len() >= 2 && x == wire::at16(old(r).rest(), 0)
                && final(r).rest()
                == old(r).rest().skip(2),
            Err(e) => old(r).rest().len() < 2 && e == (LoadError::TruncatedDump { needed: 2 })
                && final(r).rest() == old(r).rest(),
        },
{
    if r.bytes.len() - r.pos < 2 {
        return Err(LoadError::TruncatedDump { needed: 2 });
    }
    let x: u16 = get_u16(r.bytes, r.pos);
    r.pos = r.pos + 2;
    assert(r.rest() =~= old(r).rest().skip(2));
    Ok(x)
}

/// Write the file header.
pub fn write_file_header(w: &mut Vec<u8>, magic: u32, entry_count: u64)
    ensures
        final(w)@ == old(w)@ + header_bytes(magic, entry_count),
{
    proof {
        reveal(header_bytes);
    }
    push_u32(w, magic);
    push_u32(w, WIRE_VERSION);
    push_u32(w, HASH_FN_FXHASHER_V1);
    push_u64(w, entry_count);
    push_u32(w, 0);
    assert(w@ =~= old(w)@ + header_bytes(magic, entry_count));
}

/// Read and validate the file header; returns the number of entries.
pub fn read_and_validate_file_header(r: &mut ByteReader<'_>, expected_magic: u32) -> (out: Result<
    u64,
    LoadError,
>)
    requires
        old(r).wf(),
    ensures
        final(r).wf(),
        match out {
            Ok(n) => parse_header(old(r).rest(), seq![expected_magic]) == Ok::<
                (u32, u64),
                LoadError,
            >((expected_magic, n)) && final(r).rest() == old(r).rest().skip(24),
            Err(e) => parse_header(old(r).rest(), seq![expected_magic]) == Err::<
                (u32, u64),
                LoadError,
            >(e),
        },
        final(r).rest() == old(r).rest().skip(header_used(old(r).rest(), seq![expected_magic])),
{
    let magics: Vec<u32> = vec![expected_magic];
    assert(magics@ =~= seq![expected_magic]);
    match read_and_validate_file_header_multi(r, magics.as_slice()) {
        Ok((_, n)) => Ok(n),
        Err(e) => Err(e),
    }
}

/// Read and validate a file header with any of the given magics; returns the magic
/// found and the number of entries. A wrong magic is reported against the first of
/// them.
pub fn read_and_validate_file_header_multi(
    r: &mut ByteReader<'_>,
    expected_magics: &[u32],
) -> (out: Result<(u32, u64), LoadError>)
    requires
        old(r).wf(),
    ensures
        final(r).wf(),
        out == parse_header(old(r).rest(), expected_magics@),
        out is Ok ==> final(r).rest() == old(r).rest().skip(24),
        out matches Ok((m, _)) ==> expected_magics@.contains(m),
        final(r).rest() == old(r).rest().skip(header_used(old(r).rest(), expected_magics@)),
{
    proof {
        reveal(parse_header);
        reveal(header_used);
    }
    let ghost b = r.rest();
    assert(b.skip(0) =~= b);
    let magic: u32 = match read_u32_le(r) {
        Ok(x) => x,
        Err(e) => {
            return Err(e);
        },
    };
    if !contains_u32(expected_magics, magic) {
        let expected: u32 = if expected_magics.len() > 0 {
            expected_magics[0]
        } else {
            0
        };
        return Err(LoadError::WrongMagic { expected, got: magic });
    }
    let version: u32 = match read_u32_le(r) {
        Ok(x) => x,
        Err(e) => {
            return Err(e);
        },
    };
    if version != WIRE_VERSION {
        return Err(LoadError::VersionMismatch { expected: WIRE_VERSION, got: version });
    }
    let hash_fn: u32 = match read_u32_le(r) {
        Ok(x) => x,
        Err(e) => {
            return Err(e);
        },
    };
    if hash_fn != HASH_FN_FXHASHER_V1 {
        return Err(
            LoadError::HashFunctionMismatch { expected: HASH_FN_FXHASHER_V1, got: hash_fn },
        );
    }
    let entry_count: u64 = match read_u64_le(r) {
        Ok(x) => x,
        Err(e) => {
            return Err(e);
        },
    };
    match read_u32_le(r) {
        Ok(_) => {},
        Err(e) => {
            return Err(e);
        },
    }
    assert(r.rest() =~= b.skip(24));
    Ok((magic, entry_count))
}

/// Whether `x` is one of `xs`.
fn contains_u32(xs: &[u32], x: u32) -> (r: bool)
    ensures
        r == xs@.contains(x),
{
    let n: usize = xs.len();
    let mut i: usize = 0;
    while i < n
        invariant
            n == xs@.len(),
            i <= n,
            forall|j: int| 0 <= j < i ==> xs@[j] != x,
        decreases n - i,
    {
        if xs[i] == x {
            return true;
        }
        i = i + 1;
    }
    false
}

/// Write the end-of-stream sentinel.
pub fn write_file_trailer(w: &mut Vec<u8>)
    ensures
        final(w)@ == old(w)@ + wire::le32(MAGIC_END),
{
    push_u32(w, MAGIC_END);
}

/// Read and validate the end-of-stream sentinel.
pub fn read_and_validate_file_trailer(r: &mut ByteReader<'_>) -> (out: Result<(), LoadError>)
    requires
        old(r).wf(),
    ensures
        final(r).wf(),
        out == parse_trailer(old(r).rest()),
        final(r).rest() == (if old(r).rest().len() < 4 {
            old(r).rest()
        } else {
            old(r).rest().skip(4)
        }),
{
    let m: u32 = match read_u32_le(r) {
        Ok(x) => x,
        Err(e) => {
            return Err(e);
        },
    };
    if m != MAGIC_END {
        return Err(LoadError::BadEndMagic { expected: MAGIC_END, got: m });
    }
    Ok(())
}

/// Length of the character at the front of the bytes from `i` on, zero where there is
/// none.
fn first_char_len(b: &[u8], i: usize) -> (r: usize)
    requires
        i < b@.len(),
    ensures
        r == 0 <==> !vstd::utf8::valid_first_scalar(b@.skip(i as int)),
        r > 0 ==> r == vstd::utf8::length_of_first_scalar(b@.skip(i as int)) && i + r
            <= b@.len(),
{
    let ghost s = b@.skip(i as int);
    let left: usize = b.len() - i;
    let b1: u8 = b[i];
    assert(b1 == s[0]);
    if b1 <= 0x7f {
        assert((b1 & 0x7F) as u32 <= 0x7f) by (bit_vector);
        return 1;
    }
    if left < 2 {
        return 0;
    }
    let b2: u8 = b[i + 1];
    assert(b2 == s[1]);
    if 0xc0 <= b1 && b1 <= 0xdf {
        let c: u32 = (((b1 & 0x1F) as u32) << 6) | ((b2 & 0x3f) as u32);
        let ok: bool = 0x80 <= b2 && b2 <= 0xbf && 0x80 <= c && !(0xD800 <= c && c <= 0xDFFF);
        return if ok {
            2
        } else {
            0
        };
    }
    if left < 3 {
        return 0;
    }
    let b3: u8 = b[i + 2];
    assert(b3 == s[2]);
    if 0xe0 <= b1 && b1 <= 0xef {
        let c: u32 = (((b1 & 0x0F) as u32) << 12) | (((b2 & 0x3f) as u32) << 6) | ((b3
            & 0x3f) as u32);
        let ok: bool = 0x80 <= b2 && b2 <= 0xbf && 0x80 <= b3 && b3 <= 0xbf && 0x800 <= c && !(
        0xD800 <= c && c <= 0xDFFF);
        return if ok {
            3
        } else {
            0
        };
    }
    if left < 4 {
        return 0;
    }
    let b4: u8 = b[i + 3];
    assert(b4 == s[3]);
    if 0xf0 <= b1 && b1 <= 0xf7 {
        let c: u32 = (((b1 & 0x07) as u32) << 18) | (((b2 & 0x3f) as u32) << 12) | (((b3
            & 0x3f) as u32) << 6) | ((b4 & 0x3f) as u32);
        let ok: bool = 0x80 <= b2 && b2 <= 0xbf && 0x80 <= b3 && b3 <= 0xbf && 0x80 <= b4 && b4
            <= 0xbf && 0x10000 <= c && c <= 0x10ffff && !(0xD800 <= c && c <= 0xDFFF);
        return if ok {
            4
        } else {
            0
        };
    }
    0
}

/// Whether the bytes are the encoding of a text.
fn is_utf8(b: &[u8]) -> (r: bool)
    ensures
        r == vstd::utf8::valid_utf8(b@),
{
    let n: usize = b.len();
    let mut i: usize = 0;
    assert(b@.skip(0) =~= b@);
    while i < n
        invariant
            n == b@.len(),
            i <= n,
            vstd::utf8::valid_utf8(b@) == vstd::utf8::valid_utf8(b@.skip(i as int)),
        decreases n - i,
    {
        let k: usize = first_char_len(b, i);
        if k == 0 {
            return false;
        }
        assert(vstd::utf8::pop_first_scalar(b@.skip(i as int)) =~= b@.skip(i + k));
        i = i + k;
    }
    true
}

/// Write a key header.
pub fn write_chtkey(w: &mut Vec<u8>, k: &ChtKey)
    ensures
        final(w)@ == old(w)@ + key_bytes(*k),
{
    proof {
        reveal(key_bytes);
    }
    let hex: Vec<u8> = k.segment_id.uuid_hex();
    push_bytes(w, hex.as_slice());
    push_u32(w, k.field);
    push_u64(w, k.term_hash);
    assert(w@ =~= old(w)@ + key_bytes(*k));
}

/// Read a key header. `entry_index` is for error context only.
pub fn read_chtkey(r: &mut ByteReader<'_>, entry_index: u64) -> (out: Result<ChtKey, LoadError>)
    requires
        old(r).wf(),
    ensures
        final(r).wf(),
        out == parse_key(old(r).rest(), entry_index),
        out is Ok ==> old(r).rest().len() >= 44 && final(r).rest() == old(r).rest().skip(44),
        final(r).rest() == old(r).rest().skip(key_used(old(r).rest())),
{
    proof {
        reveal(parse_key);
        reveal(key_used);
    }
    let ghost b = r.rest();
    assert(b.skip(0) =~= b);
    let hex: Vec<u8> = match read_exact_or_truncated(r, 32) {
        Ok(v) => v,
        Err(e) => {
            return Err(e);
        },
    };
    let segment_id: SegmentId = match SegmentId::from_uuid_hex(hex.as_slice()) {
        Some(id) => id,
        None => {
            let detail: &'static str = if !is_utf8(hex.as_slice()) {
                "non-utf8 segment_id hex"
            } else {
                "malformed uuid hex"
            };
            return Err(LoadError::InvalidSegmentId { entry_index, detail });
        },
    };
    let field: u32 = match read_u32_le(r) {
        Ok(x) => x,
        Err(e) => {
            return Err(e);
        },
    };
    let term_hash: u64 = match read_u64_le(r) {
        Ok(x) => x,
        Err(e) => {
            return Err(e);
        },
    };
    assert(r.rest() =~= b.skip(44));
    Ok(ChtKey { segment_id, field, term_hash })
}

/// Write a bucket index.
pub(crate) fn write_index(w: &mut Vec<u8>, index: &Vec<(u16, u32)>)
    requires
        index@.len() <= u32::MAX,
    ensures
        final(w)@ == old(w)@ + index_bytes(index@),
{
    proof {
        reveal(index_bytes);
    }
    let n: usize = index.len();
    push_u32(w, n as u32);
    let ghost front = w@;
    let mut i: usize = 0;
    assert(front + pairs_bytes(index@.take(0)) =~= front);
    while i < n
        invariant
            n == index@.len(),
            i <= n,
            w@ == front + pairs_bytes(index@.take(i as int)),
        decreases n - i,
    {
        push_u16(w, index[i].0);
        push_u32(w, index[i].1);
        proof {
            let t = index@.take(i + 1);
            assert(t.drop_last() =~= index@.take(i as int));
            assert(w@ =~= front + pairs_bytes(t));
        }
        i = i + 1;
    }
    assert(index@.take(n as int) =~= index@);
    assert(w@ =~= old(w)@ + index_bytes(index@));
}

/// Read a bucket index.
pub(crate) fn read_index(r: &mut ByteReader<'_>) -> (out: Result<Vec<(u16, u32)>, LoadError>)
    requires
        old(r).wf(),
    ensures
        final(r).wf(),
        match out {
            Ok(v) => parse_index(old(r).rest()) == Ok::<Seq<(u16, u32)>, LoadError>(v@)
                && final(r).rest() == old(r).rest().skip(4int + 6 * v@.len())
                    && old(r).rest().len() >= 4
                + 6 * v@.len() && v@.len() <= u32::MAX,
            Err(e) => parse_index(old(r).rest()) == Err::<Seq<(u16, u32)>, LoadError>(e),
        },
{
    proof {
        reveal(parse_index);
    }
    let ghost b = r.rest();
    let n: u32 = match read_u32_le(r) {
        Ok(x) => x,
        Err(e) => {
            return Err(e);
        },
    };
    let mut v: Vec<(u16, u32)> = Vec::new();
    let mut i: u32 = 0;
    while i < n
        invariant
            r.wf(),
            b == old(r).rest(),
            b.len() >= 4 + 6 * i,
            r.rest() == b.skip(4 + 6 * i),
            n == wire::at32(b, 0),
            i <= n,
            v@ == pairs_at(b, i as int),
        decreases n - i,
    {
        proof {
            reveal(parse_index);
        }
        let high16: u16 = match read_u16_le(r) {
            Ok(x) => x,
            Err(e) => {
                assert((b.len() - 4) % 6 < 2);
                return Err(e);
            },
        };
        let word_offset: u32 = match read_u32_le(r) {
            Ok(x) => x,
            Err(e) => {
                assert((b.len() - 4) % 6 >= 2);
                return Err(e);
            },
        };
        v.push((high16, word_offset));
        i = i + 1;
        proof {
            assert(v@ =~= pairs_at(b, i as int));
            assert(r.rest() =~= b.skip(4 + 6 * i));
        }
    }
    Ok(v)
}

/// A bucket index that was written reads back.
pub proof fn lemma_index_round_trip(index: Seq<(u16, u32)>, tail: Seq<u8>)
    requires
        index.len() <= u32::MAX,
    ensures
        index_bytes(index).len() == 4 + 6 * index.len(),
        parse_index(index_bytes(index) + tail) == Ok::<Seq<(u16, u32)>, LoadError>(index),
{
    reveal(index_bytes);
    reveal(parse_index);
    lemma_pairs(index);
    let b = index_bytes(index) + tail;
    let n = index.len() as u32;
    assert(wire::holds_at(b, 0, wire::le32(n))) by {
        assert forall|i: int| 0 <= i < 4 implies b[0 + i] == #[trigger] wire::le32(n)[i] by {}
    }
    wire::lemma_at32(b, 0, n);
    assert forall|i: int| 0 <= i < index.len() implies #[trigger] pairs_at(b, index.len() as int)[i]
        == index[i] by {
        assert(pair_at(pairs_bytes(index), index, i));
        assert(wire::holds_at(b, 4 + 6 * i, wire::le16(index[i].0))) by {
            assert forall|j: int| 0 <= j < 2 implies b[4 + 6 * i + j] == #[trigger] wire::le16(
                index[i].0,
            )[j] by {
                assert(b[4 + 6 * i + j] == pairs_bytes(index)[6 * i + j]);
            }
        }
        assert(wire::holds_at(b, 6 + 6 * i, wire::le32(index[i].1))) by {
            assert forall|j: int| 0 <= j < 4 implies b[6 + 6 * i + j] == #[trigger] wire::le32(
                index[i].1,
            )[j] by {
                assert(b[6 + 6 * i + j] == pairs_bytes(index)[6 * i + 2 + j]);
            }
        }
        wire::lemma_at16(b, 4 + 6 * i, index[i].0);
        wire::lemma_at32(b, 6 + 6 * i, index[i].1);
    }
    assert(pairs_at(b, index.len() as int) =~= index);
}

/// The six bytes of pair `i` stand at offset `6 * i`.
spec fn pair_at(b: Seq<u8>, index: Seq<(u16, u32)>, i: int) -> bool {
    &&& wire::holds_at(b, 6 * i, wire::le16(index[i].0))
    &&& wire::holds_at(b, 6 * i + 2, wire::le32(index[i].1))
}

proof fn lemma_pairs(index: Seq<(u16, u32)>)
    ensures
        pairs_bytes(index).len() == 6 * index.len(),
        forall|i: int| 0 <= i < index.len() ==> #[trigger] pair_at(pairs_bytes(index), index, i),
    decreases index.len(),
{
    if index.len() > 0 {
        let front = index.drop_last();
        lemma_pairs(front);
        let b = pairs_bytes(index);
        assert forall|i: int| 0 <= i < index.len() implies #[trigger] pair_at(b, index, i) by {
            if i < front.len() {
                assert(pair_at(pairs_bytes(front), front, i));
                assert(index[i] == front[i]);
                assert forall|j: int| 0 <= j < 2 implies b[6 * i + j] == #[trigger] wire::le16(
                    index[i].0,
                )[j] by {}
                assert forall|j: int| 0 <= j < 4 implies b[6 * i + 2 + j] == #[trigger] wire::le32(
                    index[i].1,
                )[j] by {}
            } else {
                assert forall|j: int| 0 <= j < 2 implies b[6 * i + j] == #[trigger] wire::le16(
                    index[i].0,
                )[j] by {}
                assert forall|j: int| 0 <= j < 4 implies b[6 * i + 2 + j] == #[trigger] wire::le32(
                    index[i].1,
                )[j] by {}
            }
        }
    }
}

/// A file header that was written is accepted, with its number of entries.
pub proof fn lemma_header_round_trip(magic: u32, entry_count: u64, tail: Seq<u8>, magics: Seq<u32>)
    requires
        magics.contains(magic),
    ensures
        header_bytes(magic, entry_count).len() == 24,
        parse_header(header_bytes(magic, entry_count) + tail, magics) == Ok::<
            (u32, u64),
            LoadError,
        >((magic, entry_count)),
{
    reveal(header_bytes);
    reveal(parse_header);
    let b = header_bytes(magic, entry_count) + tail;
    assert(wire::at32(b, 0) == magic) by {
        assert(b.subrange(0, 4) =~= wire::le32(magic));
        wire::lemma_holds(b, 0, wire::le32(magic));
        wire::lemma_at32(b, 0, magic);
    }
    assert(wire::at32(b, 4) == WIRE_VERSION) by {
        assert(b.subrange(4, 8) =~= wire::le32(WIRE_VERSION));
        wire::lemma_holds(b, 4, wire::le32(WIRE_VERSION));
        wire::lemma_at32(b, 4, WIRE_VERSION);
    }
    assert(wire::at32(b, 8) == HASH_FN_FXHASHER_V1) by {
        assert(b.subrange(8, 12) =~= wire::le32(HASH_FN_FXHASHER_V1));
        wire::lemma_holds(b, 8, wire::le32(HASH_FN_FXHASHER_V1));
        wire::lemma_at32(b, 8, HASH_FN_FXHASHER_V1);
    }
    assert(wire::at64(b, 12) == entry_count) by {
        assert(b.subrange(12, 20) =~= wire::le64(entry_count));
        wire::lemma_holds(b, 12, wire::le64(entry_count));
        wire::lemma_at64(b, 12, entry_count);
    }
}

/// A file header with a magic that is not expected is refused.
pub proof fn lemma_header_wrong_magic(magic: u32, entry_count: u64, tail: Seq<u8>, magics: Seq<u32>)
    requires
        !magics.contains(magic),
        magics.len() > 0,
    ensures
        parse_header(header_bytes(magic, entry_count) + tail, magics) == Err::<
            (u32, u64),
            LoadError,
        >(LoadError::WrongMagic { expected: magics[0], got: magic }),
{
    reveal(header_bytes);
    reveal(parse_header);
    let b = header_bytes(magic, entry_count) + tail;
    assert(wire::holds_at(b, 0, wire::le32(magic))) by {
        assert forall|i: int| 0 <= i < 4 implies b[0 + i] == #[trigger] wire::le32(magic)[i] by {}
    }
    wire::lemma_at32(b, 0, magic);
}

/// A trailer that was written is accepted.
pub proof fn lemma_trailer_round_trip(tail: Seq<u8>)
    ensures
        parse_trailer(wire::le32(MAGIC_END) + tail) == Ok::<(), LoadError>(()),
{
    let b = wire::le32(MAGIC_END) + tail;
    assert(wire::holds_at(b, 0, wire::le32(MAGIC_END))) by {
        assert forall|i: int| 0 <= i < 4
            implies b[0 + i] == #[trigger] wire::le32(MAGIC_END)[i] by {}
    }
    wire::lemma_at32(b, 0, MAGIC_END);
}

/// A key header that was written reads back as the key.
pub proof fn lemma_key_round_trip(k: ChtKey, tail: Seq<u8>, entry_index: u64)
    ensures
        key_bytes(k).len() == 44,
        parse_key(key_bytes(k) + tail, entry_index) == Ok::<ChtKey, LoadError>(k),
{
    reveal(key_bytes);
    reveal(parse_key);
    k.segment_id.lemma_hex();
    let b = key_bytes(k) + tail;
    assert(b.take(32) =~= k.segment_id.hex());
    assert(wire::holds_at(b, 32, wire::le32(k.field))) by {
        assert forall|i: int| 0 <= i < 4
            implies b[32 + i] == #[trigger] wire::le32(k.field)[i] by {}
    }
    assert(wire::holds_at(b, 36, wire::le64(k.term_hash))) by {
        assert forall|i: int| 0 <= i < 8
            implies b[36 + i] == #[trigger] wire::le64(k.term_hash)[i] by {}
    }
    wire::lemma_at32(b, 32, k.field);
    wire::lemma_at64(b, 36, k.term_hash);
}

} // verus!
