//! Little-endian integers on byte strings.
//!
//! Each integer width has an encoding (`le16`, `le32`, `le64`), a reading at an
//! offset (`at16`, `at32`, `at64`) and a lemma that the reading undoes the
//! encoding. Sequences of integers encode back to back.

use vstd::prelude::*;

verus! {

/// The two bytes of `x`, least significant first.
pub open spec fn le16(x: u16) -> Seq<u8> {
    seq![(x % 256) as u8, (x / 256) as u8]
}

/// The four bytes of `x`, least significant first.
pub open spec fn le32(x: u32) -> Seq<u8> {
    le16((x % 65536) as u16) + le16((x / 65536) as u16)
}

/// The eight bytes of `x`, least significant first.
pub open spec fn le64(x: u64) -> Seq<u8> {
    le32((x % 0x1_0000_0000) as u32) + le32((x / 0x1_0000_0000) as u32)
}

/// The 16-bit integer whose two bytes start at `off`.
pub open spec fn at16(b: Seq<u8>, off: int) -> u16 {
    (b[off] + 256 * b[off + 1]) as u16
}

/// The 32-bit integer whose four bytes start at `off`.
pub open spec fn at32(b: Seq<u8>, off: int) -> u32 {
    (at16(b, off) + 65536 * at16(b, off + 2)) as u32
}

/// The 64-bit integer whose eight bytes start at `off`.
pub open spec fn at64(b: Seq<u8>, off: int) -> u64 {
    (at32(b, off) + 0x1_0000_0000 * at32(b, off + 4)) as u64
}

/// The bytes of a sequence of 16-bit integers, back to back.
pub open spec fn enc16(s: Seq<u16>) -> Seq<u8> {
    Seq::new(2 * s.len(), |i: int| le16(s[i / 2])[i % 2])
}

/// The bytes of a sequence of 32-bit integers, back to back.
pub open spec fn enc32(s: Seq<u32>) -> Seq<u8> {
    Seq::new(4 * s.len(), |i: int| le32(s[i / 4])[i % 4])
}

/// `n` as a `usize`, or `usize::MAX` where it does not fit.
pub open spec fn clamp_usize(n: int) -> usize {
    if n <= usize::MAX {
        n as usize
    } else {
        usize::MAX
    }
}

/// `hay` holds `needle` at offset `off`.
pub open spec fn holds_at(hay: Seq<u8>, off: int, needle: Seq<u8>) -> bool {
    &&& 0 <= off
    &&& off + needle.len() <= hay.len()
    &&& forall|i: int| 0 <= i < needle.len() ==> hay[off + i] == #[trigger] needle[i]
}

/// A part that equals `needle` holds it.
pub proof fn lemma_holds(b: Seq<u8>, off: int, needle: Seq<u8>)
    requires
        0 <= off,
        off + needle.len() <= b.len(),
        b.subrange(off, off + needle.len()) == needle,
    ensures
        holds_at(b, off, needle),
{
    assert forall|i: int| 0 <= i < needle.len() implies b[off + i] == #[trigger] needle[i] by {
        assert(b.subrange(off, off + needle.len())[i] == needle[i]);
    }
}

/// Concatenation is associative.
pub proof fn lemma_assoc(a: Seq<u8>, b: Seq<u8>, c: Seq<u8>)
    ensures
        a + b + c == a + (b + c),
{
    assert(a + b + c =~= a + (b + c));
}

/// Five parts appended one by one are appended as one.
pub proof fn lemma_five(
    front: Seq<u8>,
    a: Seq<u8>,
    b: Seq<u8>,
    c: Seq<u8>,
    d: Seq<u8>,
    e: Seq<u8>,
)
    ensures
        front + a + b + c + d + e == front + (a + b + c + (d + e)),
{
    assert(front + a + b + c + d + e =~= front + (a + b + c + (d + e)));
}

/// Skipping the front part leaves the rest.
pub proof fn lemma_skip_front(a: Seq<u8>, b: Seq<u8>)
    ensures
        (a + b).skip(a.len() as int) == b,
        (a + b).take(a.len() as int) == a,
        (a + b).subrange(0, a.len() as int) == a,
{
    assert((a + b).skip(a.len() as int) =~= b);
    assert((a + b).take(a.len() as int) =~= a);
    assert((a + b).subrange(0, a.len() as int) =~= a);
}

pub proof fn lemma_at16(b: Seq<u8>, off: int, x: u16)
    requires
        holds_at(b, off, le16(x)),
    ensures
        at16(b, off) == x,
{
    assert(b[off + 0] == le16(x)[0]);
    assert(b[off + 1] == le16(x)[1]);
}

pub proof fn lemma_at32(b: Seq<u8>, off: int, x: u32)
    requires
        holds_at(b, off, le32(x)),
    ensures
        at32(b, off) == x,
{
    let lo = (x % 65536) as u16;
    let hi = (x / 65536) as u16;
    assert forall|i: int| 0 <= i < 2 implies b[off + i] == #[trigger] le16(lo)[i] by {
        assert(le32(x)[i] == le16(lo)[i]);
    }
    assert forall|i: int| 0 <= i < 2 implies b[off + 2 + i] == #[trigger] le16(hi)[i] by {
        assert(le32(x)[2 + i] == le16(hi)[i]);
        assert(b[off + (2 + i)] == le32(x)[2 + i]);
    }
    lemma_at16(b, off, lo);
    lemma_at16(b, off + 2, hi);
}

pub proof fn lemma_at64(b: Seq<u8>, off: int, x: u64)
    requires
        holds_at(b, off, le64(x)),
    ensures
        at64(b, off) == x,
{
    let lo = (x % 0x1_0000_0000) as u32;
    let hi = (x / 0x1_0000_0000) as u32;
    assert forall|i: int| 0 <= i < 4 implies b[off + i] == #[trigger] le32(lo)[i] by {
        assert(le64(x)[i] == le32(lo)[i]);
    }
    assert forall|i: int| 0 <= i < 4 implies b[off + 4 + i] == #[trigger] le32(hi)[i] by {
        assert(le64(x)[4 + i] == le32(hi)[i]);
        assert(b[off + (4 + i)] == le64(x)[4 + i]);
    }
    lemma_at32(b, off, lo);
    lemma_at32(b, off + 4, hi);
}

/// A 64-bit integer at the front reads back, with the rest behind it.
pub proof fn lemma_front64(x: u64, rest: Seq<u8>)
    ensures
        le64(x).len() == 8,
        at64(le64(x) + rest, 0) == x,
        (le64(x) + rest).len() == 8 + rest.len(),
        (le64(x) + rest).skip(8) == rest,
{
    lemma_skip_front(le64(x), rest);
    lemma_holds(le64(x) + rest, 0, le64(x));
    lemma_at64(le64(x) + rest, 0, x);
}

/// A 32-bit integer at the front reads back, with the rest behind it.
pub proof fn lemma_front32(x: u32, rest: Seq<u8>)
    ensures
        le32(x).len() == 4,
        at32(le32(x) + rest, 0) == x,
        (le32(x) + rest).len() == 4 + rest.len(),
        (le32(x) + rest).skip(4) == rest,
{
    lemma_skip_front(le32(x), rest);
    lemma_holds(le32(x) + rest, 0, le32(x));
    lemma_at32(le32(x) + rest, 0, x);
}

/// Reading integer `i` of a back-to-back encoding gives it back.
pub proof fn lemma_enc16_at(b: Seq<u8>, off: int, s: Seq<u16>, i: int)
    requires
        holds_at(b, off, enc16(s)),
        0 <= i < s.len(),
    ensures
        at16(b, off + 2 * i) == s[i],
{
    assert forall|j: int| 0 <= j < 2 implies b[off + 2 * i + j] == #[trigger] le16(s[i])[j] by {
        assert((2 * i + j) / 2 == i && (2 * i + j) % 2 == j);
        assert(enc16(s)[2 * i + j] == le16(s[i])[j]);
        assert(b[off + (2 * i + j)] == enc16(s)[2 * i + j]);
    }
    lemma_at16(b, off + 2 * i, s[i]);
}

/// Reading integer `i` of a back-to-back encoding gives it back.
pub proof fn lemma_enc32_at(b: Seq<u8>, off: int, s: Seq<u32>, i: int)
    requires
        holds_at(b, off, enc32(s)),
        0 <= i < s.len(),
    ensures
        at32(b, off + 4 * i) == s[i],
{
    assert forall|j: int| 0 <= j < 4 implies b[off + 4 * i + j] == #[trigger] le32(s[i])[j] by {
        assert((4 * i + j) / 4 == i && (4 * i + j) % 4 == j);
        assert(enc32(s)[4 * i + j] == le32(s[i])[j]);
        assert(b[off + (4 * i + j)] == enc32(s)[4 * i + j]);
    }
    lemma_at32(b, off + 4 * i, s[i]);
}

pub proof fn lemma_enc16_push(s: Seq<u16>, x: u16)
    ensures
        enc16(s.push(x)) == enc16(s) + le16(x),
{
    assert forall|i: int| 0 <= i < 2 * s.len() + 2 implies #[trigger] enc16(s.push(x))[i] == (enc16(
        s,
    ) + le16(x))[i] by {
        if i < 2 * s.len() {
            assert(i / 2 < s.len());
        } else {
            assert(i / 2 == s.len());
            assert(i % 2 == i - 2 * s.len());
        }
    }
    assert(enc16(s.push(x)) =~= enc16(s) + le16(x));
}

pub proof fn lemma_enc32_push(s: Seq<u32>, x: u32)
    ensures
        enc32(s.push(x)) == enc32(s) + le32(x),
{
    assert forall|i: int| 0 <= i < 4 * s.len() + 4 implies #[trigger] enc32(s.push(x))[i] == (enc32(
        s,
    ) + le32(x))[i] by {
        if i < 4 * s.len() {
            assert(i / 4 < s.len());
        } else {
            assert(i / 4 == s.len());
            assert(i % 4 == i - 4 * s.len());
        }
    }
    assert(enc32(s.push(x)) =~= enc32(s) + le32(x));
}

/// `n` as a `usize`, clamped to the largest one.
pub(crate) fn to_usize(n: u64) -> (r: usize)
    ensures
        r == clamp_usize(n as int),
{
    if n <= usize::MAX as u64 {
        n as usize
    } else {
        usize::MAX
    }
}

/// Append the two bytes of `x`.
pub(crate) fn push_u16(out: &mut Vec<u8>, x: u16)
    ensures
        final(out)@ == old(out)@ + le16(x),
{
    out.push((x % 256) as u8);
    out.push((x / 256) as u8);
    assert(out@ =~= old(out)@ + le16(x));
}

/// Append the four bytes of `x`.
pub(crate) fn push_u32(out: &mut Vec<u8>, x: u32)
    ensures
        final(out)@ == old(out)@ + le32(x),
{
    push_u16(out, (x % 65536) as u16);
    push_u16(out, (x / 65536) as u16);
    assert(out@ =~= old(out)@ + le32(x));
}

/// Append the eight bytes of `x`.
pub(crate) fn push_u64(out: &mut Vec<u8>, x: u64)
    ensures
        final(out)@ == old(out)@ + le64(x),
{
    push_u32(out, (x % 0x1_0000_0000) as u32);
    push_u32(out, (x / 0x1_0000_0000) as u32);
    assert(out@ =~= old(out)@ + le64(x));
}

/// Append a whole byte string.
pub(crate) fn push_bytes(out: &mut Vec<u8>, bytes: &[u8])
    ensures
        final(out)@ == old(out)@ + bytes@,
{
    let n: usize = bytes.len();
    let mut i: usize = 0;
    while i < n
        invariant
            n == bytes@.len(),
            i <= n,
            out@ == old(out)@ + bytes@.subrange(0, i as int),
        decreases n - i,
    {
        out.push(bytes[i]);
        i = i + 1;
        assert(bytes@.subrange(0, i as int) =~= bytes@.subrange(0, i - 1).push(bytes@[i - 1]));
        assert(out@ =~= old(out)@ + bytes@.subrange(0, i as int));
    }
    assert(bytes@.subrange(0, n as int) =~= bytes@);
}

/// Read the 16-bit integer at `off`.
pub(crate) fn get_u16(b: &[u8], off: usize) -> (r: u16)
    requires
        off + 2 <= b@.len(),
    ensures
        r == at16(b@, off as int),
{
    b[off] as u16 + 256 * (b[off + 1] as u16)
}

/// Read the 32-bit integer at `off`.
pub(crate) fn get_u32(b: &[u8], off: usize) -> (r: u32)
    requires
        off + 4 <= b@.len(),
    ensures
        r == at32(b@, off as int),
{
    assert(off + 4 <= b.len());
    get_u16(b, off) as u32 + 65536 * (get_u16(b, off + 2) as u32)
}

/// Read the 64-bit integer at `off`.
pub(crate) fn get_u64(b: &[u8], off: usize) -> (r: u64)
    requires
        off + 8 <= b@.len(),
    ensures
        r == at64(b@, off as int),
{
    assert(off + 8 <= b.len());
    get_u32(b, off) as u64 + 0x1_0000_0000 * (get_u32(b, off + 4) as u64)
}

/// The part of `b` from `lo` up to `hi`.
pub(crate) fn slice_of(b: &[u8], lo: usize, hi: usize) -> (r: &[u8])
    requires
        lo <= hi <= b@.len(),
    ensures
        r@ == b@.subrange(lo as int, hi as int),
{
    vstd::slice::slice_subrange(b, lo, hi)
}

} // verus!
