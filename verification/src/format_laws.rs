//! The byte formats, field by field.
//!
//! All numbers are written with the lowest byte first. Each law says at which offset a
//! field of an encoding stands and what it holds there.

use vstd::prelude::*;

use crate::array;
use crate::bitmap;
use crate::compressed_record;
use crate::container;
use crate::run;
use crate::wire;

use crate::container::Contents;
use crate::error::ContainerError;
use crate::run::Run;

verus! {

/// The two bytes at `i`, lowest first.
pub open spec fn num2(b: Seq<u8>, i: int) -> int {
    b[i] + 256 * b[i + 1]
}

/// The four bytes at `i`, lowest first.
pub open spec fn num4(b: Seq<u8>, i: int) -> int {
    b[i] + 256 * b[i + 1] + 65536 * b[i + 2] + 16_777_216 * b[i + 3]
}

/// The eight bytes at `i`, lowest first.
pub open spec fn num8(b: Seq<u8>, i: int) -> int {
    num4(b, i) + 4_294_967_296 * num4(b, i + 4)
}

/// Reading a number takes its bytes lowest first.
pub proof fn lemma_numbers_read(b: Seq<u8>, i: int)
    ensures
        wire::at16(b, i) == num2(b, i),
        wire::at32(b, i) == num4(b, i),
        wire::at64(b, i) == num8(b, i),
{
    lemma_read4(b, i);
    lemma_read4(b, i + 4);
}

pub(crate) proof fn lemma_read4(b: Seq<u8>, i: int)
    ensures
        wire::at16(b, i) == num2(b, i),
        wire::at32(b, i) == num4(b, i),
{
    assert(wire::at16(b, i) == b[i] + 256 * b[i + 1]);
    assert(wire::at16(b, i + 2) == b[i + 2] + 256 * b[i + 3]);
}

/// Writing a number puts its lowest byte first.
pub proof fn lemma_numbers_written(x: u16, y: u32, z: u64)
    ensures
        wire::le16(x).len() == 2,
        num2(wire::le16(x), 0) == x,
        wire::le32(y).len() == 4,
        num4(wire::le32(y), 0) == y,
        wire::le64(z).len() == 8,
        num8(wire::le64(z), 0) == z,
{
    lemma_written4(y);
    let low = (z % 0x1_0000_0000) as u32;
    let high = (z / 0x1_0000_0000) as u32;
    lemma_written4(low);
    lemma_written4(high);
    let b = wire::le64(z);
    assert(b =~= wire::le32(low) + wire::le32(high));
    assert(num4(b, 0) == num4(wire::le32(low), 0));
    assert(num4(b, 4) == num4(wire::le32(high), 0));
}

pub(crate) proof fn lemma_written4(y: u32)
    ensures
        wire::le32(y).len() == 4,
        num4(wire::le32(y), 0) == y,
{
    let low = (y % 65536) as u16;
    let high = (y / 65536) as u16;
    let b = wire::le32(y);
    assert(b[0] == wire::le16(low)[0] && b[1] == wire::le16(low)[1]);
    assert(b[2] == wire::le16(high)[0] && b[3] == wire::le16(high)[1]);
}

/// A list of 16-bit numbers takes two bytes for each, in order; one of 32-bit numbers four.
pub proof fn lemma_number_lists_written(s: Seq<u16>, t: Seq<u32>)
    ensures
        wire::enc16(s).len() == 2 * s.len(),
        forall|i: int| 0 <= i < s.len() ==> num2(wire::enc16(s), 2 * i) == #[trigger] s[i],
        wire::enc32(t).len() == 4 * t.len(),
        forall|i: int| 0 <= i < t.len() ==> num4(wire::enc32(t), 4 * i) == #[trigger] t[i],
{
    assert forall|i: int| 0 <= i < s.len() implies num2(wire::enc16(s), 2 * i)
        == #[trigger] s[i] by {
        let b = wire::enc16(s);
        assert((2 * i) / 2 == i && (2 * i) % 2 == 0 && (2 * i + 1) / 2 == i && (2 * i + 1) % 2
            == 1);
        assert(b[2 * i] == wire::le16(s[i])[0]);
        assert(b[2 * i + 1] == wire::le16(s[i])[1]);
        lemma_numbers_written(s[i], 0, 0);
    }
    assert forall|i: int| 0 <= i < t.len() implies num4(wire::enc32(t), 4 * i)
        == #[trigger] t[i] by {
        let b = wire::enc32(t);
        assert((4 * i) / 4 == i && (4 * i) % 4 == 0);
        assert((4 * i + 1) / 4 == i && (4 * i + 1) % 4 == 1);
        assert((4 * i + 2) / 4 == i && (4 * i + 2) % 4 == 2);
        assert((4 * i + 3) / 4 == i && (4 * i + 3) % 4 == 3);
        assert(b[4 * i] == wire::le32(t[i])[0]);
        assert(b[4 * i + 1] == wire::le32(t[i])[1]);
        assert(b[4 * i + 2] == wire::le32(t[i])[2]);
        assert(b[4 * i + 3] == wire::le32(t[i])[3]);
        lemma_written4(t[i]);
    }
}

/// A length that does not fit a machine word is reported as the largest that does.
pub proof fn lemma_lengths_clamped(n: int)
    requires
        n >= 0,
    ensures
        n <= usize::MAX ==> wire::clamp_usize(n) == n,
        n > usize::MAX ==> wire::clamp_usize(n) == usize::MAX,
        n <= u32::MAX ==> compressed_record::clamp32(n) == n,
        n > u32::MAX ==> compressed_record::clamp32(n) == u32::MAX,
{
}

/// The bytes of an array: the number of keys in four, then two for each key.
pub proof fn lemma_array_layout(keys: Seq<u16>)
    requires
        keys.len() <= u32::MAX,
    ensures
        array::array_bytes(keys).len() == 4 + 2 * keys.len(),
        num4(array::array_bytes(keys), 0) == keys.len(),
        forall|i: int|
            0 <= i < keys.len() ==> num2(array::array_bytes(keys), 4 + 2 * i) == #[trigger] keys[i],
{
    let b = array::array_bytes(keys);
    let n = keys.len() as u32;
    lemma_written4(n);
    lemma_number_lists_written(keys, Seq::empty());
    assert(b =~= wire::le32(n) + wire::enc16(keys));
    assert(num4(b, 0) == num4(wire::le32(n), 0));
    assert forall|i: int| 0 <= i < keys.len() implies num2(b, 4 + 2 * i) == #[trigger] keys[i] by {
        assert(b[4 + 2 * i] == wire::enc16(keys)[2 * i]);
        assert(b[4 + 2 * i + 1] == wire::enc16(keys)[2 * i + 1]);
    }
}

/// The bytes of a run container: the number of runs in two, then for each run its start in
/// two and its number of keys less one in two.
pub proof fn lemma_runs_layout(runs: Seq<Run>)
    ensures
        run::run_bytes(runs).len() == 2 + 4 * runs.len(),
        num2(run::run_bytes(runs), 0) == if runs.len() <= 65535 {
            runs.len() as int
        } else {
            65535
        },
        forall|i: int|
            0 <= i < runs.len() ==> num2(run::run_bytes(runs), 2 + 4 * i) == (
            #[trigger] runs[i]).start && num2(run::run_bytes(runs), 4 + 4 * i) == (
            if runs[i].length == 0 {
                65535int
            } else {
                runs[i].length - 1
            }),
{
    let b = run::run_bytes(runs);
    let n = if runs.len() <= 65535 {
        runs.len() as u16
    } else {
        65535u16
    };
    lemma_numbers_written(n, 0, 0);
    assert(b =~= wire::le16(n) + run::enc_runs(runs));
    assert(b[0] == wire::le16(n)[0] && b[1] == wire::le16(n)[1]);
    assert forall|i: int| 0 <= i < runs.len() implies num2(b, 2 + 4 * i) == (
    #[trigger] runs[i]).start && num2(b, 4 + 4 * i) == (if runs[i].length == 0 {
        65535int
    } else {
        runs[i].length - 1
    }) by {
        let e = run::enc_runs(runs);
        let r = runs[i];
        assert((4 * i) / 4 == i && (4 * i) % 4 == 0);
        assert((4 * i + 1) / 4 == i && (4 * i + 1) % 4 == 1);
        assert((4 * i + 2) / 4 == i && (4 * i + 2) % 4 == 2);
        assert((4 * i + 3) / 4 == i && (4 * i + 3) % 4 == 3);
        let s = wire::le16(r.start) + wire::le16(run::wire_length(r));
        assert(e[4 * i] == s[0] && e[4 * i + 1] == s[1] && e[4 * i + 2] == s[2] && e[4 * i + 3]
            == s[3]);
        assert(b[2 + 4 * i] == e[4 * i]);
        assert(b[2 + 4 * i + 1] == e[4 * i + 1]);
        assert(b[4 + 4 * i] == e[4 * i + 2]);
        assert(b[4 + 4 * i + 1] == e[4 * i + 3]);
        lemma_numbers_written(r.start, 0, 0);
        lemma_numbers_written(run::wire_length(r), 0, 0);
    }
}

/// The bytes of a container: a tag, 1 for an array, 2 for a bitmap and 3 for runs, then
/// what it holds; a bitmap is its words in order, four bytes each.
pub proof fn lemma_container_layout(c: Contents)
    ensures
        c matches Contents::Array(keys) ==> container::container_bytes(c) == seq![1u8]
            + array::array_bytes(keys),
        c matches Contents::Bitmap(words) ==> {
            &&& container::container_bytes(c).len() == 1 + 4 * words.len()
            &&& container::container_bytes(c)[0] == 2
            &&& forall|i: int|
                0 <= i < words.len() ==> num4(container::container_bytes(c), 1 + 4 * i)
                    == #[trigger] words[i]
        },
        c matches Contents::Run(runs) ==> container::container_bytes(c) == seq![3u8]
            + run::run_bytes(runs),
{
    match c {
        Contents::Array(keys) => {
            assert(container::container_bytes(c) == seq![1u8] + array::array_bytes(keys));
        },
        Contents::Bitmap(words) => {
            lemma_tagged_words(words);
            assert(container::container_bytes(c) == seq![2u8] + wire::enc32(words));
        },
        Contents::Run(runs) => {
            assert(container::container_bytes(c) == seq![3u8] + run::run_bytes(runs));
        },
    }
}

proof fn lemma_tagged_words(words: Seq<u32>)
    ensures
        ({
            let b = seq![2u8] + wire::enc32(words);
            &&& b.len() == 1 + 4 * words.len()
            &&& b[0] == 2
            &&& forall|i: int| 0 <= i < words.len() ==> num4(b, 1 + 4 * i) == #[trigger] words[i]
        }),
{
    lemma_number_lists_written(Seq::empty(), words);
    let e = wire::enc32(words);
    assert forall|i: int| 0 <= i < words.len() implies num4(seq![2u8] + e, 1 + 4 * i)
        == #[trigger] words[i] by {
        lemma_behind(seq![2u8], e, 4 * i);
    }
}

/// A number behind other bytes is read at its offset behind them.
pub(crate) proof fn lemma_behind(front: Seq<u8>, b: Seq<u8>, i: int)
    requires
        0 <= i,
    ensures
        i + 2 <= b.len() ==> num2(front + b, front.len() + i) == num2(b, i),
        i + 4 <= b.len() ==> num4(front + b, front.len() + i) == num4(b, i),
        i + 8 <= b.len() ==> num8(front + b, front.len() + i) == num8(b, i),
{
}

/// A number in front of other bytes is read at its own offset.
pub(crate) proof fn lemma_ahead(b: Seq<u8>, tail: Seq<u8>, i: int)
    requires
        0 <= i,
    ensures
        i + 2 <= b.len() ==> num2(b + tail, i) == num2(b, i),
        i + 4 <= b.len() ==> num4(b + tail, i) == num4(b, i),
        i + 8 <= b.len() ==> num8(b + tail, i) == num8(b, i),
{
}

/// Reading an array: the bytes must hold the number of keys and the keys, and each key must
/// be less than the next; then the keys are what stands there.
pub proof fn lemma_array_read(b: Seq<u8>)
    requires
        b.len() <= usize::MAX,
    ensures
        b.len() < 4 ==> array::parse_array(b) == Err::<Seq<u16>, ContainerError>(
            ContainerError::Truncated { needed: 4, got: b.len() as usize },
        ),
        4 <= b.len() < 4 + 2 * num4(b, 0) ==> array::parse_array(b) == Err::<
            Seq<u16>,
            ContainerError,
        >(
            ContainerError::Truncated {
                needed: if 4 + 2 * num4(b, 0) <= usize::MAX {
                    (4 + 2 * num4(b, 0)) as usize
                } else {
                    usize::MAX
                },
                got: b.len() as usize,
            },
        ),
        b.len() >= 4 && b.len() >= 4 + 2 * num4(b, 0) ==> match array::parse_array(b) {
            Ok(keys) => {
                &&& keys.len() == num4(b, 0)
                &&& forall|i: int| 0 <= i < keys.len() ==> #[trigger] keys[i] == num2(b, 4 + 2 * i)
                &&& forall|i: int| 0 <= i < keys.len() - 1 ==> #[trigger] keys[i] < keys[i + 1]
            },
            Err(e) => e == ContainerError::ArrayUnsorted && exists|i: int, j: int|
                0 <= i < j < num4(b, 0) && #[trigger] num2(b, 4 + 2 * i) >= #[trigger] num2(
                    b,
                    4 + 2 * j,
                ),
        },
{
    if b.len() >= 4 {
        lemma_read4(b, 0);
        let keys = Seq::new(wire::at32(b, 0) as nat, |i: int| wire::at16(b, 4 + 2 * i));
        assert forall|i: int| 0 <= i < keys.len() implies #[trigger] keys[i] == num2(
            b,
            4 + 2 * i,
        ) by {
            lemma_read4(b, 4 + 2 * i);
        }
        crate::set_laws::lemma_ascending_by_neighbours(keys);
        if b.len() >= 4 + 2 * num4(b, 0) && !crate::keyset::increasing(keys) {
            let (i, j) = choose|i: int, j: int|
                0 <= i < j < keys.len() && !(keys[i] < keys[j]);
            assert(keys[i] >= keys[j]);
            assert(num2(b, 4 + 2 * i) >= num2(b, 4 + 2 * j));
        }
    }
}

/// Reading a bitmap takes 2048 words of four bytes; with fewer bytes it is refused.
pub proof fn lemma_bitmap_read(b: Seq<u8>)
    ensures
        b.len() < 8192 ==> bitmap::parse_bitmap(b) == Err::<Seq<u32>, ContainerError>(
            ContainerError::Truncated { needed: 8192, got: b.len() as usize },
        ),
        b.len() >= 8192 ==> {
            &&& bitmap::parse_bitmap(b) matches Ok(words)
            &&& words.len() == 2048
            &&& forall|i: int| 0 <= i < 2048 ==> #[trigger] words[i] == num4(b, 4 * i)
        },
{
    if b.len() >= 8192 {
        let words = bitmap::parse_bitmap(b)->Ok_0;
        assert forall|i: int| 0 <= i < 2048 implies #[trigger] words[i] == num4(b, 4 * i) by {
            lemma_read4(b, 4 * i);
        }
    }
}

/// Reading runs: the bytes must hold the number of runs and the runs, each with its start
/// and its number of keys less one, and the runs must be in order within the bucket.
pub proof fn lemma_runs_read(b: Seq<u8>)
    requires
        b.len() <= usize::MAX,
    ensures
        b.len() < 2 ==> run::parse_runs(b) == Err::<Seq<Run>, ContainerError>(
            ContainerError::Truncated { needed: 2, got: b.len() as usize },
        ),
        2 <= b.len() < 2 + 4 * num2(b, 0) ==> run::parse_runs(b) == Err::<
            Seq<Run>,
            ContainerError,
        >(
            ContainerError::Truncated {
                needed: (2 + 4 * num2(b, 0)) as usize,
                got: b.len() as usize,
            },
        ),
        b.len() >= 2 && b.len() >= 2 + 4 * num2(b, 0) ==> ({
            let runs = Seq::new(
                num2(b, 0) as nat,
                |i: int|
                    Run {
                        start: num2(b, 2 + 4 * i) as u16,
                        length: ((num2(b, 4 + 4 * i) + 1) % 65536) as u16,
                    },
            );
            run::parse_runs(b) == if run::runs_wf(runs) {
                Ok::<Seq<Run>, ContainerError>(runs)
            } else {
                Err(ContainerError::RunInvariantViolation)
            }
        }),
{
    if b.len() >= 2 {
        lemma_read4(b, 0);
        let runs = Seq::new(
            num2(b, 0) as nat,
            |i: int|
                Run {
                    start: num2(b, 2 + 4 * i) as u16,
                    length: ((num2(b, 4 + 4 * i) + 1) % 65536) as u16,
                },
        );
        let seen = Seq::new(wire::at16(b, 0) as nat, |i: int| run::run_at(b, 2 + 4 * i));
        assert forall|i: int| 0 <= i < seen.len() implies #[trigger] seen[i] == runs[i] by {
            lemma_read4(b, 2 + 4 * i);
            lemma_read4(b, 4 + 4 * i);
        }
        assert(seen =~= runs);
    }
}

/// Reading a container goes by its tag and takes as many bytes as the container needs: what
/// was read is a container whose bytes are those that were taken, and an unknown tag is
/// refused.
pub proof fn lemma_container_read(b: Seq<u8>)
    requires
        b.len() <= usize::MAX,
    ensures
        b.len() == 0 ==> container::parse_container(b) == Err::<(Contents, usize), ContainerError>(
            ContainerError::Truncated { needed: 1, got: 0 },
        ),
        b.len() > 0 && b[0] != 1 && b[0] != 2 && b[0] != 3 ==> container::parse_container(b)
            == Err::<(Contents, usize), ContainerError>(ContainerError::UnknownTag(b[0])),
        b.len() > 0 && b[0] == 1 ==> match container::parse_container(b) {
            Ok((c, used)) => used == 5 + 2 * num4(b, 1) && used <= b.len() && c is Array
                && array::parse_array(b.skip(1)) == Ok::<Seq<u16>, ContainerError>(c->Array_0),
            Err(e) => match array::parse_array(b.skip(1)) {
                Err(ContainerError::Truncated { needed, got }) => e matches
                    ContainerError::Truncated { needed: more, got: had } && had == b.len() && (
                needed < usize::MAX ==> more == needed + 1),
                Err(other) => e == other,
                Ok(_) => false,
            },
        },
        b.len() > 0 && b[0] == 2 ==> if b.len() < 8193 {
            container::parse_container(b) == Err::<(Contents, usize), ContainerError>(
                ContainerError::Truncated { needed: 8193, got: b.len() as usize },
            )
        } else {
            container::parse_container(b) matches Ok((c, used)) && used == 8193 && c is Bitmap
                && bitmap::parse_bitmap(b.skip(1)) == Ok::<Seq<u32>, ContainerError>(c->Bitmap_0)
        },
        b.len() > 0 && b[0] == 3 ==> match container::parse_container(b) {
            Ok((c, used)) => used == 3 + 4 * num2(b, 1) && used <= b.len() && c is Run
                && run::parse_runs(b.skip(1)) == Ok::<Seq<Run>, ContainerError>(c->Run_0),
            Err(e) => match run::parse_runs(b.skip(1)) {
                Err(ContainerError::Truncated { needed, got }) => e
                    == (ContainerError::Truncated {
                    needed: (needed + 1) as usize,
                    got: b.len() as usize,
                }),
                Err(other) => e == other,
                Ok(_) => false,
            },
        },
{
    if b.len() > 0 {
        let t = b.skip(1);
        if b[0] == 1 {
            if b.len() >= 5 {
                lemma_read4(b, 1);
                lemma_read4(t, 0);
                assert(num4(t, 0) == num4(b, 1));
                let total = 5 + 2 * wire::at32(b, 1);
                if b.len() >= total {
                    let u = b.subrange(1, total);
                    lemma_read4(u, 0);
                    assert(num4(u, 0) == num4(b, 1));
                    let ku = Seq::new(wire::at32(u, 0) as nat, |i: int| wire::at16(u, 4 + 2 * i));
                    let kt = Seq::new(wire::at32(t, 0) as nat, |i: int| wire::at16(t, 4 + 2 * i));
                    assert(ku =~= kt);
                }
            }
        } else if b[0] == 2 {
            if b.len() >= 8193 {
                let u = b.subrange(1, 8193);
                assert(Seq::new(2048, |i: int| wire::at32(u, 4 * i)) =~= Seq::new(
                    2048,
                    |i: int| wire::at32(t, 4 * i),
                ));
            }
        } else if b[0] == 3 {
            if b.len() >= 3 {
                lemma_read4(b, 1);
                lemma_read4(t, 0);
                assert(num2(t, 0) == num2(b, 1));
                let total = 3 + 4 * wire::at16(b, 1);
                if b.len() >= total {
                    let u = b.subrange(1, total);
                    lemma_read4(u, 0);
                    assert(num2(u, 0) == num2(b, 1));
                    let ku = Seq::new(wire::at16(u, 0) as nat, |i: int| run::run_at(u, 2 + 4 * i));
                    let kt = Seq::new(wire::at16(t, 0) as nat, |i: int| run::run_at(t, 2 + 4 * i));
                    assert(ku =~= kt);
                }
            }
        }
    }
}

} // verus!
