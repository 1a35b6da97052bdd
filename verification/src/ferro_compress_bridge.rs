//! Codecs for bitmap containers.
//!
//! A codec turns the 2048 words of a bitmap container into bytes and back, so that the
//! stored form and the form in memory can differ. The passthrough codec is always
//! there; the compressing codec is a stub that refuses every call until the compressor
//! is wired in.

use vstd::prelude::*;

use crate::wire;

use crate::bitmap::BitmapContainer;
use crate::wire::{get_u32, push_u32};
use crate::BITMAP_CONTAINER_WORDS;

verus! {

/// Errors of codecs.
#[derive(Debug, PartialEq, Eq)]
pub enum BitcompError {
    /// The input is not the words of one container.
    LengthMismatch {
        /// Words expected.
        expected: usize,
        /// Words given.
        got: usize,
    },
    /// The compressing codec is selected, but the compressor is not wired in.
    WaitingOnWave6,
    /// The compressed form does not stand for one container.
    NotContainerSized {
        /// Bytes given.
        got: usize,
    },
    /// Any other failure.
    CodecFailure(String),
}

/// A codec for the words of bitmap containers.
///
/// What a codec may answer is given by two relations, and whatever it compressed it
/// must decompress to the same words.
pub trait BitcompCodec {
    /// The codec may answer `r` when asked to compress `raw`.
    spec fn compressed(&self, raw: Seq<u32>, r: Result<Vec<u8>, BitcompError>) -> bool;

    /// When asked to decompress `bytes` into an array that held `before`, the codec may
    /// leave `after` and fail with `e`, or succeed where that is `None`.
    spec fn decompressed(
        &self,
        bytes: Seq<u8>,
        before: Seq<u32>,
        after: Seq<u32>,
        e: Option<BitcompError>,
    ) -> bool;

    /// Decompressing what was compressed gives the words back.
    proof fn lemma_round_trip(
        &self,
        raw: Seq<u32>,
        bytes: Vec<u8>,
        before: Seq<u32>,
        after: Seq<u32>,
        e: Option<BitcompError>,
    )
        requires
            raw.len() == 2048,
            before.len() == 2048,
        ensures
            self.compressed(raw, Ok(bytes)) && self.decompressed(bytes@, before, after, e) ==> e
                is None && after == raw,
    ;

    /// Compress the words of a container.
    fn compress(&self, raw_bitmap: &[u32]) -> (r: Result<Vec<u8>, BitcompError>)
        ensures
            self.compressed(raw_bitmap@, r),
    ;

    /// Decompress into the words of a container.
    fn decompress(&self, compressed: &[u8], out: &mut [u32; BITMAP_CONTAINER_WORDS]) -> (r: Result<
        (),
        BitcompError,
    >)
        ensures
            self.decompressed(
                compressed@,
                old(out)@,
                final(out)@,
                match r {
                    Ok(_) => None,
                    Err(e) => Some(e),
                },
            ),
    ;
}

/// The words of an empty container.
pub open spec fn blank() -> Seq<u32> {
    Seq::new(2048, |i: int| 0u32)
}

/// Compress a container.
pub fn compress_container<C: BitcompCodec>(container: &BitmapContainer, codec: &C) -> (r: Result<
    Vec<u8>,
    BitcompError,
>)
    ensures
        codec.compressed(container.words@, r),
{
    codec.compress(container.words.as_slice())
}

/// Decompress a container.
pub fn decompress_container<C: BitcompCodec>(compressed: &[u8], codec: &C) -> (r: Result<
    BitmapContainer,
    BitcompError,
>)
    ensures
        match r {
            Ok(bm) => codec.decompressed(compressed@, blank(), bm.words@, None),
            Err(e) => exists|after: Seq<u32>| #[trigger]
                codec.decompressed(compressed@, blank(), after, Some(e)),
        },
{
    let mut out: [u32; BITMAP_CONTAINER_WORDS] = [0u32; BITMAP_CONTAINER_WORDS];
    assert(out@ =~= blank());
    match codec.decompress(compressed, &mut out) {
        Ok(()) => Ok(BitmapContainer::from_words(Box::new(out))),
        Err(e) => Err(e),
    }
}

/// A container that was compressed decompresses to the same words.
pub proof fn lemma_container_round_trip<C: BitcompCodec>(
    codec: &C,
    container: BitmapContainer,
    bytes: Vec<u8>,
    after: Seq<u32>,
    e: Option<BitcompError>,
)
    requires
        codec.compressed(container.words@, Ok(bytes)),
        codec.decompressed(bytes@, blank(), after, e),
    ensures
        e is None,
        after == container.words@,
{
    codec.lemma_round_trip(container.words@, bytes, blank(), after, e);
}

/// Passthrough codec: the words as little-endian bytes.
#[derive(Debug, Clone, Copy)]
pub struct IdentityBitcompCodec;

impl Default for IdentityBitcompCodec {
    fn default() -> (r: Self)
        ensures
            r == IdentityBitcompCodec,
    {
        IdentityBitcompCodec
    }
}

impl BitcompCodec for IdentityBitcompCodec {
    open spec fn compressed(&self, raw: Seq<u32>, r: Result<Vec<u8>, BitcompError>) -> bool {
        if raw.len() != 2048 {
            r == Err::<Vec<u8>, BitcompError>(
                BitcompError::LengthMismatch {
                    expected: BITMAP_CONTAINER_WORDS,
                    got: raw.len() as usize,
                },
            )
        } else {
            r matches Ok(bytes) && bytes@ == wire::enc32(raw)
        }
    }

    open spec fn decompressed(
        &self,
        bytes: Seq<u8>,
        before: Seq<u32>,
        after: Seq<u32>,
        e: Option<BitcompError>,
    ) -> bool {
        if bytes.len() != 8192 {
            e == Some(BitcompError::NotContainerSized { got: bytes.len() as usize }) && after
                == before
        } else {
            e is None && after == Seq::new(2048, |i: int| wire::at32(bytes, 4 * i))
        }
    }

    proof fn lemma_round_trip(
        &self,
        raw: Seq<u32>,
        bytes: Vec<u8>,
        before: Seq<u32>,
        after: Seq<u32>,
        e: Option<BitcompError>,
    ) {
        let b = wire::enc32(raw);
        assert(b.subrange(0, b.len() as int) =~= b);
        wire::lemma_holds(b, 0, b);
        let back = Seq::new(2048, |i: int| wire::at32(b, 4 * i));
        assert forall|i: int| 0 <= i < 2048 implies back[i] == raw[i] by {
            wire::lemma_enc32_at(b, 0, raw, i);
        }
        assert(back =~= raw);
    }

    fn compress(&self, raw_bitmap: &[u32]) -> (r: Result<Vec<u8>, BitcompError>) {
        let n: usize = raw_bitmap.len();
        if n != BITMAP_CONTAINER_WORDS {
            return Err(BitcompError::LengthMismatch { expected: BITMAP_CONTAINER_WORDS, got: n });
        }
        let mut out: Vec<u8> = Vec::new();
        let mut i: usize = 0;
        assert(out@ =~= wire::enc32(raw_bitmap@.take(0)));
        while i < n
            invariant
                n == raw_bitmap@.len(),
                i <= n,
                out@ == wire::enc32(raw_bitmap@.take(i as int)),
            decreases n - i,
        {
            push_u32(&mut out, raw_bitmap[i]);
            proof {
                wire::lemma_enc32_push(raw_bitmap@.take(i as int), raw_bitmap@[i as int]);
                assert(raw_bitmap@.take(i as int).push(raw_bitmap@[i as int])
                    =~= raw_bitmap@.take(i + 1));
            }
            i = i + 1;
        }
        assert(raw_bitmap@.take(n as int) =~= raw_bitmap@);
        Ok(out)
    }

    fn decompress(&self, compressed: &[u8], out: &mut [u32; BITMAP_CONTAINER_WORDS]) -> (r: Result<
        (),
        BitcompError,
    >) {
        if compressed.len() != 4 * BITMAP_CONTAINER_WORDS {
            return Err(BitcompError::NotContainerSized { got: compressed.len() });
        }
        let mut i: usize = 0;
        while i < BITMAP_CONTAINER_WORDS
            invariant
                compressed@.len() == 8192,
                i <= 2048,
                forall|j: int| 0 <= j < i ==> out@[j] == #[trigger] wire::at32(compressed@, 4 * j),
            decreases 2048 - i,
        {
            out[i] = get_u32(compressed, 4 * i);
            i = i + 1;
        }
        assert(out@ =~= Seq::new(2048, |i: int| wire::at32(compressed@, 4 * i)));
        Ok(())
    }
}

/// Compressing codec. Every call is refused until the compressor is wired in.
#[derive(Debug, Clone, Copy)]
pub struct FerroBitcompCodec;

impl Default for FerroBitcompCodec {
    fn default() -> (r: Self)
        ensures
            r == FerroBitcompCodec,
    {
        FerroBitcompCodec
    }
}

impl BitcompCodec for FerroBitcompCodec {
    open spec fn compressed(&self, raw: Seq<u32>, r: Result<Vec<u8>, BitcompError>) -> bool {
        r == Err::<Vec<u8>, BitcompError>(BitcompError::WaitingOnWave6)
    }

    open spec fn decompressed(
        &self,
        bytes: Seq<u8>,
        before: Seq<u32>,
        after: Seq<u32>,
        e: Option<BitcompError>,
    ) -> bool {
        e == Some(BitcompError::WaitingOnWave6) && after == before
    }

    proof fn lemma_round_trip(
        &self,
        raw: Seq<u32>,
        bytes: Vec<u8>,
        before: Seq<u32>,
        after: Seq<u32>,
        e: Option<BitcompError>,
    ) {
    }

    fn compress(&self, raw_bitmap: &[u32]) -> (r: Result<Vec<u8>, BitcompError>) {
        Err(BitcompError::WaitingOnWave6)
    }

    fn decompress(&self, compressed: &[u8], out: &mut [u32; BITMAP_CONTAINER_WORDS]) -> (r: Result<
        (),
        BitcompError,
    >) {
        Err(BitcompError::WaitingOnWave6)
    }
}

/// The codec of a build: the compressing one where it is enabled, else the
/// passthrough.
#[derive(Debug, Clone, Copy)]
pub enum DefaultBitcompCodec {
    /// Passthrough.
    Identity(IdentityBitcompCodec),
    /// Compressing.
    Ferro(FerroBitcompCodec),
}

impl DefaultBitcompCodec {
    /// The codec of a build with or without the compressing codec.
    pub fn with_ferro_compress(enabled: bool) -> (r: Self)
        ensures
            r == (if enabled {
                DefaultBitcompCodec::Ferro(FerroBitcompCodec)
            } else {
                DefaultBitcompCodec::Identity(IdentityBitcompCodec)
            }),
    {
        if enabled {
            DefaultBitcompCodec::Ferro(FerroBitcompCodec)
        } else {
            DefaultBitcompCodec::Identity(IdentityBitcompCodec)
        }
    }
}

impl Default for DefaultBitcompCodec {
    fn default() -> (r: Self)
        ensures
            r == DefaultBitcompCodec::Identity(IdentityBitcompCodec),
    {
        DefaultBitcompCodec::with_ferro_compress(false)
    }
}

impl BitcompCodec for DefaultBitcompCodec {
    open spec fn compressed(&self, raw: Seq<u32>, r: Result<Vec<u8>, BitcompError>) -> bool {
        match self {
            DefaultBitcompCodec::Identity(c) => c.compressed(raw, r),
            DefaultBitcompCodec::Ferro(c) => c.compressed(raw, r),
        }
    }

    open spec fn decompressed(
        &self,
        bytes: Seq<u8>,
        before: Seq<u32>,
        after: Seq<u32>,
        e: Option<BitcompError>,
    ) -> bool {
        match self {
            DefaultBitcompCodec::Identity(c) => c.decompressed(bytes, before, after, e),
            DefaultBitcompCodec::Ferro(c) => c.decompressed(bytes, before, after, e),
        }
    }

    proof fn lemma_round_trip(
        &self,
        raw: Seq<u32>,
        bytes: Vec<u8>,
        before: Seq<u32>,
        after: Seq<u32>,
        e: Option<BitcompError>,
    ) {
        match self {
            DefaultBitcompCodec::Identity(c) => c.lemma_round_trip(raw, bytes, before, after, e),
            DefaultBitcompCodec::Ferro(c) => c.lemma_round_trip(raw, bytes, before, after, e),
        }
    }

    fn compress(&self, raw_bitmap: &[u32]) -> (r: Result<Vec<u8>, BitcompError>) {
        match self {
            DefaultBitcompCodec::Identity(c) => c.compress(raw_bitmap),
            DefaultBitcompCodec::Ferro(c) => c.compress(raw_bitmap),
        }
    }

    fn decompress(&self, compressed: &[u8], out: &mut [u32; BITMAP_CONTAINER_WORDS]) -> (r: Result<
        (),
        BitcompError,
    >) {
        match self {
            DefaultBitcompCodec::Identity(c) => c.decompress(compressed, out),
            DefaultBitcompCodec::Ferro(c) => c.decompress(compressed, out),
        }
    }
}

} // verus!
