use roaring_postings::bitmap::BitmapContainer;
use roaring_postings::ferro_compress_bridge::{
    compress_container, decompress_container, BitcompCodec, BitcompError, DefaultBitcompCodec,
    FerroBitcompCodec, IdentityBitcompCodec,
};
use roaring_postings::BITMAP_CONTAINER_WORDS;

fn make_container() -> BitmapContainer {
    let mut bm = BitmapContainer::new();
    for k in [0u16, 1, 31, 32, 100, 4096, 65535] {
        bm.insert(k);
    }
    bm
}

#[test]
fn identity_round_trip() {
    let bm = make_container();
    let codec = IdentityBitcompCodec;
    let bytes = compress_container(&bm, &codec).unwrap();
    assert_eq!(bytes.len(), BITMAP_CONTAINER_WORDS * 4);
    let parsed = decompress_container(&bytes, &codec).unwrap();
    assert_eq!(parsed, bm);
}

#[test]
fn identity_rejects_short_input() {
    let codec = IdentityBitcompCodec;
    let res = codec.compress(&[0u32; 10]);
    assert!(matches!(res, Err(BitcompError::LengthMismatch { .. })));
}

#[test]
fn identity_rejects_bad_decompress_size() {
    let codec = IdentityBitcompCodec;
    let mut out = [0u32; BITMAP_CONTAINER_WORDS];
    let res = codec.decompress(&[0u8; 100], &mut out);
    assert!(matches!(res, Err(BitcompError::NotContainerSized { .. })));
}

#[test]
fn identity_round_trip_random_words() {
    // Deterministic pseudo-random fill (fixed seed): xorshift.
    let mut bm = BitmapContainer::new();
    let mut state: u64 = 0xdead_beef_cafe_babe;
    for _ in 0..2000 {
        state ^= state << 13;
        state ^= state >> 7;
        state ^= state << 17;
        let key = (state as u32) % 65536;
        bm.insert(key as u16);
    }
    let codec = IdentityBitcompCodec;
    let bytes = compress_container(&bm, &codec).unwrap();
    let parsed = decompress_container(&bytes, &codec).unwrap();
    assert_eq!(parsed, bm);
}

#[test]
fn identity_zero_container_round_trip() {
    let bm = BitmapContainer::new();
    let codec = IdentityBitcompCodec;
    let bytes = compress_container(&bm, &codec).unwrap();
    // Pure zero bytes — no padding tricks.
    assert!(bytes.iter().all(|&b| b == 0));
    let parsed = decompress_container(&bytes, &codec).unwrap();
    assert_eq!(parsed, bm);
}

#[test]
fn identity_full_container_round_trip() {
    let mut bm = BitmapContainer::new();
    for k in 0u32..65_536 {
        bm.insert(k as u16);
    }
    assert_eq!(bm.cardinality(), 65_536);
    let codec = IdentityBitcompCodec;
    let bytes = compress_container(&bm, &codec).unwrap();
    let parsed = decompress_container(&bytes, &codec).unwrap();
    assert_eq!(parsed, bm);
}

#[test]
fn default_codec_is_identity_without_feature() {
    // The default codec passes the words through.
    let bm = make_container();
    let codec = DefaultBitcompCodec::default();
    let bytes = compress_container(&bm, &codec).unwrap();
    let parsed = decompress_container(&bytes, &codec).unwrap();
    assert_eq!(parsed, bm);
}

#[test]
fn default_codec_is_ferro_bitcomp_with_feature() {
    // With the compressing codec enabled, every call is refused so far.
    let bm = make_container();
    let codec = DefaultBitcompCodec::with_ferro_compress(true);
    let res = compress_container(&bm, &codec);
    assert_eq!(res, Err(BitcompError::WaitingOnWave6));
}

#[test]
fn ferro_codec_short_circuits_until_wave6() {
    let codec = FerroBitcompCodec;
    let bm = make_container();
    let res = compress_container(&bm, &codec);
    assert_eq!(res, Err(BitcompError::WaitingOnWave6));
}

#[test]
fn ferro_codec_decompress_short_circuits() {
    let codec = FerroBitcompCodec;
    let mut out = [0u32; BITMAP_CONTAINER_WORDS];
    let res = codec.decompress(&[0u8; 4], &mut out);
    assert_eq!(res, Err(BitcompError::WaitingOnWave6));
}

#[test]
fn identity_bytes_are_little_endian_words() {
    let mut bm = BitmapContainer::new();
    bm.insert(33);
    let bytes = compress_container(&bm, &IdentityBitcompCodec).unwrap();
    assert_eq!(&bytes[0..8], &[0, 0, 0, 0, 2, 0, 0, 0]);
}

#[test]
fn identity_errors_name_the_lengths() {
    let codec = IdentityBitcompCodec;
    assert_eq!(
        codec.compress(&[0u32; 10]),
        Err(BitcompError::LengthMismatch { expected: 2048, got: 10 })
    );
    let mut out = [7u32; BITMAP_CONTAINER_WORDS];
    assert_eq!(
        codec.decompress(&[0u8; 100], &mut out),
        Err(BitcompError::NotContainerSized { got: 100 })
    );
    assert!(out.iter().all(|&w| w == 7));
}
