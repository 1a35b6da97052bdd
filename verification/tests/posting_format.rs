use roaring_postings::encoder::RoaringEncoder;
use roaring_postings::posting_format::{PostingFormat, PostingFormatDispatch};
use roaring_postings::BITMAP_CONTAINER_WORDS;

#[test]
fn posting_format_default_is_bitpacker() {
    assert_eq!(PostingFormat::default(), PostingFormat::BitPacker4x);
}

#[test]
fn posting_format_tag_round_trip() {
    for fmt in [PostingFormat::BitPacker4x, PostingFormat::Roaring] {
        let parsed = PostingFormat::from_tag(fmt.tag()).unwrap();
        assert_eq!(parsed, fmt);
    }
}

#[test]
fn posting_format_unknown_tag_is_none() {
    assert!(PostingFormat::from_tag(0x42).is_none());
    assert!(PostingFormat::from_tag(0xFF).is_none());
}

#[test]
fn posting_format_is_default() {
    assert!(PostingFormat::BitPacker4x.is_default());
    assert!(!PostingFormat::Roaring.is_default());
}

#[test]
fn dispatch_legacy_is_bitpacker() {
    let d = PostingFormatDispatch::legacy();
    assert_eq!(d.format, PostingFormat::BitPacker4x);
}

#[test]
fn dispatch_roaring() {
    let d = PostingFormatDispatch::roaring();
    assert_eq!(d.format, PostingFormat::Roaring);
}

#[test]
fn dispatch_detect_roaring_magic() {
    let p = RoaringEncoder::from_doc_ids(&[1, 2, 3]);
    let bytes = p.to_bytes();
    assert_eq!(
        PostingFormatDispatch::detect(&bytes),
        PostingFormat::Roaring
    );
}

#[test]
fn dispatch_detect_bitpacker_default() {
    let bytes = [0xAB, 0xCD, 0xEF, 0x12, 0x34];
    assert_eq!(
        PostingFormatDispatch::detect(&bytes),
        PostingFormat::BitPacker4x
    );
}

#[test]
fn dispatch_detect_short_input_is_bitpacker() {
    // Anything smaller than the magic must default to BitPacker4x
    // so empty / partial bodies don't accidentally promote.
    assert_eq!(
        PostingFormatDispatch::detect(&[]),
        PostingFormat::BitPacker4x
    );
    assert_eq!(
        PostingFormatDispatch::detect(b"R"),
        PostingFormat::BitPacker4x
    );
}

#[test]
fn bitmap_container_words_constant() {
    assert_eq!(BITMAP_CONTAINER_WORDS, 2048);
}

#[test]
fn tags_are_stable() {
    assert_eq!(PostingFormat::BitPacker4x.tag(), 0);
    assert_eq!(PostingFormat::Roaring.tag(), 1);
}
