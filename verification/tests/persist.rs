use roaring_postings::cht::ChtKey;
use roaring_postings::persist::{
    read_and_validate_file_header, read_and_validate_file_trailer, read_chtkey, tmp_path_for,
    write_chtkey, write_file_header, write_file_trailer, ByteReader, LoadError,
    CHTKEY_HEADER_BYTES, FILE_HEADER_BYTES, FILE_TRAILER_BYTES, HASH_FN_FXHASHER_V1, MAGIC_END,
    MAGIC_V1, MAGIC_V2, MAGIC_V3, WIRE_VERSION,
};
use roaring_postings::segment_id::SegmentId;

#[test]
fn magic_constants_match_ascii_text() {
    // The constants are documented to be the LE-bytes of the
    // ASCII strings — this test pins that contract because
    // operators may want to grep dump files in hex viewers.
    assert_eq!(MAGIC_V1.to_le_bytes(), *b"FCV1");
    assert_eq!(MAGIC_V2.to_le_bytes(), *b"FCV2");
    assert_eq!(MAGIC_V3.to_le_bytes(), *b"FCV3");
    assert_eq!(MAGIC_END.to_le_bytes(), *b"ENDV");
}

#[test]
fn file_header_roundtrip() {
    let mut buf: Vec<u8> = Vec::new();
    write_file_header(&mut buf, MAGIC_V3, 42);
    assert_eq!(buf.len(), FILE_HEADER_BYTES);
    let mut cur = ByteReader::new(&buf);
    let n = read_and_validate_file_header(&mut cur, MAGIC_V3).unwrap();
    assert_eq!(n, 42);
}

#[test]
fn file_header_wrong_magic_rejected() {
    let mut buf: Vec<u8> = Vec::new();
    write_file_header(&mut buf, MAGIC_V2, 0);
    let mut cur = ByteReader::new(&buf);
    let err = read_and_validate_file_header(&mut cur, MAGIC_V3).unwrap_err();
    match err {
        LoadError::WrongMagic { expected, got } => {
            assert_eq!(expected, MAGIC_V3);
            assert_eq!(got, MAGIC_V2);
        }
        other => panic!("expected WrongMagic, got {other:?}"),
    }
}

#[test]
fn file_header_version_mismatch_rejected() {
    // Manually write a header with version != WIRE_VERSION.
    let mut buf: Vec<u8> = Vec::new();
    buf.extend_from_slice(&MAGIC_V3.to_le_bytes());
    buf.extend_from_slice(&999u32.to_le_bytes()); // version
    buf.extend_from_slice(&HASH_FN_FXHASHER_V1.to_le_bytes());
    buf.extend_from_slice(&0u64.to_le_bytes());
    buf.extend_from_slice(&0u32.to_le_bytes());
    let mut cur = ByteReader::new(&buf);
    let err = read_and_validate_file_header(&mut cur, MAGIC_V3).unwrap_err();
    match err {
        LoadError::VersionMismatch { expected, got } => {
            assert_eq!(expected, WIRE_VERSION);
            assert_eq!(got, 999);
        }
        other => panic!("expected VersionMismatch, got {other:?}"),
    }
}

#[test]
fn file_header_hash_function_mismatch_rejected() {
    let mut buf: Vec<u8> = Vec::new();
    buf.extend_from_slice(&MAGIC_V3.to_le_bytes());
    buf.extend_from_slice(&WIRE_VERSION.to_le_bytes());
    buf.extend_from_slice(&999u32.to_le_bytes()); // hash_function
    buf.extend_from_slice(&0u64.to_le_bytes());
    buf.extend_from_slice(&0u32.to_le_bytes());
    let mut cur = ByteReader::new(&buf);
    let err = read_and_validate_file_header(&mut cur, MAGIC_V3).unwrap_err();
    match err {
        LoadError::HashFunctionMismatch { expected, got } => {
            assert_eq!(expected, HASH_FN_FXHASHER_V1);
            assert_eq!(got, 999);
        }
        other => panic!("expected HashFunctionMismatch, got {other:?}"),
    }
}

#[test]
fn file_header_truncated_rejected() {
    // Only 4 bytes (= magic only).
    let buf = MAGIC_V3.to_le_bytes().to_vec();
    let mut cur = ByteReader::new(&buf);
    let err = read_and_validate_file_header(&mut cur, MAGIC_V3).unwrap_err();
    assert!(matches!(err, LoadError::TruncatedDump { .. }));
}

#[test]
fn file_trailer_roundtrip() {
    let mut buf: Vec<u8> = Vec::new();
    write_file_trailer(&mut buf);
    assert_eq!(buf.len(), FILE_TRAILER_BYTES);
    let mut cur = ByteReader::new(&buf);
    read_and_validate_file_trailer(&mut cur).unwrap();
}

#[test]
fn file_trailer_bad_magic_rejected() {
    let mut buf: Vec<u8> = Vec::new();
    buf.extend_from_slice(&0xDEAD_BEEFu32.to_le_bytes());
    let mut cur = ByteReader::new(&buf);
    let err = read_and_validate_file_trailer(&mut cur).unwrap_err();
    match err {
        LoadError::BadEndMagic { expected, got } => {
            assert_eq!(expected, MAGIC_END);
            assert_eq!(got, 0xDEAD_BEEF);
        }
        other => panic!("expected BadEndMagic, got {other:?}"),
    }
}

#[test]
fn chtkey_roundtrip() {
    let original = ChtKey {
        segment_id: SegmentId {
            value: 0x0123_4567_89ab_cdef_fedc_ba98_7654_3210,
        },
        field: 0x1234_5678,
        term_hash: 0xCAFE_BABE_DEAD_BEEFu64,
    };
    let mut buf: Vec<u8> = Vec::new();
    write_chtkey(&mut buf, &original);
    assert_eq!(buf.len(), CHTKEY_HEADER_BYTES);
    let mut cur = ByteReader::new(&buf);
    let parsed = read_chtkey(&mut cur, 0).unwrap();
    assert_eq!(parsed, original);
}

#[test]
fn chtkey_invalid_hex_rejected() {
    let mut buf: Vec<u8> = vec![b'Z'; 32]; // non-hex chars
    buf.extend_from_slice(&0u32.to_le_bytes());
    buf.extend_from_slice(&0u64.to_le_bytes());
    let mut cur = ByteReader::new(&buf);
    let err = read_chtkey(&mut cur, 7).unwrap_err();
    match err {
        LoadError::InvalidSegmentId { entry_index, .. } => {
            assert_eq!(entry_index, 7);
        }
        other => panic!("expected InvalidSegmentId, got {other:?}"),
    }
}

#[test]
fn tmp_path_for_appends_tmp_suffix() {
    let p = "/data/cht/cht_v3.bin";
    let tmp = tmp_path_for(p);
    assert_eq!(tmp, "/data/cht/cht_v3.bin.tmp");
}

#[test]
fn header_and_trailer_without_entries_read_back() {
    // The bytes of a dump without entries: header and trailer, read back in full.
    let final_path = "/data/cht/cht_test.bin";
    let mut buf: Vec<u8> = Vec::new();
    write_file_header(&mut buf, MAGIC_V1, 0);
    write_file_trailer(&mut buf);
    assert_eq!(buf.len(), FILE_HEADER_BYTES + FILE_TRAILER_BYTES);
    assert_ne!(tmp_path_for(final_path), final_path);
    let mut reader = ByteReader::new(&buf);
    let n = read_and_validate_file_header(&mut reader, MAGIC_V1).unwrap();
    assert_eq!(n, 0);
    read_and_validate_file_trailer(&mut reader).unwrap();
}
