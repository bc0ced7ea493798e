//! Every error, the input that gives it, and its message.

use tokfold_core::{CompressError, Compressor, Config, DecompressError};

fn refused(config: Config, input: &[u8]) -> CompressError {
    Compressor::new(config).compress(input).unwrap_err()
}

#[test]
fn every_compress_error_has_its_message() {
    let error = refused(Config::default(), b"{\"a\":1,}");
    assert!(matches!(error, CompressError::InvalidJson { byte_offset: 7, .. }));
    assert_eq!(
        error.message(),
        "invalid JSON at byte 7: expected string key after ','"
    );

    let error = refused(Config::builder().max_input_bytes(4).build(), b"[1,2]");
    assert_eq!(error.message(), "input 5 bytes exceeds limit 4");

    let error = refused(Config::builder().max_depth(2).build(), b"[[[]]]");
    assert_eq!(error.message(), "nesting depth 3 exceeds limit 2");

    let error = refused(Config::default(), b"\"\xFF\"");
    assert_eq!(error.message(), "input is not valid UTF-8");
}

#[test]
fn the_size_is_checked_before_the_encoding_and_the_encoding_before_the_syntax() {
    let small = || Config::builder().max_input_bytes(1).build();
    assert!(matches!(
        refused(small(), b"\xFF\xFF"),
        CompressError::InputTooLarge { size: 2, limit: 1 }
    ));
    assert!(matches!(
        refused(Config::default(), b"{\xFF"),
        CompressError::NotUtf8
    ));
}

#[test]
fn every_decompress_error_has_its_message() {
    let c = Compressor::new(Config::default());
    let archive = c.compress(b"[1,2]").unwrap().archive;
    let with = |at: usize, byte: u8| {
        let mut changed = archive.clone();
        changed[at] = byte;
        c.decompress(&changed).unwrap_err()
    };

    assert_eq!(with(0, b'X'), DecompressError::BadMagic);
    assert_eq!(with(0, b'X').message(), "not a recognized payload (bad magic)");
    assert_eq!(
        with(4, 9),
        DecompressError::UnsupportedVersion { found: 9, supported: 1 }
    );
    assert_eq!(with(4, 9).message(), "format version 9 > supported 1");
    assert_eq!(with(5, 2), DecompressError::Corrupt { byte_offset: 5 });
    assert_eq!(with(5, 2).message(), "payload corrupted at byte 5");
    assert_eq!(with(9, 0x80), DecompressError::ReservedBitsSet);
    assert_eq!(with(9, 0x80).message(), "reserved header bits are not zero");
    let last = archive.len() - 1;
    assert_eq!(with(last, b'}'), DecompressError::ChecksumMismatch);
    assert_eq!(with(last, b'}').message(), "integrity checksum mismatch");
}

#[test]
fn a_header_field_that_ends_early_is_named() {
    let c = Compressor::new(Config::default());
    let archive = c.compress(b"[1,2]").unwrap().archive;
    for (len, byte_offset) in [(4, 4), (5, 5), (7, 6), (9, 8), (10, 10), (42, 11)] {
        assert_eq!(
            c.decompress(&archive[..len]).unwrap_err(),
            DecompressError::Corrupt { byte_offset },
            "{len} bytes"
        );
    }
}
