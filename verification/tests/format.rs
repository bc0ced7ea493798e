//! The archive header: fields, varints, truncation, and the checksum.

use tokfold_core::error::DecompressError;
use tokfold_core::format::{
    sha256, verify_checksum, Flags, Header, CHECKSUM_LEN, ENCODER_ID_OFFSET, FLAGS_OFFSET, MAGIC,
    ORIGINAL_LEN_OFFSET, TOKENIZER_ID_OFFSET, ULEB128_MAX_BYTES, VERSION, VERSION_OFFSET,
};

fn checksum_ramp() -> [u8; CHECKSUM_LEN] {
    let mut c = [0u8; CHECKSUM_LEN];
    for (i, b) in c.iter_mut().enumerate() {
        *b = u8::try_from(i).unwrap();
    }
    c
}

fn header_bytes() -> Vec<u8> {
    let mut out = Vec::new();
    Header::new(0, 0, Flags::default(), 0, [0u8; CHECKSUM_LEN]).encode_into(&mut out);
    out
}

fn passthrough_archive(original: &[u8]) -> Vec<u8> {
    let header = Header::new(
        0,
        0,
        Flags::default(),
        u64::try_from(original.len()).unwrap(),
        sha256(original),
    );
    let mut out = Vec::new();
    header.encode_into(&mut out);
    out.extend_from_slice(original);
    out
}

fn archive_with_len_bytes(len_bytes: &[u8]) -> Vec<u8> {
    let mut out = Vec::new();
    out.extend_from_slice(&MAGIC);
    out.push(VERSION);
    out.push(0);
    out.extend_from_slice(&0u16.to_le_bytes());
    out.extend_from_slice(&0u16.to_le_bytes());
    out.extend_from_slice(len_bytes);
    out.extend_from_slice(&[0u8; CHECKSUM_LEN]);
    out
}

fn decode_full(archive: &[u8]) -> Result<Vec<u8>, DecompressError> {
    let (header, offset) = Header::decode(archive)?;
    if header.encoder_id != 0 {
        return Err(DecompressError::Corrupt {
            byte_offset: ENCODER_ID_OFFSET,
        });
    }
    if header.tokenizer_id != 0 {
        return Err(DecompressError::Corrupt {
            byte_offset: TOKENIZER_ID_OFFSET,
        });
    }
    if header.flags != Flags::default() {
        return Err(DecompressError::Corrupt {
            byte_offset: FLAGS_OFFSET,
        });
    }
    let Some(payload) = archive.get(offset..) else {
        return Err(DecompressError::Corrupt {
            byte_offset: offset,
        });
    };
    let expected_len =
        usize::try_from(header.original_len).map_err(|_| DecompressError::Corrupt {
            byte_offset: ORIGINAL_LEN_OFFSET,
        })?;
    if payload.len() != expected_len {
        return Err(DecompressError::ChecksumMismatch);
    }
    verify_checksum(&header.checksum, payload)?;
    Ok(payload.to_vec())
}

#[test]
fn roundtrip_all_fields() {
    let checksum = checksum_ramp();
    let flags = Flags {
        has_sidecar: true,
        truncation_tolerated: true,
        segment_lossy: true,
    };
    let header = Header::new(2, 0xBEEF, flags, 300_000, checksum);

    let mut buf = Vec::new();
    header.encode_into(&mut buf);
    let (decoded, payload_start) = Header::decode(&buf).unwrap();

    assert_eq!(decoded, header);
    assert_eq!(payload_start, buf.len());
    assert_eq!(decoded.encoder_id, 2);
    assert_eq!(decoded.tokenizer_id, 0xBEEF);
    assert_eq!(decoded.flags, flags);
    assert_eq!(decoded.original_len, 300_000);
    assert_eq!(decoded.checksum, checksum);
}

#[test]
fn encoding_is_bit_stable() {
    let header = Header::new(1, 7, Flags::default(), 42, checksum_ramp());
    let mut a = Vec::new();
    let mut b = Vec::new();
    header.encode_into(&mut a);
    header.encode_into(&mut b);
    assert_eq!(a, b);
}

#[test]
fn decode_returns_payload_offset() {
    let original = b"payload-bytes-here";
    let archive = passthrough_archive(original);
    let (header, offset) = Header::decode(&archive).unwrap();
    assert_eq!(header.original_len, u64::try_from(original.len()).unwrap());
    assert_eq!(&archive[offset..], original);
}

#[test]
fn roundtrip_varint_boundaries() {
    for &len in &[
        0u64,
        1,
        127,
        128,
        16_383,
        16_384,
        2_097_151,
        2_097_152,
        u64::from(u32::MAX),
        u64::MAX,
    ] {
        let header = Header::new(1, 0, Flags::default(), len, [0u8; CHECKSUM_LEN]);
        let mut buf = Vec::new();
        header.encode_into(&mut buf);
        let (decoded, _) = Header::decode(&buf).unwrap();
        assert_eq!(decoded.original_len, len, "len {len} did not round-trip");
    }
}

#[test]
fn bad_magic_rejected() {
    let mut corrupted = header_bytes();
    corrupted[0] ^= 0xFF;
    assert!(matches!(
        Header::decode(&corrupted),
        Err(DecompressError::BadMagic)
    ));
    assert!(matches!(
        Header::decode(b""),
        Err(DecompressError::BadMagic)
    ));
    assert!(matches!(
        Header::decode(b"TKF"),
        Err(DecompressError::BadMagic)
    ));
    assert!(matches!(
        Header::decode(b"XXXX"),
        Err(DecompressError::BadMagic)
    ));
}

#[test]
fn version_too_new_rejected() {
    let mut two = header_bytes();
    two[VERSION_OFFSET] = 2;
    assert!(matches!(
        Header::decode(&two),
        Err(DecompressError::UnsupportedVersion {
            found: 2,
            supported: 1
        })
    ));

    let mut max = header_bytes();
    max[VERSION_OFFSET] = 255;
    assert!(matches!(
        Header::decode(&max),
        Err(DecompressError::UnsupportedVersion {
            found: 255,
            supported: 1
        })
    ));
}

#[test]
fn version_zero_rejected() {
    let mut zero = header_bytes();
    zero[VERSION_OFFSET] = 0;
    assert!(Header::decode(&zero).is_err());
}

#[test]
fn reserved_bits_rejected() {
    let mut bit3 = header_bytes();
    bit3[FLAGS_OFFSET] |= 0b0000_1000;
    assert!(matches!(
        Header::decode(&bit3),
        Err(DecompressError::ReservedBitsSet)
    ));

    let mut bit15 = header_bytes();
    bit15[FLAGS_OFFSET + 1] |= 0b1000_0000;
    assert!(matches!(
        Header::decode(&bit15),
        Err(DecompressError::ReservedBitsSet)
    ));

    let mut defined = header_bytes();
    defined[FLAGS_OFFSET] |= 0b0000_0111;
    let (header, _) = Header::decode(&defined).unwrap();
    assert!(header.flags.has_sidecar);
    assert!(header.flags.truncation_tolerated);
    assert!(header.flags.segment_lossy);
}

#[test]
fn truncation_rejected_at_every_header_boundary() {
    let full = {
        let mut out = Vec::new();
        Header::new(1, 0x1234, Flags::default(), 0, [7u8; CHECKSUM_LEN]).encode_into(&mut out);
        out
    };
    for len in 0..full.len() {
        assert!(
            Header::decode(&full[..len]).is_err(),
            "prefix of length {len} decoded"
        );
    }
    let (_, offset) = Header::decode(&full).unwrap();
    assert_eq!(offset, full.len());
}

#[test]
fn overlong_leb128_rejected() {
    for len_bytes in [[0x80u8, 0x00], [0x81, 0x00]] {
        let archive = archive_with_len_bytes(&len_bytes);
        assert!(matches!(
            Header::decode(&archive),
            Err(DecompressError::Corrupt { .. })
        ));
    }
}

#[test]
fn leb128_overflow_rejected() {
    let overflow = [0x80u8, 0x80, 0x80, 0x80, 0x80, 0x80, 0x80, 0x80, 0x80, 0x02];
    assert!(matches!(
        Header::decode(&archive_with_len_bytes(&overflow)),
        Err(DecompressError::Corrupt { .. })
    ));

    let never_terminates = [0x80u8, 0x80, 0x80, 0x80, 0x80, 0x80, 0x80, 0x80, 0x80, 0x81];
    assert!(matches!(
        Header::decode(&archive_with_len_bytes(&never_terminates)),
        Err(DecompressError::Corrupt { .. })
    ));

    let all_continue = [0xFFu8; ULEB128_MAX_BYTES];
    assert!(matches!(
        Header::decode(&archive_with_len_bytes(&all_continue)),
        Err(DecompressError::Corrupt { .. })
    ));
}

#[test]
fn checksum_matches_and_mismatches() {
    let data = b"the original bytes";
    let digest = sha256(data);
    assert!(verify_checksum(&digest, data).is_ok());
    assert!(matches!(
        verify_checksum(&digest, b"the original byteS"),
        Err(DecompressError::ChecksumMismatch)
    ));
}

#[test]
fn sha256_known_answer() {
    let expected = [
        0xba, 0x78, 0x16, 0xbf, 0x8f, 0x01, 0xcf, 0xea, 0x41, 0x41, 0x40, 0xde, 0x5d, 0xae,
        0x22, 0x23, 0xb0, 0x03, 0x61, 0xa3, 0x96, 0x17, 0x7a, 0x9c, 0xb4, 0x10, 0xff, 0x61,
        0xf2, 0x00, 0x15, 0xad,
    ];
    assert_eq!(sha256(b"abc"), expected);
}

#[test]
fn empty_original_roundtrips_through_full_decode() {
    let archive = passthrough_archive(b"");
    assert_eq!(decode_full(&archive).unwrap(), Vec::<u8>::new());
}

#[test]
fn any_single_bit_flip_is_rejected() {
    let original = b"hello world";
    let archive = passthrough_archive(original);
    assert_eq!(decode_full(&archive).unwrap(), original);

    for (byte_idx, _) in archive.iter().enumerate() {
        for bit in 0u32..8 {
            let mut flipped = archive.clone();
            flipped[byte_idx] ^= 1u8.wrapping_shl(bit);
            assert!(
                decode_full(&flipped).is_err(),
                "flip at byte {byte_idx} bit {bit} was not rejected"
            );
        }
    }
}
