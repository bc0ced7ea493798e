//! Why compression or decompression refused an input.
//!
//! A refused compression is always recoverable: the caller forwards the input as it is. A
//! refused decompression is not, and never gives a best guess.

use crate::text::{decimal, push_str, push_usize};
use vstd::prelude::*;
use vstd::utf8::encode_utf8;

verus! {

/// Why [`Compressor::compress`](crate::Compressor::compress) refused an input.
#[derive(Debug, Clone)]
#[non_exhaustive]
pub enum CompressError {
    /// The input is not valid JSON.
    InvalidJson {
        /// Byte offset of the first problem.
        byte_offset: usize,
        /// What was expected there.
        msg: String,
    },
    /// The input is larger than the configured limit.
    InputTooLarge {
        /// Size of the input in bytes.
        size: usize,
        /// The limit it exceeds.
        limit: usize,
    },
    /// The input nests deeper than the configured limit.
    DepthExceeded {
        /// The depth that was reached.
        depth: usize,
        /// The limit it exceeds.
        limit: usize,
    },
    /// The input is not UTF-8.
    NotUtf8,
}

/// Why [`Compressor::decompress`](crate::Compressor::decompress) refused an archive.
#[derive(Debug, Clone, Copy, PartialEq, Eq, Structural)]
#[non_exhaustive]
pub enum DecompressError {
    /// The archive does not start with the format's magic bytes.
    BadMagic,
    /// The archive declares a format version this build does not read.
    UnsupportedVersion {
        /// The version the archive declares.
        found: u16,
        /// The version this build reads.
        supported: u16,
    },
    /// The archive is truncated or structurally malformed.
    Corrupt {
        /// Byte offset of the first problem.
        byte_offset: usize,
    },
    /// The payload does not hash to the recorded checksum.
    ChecksumMismatch,
    /// A reserved flag bit is set.
    ReservedBitsSet,
}

/// The message for an input that is not valid JSON.
pub open spec fn invalid_json_text(byte_offset: nat, msg: Seq<char>) -> Seq<u8> {
    encode_utf8("invalid JSON at byte "@) + decimal(byte_offset) + encode_utf8(": "@) + encode_utf8(
        msg,
    )
}

/// The message for an input that is too large.
pub open spec fn too_large_text(size: nat, limit: nat) -> Seq<u8> {
    encode_utf8("input "@) + decimal(size) + encode_utf8(" bytes exceeds limit "@) + decimal(limit)
}

/// The message for an input that nests too deep.
pub open spec fn too_deep_text(depth: nat, limit: nat) -> Seq<u8> {
    encode_utf8("nesting depth "@) + decimal(depth) + encode_utf8(" exceeds limit "@) + decimal(
        limit,
    )
}

/// The message for an input that is not UTF-8.
pub open spec fn not_utf8_text() -> Seq<u8> {
    encode_utf8("input is not valid UTF-8"@)
}

impl CompressError {
    /// What to tell a user, as UTF-8.
    pub open spec fn text(self) -> Seq<u8> {
        match self {
            CompressError::InvalidJson { byte_offset, msg } => invalid_json_text(
                byte_offset as nat,
                msg@,
            ),
            CompressError::InputTooLarge { size, limit } => too_large_text(
                size as nat,
                limit as nat,
            ),
            CompressError::DepthExceeded { depth, limit } => too_deep_text(
                depth as nat,
                limit as nat,
            ),
            CompressError::NotUtf8 => not_utf8_text(),
        }
    }

    /// What to tell a user.
    pub fn message(&self) -> (message: String)
        ensures
            encode_utf8(message@) == self.text(),
    {
        let mut out = String::new();
        proof {
            assert(encode_utf8(Seq::<char>::empty()) =~= Seq::<u8>::empty());
        }
        match self {
            CompressError::InvalidJson { byte_offset, msg } => {
                push_str(&mut out, "invalid JSON at byte ");
                push_usize(&mut out, *byte_offset);
                push_str(&mut out, ": ");
                push_str(&mut out, msg.as_str());
            },
            CompressError::InputTooLarge { size, limit } => {
                push_str(&mut out, "input ");
                push_usize(&mut out, *size);
                push_str(&mut out, " bytes exceeds limit ");
                push_usize(&mut out, *limit);
            },
            CompressError::DepthExceeded { depth, limit } => {
                push_str(&mut out, "nesting depth ");
                push_usize(&mut out, *depth);
                push_str(&mut out, " exceeds limit ");
                push_usize(&mut out, *limit);
            },
            CompressError::NotUtf8 => {
                push_str(&mut out, "input is not valid UTF-8");
            },
        }
        proof {
            assert(encode_utf8(out@) =~= self.text());
        }
        out
    }
}

impl DecompressError {
    /// What to tell a user, as UTF-8.
    pub open spec fn text(self) -> Seq<u8> {
        match self {
            DecompressError::BadMagic => encode_utf8("not a recognized payload (bad magic)"@),
            DecompressError::UnsupportedVersion { found, supported } => encode_utf8(
                "format version "@,
            ) + decimal(found as nat) + encode_utf8(" > supported "@) + decimal(supported as nat),
            DecompressError::Corrupt { byte_offset } => encode_utf8("payload corrupted at byte "@)
                + decimal(byte_offset as nat),
            DecompressError::ChecksumMismatch => encode_utf8("integrity checksum mismatch"@),
            DecompressError::ReservedBitsSet => encode_utf8("reserved header bits are not zero"@),
        }
    }

    /// What to tell a user.
    pub fn message(&self) -> (message: String)
        ensures
            encode_utf8(message@) == self.text(),
    {
        let mut out = String::new();
        proof {
            assert(encode_utf8(Seq::<char>::empty()) =~= Seq::<u8>::empty());
        }
        match self {
            DecompressError::BadMagic => {
                push_str(&mut out, "not a recognized payload (bad magic)");
            },
            DecompressError::UnsupportedVersion { found, supported } => {
                push_str(&mut out, "format version ");
                push_usize(&mut out, *found as usize);
                push_str(&mut out, " > supported ");
                push_usize(&mut out, *supported as usize);
            },
            DecompressError::Corrupt { byte_offset } => {
                push_str(&mut out, "payload corrupted at byte ");
                push_usize(&mut out, *byte_offset);
            },
            DecompressError::ChecksumMismatch => {
                push_str(&mut out, "integrity checksum mismatch");
            },
            DecompressError::ReservedBitsSet => {
                push_str(&mut out, "reserved header bits are not zero");
            },
        }
        proof {
            assert(encode_utf8(out@) =~= self.text());
        }
        out
    }
}

/// What a user is told of a refused input, word for word, with the numbers in decimal.
pub proof fn law_refusals_are_worded(offset: usize, msg: String, size: usize, limit: usize)
    ensures
        (CompressError::InvalidJson { byte_offset: offset, msg }).text() == encode_utf8(
            "invalid JSON at byte "@,
        ) + decimal(offset as nat) + encode_utf8(": "@) + encode_utf8(msg@),
        (CompressError::InputTooLarge { size, limit }).text() == encode_utf8("input "@) + decimal(
            size as nat,
        ) + encode_utf8(" bytes exceeds limit "@) + decimal(limit as nat),
        (CompressError::DepthExceeded { depth: size, limit }).text() == encode_utf8("nesting depth "@)
            + decimal(size as nat) + encode_utf8(" exceeds limit "@) + decimal(limit as nat),
        CompressError::NotUtf8.text() == encode_utf8("input is not valid UTF-8"@),
{
}

/// What a user is told of a refused archive, word for word, with the numbers in decimal.
pub proof fn law_archive_refusals_are_worded(found: u16, supported: u16, offset: usize)
    ensures
        DecompressError::BadMagic.text() == encode_utf8("not a recognized payload (bad magic)"@),
        (DecompressError::UnsupportedVersion { found, supported }).text() == encode_utf8(
            "format version "@,
        ) + decimal(found as nat) + encode_utf8(" > supported "@) + decimal(supported as nat),
        (DecompressError::Corrupt { byte_offset: offset }).text() == encode_utf8(
            "payload corrupted at byte "@,
        ) + decimal(offset as nat),
        DecompressError::ChecksumMismatch.text() == encode_utf8("integrity checksum mismatch"@),
        DecompressError::ReservedBitsSet.text() == encode_utf8("reserved header bits are not zero"@),
{
}

} // verus!
