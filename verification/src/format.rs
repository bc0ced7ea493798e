//! The `TKFD` archive header: encode, decode, integrity checksum.
//!
//! An archive is a fixed-order header followed by the payload:
//!
//! ```text
//! magic[4] | version:u8 | encoder_id:u8 | tokenizer_id:u16 | flags:u16
//!          | original_len:uleb128 | checksum[32] | payload
//! ```
//!
//! Multi-byte integers are little-endian. Every header has exactly one encoding
//! ([`header_bytes`]), and [`Header::decode`] accepts no other: the length is an unsigned
//! LEB128 varint in its shortest form. The checksum is SHA-256 of the original input, so it
//! is verified against the reconstructed input, not here.

use crate::bytes::{push_bytes, same_bytes};
use crate::error::DecompressError;
use sha2::{Digest, Sha256};
use vstd::prelude::*;

verus! {

/// Magic bytes that open every archive: `TKFD`.
pub const MAGIC: [u8; 4] = [0x54, 0x4B, 0x46, 0x44];

/// Format version this build writes, and the only one it reads.
pub const VERSION: u8 = 1;

/// Number of checksum bytes.
pub const CHECKSUM_LEN: usize = 32;

/// Byte offset of the `version` field.
pub const VERSION_OFFSET: usize = 4;

/// Byte offset of the `encoder_id` field.
pub const ENCODER_ID_OFFSET: usize = 5;

/// Byte offset of the little-endian `tokenizer_id` field.
pub const TOKENIZER_ID_OFFSET: usize = 6;

/// Byte offset of the little-endian `flags` field.
pub const FLAGS_OFFSET: usize = 8;

/// Byte offset of the `original_len` varint.
pub const ORIGINAL_LEN_OFFSET: usize = 10;

/// Mask of the reserved `flags` bits, 3 to 15, which must all be zero.
pub const FLAGS_RESERVED_MASK: u16 = 0xFFF8;

/// Most bytes a varint may occupy.
pub const ULEB128_MAX_BYTES: usize = 10;

/// The magic bytes as a sequence.
pub open spec fn magic() -> Seq<u8> {
    seq![0x54u8, 0x4Bu8, 0x46u8, 0x44u8]
}

/// The `flags` field of a header.
#[derive(Debug, Clone, Copy, PartialEq, Eq, Structural)]
pub struct Flags {
    /// Bit 0: a byte-exact sidecar accompanies the archive.
    pub has_sidecar: bool,
    /// Bit 1: the payload may be truncated by a size-limited consumer.
    pub truncation_tolerated: bool,
    /// Bit 2: at least one segment was encoded by a lossy codec.
    pub segment_lossy: bool,
}

impl Default for Flags {
    fn default() -> (flags: Self)
        ensures
            flags.bits() == 0,
    {
        Flags { has_sidecar: false, truncation_tolerated: false, segment_lossy: false }
    }
}

impl Flags {
    /// The flags as the number they are stored as.
    pub open spec fn bits(self) -> int {
        (if self.has_sidecar {
            1int
        } else {
            0int
        }) + (if self.truncation_tolerated {
            2int
        } else {
            0int
        }) + (if self.segment_lossy {
            4int
        } else {
            0int
        })
    }

    /// Packs the flags into the stored `u16`.
    #[must_use]
    pub fn to_bits(self) -> (bits: u16)
        ensures
            bits == self.bits(),
    {
        let mut bits: u16 = 0;
        if self.has_sidecar {
            bits = bits + 1;
        }
        if self.truncation_tolerated {
            bits = bits + 2;
        }
        if self.segment_lossy {
            bits = bits + 4;
        }
        bits
    }

    /// Parses the stored `flags` field: exactly the numbers that [`Flags::to_bits`] gives
    /// are accepted, and any other has a reserved bit set.
    pub fn from_bits(bits: u16) -> (r: Result<Self, DecompressError>)
        ensures
            match r {
                Ok(flags) => flags.bits() == bits,
                Err(e) => e == DecompressError::ReservedBitsSet && bits >= 8,
            },
    {
        assert(bits & FLAGS_RESERVED_MASK != 0 <==> bits >= 8) by (bit_vector);
        if bits & FLAGS_RESERVED_MASK != 0 {
            return Err(DecompressError::ReservedBitsSet);
        }
        assert(bits < 8 ==> ((if bits & 1 != 0 {
            1u16
        } else {
            0u16
        }) + (if bits & 2 != 0 {
            2u16
        } else {
            0u16
        }) + (if bits & 4 != 0 {
            4u16
        } else {
            0u16
        }) == bits)) by (bit_vector);
        Ok(
            Flags {
                has_sidecar: bits & 1 != 0,
                truncation_tolerated: bits & 2 != 0,
                segment_lossy: bits & 4 != 0,
            },
        )
    }
}

/// A decoded header.
#[derive(Debug, Clone, PartialEq, Eq)]
#[non_exhaustive]
pub struct Header {
    /// Which encoder produced the payload.
    pub encoder_id: u8,
    /// The slot reserved for the tokenizer that drove selection.
    pub tokenizer_id: u16,
    /// Optional-feature flags.
    pub flags: Flags,
    /// Byte length of the original input.
    pub original_len: u64,
    /// SHA-256 digest of the original input.
    pub checksum: [u8; 32],
}

/// What a header says.
#[verifier::ext_equal]
pub struct HeaderView {
    pub encoder_id: u8,
    pub tokenizer_id: u16,
    pub flags: Flags,
    pub original_len: u64,
    pub checksum: Seq<u8>,
}

impl View for Header {
    type V = HeaderView;

    open spec fn view(&self) -> HeaderView {
        HeaderView {
            encoder_id: self.encoder_id,
            tokenizer_id: self.tokenizer_id,
            flags: self.flags,
            original_len: self.original_len,
            checksum: self.checksum@,
        }
    }
}

/// A `u16` in little-endian order.
pub open spec fn le16(x: int) -> Seq<u8> {
    seq![(x % 256) as u8, (x / 256) as u8]
}

/// The `u16` that two bytes stand for in little-endian order.
pub open spec fn from_le16(low: u8, high: u8) -> u16 {
    (low + 256 * high) as u16
}

/// The shortest unsigned LEB128 encoding: seven bits to a byte, lowest first, the high bit
/// set on every byte but the last.
pub open spec fn uleb128(value: nat) -> Seq<u8>
    decreases value,
{
    if value < 128 {
        seq![value as u8]
    } else {
        seq![(128 + value % 128) as u8] + uleb128(value / 128)
    }
}

/// The bytes of a header.
pub open spec fn header_bytes(h: HeaderView) -> Seq<u8> {
    magic() + seq![VERSION, h.encoder_id] + le16(h.tokenizer_id as int) + le16(h.flags.bits())
        + uleb128(h.original_len as nat) + h.checksum
}

pub open spec fn corrupt<T>(at: int) -> Result<T, DecompressError> {
    Err(DecompressError::Corrupt { byte_offset: at as usize })
}

/// The varint groups of `a` from the `i`-th on, for a varint that starts at `start`: the
/// number they stand for and the offset past the last one. Each byte gives seven bits; the
/// tenth may hold only the one bit that still fits a `u64`; a last byte of zero that is not
/// the first would be redundant.
pub open spec fn varint(a: Seq<u8>, start: int, i: int) -> Result<(int, int), DecompressError>
    decreases 10 - i,
{
    let at = start + i;
    if i >= 10 || at >= a.len() {
        corrupt(at)
    } else {
        let group = a[at] as int % 128;
        if i == 9 && group > 1 {
            corrupt(at)
        } else if a[at] < 128 {
            if i > 0 && a[at] == 0 {
                corrupt(at)
            } else {
                Ok((group, at + 1))
            }
        } else {
            match varint(a, start, i + 1) {
                Err(e) => Err(e),
                Ok((high, end)) => Ok((group + 128 * high, end)),
            }
        }
    }
}

/// The header that opens `a`, with the offset of the payload; or the first thing wrong with
/// it, field by field.
pub open spec fn header_at(a: Seq<u8>) -> Result<(HeaderView, int), DecompressError> {
    if a.len() < 4 || a.subrange(0, 4) != magic() {
        Err(DecompressError::BadMagic)
    } else if a.len() <= 4 {
        corrupt(4)
    } else if a[4] > VERSION {
        Err(
            DecompressError::UnsupportedVersion { found: a[4] as u16, supported: VERSION as u16 },
        )
    } else if a[4] != VERSION {
        corrupt(4)
    } else if a.len() <= 5 {
        corrupt(5)
    } else if a.len() < 8 {
        corrupt(6)
    } else if a.len() < 10 {
        corrupt(8)
    } else if from_le16(a[8], a[9]) >= 8 {
        Err(DecompressError::ReservedBitsSet)
    } else {
        match varint(a, 10, 0) {
            Err(e) => Err(e),
            Ok((len, after)) => if after + 32 > a.len() {
                corrupt(after)
            } else {
                Ok(
                    (
                        HeaderView {
                            encoder_id: a[5],
                            tokenizer_id: from_le16(a[6], a[7]),
                            flags: flags_of(from_le16(a[8], a[9]) as int),
                            original_len: len as u64,
                            checksum: a.subrange(after, after + 32),
                        },
                        after + 32,
                    ),
                )
            },
        }
    }
}

/// The flags that a number below eight stands for.
pub open spec fn flags_of(bits: int) -> Flags {
    Flags {
        has_sidecar: bits % 2 == 1,
        truncation_tolerated: bits / 2 % 2 == 1,
        segment_lossy: bits / 4 % 2 == 1,
    }
}

impl Header {
    /// Builds a header for encoding.
    #[must_use]
    pub fn new(
        encoder_id: u8,
        tokenizer_id: u16,
        flags: Flags,
        original_len: u64,
        checksum: [u8; 32],
    ) -> (h: Self)
        ensures
            h@ == (HeaderView {
                encoder_id,
                tokenizer_id,
                flags,
                original_len,
                checksum: checksum@,
            }),
    {
        Header { encoder_id, tokenizer_id, flags, original_len, checksum }
    }

    /// Appends the encoded header to `out`. The payload is appended by the caller.
    pub fn encode_into(&self, out: &mut Vec<u8>)
        ensures
            final(out)@ == old(out)@ + header_bytes(self@),
    {
        out.push(MAGIC[0]);
        out.push(MAGIC[1]);
        out.push(MAGIC[2]);
        out.push(MAGIC[3]);
        out.push(VERSION);
        out.push(self.encoder_id);
        push_le16(self.tokenizer_id, out);
        push_le16(self.flags.to_bits(), out);
        let ghost fixed = out@;
        proof {
            assert(fixed =~= old(out)@ + (magic() + seq![VERSION, self.encoder_id] + le16(
                self.tokenizer_id as int,
            ) + le16(self.flags.bits())));
        }
        write_uleb128(self.original_len, out);
        push_bytes(out, self.checksum.as_slice());
        proof {
            assert(out@ =~= old(out)@ + header_bytes(self@));
        }
    }

    /// Decodes the header that opens `archive`, returning it with the offset at which the
    /// payload begins. Only the framing is validated; the checksum is checked once the
    /// payload has been decoded.
    pub fn decode(archive: &[u8]) -> (r: Result<(Self, usize), DecompressError>)
        ensures
            match header_at(archive@) {
                Err(e) => r == Err::<(Self, usize), DecompressError>(e),
                Ok((header, offset)) => r matches Ok((h, o)) && h@ == header && o == offset,
            },
    {
        let ghost a = archive@;
        if archive.len() < 4 || archive[0] != MAGIC[0] || archive[1] != MAGIC[1] || archive[2]
            != MAGIC[2] || archive[3] != MAGIC[3] {
            proof {
                if a.len() >= 4 {
                    let m = a.subrange(0, 4);
                    assert(m[0] == a[0] && m[1] == a[1] && m[2] == a[2] && m[3] == a[3]);
                }
            }
            return Err(DecompressError::BadMagic);
        }
        proof {
            assert(a.subrange(0, 4) =~= magic());
        }
        if archive.len() <= VERSION_OFFSET {
            return Err(DecompressError::Corrupt { byte_offset: VERSION_OFFSET });
        }
        let version: u8 = archive[VERSION_OFFSET];
        if version > VERSION {
            return Err(
                DecompressError::UnsupportedVersion {
                    found: version as u16,
                    supported: VERSION as u16,
                },
            );
        }
        if version != VERSION {
            return Err(DecompressError::Corrupt { byte_offset: VERSION_OFFSET });
        }
        if archive.len() <= ENCODER_ID_OFFSET {
            return Err(DecompressError::Corrupt { byte_offset: ENCODER_ID_OFFSET });
        }
        let encoder_id: u8 = archive[ENCODER_ID_OFFSET];
        if archive.len() < TOKENIZER_ID_OFFSET + 2 {
            return Err(DecompressError::Corrupt { byte_offset: TOKENIZER_ID_OFFSET });
        }
        let tokenizer_id: u16 = read_le16(
            archive[TOKENIZER_ID_OFFSET],
            archive[TOKENIZER_ID_OFFSET + 1],
        );
        if archive.len() < FLAGS_OFFSET + 2 {
            return Err(DecompressError::Corrupt { byte_offset: FLAGS_OFFSET });
        }
        let flag_bits: u16 = read_le16(archive[FLAGS_OFFSET], archive[FLAGS_OFFSET + 1]);
        let flags = match Flags::from_bits(flag_bits) {
            Err(e) => return Err(e),
            Ok(flags) => flags,
        };
        let (original_len, after_len) = match read_uleb128(archive, ORIGINAL_LEN_OFFSET) {
            Err(e) => return Err(e),
            Ok(found) => found,
        };
        if archive.len() - after_len < CHECKSUM_LEN {
            return Err(DecompressError::Corrupt { byte_offset: after_len });
        }
        let mut checksum: [u8; 32] = [0; 32];
        let mut i: usize = 0;
        while i < 32
            invariant
                i <= 32,
                after_len + 32 <= archive@.len() <= usize::MAX,
                forall|k: int| 0 <= k < i ==> checksum@[k] == archive@[after_len + k],
            decreases 32 - i,
        {
            checksum[i] = archive[after_len + i];
            i = i + 1;
        }
        proof {
            assert(checksum@ =~= a.subrange(after_len as int, after_len + 32));
            assert(flags == flags_of(flag_bits as int));
        }
        Ok((Header { encoder_id, tokenizer_id, flags, original_len, checksum }, after_len + 32))
    }
}

/// Append a `u16` in little-endian order.
fn push_le16(x: u16, out: &mut Vec<u8>)
    ensures
        final(out)@ == old(out)@ + le16(x as int),
{
    out.push((x % 256) as u8);
    out.push((x / 256) as u8);
    proof {
        assert(out@ =~= old(out)@ + le16(x as int));
    }
}

/// The `u16` that two bytes stand for in little-endian order.
fn read_le16(low: u8, high: u8) -> (x: u16)
    ensures
        x == from_le16(low, high),
{
    low as u16 + 256 * (high as u16)
}

/// A name for the SHA-256 digest of a message.
pub uninterp spec fn sha256_digest(message: Seq<u8>) -> [u8; 32];

/// The messages that SHA-256 is defined on: fewer than two to the sixty-fourth bits.
pub open spec fn hashable(message: Seq<u8>) -> bool {
    message.len() < 0x2000_0000_0000_0000
}

/// Computes the SHA-256 digest used as an archive's checksum.
///
/// Calls `sha2::Sha256` (`new`, `update`, `finalize`) and claims that the digest depends on
/// the message alone.
#[must_use]
#[verifier::external_body]
pub fn sha256(input: &[u8]) -> (digest: [u8; 32])
    requires
        hashable(input@),
    ensures
        digest == sha256_digest(input@),
{
    let mut hasher = Sha256::new();
    hasher.update(input);
    let mut out = [0u8; 32];
    out.copy_from_slice(hasher.finalize().as_slice());
    out
}

/// Verifies that `original` hashes to `expected`.
pub fn verify_checksum(expected: &[u8; 32], original: &[u8]) -> (r: Result<(), DecompressError>)
    requires
        hashable(original@),
    ensures
        r == (if sha256_digest(original@)@ == expected@ {
            Ok::<(), DecompressError>(())
        } else {
            Err::<(), DecompressError>(DecompressError::ChecksumMismatch)
        }),
{
    let digest = sha256(original);
    if same_bytes(digest.as_slice(), expected.as_slice()) {
        Ok(())
    } else {
        Err(DecompressError::ChecksumMismatch)
    }
}

/// Appends `value` as a varint, in its shortest form.
pub fn write_uleb128(value: u64, out: &mut Vec<u8>)
    ensures
        final(out)@ == old(out)@ + uleb128(value as nat),
{
    let mut rest: u64 = value;
    while rest >= 128
        invariant
            out@ + uleb128(rest as nat) == old(out)@ + uleb128(value as nat),
        decreases rest,
    {
        let ghost before = out@;
        out.push((128 + rest % 128) as u8);
        proof {
            assert(out@ + uleb128((rest / 128) as nat) =~= before + uleb128(rest as nat));
        }
        rest = rest / 128;
    }
    out.push(rest as u8);
    proof {
        assert(out@ =~= old(out)@ + uleb128(value as nat));
    }
}

/// Two to the seventh, `i` times.
spec fn weight_of(i: int) -> int
    decreases i,
{
    if i <= 0 {
        1
    } else {
        128 * weight_of(i - 1)
    }
}

proof fn lemma_weights()
    ensures
        weight_of(0) == 1,
        weight_of(1) == 0x80,
        weight_of(2) == 0x4000,
        weight_of(3) == 0x20_0000,
        weight_of(4) == 0x1000_0000,
        weight_of(5) == 0x8_0000_0000,
        weight_of(6) == 0x400_0000_0000,
        weight_of(7) == 0x2_0000_0000_0000,
        weight_of(8) == 0x100_0000_0000_0000,
        weight_of(9) == 0x8000_0000_0000_0000,
{
    reveal_with_fuel(weight_of, 10);
}

/// Reads a varint starting at `start`, returning the value and the offset just past it.
/// Refuses one that runs off the end of `archive`, one that is longer than need be, and one
/// that does not fit a `u64`.
pub fn read_uleb128(archive: &[u8], start: usize) -> (r: Result<(u64, usize), DecompressError>)
    requires
        start <= archive@.len(),
    ensures
        match varint(archive@, start as int, 0) {
            Err(e) => r == Err::<(u64, usize), DecompressError>(e),
            Ok((value, end)) => r matches Ok((v, e)) && v == value && e == end && e
                <= archive@.len(),
        },
{
    let ghost a = archive@;
    let n: usize = archive.len();
    let mut result: u64 = 0;
    let mut weight: u64 = 1;
    let mut i: usize = 0;
    while i < ULEB128_MAX_BYTES
        invariant
            a == archive@,
            n == a.len(),
            start + i <= n,
            i <= 9,
            weight == weight_of(i as int),
            result < weight,
            match varint(a, start as int, i as int) {
                Err(e) => varint(a, start as int, 0) == Err::<(int, int), DecompressError>(e),
                Ok((high, end)) => varint(a, start as int, 0) == Ok::<
                    (int, int),
                    DecompressError,
                >((result + weight * high, end)),
            },
        decreases 10 - i,
    {
        proof {
            lemma_weights();
        }
        let offset: usize = start + i;
        if offset >= n {
            return Err(DecompressError::Corrupt { byte_offset: offset });
        }
        let byte: u8 = archive[offset];
        let payload: u64 = (byte % 128) as u64;
        if i == 9 && payload > 1 {
            return Err(DecompressError::Corrupt { byte_offset: offset });
        }
        assert(weight * payload <= 127 * 0x100_0000_0000_0000 || (i == 9 && weight * payload
            <= 0x8000_0000_0000_0000)) by {
            if i == 9 {
                assert(weight * payload <= weight) by (nonlinear_arith)
                    requires
                        payload <= 1,
                ;
            } else {
                assert(weight * payload <= 127 * weight) by (nonlinear_arith)
                    requires
                        payload <= 127,
                ;
            }
        }
        let total: u64 = result + weight * payload;
        if byte < 128 {
            if i > 0 && byte == 0 {
                return Err(DecompressError::Corrupt { byte_offset: offset });
            }
            return Ok((total, offset + 1));
        }
        if i == 9 {
            return Err(DecompressError::Corrupt { byte_offset: start + ULEB128_MAX_BYTES });
        }
        proof {
            assert(total < 128 * weight) by (nonlinear_arith)
                requires
                    total == result + weight * payload,
                    result < weight,
                    payload <= 127,
            ;
            if let Ok((high, end)) = varint(a, start as int, i + 1) {
                assert(result + weight * (payload + 128 * high) == total + (128 * weight) * high)
                    by (nonlinear_arith)
                    requires
                        total == result + weight * payload,
                ;
            }
        }
        result = total;
        weight = 128 * weight;
        i = i + 1;
    }
    Err(DecompressError::Corrupt { byte_offset: start + ULEB128_MAX_BYTES })
}

// ---------------------------------------------------------------------------
// Laws
// ---------------------------------------------------------------------------

/// The largest number that the groups of a `u64` varint from the `i`-th on can stand for.
spec fn cap(i: int) -> int
    decreases i,
{
    if i <= 0 {
        u64::MAX as int
    } else {
        cap(i - 1) / 128
    }
}

proof fn lemma_caps()
    ensures
        cap(0) == 0xFFFF_FFFF_FFFF_FFFF,
        cap(1) == 0x1FF_FFFF_FFFF_FFFF,
        cap(2) == 0x3_FFFF_FFFF_FFFF,
        cap(3) == 0x7FF_FFFF_FFFF,
        cap(4) == 0xF_FFFF_FFFF,
        cap(5) == 0x1FFF_FFFF,
        cap(6) == 0x3F_FFFF,
        cap(7) == 0x7FFF,
        cap(8) == 0xFF,
        cap(9) == 1,
{
    reveal_with_fuel(cap, 10);
}

proof fn lemma_varint_reads(a: Seq<u8>, start: int, i: int, value: nat)
    requires
        0 <= start,
        0 <= i <= 9,
        value <= cap(i),
        i > 0 ==> value > 0,
        start + i + uleb128(value).len() <= a.len(),
        a.subrange(start + i, start + i + uleb128(value).len()) == uleb128(value),
    ensures
        varint(a, start, i) == Ok::<(int, int), DecompressError>(
            (value as int, start + i + uleb128(value).len()),
        ),
    decreases value,
{
    lemma_caps();
    let part = a.subrange(start + i, start + i + uleb128(value).len());
    assert(part[0] == a[start + i]);
    if value >= 128 {
        let high = value / 128;
        assert(uleb128(value).len() == 1 + uleb128(high).len());
        assert(a.subrange(start + i + 1, start + i + 1 + uleb128(high).len()) =~= uleb128(high)) by {
            assert(part.subrange(1, part.len() as int) =~= uleb128(high));
            assert(a.subrange(start + i + 1, start + i + 1 + uleb128(high).len())
                =~= part.subrange(1, part.len() as int));
        }
        lemma_varint_reads(a, start, i + 1, high);
    }
}

proof fn lemma_varint_shortest(a: Seq<u8>, start: int, i: int)
    requires
        0 <= start,
        0 <= i <= 10,
        varint(a, start, i) is Ok,
    ensures
        ({
            let (value, end) = varint(a, start, i)->Ok_0;
            &&& i <= 9
            &&& 0 <= value <= cap(i)
            &&& i > 0 ==> value > 0
            &&& end == start + i + uleb128(value as nat).len()
            &&& end <= a.len()
            &&& a.subrange(start + i, end) == uleb128(value as nat)
        }),
    decreases 10 - i,
{
    lemma_caps();
    let at = start + i;
    let (value, end) = varint(a, start, i)->Ok_0;
    if a[at] < 128 {
        assert(a.subrange(at, end) =~= uleb128(value as nat));
    } else {
        lemma_varint_shortest(a, start, i + 1);
        let (high, _) = varint(a, start, i + 1)->Ok_0;
        assert(value as nat / 128 == high as nat);
        assert(value as nat % 128 == a[at] as nat % 128);
        assert(a.subrange(at, end) =~= seq![a[at]] + a.subrange(at + 1, end));
    }
}

/// A varint reads back as the number it was written for, whatever surrounds it.
pub proof fn law_varint_round_trip(before: Seq<u8>, value: u64, after: Seq<u8>)
    ensures
        varint(before + uleb128(value as nat) + after, before.len() as int, 0) == Ok::<
            (int, int),
            DecompressError,
        >((value as int, (before.len() + uleb128(value as nat).len()) as int)),
{
    let a = before + uleb128(value as nat) + after;
    let start = before.len() as int;
    lemma_caps();
    assert(a.subrange(start, start + uleb128(value as nat).len()) =~= uleb128(value as nat));
    lemma_varint_reads(a, start, 0, value as nat);
}

/// A varint that is accepted is the one encoding of a number that fits a `u64`: reading is
/// the inverse of writing in both directions.
pub proof fn law_varint_canonical(a: Seq<u8>, start: int)
    requires
        0 <= start,
        varint(a, start, 0) is Ok,
    ensures
        ({
            let (value, end) = varint(a, start, 0)->Ok_0;
            &&& 0 <= value <= u64::MAX
            &&& end == start + uleb128(value as nat).len() <= a.len()
            &&& a.subrange(start, end) == uleb128(value as nat)
        }),
{
    lemma_caps();
    lemma_varint_shortest(a, start, 0);
}

/// Reading a varint gives a number exactly where the bytes that are written for the number
/// stand; all else is refused as corrupt.
pub proof fn law_varint_exact(a: Seq<u8>, start: int, value: u64, end: int)
    requires
        0 <= start <= a.len(),
    ensures
        varint(a, start, 0) == Ok::<(int, int), DecompressError>((value as int, end)) <==> (end
            == start + uleb128(value as nat).len() && end <= a.len() && a.subrange(start, end)
            == uleb128(value as nat)),
        varint(a, start, 0) matches Err(e) ==> e is Corrupt,
{
    if varint(a, start, 0) is Ok {
        law_varint_canonical(a, start);
    } else {
        lemma_varint_corrupt(a, start, 0);
    }
    if end == start + uleb128(value as nat).len() && end <= a.len() && a.subrange(start, end)
        == uleb128(value as nat) {
        lemma_caps();
        lemma_varint_reads(a, start, 0, value as nat);
    }
}

proof fn lemma_varint_corrupt(a: Seq<u8>, start: int, i: int)
    requires
        varint(a, start, i) is Err,
    ensures
        varint(a, start, i)->Err_0 is Corrupt,
    decreases 10 - i,
{
    if i < 10 && start + i < a.len() && a[start + i] >= 128 && !(i == 9 && a[start + i] as int % 128
        > 1) {
        lemma_varint_corrupt(a, start, i + 1);
    }
}

/// Flags read back as they were stored.
pub proof fn law_flags_round_trip(flags: Flags)
    ensures
        0 <= flags.bits() < 8,
        flags_of(flags.bits()) == flags,
{
}

/// A header reads back as it was written, whatever payload follows, and the payload offset is
/// the header's length.
pub proof fn law_header_round_trip(h: HeaderView, payload: Seq<u8>)
    requires
        h.checksum.len() == 32,
    ensures
        header_at(header_bytes(h) + payload) == Ok::<(HeaderView, int), DecompressError>(
            (h, header_bytes(h).len() as int),
        ),
{
    let a = header_bytes(h) + payload;
    let len = uleb128(h.original_len as nat);
    let fixed = magic() + seq![VERSION, h.encoder_id] + le16(h.tokenizer_id as int) + le16(
        h.flags.bits(),
    );
    assert(a =~= fixed + len + (h.checksum + payload));
    law_varint_round_trip(fixed, h.original_len, h.checksum + payload);
    assert(a.subrange(0, 4) =~= magic());
    law_flags_round_trip(h.flags);
    let after = 10 + len.len() as int;
    assert(a.subrange(after, after + 32) =~= h.checksum);
    assert(from_le16(a[6], a[7]) == h.tokenizer_id);
    assert(from_le16(a[8], a[9]) == h.flags.bits());
}

/// A header that is accepted is the one encoding of what it says: any change to its bytes is
/// refused or says something else.
pub proof fn law_header_canonical(a: Seq<u8>)
    requires
        header_at(a) is Ok,
    ensures
        ({
            let (h, offset) = header_at(a)->Ok_0;
            &&& h.checksum.len() == 32
            &&& offset == header_bytes(h).len() <= a.len()
            &&& a.subrange(0, offset) == header_bytes(h)
        }),
{
    let (h, offset) = header_at(a)->Ok_0;
    law_varint_canonical(a, 10);
    let (value, after) = varint(a, 10, 0)->Ok_0;
    let bits = from_le16(a[8], a[9]) as int;
    assert(flags_of(bits).bits() == bits);
    assert(le16(h.tokenizer_id as int) =~= seq![a[6], a[7]]);
    assert(le16(bits) =~= seq![a[8], a[9]]);
    let m = a.subrange(0, 4);
    assert(m[0] == a[0] && m[1] == a[1] && m[2] == a[2] && m[3] == a[3]);
    assert forall|k: int| 0 <= k < offset implies a[k] == header_bytes(h)[k] by {
        if 10 <= k < after {
            assert(a[k] == a.subrange(10, after)[k - 10]);
        }
    }
    assert(a.subrange(0, offset) =~= header_bytes(h));
}

/// The number that the bytes of a varint stand for: seven bits to a byte, lowest first.
pub open spec fn groups_say(bytes: Seq<u8>) -> int
    decreases bytes.len(),
{
    if bytes.len() == 0 {
        0
    } else {
        bytes[0] as int % 128 + 128 * groups_say(bytes.drop_first())
    }
}

/// The bytes of a varint stand for its number, seven bits to a byte, lowest first. The high bit
/// is set on every byte but the last, and the last is not zero unless it is the only one.
pub proof fn law_varint_bytes(value: nat)
    ensures
        ({
            let bytes = uleb128(value);
            &&& bytes.len() > 0
            &&& groups_say(bytes) == value
            &&& bytes.last() < 128
            &&& forall|k: int| 0 <= k < bytes.len() - 1 ==> #[trigger] bytes[k] >= 128
            &&& bytes.len() > 1 ==> bytes.last() != 0
        }),
    decreases value,
{
    let bytes = uleb128(value);
    if value < 128 {
        assert(bytes.drop_first() =~= Seq::<u8>::empty());
        assert(groups_say(Seq::<u8>::empty()) == 0);
    } else {
        let rest = uleb128(value / 128);
        law_varint_bytes(value / 128);
        assert(bytes.drop_first() =~= rest);
        assert(bytes.last() == rest.last());
        assert forall|k: int| 0 <= k < bytes.len() - 1 implies #[trigger] bytes[k] >= 128 by {
            if k > 0 {
                assert(bytes[k] == rest[k - 1]);
            }
        }
        assert(rest.len() == 1 ==> groups_say(rest) == rest[0] as int % 128) by {
            if rest.len() == 1 {
                assert(rest.drop_first() =~= Seq::<u8>::empty());
                assert(groups_say(Seq::<u8>::empty()) == 0);
            }
        }
    }
}

/// Where the fields of a header stand: `TKFD`, the version 1, the encoder id, the tokenizer id
/// and the flags with the low byte first, the length of the input as a varint, and the digest.
#[verifier::spinoff_prover]
#[verifier::rlimit(40)]
pub proof fn law_header_layout(h: HeaderView)
    ensures
        ({
            let b = header_bytes(h);
            let len = uleb128(h.original_len as nat);
            &&& b.len() == 10 + len.len() + h.checksum.len()
            &&& b[0] == 0x54 && b[1] == 0x4B && b[2] == 0x46 && b[3] == 0x44
            &&& b[4] == 1
            &&& b[5] == h.encoder_id
            &&& b[6] + 256 * b[7] == h.tokenizer_id
            &&& b[8] == (if h.flags.has_sidecar {
                1int
            } else {
                0int
            }) + (if h.flags.truncation_tolerated {
                2int
            } else {
                0int
            }) + (if h.flags.segment_lossy {
                4int
            } else {
                0int
            })
            &&& b[9] == 0
            &&& b.subrange(10, 10 + len.len() as int) == len
            &&& b.skip(10 + len.len() as int) == h.checksum
        }),
{
    let b = header_bytes(h);
    let len = uleb128(h.original_len as nat);
    assert(b.subrange(10, 10 + len.len() as int) =~= len);
    assert(b.skip(10 + len.len() as int) =~= h.checksum);
}

/// What is refused of a header, field by field: bytes that do not begin with `TKFD`; a later
/// version; an earlier one, or an end of the bytes inside a field, at the field's offset; a
/// flag without a meaning. What remains is refused for its varint or its digest alone, and is
/// else read.
#[verifier::spinoff_prover]
#[verifier::rlimit(40)]
pub proof fn law_header_refusals(a: Seq<u8>)
    ensures
        ({
            let r = header_at(a);
            let named = a.len() >= 4 && a[0] == 0x54 && a[1] == 0x4B && a[2] == 0x46 && a[3]
                == 0x44;
            &&& !named <==> r == Err::<(HeaderView, int), DecompressError>(
                DecompressError::BadMagic,
            )
            &&& named && a.len() == 4 ==> r == Err::<(HeaderView, int), DecompressError>(
                DecompressError::Corrupt { byte_offset: 4 },
            )
            &&& named && a.len() > 4 && a[4] > 1 ==> r == Err::<(HeaderView, int), DecompressError>(
                DecompressError::UnsupportedVersion { found: a[4] as u16, supported: 1 },
            )
            &&& named && a.len() > 4 && a[4] == 0 ==> r == Err::<(HeaderView, int), DecompressError>(
                DecompressError::Corrupt { byte_offset: 4 },
            )
            &&& named && a.len() > 4 && a[4] == 1 ==> {
                &&& a.len() == 5 ==> r == Err::<(HeaderView, int), DecompressError>(
                    DecompressError::Corrupt { byte_offset: 5 },
                )
                &&& 6 <= a.len() < 8 ==> r == Err::<(HeaderView, int), DecompressError>(
                    DecompressError::Corrupt { byte_offset: 6 },
                )
                &&& 8 <= a.len() < 10 ==> r == Err::<(HeaderView, int), DecompressError>(
                    DecompressError::Corrupt { byte_offset: 8 },
                )
                &&& a.len() >= 10 && (a[8] >= 8 || a[9] != 0) <==> r == Err::<
                    (HeaderView, int),
                    DecompressError,
                >(DecompressError::ReservedBitsSet)
                &&& a.len() >= 10 && a[8] < 8 && a[9] == 0 ==> match varint(a, 10, 0) {
                    Err(e) => r == Err::<(HeaderView, int), DecompressError>(e),
                    Ok((len, after)) => if after + 32 > a.len() {
                        r == Err::<(HeaderView, int), DecompressError>(
                            DecompressError::Corrupt { byte_offset: after as usize },
                        )
                    } else {
                        r matches Ok((h, offset)) && {
                            &&& offset == after + 32
                            &&& h.encoder_id == a[5]
                            &&& h.tokenizer_id == a[6] + 256 * a[7]
                            &&& h.flags.has_sidecar == (a[8] % 2 == 1)
                            &&& h.flags.truncation_tolerated == (a[8] / 2 % 2 == 1)
                            &&& h.flags.segment_lossy == (a[8] / 4 % 2 == 1)
                            &&& h.original_len == len as u64
                            &&& h.checksum == a.subrange(after, after + 32)
                        }
                    },
                }
            }
        }),
{
    if a.len() >= 4 {
        let m = a.subrange(0, 4);
        assert(m[0] == a[0] && m[1] == a[1] && m[2] == a[2] && m[3] == a[3]);
        if a[0] == 0x54 && a[1] == 0x4B && a[2] == 0x46 && a[3] == 0x44 {
            assert(m =~= magic());
        }
    }
    if a.len() >= 10 && varint(a, 10, 0) is Err {
        lemma_varint_corrupt(a, 10, 0);
    }
}

/// Where a varint is refused: at its end if the bytes end first or go on past ten; at a tenth
/// byte that a `u64` has no room for; at a last byte of zero that is not the only one.
pub proof fn law_varint_refusals(a: Seq<u8>, start: int, n: int)
    requires
        0 <= start <= a.len() <= usize::MAX - 10,
        0 <= n <= 10,
        start + n <= a.len(),
        forall|k: int| start <= k < start + n ==> #[trigger] a[k] >= 128,
        n == 10 ==> a[start + 9] as int % 128 <= 1,
    ensures
        n < 10 && start + n == a.len() || n == 10 ==> varint(a, start, 0) == Err::<
            (int, int),
            DecompressError,
        >(DecompressError::Corrupt { byte_offset: (start + n) as usize }),
        n == 9 && start + n < a.len() && a[start + n] as int % 128 > 1 ==> varint(a, start, 0)
            == Err::<(int, int), DecompressError>(
            DecompressError::Corrupt { byte_offset: (start + n) as usize },
        ),
        0 < n < 10 && start + n < a.len() && a[start + n] == 0 ==> varint(a, start, 0) == Err::<
            (int, int),
            DecompressError,
        >(DecompressError::Corrupt { byte_offset: (start + n) as usize }),
{
    lemma_varint_from(a, start, 0, n);
}

proof fn lemma_varint_from(a: Seq<u8>, start: int, i: int, n: int)
    requires
        0 <= start <= a.len() <= usize::MAX - 10,
        0 <= i <= n <= 10,
        start + n <= a.len(),
        forall|k: int| start <= k < start + n ==> #[trigger] a[k] >= 128,
        n == 10 ==> a[start + 9] as int % 128 <= 1,
    ensures
        varint(a, start, n) matches Err(e) ==> varint(a, start, i) == Err::<
            (int, int),
            DecompressError,
        >(e),
    decreases n - i,
{
    if i < n {
        assert(a[start + i] >= 128);
        lemma_varint_from(a, start, i + 1, n);
    }
}

} // verus!
