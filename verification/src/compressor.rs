//! The compressor: its configuration, what it returns, and both directions.
//!
//! [`Compressor::compress`] gives two things. The rendering is the text for the model, in the
//! form that costs the fewest estimated tokens; it says what the input says and is not
//! byte-identical to it. The archive recovers the input, byte for byte.
//!
//! Only the input itself is byte-exact reversible, so an archive is always the input behind a
//! header: encoder id 0, tokenizer id 0, no flags, the length and the SHA-256 digest of the
//! input. The encoder that shaped the rendering and the estimator that chose it are reported
//! in [`Stats`] alone. An archive is as sensitive as the input: nothing in it is encrypted or
//! obscured, and its checksum detects corruption, not tampering.
//!
//! Nothing here reads a clock or draws a random number: equal inputs give equal results.

use crate::bytes::push_bytes;
use crate::documents::{
    law_minified_injective, law_minified_reads_back, lemma_document_read, lemma_verbatim, nesting,
};
use crate::encoder::readback::{law_tabular_injective, law_tabular_reconstructs, reconstruct};
use crate::encoder::tables::{header, machine_digest, part_of, tabular};
use crate::encoder::{
    can_weigh, clears, encoded, frame, kept, law_frames_are_distinct,
    law_margin_is_the_share_saved, law_minifier_applies, law_tabular_encoder_applies, lemma_offer,
    lemma_selected, offer, records, select, selected, sentinel, weighable, wins, Encoder,
};
use crate::error::{CompressError, DecompressError};
use crate::estimator::{ByteLenEstimator, CheckedEstimator, HeuristicEstimator, TokenEstimator};
use crate::faults::{
    agree, asked, law_text_at_the_offset_is_wrong,
    law_text_before_the_offset_is_in_order, telling,
};
use crate::fidelity::Fidelity;
use crate::format::{
    corrupt, hashable, header_at, header_bytes, law_header_canonical, law_header_layout,
    law_header_round_trip, sha256, sha256_digest, uleb128, verify_checksum, Flags,
    Header, HeaderView, ENCODER_ID_OFFSET, FLAGS_OFFSET, ORIGINAL_LEN_OFFSET, TOKENIZER_ID_OFFSET,
};
use crate::grammar::{document, Fault, Tree};
use crate::json::{doc, meaning, minified, Json, Style};
use crate::standard::{law_json_is_read, law_only_json_is_read, spells};
use crate::tape::{self, reports};
use crate::text::{lemma_encode_injective, utf8_text};
use std::sync::Arc;
use vstd::prelude::*;
use vstd::slice::slice_subrange;
use vstd::utf8::{encode_utf8, encode_utf8_valid_utf8, valid_utf8};

verus! {

/// Default limit on the input: 16 MiB.
pub const DEFAULT_MAX_INPUT_BYTES: usize = 16_777_216;

/// Default limit on nesting.
pub const DEFAULT_MAX_DEPTH: usize = 512;

/// The largest margin: 100%. More than everything cannot be saved.
pub const MAX_SAVING_BPS: u32 = 10_000;

/// Which encoders may compete for the rendering.
///
/// Neither the candidate rule nor the archive depends on it.
#[derive(Debug, Clone, Copy, PartialEq, Eq, Structural)]
#[non_exhaustive]
pub enum Profile {
    /// Minification only.
    Conservative,
    /// Minification and tables. The default.
    Balanced,
    /// Every encoder there is, which are those of [`Profile::Balanced`].
    Aggressive,
}

impl Default for Profile {
    fn default() -> (profile: Self)
        ensures
            profile is Balanced,
    {
        Profile::Balanced
    }
}

/// The encoders that a profile puts forward.
pub open spec fn candidates(profile: Profile) -> Seq<Encoder> {
    match profile {
        Profile::Conservative => seq![Encoder::E1Minify],
        Profile::Balanced | Profile::Aggressive => seq![Encoder::E1Minify, Encoder::E2Tabular],
    }
}

/// The encoders that a profile puts forward. [`Encoder::Passthrough`] is what the candidate
/// rule falls back to and is never among them.
pub fn enabled_encoders(profile: Profile) -> (enabled: &'static [Encoder])
    ensures
        enabled@ == candidates(profile),
{
    match profile {
        Profile::Conservative => {
            let enabled: &'static [Encoder] = &[Encoder::E1Minify];
            assert(enabled@ =~= candidates(profile));
            enabled
        },
        Profile::Balanced | Profile::Aggressive => {
            let enabled: &'static [Encoder] = &[Encoder::E1Minify, Encoder::E2Tabular];
            assert(enabled@ =~= candidates(profile));
            enabled
        },
    }
}

/// The configuration of a [`Compressor`]; see [`Config::builder`].
#[non_exhaustive]
pub struct Config<E: TokenEstimator + ?Sized = HeuristicEstimator> {
    /// Which encoders may compete.
    pub profile: Profile,
    /// The longest input that is accepted, in bytes.
    pub max_input_bytes: usize,
    /// The deepest nesting that is accepted.
    pub max_depth: usize,
    /// The cost model.
    pub estimator: Arc<E>,
    /// The margin, if it is not the estimator's own.
    pub min_saving_bps: Option<u32>,
}

impl Config {
    /// The defaults: [`Profile::Balanced`], 16 MiB, 512 levels, the heuristic estimator and
    /// its own margin.
    pub open spec fn defaults() -> Self {
        Config {
            profile: Profile::Balanced,
            max_input_bytes: DEFAULT_MAX_INPUT_BYTES,
            max_depth: DEFAULT_MAX_DEPTH,
            estimator: Arc::new(HeuristicEstimator),
            min_saving_bps: None,
        }
    }

    /// A builder that starts from the defaults.
    #[must_use]
    pub fn builder() -> (builder: ConfigBuilder)
        ensures
            builder.settings() == Config::defaults(),
    {
        ConfigBuilder::new()
    }
}

impl Default for Config {
    fn default() -> (config: Self)
        ensures
            config == Config::defaults(),
    {
        ConfigBuilder::new().build()
    }
}

impl<E: TokenEstimator + ?Sized> Clone for Config<E> {
    fn clone(&self) -> (config: Self)
        ensures
            config == *self,
    {
        Config {
            profile: self.profile,
            max_input_bytes: self.max_input_bytes,
            max_depth: self.max_depth,
            estimator: self.estimator.clone(),
            min_saving_bps: self.min_saving_bps,
        }
    }
}

impl<E: TokenEstimator + ?Sized> Config<E> {
    /// The margin that a selection applies: the one that was set, else the estimator's own; at
    /// most everything.
    pub open spec fn margin(self) -> u32 {
        let wanted = match self.min_saving_bps {
            Some(bps) => bps,
            None => self.estimator.over_claim(),
        };
        if wanted > MAX_SAVING_BPS {
            MAX_SAVING_BPS
        } else {
            wanted
        }
    }
}

/// Sets up a [`Config`].
pub struct ConfigBuilder<E: TokenEstimator + ?Sized = HeuristicEstimator> {
    config: Config<E>,
}

impl ConfigBuilder {
    /// A builder that starts from the defaults.
    fn new() -> (builder: Self)
        ensures
            builder.settings() == Config::defaults(),
    {
        ConfigBuilder {
            config: Config {
                profile: Profile::Balanced,
                max_input_bytes: DEFAULT_MAX_INPUT_BYTES,
                max_depth: DEFAULT_MAX_DEPTH,
                estimator: Arc::new(HeuristicEstimator),
                min_saving_bps: None,
            },
        }
    }
}

impl Default for ConfigBuilder {
    fn default() -> (builder: Self)
        ensures
            builder.settings() == Config::defaults(),
    {
        ConfigBuilder::new()
    }
}

impl<E: TokenEstimator + ?Sized> ConfigBuilder<E> {
    /// The configuration as it has been set up so far.
    pub closed spec fn settings(self) -> Config<E> {
        self.config
    }

    /// Set the [`Profile`].
    #[must_use]
    pub fn profile(self, profile: Profile) -> (builder: Self)
        ensures
            builder.settings() == (Config { profile, ..self.settings() }),
    {
        ConfigBuilder { config: Config { profile, ..self.config } }
    }

    /// Set the longest input that is accepted. A longer one is refused with
    /// [`CompressError::InputTooLarge`].
    #[must_use]
    pub fn max_input_bytes(self, max_input_bytes: usize) -> (builder: Self)
        ensures
            builder.settings() == (Config { max_input_bytes, ..self.settings() }),
    {
        ConfigBuilder { config: Config { max_input_bytes, ..self.config } }
    }

    /// Set the deepest nesting that is accepted. A deeper input is refused with
    /// [`CompressError::DepthExceeded`].
    #[must_use]
    pub fn max_depth(self, max_depth: usize) -> (builder: Self)
        ensures
            builder.settings() == (Config { max_depth, ..self.settings() }),
    {
        ConfigBuilder { config: Config { max_depth, ..self.config } }
    }

    /// Set the cost model.
    #[must_use]
    pub fn estimator<F: TokenEstimator + ?Sized>(self, estimator: Arc<F>) -> (builder: ConfigBuilder<
        F,
    >)
        ensures
            builder.settings() == (Config::<F> {
                profile: self.settings().profile,
                max_input_bytes: self.settings().max_input_bytes,
                max_depth: self.settings().max_depth,
                estimator,
                min_saving_bps: self.settings().min_saving_bps,
            }),
    {
        ConfigBuilder {
            config: Config {
                profile: self.config.profile,
                max_input_bytes: self.config.max_input_bytes,
                max_depth: self.config.max_depth,
                estimator,
                min_saving_bps: self.config.min_saving_bps,
            },
        }
    }

    /// Set the smallest saving that keeps a rendering, in basis points of the input's
    /// estimate. Unset, it is what the estimator declares; above 10 000 it counts as 10 000.
    ///
    /// A margin refuses savings that lie within the error of an inexact cost model. It also
    /// refuses true savings that the model underrates.
    #[must_use]
    pub fn min_saving_bps(self, min_saving_bps: u32) -> (builder: Self)
        ensures
            builder.settings() == (Config {
                min_saving_bps: Some(min_saving_bps),
                ..self.settings()
            }),
    {
        ConfigBuilder { config: Config { min_saving_bps: Some(min_saving_bps), ..self.config } }
    }

    /// The finished configuration.
    #[must_use]
    pub fn build(self) -> (config: Config<E>)
        ensures
            config == self.settings(),
    {
        self.config
    }
}

/// The frozen id of the encoder that produced a rendering.
#[derive(Debug, Clone, Copy, PartialEq, Eq, Structural)]
#[non_exhaustive]
pub struct EncoderId(
    /// The id: 0 for the input itself, 1 for minification, 2 for tables.
    pub u8,
);

impl EncoderId {
    /// No encoder beat the input.
    #[must_use]
    pub fn passthrough() -> (id: EncoderId)
        ensures
            id == EncoderId(Encoder::Passthrough.number()),
    {
        EncoderId(0)
    }

    /// Minified JSON.
    #[must_use]
    pub fn e1_minify() -> (id: EncoderId)
        ensures
            id == EncoderId(Encoder::E1Minify.number()),
    {
        EncoderId(1)
    }

    /// Minified JSON with tables.
    #[must_use]
    pub fn e2_tabular() -> (id: EncoderId)
        ensures
            id == EncoderId(Encoder::E2Tabular.number()),
    {
        EncoderId(2)
    }
}

/// What a compression achieved.
///
/// For an input that no encoder beat, the figures after are set to those before: that nothing
/// was saved is reported as exactly no change, although the rendering carries a sentinel of 18
/// bytes. To account for every token, measure [`Artifact::rendering`].
#[derive(Debug, Clone)]
#[non_exhaustive]
pub struct Stats {
    /// Byte length of the input.
    pub bytes_before: usize,
    /// Byte length of the rendering, or of the input if no encoder beat it.
    pub bytes_after: usize,
    /// Estimated tokens of the input.
    pub est_tokens_before: usize,
    /// Estimated tokens of the rendering, or of the input if no encoder beat it.
    pub est_tokens_after: usize,
    /// Which encoder shaped the rendering.
    pub encoder: EncoderId,
    /// Id of the estimator that drove the selection.
    pub tokenizer_id: u16,
    /// The margin that was applied, in basis points.
    pub min_saving_bps: u32,
    /// Fidelity of the reconstruction.
    pub fidelity: Fidelity,
}

/// What [`Compressor::compress`] gives.
#[derive(Debug, Clone)]
#[non_exhaustive]
pub struct Artifact {
    /// The text for the model, sentinel line and all.
    pub rendering: String,
    /// The archive, from which [`Compressor::decompress`] recovers the input.
    pub archive: Vec<u8>,
    /// What was achieved.
    pub stats: Stats,
}

/// The header of the archive of an input.
pub open spec fn archive_header(input: Seq<u8>) -> HeaderView {
    HeaderView {
        encoder_id: 0,
        tokenizer_id: 0,
        flags: Flags { has_sidecar: false, truncation_tolerated: false, segment_lossy: false },
        original_len: input.len() as u64,
        checksum: sha256_digest(input)@,
    }
}

/// The archive of an input.
pub open spec fn archive_of(input: Seq<u8>) -> Seq<u8> {
    header_bytes(archive_header(input)) + input
}

/// What an archive recovers: its payload, if the header says nothing that this version does
/// not write, and the payload has the length and the digest that the header says.
pub open spec fn recovered(archive: Seq<u8>) -> Result<Seq<u8>, DecompressError> {
    match header_at(archive) {
        Err(e) => Err(e),
        Ok((header, offset)) => {
            let payload = archive.skip(offset);
            if header.encoder_id != 0 {
                corrupt(ENCODER_ID_OFFSET as int)
            } else if header.tokenizer_id != 0 {
                corrupt(TOKENIZER_ID_OFFSET as int)
            } else if header.flags.bits() != 0 {
                corrupt(FLAGS_OFFSET as int)
            } else if header.original_len > usize::MAX {
                corrupt(ORIGINAL_LEN_OFFSET as int)
            } else if payload.len() != header.original_len || sha256_digest(payload)@
                != header.checksum {
                Err(DecompressError::ChecksumMismatch)
            } else {
                Ok(payload)
            }
        },
    }
}

/// Whether an input is looked at at all: it is within the limits on its size, and is UTF-8.
pub open spec fn admissible<E: TokenEstimator + ?Sized>(config: Config<E>, input: Seq<u8>) -> bool {
    &&& input.len() <= config.max_input_bytes
    &&& input.len() <= u32::MAX
    &&& valid_utf8(input)
}

/// The encoder that shapes the rendering of an input, where `tree` is the document that the
/// input holds.
pub open spec fn winner<E: TokenEstimator + ?Sized>(
    config: Config<E>,
    tree: Tree,
    input: Seq<u8>,
) -> Encoder {
    selected(
        &*config.estimator,
        Some(tree),
        input,
        candidates(config.profile),
        config.margin() as int,
    )
}

/// Whether figures are those of compressing an input, where `tree` is the document that the
/// input holds.
pub open spec fn accounts<E: TokenEstimator + ?Sized>(
    stats: Stats,
    config: Config<E>,
    tree: Tree,
    input: Seq<u8>,
) -> bool {
    let model = &*config.estimator;
    let enc = winner(config, tree, input);
    let rendering = offer(enc, Some(tree), input)->Some_0;
    &&& stats.bytes_before == input.len()
    &&& stats.bytes_after == (if enc is Passthrough {
        input.len()
    } else {
        rendering.len()
    })
    &&& stats.est_tokens_before == model.tokens(input)
    &&& stats.est_tokens_after == (if enc is Passthrough {
        model.tokens(input)
    } else {
        model.tokens(rendering)
    })
    &&& stats.encoder == EncoderId(enc.number())
    &&& stats.tokenizer_id == model.id()
    &&& stats.min_saving_bps == config.margin()
    &&& stats.fidelity is Lossless
}

/// Whether an artifact is what compressing an input gives, where `tree` is the document that
/// the input holds.
pub open spec fn describes<E: TokenEstimator + ?Sized>(
    artifact: Artifact,
    config: Config<E>,
    tree: Tree,
    input: Seq<u8>,
) -> bool {
    &&& offer(winner(config, tree, input), Some(tree), input) == Some(
        encode_utf8(artifact.rendering@),
    )
    &&& artifact.archive@ == archive_of(input)
    &&& accounts(artifact.stats, config, tree, input)
}

/// Whether the estimator can rate what compressing an input asks it to: the input and its
/// renderings, if the input is looked at and holds a document.
pub open spec fn rateable<E: TokenEstimator + ?Sized>(config: Config<E>, input: Seq<u8>) -> bool {
    admissible(config, input) ==> match document(input, config.max_depth as int) {
        Ok(tree) => weighable(
            &*config.estimator,
            Some(tree),
            input,
            candidates(config.profile),
        ),
        Err(_) => true,
    }
}

/// Whether `r` is what compressing an input gives. The limit on its size comes first, then that
/// it is UTF-8, then that its offsets fit 32 bits, then what the grammar says of it.
pub open spec fn answers<E: TokenEstimator + ?Sized>(
    r: Result<Artifact, CompressError>,
    config: Config<E>,
    input: Seq<u8>,
) -> bool {
    if input.len() > config.max_input_bytes {
        r matches Err(CompressError::InputTooLarge { size, limit }) && size == input.len() && limit
            == config.max_input_bytes
    } else if !valid_utf8(input) {
        r matches Err(CompressError::NotUtf8)
    } else if input.len() > u32::MAX {
        r matches Err(CompressError::InputTooLarge { size, limit }) && size == input.len() && limit
            == u32::MAX
    } else {
        match document(input, config.max_depth as int) {
            Ok(tree) => r matches Ok(artifact) && describes(artifact, config, tree, input),
            Err(fault) => r matches Err(error) && reports(error, fault, config.max_depth as int),
        }
    }
}

/// Compresses and decompresses, by a fixed configuration.
pub struct Compressor<E: TokenEstimator + ?Sized = HeuristicEstimator> {
    config: Config<E>,
}

impl<E: TokenEstimator + ?Sized> Compressor<E> {
    /// The configuration.
    pub closed spec fn config(&self) -> Config<E> {
        self.config
    }

    /// A compressor with a configuration.
    #[must_use]
    pub fn new(config: Config<E>) -> (compressor: Self)
        ensures
            compressor.config() == config,
    {
        Compressor { config }
    }

    /// Compress an input.
    ///
    /// The limit on the input's size is checked first, then that it is UTF-8, then that it is
    /// a document within the limit on nesting. The estimator must be able to rate the input
    /// and its renderings.
    pub fn compress(&self, input: &[u8]) -> (r: Result<Artifact, CompressError>)
        requires
            rateable(self.config(), input@),
        ensures
            answers(r, self.config(), input@),
    {
        if input.len() > self.config.max_input_bytes {
            return Err(
                CompressError::InputTooLarge {
                    size: input.len(),
                    limit: self.config.max_input_bytes,
                },
            );
        }
        let text = match utf8_text(input) {
            Some(text) => text,
            None => {
                return Err(CompressError::NotUtf8);
            },
        };
        proof {
            encode_utf8_valid_utf8(text@);
        }
        let parsed = match tape::parse(text, self.config.max_depth) {
            Ok(parsed) => parsed,
            Err(error) => {
                return Err(error);
            },
        };
        let ghost tree = document(input@, self.config.max_depth as int)->Ok_0;
        proof {
            lemma_document_read(input@, self.config.max_depth as int);
            assert(records(parsed@, Some(tree)));
            assert forall|other: Option<Tree>| #[trigger] records(parsed@, other) implies weighable(
                &*self.config.estimator,
                other,
                input@,
                candidates(self.config.profile),
            ) by {
                assert forall|enc: Encoder| offer(enc, other, input@) == #[trigger] offer(
                    enc,
                    Some(tree),
                    input@,
                ) by {
                    lemma_offer(enc, parsed@, other, Some(tree), input@);
                }
            }
        }
        let wanted: u32 = match self.config.min_saving_bps {
            Some(bps) => bps,
            None => self.config.estimator.over_claim_bps(),
        };
        let min_saving_bps: u32 = if wanted > MAX_SAVING_BPS {
            MAX_SAVING_BPS
        } else {
            wanted
        };
        let selection = select(
            &parsed,
            text,
            &*self.config.estimator,
            enabled_encoders(self.config.profile),
            min_saving_bps,
        );
        let header = Header::new(
            Encoder::Passthrough.id(),
            0,
            Flags::default(),
            input.len() as u64,
            sha256(input),
        );
        let mut archive: Vec<u8> = Vec::new();
        header.encode_into(&mut archive);
        push_bytes(&mut archive, input);
        proof {
            assert(header@ =~= archive_header(input@));
            assert(archive@ =~= archive_of(input@));
        }
        let bytes_after: usize = match selection.encoder {
            Encoder::Passthrough => input.len(),
            _ => selection.rendering.as_str().as_bytes().len(),
        };
        let stats = Stats {
            bytes_before: input.len(),
            bytes_after,
            est_tokens_before: selection.est_tokens_before,
            est_tokens_after: selection.est_tokens_after,
            encoder: EncoderId(selection.encoder.id()),
            tokenizer_id: self.config.estimator.tokenizer_id(),
            min_saving_bps,
            fidelity: Fidelity::Lossless,
        };
        Ok(Artifact { rendering: selection.rendering, archive, stats })
    }

    /// Recover the input from its archive.
    ///
    /// Fails closed: whatever does not fit is an error, and no bytes are returned that do not
    /// have the recorded length and digest. SHA-256 is defined on fewer than two to the
    /// sixty-fourth bits, which no archive may exceed.
    pub fn decompress(&self, archive: &[u8]) -> (r: Result<Vec<u8>, DecompressError>)
        requires
            hashable(archive@),
        ensures
            match recovered(archive@) {
                Ok(input) => r matches Ok(bytes) && bytes@ == input,
                Err(e) => r == Err::<Vec<u8>, DecompressError>(e),
            },
    {
        let (header, payload_start) = match Header::decode(archive) {
            Ok(found) => found,
            Err(e) => {
                return Err(e);
            },
        };
        if header.encoder_id != Encoder::Passthrough.id() {
            return Err(DecompressError::Corrupt { byte_offset: ENCODER_ID_OFFSET });
        }
        if header.tokenizer_id != 0 {
            return Err(DecompressError::Corrupt { byte_offset: TOKENIZER_ID_OFFSET });
        }
        if header.flags != Flags::default() {
            return Err(DecompressError::Corrupt { byte_offset: FLAGS_OFFSET });
        }
        proof {
            law_header_canonical(archive@);
        }
        if header.original_len > usize::MAX as u64 {
            return Err(DecompressError::Corrupt { byte_offset: ORIGINAL_LEN_OFFSET });
        }
        let payload = slice_subrange(archive, payload_start, archive.len());
        proof {
            assert(payload@ =~= archive@.skip(payload_start as int));
        }
        if payload.len() as u64 != header.original_len {
            return Err(DecompressError::ChecksumMismatch);
        }
        if let Err(e) = verify_checksum(&header.checksum, payload) {
            return Err(e);
        }
        let mut bytes: Vec<u8> = Vec::new();
        push_bytes(&mut bytes, payload);
        proof {
            assert(bytes@ =~= payload@);
        }
        Ok(bytes)
    }
}

impl<E: CheckedEstimator + ?Sized> Compressor<E> {
    /// Compress an input, if the estimator can rate it and its renderings; else `None`.
    pub fn compress_checked(&self, input: &[u8]) -> (r: Option<Result<Artifact, CompressError>>)
        ensures
            r is Some == rateable(self.config(), input@),
            r matches Some(answer) ==> answers(answer, self.config(), input@),
    {
        if input.len() <= self.config.max_input_bytes {
            if let Some(text) = utf8_text(input) {
                if let Ok(parsed) = tape::parse(text, self.config.max_depth) {
                    proof {
                        encode_utf8_valid_utf8(text@);
                        lemma_document_read(input@, self.config.max_depth as int);
                        let tree = document(input@, self.config.max_depth as int)->Ok_0;
                        assert(records(parsed@, Some(tree)));
                    }
                    if !can_weigh(
                        &parsed,
                        text,
                        &*self.config.estimator,
                        enabled_encoders(self.config.profile),
                    ) {
                        return None;
                    }
                }
            }
        }
        Some(self.compress(input))
    }
}

// ---------------------------------------------------------------------------
// Laws
// ---------------------------------------------------------------------------

/// The archive of an input recovers it.
pub proof fn law_archive_round_trip(input: Seq<u8>)
    requires
        input.len() <= usize::MAX,
    ensures
        recovered(archive_of(input)) == Ok::<Seq<u8>, DecompressError>(input),
{
    law_header_round_trip(archive_header(input), input);
    let offset = header_bytes(archive_header(input)).len() as int;
    assert(archive_of(input).skip(offset) =~= input);
}

/// Bytes that recover something are its archive, and nothing else is: of two archives that
/// differ, both cannot recover the same bytes.
pub proof fn law_archive_canonical(archive: Seq<u8>)
    requires
        recovered(archive) is Ok,
    ensures
        archive == archive_of(recovered(archive)->Ok_0),
        recovered(archive)->Ok_0.len() <= usize::MAX,
{
    law_header_canonical(archive);
    let (h, offset) = header_at(archive)->Ok_0;
    let payload = archive.skip(offset);
    assert(h.flags == archive_header(payload).flags);
    assert(h =~= archive_header(payload));
    assert(archive =~= archive.subrange(0, offset) + payload);
}

/// What a compression writes, any decompression recovers.
pub proof fn law_compressed_is_recovered<E: TokenEstimator + ?Sized>(
    artifact: Artifact,
    config: Config<E>,
    tree: Tree,
    input: Seq<u8>,
)
    requires
        describes(artifact, config, tree, input),
    ensures
        recovered(artifact.archive@) == Ok::<Seq<u8>, DecompressError>(input),
{
    law_archive_round_trip(input);
}

/// The archive does not depend on the configuration: not on the profile, the limits, the
/// estimator or the margin.
pub proof fn law_archive_ignores_configuration<
    E: TokenEstimator + ?Sized,
    F: TokenEstimator + ?Sized,
>(
    a: Artifact,
    config_a: Config<E>,
    tree_a: Tree,
    b: Artifact,
    config_b: Config<F>,
    tree_b: Tree,
    input: Seq<u8>,
)
    requires
        describes(a, config_a, tree_a, input),
        describes(b, config_b, tree_b, input),
    ensures
        a.archive@ == b.archive@,
{
}

/// Compression is deterministic: equal inputs under equal configurations give the same text,
/// the same archive and the same figures.
pub proof fn law_deterministic<E: TokenEstimator + ?Sized>(
    a: Artifact,
    b: Artifact,
    config: Config<E>,
    tree: Tree,
    input: Seq<u8>,
)
    requires
        describes(a, config, tree, input),
        describes(b, config, tree, input),
    ensures
        a.rendering@ == b.rendering@,
        a.archive@ == b.archive@,
        a.stats == b.stats,
{
    lemma_encode_injective(a.rendering@, b.rendering@);
}

/// Compressing what an archive recovers gives the same artifact again.
pub proof fn law_idempotent<E: TokenEstimator + ?Sized>(
    a: Artifact,
    b: Artifact,
    config: Config<E>,
    tree: Tree,
    input: Seq<u8>,
)
    requires
        describes(a, config, tree, input),
        recovered(a.archive@) matches Ok(again) && describes(b, config, tree, again),
    ensures
        a.rendering@ == b.rendering@,
        a.archive@ == b.archive@,
        a.stats == b.stats,
{
    law_compressed_is_recovered(a, config, tree, input);
    law_deterministic(a, b, config, tree, input);
}

/// [`Profile::Aggressive`] does what [`Profile::Balanced`] does.
pub proof fn law_aggressive_is_balanced<E: TokenEstimator + ?Sized>(
    artifact: Artifact,
    config: Config<E>,
    tree: Tree,
    input: Seq<u8>,
)
    ensures
        describes(artifact, Config { profile: Profile::Aggressive, ..config }, tree, input)
            <==> describes(artifact, Config { profile: Profile::Balanced, ..config }, tree, input),
{
}

/// Compressing never makes it worse: the figures after are at most those before in tokens;
/// they are equal, in bytes too, if no encoder beat the input; and if one did, its whole
/// rendering costs fewer tokens, by the margin.
pub proof fn law_compression_does_no_harm<E: TokenEstimator + ?Sized>(
    artifact: Artifact,
    config: Config<E>,
    tree: Tree,
    input: Seq<u8>,
)
    requires
        describes(artifact, config, tree, input),
    ensures
        artifact.stats.est_tokens_after <= artifact.stats.est_tokens_before,
        artifact.stats.encoder == EncoderId(0) ==> {
            &&& artifact.stats.est_tokens_after == artifact.stats.est_tokens_before
            &&& artifact.stats.bytes_after == artifact.stats.bytes_before
        },
        artifact.stats.encoder != EncoderId(0) ==> {
            &&& artifact.stats.est_tokens_after == config.estimator.tokens(
                encode_utf8(artifact.rendering@),
            )
            &&& clears(
                artifact.stats.est_tokens_after as int,
                artifact.stats.est_tokens_before as int,
                artifact.stats.min_saving_bps as int,
            )
        },
{
    let model = &*config.estimator;
    let enabled = candidates(config.profile);
    let bps = config.margin() as int;
    let enc = selected(model, Some(tree), input, enabled, bps);
    if exists|e: Encoder| wins(model, e, Some(tree), input, enabled, bps) {
        assert(wins(model, enc, Some(tree), input, enabled, bps));
    }
}

/// The rendering stands for the input. Behind its sentinel it is the input itself, or a
/// document that means the same, or a body from which the document is recovered, lexeme for
/// lexeme.
pub proof fn law_rendering_stands_for_input<E: TokenEstimator + ?Sized>(
    artifact: Artifact,
    config: Config<E>,
    tree: Tree,
    input: Seq<u8>,
)
    requires
        document(input, config.max_depth as int) == Ok::<Tree, Fault>(tree),
        describes(artifact, config, tree, input),
    ensures
        ({
            let rendering = encode_utf8(artifact.rendering@);
            let limit = config.max_depth as int;
            let id = artifact.stats.encoder;
            &&& id == EncoderId(0) || id == EncoderId(1) || id == EncoderId(2)
            &&& id == EncoderId(0) ==> rendering == frame(Encoder::Passthrough, input)
            &&& id == EncoderId(1) ==> exists|body: Seq<u8>|
                rendering == #[trigger] frame(Encoder::E1Minify, body) && (document(body, limit)
                    matches Ok(t) && meaning(doc(t, body)) == meaning(doc(tree, input)))
            &&& id == EncoderId(2) ==> exists|body: Seq<u8>|
                rendering == #[trigger] frame(Encoder::E2Tabular, body) && (document(
                    reconstruct(body),
                    limit,
                ) matches Ok(t) && doc(t, reconstruct(body)) == doc(tree, input))
        }),
{
    let rendering = encode_utf8(artifact.rendering@);
    let limit = config.max_depth as int;
    let enc = winner(config, tree, input);
    let j = doc(tree, input);
    lemma_document_read(input, limit);
    match enc {
        Encoder::Passthrough => {},
        Encoder::E1Minify => {
            let body = minified(j, Style::Canonical);
            law_minified_reads_back(j, Style::Canonical, limit);
            assert(rendering == frame(Encoder::E1Minify, body));
        },
        Encoder::E2Tabular => {
            let body = tabular(j, machine_digest());
            law_tabular_reconstructs(j, machine_digest());
            law_minified_reads_back(j, Style::Verbatim, limit);
            lemma_verbatim(j);
            assert(rendering == frame(Encoder::E2Tabular, body));
        },
    }
}

/// Documents that are rendered alike mean the same.
pub proof fn law_equal_renderings_mean_the_same<E: TokenEstimator + ?Sized>(
    a: Artifact,
    tree_a: Tree,
    input_a: Seq<u8>,
    b: Artifact,
    tree_b: Tree,
    input_b: Seq<u8>,
    config: Config<E>,
)
    requires
        document(input_a, config.max_depth as int) == Ok::<Tree, Fault>(tree_a),
        document(input_b, config.max_depth as int) == Ok::<Tree, Fault>(tree_b),
        describes(a, config, tree_a, input_a),
        describes(b, config, tree_b, input_b),
        a.rendering@ == b.rendering@,
    ensures
        meaning(doc(tree_a, input_a)) == meaning(doc(tree_b, input_b)),
        a.stats.encoder == b.stats.encoder,
{
    let limit = config.max_depth as int;
    let enc_a = winner(config, tree_a, input_a);
    let enc_b = winner(config, tree_b, input_b);
    let body_a = encoded(enc_a, Some(tree_a), input_a)->Some_0;
    let body_b = encoded(enc_b, Some(tree_b), input_b)->Some_0;
    law_frames_are_distinct(enc_a, enc_b, body_a, body_b);
    lemma_document_read(input_a, limit);
    lemma_document_read(input_b, limit);
    let ja = doc(tree_a, input_a);
    let jb = doc(tree_b, input_b);
    match enc_a {
        Encoder::Passthrough => {},
        Encoder::E1Minify => {
            law_minified_injective(ja, jb, Style::Canonical);
        },
        Encoder::E2Tabular => {
            law_tabular_injective(ja, jb, machine_digest(), machine_digest());
        },
    }
}

proof fn lemma_uleb128_grows(a: nat, b: nat)
    requires
        a <= b,
    ensures
        uleb128(a).len() <= uleb128(b).len(),
    decreases a,
{
    if a >= 128 {
        lemma_uleb128_grows(a / 128, b / 128);
    }
}

/// A longer input has a longer archive.
proof fn lemma_archive_grows(a: Seq<u8>, b: Seq<u8>)
    requires
        a.len() <= usize::MAX,
        b.len() <= usize::MAX,
        archive_of(a).len() == archive_of(b).len(),
    ensures
        a.len() == b.len(),
{
    if a.len() <= b.len() {
        lemma_uleb128_grows(a.len(), b.len());
    } else {
        lemma_uleb128_grows(b.len(), a.len());
    }
}

/// An archive in which one byte was changed is refused, unless the change lies in the payload
/// and keeps its SHA-256 digest.
pub proof fn law_changed_byte_is_refused(input: Seq<u8>, at: int, byte: u8)
    requires
        input.len() <= usize::MAX,
        0 <= at < archive_of(input).len(),
        archive_of(input)[at] != byte,
    ensures
        recovered(archive_of(input).update(at, byte)) matches Ok(other) ==> {
            &&& at >= header_bytes(archive_header(input)).len()
            &&& other == input.update(at - header_bytes(archive_header(input)).len(), byte)
            &&& sha256_digest(other)@ == sha256_digest(input)@
        },
{
    let archive = archive_of(input);
    let changed = archive.update(at, byte);
    let header = header_bytes(archive_header(input));
    if let Ok(other) = recovered(changed) {
        law_archive_canonical(changed);
        lemma_archive_grows(input, other);
        let other_header = header_bytes(archive_header(other));
        assert(other_header.len() == header.len());
        if at < header.len() {
            assert(other =~= input) by {
                assert forall|k: int| 0 <= k < input.len() implies other[k] == input[k] by {
                    assert(changed[header.len() + k] == archive[header.len() + k]);
                }
            }
            assert(false);
        }
        assert(other =~= input.update(at - header.len(), byte)) by {
            assert forall|k: int| 0 <= k < input.len() implies other[k] == input.update(
                at - header.len(),
                byte,
            )[k] by {
                assert(changed[header.len() + k] == other[k]);
            }
        }
        assert(other_header =~= header) by {
            assert forall|k: int| 0 <= k < header.len() implies other_header[k] == header[k] by {
                assert(changed[k] == archive[k]);
            }
        }
        law_header_round_trip(archive_header(input), Seq::empty());
        law_header_round_trip(archive_header(other), Seq::empty());
    }
}

/// An archive that was cut short is refused; for its length, if the header is whole.
pub proof fn law_cut_archive_is_refused(input: Seq<u8>, len: int)
    requires
        input.len() <= usize::MAX,
        0 <= len < archive_of(input).len(),
    ensures
        recovered(archive_of(input).take(len)) is Err,
        len >= header_bytes(archive_header(input)).len() ==> recovered(archive_of(input).take(len))
            == Err::<Seq<u8>, DecompressError>(DecompressError::ChecksumMismatch),
{
    let archive = archive_of(input);
    let cut = archive.take(len);
    let header = header_bytes(archive_header(input));
    if len >= header.len() {
        let rest = input.take(len - header.len());
        assert(cut =~= header + rest);
        law_header_round_trip(archive_header(input), rest);
        assert(cut.skip(header.len() as int) =~= rest);
    } else if let Ok(other) = recovered(cut) {
        law_archive_canonical(cut);
        let tail = other + archive.skip(len);
        assert(archive =~= cut + archive.skip(len));
        assert(archive =~= header_bytes(archive_header(other)) + tail);
        law_header_round_trip(archive_header(other), tail);
        law_header_round_trip(archive_header(input), input);
    }
}

/// An archive with something behind it is refused for its length.
pub proof fn law_extended_archive_is_refused(input: Seq<u8>, more: Seq<u8>)
    requires
        input.len() <= usize::MAX,
        more.len() > 0,
    ensures
        recovered(archive_of(input) + more) == Err::<Seq<u8>, DecompressError>(
            DecompressError::ChecksumMismatch,
        ),
{
    let header = header_bytes(archive_header(input));
    assert(archive_of(input) + more =~= header + (input + more));
    law_header_round_trip(archive_header(input), input + more);
    assert((archive_of(input) + more).skip(header.len() as int) =~= input + more);
}

/// The margin is the one that was set, or else the estimator's own, and never more than
/// everything.
pub proof fn law_margin_setting<E: TokenEstimator + ?Sized>(config: Config<E>)
    ensures
        config.margin() <= 10_000,
        config.min_saving_bps matches Some(bps) ==> bps <= 10_000 ==> config.margin() == bps,
        config.min_saving_bps matches Some(bps) ==> bps > 10_000 ==> config.margin() == 10_000,
        config.min_saving_bps is None && config.estimator.over_claim() <= 10_000
            ==> config.margin() == config.estimator.over_claim(),
{
}

/// The defaults: tables compete, 16 MiB, 512 levels, no margin of its own.
pub proof fn law_defaults()
    ensures
        Config::defaults().profile is Balanced,
        Config::defaults().max_input_bytes == 16 * 1024 * 1024,
        Config::defaults().max_depth == 512,
        Config::defaults().min_saving_bps is None,
        Config::defaults().margin() == 0,
{
}

/// Total on JSON: within the limits on size and depth, exactly the texts of JSON are
/// compressed. Any other input is refused, for its size before its encoding, for its encoding
/// before its form, and for its form with the error that names it.
#[verifier::spinoff_prover]
#[verifier::rlimit(40)]
pub proof fn law_json_is_compressed<E: TokenEstimator + ?Sized>(
    r: Result<Artifact, CompressError>,
    config: Config<E>,
    input: Seq<u8>,
)
    requires
        answers(r, config, input),
    ensures
        input.len() > config.max_input_bytes ==> (r matches Err(CompressError::InputTooLarge {
            size,
            limit,
        }) && size == input.len() && limit == config.max_input_bytes),
        input.len() <= config.max_input_bytes && !valid_utf8(input) ==> r == Err::<
            Artifact,
            CompressError,
        >(CompressError::NotUtf8),
        input.len() <= config.max_input_bytes && valid_utf8(input) && input.len() > 0xFFFF_FFFF
            ==> (r matches Err(CompressError::InputTooLarge { size, limit }) && size == input.len()
            && limit == 0xFFFF_FFFF),
        input.len() <= config.max_input_bytes && valid_utf8(input) && input.len() <= 0xFFFF_FFFF
            ==> {
            &&& r is Ok <==> exists|j: Json|
                #[trigger] spells(input, j) && nesting(j) <= config.max_depth
            &&& forall|j: Json| #[trigger]
                spells(input, j) && nesting(j) > config.max_depth ==> (r matches Err(
                    CompressError::DepthExceeded { depth, limit },
                ) && depth == config.max_depth + 1 && limit == config.max_depth)
            &&& (forall|j: Json| !#[trigger] spells(input, j)) ==> (r matches Err(e) && (
            e is InvalidJson || e is DepthExceeded))
        },
{
    let limit = config.max_depth as int;
    if input.len() <= config.max_input_bytes && valid_utf8(input) && input.len() <= 0xFFFF_FFFF {
        if document(input, limit) is Ok {
            law_only_json_is_read(input, limit);
        }
        assert forall|j: Json| #[trigger] spells(input, j) implies (nesting(j) <= limit
            ==> document(input, limit) is Ok) && (nesting(j) > limit ==> document(input, limit)
            == Err::<Tree, Fault>(Fault::TooDeep { depth: limit + 1 })) by {
            law_json_is_read(input, j, limit);
        }
    }
}

/// What is reported of a compression are its figures: the bytes and the estimate of the input,
/// those of the text that was rendered, or of the input if no encoder beat it, and who measured
/// them, by what margin.
pub proof fn law_figures_are_those_of_the_texts<E: TokenEstimator + ?Sized>(
    artifact: Artifact,
    config: Config<E>,
    tree: Tree,
    input: Seq<u8>,
)
    requires
        describes(artifact, config, tree, input),
    ensures
        ({
            let stats = artifact.stats;
            let rendering = encode_utf8(artifact.rendering@);
            &&& stats.bytes_before == input.len()
            &&& stats.est_tokens_before == config.estimator.tokens(input)
            &&& stats.encoder.0 != 0 ==> stats.bytes_after == rendering.len()
                && stats.est_tokens_after == config.estimator.tokens(rendering)
            &&& stats.encoder.0 == 0 ==> stats.bytes_after == input.len() && stats.est_tokens_after
                == config.estimator.tokens(input)
            &&& stats.tokenizer_id == config.estimator.id()
            &&& stats.min_saving_bps == config.margin()
            &&& stats.fidelity is Lossless
            &&& artifact.archive@ == archive_of(input)
        }),
{
}

/// Which text is rendered. Every document has a minified form, and one in which an array has a
/// header has a tabular form; those that the profile lets compete and that save the margin
/// compete, the cheapest is the rendering, at equal cost the minified one, and its encoder is
/// reported; without one that saves the margin the rendering is the input.
#[verifier::spinoff_prover]
#[verifier::rlimit(40)]
pub proof fn law_cheapest_form_is_rendered<E: TokenEstimator + ?Sized>(
    artifact: Artifact,
    config: Config<E>,
    tree: Tree,
    input: Seq<u8>,
)
    requires
        valid_utf8(input),
        document(input, config.max_depth as int) == Ok::<Tree, Fault>(tree),
        describes(artifact, config, tree, input),
        config.estimator.tokens(input) * 10_000 <= u64::MAX,
    ensures
        ({
            let j = doc(tree, input);
            let before = config.estimator.tokens(input);
            let bps = config.margin();
            let small = sentinel(Encoder::E1Minify) + minified(j, Style::Canonical);
            let table = sentinel(Encoder::E2Tabular) + tabular(j, machine_digest());
            let small_cost = config.estimator.tokens(small);
            let table_cost = config.estimator.tokens(table);
            let small_saves = small_cost < before && (before - small_cost) * 10_000 >= before * bps;
            let table_saves = config.profile !is Conservative && (exists|items: Seq<Json>|
                #[trigger] part_of(Json::Array(items), j) && header(
                    items,
                    machine_digest(),
                ) is Some) && table_cost < before && (before - table_cost) * 10_000 >= before * bps;
            let (id, text) = if table_saves && (!small_saves || table_cost < small_cost) {
                (2u8, table)
            } else if small_saves {
                (1u8, small)
            } else {
                (0u8, sentinel(Encoder::Passthrough) + input)
            };
            artifact.stats.encoder.0 == id && encode_utf8(artifact.rendering@) == text
        }),
{
    let model = &*config.estimator;
    let limit = config.max_depth as int;
    let j = doc(tree, input);
    let before = model.tokens(input) as int;
    let bps = config.margin() as int;
    let enabled = candidates(config.profile);
    let small = sentinel(Encoder::E1Minify) + minified(j, Style::Canonical);
    let table = sentinel(Encoder::E2Tabular) + tabular(j, machine_digest());
    law_minifier_applies(input, limit);
    law_tabular_encoder_applies(input, limit);
    law_margin_is_the_share_saved(model.tokens(small) as int, before, bps);
    law_margin_is_the_share_saved(model.tokens(table) as int, before, bps);
    assert(enabled[0] == Encoder::E1Minify);
    assert(enabled.contains(Encoder::E1Minify));
    if config.profile !is Conservative {
        assert(enabled[1] == Encoder::E2Tabular);
        assert(enabled.contains(Encoder::E2Tabular));
    }
    let keeps_small = kept(model, Encoder::E1Minify, Some(tree), input, bps);
    let keeps_table = config.profile !is Conservative && kept(
        model,
        Encoder::E2Tabular,
        Some(tree),
        input,
        bps,
    );
    if keeps_table && (!keeps_small || model.tokens(table) < model.tokens(small)) {
        assert(wins(model, Encoder::E2Tabular, Some(tree), input, enabled, bps));
        lemma_selected(model, Encoder::E2Tabular, Some(tree), input, enabled, bps);
    } else if keeps_small {
        assert(wins(model, Encoder::E1Minify, Some(tree), input, enabled, bps));
        lemma_selected(model, Encoder::E1Minify, Some(tree), input, enabled, bps);
    } else {
        assert forall|e: Encoder| !wins(model, e, Some(tree), input, enabled, bps) by {
            if e is E2Tabular && enabled.contains(e) {
                assert(config.profile !is Conservative);
            }
        }
    }
}

/// What an archive is: `TKFD`, the version 1, zeros for the encoder, the tokenizer and the
/// flags, the length of the input as a varint, its SHA-256 digest, and the input as it is.
pub proof fn law_archive_layout(input: Seq<u8>)
    requires
        input.len() <= usize::MAX,
    ensures
        archive_of(input) == seq![0x54u8, 0x4B, 0x46, 0x44, 1, 0, 0, 0, 0, 0] + uleb128(input.len())
            + sha256_digest(input)@ + input,
{
    law_header_layout(archive_header(input));
    let h = header_bytes(archive_header(input));
    assert(h.take(10) =~= seq![0x54u8, 0x4B, 0x46, 0x44, 1, 0, 0, 0, 0, 0]);
    assert(h =~= h.take(10) + uleb128(input.len()) + sha256_digest(input)@);
}

/// What is refused of an archive whose header is in order: an encoder, a tokenizer or flags
/// that are not zero, each at its offset and in this order; then a payload that has not the
/// length or not the digest that the header says. What remains is recovered; and a header that
/// is not in order is refused for what it is refused for.
pub proof fn law_recovery_refusals(archive: Seq<u8>)
    ensures
        match header_at(archive) {
            Err(e) => recovered(archive) == Err::<Seq<u8>, DecompressError>(e),
            Ok((h, offset)) => {
                let payload = archive.skip(offset);
                let plain = !h.flags.has_sidecar && !h.flags.truncation_tolerated
                    && !h.flags.segment_lossy;
                &&& h.encoder_id != 0 ==> recovered(archive) == Err::<Seq<u8>, DecompressError>(
                    DecompressError::Corrupt { byte_offset: 5 },
                )
                &&& h.encoder_id == 0 && h.tokenizer_id != 0 ==> recovered(archive) == Err::<
                    Seq<u8>,
                    DecompressError,
                >(DecompressError::Corrupt { byte_offset: 6 })
                &&& h.encoder_id == 0 && h.tokenizer_id == 0 && !plain ==> recovered(archive)
                    == Err::<Seq<u8>, DecompressError>(DecompressError::Corrupt { byte_offset: 8 })
                &&& h.encoder_id == 0 && h.tokenizer_id == 0 && plain && h.original_len
                    <= usize::MAX ==> {
                    &&& payload.len() == h.original_len && sha256_digest(payload)@ == h.checksum
                        ==> recovered(archive) == Ok::<Seq<u8>, DecompressError>(payload)
                    &&& !(payload.len() == h.original_len && sha256_digest(payload)@ == h.checksum)
                        ==> recovered(archive) == Err::<Seq<u8>, DecompressError>(
                        DecompressError::ChecksumMismatch,
                    )
                }
                &&& h.encoder_id == 0 && h.tokenizer_id == 0 && plain && h.original_len
                    > usize::MAX ==> recovered(archive) == Err::<Seq<u8>, DecompressError>(
                    DecompressError::Corrupt { byte_offset: 10 },
                )
            },
        },
{
}

/// Exactly the archives are recovered, each to its input.
pub proof fn law_archives_and_inputs(archive: Seq<u8>, input: Seq<u8>)
    requires
        input.len() <= usize::MAX,
    ensures
        recovered(archive) == Ok::<Seq<u8>, DecompressError>(input) <==> archive == archive_of(
            input,
        ),
{
    law_archive_round_trip(input);
    if recovered(archive) is Ok {
        law_archive_canonical(archive);
    }
}

/// The heuristic and the byte count can rate whatever there is, so every input can be
/// compressed with them.
pub proof fn law_every_input_can_be_rated(
    heuristic: Config<HeuristicEstimator>,
    bytes: Config<ByteLenEstimator>,
    input: Seq<u8>,
)
    ensures
        rateable(heuristic, input),
        rateable(bytes, input),
{
}

/// A refusal for the form of the input names the offset at which it stops being JSON: what
/// stands before can be completed to a document, as the message asks, and no text that goes on as
/// the input does there is one.
#[verifier::spinoff_prover]
#[verifier::rlimit(40)]
pub proof fn law_refusal_names_the_offset<E: TokenEstimator + ?Sized>(
    r: Result<Artifact, CompressError>,
    config: Config<E>,
    input: Seq<u8>,
)
    requires
        answers(r, config, input),
    ensures
        r matches Err(CompressError::InvalidJson { byte_offset, msg }) ==> {
            &&& byte_offset <= input.len()
            &&& exists|x: Seq<u8>, j: Json| #[trigger]
                spells(input.take(byte_offset as int) + x, j) && nesting(j) <= config.max_depth && (asked(
                    msg@,
                    x,
                    input,
                    byte_offset as int,
                ) || (x.len() == 0 && byte_offset < input.len() && msg@
                    == "trailing data after top-level value"@))
            &&& forall|t: Seq<u8>, j: Json|
                #![trigger spells(t, j)]
                byte_offset < input.len() && agree(
                    input,
                    t,
                    byte_offset + telling(input, byte_offset as int),
                ) ==> !spells(t, j)
        },
{
    let limit = config.max_depth as int;
    if input.len() <= config.max_input_bytes && valid_utf8(input) && input.len() <= u32::MAX {
        if let Err(Fault::Syntax { at, msg }) = document(input, limit) {
            law_text_before_the_offset_is_in_order(input, limit, at, msg);
            assert forall|t: Seq<u8>, j: Json|
                #![trigger spells(t, j)]
                at < input.len() && agree(input, t, at + telling(input, at)) implies !spells(
                t,
                j,
            ) by {
                law_text_at_the_offset_is_wrong(input, limit, at, msg, t);
            }
        }
    }
}

} // verus!
