//! Reversible, structure-aware context compression for language-model agents.
//!
//! The library turns bulky context (tool output, JSON, logs) into a denser rendering for the
//! model to read, and an archive from which the input is recovered.
//!
//! # What holds
//!
//! * **Reversible.** The archive of an input recovers it, byte for byte, under every
//!   configuration ([`compressor::law_archive_round_trip`]). The rendering says what the input
//!   says: key order, duplicate keys and number lexemes are exact, whitespace and escape style
//!   are canonical ([`compressor::law_rendering_stands_for_input`]), and inputs that are
//!   rendered alike mean the same ([`compressor::law_equal_renderings_mean_the_same`]).
//! * **Deterministic.** Equal inputs give equal results ([`compressor::law_deterministic`]).
//! * **Total on valid JSON.** Within the limits, exactly the texts of JSON are compressed
//!   ([`compressor::law_json_is_compressed`]). An input that no encoder shortens is rendered as
//!   it is, which is no error; any other refusal names the offset at which the input stops
//!   being JSON ([`compressor::law_refusal_names_the_offset`]).
//! * **Cheapest wins.** Of the forms that save the margin the cheapest is rendered
//!   ([`compressor::law_cheapest_form_is_rendered`]), and the figures are those of the texts
//!   ([`compressor::law_figures_are_those_of_the_texts`]).
//! * **Do no harm.** An encoder that wins costs fewer estimated tokens than the input, its
//!   sentinel included ([`compressor::law_compression_does_no_harm`]). The fallback carries a
//!   sentinel that costs ten or eleven tokens by the heuristic
//!   ([`encoder::law_sentinel_cost`]) and is reported as no change.
//! * **Fail closed.** An archive that was changed, cut or extended is refused
//!   ([`compressor::law_changed_byte_is_refused`]).
//!
//! # Layout
//!
//! [`grammar`] says which texts are JSON and [`tape`] parses them. [`standard`] says what
//! JSON is made of and holds the grammar to it, [`faults`] says what the offset of a refusal
//! means, and [`nodes`] what the nodes of a tape are. [`json`], [`strings`] and [`documents`]
//! say what a document means and how it is written without whitespace, and [`lexemes`] that
//! whitespace says nothing ([`lexemes::law_whitespace_is_ignored`]).
//! [`encoder`] has the encoders and the candidate rule, [`estimator`] the cost models,
//! [`format`](mod@format) the archive header, and [`compressor`] both directions. [`commands`]
//! and [`report`] are what the command line answers.

pub mod ascii;
pub mod bytes;
pub mod commands;
pub mod compressor;
pub mod documents;
pub mod encoder;
pub mod error;
pub mod estimator;
pub mod faults;
pub mod fidelity;
pub mod format;
pub mod grammar;
pub mod json;
pub mod lexemes;
pub mod never_compress;
pub mod nodes;
pub mod report;
pub mod standard;
pub mod strings;
pub mod tape;
pub mod text;

pub use compressor::{Artifact, Compressor, Config, ConfigBuilder, EncoderId, Profile, Stats};
pub use error::{CompressError, DecompressError};
pub use estimator::{
    ByteLenEstimator, CheckedEstimator, Cl100kEstimator, HeuristicEstimator, O200kEstimator,
    TokenEstimator, TokenizerLoadError,
};
pub use fidelity::Fidelity;
