//! How faithfully a segment survives compression.

use vstd::prelude::*;

verus! {

/// How faithfully a segment survives a compress and decompress cycle.
///
/// Fidelity is reported per segment, so that a lossy codec can stand beside the lossless
/// encoders inside one document. Only [`Fidelity::Lossless`] is reported so far.
///
/// That a document is recovered byte for byte says nothing about what a model understood:
/// the model reads the rendering.
#[derive(Debug, Clone, PartialEq, Eq, Structural)]
#[non_exhaustive]
pub enum Fidelity {
    /// The segment reconstructs to a document that means the same: key order, duplicate keys
    /// and number lexemes are exact; whitespace and escape style are canonical.
    Lossless,
    /// The segment was encoded by a codec that discards information.
    #[non_exhaustive]
    Lossy {
        /// Which codec.
        codec_id: u16,
    },
}

} // verus!
