//! Frozen ids of the cost models.
//!
//! Once shipped, the meaning of a value never changes. The ids are reported in
//! [`Stats::tokenizer_id`](crate::compressor::Stats::tokenizer_id); an archive header always
//! carries `0`.

use vstd::prelude::*;

verus! {

/// [`super::HeuristicEstimator`], the default cost model.
pub const HEURISTIC: u16 = 0;

/// [`super::ByteLenEstimator`], a reference point and never the default.
pub const BYTE_LEN: u16 = 1;

/// The `cl100k_base` tokenizer, [`super::Cl100kEstimator`].
pub const CL100K_BASE: u16 = 2;

/// The `o200k_base` tokenizer, [`super::O200kEstimator`].
pub const O200K_BASE: u16 = 3;

/// Reserved for a Hugging Face tokenizer, of which there is no implementation.
pub const HUGGING_FACE: u16 = 4;

} // verus!
