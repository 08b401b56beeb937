//! A self-contained ARPA n-gram language model reader and incremental
//! backoff scorer.
//!
//! The crate parses the textual ARPA model format into structured records,
//! compiles the records into a byte-keyed automaton index, and scores word
//! sequences incrementally with stupid-backoff semantics.  Log-probability
//! and backoff values travel through the library as their original decimal
//! text tokens; callers turn them into machine numbers at the edge.

use vstd::prelude::*;

pub mod arpa;
pub mod builder;
pub mod counts;
pub mod headers;
pub mod index;
pub mod text;

pub use builder::LoadMethod;
pub mod mapping;
pub mod ngram;
pub mod ring;
pub mod vocab;

verus! {

/// Top level error for loading a model.
#[derive(Debug)]
pub enum Error {
    /// The model file could not be opened.
    FileNotFound(String),
    /// The model declares a higher order than this build supports.
    IncompatibleMaxOrder { max_order: usize, model_order: usize },
    /// A vocabulary was requested from a model that stores none.
    ModelHasNoVocab,
    /// The fixed width parameter header could not be decoded.
    ParamHeaderFormatError,
    /// The count header could not be decoded.
    CountHeaderError(counts::InvalidCounts),
    /// The sanity header could not be decoded.
    SanityFormatError,
    /// The sanity header does not match the reference header.
    SanityMismatch,
    /// An I/O failure reported by the caller that read the file.
    IoError(String),
}

} // verus!
