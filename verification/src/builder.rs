//! Validation steps performed before a model is handed to a scoring
//! engine: order limits, vocabulary availability, sanity bytes.

use vstd::prelude::*;

use crate::counts::Counts;
use crate::headers::{FixedParameters, Sanity, spec_sanity_reference};
use crate::Error;

verus! {

/// The highest model order this build supports.
pub const KENLM_MAX_ORDER: u8 = 6;

/// How the engine should bring the model file into memory.
#[derive(Debug, Clone, Copy, PartialEq, Eq, Structural)]
pub enum LoadMethod {
    Lazy,
    PopulateOrRead,
    PopulateOrLazy,
    Read,
    ParallelRead,
}

/// Collects the options for loading a model and validates its headers
/// before any engine is involved.
#[derive(Debug)]
pub struct ModelBuilder {
    pub vocab: bool,
    pub file_name: String,
    pub load_method: LoadMethod,
}

impl ModelBuilder {
    /// Starts a builder for the given file with defaults: no stored
    /// vocabulary, lazy loading.
    pub fn new(file_name: &str) -> (r: ModelBuilder)
        ensures
            r.vocab == false,
            r.file_name@ == file_name@,
            r.load_method == LoadMethod::Lazy,
    {
        ModelBuilder { vocab: false, file_name: file_name.to_owned(), load_method: LoadMethod::Lazy }
    }

    /// Chooses how the model file is brought into memory.
    pub fn with_load_method(self, load_method: LoadMethod) -> (r: ModelBuilder)
        ensures
            r.load_method == load_method,
            r.vocab == self.vocab,
            r.file_name == self.file_name,
    {
        ModelBuilder { load_method, ..self }
    }

    /// Chooses whether the vocabulary should be copied out of the model.
    pub fn store_vocab(self, store_vocab: bool) -> (r: ModelBuilder)
        ensures
            r.vocab == store_vocab,
            r.load_method == self.load_method,
            r.file_name == self.file_name,
    {
        ModelBuilder { vocab: store_vocab, ..self }
    }

    /// Rejects a sanity record that differs from the reference bytes.
    pub fn verify_sanity(&self, sanity_header: &Sanity) -> (r: Result<(), Error>)
        ensures
            sanity_header.bytes@ =~= spec_sanity_reference() ==> r is Ok,
            !(sanity_header.bytes@ =~= spec_sanity_reference()) ==> (r matches Err(e)
                && e is SanityFormatError),
    {
        if sanity_header.matches_reference() {
            Ok(())
        } else {
            Err(Error::SanityFormatError)
        }
    }

    /// Rejects a compiled model whose order exceeds this build, and a
    /// vocabulary request against a model that stores none.
    pub fn verify(&self, fixed_params: &FixedParameters) -> (r: Result<(), Error>)
        ensures
            match r {
                Ok(_) => fixed_params.order <= KENLM_MAX_ORDER && (self.vocab
                    ==> fixed_params.has_vocabulary != 0),
                Err(e) => {
                    ||| (e matches Error::IncompatibleMaxOrder { max_order, model_order }
                        && fixed_params.order > KENLM_MAX_ORDER && max_order == KENLM_MAX_ORDER as usize
                        && model_order == fixed_params.order as usize)
                    ||| (e is ModelHasNoVocab && fixed_params.order <= KENLM_MAX_ORDER
                        && self.vocab && fixed_params.has_vocabulary == 0)
                },
            },
    {
        if KENLM_MAX_ORDER < fixed_params.order {
            return Err(
                Error::IncompatibleMaxOrder {
                    max_order: KENLM_MAX_ORDER as usize,
                    model_order: fixed_params.order as usize,
                },
            );
        }
        if self.vocab && !fixed_params.has_vocabulary() {
            return Err(Error::ModelHasNoVocab);
        }
        Ok(())
    }

    /// Rejects a text model whose order exceeds this build.
    pub fn verify_arpa(&self, counts: &Counts) -> (r: Result<(), Error>)
        requires
            counts.wf(),
        ensures
            match r {
                Ok(_) => counts.spec_order() <= KENLM_MAX_ORDER,
                Err(e) => e matches Error::IncompatibleMaxOrder { max_order, model_order }
                    && counts.spec_order() > KENLM_MAX_ORDER && max_order == KENLM_MAX_ORDER as usize
                    && model_order == counts.spec_order(),
            },
    {
        if (KENLM_MAX_ORDER as usize) < counts.order() {
            return Err(
                Error::IncompatibleMaxOrder {
                    max_order: KENLM_MAX_ORDER as usize,
                    model_order: counts.order(),
                },
            );
        }
        Ok(())
    }
}

} // verus!
