//! The ways in which training can fail.

use vstd::prelude::*;

verus! {

/// Why a step of the training gave no result.
#[derive(Clone, Copy, Debug, PartialEq, Eq, Structural)]
pub enum TrainerError {
    /// A log-partition value was a NaN.
    NumericInstability,
    /// The pieces and the expected counts are not of one length.
    SizeMismatch,
    /// A size derived from the vocabulary size does not fit the machine.
    ConfigurationError,
    /// There is nothing to train on.
    EmptyCorpus,
    /// The corpus text is longer than the suffix array can index.
    CorpusTooLarge,
    /// The suffix array could not be built.
    SuffixArray,
}

} // verus!
