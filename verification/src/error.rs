//! The errors of the library.

use vstd::prelude::*;

verus! {

/// Why a commitment did not go through.
#[derive(Clone, Copy, Debug, PartialEq, Eq, Structural)]
pub enum ChainFailure {
    /// The contract refused the commitment. Not to be retried.
    Rejected,
    /// The call did not reach the contract or timed out. May be retried.
    Transport,
}

#[derive(Clone, Copy, Debug, PartialEq, Eq, Structural)]
pub enum Error {
    /// The interval store cannot hold or give what was asked.
    StorageError,
    /// A wire tuple has the wrong number of fields or a field of the wrong
    /// type or length.
    EncodingError,
    /// The commitment of a block did not go through.
    ChainSubmissionError(ChainFailure),
    /// A proof does not lead to the expected root.
    VerificationError,
    /// The committed data does not suffice to decide.
    QuantifierInconclusive,
    /// No block was finalized under the number asked for.
    NotFound,
    /// A state update cannot be made into a leaf of the tree.
    MalformedLeaf,
    /// A commitment is under way and has not been resolved.
    SubmissionInFlight,
    /// No commitment is under way.
    NoSubmission,
}

impl Error {
    /// Whether the operation that failed may be tried again as it is.
    pub fn is_retryable(&self) -> (retry: bool)
        ensures
            retry == (*self == Error::ChainSubmissionError(ChainFailure::Transport) || *self
                == Error::StorageError),
    {
        match self {
            Error::ChainSubmissionError(ChainFailure::Transport) => true,
            Error::StorageError => true,
            _ => false,
        }
    }
}

} // verus!
