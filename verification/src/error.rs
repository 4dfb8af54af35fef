//! The ways an operation of this crate can fail.

use vstd::prelude::*;

verus! {

/// Why an operation did not succeed.
#[derive(Clone, Copy, Debug, PartialEq, Eq, Structural)]
pub enum ChainError {
    /// The durable storage under the log or the store failed. The operation
    /// in progress is lost; nothing retries it.
    StorageFailure,
    /// What was asked for is not there: a point that no retained record
    /// establishes, or a sequence number that was pruned.
    NotFound,
    /// An invariant of the chain was about to be, or was found, broken.
    InconsistentState,
    /// A live subscriber fell behind further than its buffer allows.
    Lagged,
}

/// How a failure is reported across the protocol boundary.
#[derive(Clone, Copy, Debug, PartialEq, Eq, Structural)]
pub enum StatusCode {
    /// The server could not do its part.
    Internal,
    /// The request names something the server does not have.
    NotFound,
    /// The subscriber lost part of the stream.
    DataLoss,
}

impl ChainError {
    /// The boundary signal for a failure. Storage details do not leak: both
    /// storage failures and broken invariants are plain internal errors.
    pub open spec fn spec_status(self) -> StatusCode {
        match self {
            ChainError::StorageFailure => StatusCode::Internal,
            ChainError::InconsistentState => StatusCode::Internal,
            ChainError::NotFound => StatusCode::NotFound,
            ChainError::Lagged => StatusCode::DataLoss,
        }
    }

    /// The boundary signal for a failure.
    #[verifier::when_used_as_spec(spec_status)]
    pub fn status(self) -> (code: StatusCode)
        ensures
            code == self.spec_status(),
    {
        match self {
            ChainError::StorageFailure => StatusCode::Internal,
            ChainError::InconsistentState => StatusCode::Internal,
            ChainError::NotFound => StatusCode::NotFound,
            ChainError::Lagged => StatusCode::DataLoss,
        }
    }
}

} // verus!
