//! Error taxonomy shared by the whole engine.

use vstd::prelude::*;

verus! {

/// Every failure the engine can surface to a synchronous caller.
///
/// `StorageError` reports a failure to access a backing store,
/// `DecodeError` a malformed persisted record, `NotFound` an expected
/// record that is missing, `ExternalServiceError` a market-data source
/// failure other than the recognized empty-range case, and
/// `InvalidLedgerState` a replay invariant violation, such as a sale of
/// more than the held quantity.
#[derive(Clone, Debug, PartialEq)]
pub enum BackendError {
    StorageError(String),
    DecodeError(String),
    NotFound,
    ExternalServiceError(String),
    InvalidLedgerState,
}

pub type WalletResult<T> = Result<T, BackendError>;

} // verus!
