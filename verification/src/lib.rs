//! Position calculation and historical snapshot engine for an asset wallet.
//!
//! The engine replays a ledger of purchase, sale and split events into
//! point-in-time positions, maintains a weekly time series of snapshots
//! reconciled against stored daily price bars, and coordinates per-symbol
//! exclusion for concurrent callers.
//!
//! Monetary amounts are fixed-point integers in minor currency units
//! (for example cents); instants are Unix timestamps in whole seconds.
//! Callers that deal in other representations convert at the boundary.

pub mod broker;
pub mod dates;
pub mod digits;
pub mod error;
pub mod event;
pub mod historical;
pub mod operation;
pub mod portfolio;
pub mod position;
pub mod price_cache;
pub mod scheduling;
pub mod snapshot;
pub mod symbols;

pub use error::BackendError;
pub use error::WalletResult;
