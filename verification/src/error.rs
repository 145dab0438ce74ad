//! Error taxonomy for context management.

use vstd::prelude::*;

verus! {

/// Errors that can occur during context management.
///
/// The compaction engine itself never fails on well-formed input; these
/// variants exist for the storage and configuration boundaries around it.
/// Variants that wrap a lower layer's failure carry its rendered text.
#[derive(Debug, Clone)]
pub enum ContextError {
    /// An I/O failure reported by the storage layer.
    Io(String),
    /// A (de)serialization failure reported by the storage layer.
    Serialization(String),
    /// The requested session identifier is absent in storage.
    SessionNotFound(String),
    /// A loaded session failed structural validation.
    InvalidSession(String),
    /// Reserved for a policy that cannot meet its budget; no current policy
    /// triggers this, since every policy degrades to dropping all droppable turns.
    CompactionFailed(String),
    /// Token estimation failed; unreachable for the built-in estimator.
    TokenEstimation(String),
    /// A storage-layer failure other than plain I/O.
    Storage(String),
    /// Invalid configuration parameters.
    Config(String),
}

} // verus!
