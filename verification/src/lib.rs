//! Conversation-log context management.
//!
//! This library bounds the size of an evolving conversation log so it stays
//! within a numeric token budget. It provides the session data model with
//! token accounting, three compaction policies sharing one contract, a
//! retention scorer for the priority-based policy, and message-format
//! adapters. Persistence is a collaborator outside this crate.

pub mod compaction;
pub mod error;
pub mod format;
pub mod laws;
pub mod session;

pub use compaction::CompactionStrategy;
pub use compaction::ContextCompactor;
pub use compaction::IntelligentCompactor;
pub use error::ContextError;
pub use format::MessageFormat;
pub use session::Message;
pub use session::MessageRole;
pub use session::Session;

use vstd::prelude::*;

verus! {

/// Default configuration for session management.
pub struct Config {
    /// Maximum number of tokens before compaction is triggered.
    pub max_tokens: usize,
    /// Default compaction strategy.
    pub compaction_strategy: CompactionStrategy,
    /// Base directory for session storage; `None` selects the storage
    /// collaborator's default location.
    pub storage_dir: Option<String>,
    /// Whether to auto-save sessions after each message.
    pub auto_save: bool,
}

impl Default for Config {
    /// A conservative default: compaction at 8000 tokens with the
    /// system-and-recent policy, default storage location, auto-save on.
    fn default() -> (r: Self)
        ensures
            r.max_tokens == 8000,
            r.compaction_strategy == (CompactionStrategy::SystemAndRecent {
                system_tokens: 1000,
                recent_tokens: 6000,
            }),
            r.storage_dir is None,
            r.auto_save == true,
    {
        Self {
            max_tokens: 8000,
            compaction_strategy: CompactionStrategy::SystemAndRecent {
                system_tokens: 1000,
                recent_tokens: 6000,
            },
            storage_dir: None,
            auto_save: true,
        }
    }
}

} // verus!
