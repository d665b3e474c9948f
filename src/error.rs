//! The library's error kinds, each with one message.
use vstd::prelude::*;
use crate::text::concat_str;

verus! {

/// Error kinds surfaced to callers.
#[derive(Debug, Clone, PartialEq, Eq)]
pub enum NexusError {
    /// The store is unavailable or failed.
    Database(String),
    /// Malformed input, empty required field, duplicate unique key.
    Validation(String),
    /// Credentials refused.
    Auth(String),
    /// A challenge, peer or row is absent.
    NotFound(String),
    /// A message or payload could not be written or read.
    Serialization(String),
    /// Transport failure, peer unreachable, batch truncated.
    Sync(String),
    /// Input/output failure.
    Io(String),
    /// Anything else.
    Other(String),
}

pub open spec fn error_text(e: NexusError) -> Seq<char> {
    match e {
        NexusError::Database(m) => "Database error: "@ + m@,
        NexusError::Validation(m) => "Validation error: "@ + m@,
        NexusError::Auth(m) => "Authentication error: "@ + m@,
        NexusError::NotFound(m) => "Not found: "@ + m@,
        NexusError::Serialization(m) => "Serialization error: "@ + m@,
        NexusError::Sync(m) => "Synchronization error: "@ + m@,
        NexusError::Io(m) => "I/O error: "@ + m@,
        NexusError::Other(m) => m@,
    }
}

impl NexusError {
    /// The message shown to users: the kind's prefix and the detail.
    pub fn message(&self) -> (r: String)
        ensures
            r@ == error_text(*self),
    {
        match self {
            NexusError::Database(m) => concat_str("Database error: ", m.as_str()),
            NexusError::Validation(m) => concat_str("Validation error: ", m.as_str()),
            NexusError::Auth(m) => concat_str("Authentication error: ", m.as_str()),
            NexusError::NotFound(m) => concat_str("Not found: ", m.as_str()),
            NexusError::Serialization(m) => concat_str("Serialization error: ", m.as_str()),
            NexusError::Sync(m) => concat_str("Synchronization error: ", m.as_str()),
            NexusError::Io(m) => concat_str("I/O error: ", m.as_str()),
            NexusError::Other(m) => m.clone(),
        }
    }
}

} // verus!
