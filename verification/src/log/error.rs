//! Errors shared by storage backends and log operations.

use vstd::prelude::*;

use crate::text::{decimal, usize_text};

verus! {

broadcast use vstd::string::group_string_axioms;

/// Error produced while operating on a session log.
#[derive(Debug, Clone, PartialEq, Eq)]
pub enum LogError {
    /// Error returned by the Redis backend.
    Redis {
        /// Diagnostic message returned by the backend.
        message: String,
    },
    /// Error while serializing or deserializing JSON.
    Json {
        /// Diagnostic message returned by the JSON codec.
        message: String,
    },
    /// Error while compressing a log payload.
    Compression {
        /// Diagnostic message returned by the compressor.
        message: String,
    },
    /// Error while decompressing a log payload.
    Decompression {
        /// Diagnostic message returned by the decompressor.
        message: String,
    },
    /// Error reported by the completion stream.
    Completion {
        /// Diagnostic message of the completion error.
        message: String,
    },
    /// Error joining a blocking task.
    Task {
        /// Diagnostic message of the join error.
        message: String,
    },
    /// The requested cursor cannot be represented by the backend.
    InvalidBatchIndex {
        /// Cursor value that could not be represented.
        batch_index: usize,
    },
    /// An invariant of an in-memory backend was violated.
    Internal {
        /// Description of the violated invariant.
        message: String,
    },
    /// An error reported by a storage backend during a log operation.
    Backend {
        /// Diagnostic message reported by the backend.
        message: String,
    },
}

/// The human-readable text of an error.
pub open spec fn log_error_text(e: LogError) -> Seq<char> {
    match e {
        LogError::Redis { message } => "Redis backend error: "@ + message@,
        LogError::Json { message } => "JSON error: "@ + message@,
        LogError::Compression { message } => "compression error: "@ + message@,
        LogError::Decompression { message } => "decompression error: "@ + message@,
        LogError::Completion { message } => message@,
        LogError::Task { message } => message@,
        LogError::InvalidBatchIndex { batch_index } => "batch index "@ + decimal(batch_index as int)
            + " cannot be represented by the backend"@,
        LogError::Internal { message } => "internal log storage error: "@ + message@,
        LogError::Backend { message } => "log storage error: "@ + message@,
    }
}

impl LogError {
    /// The human-readable text of the error.
    pub fn message(&self) -> (r: String)
        ensures
            r@ == log_error_text(*self),
    {
        let (prefix, body) = match self {
            LogError::Redis { message } => ("Redis backend error: ", message.as_str()),
            LogError::Json { message } => ("JSON error: ", message.as_str()),
            LogError::Compression { message } => ("compression error: ", message.as_str()),
            LogError::Decompression { message } => ("decompression error: ", message.as_str()),
            LogError::Completion { message } => ("", message.as_str()),
            LogError::Task { message } => ("", message.as_str()),
            LogError::InvalidBatchIndex { batch_index } => {
                let mut r = String::from_str("batch index ");
                let n = usize_text(*batch_index);
                r.append(n.as_str());
                r.append(" cannot be represented by the backend");
                proof {
                    reveal_strlit("batch index ");
                    reveal_strlit(" cannot be represented by the backend");
                }
                return r;
            },
            LogError::Internal { message } => ("internal log storage error: ", message.as_str()),
            LogError::Backend { message } => ("log storage error: ", message.as_str()),
        };
        let mut r = String::from_str(prefix);
        r.append(body);
        proof {
            reveal_strlit("");
            reveal_strlit("Redis backend error: ");
            reveal_strlit("JSON error: ");
            reveal_strlit("compression error: ");
            reveal_strlit("decompression error: ");
            reveal_strlit("internal log storage error: ");
            reveal_strlit("log storage error: ");
            assert(r@ =~= log_error_text(*self));
        }
        r
    }
}

} // verus!
