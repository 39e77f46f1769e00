//! Session logging for agent interactions and streamed completions.
//!
//! The log keeps a durable history of a session: user input, assistant
//! output, reasoning, tool calls and results, and internal events. This
//! module holds the record types and errors, the projection of a stored
//! history back into conversation messages, the capture of a streamed
//! completion, in-memory storage with condensation partitions and
//! idempotent archival, the storage layout of the Redis backend, and the
//! decisions of the migration of a closed session to cold storage.

pub mod error;
pub mod inmemory;
pub mod json;
pub mod migration;
pub mod order;
pub mod projection;
pub mod redis;
pub mod streaming;
pub mod table;
pub mod types;
