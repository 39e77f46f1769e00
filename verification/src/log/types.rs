//! Record types of the session log.

use vstd::prelude::*;

verus! {

/// Identifier of an agent.
pub type AgentId = String;

/// Identifier of a session.
pub type SessionId = String;

/// Identifier of a log message (a ULID: its text order is its creation order).
pub type MessageId = String;

/// Milliseconds since the Unix epoch.
pub type TimestampMillis = u64;

/// One block of stored reasoning.
#[derive(Debug, Clone, PartialEq, Eq)]
pub enum StoredReasoningContent {
    /// Visible reasoning text with an optional provider signature.
    Text { text: String, signature: Option<String> },
    /// Encrypted reasoning payload.
    Encrypted(String),
    /// Redacted reasoning payload.
    Redacted { data: String },
    /// Reasoning summary.
    Summary(String),
}

/// Reasoning produced by the model for one response.
#[derive(Debug, Clone, PartialEq, Eq)]
pub struct StoredReasoning {
    /// Provider id of the reasoning, if any.
    pub id: Option<String>,
    /// Reasoning blocks in order.
    pub content: Vec<StoredReasoningContent>,
}

/// What a log record holds.
///
/// JSON values (tool arguments and results) are kept as their JSON text.
#[derive(Debug, Clone, PartialEq, Eq)]
pub enum LogMessageKind {
    /// Input written by the user.
    User { content: String },
    /// Text answered by the assistant.
    Assistant {
        content: String,
        provider: Option<String>,
        model: Option<String>,
        provider_response_id: Option<String>,
    },
    /// A tool invocation requested by an assistant response.
    ToolCall {
        tool_name: String,
        arguments: String,
        parent_assistant_id: Option<MessageId>,
        step_id: Option<MessageId>,
    },
    /// Reasoning attached to an assistant response.
    Thinking { reasoning: StoredReasoning, parent_assistant_id: Option<MessageId> },
    /// The result of a tool invocation.
    ToolResult {
        tool_call_id: MessageId,
        result: String,
        is_error: bool,
        error_message: Option<String>,
    },
    /// Start of a conversation turn.
    Turn { turn_number: u64 },
    /// Start of a step inside a turn.
    Step { step_number: u64, turn_id: MessageId },
    /// Summary that replaces the history before it.
    Condensation { summary: String, model_used: Option<String> },
}

/// One record of a session log.
#[derive(Debug, Clone, PartialEq, Eq)]
pub struct LogMessage {
    /// Record id.
    pub id: MessageId,
    /// Agent that owns the session.
    pub agent_id: AgentId,
    /// Display name of the agent.
    pub agent_nickname: String,
    /// Session the record belongs to.
    pub session_id: SessionId,
    /// Creation time.
    pub timestamp: TimestampMillis,
    /// Content of the record.
    pub kind: LogMessageKind,
}

/// Lightweight metadata about a session lifecycle.
#[derive(Debug, Clone, PartialEq, Eq)]
pub struct SessionMeta {
    /// Agent that owns the session.
    pub agent_id: AgentId,
    /// Display name of the agent.
    pub agent_nickname: String,
    /// Session id.
    pub session_id: SessionId,
    /// Creation time.
    pub created_at: TimestampMillis,
    /// Closing time, once closed.
    pub closed_at: Option<TimestampMillis>,
    /// Workflow the session belongs to, if any.
    pub workflow_id: Option<String>,
}

/// An archived record: its id and its opaque payload.
#[derive(Debug, Clone, PartialEq, Eq)]
pub struct StoredLogMessage {
    /// Record id.
    pub id: MessageId,
    /// Encoded record.
    pub payload: Vec<u8>,
}

impl LogMessageKind {
    /// Whether this record is a condensation.
    pub open spec fn spec_is_condensation(&self) -> bool {
        self is Condensation
    }

    /// Whether this record is a condensation.
    pub fn is_condensation(&self) -> (r: bool)
        ensures
            r == self.spec_is_condensation(),
    {
        match self {
            LogMessageKind::Condensation { .. } => true,
            _ => false,
        }
    }
}

} // verus!
