use carisa_core::log::projection::{
    project_to_rig_messages, AssistantContent, Message, ProjectionOptions, ProviderFilter,
    ThinkingPolicy, UserContent,
};
use carisa_core::log::types::{LogMessage, LogMessageKind, StoredReasoning, StoredReasoningContent};

struct OnlyProvider(&'static str);

impl ProviderFilter for OnlyProvider {
    fn accepts(&self, provider: &str) -> bool {
        provider == self.0
    }
}

fn message(id: &str, kind: LogMessageKind) -> LogMessage {
    LogMessage {
        id: id.to_owned(),
        agent_id: "agent".to_owned(),
        agent_nickname: "Agent".to_owned(),
        session_id: "session".to_owned(),
        timestamp: 1,
        kind,
    }
}

fn assistant(id: &str, provider: Option<&str>) -> LogMessage {
    message(
        id,
        LogMessageKind::Assistant {
            content: "answer".to_owned(),
            provider: provider.map(str::to_owned),
            model: None,
            provider_response_id: Some("response-1".to_owned()),
        },
    )
}

fn tool_call(id: &str, parent: &str, arguments: &str) -> LogMessage {
    message(
        id,
        LogMessageKind::ToolCall {
            tool_name: "lookup".to_owned(),
            arguments: arguments.to_owned(),
            parent_assistant_id: Some(parent.to_owned()),
            step_id: None,
        },
    )
}

fn thinking(id: &str, parent: &str, summary: &str) -> LogMessage {
    message(
        id,
        LogMessageKind::Thinking {
            reasoning: StoredReasoning {
                id: None,
                content: vec![StoredReasoningContent::Summary(summary.to_owned())],
            },
            parent_assistant_id: Some(parent.to_owned()),
        },
    )
}

fn always() -> ProjectionOptions {
    ProjectionOptions { thinking_policy: ThinkingPolicy::Always }
}

#[test]
fn projects_assistant_tools_and_thinking_in_order() {
    let logs = vec![
        assistant("assistant", Some("provider")),
        tool_call("tool", "assistant", r#"{"key":"value"}"#),
        message(
            "thinking",
            LogMessageKind::Thinking {
                reasoning: StoredReasoning {
                    id: Some("reasoning".to_owned()),
                    content: vec![StoredReasoningContent::Summary("summary".to_owned())],
                },
                parent_assistant_id: Some("assistant".to_owned()),
            },
        ),
    ];

    let projected = project_to_rig_messages(logs, &always());

    let Some(Message::Assistant { content, .. }) = projected.first() else {
        panic!("expected an assistant message");
    };
    assert!(matches!(content.first(), Some(AssistantContent::Text(_))));
    assert!(matches!(content.get(1), Some(AssistantContent::ToolCall { .. })));
    assert!(matches!(content.get(2), Some(AssistantContent::Reasoning(_))));
}

#[test]
fn omits_orphan_tool_calls_and_projects_tool_errors_as_json() {
    let logs = vec![
        tool_call("orphan", "missing", "{}"),
        message(
            "result",
            LogMessageKind::ToolResult {
                tool_call_id: "orphan".to_owned(),
                result: "null".to_owned(),
                is_error: true,
                error_message: Some("failed".to_owned()),
            },
        ),
    ];

    let projected = project_to_rig_messages(logs, &ProjectionOptions::default());

    assert_eq!(projected.len(), 1);
    let Some(Message::User { content }) = projected.first() else {
        panic!("expected a user message");
    };
    let Some(UserContent::ToolResult { text, .. }) = content.first() else {
        panic!("expected a tool result");
    };
    assert_eq!(text, r#"{"error":"failed"}"#);
}

#[test]
fn ignores_tools_and_thinking_before_their_assistant() {
    let logs = vec![
        tool_call("tool-before-assistant", "assistant", "{}"),
        thinking("thinking-before-assistant", "assistant", "discarded"),
        assistant("assistant", Some("provider")),
    ];

    let projected = project_to_rig_messages(logs, &always());

    let Some(Message::Assistant { content, .. }) = projected.first() else {
        panic!("expected an assistant message");
    };
    assert_eq!(content.len(), 1);
    assert!(matches!(content.first(), Some(AssistantContent::Text(_))));
}

#[test]
fn ignores_tool_calls_with_a_different_parent() {
    let logs = vec![assistant("assistant", Some("provider")), tool_call("wrong-parent", "other-assistant", "{}")];

    let projected = project_to_rig_messages(logs, &ProjectionOptions::default());

    let Some(Message::Assistant { content, .. }) = projected.first() else {
        panic!("expected an assistant message");
    };
    assert_eq!(content.len(), 1);
    assert!(matches!(content.first(), Some(AssistantContent::Text(_))));
}

#[test]
fn flushes_consecutive_assistants_and_user_boundaries() {
    let logs = vec![
        assistant("first", Some("provider")),
        assistant("second", Some("provider")),
        message("user", LogMessageKind::User { content: "hello".to_owned() }),
    ];

    let projected = project_to_rig_messages(logs, &ProjectionOptions::default());

    assert_eq!(projected.len(), 3);
    assert!(matches!(projected.first(), Some(Message::Assistant { .. })));
    assert!(matches!(projected.get(1), Some(Message::Assistant { .. })));
    assert!(matches!(projected.get(2), Some(Message::User { .. })));
}

#[test]
fn emits_tool_results_without_a_matching_tool_call() {
    let logs = vec![message(
        "result",
        LogMessageKind::ToolResult {
            tool_call_id: "missing-call".to_owned(),
            result: r#"{"ok":true}"#.to_owned(),
            is_error: false,
            error_message: None,
        },
    )];

    let projected = project_to_rig_messages(logs, &ProjectionOptions::default());

    assert_eq!(projected.len(), 1);
    assert!(matches!(projected.first(), Some(Message::User { .. })));
}

#[test]
fn preserves_input_order_for_tool_result_before_assistant() {
    let logs = vec![
        message(
            "result",
            LogMessageKind::ToolResult {
                tool_call_id: "call".to_owned(),
                result: r#""done""#.to_owned(),
                is_error: false,
                error_message: None,
            },
        ),
        assistant("assistant", Some("provider")),
    ];

    let projected = project_to_rig_messages(logs, &ProjectionOptions::default());

    assert_eq!(projected.len(), 2);
    assert!(matches!(projected.first(), Some(Message::User { .. })));
    assert!(matches!(projected.get(1), Some(Message::Assistant { .. })));
}

#[test]
fn does_not_attach_tool_calls_after_a_user_boundary() {
    let logs = vec![
        assistant("assistant", Some("provider")),
        message("user", LogMessageKind::User { content: "hello".to_owned() }),
        tool_call("tool-after-user", "assistant", "{}"),
    ];

    let projected = project_to_rig_messages(logs, &ProjectionOptions::default());

    assert_eq!(projected.len(), 2);
    let Some(Message::Assistant { content, .. }) = projected.first() else {
        panic!("expected an assistant message");
    };
    assert_eq!(content.len(), 1);
}

#[test]
fn groups_interleaved_tools_and_thinking_by_content_type() {
    let logs = vec![
        assistant("assistant", Some("provider")),
        thinking("thinking-1", "assistant", "first"),
        tool_call("tool-1", "assistant", "{}"),
        thinking("thinking-2", "assistant", "second"),
    ];

    let projected = project_to_rig_messages(logs, &always());

    let Some(Message::Assistant { content, .. }) = projected.first() else {
        panic!("expected an assistant message");
    };
    assert!(matches!(content.get(1), Some(AssistantContent::ToolCall { .. })));
    assert!(matches!(content.get(2), Some(AssistantContent::Reasoning(_))));
    assert!(matches!(content.get(3), Some(AssistantContent::Reasoning(_))));
}

#[test]
fn applies_thinking_policies() {
    let logs = vec![
        assistant("accepted", Some("accepted-provider")),
        thinking("accepted-thinking", "accepted", "included"),
        assistant("rejected", Some("rejected-provider")),
        thinking("rejected-thinking", "rejected", "excluded"),
    ];

    let projected = project_to_rig_messages(
        logs,
        &ProjectionOptions { thinking_policy: ThinkingPolicy::Conditional(Box::new(OnlyProvider("accepted-provider"))) },
    );

    assert_eq!(projected.len(), 2);
    let Some(Message::Assistant { content: accepted, .. }) = projected.first() else {
        panic!("expected the first message to be an assistant");
    };
    let Some(Message::Assistant { content: rejected, .. }) = projected.get(1) else {
        panic!("expected the second message to be an assistant");
    };
    assert_eq!(accepted.len(), 2);
    assert_eq!(rejected.len(), 1);
}

#[test]
fn ignores_internal_events_and_supports_empty_history() {
    let logs = vec![
        message("turn", LogMessageKind::Turn { turn_number: 1 }),
        message("step", LogMessageKind::Step { step_number: 1, turn_id: "turn".to_owned() }),
        message(
            "condensation",
            LogMessageKind::Condensation { summary: "summary".to_owned(), model_used: None },
        ),
    ];

    assert!(project_to_rig_messages(Vec::new(), &ProjectionOptions::default()).is_empty());
    assert!(project_to_rig_messages(logs, &ProjectionOptions::default()).is_empty());
}

#[test]
fn projects_all_reasoning_content_variants() {
    let reasoning = StoredReasoning {
        id: Some("reasoning".to_owned()),
        content: vec![
            StoredReasoningContent::Text { text: "visible".to_owned(), signature: Some("signature".to_owned()) },
            StoredReasoningContent::Encrypted("encrypted".to_owned()),
            StoredReasoningContent::Redacted { data: "redacted".to_owned() },
            StoredReasoningContent::Summary("summary".to_owned()),
        ],
    };
    let logs = vec![
        assistant("assistant", Some("provider")),
        message(
            "thinking",
            LogMessageKind::Thinking {
                reasoning: reasoning.clone(),
                parent_assistant_id: Some("assistant".to_owned()),
            },
        ),
    ];

    let projected = project_to_rig_messages(logs, &always());

    let Some(Message::Assistant { content, .. }) = projected.first() else {
        panic!("expected an assistant message");
    };
    assert_eq!(content.get(1), Some(&AssistantContent::Reasoning(reasoning)));
}

#[test]
fn projection_is_exact_for_a_mixed_history() {
    let logs = vec![
        assistant("a1", Some("p")),
        tool_call("t1", "a1", r#"{"q":"Rust"}"#),
        thinking("th1", "a1", "why"),
        message(
            "r1",
            LogMessageKind::ToolResult {
                tool_call_id: "call-1".to_owned(),
                result: r#"{"ok":true}"#.to_owned(),
                is_error: false,
                error_message: None,
            },
        ),
        message(
            "r2",
            LogMessageKind::ToolResult {
                tool_call_id: "call-2".to_owned(),
                result: "null".to_owned(),
                is_error: true,
                error_message: None,
            },
        ),
        message("u1", LogMessageKind::User { content: "continue".to_owned() }),
    ];

    let projected = project_to_rig_messages(logs, &always());

    assert_eq!(
        projected,
        vec![
            Message::Assistant {
                id: Some("response-1".to_owned()),
                content: vec![
                    AssistantContent::Text("answer".to_owned()),
                    AssistantContent::ToolCall {
                        id: "t1".to_owned(),
                        name: "lookup".to_owned(),
                        arguments: r#"{"q":"Rust"}"#.to_owned(),
                    },
                    AssistantContent::Reasoning(StoredReasoning {
                        id: None,
                        content: vec![StoredReasoningContent::Summary("why".to_owned())],
                    }),
                ],
            },
            Message::User {
                content: vec![UserContent::ToolResult { call: "call-1".to_owned(), text: r#"{"ok":true}"#.to_owned() }],
            },
            Message::User {
                content: vec![UserContent::ToolResult {
                    call: "call-2".to_owned(),
                    text: r#"{"error":"tool call failed"}"#.to_owned(),
                }],
            },
            Message::User { content: vec![UserContent::Text("continue".to_owned())] },
        ]
    );
}

#[test]
fn never_policy_drops_all_reasoning() {
    let logs = vec![assistant("a", Some("p")), thinking("t", "a", "hidden")];
    let projected = project_to_rig_messages(logs, &ProjectionOptions::default());
    let Some(Message::Assistant { content, .. }) = projected.first() else {
        panic!("expected an assistant message");
    };
    assert_eq!(content.len(), 1);
}
