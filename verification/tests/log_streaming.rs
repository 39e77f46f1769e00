use carisa_core::log::error::LogError;
use carisa_core::log::inmemory::InMemoryLogStorage;
use carisa_core::log::streaming::{new_message, new_message_with_id, StreamAction, StreamEvent, StreamRecorder};
use carisa_core::log::types::{LogMessageKind, StoredReasoning, StoredReasoningContent};

fn analysis() -> StoredReasoning {
    StoredReasoning { id: None, content: vec![StoredReasoningContent::Text { text: "analysis".to_owned(), signature: None }] }
}

fn final_event() -> StreamEvent {
    StreamEvent::Final { provider: "provider".to_owned(), model: None, message_id: None, response_id: None }
}

#[test]
fn persists_complete_events_and_emits_deltas() {
    let mut storage = InMemoryLogStorage::new();
    let mut recorder = StreamRecorder::start("agent", "session");
    let mut text_deltas = Vec::new();
    let mut thinking_deltas = Vec::new();
    let mut ids = Vec::new();
    let events = vec![
        StreamEvent::Text("hello".to_owned()),
        StreamEvent::ReasoningDelta("thinking".to_owned()),
        StreamEvent::Reasoning(analysis()),
        StreamEvent::ToolCall { name: "lookup".to_owned(), arguments: r#"{"key":"value"}"#.to_owned() },
        final_event(),
    ];
    for event in events {
        match recorder.step_at(event, 7) {
            StreamAction::Nothing => {}
            StreamAction::UserDelta(d) => text_deltas.push(d),
            StreamAction::ThinkingDelta(d) => thinking_deltas.push(d),
            StreamAction::Persist(batch) => ids.extend(storage.append("agent", "session", batch)),
        }
    }
    let messages = storage.history("agent", "session").expect("history should exist");

    assert_eq!(ids.len(), 3);
    assert_eq!(messages.len(), 3);
    let assistant_id = messages[0].id.as_str();
    assert_eq!(assistant_id.len(), 26);
    assert!(matches!(
        &messages[0].kind,
        LogMessageKind::Assistant { content, provider: Some(p), .. } if content == "hello" && p == "provider"
    ));
    assert!(matches!(
        &messages[1].kind,
        LogMessageKind::Thinking { parent_assistant_id: Some(parent_id), .. } if parent_id == assistant_id
    ));
    assert!(matches!(
        &messages[2].kind,
        LogMessageKind::ToolCall { parent_assistant_id: Some(parent_id), .. } if parent_id == assistant_id
    ));
    assert_ne!(messages[1].id, messages[2].id);
    assert_eq!(text_deltas, ["hello"]);
    assert_eq!(thinking_deltas, ["thinking"]);
}

#[test]
fn text_deltas_merge_into_one_answer_and_transients_are_dropped() {
    let mut recorder = StreamRecorder::new("A".to_owned(), "agent".to_owned(), "session".to_owned());
    assert_eq!(recorder.step(StreamEvent::Text("Hel".to_owned()), "x".to_owned(), 1), StreamAction::UserDelta("Hel".to_owned()));
    assert_eq!(recorder.step(StreamEvent::ToolCallDelta, "x".to_owned(), 2), StreamAction::Nothing);
    assert_eq!(recorder.step(StreamEvent::Unknown, "x".to_owned(), 3), StreamAction::Nothing);
    assert_eq!(recorder.step(StreamEvent::Text("lo".to_owned()), "x".to_owned(), 4), StreamAction::UserDelta("lo".to_owned()));
    let action = recorder.step(
        StreamEvent::Final {
            provider: "p".to_owned(),
            model: Some("m".to_owned()),
            message_id: None,
            response_id: Some("resp".to_owned()),
        },
        "unused".to_owned(),
        9,
    );
    let StreamAction::Persist(batch) = action else {
        panic!("the final item persists the answer");
    };
    assert_eq!(batch.len(), 1);
    assert_eq!(batch[0].id, "A");
    assert_eq!(batch[0].timestamp, 9);
    assert_eq!(
        batch[0].kind,
        LogMessageKind::Assistant {
            content: "Hello".to_owned(),
            provider: Some("p".to_owned()),
            model: Some("m".to_owned()),
            provider_response_id: Some("resp".to_owned()),
        }
    );
}

#[test]
fn message_id_wins_over_response_id() {
    let mut recorder = StreamRecorder::new("A".to_owned(), "agent".to_owned(), "session".to_owned());
    let action = recorder.step(
        StreamEvent::Final {
            provider: "p".to_owned(),
            model: None,
            message_id: Some("msg".to_owned()),
            response_id: Some("resp".to_owned()),
        },
        "unused".to_owned(),
        1,
    );
    let StreamAction::Persist(batch) = action else {
        panic!("the final item persists the answer");
    };
    assert!(matches!(&batch[0].kind, LogMessageKind::Assistant { provider_response_id: Some(id), .. } if id == "msg"));
}

#[test]
fn attached_records_follow_the_answer_in_order() {
    let mut recorder = StreamRecorder::new("A".to_owned(), "agent".to_owned(), "session".to_owned());
    recorder.step(StreamEvent::ToolCall { name: "t1".to_owned(), arguments: "{}".to_owned() }, "c1".to_owned(), 1);
    recorder.step(StreamEvent::Reasoning(analysis()), "r1".to_owned(), 2);
    recorder.step(StreamEvent::ToolCall { name: "t2".to_owned(), arguments: "[]".to_owned() }, "c2".to_owned(), 3);
    let StreamAction::Persist(batch) = recorder.step(final_event(), "unused".to_owned(), 4) else {
        panic!("the final item persists the answer");
    };
    let ids: Vec<&str> = batch.iter().map(|m| m.id.as_str()).collect();
    assert_eq!(ids, ["A", "c1", "r1", "c2"]);
    assert_eq!(batch[1].timestamp, 1);
    assert_eq!(batch[1].agent_id, "agent");
    assert_eq!(batch[1].session_id, "session");
    assert_eq!(
        batch[3].kind,
        LogMessageKind::ToolCall {
            tool_name: "t2".to_owned(),
            arguments: "[]".to_owned(),
            parent_assistant_id: Some("A".to_owned()),
            step_id: None,
        }
    );
    let StreamAction::Persist(second) = recorder.step(final_event(), "unused".to_owned(), 5) else {
        panic!("a second final item persists a second answer");
    };
    assert_eq!(second.len(), 1);
}

#[test]
fn records_are_built_as_given() {
    let kind = LogMessageKind::User { content: "hi".to_owned() };
    let m = new_message_with_id("id-1".to_owned(), "agent", "session", kind.clone(), 42);
    assert_eq!(m.id, "id-1");
    assert_eq!(m.agent_id, "agent");
    assert_eq!(m.agent_nickname, "");
    assert_eq!(m.session_id, "session");
    assert_eq!(m.timestamp, 42);
    assert_eq!(m.kind, kind);
    let fresh = new_message("agent", "session", kind, 43);
    assert_eq!(fresh.id.len(), 26);
    let other = new_message("agent", "session", LogMessageKind::Turn { turn_number: 1 }, 43);
    assert_ne!(fresh.id, other.id);
}

#[test]
fn log_error_messages_are_exact() {
    assert_eq!(LogError::Redis { message: "down".to_owned() }.message(), "Redis backend error: down");
    assert_eq!(LogError::Json { message: "eof".to_owned() }.message(), "JSON error: eof");
    assert_eq!(LogError::Compression { message: "x".to_owned() }.message(), "compression error: x");
    assert_eq!(LogError::Decompression { message: "y".to_owned() }.message(), "decompression error: y");
    assert_eq!(LogError::Completion { message: "stream".to_owned() }.message(), "stream");
    assert_eq!(LogError::Task { message: "join".to_owned() }.message(), "join");
    assert_eq!(
        LogError::InvalidBatchIndex { batch_index: 18 }.message(),
        "batch index 18 cannot be represented by the backend"
    );
    assert_eq!(LogError::Internal { message: "lock".to_owned() }.message(), "internal log storage error: lock");
    assert_eq!(LogError::Backend { message: "cold".to_owned() }.message(), "log storage error: cold");
}
