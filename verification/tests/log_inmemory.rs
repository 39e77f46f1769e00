use carisa_core::log::error::LogError;
use carisa_core::log::inmemory::{InMemoryColdStorage, InMemoryLogStorage, InMemorySessionMetaStore};
use carisa_core::log::migration::{migration_step, MigrationAction, MigrationEvent, MigrationState};
use carisa_core::log::types::{LogMessage, LogMessageKind, SessionMeta, StoredLogMessage};

fn message(id: &str) -> LogMessage {
    LogMessage {
        id: id.to_owned(),
        agent_id: "agent".to_owned(),
        agent_nickname: "Agent".to_owned(),
        session_id: "session".to_owned(),
        timestamp: 1,
        kind: LogMessageKind::User { content: id.to_owned() },
    }
}

fn condensation(id: &str) -> LogMessage {
    LogMessage {
        kind: LogMessageKind::Condensation { summary: "condensed".to_owned(), model_used: None },
        ..message(id)
    }
}

fn meta() -> SessionMeta {
    SessionMeta {
        agent_id: "agent".to_owned(),
        agent_nickname: "Agent".to_owned(),
        session_id: "session".to_owned(),
        created_at: 1,
        closed_at: Some(2),
        workflow_id: None,
    }
}

fn ids(messages: &[LogMessage]) -> Vec<&str> {
    messages.iter().map(|m| m.id.as_str()).collect()
}

fn stored(m: &LogMessage) -> StoredLogMessage {
    StoredLogMessage { id: m.id.clone(), payload: m.id.clone().into_bytes() }
}

/// Runs a migration on the in-memory stores; `cold_fails` makes every
/// append to the cold store fail.
fn migrate(
    active: &mut InMemoryLogStorage,
    cold: &mut InMemoryColdStorage,
    metadata: &mut InMemorySessionMetaStore,
    cold_fails: bool,
) -> Result<(), LogError> {
    let mut state = MigrationState::Start;
    let mut event = MigrationEvent::Begin;
    loop {
        let (next, action) = migration_step(state, event);
        state = next;
        event = match action {
            MigrationAction::ReadMeta => MigrationEvent::MetaRead(metadata.get_meta("agent", "session").cloned()),
            MigrationAction::ReadBatch(index) => MigrationEvent::BatchRead(
                active
                    .drain_next_batch("agent", "session", index)
                    .map(|(next, batch)| (next, batch.iter().map(stored).collect())),
            ),
            MigrationAction::AppendBatch(batch) => {
                if cold_fails {
                    return Err(LogError::Backend { message: "cold backend failed".to_owned() });
                }
                cold.append("agent", "session", batch);
                MigrationEvent::BatchAppended
            }
            MigrationAction::ArchiveMeta(m) => {
                cold.put_meta(m);
                MigrationEvent::MetaArchived
            }
            MigrationAction::DeleteSession => {
                active.delete_session("agent", "session");
                MigrationEvent::SessionDeleted
            }
            MigrationAction::DeleteMeta => {
                metadata.delete_meta("agent", "session");
                MigrationEvent::MetaDeleted
            }
            MigrationAction::Finish => return Ok(()),
        };
    }
}

#[test]
fn log_storage_preserves_order() {
    let mut storage = InMemoryLogStorage::new();
    let appended = storage.append("agent", "session", vec![message("one"), message("two")]);
    assert_eq!(appended, vec!["one".to_owned(), "two".to_owned()]);

    let history = storage.history("agent", "session").expect("history should exist");
    assert_eq!(ids(history), ["one", "two"]);

    storage.delete_session("agent", "session");
    assert!(storage.history("agent", "session").is_none());
}

#[test]
fn drain_next_batch_returns_one_batch_per_partition() {
    let mut storage = InMemoryLogStorage::new();
    storage.append("agent", "session", vec![message("one"), condensation("summary"), message("two")]);

    let first = storage.drain_next_batch("agent", "session", 0).map(|(index, batch)| (index, ids(batch)));
    assert_eq!(first, Some((1, vec!["one"])));

    let second = storage.drain_next_batch("agent", "session", 1).map(|(index, batch)| (index, ids(batch)));
    assert_eq!(second, Some((2, vec!["summary", "two"])));

    assert!(storage.drain_next_batch("agent", "session", 2).is_none());
}

#[test]
fn cold_storage_is_idempotent_and_metadata_round_trips() {
    let mut cold = InMemoryColdStorage::new();
    cold.append("agent", "session", vec![stored(&message("one"))]);
    cold.append("agent", "session", vec![stored(&message("one"))]);
    let payloads = cold.messages("agent", "session");
    assert_eq!(payloads.len(), 1);
    assert!(!payloads[0].is_empty());

    cold.put_meta(meta());
    assert_eq!(cold.get_meta("agent", "session"), Some(&meta()));

    let mut metadata = InMemorySessionMetaStore::new();
    metadata.put_meta(meta());
    assert_eq!(metadata.get_meta("agent", "session"), Some(&meta()));
    metadata.delete_meta("agent", "session");
    assert_eq!(metadata.get_meta("agent", "session"), None);
}

#[test]
fn history_starts_at_the_last_condensation() {
    let mut storage = InMemoryLogStorage::new();
    storage.append("agent", "session", vec![message("a"), message("b")]);
    storage.append("agent", "session", vec![message("c"), condensation("s1"), message("d")]);
    assert_eq!(ids(storage.history("agent", "session").unwrap()), ["s1", "d"]);
    storage.append("agent", "session", vec![message("e")]);
    assert_eq!(ids(storage.history("agent", "session").unwrap()), ["s1", "d", "e"]);
    storage.append("agent", "session", vec![condensation("s2"), condensation("s3")]);
    assert_eq!(ids(storage.history("agent", "session").unwrap()), ["s3"]);
}

#[test]
fn appending_nothing_creates_no_session() {
    let mut storage = InMemoryLogStorage::new();
    assert!(storage.append("agent", "session", Vec::new()).is_empty());
    assert!(storage.history("agent", "session").is_none());
    assert!(storage.drain_next_batch("agent", "session", 0).is_none());
}

#[test]
fn every_appended_record_is_drained_once_in_order() {
    let mut storage = InMemoryLogStorage::new();
    storage.append("agent", "session", vec![condensation("s0"), message("a")]);
    storage.append("agent", "session", vec![message("b"), condensation("s1")]);
    let mut drained = Vec::new();
    let mut index = 0;
    while let Some((next, batch)) = storage.drain_next_batch("agent", "session", index) {
        assert_eq!(batch.first().map(|m| m.kind.is_condensation()), Some(true));
        drained.extend(ids(batch).into_iter().map(str::to_owned));
        index = next;
    }
    assert_eq!(drained, ["s0", "a", "b", "s1"]);
}

#[test]
fn sessions_are_kept_apart() {
    let mut storage = InMemoryLogStorage::new();
    storage.append("agent", "one", vec![message("x")]);
    storage.append("agent", "two", vec![message("y")]);
    storage.delete_session("agent", "one");
    assert!(storage.history("agent", "one").is_none());
    assert_eq!(ids(storage.history("agent", "two").unwrap()), ["y"]);
}

#[test]
fn cold_append_skips_known_ids_and_keeps_order() {
    let mut cold = InMemoryColdStorage::new();
    let a = StoredLogMessage { id: "a".to_owned(), payload: vec![1] };
    let b = StoredLogMessage { id: "b".to_owned(), payload: vec![2] };
    let a_again = StoredLogMessage { id: "a".to_owned(), payload: vec![9] };
    cold.append("agent", "session", vec![a.clone(), b.clone(), a_again]);
    cold.append("agent", "session", vec![b, a]);
    assert_eq!(cold.messages("agent", "session"), vec![vec![1], vec![2]]);
    assert!(cold.messages("agent", "other").is_empty());
}

#[test]
fn migrates_and_is_idempotent() {
    let mut active = InMemoryLogStorage::new();
    let mut cold = InMemoryColdStorage::new();
    let mut metadata = InMemorySessionMetaStore::new();
    active.append("agent", "session", vec![message("one")]);
    metadata.put_meta(meta());

    migrate(&mut active, &mut cold, &mut metadata, false).expect("migration should work");
    migrate(&mut active, &mut cold, &mut metadata, false).expect("second migration should work");

    assert!(active.history("agent", "session").is_none());
    assert_eq!(cold.messages("agent", "session").len(), 1);
    assert_eq!(cold.get_meta("agent", "session"), Some(&meta()));
    assert!(metadata.get_meta("agent", "session").is_none());
}

#[test]
fn migrates_messages_from_every_partition() {
    let mut active = InMemoryLogStorage::new();
    let mut cold = InMemoryColdStorage::new();
    let mut metadata = InMemorySessionMetaStore::new();
    active.append("agent", "session", vec![message("one"), condensation("summary"), message("two")]);
    metadata.put_meta(meta());

    migrate(&mut active, &mut cold, &mut metadata, false).expect("migration should work");

    assert_eq!(
        cold.messages("agent", "session"),
        vec![b"one".to_vec(), b"summary".to_vec(), b"two".to_vec()]
    );
}

#[test]
fn keeps_active_messages_when_cold_storage_fails() {
    let mut active = InMemoryLogStorage::new();
    let mut cold = InMemoryColdStorage::new();
    let mut metadata = InMemorySessionMetaStore::new();
    active.append("agent", "session", vec![message("one")]);
    metadata.put_meta(meta());

    let result = migrate(&mut active, &mut cold, &mut metadata, true);

    assert!(result.is_err());
    assert_eq!(active.history("agent", "session").map(Vec::len), Some(1));
    assert!(metadata.get_meta("agent", "session").is_some());
}

#[test]
fn session_without_metadata_is_left_alone() {
    let mut active = InMemoryLogStorage::new();
    let mut cold = InMemoryColdStorage::new();
    let mut metadata = InMemorySessionMetaStore::new();
    active.append("agent", "session", vec![message("one")]);

    migrate(&mut active, &mut cold, &mut metadata, false).expect("migration should work");

    assert_eq!(active.history("agent", "session").map(Vec::len), Some(1));
    assert!(cold.messages("agent", "session").is_empty());
    assert!(cold.get_meta("agent", "session").is_none());
}

#[test]
fn migration_steps_follow_the_protocol() {
    let batch = vec![StoredLogMessage { id: "one".to_owned(), payload: vec![1] }];
    let (s1, a1) = migration_step(MigrationState::Start, MigrationEvent::Begin);
    assert_eq!(a1, MigrationAction::ReadMeta);
    let (s2, a2) = migration_step(s1, MigrationEvent::MetaRead(Some(meta())));
    assert_eq!(a2, MigrationAction::ReadBatch(0));
    let (s3, a3) = migration_step(s2, MigrationEvent::BatchRead(Some((7, batch.clone()))));
    assert_eq!(a3, MigrationAction::AppendBatch(batch));
    let (s4, a4) = migration_step(s3, MigrationEvent::BatchAppended);
    assert_eq!(a4, MigrationAction::ReadBatch(7));
    let (s5, a5) = migration_step(s4, MigrationEvent::BatchRead(None));
    assert_eq!(a5, MigrationAction::ArchiveMeta(meta()));
    let (s6, a6) = migration_step(s5, MigrationEvent::MetaArchived);
    assert_eq!(a6, MigrationAction::DeleteSession);
    let (s7, a7) = migration_step(s6, MigrationEvent::SessionDeleted);
    assert_eq!(a7, MigrationAction::DeleteMeta);
    let (s8, a8) = migration_step(s7, MigrationEvent::MetaDeleted);
    assert_eq!((s8, a8), (MigrationState::Done, MigrationAction::Finish));
    let (s9, a9) = migration_step(MigrationState::Start, MigrationEvent::BatchAppended);
    assert_eq!((s9, a9), (MigrationState::Done, MigrationAction::Finish));
}
