use carisa_core::log::error::LogError;
use carisa_core::log::order::sort_by_id;
use carisa_core::log::redis::{
    active_partition_key, append_commands, compress, current_partition_key, decompress, decompress_all,
    delete_commands, drain_batch, drain_partition, meta_key, partition_key, payload_size, EncodedMessage,
    PipelineCommand, RedisLogStorage, DEFAULT_COMPRESS_BLOCKING_THRESHOLD, DEFAULT_ZSTD_LEVEL, INITIAL_PARTITION,
};
use carisa_core::log::types::{LogMessage, LogMessageKind, StoredLogMessage};

const AGENT: &str = "agent-1";
const SESSION: &str = "sess-1";

fn payload(text: &str) -> Vec<u8> {
    compress(text.as_bytes(), DEFAULT_ZSTD_LEVEL).expect("compression should work")
}

fn encoded(id: &str, is_condensation: bool) -> EncodedMessage {
    EncodedMessage { id: id.to_owned(), payload: payload(id), is_condensation }
}

fn hset(partition: i64, e: &EncodedMessage) -> PipelineCommand {
    PipelineCommand::HSet {
        key: partition_key(AGENT, SESSION, partition),
        field: e.id.clone(),
        value: e.payload.clone(),
    }
}

fn pointer() -> String {
    current_partition_key(AGENT, SESSION)
}

fn sample_message(id: &str) -> LogMessage {
    LogMessage {
        id: id.to_owned(),
        agent_id: AGENT.to_owned(),
        agent_nickname: "Agent Smith".to_owned(),
        session_id: SESSION.to_owned(),
        timestamp: 1_700_000_000_000,
        kind: LogMessageKind::User { content: "hello".to_owned() },
    }
}

#[test]
fn keys_follow_the_documented_layout() {
    assert_eq!(partition_key(AGENT, SESSION, 0), "session:agent-1:sess-1:part:0");
    assert_eq!(partition_key(AGENT, SESSION, 42), "session:agent-1:sess-1:part:42");
    assert_eq!(partition_key("a", "b", -7), "session:a:b:part:-7");
    assert_eq!(partition_key("a", "b", i64::MIN), "session:a:b:part:-9223372036854775808");
    assert_eq!(partition_key("a", "b", i64::MAX), "session:a:b:part:9223372036854775807");
    assert_eq!(current_partition_key(AGENT, SESSION), "session:agent-1:sess-1:current_partition");
    assert_eq!(meta_key(AGENT, SESSION), "meta:agent-1:sess-1");
}

#[test]
fn append_single_message_writes_partition_hash_and_initial_pointer() {
    let m = encoded("01J000000000000000000001", false);
    let commands = append_commands(AGENT, SESSION, None, vec![m.clone()]);
    assert_eq!(
        commands,
        vec![PipelineCommand::SetInt { key: pointer(), value: INITIAL_PARTITION }, hset(INITIAL_PARTITION, &m)]
    );
}

#[test]
fn append_condensation_increments_pointer_and_opens_new_partition() {
    let m = encoded("01J000000000000000000002", true);
    let commands = append_commands(AGENT, SESSION, Some(2), vec![m.clone()]);
    assert_eq!(commands, vec![PipelineCommand::Incr { key: pointer(), by: 1 }, hset(3, &m)]);
}

#[test]
fn append_condensation_without_pointer_opens_partition_one() {
    let m = encoded("01J000000000000000000003", true);
    let commands = append_commands(AGENT, SESSION, None, vec![m.clone()]);
    assert_eq!(
        commands,
        vec![
            PipelineCommand::SetInt { key: pointer(), value: INITIAL_PARTITION },
            PipelineCommand::Incr { key: pointer(), by: 1 },
            hset(1, &m),
        ]
    );
}

#[test]
fn append_mixed_batch_advances_partition_per_condensation() {
    let m1 = encoded("01J000000000000000000001", false);
    let m2 = encoded("01J000000000000000000002", true);
    let m3 = encoded("01J000000000000000000003", false);
    let commands = append_commands(AGENT, SESSION, Some(0), vec![m1.clone(), m2.clone(), m3.clone()]);
    assert_eq!(
        commands,
        vec![hset(0, &m1), PipelineCommand::Incr { key: pointer(), by: 1 }, hset(1, &m2), hset(1, &m3)]
    );
}

#[test]
fn partition_numbering_saturates() {
    let m = encoded("x", true);
    let commands = append_commands(AGENT, SESSION, Some(i64::MAX), vec![m.clone()]);
    assert_eq!(commands, vec![PipelineCommand::Incr { key: pointer(), by: 1 }, hset(i64::MAX, &m)]);
}

#[test]
fn append_large_message_compresses_via_spawn_blocking_with_identical_result() {
    let json = "x".repeat(200);
    let storage = RedisLogStorage::from_parts((), DEFAULT_ZSTD_LEVEL, 16);
    assert!(!storage.runs_inline(json.len()));
    let inline = RedisLogStorage::from_parts((), DEFAULT_ZSTD_LEVEL, DEFAULT_COMPRESS_BLOCKING_THRESHOLD);
    assert!(inline.runs_inline(json.len()));
    let a = storage.compress_payload(json.as_bytes()).expect("compression should work");
    let b = inline.compress_payload(json.as_bytes()).expect("compression should work");
    assert_eq!(a, b);
    assert_ne!(a, json.as_bytes());
    assert_eq!(decompress(&a).expect("decompression should work"), json.as_bytes());
}

#[test]
fn history_reads_active_partition_ordered_by_id() {
    assert_eq!(active_partition_key(AGENT, SESSION, Some(1)), partition_key(AGENT, SESSION, 1));
    let m1 = sample_message("01J000000000000000000001");
    let m2 = sample_message("01J000000000000000000002");
    let ordered = sort_by_id(vec![m2.clone(), m1.clone()]);
    assert_eq!(ordered, vec![m1, m2]);
}

#[test]
fn history_without_pointer_reads_an_empty_partition() {
    assert_eq!(active_partition_key(AGENT, SESSION, None), partition_key(AGENT, SESSION, INITIAL_PARTITION));
    let none: Vec<LogMessage> = sort_by_id(Vec::new());
    assert!(none.is_empty());
}

#[test]
fn history_decompresses_large_partition_via_spawn_blocking() {
    let payloads = vec![payload("{\"id\":\"1\"}"), payload("{\"id\":\"2\"}")];
    let total = payloads[0].len() + payloads[1].len();
    assert_eq!(payload_size(&payloads), total);
    let storage = RedisLogStorage::from_parts((), DEFAULT_ZSTD_LEVEL, 16);
    assert!(!storage.runs_inline(payload_size(&payloads)));
    let texts = decompress_all(payloads).expect("decompression should work");
    assert_eq!(texts, vec![b"{\"id\":\"1\"}".to_vec(), b"{\"id\":\"2\"}".to_vec()]);
}

#[test]
fn decompression_failures_are_reported() {
    let err = decompress(b"not a zstd frame").expect_err("garbage should not decompress");
    assert!(matches!(err, LogError::Decompression { .. }));
    let err = decompress_all(vec![payload("ok"), b"garbage".to_vec()]).expect_err("second payload is garbage");
    assert!(matches!(err, LogError::Decompression { .. }));
}

#[test]
fn drain_reads_every_partition_in_order() {
    assert_eq!(drain_partition(0, Some(1)), Ok(Some(0)));
    let p0 = payload("m0");
    let first = drain_batch(0, vec![("01J000000000000000000001".to_owned(), p0.clone())]);
    assert_eq!(
        first,
        Some((1, vec![StoredLogMessage { id: "01J000000000000000000001".to_owned(), payload: p0 }]))
    );
    assert_eq!(drain_partition(1, Some(1)), Ok(Some(1)));
    assert_eq!(drain_partition(2, Some(1)), Ok(None));
    assert_eq!(drain_partition(0, None), Ok(Some(0)));
    assert_eq!(drain_partition(1, None), Ok(None));
}

#[test]
fn drain_orders_a_batch_by_id_and_skips_empty_partitions() {
    let batch = drain_batch(
        4,
        vec![("c".to_owned(), vec![3]), ("a".to_owned(), vec![1]), ("b".to_owned(), vec![2])],
    );
    assert_eq!(
        batch,
        Some((
            5,
            vec![
                StoredLogMessage { id: "a".to_owned(), payload: vec![1] },
                StoredLogMessage { id: "b".to_owned(), payload: vec![2] },
                StoredLogMessage { id: "c".to_owned(), payload: vec![3] },
            ]
        ))
    );
    assert_eq!(drain_batch(4, Vec::new()), None);
    assert_eq!(drain_batch(usize::MAX, vec![("a".to_owned(), vec![])]).map(|(n, _)| n), Some(usize::MAX));
}

#[test]
fn drain_rejects_an_index_past_the_partition_numbers() {
    if usize::BITS == 64 {
        let index = (i64::MAX as usize) + 1;
        assert_eq!(drain_partition(index, Some(5)), Err(LogError::InvalidBatchIndex { batch_index: index }));
        assert_eq!(drain_partition(i64::MAX as usize, Some(i64::MAX)), Ok(Some(i64::MAX)));
    }
}

#[test]
fn delete_session_deletes_pointer_and_all_partitions_up_to_current() {
    assert_eq!(
        delete_commands(AGENT, SESSION, Some(2)),
        vec![
            PipelineCommand::Del { key: pointer() },
            PipelineCommand::Del { key: partition_key(AGENT, SESSION, 0) },
            PipelineCommand::Del { key: partition_key(AGENT, SESSION, 1) },
            PipelineCommand::Del { key: partition_key(AGENT, SESSION, 2) },
        ]
    );
}

#[test]
fn delete_session_without_pointer_deletes_initial_partition() {
    assert_eq!(
        delete_commands(AGENT, SESSION, None),
        vec![
            PipelineCommand::Del { key: pointer() },
            PipelineCommand::Del { key: partition_key(AGENT, SESSION, INITIAL_PARTITION) },
        ]
    );
    assert_eq!(delete_commands(AGENT, SESSION, Some(-1)), vec![PipelineCommand::Del { key: pointer() }]);
}

#[test]
fn put_meta_stores_serialized_json_under_meta_key() {
    assert_eq!(meta_key("agent-1", "sess-1"), "meta:agent-1:sess-1");
}

#[test]
fn builder_keeps_defaults_and_overrides() {
    let client = redis::Client::open("redis://127.0.0.1:6379").expect("a valid url");
    let (_, level, threshold) = RedisLogStorage::builder(client).into_parts();
    assert_eq!((level, threshold), (DEFAULT_ZSTD_LEVEL, DEFAULT_COMPRESS_BLOCKING_THRESHOLD));
    assert_eq!((DEFAULT_ZSTD_LEVEL, DEFAULT_COMPRESS_BLOCKING_THRESHOLD), (3, 8 * 1024));

    let client = redis::Client::open("redis://127.0.0.1:6379").expect("a valid url");
    let (_, level, threshold) =
        RedisLogStorage::builder(client).zstd_level(6).compress_blocking_threshold(64 * 1024).into_parts();
    assert_eq!((level, threshold), (6, 64 * 1024));
}

#[test]
fn storage_keeps_its_parts() {
    let storage = RedisLogStorage::from_parts("conn", 5, 10);
    assert_eq!(*storage.connection(), "conn");
    assert!(storage.runs_inline(9));
    assert!(!storage.runs_inline(10));
}

#[test]
fn compression_round_trips() {
    for text in ["", "a", "{\"kind\":\"User\",\"content\":\"hello\"}"] {
        let frame = compress(text.as_bytes(), DEFAULT_ZSTD_LEVEL).expect("compression should work");
        assert_eq!(decompress(&frame).expect("decompression should work"), text.as_bytes());
    }
}

#[test]
fn sorting_by_id_is_stable_and_uses_character_order() {
    let rec = |id: &str, tag: u8| StoredLogMessage { id: id.to_owned(), payload: vec![tag] };
    let sorted = sort_by_id(vec![rec("b", 1), rec("a", 2), rec("b", 3), rec("ab", 4), rec("", 5), rec("é", 6), rec("z", 7)]);
    let tags: Vec<u8> = sorted.iter().map(|m| m.payload[0]).collect();
    assert_eq!(tags, vec![5, 2, 4, 1, 3, 7, 6]);
}
