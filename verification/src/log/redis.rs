//! Storage layout and decisions of the Redis log backend.
//!
//! Session history is stored in per-session partitions. Each partition is a
//! Redis hash whose fields are record ids (ULIDs) and whose values are
//! zstd-compressed JSON payloads. A condensation closes the current
//! partition and opens a new one whose first entry is that condensation, so
//! the active context is the current partition alone.
//!
//! Keys:
//!
//! ```text
//! session:{agent_id}:{session_id}:part:{partition}   HASH<MessageId, payload>
//! session:{agent_id}:{session_id}:current_partition  integer
//! meta:{agent_id}:{session_id}                       JSON SessionMeta
//! ```
//!
//! Partitions are numbered from `0`. This module computes the keys, the
//! commands of each write, the partition a read targets, the order of what
//! a read returns, and the compression of payloads; the caller talks to
//! Redis and runs the commands it is given.

use vstd::prelude::*;

use crate::log::error::LogError;
use crate::log::order::{sort_by_id, sort_by_key, sorted_by_key};
use crate::log::types::StoredLogMessage;
use crate::text::{decimal, i64_text};

verus! {

broadcast use vstd::string::group_string_axioms;

/// Number of the first partition created for a session.
pub const INITIAL_PARTITION: i64 = 0;

/// Default Zstandard compression level.
pub const DEFAULT_ZSTD_LEVEL: i32 = 3;

/// Default payload size at which compression leaves the async executor.
pub const DEFAULT_COMPRESS_BLOCKING_THRESHOLD: usize = 8 * 1024;

// ---------------------------------------------------------------------------
// Outside types

/// A Redis client, which opens connections.
#[verifier::external_type_specification]
#[verifier::external_body]
pub struct ExClient(redis::Client);

/// A managed, reconnecting Redis connection.
#[verifier::external_type_specification]
#[verifier::external_body]
pub struct ExConnectionManager(redis::aio::ConnectionManager);

// ---------------------------------------------------------------------------
// Keys

/// The key of partition `partition` of a session.
pub open spec fn partition_key_text(agent_id: Seq<char>, session_id: Seq<char>, partition: int) -> Seq<
    char,
> {
    "session:"@ + agent_id + ":"@ + session_id + ":part:"@ + decimal(partition)
}

/// The key that holds the number of a session's current partition.
pub open spec fn pointer_key_text(agent_id: Seq<char>, session_id: Seq<char>) -> Seq<char> {
    "session:"@ + agent_id + ":"@ + session_id + ":current_partition"@
}

/// The key of a session's metadata.
pub open spec fn meta_key_text(agent_id: Seq<char>, session_id: Seq<char>) -> Seq<char> {
    "meta:"@ + agent_id + ":"@ + session_id
}

/// `session:{agent_id}:{session_id}`.
fn session_prefix(agent_id: &str, session_id: &str) -> (r: String)
    ensures
        r@ == "session:"@ + agent_id@ + ":"@ + session_id@,
{
    let mut r = String::from_str("session:");
    r.append(agent_id);
    r.append(":");
    r.append(session_id);
    r
}

/// The key of partition `partition` of a session.
pub fn partition_key(agent_id: &str, session_id: &str, partition: i64) -> (r: String)
    ensures
        r@ == partition_key_text(agent_id@, session_id@, partition as int),
{
    let mut r = session_prefix(agent_id, session_id);
    r.append(":part:");
    let n = i64_text(partition);
    r.append(n.as_str());
    proof {
        assert(r@ =~= partition_key_text(agent_id@, session_id@, partition as int));
    }
    r
}

/// The key that holds the number of a session's current partition.
pub fn current_partition_key(agent_id: &str, session_id: &str) -> (r: String)
    ensures
        r@ == pointer_key_text(agent_id@, session_id@),
{
    let mut r = session_prefix(agent_id, session_id);
    r.append(":current_partition");
    proof {
        assert(r@ =~= pointer_key_text(agent_id@, session_id@));
    }
    r
}

/// The key of a session's metadata.
pub fn meta_key(agent_id: &str, session_id: &str) -> (r: String)
    ensures
        r@ == meta_key_text(agent_id@, session_id@),
{
    let mut r = String::from_str("meta:");
    r.append(agent_id);
    r.append(":");
    r.append(session_id);
    proof {
        assert(r@ =~= meta_key_text(agent_id@, session_id@));
    }
    r
}

// ---------------------------------------------------------------------------
// Compression

/// The frame that `zstd::stream::encode_all` produces for `data` at `level`.
pub uninterp spec fn zstd_frame(data: Seq<u8>, level: i32) -> Seq<u8>;

/// The data that `zstd::stream::decode_all` recovers from `frame`.
pub uninterp spec fn zstd_content(frame: Seq<u8>) -> Seq<u8>;

/// Whether `frame` is a zstd frame that `zstd::stream::encode_all` produces
/// for some data at some level.
pub open spec fn is_zstd_frame(frame: Seq<u8>) -> bool {
    exists|data: Seq<u8>, level: i32| frame == #[trigger] zstd_frame(data, level)
}

/// Calls `zstd::stream::encode_all` on `data` at `level`. Compressing a
/// slice in memory succeeds (the level is clamped to the supported range);
/// the result is the zstd frame of `data`, and decoding that frame gives
/// `data` back (zstd is lossless).
#[verifier::external_body]
fn zstd_encode_all(data: &[u8], level: i32) -> (r: Result<Vec<u8>, String>)
    ensures
        r is Ok,
        r matches Ok(frame) ==> frame@ == zstd_frame(data@, level) && zstd_content(frame@) == data@,
{
    zstd::stream::encode_all(data, level).map_err(|error| error.to_string())
}

/// Calls `zstd::stream::decode_all` on `frame`. A frame that `encode_all`
/// produced decodes successfully; on success the result is the content of
/// the frame; a failure carries the error's text. For other input, when the
/// call fails is not stated.
#[verifier::external_body]
fn zstd_decode_all(frame: &[u8]) -> (r: Result<Vec<u8>, String>)
    ensures
        is_zstd_frame(frame@) ==> r is Ok,
        r matches Ok(data) ==> data@ == zstd_content(frame@),
{
    zstd::stream::decode_all(frame).map_err(|error| error.to_string())
}

/// Compresses a JSON payload at `level`; compression of a payload in
/// memory does not fail.
pub fn compress(json: &[u8], level: i32) -> (r: Result<Vec<u8>, LogError>)
    ensures
        r is Ok,
        r matches Ok(frame) ==> frame@ == zstd_frame(json@, level) && zstd_content(frame@) == json@,
{
    match zstd_encode_all(json, level) {
        Ok(frame) => Ok(frame),
        Err(message) => Err(LogError::Compression { message }),
    }
}

/// Decompresses a payload back into its JSON text; a payload that
/// [`compress`] produced always decompresses, to the text it compressed.
pub fn decompress(compressed: &[u8]) -> (r: Result<Vec<u8>, LogError>)
    ensures
        is_zstd_frame(compressed@) ==> r is Ok,
        match r {
            Ok(json) => json@ == zstd_content(compressed@),
            Err(e) => e is Decompression,
        },
{
    match zstd_decode_all(compressed) {
        Ok(json) => Ok(json),
        Err(message) => Err(LogError::Decompression { message }),
    }
}

/// Decompresses a batch of payloads, returning their JSON texts in the same
/// order, or the first failure.
pub fn decompress_all(payloads: Vec<Vec<u8>>) -> (r: Result<Vec<Vec<u8>>, LogError>)
    ensures
        (forall|i: int| 0 <= i < payloads@.len() ==> is_zstd_frame(#[trigger] payloads@[i]@)) ==> r is Ok,
        match r {
            Ok(texts) => texts@.len() == payloads@.len() && forall|i: int|
                0 <= i < texts@.len() ==> (#[trigger] texts@[i])@ == zstd_content(payloads@[i]@),
            Err(e) => e is Decompression,
        },
{
    let mut texts: Vec<Vec<u8>> = Vec::new();
    let mut i: usize = 0;
    while i < payloads.len()
        invariant
            i <= payloads@.len(),
            texts@.len() == i,
            forall|j: int| 0 <= j < i ==> (#[trigger] texts@[j])@ == zstd_content(payloads@[j]@),
        decreases payloads@.len() - i,
    {
        let json = decompress(payloads[i].as_slice())?;
        texts.push(json);
        i = i + 1;
    }
    Ok(texts)
}

/// The total size of a batch of payloads, saturating at `usize::MAX`.
pub open spec fn total_size(payloads: Seq<Seq<u8>>) -> int
    decreases payloads.len(),
{
    if payloads.len() == 0 {
        0
    } else {
        total_size(payloads.drop_last()) + payloads.last().len()
    }
}

/// The total size of a batch of payloads, saturating at `usize::MAX`.
pub fn payload_size(payloads: &Vec<Vec<u8>>) -> (r: usize)
    ensures
        r == if total_size(payloads@.map_values(|p: Vec<u8>| p@)) <= usize::MAX {
            total_size(payloads@.map_values(|p: Vec<u8>| p@))
        } else {
            usize::MAX as int
        },
{
    let ghost views = payloads@.map_values(|p: Vec<u8>| p@);
    let mut total: usize = 0;
    let mut i: usize = 0;
    while i < payloads.len()
        invariant
            i <= payloads@.len(),
            views == payloads@.map_values(|p: Vec<u8>| p@),
            total == if total_size(views.take(i as int)) <= usize::MAX {
                total_size(views.take(i as int))
            } else {
                usize::MAX as int
            },
        decreases payloads@.len() - i,
    {
        proof {
            assert(views.take(i + 1).drop_last() =~= views.take(i as int));
            assert(views.take(i + 1).last() == payloads@[i as int]@);
        }
        total = total.saturating_add(payloads[i].len());
        i = i + 1;
    }
    proof {
        assert(views.take(payloads@.len() as int) =~= views);
    }
    total
}

// ---------------------------------------------------------------------------
// Storage and builder

/// Redis storage for session messages and metadata, generic over the
/// connection so that another connection can stand in for the managed one.
#[derive(Debug, Clone)]
pub struct RedisLogStorage<C> {
    connection: C,
    zstd_level: i32,
    compress_blocking_threshold: usize,
}

impl<C> RedisLogStorage<C> {
    /// The connection the storage talks through.
    pub closed spec fn spec_connection(&self) -> C {
        self.connection
    }

    /// The Zstandard level payloads are compressed at.
    pub closed spec fn spec_zstd_level(&self) -> i32 {
        self.zstd_level
    }

    /// The payload size from which compression leaves the async executor.
    pub closed spec fn spec_threshold(&self) -> usize {
        self.compress_blocking_threshold
    }

    /// Builds storage from an already-constructed connection.
    pub fn from_parts(connection: C, zstd_level: i32, compress_blocking_threshold: usize) -> (r: Self)
        ensures
            r.spec_connection() == connection,
            r.spec_zstd_level() == zstd_level,
            r.spec_threshold() == compress_blocking_threshold,
    {
        RedisLogStorage { connection, zstd_level, compress_blocking_threshold }
    }

    /// The connection the storage talks through.
    pub fn connection(&self) -> (r: &C)
        ensures
            *r == self.spec_connection(),
    {
        &self.connection
    }

    /// Whether work on `size` payload bytes runs inline, below the blocking
    /// threshold, rather than on the blocking pool.
    pub fn runs_inline(&self, size: usize) -> (r: bool)
        ensures
            r == (size < self.spec_threshold()),
    {
        size < self.compress_blocking_threshold
    }

    /// Compresses a JSON payload at the storage's level.
    pub fn compress_payload(&self, json: &[u8]) -> (r: Result<Vec<u8>, LogError>)
        ensures
            r is Ok,
            r matches Ok(frame) ==> frame@ == zstd_frame(json@, self.spec_zstd_level()) && zstd_content(
                frame@,
            ) == json@,
    {
        compress(json, self.zstd_level)
    }
}

impl RedisLogStorage<redis::aio::ConnectionManager> {
    /// Starts a builder for storage with non-default settings.
    pub fn builder(client: redis::Client) -> (r: RedisLogStorageBuilder)
        ensures
            r.spec_client() == client,
            r@ == (DEFAULT_ZSTD_LEVEL, DEFAULT_COMPRESS_BLOCKING_THRESHOLD),
    {
        RedisLogStorageBuilder::new(client)
    }
}

/// Builder for configuring a Redis log storage.
#[derive(Debug)]
pub struct RedisLogStorageBuilder {
    client: redis::Client,
    zstd_level: i32,
    compress_blocking_threshold: usize,
}

impl View for RedisLogStorageBuilder {
    /// The compression level and the blocking threshold.
    type V = (i32, usize);

    closed spec fn view(&self) -> (i32, usize) {
        (self.zstd_level, self.compress_blocking_threshold)
    }
}

impl RedisLogStorageBuilder {
    /// The client the storage will connect through.
    pub closed spec fn spec_client(&self) -> redis::Client {
        self.client
    }

    fn new(client: redis::Client) -> (r: Self)
        ensures
            r.spec_client() == client,
            r@ == (DEFAULT_ZSTD_LEVEL, DEFAULT_COMPRESS_BLOCKING_THRESHOLD),
    {
        RedisLogStorageBuilder {
            client,
            zstd_level: DEFAULT_ZSTD_LEVEL,
            compress_blocking_threshold: DEFAULT_COMPRESS_BLOCKING_THRESHOLD,
        }
    }

    /// Sets the Zstandard compression level.
    pub fn zstd_level(self, level: i32) -> (r: Self)
        ensures
            r.spec_client() == self.spec_client(),
            r@ == (level, self@.1),
    {
        RedisLogStorageBuilder { zstd_level: level, ..self }
    }

    /// Sets the payload size at which compression runs on the blocking pool.
    pub fn compress_blocking_threshold(self, threshold: usize) -> (r: Self)
        ensures
            r.spec_client() == self.spec_client(),
            r@ == (self@.0, threshold),
    {
        RedisLogStorageBuilder { compress_blocking_threshold: threshold, ..self }
    }

    /// The client and the settings, to open the managed connection with.
    pub fn into_parts(self) -> (r: (redis::Client, i32, usize))
        ensures
            r.0 == self.spec_client(),
            (r.1, r.2) == self@,
    {
        (self.client, self.zstd_level, self.compress_blocking_threshold)
    }
}

// ---------------------------------------------------------------------------
// Writes

/// One command of an atomic Redis pipeline.
#[derive(Debug, Clone, PartialEq, Eq)]
pub enum PipelineCommand {
    /// `SET key value`.
    SetInt { key: String, value: i64 },
    /// `INCRBY key by`.
    Incr { key: String, by: i64 },
    /// `HSET key field value`.
    HSet { key: String, field: String, value: Vec<u8> },
    /// `DEL key`.
    Del { key: String },
}

/// Abstract content of a [`PipelineCommand`].
pub enum CommandView {
    SetInt(Seq<char>, i64),
    Incr(Seq<char>, i64),
    HSet(Seq<char>, Seq<char>, Seq<u8>),
    Del(Seq<char>),
}

impl View for PipelineCommand {
    type V = CommandView;

    open spec fn view(&self) -> CommandView {
        match self {
            PipelineCommand::SetInt { key, value } => CommandView::SetInt(key@, *value),
            PipelineCommand::Incr { key, by } => CommandView::Incr(key@, *by),
            PipelineCommand::HSet { key, field, value } => CommandView::HSet(key@, field@, value@),
            PipelineCommand::Del { key } => CommandView::Del(key@),
        }
    }
}

/// A record ready to be written: its id, its compressed payload and whether
/// it is a condensation.
#[derive(Debug, Clone, PartialEq, Eq)]
pub struct EncodedMessage {
    /// Record id.
    pub id: String,
    /// Compressed payload.
    pub payload: Vec<u8>,
    /// Whether the record is a condensation.
    pub is_condensation: bool,
}

/// The partition a record lands in when the current one is `p`: a
/// condensation opens the next partition (the number saturates).
pub open spec fn next_partition(p: i64, e: EncodedMessage) -> i64 {
    if e.is_condensation {
        if p < i64::MAX {
            (p + 1) as i64
        } else {
            p
        }
    } else {
        p
    }
}

/// The current partition after writing `es` from partition `start`.
pub open spec fn partition_after(start: i64, es: Seq<EncodedMessage>) -> i64
    decreases es.len(),
{
    if es.len() == 0 {
        start
    } else {
        next_partition(partition_after(start, es.drop_last()), es.last())
    }
}

/// The commands that write `es` from partition `start`: each condensation
/// increments the pointer before its record is written, and each record is
/// written into the partition it lands in.
pub open spec fn entry_commands(
    agent_id: Seq<char>,
    session_id: Seq<char>,
    start: i64,
    es: Seq<EncodedMessage>,
) -> Seq<CommandView>
    decreases es.len(),
{
    if es.len() == 0 {
        Seq::empty()
    } else {
        let e = es.last();
        let p = partition_after(start, es);
        entry_commands(agent_id, session_id, start, es.drop_last()) + (if e.is_condensation {
            seq![CommandView::Incr(pointer_key_text(agent_id, session_id), 1)]
        } else {
            Seq::empty()
        }) + seq![CommandView::HSet(partition_key_text(agent_id, session_id, p as int), e.id@, e.payload@)]
    }
}

/// The pipeline of an append: the pointer is initialized to the first
/// partition when it does not exist yet, then the records are written.
pub open spec fn append_plan(
    agent_id: Seq<char>,
    session_id: Seq<char>,
    current: Option<i64>,
    es: Seq<EncodedMessage>,
) -> Seq<CommandView> {
    (if current is None {
        seq![CommandView::SetInt(pointer_key_text(agent_id, session_id), INITIAL_PARTITION)]
    } else {
        Seq::empty()
    }) + entry_commands(
        agent_id,
        session_id,
        match current {
            Some(p) => p,
            None => INITIAL_PARTITION,
        },
        es,
    )
}

/// The number of condensations among `es`.
pub open spec fn condensations(es: Seq<EncodedMessage>) -> int
    decreases es.len(),
{
    if es.len() == 0 {
        0
    } else {
        condensations(es.drop_last()) + if es.last().is_condensation {
            1int
        } else {
            0
        }
    }
}

/// Each condensation opens one partition: unless the numbering saturates,
/// the current partition after a write is the one before it plus the number
/// of condensations written.
pub proof fn lemma_partition_counts_condensations(start: i64, es: Seq<EncodedMessage>)
    requires
        start + condensations(es) <= i64::MAX,
    ensures
        partition_after(start, es) == start + condensations(es),
    decreases es.len(),
{
    if es.len() > 0 {
        lemma_condensations_nonneg(es.drop_last());
        lemma_partition_counts_condensations(start, es.drop_last());
    }
}

proof fn lemma_condensations_nonneg(es: Seq<EncodedMessage>)
    ensures
        condensations(es) >= 0,
    decreases es.len(),
{
    if es.len() > 0 {
        lemma_condensations_nonneg(es.drop_last());
    }
}

/// The number of pointer increments among `cmds`.
pub open spec fn increments(cmds: Seq<CommandView>) -> int
    decreases cmds.len(),
{
    if cmds.len() == 0 {
        0
    } else {
        increments(cmds.drop_last()) + if cmds.last() is Incr {
            1int
        } else {
            0
        }
    }
}

proof fn lemma_increments_concat(x: Seq<CommandView>, y: Seq<CommandView>)
    ensures
        increments(x + y) == increments(x) + increments(y),
    decreases y.len(),
{
    if y.len() == 0 {
        assert(x + y =~= x);
    } else {
        lemma_increments_concat(x, y.drop_last());
        assert((x + y).drop_last() =~= x + y.drop_last());
    }
}

/// What an append leaves for `history` to read: its pipeline increments the
/// pointer once per condensation, so the pointer ends at the partition the
/// last record is written to (the numbering saturating aside, see
/// [`lemma_partition_counts_condensations`]).
pub proof fn lemma_append_ends_in_current_partition(
    agent_id: Seq<char>,
    session_id: Seq<char>,
    start: i64,
    es: Seq<EncodedMessage>,
)
    ensures
        increments(entry_commands(agent_id, session_id, start, es)) == condensations(es),
        es.len() > 0 ==> entry_commands(agent_id, session_id, start, es).last() == CommandView::HSet(
            partition_key_text(agent_id, session_id, partition_after(start, es) as int),
            es.last().id@,
            es.last().payload@,
        ),
    decreases es.len(),
{
    if es.len() > 0 {
        let e = es.last();
        lemma_append_ends_in_current_partition(agent_id, session_id, start, es.drop_last());
        let prev = entry_commands(agent_id, session_id, start, es.drop_last());
        let mid: Seq<CommandView> = if e.is_condensation {
            seq![CommandView::Incr(pointer_key_text(agent_id, session_id), 1)]
        } else {
            Seq::empty()
        };
        let tail = seq![
            CommandView::HSet(
                partition_key_text(agent_id, session_id, partition_after(start, es) as int),
                e.id@,
                e.payload@,
            ),
        ];
        lemma_increments_concat(prev, mid);
        lemma_increments_concat(prev + mid, tail);
        assert(tail.drop_last() =~= Seq::<CommandView>::empty());
        assert(increments(Seq::<CommandView>::empty()) == 0);
        assert(!(tail.last() is Incr));
        assert(increments(tail) == 0);
        if e.is_condensation {
            assert(mid.drop_last() =~= Seq::<CommandView>::empty());
            assert(increments(mid) == 1);
        } else {
            assert(increments(mid) == 0);
        }
        assert(entry_commands(agent_id, session_id, start, es) == prev + mid + tail);
    }
}

/// The value the key `key` holds after the commands `cmds` run, as Redis
/// runs them, when it held `value` before (`None` when it does not exist):
/// `SET` stores the integer, `INCRBY` adds to the integer (a missing key
/// counts as `0`), `DEL` removes the key, and `HSET` on another key leaves
/// it alone.
pub open spec fn integer_after(value: Option<int>, cmds: Seq<CommandView>, key: Seq<char>) -> Option<int>
    decreases cmds.len(),
{
    if cmds.len() == 0 {
        value
    } else {
        let before = integer_after(value, cmds.drop_last(), key);
        match cmds.last() {
            CommandView::SetInt(k, v) => if k == key {
                Some(v as int)
            } else {
                before
            },
            CommandView::Incr(k, by) => if k == key {
                Some(
                    match before {
                        Some(x) => x,
                        None => 0,
                    } + by,
                )
            } else {
                before
            },
            CommandView::Del(k) => if k == key {
                None
            } else {
                before
            },
            CommandView::HSet(..) => before,
        }
    }
}

proof fn lemma_integer_after_concat(value: Option<int>, x: Seq<CommandView>, y: Seq<CommandView>, key: Seq<char>)
    ensures
        integer_after(value, x + y, key) == integer_after(integer_after(value, x, key), y, key),
    decreases y.len(),
{
    if y.len() == 0 {
        assert(x + y =~= x);
    } else {
        lemma_integer_after_concat(value, x, y.drop_last(), key);
        assert((x + y).drop_last() =~= x + y.drop_last());
        assert((x + y).last() == y.last());
    }
}

proof fn lemma_entry_commands_pointer(
    agent_id: Seq<char>,
    session_id: Seq<char>,
    start: i64,
    es: Seq<EncodedMessage>,
    value: int,
)
    ensures
        integer_after(Some(value), entry_commands(agent_id, session_id, start, es), pointer_key_text(agent_id, session_id))
            == Some(value + condensations(es)),
    decreases es.len(),
{
    let key = pointer_key_text(agent_id, session_id);
    if es.len() == 0 {
        assert(integer_after(Some(value), Seq::<CommandView>::empty(), key) == Some(value));
    } else {
        let e = es.last();
        lemma_entry_commands_pointer(agent_id, session_id, start, es.drop_last(), value);
        let prev = entry_commands(agent_id, session_id, start, es.drop_last());
        let mid: Seq<CommandView> = if e.is_condensation {
            seq![CommandView::Incr(key, 1)]
        } else {
            Seq::empty()
        };
        let tail = seq![
            CommandView::HSet(
                partition_key_text(agent_id, session_id, partition_after(start, es) as int),
                e.id@,
                e.payload@,
            ),
        ];
        assert(entry_commands(agent_id, session_id, start, es) == prev + mid + tail);
        lemma_integer_after_concat(Some(value), prev, mid, key);
        lemma_integer_after_concat(Some(value), prev + mid, tail, key);
        let p0 = integer_after(Some(value), prev, key);
        assert(tail.drop_last() =~= Seq::<CommandView>::empty());
        assert(integer_after(integer_after(p0, mid, key), Seq::<CommandView>::empty(), key) == integer_after(
            p0,
            mid,
            key,
        ));
        if e.is_condensation {
            assert(mid.drop_last() =~= Seq::<CommandView>::empty());
            assert(integer_after(p0, Seq::<CommandView>::empty(), key) == p0);
        } else {
            assert(integer_after(p0, mid, key) == p0);
        }
    }
}

/// What `history` reads after an append: running the append's pipeline on
/// a session whose pointer read `current` leaves the pointer at the
/// partition it read (the first one when it did not exist) plus one per
/// condensation written; unless the numbering saturates, that is the
/// partition the last record was written to, which `history` then reads.
pub proof fn lemma_append_moves_pointer(
    agent_id: Seq<char>,
    session_id: Seq<char>,
    current: Option<i64>,
    es: Seq<EncodedMessage>,
)
    ensures
        integer_after(
            match current {
                Some(p) => Some(p as int),
                None => None,
            },
            append_plan(agent_id, session_id, current, es),
            pointer_key_text(agent_id, session_id),
        ) == Some(pointed_partition(current) + condensations(es)),
        pointed_partition(current) + condensations(es) <= i64::MAX ==> partition_after(
            pointed_partition(current),
            es,
        ) == pointed_partition(current) + condensations(es),
{
    let key = pointer_key_text(agent_id, session_id);
    let init = match current {
        Some(p) => Some(p as int),
        None => None,
    };
    let head: Seq<CommandView> = if current is None {
        seq![CommandView::SetInt(key, INITIAL_PARTITION)]
    } else {
        Seq::empty()
    };
    let start = pointed_partition(current);
    assert(append_plan(agent_id, session_id, current, es) == head + entry_commands(agent_id, session_id, start, es));
    lemma_integer_after_concat(init, head, entry_commands(agent_id, session_id, start, es), key);
    if current is None {
        assert(head.drop_last() =~= Seq::<CommandView>::empty());
        assert(integer_after(init, Seq::<CommandView>::empty(), key) == init);
    } else {
        assert(integer_after(init, head, key) == init);
    }
    lemma_entry_commands_pointer(agent_id, session_id, start, es, start as int);
    if start + condensations(es) <= i64::MAX {
        lemma_partition_counts_condensations(start, es);
    }
}

/// The hash writes among `cmds`, in order: the hash key, the field and the
/// value of each `HSET`.
pub open spec fn hash_writes(cmds: Seq<CommandView>) -> Seq<(Seq<char>, Seq<char>, Seq<u8>)>
    decreases cmds.len(),
{
    if cmds.len() == 0 {
        Seq::empty()
    } else {
        hash_writes(cmds.drop_last()) + match cmds.last() {
            CommandView::HSet(k, f, v) => seq![(k, f, v)],
            _ => Seq::empty(),
        }
    }
}

proof fn lemma_hash_writes_concat(x: Seq<CommandView>, y: Seq<CommandView>)
    ensures
        hash_writes(x + y) == hash_writes(x) + hash_writes(y),
    decreases y.len(),
{
    if y.len() == 0 {
        assert(x + y =~= x);
        assert(hash_writes(x) + Seq::empty() =~= hash_writes(x));
    } else {
        lemma_hash_writes_concat(x, y.drop_last());
        assert((x + y).drop_last() =~= x + y.drop_last());
        assert((x + y).last() == y.last());
        assert(hash_writes(x) + hash_writes(y.drop_last()) + hash_writes(y.drop_last().push(y.last())).skip(
            hash_writes(y.drop_last()).len() as int,
        ) =~= hash_writes(x) + hash_writes(y)) by {
            assert(y.drop_last().push(y.last()) =~= y);
        }
    }
}

/// Whether `c` only touches the pointer of the session: it sets it to the
/// first partition or increments it by one.
pub open spec fn touches_pointer_only(c: CommandView, agent_id: Seq<char>, session_id: Seq<char>) -> bool {
    c == CommandView::SetInt(pointer_key_text(agent_id, session_id), INITIAL_PARTITION) || c
        == CommandView::Incr(pointer_key_text(agent_id, session_id), 1)
}

proof fn lemma_entry_commands_writes(
    agent_id: Seq<char>,
    session_id: Seq<char>,
    start: i64,
    es: Seq<EncodedMessage>,
)
    ensures
        hash_writes(entry_commands(agent_id, session_id, start, es)).len() == es.len(),
        forall|i: int|
            0 <= i < es.len() ==> #[trigger] hash_writes(entry_commands(agent_id, session_id, start, es))[i]
                == (
                partition_key_text(agent_id, session_id, partition_after(start, es.take(i + 1)) as int),
                es[i].id@,
                es[i].payload@,
            ),
        forall|k: int|
            0 <= k < entry_commands(agent_id, session_id, start, es).len() ==> {
                let c = #[trigger] entry_commands(agent_id, session_id, start, es)[k];
                c is HSet || touches_pointer_only(c, agent_id, session_id)
            },
    decreases es.len(),
{
    if es.len() > 0 {
        let n = es.len() - 1;
        let e = es.last();
        let init = es.drop_last();
        lemma_entry_commands_writes(agent_id, session_id, start, init);
        let prev = entry_commands(agent_id, session_id, start, init);
        let mid: Seq<CommandView> = if e.is_condensation {
            seq![CommandView::Incr(pointer_key_text(agent_id, session_id), 1)]
        } else {
            Seq::empty()
        };
        let t = (partition_key_text(agent_id, session_id, partition_after(start, es) as int), e.id@, e.payload@);
        let tail = seq![CommandView::HSet(t.0, t.1, t.2)];
        let all = entry_commands(agent_id, session_id, start, es);
        assert(all == prev + mid + tail);
        lemma_hash_writes_concat(prev, mid);
        lemma_hash_writes_concat(prev + mid, tail);
        assert(tail.drop_last() =~= Seq::<CommandView>::empty());
        assert(hash_writes(Seq::<CommandView>::empty()) =~= Seq::<(Seq<char>, Seq<char>, Seq<u8>)>::empty());
        assert(hash_writes(tail) =~= seq![t]);
        if e.is_condensation {
            assert(mid.drop_last() =~= Seq::<CommandView>::empty());
            assert(hash_writes(mid) =~= Seq::<(Seq<char>, Seq<char>, Seq<u8>)>::empty());
        } else {
            assert(hash_writes(mid) =~= Seq::<(Seq<char>, Seq<char>, Seq<u8>)>::empty());
        }
        let w = hash_writes(all);
        assert(w =~= hash_writes(prev).push(t));
        assert forall|i: int| 0 <= i < es.len() implies #[trigger] w[i] == (
            partition_key_text(agent_id, session_id, partition_after(start, es.take(i + 1)) as int),
            es[i].id@,
            es[i].payload@,
        ) by {
            if i < n {
                assert(w[i] == hash_writes(prev)[i]);
                assert(init.take(i + 1) =~= es.take(i + 1));
                assert(init[i] == es[i]);
            } else {
                assert(es.take(i + 1) =~= es);
            }
        }
        assert forall|k: int| 0 <= k < all.len() implies {
            let c = #[trigger] all[k];
            c is HSet || touches_pointer_only(c, agent_id, session_id)
        } by {
            if k < prev.len() {
                assert(all[k] == prev[k]);
            } else if k < prev.len() + mid.len() {
                assert(all[k] == mid[k - prev.len()]);
            } else {
                assert(all[k] == tail[k - prev.len() - mid.len()]);
            }
        }
    }
}

/// Where an append puts each record: its pipeline writes the records in
/// order, one hash write each, record `i` under its id with its payload into
/// the partition it lands in, which (unless the numbering saturates) is the
/// partition the pointer read (the first one when it did not exist) plus
/// the number of condensations among the records up to and including it;
/// every other command only sets the missing pointer to the first
/// partition or increments it.
pub proof fn lemma_append_places_records(
    agent_id: Seq<char>,
    session_id: Seq<char>,
    current: Option<i64>,
    es: Seq<EncodedMessage>,
)
    ensures
        hash_writes(append_plan(agent_id, session_id, current, es)).len() == es.len(),
        forall|i: int|
            0 <= i < es.len() ==> #[trigger] hash_writes(append_plan(agent_id, session_id, current, es))[i]
                == (
                partition_key_text(
                    agent_id,
                    session_id,
                    partition_after(pointed_partition(current), es.take(i + 1)) as int,
                ),
                es[i].id@,
                es[i].payload@,
            ),
        forall|i: int|
            0 <= i < es.len() && pointed_partition(current) + condensations(#[trigger] es.take(i + 1))
                <= i64::MAX ==> partition_after(pointed_partition(current), es.take(i + 1))
                == pointed_partition(current) + condensations(es.take(i + 1)),
        forall|k: int|
            0 <= k < append_plan(agent_id, session_id, current, es).len() ==> {
                let c = #[trigger] append_plan(agent_id, session_id, current, es)[k];
                c is HSet || touches_pointer_only(c, agent_id, session_id)
            },
{
    let start = pointed_partition(current);
    let head: Seq<CommandView> = if current is None {
        seq![CommandView::SetInt(pointer_key_text(agent_id, session_id), INITIAL_PARTITION)]
    } else {
        Seq::empty()
    };
    let body = entry_commands(agent_id, session_id, start, es);
    let plan = append_plan(agent_id, session_id, current, es);
    assert(plan == head + body);
    lemma_entry_commands_writes(agent_id, session_id, start, es);
    lemma_hash_writes_concat(head, body);
    assert(hash_writes(Seq::<CommandView>::empty()) =~= Seq::<(Seq<char>, Seq<char>, Seq<u8>)>::empty());
    if current is None {
        assert(head.drop_last() =~= Seq::<CommandView>::empty());
    }
    assert(hash_writes(head) =~= Seq::<(Seq<char>, Seq<char>, Seq<u8>)>::empty());
    assert(hash_writes(plan) =~= hash_writes(body));
    assert forall|i: int|
        0 <= i < es.len() && start + condensations(#[trigger] es.take(i + 1)) <= i64::MAX implies partition_after(
        start,
        es.take(i + 1),
    ) == start + condensations(es.take(i + 1)) by {
        lemma_partition_counts_condensations(start, es.take(i + 1));
    }
    assert forall|k: int| 0 <= k < plan.len() implies {
        let c = #[trigger] plan[k];
        c is HSet || touches_pointer_only(c, agent_id, session_id)
    } by {
        if k < head.len() {
            assert(plan[k] == head[k]);
        } else {
            assert(plan[k] == body[k - head.len()]);
        }
    }
}

/// The pipeline that writes `encoded` into a session whose pointer read
/// `current` (`None` when it does not exist yet).
pub fn append_commands(
    agent_id: &str,
    session_id: &str,
    current: Option<i64>,
    encoded: Vec<EncodedMessage>,
) -> (r: Vec<PipelineCommand>)
    ensures
        r@.map_values(|c: PipelineCommand| c@) == append_plan(agent_id@, session_id@, current, encoded@),
{
    let ghost cv = |c: PipelineCommand| c@;
    let pointer_key = current_partition_key(agent_id, session_id);
    let mut commands: Vec<PipelineCommand> = Vec::new();
    let mut partition: i64 = match current {
        Some(p) => p,
        None => INITIAL_PARTITION,
    };
    let ghost start = partition;
    if current.is_none() {
        commands.push(PipelineCommand::SetInt { key: pointer_key.clone(), value: INITIAL_PARTITION });
    }
    let ghost head = commands@.map_values(cv);
    assert(head =~= if current is None {
        seq![CommandView::SetInt(pointer_key_text(agent_id@, session_id@), INITIAL_PARTITION)]
    } else {
        Seq::<CommandView>::empty()
    });
    let ghost all = encoded@;
    for e in it: encoded
        invariant
            it.seq() == all,
            cv == (|c: PipelineCommand| c@),
            pointer_key@ == pointer_key_text(agent_id@, session_id@),
            partition == partition_after(start, all.take(it.index() as int)),
            commands@.map_values(cv) == head + entry_commands(
                agent_id@,
                session_id@,
                start,
                all.take(it.index() as int),
            ),
    {
        let ghost before = commands@.map_values(cv);
        let ghost ge = e;
        let ghost next = all.take(it.index() + 1);
        proof {
            assert(next.drop_last() =~= all.take(it.index() as int));
            assert(next.last() == e);
        }
        if e.is_condensation {
            commands.push(PipelineCommand::Incr { key: pointer_key.clone(), by: 1 });
            if partition < i64::MAX {
                partition = partition + 1;
            }
        }
        let ghost mid = commands@.map_values(cv);
        proof {
            assert(partition == partition_after(start, next));
            assert(mid =~= before + if ge.is_condensation {
                seq![CommandView::Incr(pointer_key_text(agent_id@, session_id@), 1)]
            } else {
                Seq::<CommandView>::empty()
            });
        }
        let key = partition_key(agent_id, session_id, partition);
        commands.push(PipelineCommand::HSet { key, field: e.id, value: e.payload });
        proof {
            assert(commands@.map_values(cv) =~= mid.push(
                CommandView::HSet(partition_key_text(agent_id@, session_id@, partition as int), ge.id@, ge.payload@),
            ));
            assert(commands@.map_values(cv) =~= head + entry_commands(
                agent_id@,
                session_id@,
                start,
                next,
            ));
        }
    }
    proof {
        assert(all.take(all.len() as int) =~= all);
    }
    commands
}

// ---------------------------------------------------------------------------
// Reads and deletion

/// The partition a pointer designates: the first one when it does not exist.
pub open spec fn pointed_partition(current: Option<i64>) -> i64 {
    match current {
        Some(p) => p,
        None => INITIAL_PARTITION,
    }
}

/// The key of the partition that holds a session's active context, given
/// what its pointer read.
pub fn active_partition_key(agent_id: &str, session_id: &str, current: Option<i64>) -> (r: String)
    ensures
        r@ == partition_key_text(agent_id@, session_id@, pointed_partition(current) as int),
{
    let p = match current {
        Some(p) => p,
        None => INITIAL_PARTITION,
    };
    partition_key(agent_id, session_id, p)
}

/// The partition the batch `batch_index` reads, given what the pointer
/// read: an error when the index is not a partition number, `None` when it
/// is past the current partition.
pub fn drain_partition(batch_index: usize, current: Option<i64>) -> (r: Result<Option<i64>, LogError>)
    ensures
        batch_index > i64::MAX ==> r == Err::<Option<i64>, LogError>(
            LogError::InvalidBatchIndex { batch_index },
        ),
        batch_index <= i64::MAX && batch_index > pointed_partition(current) ==> r == Ok::<
            Option<i64>,
            LogError,
        >(None),
        batch_index <= pointed_partition(current) ==> r == Ok::<Option<i64>, LogError>(
            Some(batch_index as i64),
        ),
{
    let last = match current {
        Some(p) => p,
        None => INITIAL_PARTITION,
    };
    if batch_index as u64 > 9223372036854775807u64 {
        return Err(LogError::InvalidBatchIndex { batch_index });
    }
    let requested = batch_index as i64;
    if requested > last {
        Ok(None)
    } else {
        Ok(Some(requested))
    }
}

/// The batch read from a partition's entries (`(id, payload)` pairs in any
/// order): `None` when the partition is empty, else the cursor of the next
/// batch and the records in id order.
pub fn drain_batch(batch_index: usize, entries: Vec<(String, Vec<u8>)>) -> (r: Option<
    (usize, Vec<StoredLogMessage>),
>)
    ensures
        entries@.len() == 0 ==> r is None,
        entries@.len() > 0 ==> (r matches Some((next, batch)) && {
            &&& next as int == if batch_index < usize::MAX {
                batch_index + 1
            } else {
                batch_index as int
            }
            &&& batch@ == sort_by_key(
                entries@.map_values(|e: (String, Vec<u8>)| StoredLogMessage { id: e.0, payload: e.1 }),
            )
            &&& sorted_by_key(batch@)
        }),
{
    if entries.len() == 0 {
        return None;
    }
    let ghost stored_of = |e: (String, Vec<u8>)| StoredLogMessage { id: e.0, payload: e.1 };
    let ghost all = entries@;
    let mut stored: Vec<StoredLogMessage> = Vec::new();
    for e in it: entries
        invariant
            it.seq() == all,
            stored_of == (|e: (String, Vec<u8>)| StoredLogMessage { id: e.0, payload: e.1 }),
            stored@ == all.take(it.index() as int).map_values(stored_of),
    {
        let (id, payload) = e;
        stored.push(StoredLogMessage { id, payload });
        proof {
            assert(stored@ =~= all.take(it.index() + 1).map_values(stored_of));
        }
    }
    proof {
        assert(all.take(all.len() as int) =~= all);
    }
    Some((batch_index.saturating_add(1), sort_by_id(stored)))
}

/// The pipeline that deletes a session whose pointer read `current`: the
/// pointer, then every partition from the first to the current one.
pub fn delete_commands(agent_id: &str, session_id: &str, current: Option<i64>) -> (r: Vec<
    PipelineCommand,
>)
    ensures
        r@.len() == 1 + if pointed_partition(current) >= 0 {
            pointed_partition(current) + 1
        } else {
            0
        },
        r@[0]@ == CommandView::Del(pointer_key_text(agent_id@, session_id@)),
        forall|i: int|
            1 <= i < r@.len() ==> (#[trigger] r@[i])@ == CommandView::Del(
                partition_key_text(agent_id@, session_id@, i - 1),
            ),
{
    let last = match current {
        Some(p) => p,
        None => INITIAL_PARTITION,
    };
    let mut commands: Vec<PipelineCommand> = Vec::new();
    commands.push(PipelineCommand::Del { key: current_partition_key(agent_id, session_id) });
    if last < 0 {
        return commands;
    }
    let mut p: i64 = 0;
    while p < last
        invariant
            0 <= p <= last,
            commands@.len() == 1 + p,
            commands@[0]@ == CommandView::Del(pointer_key_text(agent_id@, session_id@)),
            forall|i: int|
                1 <= i < commands@.len() ==> (#[trigger] commands@[i])@ == CommandView::Del(
                    partition_key_text(agent_id@, session_id@, i - 1),
                ),
        decreases last - p,
    {
        commands.push(PipelineCommand::Del { key: partition_key(agent_id, session_id, p) });
        p = p + 1;
    }
    commands.push(PipelineCommand::Del { key: partition_key(agent_id, session_id, last) });
    commands
}

} // verus!
