//! Decisions of the idempotent migration of a closed session to cold
//! storage.
//!
//! The migration reads the session's metadata; a session without metadata
//! is left alone. Otherwise every batch of the session is drained from the
//! active store and appended to the cold store one batch at a time, then the
//! metadata is archived, and only then are the active session and its
//! metadata deleted. [`migration_step`] decides each move from the outcome
//! of the previous one; the caller performs the moves on the stores and
//! stops at the first error a store reports.

use vstd::prelude::*;

use crate::log::types::{SessionMeta, StoredLogMessage};

verus! {

/// Where a migration stands.
#[derive(Debug, Clone, PartialEq, Eq)]
pub enum MigrationState {
    /// Nothing done yet.
    Start,
    /// The metadata is being read.
    ReadingMeta,
    /// The batch `next_batch` is being read.
    Draining { meta: SessionMeta, next_batch: usize },
    /// A batch is being appended to the cold store; `next_batch` follows it.
    Appending { meta: SessionMeta, next_batch: usize },
    /// The metadata is being archived.
    ArchivingMeta,
    /// The active session is being deleted.
    DeletingSession,
    /// The active metadata is being deleted.
    DeletingMeta,
    /// The migration is over.
    Done,
}

/// The outcome of the previous move.
#[derive(Debug, Clone, PartialEq, Eq)]
pub enum MigrationEvent {
    /// The migration starts.
    Begin,
    /// The metadata was read.
    MetaRead(Option<SessionMeta>),
    /// A batch was read: the cursor of the next batch and the records, or
    /// `None` when no batch is left.
    BatchRead(Option<(usize, Vec<StoredLogMessage>)>),
    /// The batch was appended to the cold store.
    BatchAppended,
    /// The metadata was archived.
    MetaArchived,
    /// The active session was deleted.
    SessionDeleted,
    /// The active metadata was deleted.
    MetaDeleted,
}

/// The next move.
#[derive(Debug, Clone, PartialEq, Eq)]
pub enum MigrationAction {
    /// Read the session's metadata from the metadata store.
    ReadMeta,
    /// Read the batch of this cursor from the active store.
    ReadBatch(usize),
    /// Append these records to the cold store.
    AppendBatch(Vec<StoredLogMessage>),
    /// Archive this metadata in the cold store.
    ArchiveMeta(SessionMeta),
    /// Delete the session from the active store.
    DeleteSession,
    /// Delete the session's metadata from the metadata store.
    DeleteMeta,
    /// Stop: the migration is over.
    Finish,
}

/// The transition of a migration: the state and move that follow `event`
/// in `state`. An event that does not answer the state's move ends the
/// migration.
pub open spec fn migration_next(state: MigrationState, event: MigrationEvent) -> (
    MigrationState,
    MigrationAction,
) {
    match (state, event) {
        (MigrationState::Start, MigrationEvent::Begin) => (
            MigrationState::ReadingMeta,
            MigrationAction::ReadMeta,
        ),
        (MigrationState::ReadingMeta, MigrationEvent::MetaRead(None)) => (
            MigrationState::Done,
            MigrationAction::Finish,
        ),
        (MigrationState::ReadingMeta, MigrationEvent::MetaRead(Some(meta))) => (
            MigrationState::Draining { meta, next_batch: 0 },
            MigrationAction::ReadBatch(0),
        ),
        (MigrationState::Draining { meta, next_batch }, MigrationEvent::BatchRead(None)) => (
            MigrationState::ArchivingMeta,
            MigrationAction::ArchiveMeta(meta),
        ),
        (
            MigrationState::Draining { meta, next_batch },
            MigrationEvent::BatchRead(Some((next, batch))),
        ) => (MigrationState::Appending { meta, next_batch: next }, MigrationAction::AppendBatch(batch)),
        (MigrationState::Appending { meta, next_batch }, MigrationEvent::BatchAppended) => (
            MigrationState::Draining { meta, next_batch },
            MigrationAction::ReadBatch(next_batch),
        ),
        (MigrationState::ArchivingMeta, MigrationEvent::MetaArchived) => (
            MigrationState::DeletingSession,
            MigrationAction::DeleteSession,
        ),
        (MigrationState::DeletingSession, MigrationEvent::SessionDeleted) => (
            MigrationState::DeletingMeta,
            MigrationAction::DeleteMeta,
        ),
        _ => (MigrationState::Done, MigrationAction::Finish),
    }
}

/// Decides the next move of a migration from the outcome of the previous
/// one.
pub fn migration_step(state: MigrationState, event: MigrationEvent) -> (r: (
    MigrationState,
    MigrationAction,
))
    ensures
        r == migration_next(state, event),
{
    match (state, event) {
        (MigrationState::Start, MigrationEvent::Begin) => (
            MigrationState::ReadingMeta,
            MigrationAction::ReadMeta,
        ),
        (MigrationState::ReadingMeta, MigrationEvent::MetaRead(None)) => (
            MigrationState::Done,
            MigrationAction::Finish,
        ),
        (MigrationState::ReadingMeta, MigrationEvent::MetaRead(Some(meta))) => (
            MigrationState::Draining { meta, next_batch: 0 },
            MigrationAction::ReadBatch(0),
        ),
        (MigrationState::Draining { meta, next_batch: _ }, MigrationEvent::BatchRead(None)) => (
            MigrationState::ArchivingMeta,
            MigrationAction::ArchiveMeta(meta),
        ),
        (
            MigrationState::Draining { meta, next_batch: _ },
            MigrationEvent::BatchRead(Some((next, batch))),
        ) => (MigrationState::Appending { meta, next_batch: next }, MigrationAction::AppendBatch(batch)),
        (MigrationState::Appending { meta, next_batch }, MigrationEvent::BatchAppended) => (
            MigrationState::Draining { meta, next_batch },
            MigrationAction::ReadBatch(next_batch),
        ),
        (MigrationState::ArchivingMeta, MigrationEvent::MetaArchived) => (
            MigrationState::DeletingSession,
            MigrationAction::DeleteSession,
        ),
        (MigrationState::DeletingSession, MigrationEvent::SessionDeleted) => (
            MigrationState::DeletingMeta,
            MigrationAction::DeleteMeta,
        ),
        _ => (MigrationState::Done, MigrationAction::Finish),
    }
}

/// The state reached and the moves decided when the events `events` drive
/// a migration from `state`.
pub open spec fn run(state: MigrationState, events: Seq<MigrationEvent>) -> (
    MigrationState,
    Seq<MigrationAction>,
)
    decreases events.len(),
{
    if events.len() == 0 {
        (state, Seq::empty())
    } else {
        let prev = run(state, events.drop_last());
        let next = migration_next(prev.0, events.last());
        (next.0, prev.1.push(next.1))
    }
}

/// The events of the drain of `batches`: each batch is read, then appended.
pub open spec fn drain_events(batches: Seq<(usize, Vec<StoredLogMessage>)>) -> Seq<MigrationEvent>
    decreases batches.len(),
{
    if batches.len() == 0 {
        Seq::empty()
    } else {
        drain_events(batches.drop_last()) + seq![
            MigrationEvent::BatchRead(Some(batches.last())),
            MigrationEvent::BatchAppended,
        ]
    }
}

/// The moves of the drain of `batches`: each batch is appended, then the
/// batch of the cursor it gave is read.
pub open spec fn drain_actions(batches: Seq<(usize, Vec<StoredLogMessage>)>) -> Seq<MigrationAction>
    decreases batches.len(),
{
    if batches.len() == 0 {
        Seq::empty()
    } else {
        drain_actions(batches.drop_last()) + seq![
            MigrationAction::AppendBatch(batches.last().1),
            MigrationAction::ReadBatch(batches.last().0),
        ]
    }
}

/// The events of a migration in which every store succeeds: the metadata
/// `meta` exists and the active store yields `batches`, then no more.
pub open spec fn successful_events(
    meta: SessionMeta,
    batches: Seq<(usize, Vec<StoredLogMessage>)>,
) -> Seq<MigrationEvent> {
    seq![MigrationEvent::Begin, MigrationEvent::MetaRead(Some(meta))] + drain_events(batches) + seq![
        MigrationEvent::BatchRead(None),
        MigrationEvent::MetaArchived,
        MigrationEvent::SessionDeleted,
        MigrationEvent::MetaDeleted,
    ]
}

proof fn lemma_run_push(state: MigrationState, events: Seq<MigrationEvent>, e: MigrationEvent)
    ensures
        run(state, events.push(e)) == (
            migration_next(run(state, events).0, e).0,
            run(state, events).1.push(migration_next(run(state, events).0, e).1),
        ),
{
    assert(events.push(e).drop_last() =~= events);
}

proof fn lemma_run_append(state: MigrationState, e1: Seq<MigrationEvent>, e2: Seq<MigrationEvent>)
    ensures
        run(state, e1 + e2) == (run(run(state, e1).0, e2).0, run(state, e1).1 + run(run(state, e1).0, e2).1),
    decreases e2.len(),
{
    if e2.len() == 0 {
        assert(e1 + e2 =~= e1);
        assert(run(state, e1).1 + Seq::<MigrationAction>::empty() =~= run(state, e1).1);
    } else {
        lemma_run_append(state, e1, e2.drop_last());
        assert((e1 + e2).drop_last() =~= e1 + e2.drop_last());
        assert((e1 + e2).last() == e2.last());
        let mid = run(state, e1);
        let rest = run(mid.0, e2.drop_last());
        assert(mid.1 + rest.1.push(migration_next(rest.0, e2.last()).1) =~= (mid.1 + rest.1).push(
            migration_next(rest.0, e2.last()).1,
        ));
    }
}

proof fn lemma_run_drain(meta: SessionMeta, cursor: usize, batches: Seq<(usize, Vec<StoredLogMessage>)>)
    ensures
        run(MigrationState::Draining { meta, next_batch: cursor }, drain_events(batches)) == (
            MigrationState::Draining {
                meta,
                next_batch: if batches.len() == 0 {
                    cursor
                } else {
                    batches.last().0
                },
            },
            drain_actions(batches),
        ),
    decreases batches.len(),
{
    let start = MigrationState::Draining { meta, next_batch: cursor };
    if batches.len() == 0 {
        assert(drain_events(batches) =~= Seq::<MigrationEvent>::empty());
        assert(drain_actions(batches) =~= Seq::<MigrationAction>::empty());
    } else {
        let init = batches.drop_last();
        let b = batches.last();
        lemma_run_drain(meta, cursor, init);
        let e0 = drain_events(init);
        let e1 = e0.push(MigrationEvent::BatchRead(Some(b)));
        let e2 = e1.push(MigrationEvent::BatchAppended);
        assert(drain_events(batches) =~= e2);
        lemma_run_push(start, e0, MigrationEvent::BatchRead(Some(b)));
        lemma_run_push(start, e1, MigrationEvent::BatchAppended);
        assert(drain_actions(batches) =~= drain_actions(init).push(MigrationAction::AppendBatch(b.1)).push(
            MigrationAction::ReadBatch(b.0),
        ));
    }
}

/// Every batch is moved, in order: when every store succeeds, a migration
/// reads the metadata, appends each batch the active store yields to the
/// cold store in the order it comes, reading each next batch at the cursor
/// the previous one gave, then archives the metadata, and only then deletes
/// the active session and its metadata.
pub proof fn lemma_successful_migration(meta: SessionMeta, batches: Seq<(usize, Vec<StoredLogMessage>)>)
    ensures
        run(MigrationState::Start, successful_events(meta, batches)) == (
            MigrationState::Done,
            seq![MigrationAction::ReadMeta, MigrationAction::ReadBatch(0)] + drain_actions(batches)
                + seq![
                MigrationAction::ArchiveMeta(meta),
                MigrationAction::DeleteSession,
                MigrationAction::DeleteMeta,
                MigrationAction::Finish,
            ],
        ),
{
    let start = MigrationState::Start;
    let h0 = Seq::<MigrationEvent>::empty();
    let h1 = h0.push(MigrationEvent::Begin);
    let h2 = h1.push(MigrationEvent::MetaRead(Some(meta)));
    assert(run(start, h0) == (start, Seq::<MigrationAction>::empty()));
    lemma_run_push(start, h0, MigrationEvent::Begin);
    lemma_run_push(start, h1, MigrationEvent::MetaRead(Some(meta)));
    let r1 = run(start, h2);
    assert(r1.0 == MigrationState::Draining { meta, next_batch: 0 });
    assert(r1.1 =~= seq![MigrationAction::ReadMeta, MigrationAction::ReadBatch(0)]);
    lemma_run_drain(meta, 0, batches);
    lemma_run_append(start, h2, drain_events(batches));
    let d = h2 + drain_events(batches);
    let r2 = run(start, d);
    assert(r2.0 matches MigrationState::Draining { meta: m, .. } && m == meta);
    let t1 = d.push(MigrationEvent::BatchRead(None));
    let t2 = t1.push(MigrationEvent::MetaArchived);
    let t3 = t2.push(MigrationEvent::SessionDeleted);
    let t4 = t3.push(MigrationEvent::MetaDeleted);
    assert(successful_events(meta, batches) =~= t4);
    lemma_run_push(start, d, MigrationEvent::BatchRead(None));
    lemma_run_push(start, t1, MigrationEvent::MetaArchived);
    lemma_run_push(start, t2, MigrationEvent::SessionDeleted);
    lemma_run_push(start, t3, MigrationEvent::MetaDeleted);
    assert(run(start, t4).1 =~= seq![MigrationAction::ReadMeta, MigrationAction::ReadBatch(0)]
        + drain_actions(batches) + seq![
        MigrationAction::ArchiveMeta(meta),
        MigrationAction::DeleteSession,
        MigrationAction::DeleteMeta,
        MigrationAction::Finish,
    ]);
}

proof fn lemma_run_done(events: Seq<MigrationEvent>)
    ensures
        run(MigrationState::Done, events).0 == MigrationState::Done,
        forall|i: int|
            0 <= i < events.len() ==> #[trigger] run(MigrationState::Done, events).1[i] == MigrationAction::Finish,
        run(MigrationState::Done, events).1.len() == events.len(),
    decreases events.len(),
{
    if events.len() > 0 {
        lemma_run_done(events.drop_last());
    }
}

/// A session without metadata is left alone: once the metadata reads as
/// missing, whatever follows, no record is moved and nothing is archived
/// or deleted.
pub proof fn lemma_no_meta_no_migration(rest: Seq<MigrationEvent>)
    ensures
        run(MigrationState::Start, seq![MigrationEvent::Begin, MigrationEvent::MetaRead(None)] + rest).1
            == seq![MigrationAction::ReadMeta, MigrationAction::Finish] + Seq::new(
            rest.len(),
            |i: int| MigrationAction::Finish,
        ),
{
    let start = MigrationState::Start;
    let h0 = Seq::<MigrationEvent>::empty();
    let h1 = h0.push(MigrationEvent::Begin);
    let h2 = h1.push(MigrationEvent::MetaRead(None));
    assert(run(start, h0) == (start, Seq::<MigrationAction>::empty()));
    lemma_run_push(start, h0, MigrationEvent::Begin);
    lemma_run_push(start, h1, MigrationEvent::MetaRead(None));
    assert(h2 =~= seq![MigrationEvent::Begin, MigrationEvent::MetaRead(None)]);
    lemma_run_append(start, h2, rest);
    lemma_run_done(rest);
    let r1 = run(start, h2);
    assert(r1.0 == MigrationState::Done);
    assert(r1.1 =~= seq![MigrationAction::ReadMeta, MigrationAction::Finish]);
    assert(run(MigrationState::Done, rest).1 =~= Seq::new(rest.len(), |i: int| MigrationAction::Finish));
}

/// Whether some move of `acts` before index `k` archives the metadata.
pub open spec fn archived_before(acts: Seq<MigrationAction>, k: int) -> bool {
    exists|j: int| 0 <= j < k && (#[trigger] acts[j]) is ArchiveMeta
}

/// The active session is never deleted before the metadata is archived:
/// whatever the events, each move that deletes the active session comes
/// after a move that archives the metadata. A migration that stops at a
/// store's failure before that point has deleted nothing.
pub proof fn lemma_delete_after_archive(events: Seq<MigrationEvent>)
    ensures
        forall|k: int|
            0 <= k < run(MigrationState::Start, events).1.len() && (#[trigger] run(
                MigrationState::Start,
                events,
            ).1[k]) is DeleteSession ==> archived_before(run(MigrationState::Start, events).1, k),
        (run(MigrationState::Start, events).0 is ArchivingMeta || run(MigrationState::Start, events).0 is DeletingSession
            || run(MigrationState::Start, events).0 is DeletingMeta) ==> archived_before(
            run(MigrationState::Start, events).1,
            run(MigrationState::Start, events).1.len() as int,
        ),
        run(MigrationState::Start, events).1.len() == events.len(),
    decreases events.len(),
{
    let start = MigrationState::Start;
    if events.len() > 0 {
        let init = events.drop_last();
        lemma_delete_after_archive(init);
        lemma_run_push(start, init, events.last());
        assert(init.push(events.last()) =~= events);
        let prev = run(start, init);
        let acts = run(start, events).1;
        assert(acts =~= prev.1.push(migration_next(prev.0, events.last()).1));
        assert forall|k: int| 0 <= k < acts.len() && (#[trigger] acts[k]) is DeleteSession implies archived_before(acts, k) by {
            if k < prev.1.len() {
                assert(acts[k] == prev.1[k]);
                assert(archived_before(prev.1, k));
                let j = choose|j: int| 0 <= j < k && (#[trigger] prev.1[j]) is ArchiveMeta;
                assert(acts[j] == prev.1[j]);
            } else {
                assert(prev.0 is ArchivingMeta);
                let j = choose|j: int| 0 <= j < prev.1.len() && (#[trigger] prev.1[j]) is ArchiveMeta;
                assert(acts[j] == prev.1[j]);
            }
        }
        let st = run(start, events).0;
        if st is ArchivingMeta || st is DeletingSession || st is DeletingMeta {
            if st is ArchivingMeta {
                assert(acts[acts.len() - 1] is ArchiveMeta);
            } else {
                let j = choose|j: int| 0 <= j < prev.1.len() && (#[trigger] prev.1[j]) is ArchiveMeta;
                assert(acts[j] == prev.1[j]);
            }
        }
    }
}

} // verus!
