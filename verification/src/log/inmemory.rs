//! In-memory storage backends for session logs and metadata.
//!
//! [`InMemoryLogStorage`] keeps each session's history in partitions: a
//! condensation record closes the current partition and opens a new one
//! whose first entry is that condensation, so the active context is the
//! last partition. [`InMemoryColdStorage`] archives records idempotently:
//! a record whose id is already stored is not stored again.
//! [`InMemorySessionMetaStore`] keeps session metadata.

use vstd::prelude::*;

use crate::log::table::{SessionKey, SessionTable};
use crate::log::types::{LogMessage, MessageId, SessionMeta, StoredLogMessage};
use crate::text::str_eq;

verus! {

// ---------------------------------------------------------------------------
// Active storage

/// Adds one record to a session's partitions: a condensation, or the first
/// record of a session, opens a new partition; any other record joins the
/// last partition.
pub open spec fn add_record(parts: Seq<Seq<LogMessage>>, m: LogMessage) -> Seq<Seq<LogMessage>> {
    if m.kind.spec_is_condensation() || parts.len() == 0 {
        parts.push(seq![m])
    } else {
        parts.update(parts.len() - 1, parts.last().push(m))
    }
}

/// Adds records in order.
pub open spec fn add_records(parts: Seq<Seq<LogMessage>>, msgs: Seq<LogMessage>) -> Seq<
    Seq<LogMessage>,
>
    decreases msgs.len(),
{
    if msgs.len() == 0 {
        parts
    } else {
        add_record(add_records(parts, msgs.drop_last()), msgs.last())
    }
}

/// The partitions of a session, empty when the session is unknown.
pub open spec fn partitions_of(
    m: Map<SessionKey, Seq<Seq<LogMessage>>>,
    k: SessionKey,
) -> Seq<Seq<LogMessage>> {
    if m.contains_key(k) {
        m[k]
    } else {
        Seq::empty()
    }
}

/// The records of all partitions, in order.
pub open spec fn flatten(parts: Seq<Seq<LogMessage>>) -> Seq<LogMessage>
    decreases parts.len(),
{
    if parts.len() == 0 {
        Seq::empty()
    } else {
        flatten(parts.drop_last()) + parts.last()
    }
}

/// Every partition holds a record, and every partition after the first
/// starts with a condensation.
pub open spec fn partitions_well_formed(parts: Seq<Seq<LogMessage>>) -> bool {
    forall|i: int|
        0 <= i < parts.len() ==> (#[trigger] parts[i]).len() > 0 && (i > 0
            ==> parts[i][0].kind.spec_is_condensation())
}

proof fn lemma_flatten_add_record(parts: Seq<Seq<LogMessage>>, m: LogMessage)
    ensures
        flatten(add_record(parts, m)) == flatten(parts).push(m),
{
    let np = add_record(parts, m);
    if m.kind.spec_is_condensation() || parts.len() == 0 {
        assert(np.drop_last() =~= parts);
        assert(flatten(parts) + seq![m] =~= flatten(parts).push(m));
    } else {
        assert(np.drop_last() =~= parts.drop_last());
        assert(flatten(parts.drop_last()) + parts.last().push(m) =~= (flatten(parts.drop_last())
            + parts.last()).push(m));
    }
}

/// Appending loses no record: the records of all partitions after an
/// append are those before it followed by the appended ones, in order.
pub proof fn lemma_append_keeps_every_record(parts: Seq<Seq<LogMessage>>, msgs: Seq<LogMessage>)
    ensures
        flatten(add_records(parts, msgs)) == flatten(parts) + msgs,
    decreases msgs.len(),
{
    if msgs.len() == 0 {
        assert(flatten(parts) + msgs =~= flatten(parts));
    } else {
        lemma_append_keeps_every_record(parts, msgs.drop_last());
        lemma_flatten_add_record(add_records(parts, msgs.drop_last()), msgs.last());
        assert(flatten(parts) + msgs =~= (flatten(parts) + msgs.drop_last()).push(msgs.last()));
    }
}

/// Appending keeps the partition shape: a condensation opens a partition
/// whose first record it is, and no partition is left empty.
pub proof fn lemma_append_keeps_partition_shape(parts: Seq<Seq<LogMessage>>, msgs: Seq<LogMessage>)
    requires
        partitions_well_formed(parts),
    ensures
        partitions_well_formed(add_records(parts, msgs)),
    decreases msgs.len(),
{
    if msgs.len() > 0 {
        lemma_append_keeps_partition_shape(parts, msgs.drop_last());
        let prev = add_records(parts, msgs.drop_last());
        let next = add_records(parts, msgs);
        assert forall|i: int| 0 <= i < next.len() implies (#[trigger] next[i]).len() > 0 && (i > 0
            ==> next[i][0].kind.spec_is_condensation()) by {
            if i < prev.len() {
                assert(prev[i].len() > 0);
            }
        }
    }
}

/// The active context after an append that holds a condensation: the last
/// condensation and the records after it, whatever came before.
pub proof fn lemma_history_after_condensation(
    parts: Seq<Seq<LogMessage>>,
    msgs: Seq<LogMessage>,
    c: int,
)
    requires
        0 <= c < msgs.len(),
        msgs[c].kind.spec_is_condensation(),
        forall|j: int| c < j < msgs.len() ==> !(#[trigger] msgs[j]).kind.spec_is_condensation(),
    ensures
        add_records(parts, msgs).len() > 0,
        add_records(parts, msgs).last() == msgs.skip(c),
    decreases msgs.len(),
{
    if c == msgs.len() - 1 {
        assert(msgs.skip(c) =~= seq![msgs.last()]);
    } else {
        let init = msgs.drop_last();
        assert forall|j: int| c < j < init.len() implies !(#[trigger] init[j]).kind.spec_is_condensation() by {
            assert(init[j] == msgs[j]);
        }
        lemma_history_after_condensation(parts, init, c);
        assert(!msgs[msgs.len() - 1].kind.spec_is_condensation());
        assert(init.skip(c).push(msgs.last()) =~= msgs.skip(c));
    }
}

/// The active context after an append without a condensation: the
/// appended records follow the previous context, in the same partition.
pub proof fn lemma_history_without_condensation(parts: Seq<Seq<LogMessage>>, msgs: Seq<LogMessage>)
    requires
        forall|j: int| 0 <= j < msgs.len() ==> !(#[trigger] msgs[j]).kind.spec_is_condensation(),
    ensures
        parts.len() > 0 ==> add_records(parts, msgs).len() == parts.len() && add_records(
            parts,
            msgs,
        ).last() == parts.last() + msgs,
        parts.len() == 0 && msgs.len() > 0 ==> add_records(parts, msgs).len() == 1 && add_records(
            parts,
            msgs,
        ).last() == msgs,
    decreases msgs.len(),
{
    if msgs.len() == 0 {
        assert(parts.last() + msgs =~= parts.last());
    } else {
        let init = msgs.drop_last();
        assert forall|j: int| 0 <= j < init.len() implies !(#[trigger] init[j]).kind.spec_is_condensation() by {
            assert(init[j] == msgs[j]);
        }
        lemma_history_without_condensation(parts, init);
        assert(!msgs[msgs.len() - 1].kind.spec_is_condensation());
        if parts.len() > 0 {
            assert((parts.last() + init).push(msgs.last()) =~= parts.last() + msgs);
        } else if init.len() > 0 {
            assert(init.push(msgs.last()) =~= msgs);
        } else {
            assert(seq![msgs.last()] =~= msgs);
        }
    }
}

/// In-memory active storage for session histories.
#[derive(Debug)]
pub struct InMemoryLogStorage {
    messages: SessionTable<Vec<Vec<LogMessage>>>,
}

impl View for InMemoryLogStorage {
    /// The partitions of each stored session.
    type V = Map<SessionKey, Seq<Seq<LogMessage>>>;

    closed spec fn view(&self) -> Map<SessionKey, Seq<Seq<LogMessage>>> {
        self.messages@.map_values(|p: Vec<Vec<LogMessage>>| p@.map_values(|q: Vec<LogMessage>| q@))
    }
}

impl InMemoryLogStorage {
    /// The storage's internal invariant.
    pub closed spec fn wf(&self) -> bool {
        self.messages.wf()
    }

    /// Creates an empty storage.
    pub fn new() -> (r: Self)
        ensures
            r.wf(),
            r@ == Map::<SessionKey, Seq<Seq<LogMessage>>>::empty(),
    {
        let r = InMemoryLogStorage { messages: SessionTable::new() };
        assert(r@ =~= Map::<SessionKey, Seq<Seq<LogMessage>>>::empty());
        r
    }

    /// Appends records to a session and returns their ids in order.
    pub fn append(&mut self, agent_id: &str, session_id: &str, messages: Vec<LogMessage>) -> (r: Vec<
        MessageId,
    >)
        requires
            old(self).wf(),
        ensures
            final(self).wf(),
            r@.len() == messages@.len(),
            forall|i: int| 0 <= i < r@.len() ==> #[trigger] r@[i] == messages@[i].id,
            final(self)@ == if messages@.len() == 0 {
                old(self)@
            } else {
                old(self)@.insert(
                    (agent_id@, session_id@),
                    add_records(partitions_of(old(self)@, (agent_id@, session_id@)), messages@),
                )
            },
    {
        let mut ids: Vec<MessageId> = Vec::new();
        let mut i: usize = 0;
        while i < messages.len()
            invariant
                i <= messages@.len(),
                ids@.len() == i,
                forall|j: int| 0 <= j < i ==> #[trigger] ids@[j] == messages@[j].id,
            decreases messages@.len() - i,
        {
            ids.push(messages[i].id.clone());
            i = i + 1;
        }
        if messages.len() == 0 {
            return ids;
        }
        let ghost key = (agent_id@, session_id@);
        let ghost start = partitions_of(old(self)@, key);
        let ghost pv = |p: Vec<Vec<LogMessage>>| p@.map_values(|q: Vec<LogMessage>| q@);
        let ghost qv = |q: Vec<LogMessage>| q@;
        let mut parts: Vec<Vec<LogMessage>> = match self.messages.remove(agent_id, session_id) {
            Some(p) => p,
            None => Vec::new(),
        };
        assert(parts@.map_values(qv) =~= start);
        let ghost all = messages@;
        for message in it: messages
            invariant
                it.seq() == all,
                qv == (|q: Vec<LogMessage>| q@),
                parts@.map_values(qv) == add_records(start, all.take(it.index() as int)),
        {
            let ghost before = parts@.map_values(qv);
            proof {
                assert(all.take(it.index() + 1).drop_last() =~= all.take(it.index() as int));
            }
            if message.kind.is_condensation() || parts.len() == 0 {
                let mut fresh: Vec<LogMessage> = Vec::new();
                fresh.push(message);
                parts.push(fresh);
                proof {
                    assert(parts@.map_values(qv) =~= before.push(seq![all[it.index() as int]]));
                }
            } else {
                let mut last = parts.pop().unwrap();
                last.push(message);
                parts.push(last);
                proof {
                    assert(parts@.map_values(qv) =~= before.update(
                        before.len() - 1,
                        before.last().push(all[it.index() as int]),
                    ));
                }
            }
        }
        proof {
            assert(all.take(all.len() as int) =~= all);
        }
        self.messages.insert(agent_id.to_owned(), session_id.to_owned(), parts);
        proof {
            assert(self@ =~= old(self)@.insert(key, add_records(start, all)));
        }
        ids
    }

    /// The active context of a session: its last partition, if it has one.
    pub fn history(&self, agent_id: &str, session_id: &str) -> (r: Option<&Vec<LogMessage>>)
        requires
            self.wf(),
        ensures
            match r {
                Some(p) => partitions_of(self@, (agent_id@, session_id@)).len() > 0 && p@
                    == partitions_of(self@, (agent_id@, session_id@)).last(),
                None => partitions_of(self@, (agent_id@, session_id@)).len() == 0,
            },
    {
        match self.messages.get(agent_id, session_id) {
            Some(parts) => {
                if parts.len() == 0 {
                    None
                } else {
                    Some(&parts[parts.len() - 1])
                }
            },
            None => None,
        }
    }

    /// The batch `batch_index` of a session (its partition of that index)
    /// and the index of the next batch; `None` once every batch was read.
    pub fn drain_next_batch(&self, agent_id: &str, session_id: &str, batch_index: usize) -> (r:
        Option<(usize, &Vec<LogMessage>)>)
        requires
            self.wf(),
        ensures
            match r {
                Some((next, p)) => batch_index < partitions_of(self@, (agent_id@, session_id@)).len()
                    && next == batch_index + 1 && p@ == partitions_of(
                    self@,
                    (agent_id@, session_id@),
                )[batch_index as int],
                None => batch_index >= partitions_of(self@, (agent_id@, session_id@)).len(),
            },
    {
        match self.messages.get(agent_id, session_id) {
            Some(parts) => {
                if batch_index < parts.len() {
                    Some((batch_index + 1, &parts[batch_index]))
                } else {
                    None
                }
            },
            None => None,
        }
    }

    /// Deletes every record of a session.
    pub fn delete_session(&mut self, agent_id: &str, session_id: &str)
        requires
            old(self).wf(),
        ensures
            final(self).wf(),
            final(self)@ == old(self)@.remove((agent_id@, session_id@)),
    {
        let _ = self.messages.remove(agent_id, session_id);
        proof {
            assert(self@ =~= old(self)@.remove((agent_id@, session_id@)));
        }
    }
}

// ---------------------------------------------------------------------------
// Cold storage

/// Whether some stored record has the id `id`.
pub open spec fn has_record_id(stored: Seq<StoredLogMessage>, id: Seq<char>) -> bool {
    exists|j: int| 0 <= j < stored.len() && (#[trigger] stored[j]).id@ == id
}

/// Stores `m` unless a record with its id is already stored.
pub open spec fn keep_new(stored: Seq<StoredLogMessage>, m: StoredLogMessage) -> Seq<
    StoredLogMessage,
> {
    if has_record_id(stored, m.id@) {
        stored
    } else {
        stored.push(m)
    }
}

/// Stores the records of `msgs` in order, skipping ids already stored.
pub open spec fn keep_new_all(stored: Seq<StoredLogMessage>, msgs: Seq<StoredLogMessage>) -> Seq<
    StoredLogMessage,
>
    decreases msgs.len(),
{
    if msgs.len() == 0 {
        stored
    } else {
        keep_new(keep_new_all(stored, msgs.drop_last()), msgs.last())
    }
}

/// The archived records of a session, empty when the session is unknown.
pub open spec fn archived_of(m: Map<SessionKey, Seq<StoredLogMessage>>, k: SessionKey) -> Seq<
    StoredLogMessage,
> {
    if m.contains_key(k) {
        m[k]
    } else {
        Seq::empty()
    }
}

proof fn lemma_keep_new_all_grows(stored: Seq<StoredLogMessage>, msgs: Seq<StoredLogMessage>, id: Seq<char>)
    requires
        has_record_id(stored, id),
    ensures
        has_record_id(keep_new_all(stored, msgs), id),
    decreases msgs.len(),
{
    if msgs.len() > 0 {
        lemma_keep_new_all_grows(stored, msgs.drop_last(), id);
        let prev = keep_new_all(stored, msgs.drop_last());
        if !has_record_id(prev, msgs.last().id@) {
            let j = choose|j: int| 0 <= j < prev.len() && (#[trigger] prev[j]).id@ == id;
            assert(prev.push(msgs.last())[j] == prev[j]);
        }
    }
}

/// After archiving `msgs`, every id of `msgs` is archived.
pub proof fn lemma_keep_new_all_stores_every_id(stored: Seq<StoredLogMessage>, msgs: Seq<StoredLogMessage>)
    ensures
        forall|j: int| 0 <= j < msgs.len() ==> has_record_id(keep_new_all(stored, msgs), (#[trigger] msgs[j]).id@),
    decreases msgs.len(),
{
    if msgs.len() > 0 {
        let init = msgs.drop_last();
        let prev = keep_new_all(stored, init);
        lemma_keep_new_all_stores_every_id(stored, init);
        let m = msgs.last();
        assert forall|j: int| 0 <= j < msgs.len() implies has_record_id(keep_new_all(stored, msgs), (#[trigger] msgs[j]).id@) by {
            if j < init.len() {
                assert(msgs[j] == init[j]);
                assert(has_record_id(prev, init[j].id@));
                if !has_record_id(prev, m.id@) {
                    let id = init[j].id@;
                    let k = choose|k: int| 0 <= k < prev.len() && (#[trigger] prev[k]).id@ == id;
                    assert(prev.push(m)[k] == prev[k]);
                }
            } else if !has_record_id(prev, m.id@) {
                let next = prev.push(m);
                assert(next[prev.len() as int] == m);
            }
        }
    }
}

/// Archiving records whose ids are all archived already changes nothing.
pub proof fn lemma_keep_new_all_of_known(stored: Seq<StoredLogMessage>, msgs: Seq<StoredLogMessage>)
    requires
        forall|j: int| 0 <= j < msgs.len() ==> has_record_id(stored, (#[trigger] msgs[j]).id@),
    ensures
        keep_new_all(stored, msgs) == stored,
    decreases msgs.len(),
{
    if msgs.len() > 0 {
        let init = msgs.drop_last();
        assert forall|j: int| 0 <= j < init.len() implies has_record_id(stored, (#[trigger] init[j]).id@) by {
            assert(init[j] == msgs[j]);
        }
        lemma_keep_new_all_of_known(stored, init);
        assert(has_record_id(stored, msgs[msgs.len() - 1].id@));
    }
}

/// Archiving is idempotent: archiving the same records a second time
/// leaves the archive as the first time left it.
pub proof fn lemma_archive_is_idempotent(stored: Seq<StoredLogMessage>, msgs: Seq<StoredLogMessage>)
    ensures
        keep_new_all(keep_new_all(stored, msgs), msgs) == keep_new_all(stored, msgs),
{
    lemma_keep_new_all_stores_every_id(stored, msgs);
    lemma_keep_new_all_of_known(keep_new_all(stored, msgs), msgs);
}

/// Abstract content of an [`InMemoryColdStorage`].
pub struct ColdView {
    /// Archived records of each session.
    pub messages: Map<SessionKey, Seq<StoredLogMessage>>,
    /// Archived metadata of each session.
    pub metadata: Map<SessionKey, SessionMeta>,
}

/// In-memory cold storage with idempotent appends and archived metadata.
#[derive(Debug)]
pub struct InMemoryColdStorage {
    messages: SessionTable<Vec<StoredLogMessage>>,
    metadata: SessionTable<SessionMeta>,
}

impl View for InMemoryColdStorage {
    type V = ColdView;

    closed spec fn view(&self) -> ColdView {
        ColdView {
            messages: self.messages@.map_values(|v: Vec<StoredLogMessage>| v@),
            metadata: self.metadata@,
        }
    }
}

/// The key of a metadata record.
pub open spec fn meta_key(meta: SessionMeta) -> SessionKey {
    (meta.agent_id@, meta.session_id@)
}

impl InMemoryColdStorage {
    /// The storage's internal invariant.
    pub closed spec fn wf(&self) -> bool {
        self.messages.wf() && self.metadata.wf()
    }

    /// Creates an empty cold storage.
    pub fn new() -> (r: Self)
        ensures
            r.wf(),
            r@.messages == Map::<SessionKey, Seq<StoredLogMessage>>::empty(),
            r@.metadata == Map::<SessionKey, SessionMeta>::empty(),
    {
        let r = InMemoryColdStorage { messages: SessionTable::new(), metadata: SessionTable::new() };
        assert(r@.messages =~= Map::<SessionKey, Seq<StoredLogMessage>>::empty());
        r
    }

    /// Archives records of a session, skipping ids already archived.
    pub fn append(&mut self, agent_id: &str, session_id: &str, messages: Vec<StoredLogMessage>)
        requires
            old(self).wf(),
        ensures
            final(self).wf(),
            final(self)@.metadata == old(self)@.metadata,
            final(self)@.messages == old(self)@.messages.insert(
                (agent_id@, session_id@),
                keep_new_all(archived_of(old(self)@.messages, (agent_id@, session_id@)), messages@),
            ),
    {
        let ghost key = (agent_id@, session_id@);
        let ghost start = archived_of(old(self)@.messages, key);
        let mut stored: Vec<StoredLogMessage> = match self.messages.remove(agent_id, session_id) {
            Some(v) => v,
            None => Vec::new(),
        };
        let ghost all = messages@;
        for message in it: messages
            invariant
                it.seq() == all,
                stored@ == keep_new_all(start, all.take(it.index() as int)),
        {
            proof {
                assert(all.take(it.index() + 1).drop_last() =~= all.take(it.index() as int));
            }
            let mut known = false;
            let mut j: usize = 0;
            while j < stored.len()
                invariant
                    j <= stored@.len(),
                    !known ==> forall|k: int| 0 <= k < j ==> (#[trigger] stored@[k]).id@ != message.id@,
                    known ==> has_record_id(stored@, message.id@),
                decreases stored@.len() - j,
            {
                if str_eq(stored[j].id.as_str(), message.id.as_str()) {
                    known = true;
                }
                j = j + 1;
            }
            if !known {
                stored.push(message);
            }
        }
        proof {
            assert(all.take(all.len() as int) =~= all);
        }
        self.messages.insert(agent_id.to_owned(), session_id.to_owned(), stored);
        proof {
            assert(self@.messages =~= old(self)@.messages.insert(key, keep_new_all(start, all)));
        }
    }

    /// The payloads archived for a session, in order.
    pub fn messages(&self, agent_id: &str, session_id: &str) -> (r: Vec<Vec<u8>>)
        requires
            self.wf(),
        ensures
            r@.len() == archived_of(self@.messages, (agent_id@, session_id@)).len(),
            forall|i: int|
                0 <= i < r@.len() ==> #[trigger] r@[i]@ == archived_of(
                    self@.messages,
                    (agent_id@, session_id@),
                )[i].payload@,
    {
        let mut r: Vec<Vec<u8>> = Vec::new();
        match self.messages.get(agent_id, session_id) {
            None => {},
            Some(stored) => {
                let mut i: usize = 0;
                while i < stored.len()
                    invariant
                        i <= stored@.len(),
                        r@.len() == i,
                        forall|j: int| 0 <= j < i ==> #[trigger] r@[j]@ == stored@[j].payload@,
                    decreases stored@.len() - i,
                {
                    let p = stored[i].payload.clone();
                    assert(p@ =~= stored@[i as int].payload@);
                    r.push(p);
                    i = i + 1;
                }
            },
        }
        r
    }

    /// Stores or replaces the archived metadata of a session.
    pub fn put_meta(&mut self, meta: SessionMeta)
        requires
            old(self).wf(),
        ensures
            final(self).wf(),
            final(self)@.messages == old(self)@.messages,
            final(self)@.metadata == old(self)@.metadata.insert(meta_key(meta), meta),
    {
        let a = meta.agent_id.clone();
        let s = meta.session_id.clone();
        self.metadata.insert(a, s, meta);
    }

    /// The archived metadata of a session, if any.
    pub fn get_meta(&self, agent_id: &str, session_id: &str) -> (r: Option<&SessionMeta>)
        requires
            self.wf(),
        ensures
            match r {
                Some(m) => self@.metadata.contains_key((agent_id@, session_id@))
                    && self@.metadata[(agent_id@, session_id@)] == *m,
                None => !self@.metadata.contains_key((agent_id@, session_id@)),
            },
    {
        self.metadata.get(agent_id, session_id)
    }
}

// ---------------------------------------------------------------------------
// Metadata store

/// What a read gives back of a write: once metadata is stored, its session
/// reads as that metadata, and every other session reads as before.
pub proof fn lemma_meta_read_after_write(store: Map<SessionKey, SessionMeta>, meta: SessionMeta, k: SessionKey)
    ensures
        store.insert(meta_key(meta), meta).contains_key(meta_key(meta)),
        store.insert(meta_key(meta), meta)[meta_key(meta)] == meta,
        k != meta_key(meta) ==> store.insert(meta_key(meta), meta).contains_key(k) == store.contains_key(k),
        k != meta_key(meta) && store.contains_key(k) ==> store.insert(meta_key(meta), meta)[k] == store[k],
{
}

/// Once a session's metadata is deleted, reading it finds nothing, and
/// every other session reads as before.
pub proof fn lemma_meta_read_after_delete(store: Map<SessionKey, SessionMeta>, key: SessionKey, k: SessionKey)
    ensures
        !store.remove(key).contains_key(key),
        k != key ==> store.remove(key).contains_key(k) == store.contains_key(k),
        k != key && store.contains_key(k) ==> store.remove(key)[k] == store[k],
{
}

/// In-memory session metadata storage.
#[derive(Debug)]
pub struct InMemorySessionMetaStore {
    metadata: SessionTable<SessionMeta>,
}

impl View for InMemorySessionMetaStore {
    type V = Map<SessionKey, SessionMeta>;

    closed spec fn view(&self) -> Map<SessionKey, SessionMeta> {
        self.metadata@
    }
}

impl InMemorySessionMetaStore {
    /// The store's internal invariant.
    pub closed spec fn wf(&self) -> bool {
        self.metadata.wf()
    }

    /// Creates an empty metadata store.
    pub fn new() -> (r: Self)
        ensures
            r.wf(),
            r@ == Map::<SessionKey, SessionMeta>::empty(),
    {
        InMemorySessionMetaStore { metadata: SessionTable::new() }
    }

    /// Stores or replaces a session's metadata.
    pub fn put_meta(&mut self, meta: SessionMeta)
        requires
            old(self).wf(),
        ensures
            final(self).wf(),
            final(self)@ == old(self)@.insert(meta_key(meta), meta),
    {
        let a = meta.agent_id.clone();
        let s = meta.session_id.clone();
        self.metadata.insert(a, s, meta);
    }

    /// A session's metadata, if any.
    pub fn get_meta(&self, agent_id: &str, session_id: &str) -> (r: Option<&SessionMeta>)
        requires
            self.wf(),
        ensures
            match r {
                Some(m) => self@.contains_key((agent_id@, session_id@)) && self@[(
                    agent_id@,
                    session_id@,
                )] == *m,
                None => !self@.contains_key((agent_id@, session_id@)),
            },
    {
        self.metadata.get(agent_id, session_id)
    }

    /// Deletes a session's metadata.
    pub fn delete_meta(&mut self, agent_id: &str, session_id: &str)
        requires
            old(self).wf(),
        ensures
            final(self).wf(),
            final(self)@ == old(self)@.remove((agent_id@, session_id@)),
    {
        let _ = self.metadata.remove(agent_id, session_id);
    }
}

} // verus!
