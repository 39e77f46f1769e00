//! Capture of a streamed assistant response into log records.
//!
//! [`StreamRecorder`] holds the decisions of the capture: text deltas are
//! merged into one answer, complete reasoning blocks and tool calls become
//! records attached to the answer through `parent_assistant_id`, transient
//! deltas are not stored, and the final item yields the batch to persist:
//! the assistant record followed by its attached records. The caller reads
//! the stream, generates record ids and timestamps, forwards live deltas and
//! writes the batch to storage.

use vstd::prelude::*;

use crate::log::types::{LogMessage, LogMessageKind, StoredReasoning};

verus! {

/// One item of a streamed assistant response.
#[derive(Debug, Clone, PartialEq, Eq)]
pub enum StreamEvent {
    /// A chunk of answer text.
    Text(String),
    /// A chunk of reasoning, for live display only.
    ReasoningDelta(String),
    /// A complete reasoning block.
    Reasoning(StoredReasoning),
    /// A complete tool call with its JSON arguments.
    ToolCall { name: String, arguments: String },
    /// A partial tool call.
    ToolCallDelta,
    /// An item the capture does not know.
    Unknown,
    /// The end of the response with its provider metadata.
    Final {
        provider: String,
        model: Option<String>,
        message_id: Option<String>,
        response_id: Option<String>,
    },
}

/// What the caller does after an item.
#[derive(Debug, Clone, PartialEq, Eq)]
pub enum StreamAction {
    /// Nothing to do.
    Nothing,
    /// Forward this text delta to the live text callback.
    UserDelta(String),
    /// Forward this reasoning delta to the live reasoning callback.
    ThinkingDelta(String),
    /// Append these records to the session log.
    Persist(Vec<LogMessage>),
}

/// Abstract state of a [`StreamRecorder`].
pub struct RecorderView {
    /// Id of the assistant record the response will be stored under.
    pub assistant_id: Seq<char>,
    /// Agent that owns the session.
    pub agent_id: Seq<char>,
    /// Session the records belong to.
    pub session_id: Seq<char>,
    /// Answer text merged so far.
    pub text: Seq<char>,
    /// Records attached to the answer so far.
    pub events: Seq<LogMessage>,
}

/// State of the capture of one streamed response.
#[derive(Debug)]
pub struct StreamRecorder {
    assistant_id: String,
    agent_id: String,
    session_id: String,
    text: String,
    events: Vec<LogMessage>,
}

impl View for StreamRecorder {
    type V = RecorderView;

    closed spec fn view(&self) -> RecorderView {
        RecorderView {
            assistant_id: self.assistant_id@,
            agent_id: self.agent_id@,
            session_id: self.session_id@,
            text: self.text@,
            events: self.events@,
        }
    }
}

/// A record of the capture with the given id, timestamp and content.
pub open spec fn record_matches(
    m: LogMessage,
    v: RecorderView,
    id: Seq<char>,
    timestamp: u64,
) -> bool {
    &&& m.id@ == id
    &&& m.agent_id@ == v.agent_id
    &&& m.agent_nickname@ == Seq::<char>::empty()
    &&& m.session_id@ == v.session_id
    &&& m.timestamp == timestamp
}

/// Whether `m` is a record attached to the assistant record `assistant_id`:
/// a thinking or tool-call record naming it as parent.
pub open spec fn attached_to(m: LogMessage, assistant_id: Seq<char>) -> bool {
    match m.kind {
        LogMessageKind::Thinking { parent_assistant_id: Some(p), .. } => p@ == assistant_id,
        LogMessageKind::ToolCall { parent_assistant_id: Some(p), step_id: None, .. } => p@
            == assistant_id,
        _ => false,
    }
}

/// Every record gathered so far is attached to the answer.
pub open spec fn recorder_ok(v: RecorderView) -> bool {
    forall|k: int| 0 <= k < v.events.len() ==> attached_to(#[trigger] v.events[k], v.assistant_id)
}

/// The provider response id stored for a final item: the message id, or
/// else the response id.
pub open spec fn response_id_of(message_id: Option<String>, response_id: Option<String>) -> Option<
    String,
> {
    match message_id {
        Some(m) => Some(m),
        None => response_id,
    }
}

/// Text deltas of `events`, concatenated in order.
pub open spec fn merged_text(events: Seq<StreamEvent>) -> Seq<char>
    decreases events.len(),
{
    if events.len() == 0 {
        Seq::empty()
    } else {
        merged_text(events.drop_last()) + match events.last() {
            StreamEvent::Text(d) => d@,
            _ => Seq::empty(),
        }
    }
}

/// The merged answer text after one item: a text delta is appended, the
/// final item starts a new answer, every other item leaves it unchanged.
pub open spec fn step_text(text: Seq<char>, event: StreamEvent) -> Seq<char> {
    match event {
        StreamEvent::Text(d) => text + d@,
        StreamEvent::Final { .. } => Seq::empty(),
        _ => text,
    }
}

/// The merged answer text after the items `events`, starting from `text`.
pub open spec fn text_after(text: Seq<char>, events: Seq<StreamEvent>) -> Seq<char>
    decreases events.len(),
{
    if events.len() == 0 {
        text
    } else {
        step_text(text_after(text, events.drop_last()), events.last())
    }
}

/// Streaming law: until the final item, the answer text is the
/// concatenation of the text deltas received, in order; every other item
/// leaves it unchanged.
pub proof fn lemma_text_deltas_merge(events: Seq<StreamEvent>)
    requires
        forall|i: int| 0 <= i < events.len() ==> !(#[trigger] events[i] is Final),
    ensures
        text_after(Seq::empty(), events) == merged_text(events),
    decreases events.len(),
{
    if events.len() > 0 {
        let init = events.drop_last();
        assert forall|i: int| 0 <= i < init.len() implies !(#[trigger] init[i] is Final) by {
            assert(init[i] == events[i]);
        }
        lemma_text_deltas_merge(init);
        assert(!(events[events.len() - 1] is Final));
        match events.last() {
            StreamEvent::Text(d) => {},
            _ => {
                assert(merged_text(init) + Seq::<char>::empty() =~= merged_text(init));
            },
        }
    }
}

/// What one step of the capture does: `v` is the state before, `w` the
/// state after, `id` and `timestamp` those given for a new record, `r`
/// the action returned.
pub open spec fn step_outcome(
    v: RecorderView,
    event: StreamEvent,
    id: Seq<char>,
    timestamp: u64,
    w: RecorderView,
    r: StreamAction,
) -> bool {
    &&& w.assistant_id == v.assistant_id
    &&& w.agent_id == v.agent_id
    &&& w.session_id == v.session_id
    &&& w.text == step_text(v.text, event)
    &&& match event {
            StreamEvent::Text(d) => {
                &&& w.text == v.text + d@
                &&& w.events == v.events
                &&& r == StreamAction::UserDelta(d)
            },
            StreamEvent::ReasoningDelta(d) => {
                &&& w == v
                &&& r == StreamAction::ThinkingDelta(d)
            },
            StreamEvent::Reasoning(reasoning) => {
                &&& w.text == v.text
                &&& w.events.len() == v.events.len() + 1
                &&& w.events.drop_last() == v.events
                &&& record_matches(w.events.last(), v, id, timestamp)
                &&& w.events.last().kind matches LogMessageKind::Thinking {
                    reasoning: stored,
                    parent_assistant_id: Some(p),
                } && stored == reasoning && p@ == v.assistant_id
                &&& r == StreamAction::Nothing
            },
            StreamEvent::ToolCall { name, arguments } => {
                &&& w.text == v.text
                &&& w.events.len() == v.events.len() + 1
                &&& w.events.drop_last() == v.events
                &&& record_matches(w.events.last(), v, id, timestamp)
                &&& w.events.last().kind matches LogMessageKind::ToolCall {
                    tool_name,
                    arguments: args,
                    parent_assistant_id: Some(p),
                    step_id: None,
                } && tool_name == name && args == arguments && p@ == v.assistant_id
                &&& r == StreamAction::Nothing
            },
            StreamEvent::Final { provider, model, message_id, response_id } => {
                &&& w.text == Seq::<char>::empty()
                &&& w.events == Seq::<LogMessage>::empty()
                &&& r matches StreamAction::Persist(batch) && {
                    &&& batch@.len() == v.events.len() + 1
                    &&& batch@.drop_first() == v.events
                    &&& record_matches(batch@[0], v, v.assistant_id, timestamp)
                    &&& batch@[0].kind matches LogMessageKind::Assistant {
                        content,
                        provider: prov,
                        model: m,
                        provider_response_id: prid,
                    } && content@ == v.text && prov == Some(provider) && m == model
                        && prid == response_id_of(message_id, response_id)
                }
            },
            _ => w == v && r == StreamAction::Nothing,
        }
}

impl StreamRecorder {
    /// Starts the capture of a response stored under `assistant_id`.
    pub fn new(assistant_id: String, agent_id: String, session_id: String) -> (r: Self)
        ensures
            r@.assistant_id == assistant_id@,
            r@.agent_id == agent_id@,
            r@.session_id == session_id@,
            r@.text == Seq::<char>::empty(),
            r@.events == Seq::<LogMessage>::empty(),
            recorder_ok(r@),
    {
        StreamRecorder { assistant_id, agent_id, session_id, text: String::new(), events: Vec::new() }
    }

    fn record(&self, id: String, timestamp: u64, kind: LogMessageKind) -> (m: LogMessage)
        ensures
            record_matches(m, self@, id@, timestamp),
            m.kind == kind,
    {
        LogMessage {
            id,
            agent_id: self.agent_id.clone(),
            agent_nickname: String::new(),
            session_id: self.session_id.clone(),
            timestamp,
            kind,
        }
    }

    /// Handles one item of the stream. `id` and `timestamp` are used for a
    /// record the item creates: the id of a reasoning or tool-call record,
    /// and the timestamp of any record.
    pub fn step(&mut self, event: StreamEvent, id: String, timestamp: u64) -> (r: StreamAction)
        requires
            recorder_ok(old(self)@),
        ensures
            recorder_ok(final(self)@),
            step_outcome(old(self)@, event, id@, timestamp, final(self)@, r),
    {
        match event {
            StreamEvent::Text(delta) => {
                self.text.append(delta.as_str());
                StreamAction::UserDelta(delta)
            },
            StreamEvent::ReasoningDelta(delta) => StreamAction::ThinkingDelta(delta),
            StreamEvent::Reasoning(reasoning) => {
                let parent = self.assistant_id.clone();
                let m = self.record(
                    id,
                    timestamp,
                    LogMessageKind::Thinking { reasoning, parent_assistant_id: Some(parent) },
                );
                self.events.push(m);
                proof {
                    assert(self@.events.drop_last() =~= old(self)@.events);
                    assert forall|k: int| 0 <= k < self@.events.len() implies attached_to(
                        #[trigger] self@.events[k],
                        self@.assistant_id,
                    ) by {
                        if k < old(self)@.events.len() {
                            assert(self@.events[k] == old(self)@.events[k]);
                        }
                    }
                }
                StreamAction::Nothing
            },
            StreamEvent::ToolCall { name, arguments } => {
                let parent = self.assistant_id.clone();
                let m = self.record(
                    id,
                    timestamp,
                    LogMessageKind::ToolCall {
                        tool_name: name,
                        arguments,
                        parent_assistant_id: Some(parent),
                        step_id: None,
                    },
                );
                self.events.push(m);
                proof {
                    assert(self@.events.drop_last() =~= old(self)@.events);
                    assert forall|k: int| 0 <= k < self@.events.len() implies attached_to(
                        #[trigger] self@.events[k],
                        self@.assistant_id,
                    ) by {
                        if k < old(self)@.events.len() {
                            assert(self@.events[k] == old(self)@.events[k]);
                        }
                    }
                }
                StreamAction::Nothing
            },
            StreamEvent::ToolCallDelta => StreamAction::Nothing,
            StreamEvent::Unknown => StreamAction::Nothing,
            StreamEvent::Final { provider, model, message_id, response_id } => {
                let mut content = String::new();
                std::mem::swap(&mut content, &mut self.text);
                let provider_response_id = match message_id {
                    Some(m) => Some(m),
                    None => response_id,
                };
                let assistant = self.record(
                    self.assistant_id.clone(),
                    timestamp,
                    LogMessageKind::Assistant {
                        content,
                        provider: Some(provider),
                        model,
                        provider_response_id,
                    },
                );
                let mut batch: Vec<LogMessage> = Vec::new();
                batch.push(assistant);
                let ghost events = self.events@;
                batch.append(&mut self.events);
                proof {
                    assert(batch@.drop_first() =~= events);
                }
                StreamAction::Persist(batch)
            },
        }
    }
}

/// Whether `vs`, `acts` are the states and actions of a capture driven by
/// `events`, given the id and timestamp handed to each step: `vs[i]` is
/// the state before item `i`, `vs[i + 1]` the state after it, and `acts[i]`
/// what item `i` asked the caller to do.
pub open spec fn trace_ok(
    vs: Seq<RecorderView>,
    events: Seq<StreamEvent>,
    ids: Seq<Seq<char>>,
    ts: Seq<u64>,
    acts: Seq<StreamAction>,
) -> bool {
    &&& vs.len() == events.len() + 1
    &&& ids.len() == events.len()
    &&& ts.len() == events.len()
    &&& acts.len() == events.len()
    &&& forall|i: int|
        0 <= i < events.len() ==> step_outcome(vs[i], #[trigger] events[i], ids[i], ts[i], vs[i + 1], acts[i])
}

/// Whether an item becomes a record of its own: a complete reasoning block
/// or a complete tool call.
pub open spec fn is_gathered(e: StreamEvent) -> bool {
    e is Reasoning || e is ToolCall
}

/// The positions in `events` of the items that become records of their
/// own, in increasing order.
pub open spec fn gathered_positions(events: Seq<StreamEvent>) -> Seq<int>
    decreases events.len(),
{
    if events.len() == 0 {
        Seq::empty()
    } else {
        gathered_positions(events.drop_last()) + if is_gathered(events.last()) {
            seq![events.len() - 1]
        } else {
            Seq::<int>::empty()
        }
    }
}

/// Whether `m` is the record that the item `e` becomes in the capture `v`,
/// with the id and timestamp handed to its step: a thinking record holding
/// the reasoning block, or a tool-call record holding the name and
/// arguments, attached to the answer in both cases.
pub open spec fn record_for(
    m: LogMessage,
    e: StreamEvent,
    v: RecorderView,
    id: Seq<char>,
    timestamp: u64,
) -> bool {
    &&& record_matches(m, v, id, timestamp)
    &&& match e {
        StreamEvent::Reasoning(reasoning) => m.kind matches LogMessageKind::Thinking {
            reasoning: stored,
            parent_assistant_id: Some(p),
        } && stored == reasoning && p@ == v.assistant_id,
        StreamEvent::ToolCall { name, arguments } => m.kind matches LogMessageKind::ToolCall {
            tool_name,
            arguments: args,
            parent_assistant_id: Some(p),
            step_id: None,
        } && tool_name == name && args == arguments && p@ == v.assistant_id,
        _ => false,
    }
}

/// Streaming law, item by item over a whole stream: the batch to persist
/// comes at the final items and only there; each text delta and reasoning
/// delta is forwarded once, with its text, at its own item; every other
/// item asks for nothing.
pub proof fn lemma_stream_actions(
    vs: Seq<RecorderView>,
    events: Seq<StreamEvent>,
    ids: Seq<Seq<char>>,
    ts: Seq<u64>,
    acts: Seq<StreamAction>,
)
    requires
        trace_ok(vs, events, ids, ts, acts),
    ensures
        forall|i: int|
            0 <= i < events.len() ==> {
                &&& ((#[trigger] acts[i]) is Persist <==> events[i] is Final)
                &&& (events[i] matches StreamEvent::Text(d) ==> acts[i] == StreamAction::UserDelta(d))
                &&& (events[i] matches StreamEvent::ReasoningDelta(d) ==> acts[i]
                    == StreamAction::ThinkingDelta(d))
                &&& (!(events[i] is Final) && !(events[i] is Text) && !(events[i] is ReasoningDelta)
                    ==> acts[i] is Nothing)
            },
{
    assert forall|i: int| 0 <= i < events.len() implies {
        &&& ((#[trigger] acts[i]) is Persist <==> events[i] is Final)
        &&& (events[i] matches StreamEvent::Text(d) ==> acts[i] == StreamAction::UserDelta(d))
        &&& (events[i] matches StreamEvent::ReasoningDelta(d) ==> acts[i] == StreamAction::ThinkingDelta(d))
        &&& (!(events[i] is Final) && !(events[i] is Text) && !(events[i] is ReasoningDelta) ==> acts[i] is Nothing)
    } by {
        assert(step_outcome(vs[i], events[i], ids[i], ts[i], vs[i + 1], acts[i]));
    }
}

/// Streaming law, before the final item: after the items `events[..n]`,
/// none of them final, the answer text is the text before followed by the
/// text deltas in order, and the gathered records are those before followed
/// by, for each complete reasoning block or tool call in order, the record
/// it became with the id and timestamp handed to its step; the answer's id,
/// agent and session do not change.
pub proof fn lemma_stream_until_final(
    vs: Seq<RecorderView>,
    events: Seq<StreamEvent>,
    ids: Seq<Seq<char>>,
    ts: Seq<u64>,
    acts: Seq<StreamAction>,
    n: int,
)
    requires
        trace_ok(vs, events, ids, ts, acts),
        recorder_ok(vs[0]),
        0 <= n <= events.len(),
        forall|i: int| 0 <= i < n ==> !(#[trigger] events[i] is Final),
    ensures
        vs[n].assistant_id == vs[0].assistant_id,
        vs[n].agent_id == vs[0].agent_id,
        vs[n].session_id == vs[0].session_id,
        vs[n].text == vs[0].text + merged_text(events.take(n)),
        vs[n].events.len() == vs[0].events.len() + gathered_positions(events.take(n)).len(),
        vs[n].events.take(vs[0].events.len() as int) == vs[0].events,
        forall|j: int|
            0 <= j < gathered_positions(events.take(n)).len() ==> {
                let g = #[trigger] gathered_positions(events.take(n))[j];
                &&& 0 <= g < n
                &&& record_for(vs[n].events[vs[0].events.len() + j], events[g], vs[0], ids[g], ts[g])
            },
        forall|j1: int, j2: int|
            0 <= j1 < j2 < gathered_positions(events.take(n)).len() ==> gathered_positions(
                events.take(n),
            )[j1] < gathered_positions(events.take(n))[j2],
        recorder_ok(vs[n]),
    decreases n,
{
    if n > 0 {
        lemma_stream_until_final(vs, events, ids, ts, acts, n - 1);
        let i = n - 1;
        assert(step_outcome(vs[i], events[i], ids[i], ts[i], vs[i + 1], acts[i]));
        assert(events.take(n).drop_last() =~= events.take(i));
        assert(events.take(n).last() == events[i]);
        let v = vs[i];
        let w = vs[n];
        let k = vs[0].events.len() as int;
        let gi = gathered_positions(events.take(i));
        let gn = gathered_positions(events.take(n));
        if is_gathered(events[i]) {
            assert(gn == gi + seq![i]);
            assert(w.text =~= vs[0].text + merged_text(events.take(n)));
            assert(w.events.drop_last() == v.events);
            assert(w.events.take(k) =~= v.events.take(k));
            assert forall|j: int| 0 <= j < w.events.len() implies attached_to(
                #[trigger] w.events[j],
                w.assistant_id,
            ) by {
                if j < v.events.len() {
                    assert(w.events[j] == v.events[j]);
                }
            }
            assert forall|j: int| 0 <= j < gn.len() implies {
                let g = #[trigger] gn[j];
                &&& 0 <= g < n
                &&& record_for(w.events[k + j], events[g], vs[0], ids[g], ts[g])
            } by {
                if j < gi.len() {
                    assert(gn[j] == gi[j]);
                    assert(w.events[k + j] == v.events[k + j]);
                } else {
                    assert(gn[j] == i);
                    assert(w.events[k + j] == w.events.last());
                }
            }
            assert forall|j1: int, j2: int| 0 <= j1 < j2 < gn.len() implies gn[j1] < gn[j2] by {
                assert(gn[j1] == gi[j1]);
                if j2 < gi.len() {
                    assert(gn[j2] == gi[j2]);
                } else {
                    assert(gn[j2] == i);
                }
            }
        } else {
            assert(gn =~= gi);
            assert(w.text =~= vs[0].text + merged_text(events.take(n)));
        }
    } else {
        assert(events.take(0) =~= Seq::<StreamEvent>::empty());
        assert(vs[0].text + Seq::<char>::empty() =~= vs[0].text);
        assert(vs[0].events.take(vs[0].events.len() as int) =~= vs[0].events);
    }
}

/// Streaming law, at the final item: for a capture started afresh, the
/// batch persisted at the first final item is the answer record, stored
/// under the capture's id with the final item's timestamp, whose text is
/// every text delta before it in order and whose provider, model and
/// provider response id (the message id, or else the response id) are the
/// final item's; it is followed by, for each complete reasoning block or
/// tool call before it in order, the record that item became, attached to
/// the answer. The capture then starts a new answer.
pub proof fn lemma_stream_final(
    vs: Seq<RecorderView>,
    events: Seq<StreamEvent>,
    ids: Seq<Seq<char>>,
    ts: Seq<u64>,
    acts: Seq<StreamAction>,
    n: int,
)
    requires
        trace_ok(vs, events, ids, ts, acts),
        vs[0].text == Seq::<char>::empty(),
        vs[0].events == Seq::<LogMessage>::empty(),
        0 <= n < events.len(),
        events[n] matches StreamEvent::Final { .. },
        forall|i: int| 0 <= i < n ==> !(#[trigger] events[i] is Final),
    ensures
        acts[n] matches StreamAction::Persist(batch) && {
            &&& batch@.len() == 1 + gathered_positions(events.take(n)).len()
            &&& record_matches(batch@[0], vs[0], vs[0].assistant_id, ts[n])
            &&& events[n] matches StreamEvent::Final { provider, model, message_id, response_id }
                && batch@[0].kind == (LogMessageKind::Assistant {
                content: batch@[0].kind->Assistant_content,
                provider: Some(provider),
                model,
                provider_response_id: response_id_of(message_id, response_id),
            }) && batch@[0].kind->Assistant_content@ == merged_text(events.take(n))
            &&& forall|j: int|
                0 <= j < gathered_positions(events.take(n)).len() ==> {
                    let g = #[trigger] gathered_positions(events.take(n))[j];
                    &&& 0 <= g < n
                    &&& record_for(batch@[1 + j], events[g], vs[0], ids[g], ts[g])
                }
        },
        vs[n + 1].text == Seq::<char>::empty(),
        vs[n + 1].events == Seq::<LogMessage>::empty(),
{
    lemma_stream_until_final(vs, events, ids, ts, acts, n);
    assert(step_outcome(vs[n], events[n], ids[n], ts[n], vs[n + 1], acts[n]));
    assert(Seq::<char>::empty() + merged_text(events.take(n)) =~= merged_text(events.take(n)));
    if let StreamAction::Persist(batch) = acts[n] {
        let gn = gathered_positions(events.take(n));
        assert forall|j: int| 0 <= j < gn.len() implies {
            let g = #[trigger] gn[j];
            &&& 0 <= g < n
            &&& record_for(batch@[1 + j], events[g], vs[0], ids[g], ts[g])
        } by {
            assert(batch@[1 + j] == batch@.drop_first()[j]);
            assert(vs[n].events[0 + j] == vs[n].events[j]);
        }
    }
}

/// Calls `ulid::Ulid::generate` and writes the id as text: a fresh ULID,
/// from the current time and random bits, always 26 characters of
/// Crockford base32. Which id comes out is not stated.
#[verifier::external_body]
fn generate_message_id() -> (r: String)
    ensures
        r@.len() == 26,
{
    ulid::Ulid::generate().to_string()
}

/// A record with the id `id`, created at `timestamp`.
pub fn new_message_with_id(
    id: String,
    agent_id: &str,
    session_id: &str,
    kind: LogMessageKind,
    timestamp: u64,
) -> (r: LogMessage)
    ensures
        r.id == id,
        r.agent_id@ == agent_id@,
        r.agent_nickname@ == Seq::<char>::empty(),
        r.session_id@ == session_id@,
        r.timestamp == timestamp,
        r.kind == kind,
{
    LogMessage {
        id,
        agent_id: agent_id.to_string(),
        agent_nickname: String::new(),
        session_id: session_id.to_string(),
        timestamp,
        kind,
    }
}

/// A record with a fresh id, created at `timestamp`.
pub fn new_message(agent_id: &str, session_id: &str, kind: LogMessageKind, timestamp: u64) -> (r:
    LogMessage)
    ensures
        r.id@.len() == 26,
        r.agent_id@ == agent_id@,
        r.agent_nickname@ == Seq::<char>::empty(),
        r.session_id@ == session_id@,
        r.timestamp == timestamp,
        r.kind == kind,
{
    new_message_with_id(generate_message_id(), agent_id, session_id, kind, timestamp)
}

impl StreamRecorder {
    /// Starts the capture of a response under a fresh assistant id.
    pub fn start(agent_id: &str, session_id: &str) -> (r: Self)
        ensures
            r@.assistant_id.len() == 26,
            r@.agent_id == agent_id@,
            r@.session_id == session_id@,
            r@.text == Seq::<char>::empty(),
            r@.events == Seq::<LogMessage>::empty(),
            recorder_ok(r@),
    {
        StreamRecorder::new(generate_message_id(), agent_id.to_string(), session_id.to_string())
    }

    /// Handles one item of the stream as [`StreamRecorder::step`] does,
    /// with a fresh id for a record the item creates.
    pub fn step_at(&mut self, event: StreamEvent, timestamp: u64) -> (r: StreamAction)
        requires
            recorder_ok(old(self)@),
        ensures
            recorder_ok(final(self)@),
            exists|id: Seq<char>| id.len() == 26 && step_outcome(old(self)@, event, id, timestamp, final(self)@, r),
    {
        let id = generate_message_id();
        let ghost gid = id@;
        let r = self.step(event, id, timestamp);
        assert(step_outcome(old(self)@, event, gid, timestamp, self@, r));
        r
    }
}

} // verus!
