//! Projection of persisted logs into provider-agnostic conversation
//! messages.
//!
//! Each log record is stored on its own: one `Assistant` record holds the
//! answer text while `ToolCall` and `Thinking` records hold its tool calls
//! and reasoning. A conversation message, on the other hand, carries all of
//! them as blocks of a single assistant message. The projection groups the
//! records that `parent_assistant_id` ties to an assistant record and keeps
//! the boundaries observed in the input.

use vstd::prelude::*;

use crate::log::json::{json_object1, json_object1_text};
use crate::log::types::{LogMessage, LogMessageKind, StoredReasoning};
use crate::text::str_eq;

verus! {

/// Decides whether reasoning produced through a provider enters the
/// projected history.
///
/// Implementations are supplied by users of the library: `accepts` must
/// answer as `spec_accepts` says. The projection asks the filter once for
/// each reasoning record that follows an open assistant record, with that
/// record's provider (the empty string when it has none).
pub trait ProviderFilter {
    /// Whether the filter keeps reasoning from `provider`; an implementation
    /// that does not define it leaves it unspecified.
    closed spec fn spec_accepts(&self, provider: Seq<char>) -> bool {
        arbitrary()
    }

    /// Whether reasoning from `provider` is kept.
    fn accepts(&self, provider: &str) -> (r: bool)
        ensures
            r == self.spec_accepts(provider@),
    ;
}

/// Policy that decides which reasoning blocks enter the model history.
pub enum ThinkingPolicy {
    /// Excludes all reasoning blocks.
    Never,
    /// Includes all valid reasoning blocks.
    Always,
    /// Includes reasoning when the filter accepts the provider.
    Conditional(Box<dyn ProviderFilter>),
}

/// Options applied while projecting a log.
pub struct ProjectionOptions {
    /// Reasoning inclusion policy.
    pub thinking_policy: ThinkingPolicy,
}

impl Default for ProjectionOptions {
    fn default() -> (r: Self)
        ensures
            r.thinking_policy is Never,
    {
        ProjectionOptions { thinking_policy: ThinkingPolicy::Never }
    }
}

/// A block of a projected assistant message.
#[derive(Debug, Clone, PartialEq, Eq)]
pub enum AssistantContent {
    /// The answer text.
    Text(String),
    /// A tool call: its record id, the tool name and the JSON arguments.
    ToolCall { id: String, name: String, arguments: String },
    /// A reasoning block.
    Reasoning(StoredReasoning),
}

/// A block of a projected user message.
#[derive(Debug, Clone, PartialEq, Eq)]
pub enum UserContent {
    /// Text written by the user.
    Text(String),
    /// The result of the tool call `call`, as text.
    ToolResult { call: String, text: String },
}

/// A projected conversation message.
#[derive(Debug, Clone, PartialEq, Eq)]
pub enum Message {
    /// A user message.
    User { content: Vec<UserContent> },
    /// An assistant message with the provider's response id.
    Assistant { id: Option<String>, content: Vec<AssistantContent> },
}

// ---------------------------------------------------------------------------
// Specification

/// Whether the decision for the record at position `i` keeps its reasoning.
pub open spec fn decided(d: Seq<bool>, i: int) -> bool {
    0 <= i < d.len() && d[i]
}

/// The assistant record whose group is open before the record at position
/// `n`: the last assistant record not followed by a user or tool-result
/// record.
pub open spec fn open_head(logs: Seq<LogMessage>, n: int) -> Option<int>
    decreases n,
{
    if n <= 0 {
        None
    } else {
        match logs[n - 1].kind {
            LogMessageKind::User { .. } => None,
            LogMessageKind::ToolResult { .. } => None,
            LogMessageKind::Assistant { .. } => Some(n - 1),
            _ => open_head(logs, n - 1),
        }
    }
}

/// The provider of an assistant record, or the empty string.
pub open spec fn provider_text(l: LogMessage) -> Seq<char> {
    match l.kind {
        LogMessageKind::Assistant { provider: Some(p), .. } => p@,
        _ => Seq::empty(),
    }
}

/// Whether the decisions `d` are those a policy gives for `logs`: none kept
/// under `Never`, all kept under `Always`; under `Conditional`, the decision
/// for each reasoning record that follows an open assistant record is the
/// filter's answer on that record's provider.
pub open spec fn decisions_fit(policy: &ThinkingPolicy, logs: Seq<LogMessage>, d: Seq<bool>) -> bool {
    match policy {
        ThinkingPolicy::Never => forall|i: int| 0 <= i < d.len() ==> !#[trigger] d[i],
        ThinkingPolicy::Always => forall|i: int| 0 <= i < d.len() ==> #[trigger] d[i],
        ThinkingPolicy::Conditional(f) => forall|i: int|
            0 <= i < d.len() && logs[i].kind is Thinking ==> match open_head(logs, i) {
                Some(h) => #[trigger] d[i] == f.spec_accepts(provider_text(logs[h])),
                None => true,
            },
    }
}

/// Whether `parent` names the record `head`.
pub open spec fn is_child_of(parent: Option<String>, head: LogMessage) -> bool {
    parent matches Some(p) && p@ == head.id@
}

/// A projected message, described by the log positions it comes from.
pub enum Group {
    /// The user record at `index`.
    User { index: int },
    /// The tool-result record at `index`.
    ToolResult { index: int },
    /// The assistant record `head` with the tool calls and reasoning
    /// attached to it, each in input order.
    Assistant { head: int, tools: Seq<int>, thoughts: Seq<int> },
}

/// The state of the scan: the groups already closed and the open assistant
/// group, if any.
pub struct Scan {
    pub done: Seq<Group>,
    pub open: Option<(int, Seq<int>, Seq<int>)>,
}

/// The groups of a scan once its open assistant group is closed.
pub open spec fn close(s: Scan) -> Seq<Group> {
    match s.open {
        None => s.done,
        Some((h, t, r)) => s.done.push(Group::Assistant { head: h, tools: t, thoughts: r }),
    }
}

/// Effect of the record at position `i` on the scan.
///
/// A user or tool-result record closes the open group and stands alone; an
/// assistant record closes the open group and opens its own; a tool call or
/// (allowed) reasoning record joins the open group only when its parent is
/// the open group's assistant record; internal events are skipped.
pub open spec fn scan_step(
    logs: Seq<LogMessage>,
    s: Scan,
    i: int,
    d: Seq<bool>,
) -> Scan {
    match logs[i].kind {
        LogMessageKind::User { .. } => Scan { done: close(s).push(Group::User { index: i }), open: None },
        LogMessageKind::Assistant { .. } => Scan {
            done: close(s),
            open: Some((i, Seq::empty(), Seq::empty())),
        },
        LogMessageKind::ToolCall { parent_assistant_id, .. } => match s.open {
            Some((h, t, r)) => if is_child_of(parent_assistant_id, logs[h]) {
                Scan { done: s.done, open: Some((h, t.push(i), r)) }
            } else {
                s
            },
            None => s,
        },
        LogMessageKind::Thinking { parent_assistant_id, .. } => match s.open {
            Some((h, t, r)) => if decided(d, i) && is_child_of(
                parent_assistant_id,
                logs[h],
            ) {
                Scan { done: s.done, open: Some((h, t, r.push(i))) }
            } else {
                s
            },
            None => s,
        },
        LogMessageKind::ToolResult { .. } => Scan {
            done: close(s).push(Group::ToolResult { index: i }),
            open: None,
        },
        _ => s,
    }
}

/// The scan after the first `n` records.
pub open spec fn scan(logs: Seq<LogMessage>, n: int, d: Seq<bool>) -> Scan
    decreases n,
{
    if n <= 0 {
        Scan { done: Seq::empty(), open: None }
    } else {
        scan_step(logs, scan(logs, n - 1, d), n - 1, d)
    }
}

/// The groups of the projection of `logs` under the reasoning decisions `d`.
pub open spec fn projected_groups(logs: Seq<LogMessage>, d: Seq<bool>) -> Seq<Group> {
    close(scan(logs, logs.len() as int, d))
}

/// The text of a tool result: its JSON text, or `{"error": message}` when
/// it is an error.
pub open spec fn tool_result_text(kind: LogMessageKind) -> Seq<char> {
    match kind {
        LogMessageKind::ToolResult { result, is_error, error_message, .. } => if is_error {
            json_object1(
                "error"@,
                match error_message {
                    Some(m) => m@,
                    None => "tool call failed"@,
                },
            )
        } else {
            result@
        },
        _ => Seq::empty(),
    }
}

/// The block a tool-call record contributes.
pub open spec fn tool_block(l: LogMessage) -> AssistantContent {
    match l.kind {
        LogMessageKind::ToolCall { tool_name, arguments, .. } => AssistantContent::ToolCall {
            id: l.id,
            name: tool_name,
            arguments,
        },
        _ => AssistantContent::Text(l.id),
    }
}

/// The reasoning a thinking record contributes.
pub open spec fn reasoning_of(l: LogMessage) -> StoredReasoning {
    match l.kind {
        LogMessageKind::Thinking { reasoning, .. } => reasoning,
        _ => arbitrary(),
    }
}

/// Whether `m` is the message that group `g` of `logs` projects to.
pub open spec fn renders(m: Message, g: Group, logs: Seq<LogMessage>) -> bool {
    match g {
        Group::User { index } => match (m, logs[index].kind) {
            (Message::User { content }, LogMessageKind::User { content: text }) => content@ == seq![
                UserContent::Text(text),
            ],
            _ => false,
        },
        Group::ToolResult { index } => match (m, logs[index].kind) {
            (Message::User { content }, LogMessageKind::ToolResult { tool_call_id, .. }) => {
                &&& content@.len() == 1
                &&& content@[0] matches UserContent::ToolResult { call, text }
                &&& call == tool_call_id
                &&& text@ == tool_result_text(logs[index].kind)
            },
            _ => false,
        },
        Group::Assistant { head, tools, thoughts } => match (m, logs[head].kind) {
            (
                Message::Assistant { id, content },
                LogMessageKind::Assistant { content: text, provider_response_id, .. },
            ) => {
                &&& id == provider_response_id
                &&& content@.len() == 1 + tools.len() + thoughts.len()
                &&& content@[0] == AssistantContent::Text(text)
                &&& forall|j: int|
                    0 <= j < tools.len() ==> content@[1 + j] == tool_block(logs[#[trigger] tools[j]])
                &&& forall|j: int|
                    0 <= j < thoughts.len() ==> content@[1 + tools.len() + j]
                        == AssistantContent::Reasoning(reasoning_of(logs[#[trigger] thoughts[j]]))
            },
            _ => false,
        },
    }
}

/// Whether the messages `ms` are, one by one, the projections of `gs`.
pub open spec fn renders_all(ms: Seq<Message>, gs: Seq<Group>, logs: Seq<LogMessage>) -> bool {
    ms.len() == gs.len() && forall|k: int| 0 <= k < ms.len() ==> renders(ms[k], gs[k], logs)
}

// ---------------------------------------------------------------------------
// Implementation

/// The open assistant group: the assistant record's fields plus the blocks
/// attached to it so far.
struct PendingAssistant {
    id: String,
    content: String,
    provider: Option<String>,
    provider_response_id: Option<String>,
    tool_calls: Vec<AssistantContent>,
    reasoning: Vec<StoredReasoning>,
}

/// Whether `p` holds the open group `open` of `logs`.
spec fn pending_matches(
    p: Option<PendingAssistant>,
    open: Option<(int, Seq<int>, Seq<int>)>,
    logs: Seq<LogMessage>,
) -> bool {
    match (p, open) {
        (None, None) => true,
        (Some(pa), Some((h, t, r))) => {
            &&& 0 <= h < logs.len()
            &&& logs[h].kind matches LogMessageKind::Assistant {
                content,
                provider,
                provider_response_id,
                ..
            }
            &&& pa.id == logs[h].id
            &&& pa.content == content
            &&& pa.provider == provider
            &&& pa.provider_response_id == provider_response_id
            &&& pa.tool_calls@.len() == t.len()
            &&& forall|j: int|
                0 <= j < t.len() ==> pa.tool_calls@[j] == tool_block(logs[#[trigger] t[j]])
            &&& pa.reasoning@.len() == r.len()
            &&& forall|j: int|
                0 <= j < r.len() ==> pa.reasoning@[j] == reasoning_of(logs[#[trigger] r[j]])
        },
        _ => false,
    }
}

/// Emits the open group, if any, after the messages already projected.
fn flush_pending(
    projected: &mut Vec<Message>,
    pending: &mut Option<PendingAssistant>,
    Ghost(s): Ghost<Scan>,
    Ghost(logs): Ghost<Seq<LogMessage>>,
)
    requires
        renders_all(old(projected)@, s.done, logs),
        pending_matches(*old(pending), s.open, logs),
    ensures
        renders_all(final(projected)@, close(s), logs),
        *final(pending) is None,
{
    let taken = pending.take();
    match taken {
        None => {},
        Some(pa) => {
            let ghost (h, t, r) = s.open->0;
            let PendingAssistant { content: text, provider_response_id, mut tool_calls, reasoning, .. } = pa;
            let mut content: Vec<AssistantContent> = Vec::new();
            content.push(AssistantContent::Text(text));
            content.append(&mut tool_calls);
            let ghost base = content@;
            let ghost rs = reasoning@;
            for item in it: reasoning
                invariant
                    it.seq() == rs,
                    content@.len() == base.len() + it.index(),
                    content@.subrange(0, base.len() as int) == base,
                    forall|j: int|
                        0 <= j < it.index() ==> content@[base.len() + j] == AssistantContent::Reasoning(
                            #[trigger] rs[j],
                        ),
            {
                content.push(AssistantContent::Reasoning(item));
                proof {
                    assert(content@.subrange(0, base.len() as int) =~= base);
                }
            }
            let m = Message::Assistant { id: provider_response_id, content };
            let ghost before = projected@;
            projected.push(m);
            proof {
                let g = Group::Assistant { head: h, tools: t, thoughts: r };
                assert(base[0] == AssistantContent::Text(text));
                assert forall|j: int| 0 <= j < t.len() implies content@[1 + j] == tool_block(
                    logs[#[trigger] t[j]],
                ) by {
                    assert(content@[1 + j] == base[1 + j]);
                }
                assert forall|j: int| 0 <= j < r.len() implies content@[1 + t.len() + j]
                    == AssistantContent::Reasoning(reasoning_of(logs[#[trigger] r[j]])) by {
                    assert(rs[j] == reasoning_of(logs[r[j]]));
                }
                assert(renders(m, g, logs));
                assert forall|k: int| 0 <= k < projected@.len() implies renders(
                    projected@[k],
                    close(s)[k],
                    logs,
                ) by {
                    if k < before.len() {
                        assert(projected@[k] == before[k]);
                    }
                }
            }
        },
    }
}

/// Whether reasoning under an assistant record of provider `provider` is
/// kept under the options' policy; a conditional policy asks its filter.
fn thinking_allowed(options: &ProjectionOptions, provider: &Option<String>) -> (r: bool)
    ensures
        options.thinking_policy is Never ==> !r,
        options.thinking_policy is Always ==> r,
        options.thinking_policy matches ThinkingPolicy::Conditional(f) ==> r == f.spec_accepts(
            match provider {
                Some(p) => p@,
                None => Seq::empty(),
            },
        ),
{
    match &options.thinking_policy {
        ThinkingPolicy::Never => false,
        ThinkingPolicy::Always => true,
        ThinkingPolicy::Conditional(filter) => {
            let name = match provider {
                Some(p) => p.as_str(),
                None => "",
            };
            proof {
                reveal_strlit("");
                assert(""@ =~= Seq::<char>::empty());
            }
            filter.accepts(name)
        },
    }
}

/// Whether `open` holds the provider of the assistant record whose group is
/// open before position `n` (`None` when no group is open).
spec fn tracks_open(logs: Seq<LogMessage>, n: int, open: Option<Option<String>>) -> bool {
    match open_head(logs, n) {
        None => open is None,
        Some(h) => 0 <= h < logs.len() && match logs[h].kind {
            LogMessageKind::Assistant { provider, .. } => open == Some(provider),
            _ => false,
        },
    }
}

/// The policy's decision for each record: for a reasoning record that
/// follows an open assistant record, whether the policy keeps reasoning
/// under that record's provider. The decision for any other record is not
/// used; it is `true` under `Always` and `false` otherwise.
fn thinking_decisions(logs: &Vec<LogMessage>, options: &ProjectionOptions) -> (d: Vec<bool>)
    ensures
        d@.len() == logs@.len(),
        decisions_fit(&options.thinking_policy, logs@, d@),
{
    let mut d: Vec<bool> = Vec::new();
    let mut open: Option<&Option<String>> = None;
    let mut i: usize = 0;
    while i < logs.len()
        invariant
            i <= logs@.len(),
            d@.len() == i,
            decisions_fit(&options.thinking_policy, logs@, d@),
            tracks_open(
                logs@,
                i as int,
                match open {
                    Some(p) => Some(*p),
                    None => None,
                },
            ),
        decreases logs@.len() - i,
    {
        let keep = match &logs[i].kind {
            LogMessageKind::Thinking { .. } => match open {
                Some(provider) => thinking_allowed(options, provider),
                None => options.thinking_policy.is_always(),
            },
            _ => options.thinking_policy.is_always(),
        };
        match &logs[i].kind {
            LogMessageKind::User { .. } => {
                open = None;
            },
            LogMessageKind::ToolResult { .. } => {
                open = None;
            },
            LogMessageKind::Assistant { provider, .. } => {
                open = Some(provider);
            },
            _ => {},
        }
        let ghost before = d@;
        d.push(keep);
        proof {
            assert forall|j: int| 0 <= j < d@.len() implies (options.thinking_policy is Never ==> !#[trigger] d@[j])
                && (options.thinking_policy is Always ==> d@[j]) by {
                if j < i {
                    assert(d@[j] == before[j]);
                }
            }
            if let ThinkingPolicy::Conditional(f) = &options.thinking_policy {
                assert forall|j: int|
                    0 <= j < d@.len() && logs@[j].kind is Thinking implies match open_head(logs@, j) {
                    Some(h) => #[trigger] d@[j] == f.spec_accepts(provider_text(logs@[h])),
                    None => true,
                } by {
                    if j < i {
                        assert(d@[j] == before[j]);
                    }
                }
            }
        }
        i = i + 1;
    }
    d
}

impl ThinkingPolicy {
    /// Whether this is the policy that keeps all reasoning.
    fn is_always(&self) -> (r: bool)
        ensures
            r == (*self is Always),
    {
        match self {
            ThinkingPolicy::Always => true,
            _ => false,
        }
    }
}

/// Whether `parent` names the record with id `id`.
fn names(parent: &Option<String>, id: &String) -> (r: bool)
    ensures
        r == (parent matches Some(p) && p@ == id@),
{
    match parent {
        Some(p) => str_eq(p.as_str(), id.as_str()),
        None => false,
    }
}

/// Projects independent log records into conversation messages.
///
/// 1. An `Assistant` record opens a new group; an open group is emitted
///    first.
/// 2. A `ToolCall` joins the open group only when its `parent_assistant_id`
///    is the id of the group's assistant record; otherwise it is dropped.
/// 3. A `Thinking` record follows the same parent rule and is kept only
///    when its decision in `decisions` (by position) is `true`.
/// 4. A `User` or `ToolResult` record closes the open group and becomes a
///    message of its own; `Turn`, `Step` and `Condensation` records produce
///    nothing.
///
/// Within a group, the text comes first, then the tool calls, then the
/// reasoning, each in input order.
pub fn project_with_decisions(logs: Vec<LogMessage>, decisions: &Vec<bool>) -> (r: Vec<Message>)
    ensures
        renders_all(r@, projected_groups(logs@, decisions@), logs@),
{
    let ghost all = logs@;
    let ghost policy = decisions@;
    let mut projected: Vec<Message> = Vec::new();
    let mut pending: Option<PendingAssistant> = None;
    let mut idx: usize = 0;
    let count = logs.len();
    assert(all.len() == count);
    for log in it: logs
        invariant
            it.seq() == all,
            policy == decisions@,
            idx == it.index(),
            all.len() <= usize::MAX,
            renders_all(projected@, scan(all, it.index() as int, policy).done, all),
            pending_matches(pending, scan(all, it.index() as int, policy).open, all),
    {
        let ghost i = it.index() as int;
        let ghost s = scan(all, i, policy);
        assert(log == all[i]);
        assert(scan(all, i + 1, policy) == scan_step(all, s, i, policy));
        let LogMessage { id, kind, .. } = log;
        match kind {
            LogMessageKind::User { content } => {
                flush_pending(&mut projected, &mut pending, Ghost(s), Ghost(all));
                let ghost before = projected@;
                let ghost text = content;
                let mut items: Vec<UserContent> = Vec::new();
                items.push(UserContent::Text(content));
                let m = Message::User { content: items };
                projected.push(m);
                proof {
                    assert(items@ =~= seq![UserContent::Text(text)]);
                    assert(renders(m, Group::User { index: i }, all));
                    let n = scan(all, i + 1, policy);
                    assert(n.done == close(s).push(Group::User { index: i }));
                    assert forall|k: int| 0 <= k < projected@.len() implies renders(
                        projected@[k],
                        n.done[k],
                        all,
                    ) by {
                        if k < before.len() {
                            assert(projected@[k] == before[k]);
                        } else {
                            assert(projected@[k] == m);
                        }
                    }
                }
            },
            LogMessageKind::Assistant { content, provider, provider_response_id, .. } => {
                flush_pending(&mut projected, &mut pending, Ghost(s), Ghost(all));
                pending = Some(
                    PendingAssistant {
                        id,
                        content,
                        provider,
                        provider_response_id,
                        tool_calls: Vec::new(),
                        reasoning: Vec::new(),
                    },
                );
            },
            LogMessageKind::ToolCall { tool_name, arguments, parent_assistant_id, .. } => {
                match pending {
                    None => {},
                    Some(ref mut current) => {
                        if names(&parent_assistant_id, &current.id) {
                            let ghost before = current.tool_calls@;
                            current.tool_calls.push(
                                AssistantContent::ToolCall { id, name: tool_name, arguments },
                            );
                            proof {
                                let (h, t, r) = s.open->0;
                                assert(current.tool_calls@ == before.push(tool_block(all[i])));
                                assert forall|j: int| 0 <= j < t.len() + 1 implies current.tool_calls@[j]
                                    == tool_block(all[#[trigger] t.push(i)[j]]) by {
                                    if j < t.len() {
                                        assert(t.push(i)[j] == t[j]);
                                    }
                                }
                            }
                        }
                    },
                }
            },
            LogMessageKind::Thinking { reasoning, parent_assistant_id } => {
                match pending {
                    None => {},
                    Some(ref mut current) => {
                        let allowed = idx < decisions.len() && decisions[idx];
                        if allowed && names(&parent_assistant_id, &current.id) {
                            let ghost before = current.reasoning@;
                            current.reasoning.push(reasoning);
                            proof {
                                let (h, t, r) = s.open->0;
                                assert forall|j: int| 0 <= j < r.len() + 1 implies current.reasoning@[j]
                                    == reasoning_of(all[#[trigger] r.push(i)[j]]) by {
                                    if j < r.len() {
                                        assert(r.push(i)[j] == r[j]);
                                    }
                                }
                            }
                        }
                    },
                }
            },
            LogMessageKind::ToolResult { tool_call_id, result, is_error, error_message } => {
                flush_pending(&mut projected, &mut pending, Ghost(s), Ghost(all));
                let text = if is_error {
                    let message = match &error_message {
                        Some(m) => m.as_str(),
                        None => "tool call failed",
                    };
                    json_object1_text("error", message)
                } else {
                    result
                };
                let m = Message::User {
                    content: vec![UserContent::ToolResult { call: tool_call_id, text }],
                };
                let ghost before = projected@;
                projected.push(m);
                proof {
                    let n = scan(all, i + 1, policy);
                    assert(n.done == close(s).push(Group::ToolResult { index: i }));
                    assert forall|k: int| 0 <= k < projected@.len() implies renders(
                        projected@[k],
                        n.done[k],
                        all,
                    ) by {
                        if k < before.len() {
                            assert(projected@[k] == before[k]);
                        }
                    }
                }
            },
            _ => {},
        }
        assert(idx < all.len());
        idx = idx + 1;
    }
    let ghost s = scan(all, all.len() as int, policy);
    flush_pending(&mut projected, &mut pending, Ghost(s), Ghost(all));
    projected
}

/// Projects independent log records into conversation messages, with the
/// reasoning decisions of the options' policy (see [`project_with_decisions`]).
///
/// Under `Never` and `Always` the decisions, and so the result, are fixed;
/// under `Conditional` each decision is the filter's answer.
pub fn project_to_rig_messages(logs: Vec<LogMessage>, options: &ProjectionOptions) -> (r: Vec<
    Message,
>)
    ensures
        exists|d: Seq<bool>|
            d.len() == logs@.len() && decisions_fit(&options.thinking_policy, logs@, d) && renders_all(
                r@,
                #[trigger] projected_groups(logs@, d),
                logs@,
            ),
{
    let decisions = thinking_decisions(&logs, options);
    let ghost all = logs@;
    let r = project_with_decisions(logs, &decisions);
    assert(decisions@.len() == all.len() && decisions_fit(&options.thinking_policy, all, decisions@)
        && renders_all(r@, projected_groups(all, decisions@), all));
    r
}

// ---------------------------------------------------------------------------
// Laws

/// The log position a projected message starts from.
pub open spec fn anchor(g: Group) -> int {
    match g {
        Group::User { index } => index,
        Group::ToolResult { index } => index,
        Group::Assistant { head, .. } => head,
    }
}

/// Whether a record becomes a message of its own (user, tool-result and
/// assistant records).
pub open spec fn opens_message(l: LogMessage) -> bool {
    l.kind is User || l.kind is ToolResult || l.kind is Assistant
}

/// How many of the first `n` records become messages of their own.
pub open spec fn message_count(logs: Seq<LogMessage>, n: int) -> nat
    decreases n,
{
    if n <= 0 {
        0
    } else {
        message_count(logs, n - 1) + if opens_message(logs[n - 1]) {
            1nat
        } else {
            0nat
        }
    }
}

/// The parent named by a tool-call or thinking record.
pub open spec fn parent_of(l: LogMessage) -> Option<String> {
    match l.kind {
        LogMessageKind::ToolCall { parent_assistant_id, .. } => parent_assistant_id,
        LogMessageKind::Thinking { parent_assistant_id, .. } => parent_assistant_id,
        _ => None,
    }
}

/// An assistant group of the first `n` records is well formed: its head is
/// an assistant record, and every attached record comes after the head, has
/// the right kind, names the head as its parent, and (for reasoning) is
/// kept by its decision.
pub open spec fn attached_ok(
    logs: Seq<LogMessage>,
    h: int,
    t: Seq<int>,
    r: Seq<int>,
    d: Seq<bool>,
    n: int,
) -> bool {
    &&& 0 <= h < n
    &&& logs[h].kind is Assistant
    &&& forall|j: int|
        0 <= j < t.len() ==> h < #[trigger] t[j] < n && logs[t[j]].kind is ToolCall && is_child_of(
            parent_of(logs[t[j]]),
            logs[h],
        )
    &&& forall|j: int|
        0 <= j < r.len() ==> h < #[trigger] r[j] < n && logs[r[j]].kind is Thinking && is_child_of(
            parent_of(logs[r[j]]),
            logs[h],
        ) && decided(d, r[j])
}

/// A group of the first `n` records is well formed.
pub open spec fn group_ok(logs: Seq<LogMessage>, g: Group, d: Seq<bool>, n: int) -> bool {
    match g {
        Group::User { index } => 0 <= index < n && logs[index].kind is User,
        Group::ToolResult { index } => 0 <= index < n && logs[index].kind is ToolResult,
        Group::Assistant { head, tools, thoughts } => attached_ok(logs, head, tools, thoughts, d, n),
    }
}

/// The groups are well formed and start at strictly increasing positions.
pub open spec fn groups_ok(
    logs: Seq<LogMessage>,
    gs: Seq<Group>,
    d: Seq<bool>,
    n: int,
) -> bool {
    &&& forall|k: int| 0 <= k < gs.len() ==> group_ok(logs, #[trigger] gs[k], d, n)
    &&& forall|k1: int, k2: int|
        0 <= k1 < k2 < gs.len() ==> anchor(#[trigger] gs[k1]) < anchor(#[trigger] gs[k2])
}

proof fn lemma_groups_ok_mono(
    logs: Seq<LogMessage>,
    gs: Seq<Group>,
    d: Seq<bool>,
    n: int,
)
    requires
        groups_ok(logs, gs, d, n),
    ensures
        groups_ok(logs, gs, d, n + 1),
{
}

proof fn lemma_scan_ok(logs: Seq<LogMessage>, n: int, d: Seq<bool>)
    requires
        0 <= n <= logs.len(),
    ensures
        groups_ok(logs, close(scan(logs, n, d)), d, n),
        close(scan(logs, n, d)).len() == message_count(logs, n),
        scan(logs, n, d).open matches Some((h, t, r)) ==> {
            &&& close(scan(logs, n, d)).last() == Group::Assistant { head: h, tools: t, thoughts: r }
            &&& forall|j: int| 0 <= j < t.len() ==> h < #[trigger] t[j] < n
        },
    decreases n,
{
    if n > 0 {
        let i = n - 1;
        let s = scan(logs, i, d);
        lemma_scan_ok(logs, i, d);
        let c = close(s);
        let next = scan(logs, n, d);
        assert(next == scan_step(logs, s, i, d));
        lemma_groups_ok_mono(logs, c, d, i);
        match logs[i].kind {
            LogMessageKind::User { .. } => {
                let g = Group::User { index: i };
                assert(close(next) == c.push(g));
                assert forall|k: int| 0 <= k < c.len() implies anchor(#[trigger] c[k]) < i by {
                    assert(group_ok(logs, c[k], d, i));
                }
            },
            LogMessageKind::ToolResult { .. } => {
                let g = Group::ToolResult { index: i };
                assert(close(next) == c.push(g));
                assert forall|k: int| 0 <= k < c.len() implies anchor(#[trigger] c[k]) < i by {
                    assert(group_ok(logs, c[k], d, i));
                }
            },
            LogMessageKind::Assistant { .. } => {
                let g = Group::Assistant { head: i, tools: Seq::empty(), thoughts: Seq::empty() };
                assert(close(next) == c.push(g));
                assert forall|k: int| 0 <= k < c.len() implies anchor(#[trigger] c[k]) < i by {
                    assert(group_ok(logs, c[k], d, i));
                }
            },
            LogMessageKind::ToolCall { parent_assistant_id, .. } => {
                match s.open {
                    Some((h, t, r)) => {
                        if is_child_of(parent_assistant_id, logs[h]) {
                            let g = Group::Assistant { head: h, tools: t.push(i), thoughts: r };
                            assert(close(next) == s.done.push(g));
                            assert(c.last() == Group::Assistant { head: h, tools: t, thoughts: r });
                            assert(c == s.done.push(Group::Assistant { head: h, tools: t, thoughts: r }));
                            assert(group_ok(logs, c.last(), d, i));
                            assert forall|j: int| 0 <= j < t.len() + 1 implies h < #[trigger] t.push(i)[j] < n
                                && logs[t.push(i)[j]].kind is ToolCall && is_child_of(
                                parent_of(logs[t.push(i)[j]]),
                                logs[h],
                            ) by {
                                if j < t.len() {
                                    assert(t.push(i)[j] == t[j]);
                                }
                            }
                            assert(group_ok(logs, g, d, n));
                            assert forall|k: int| 0 <= k < close(next).len() implies group_ok(
                                logs,
                                #[trigger] close(next)[k],
                                d,
                                n,
                            ) by {
                                if k < s.done.len() {
                                    assert(close(next)[k] == c[k]);
                                }
                            }
                            assert forall|k1: int, k2: int|
                                0 <= k1 < k2 < close(next).len() implies anchor(
                                #[trigger] close(next)[k1],
                            ) < anchor(#[trigger] close(next)[k2]) by {
                                assert(anchor(close(next)[k1]) == anchor(c[k1]));
                                assert(anchor(close(next)[k2]) == anchor(c[k2]));
                            }
                        } else {
                            assert(next == s);
                        }
                    },
                    None => {
                        assert(next == s);
                    },
                }
            },
            LogMessageKind::Thinking { parent_assistant_id, .. } => {
                match s.open {
                    Some((h, t, r)) => {
                        if decided(d, i) && is_child_of(
                            parent_assistant_id,
                            logs[h],
                        ) {
                            let g = Group::Assistant { head: h, tools: t, thoughts: r.push(i) };
                            assert(close(next) == s.done.push(g));
                            assert(c == s.done.push(Group::Assistant { head: h, tools: t, thoughts: r }));
                            assert(group_ok(logs, c.last(), d, i));
                            assert forall|j: int| 0 <= j < r.len() + 1 implies h < #[trigger] r.push(i)[j] < n
                                && logs[r.push(i)[j]].kind is Thinking && is_child_of(
                                parent_of(logs[r.push(i)[j]]),
                                logs[h],
                            ) && decided(d, i) by {
                                if j < r.len() {
                                    assert(r.push(i)[j] == r[j]);
                                }
                            }
                            assert(group_ok(logs, g, d, n));
                            assert forall|k: int| 0 <= k < close(next).len() implies group_ok(
                                logs,
                                #[trigger] close(next)[k],
                                d,
                                n,
                            ) by {
                                if k < s.done.len() {
                                    assert(close(next)[k] == c[k]);
                                }
                            }
                            assert forall|k1: int, k2: int|
                                0 <= k1 < k2 < close(next).len() implies anchor(
                                #[trigger] close(next)[k1],
                            ) < anchor(#[trigger] close(next)[k2]) by {
                                assert(anchor(close(next)[k1]) == anchor(c[k1]));
                                assert(anchor(close(next)[k2]) == anchor(c[k2]));
                            }
                        } else {
                            assert(next == s);
                        }
                    },
                    None => {
                        assert(next == s);
                    },
                }
            },
            _ => {
                assert(next == s);
            },
        }
    }
}

/// Projection law: the projection only groups records that
/// `parent_assistant_id` already relates, never reorders them, and turns
/// every user, tool-result and assistant record into exactly one message.
///
/// Every assistant message starts at an assistant record and carries only
/// later tool-call and thinking records whose parent is that record (and,
/// for reasoning, whose decision keeps it); messages start at
/// strictly increasing positions of the log.
pub proof fn lemma_projection_groups(logs: Seq<LogMessage>, d: Seq<bool>)
    ensures
        groups_ok(logs, projected_groups(logs, d), d, logs.len() as int),
        projected_groups(logs, d).len() == message_count(logs, logs.len() as int),
{
    lemma_scan_ok(logs, logs.len() as int, d);
}

/// Projection law: under `ThinkingPolicy::Never`, whose decisions keep
/// nothing, no reasoning is projected.
pub proof fn lemma_never_drops_reasoning(logs: Seq<LogMessage>, d: Seq<bool>)
    requires
        forall|i: int| 0 <= i < d.len() ==> !#[trigger] d[i],
    ensures
        forall|k: int|
            0 <= k < projected_groups(logs, d).len() ==> (#[trigger] projected_groups(
                logs,
                d,
            )[k] matches Group::Assistant { thoughts, .. } ==> thoughts.len() == 0),
{
    lemma_projection_groups(logs, d);
    let gs = projected_groups(logs, d);
    assert forall|k: int| 0 <= k < gs.len() implies (#[trigger] gs[k] matches Group::Assistant {
        thoughts,
        ..
    } ==> thoughts.len() == 0) by {
        assert(group_ok(logs, gs[k], d, logs.len() as int));
        if let Group::Assistant { head, tools, thoughts } = gs[k] {
            if thoughts.len() > 0 {
                assert(attached_ok(logs, head, tools, thoughts, d, logs.len() as int));
                assert(0 <= 0 < thoughts.len());
                let first = thoughts[0];
                assert(decided(d, first));
            }
        }
    }
}

proof fn lemma_scan_open_head(logs: Seq<LogMessage>, n: int, d: Seq<bool>)
    requires
        0 <= n <= logs.len(),
    ensures
        match scan(logs, n, d).open {
            Some((h, _, _)) => open_head(logs, n) == Some(h),
            None => open_head(logs, n) is None,
        },
    decreases n,
{
    if n > 0 {
        lemma_scan_open_head(logs, n - 1, d);
        assert(scan(logs, n, d) == scan_step(logs, scan(logs, n - 1, d), n - 1, d));
    }
}

/// Whether `policy` keeps reasoning under an assistant record of provider
/// `provider`.
pub open spec fn policy_keeps(policy: &ThinkingPolicy, provider: Seq<char>) -> bool {
    match policy {
        ThinkingPolicy::Never => false,
        ThinkingPolicy::Always => true,
        ThinkingPolicy::Conditional(f) => f.spec_accepts(provider),
    }
}

/// A reasoning record joins the group of the open assistant record exactly
/// when it names that record as its parent and the policy keeps reasoning
/// for that record's provider (under a conditional policy: when the filter
/// accepts it); otherwise the projection ignores it.
pub proof fn lemma_reasoning_follows_policy(
    logs: Seq<LogMessage>,
    policy: &ThinkingPolicy,
    d: Seq<bool>,
    i: int,
)
    requires
        d.len() == logs.len(),
        decisions_fit(policy, logs, d),
        0 <= i < logs.len(),
        logs[i].kind is Thinking,
    ensures
        match open_head(logs, i) {
            None => scan(logs, i + 1, d) == scan(logs, i, d),
            Some(h) => scan(logs, i, d).open matches Some((h2, t, r)) && h2 == h && scan(logs, i + 1, d)
                == if is_child_of(parent_of(logs[i]), logs[h]) && policy_keeps(
                policy,
                provider_text(logs[h]),
            ) {
                Scan { done: scan(logs, i, d).done, open: Some((h, t, r.push(i))) }
            } else {
                scan(logs, i, d)
            },
        },
{
    lemma_scan_open_head(logs, i, d);
    assert(scan(logs, i + 1, d) == scan_step(logs, scan(logs, i, d), i, d));
    if let Some(h) = open_head(logs, i) {
        let b = d[i];
        assert(b == policy_keeps(policy, provider_text(logs[h])));
    }
}

/// The positions of the first `n` records that become messages of their
/// own (user, tool-result and assistant records), in order.
pub open spec fn boundaries(logs: Seq<LogMessage>, n: int) -> Seq<int>
    decreases n,
{
    if n <= 0 {
        Seq::empty()
    } else if opens_message(logs[n - 1]) {
        boundaries(logs, n - 1).push(n - 1)
    } else {
        boundaries(logs, n - 1)
    }
}

proof fn lemma_scan_anchors(logs: Seq<LogMessage>, n: int, d: Seq<bool>)
    requires
        0 <= n <= logs.len(),
    ensures
        close(scan(logs, n, d)).len() == boundaries(logs, n).len(),
        forall|k: int|
            0 <= k < close(scan(logs, n, d)).len() ==> anchor(#[trigger] close(scan(logs, n, d))[k])
                == boundaries(logs, n)[k],
        forall|k: int|
            0 <= k < close(scan(logs, n, d)).len() ==> group_kind_ok(
                logs,
                #[trigger] close(scan(logs, n, d))[k],
            ),
    decreases n,
{
    if n > 0 {
        let i = n - 1;
        let s = scan(logs, i, d);
        lemma_scan_anchors(logs, i, d);
        assert(scan(logs, n, d) == scan_step(logs, s, i, d));
        let c = close(s);
        let nc = close(scan(logs, n, d));
        let b = boundaries(logs, i);
        match logs[i].kind {
            LogMessageKind::User { .. } => {
                assert(nc == c.push(Group::User { index: i }));
            },
            LogMessageKind::ToolResult { .. } => {
                assert(nc == c.push(Group::ToolResult { index: i }));
            },
            LogMessageKind::Assistant { .. } => {
                assert(nc == c.push(Group::Assistant { head: i, tools: Seq::empty(), thoughts: Seq::empty() }));
            },
            _ => {
                assert(nc.len() == c.len());
                assert forall|k: int| 0 <= k < nc.len() implies anchor(#[trigger] nc[k]) == anchor(c[k])
                    && group_kind_ok(logs, nc[k]) by {
                    if k < c.len() - 1 || s.open is None {
                        assert(nc[k] == c[k]);
                    } else {
                        assert(group_kind_ok(logs, c[k]));
                    }
                }
            },
        }
    }
}

/// Whether a group's anchor record has the group's kind.
pub open spec fn group_kind_ok(logs: Seq<LogMessage>, g: Group) -> bool {
    match g {
        Group::User { index } => logs[index].kind is User,
        Group::ToolResult { index } => logs[index].kind is ToolResult,
        Group::Assistant { head, .. } => logs[head].kind is Assistant,
    }
}

/// Projection law: message kinds follow the records one for one. The
/// projected messages correspond, in order, to the user, tool-result and
/// assistant records of the log: the `k`-th message is an assistant message
/// exactly when the `k`-th such record is an assistant record, and a user
/// message exactly when it is a user or tool-result record; turns, steps,
/// condensations, tool calls and reasoning never yield a message of their
/// own.
pub proof fn lemma_message_kinds(logs: Seq<LogMessage>, d: Seq<bool>, ms: Seq<Message>)
    requires
        renders_all(ms, projected_groups(logs, d), logs),
    ensures
        ms.len() == boundaries(logs, logs.len() as int).len(),
        forall|k: int|
            0 <= k < ms.len() ==> ((#[trigger] ms[k] is Assistant) <==> logs[boundaries(
                logs,
                logs.len() as int,
            )[k]].kind is Assistant) && (ms[k] is User <==> (logs[boundaries(
                logs,
                logs.len() as int,
            )[k]].kind is User || logs[boundaries(logs, logs.len() as int)[k]].kind is ToolResult)),
{
    let n = logs.len() as int;
    lemma_scan_anchors(logs, n, d);
    let gs = projected_groups(logs, d);
    assert forall|k: int| 0 <= k < ms.len() implies ((#[trigger] ms[k] is Assistant) <==> logs[boundaries(
        logs,
        n,
    )[k]].kind is Assistant) && (ms[k] is User <==> (logs[boundaries(logs, n)[k]].kind is User
        || logs[boundaries(logs, n)[k]].kind is ToolResult)) by {
        assert(renders(ms[k], gs[k], logs));
        assert(group_kind_ok(logs, gs[k]));
        assert(anchor(gs[k]) == boundaries(logs, n)[k]);
    }
}

/// The tool-call records between positions `h` and `e` (both excluded)
/// that name the record at `h` as their parent, in order.
pub open spec fn child_tools(logs: Seq<LogMessage>, h: int, e: int) -> Seq<int>
    decreases e - h,
{
    if e <= h + 1 {
        Seq::empty()
    } else {
        child_tools(logs, h, e - 1) + if logs[e - 1].kind is ToolCall && is_child_of(
            parent_of(logs[e - 1]),
            logs[h],
        ) {
            seq![e - 1]
        } else {
            Seq::<int>::empty()
        }
    }
}

/// The thinking records between positions `h` and `e` (both excluded)
/// that name the record at `h` as their parent, in order.
pub open spec fn child_thoughts(logs: Seq<LogMessage>, h: int, e: int) -> Seq<int>
    decreases e - h,
{
    if e <= h + 1 {
        Seq::empty()
    } else {
        child_thoughts(logs, h, e - 1) + if logs[e - 1].kind is Thinking && is_child_of(
            parent_of(logs[e - 1]),
            logs[h],
        ) {
            seq![e - 1]
        } else {
            Seq::<int>::empty()
        }
    }
}

/// Those of [`child_thoughts`] whose decision keeps their reasoning.
pub open spec fn kept_thoughts(logs: Seq<LogMessage>, h: int, e: int, d: Seq<bool>) -> Seq<int>
    decreases e - h,
{
    if e <= h + 1 {
        Seq::empty()
    } else {
        kept_thoughts(logs, h, e - 1, d) + if logs[e - 1].kind is Thinking && is_child_of(
            parent_of(logs[e - 1]),
            logs[h],
        ) && decided(d, e - 1) {
            seq![e - 1]
        } else {
            Seq::<int>::empty()
        }
    }
}

/// Where the records of group `k` of `gs` end: at the next group's anchor,
/// or at `n` for the last group.
pub open spec fn group_end(gs: Seq<Group>, k: int, n: int) -> int {
    if k + 1 < gs.len() {
        anchor(gs[k + 1])
    } else {
        n
    }
}

/// An assistant group of `gs` holds every tool call and every kept
/// reasoning record naming its head between the head and the group's end,
/// and no record in between starts a message of its own.
pub open spec fn windows_ok(logs: Seq<LogMessage>, gs: Seq<Group>, d: Seq<bool>, n: int) -> bool {
    forall|k: int|
        0 <= k < gs.len() ==> (#[trigger] gs[k] matches Group::Assistant { head, tools, thoughts } ==> {
            &&& tools == child_tools(logs, head, group_end(gs, k, n))
            &&& thoughts == kept_thoughts(logs, head, group_end(gs, k, n), d)
            &&& forall|m: int| head < m < group_end(gs, k, n) ==> !opens_message(#[trigger] logs[m])
        })
}

proof fn lemma_scan_windows(logs: Seq<LogMessage>, n: int, d: Seq<bool>)
    requires
        0 <= n <= logs.len(),
    ensures
        windows_ok(logs, close(scan(logs, n, d)), d, n),
        scan(logs, n, d).open is None ==> close(scan(logs, n, d)).len() == 0 || !(close(
            scan(logs, n, d),
        ).last() is Assistant),
    decreases n,
{
    if n > 0 {
        let i = n - 1;
        let s = scan(logs, i, d);
        lemma_scan_windows(logs, i, d);
        lemma_scan_ok(logs, i, d);
        let c = close(s);
        let next = scan(logs, n, d);
        assert(next == scan_step(logs, s, i, d));
        let nc = close(next);
        if opens_message(logs[i]) {
            let g = match logs[i].kind {
                LogMessageKind::User { .. } => Group::User { index: i },
                LogMessageKind::ToolResult { .. } => Group::ToolResult { index: i },
                _ => Group::Assistant { head: i, tools: Seq::empty(), thoughts: Seq::empty() },
            };
            assert(nc == c.push(g));
            assert forall|k: int| 0 <= k < nc.len() implies (#[trigger] nc[k] matches Group::Assistant {
                head,
                tools,
                thoughts,
            } ==> {
                &&& tools == child_tools(logs, head, group_end(nc, k, n))
                &&& thoughts == kept_thoughts(logs, head, group_end(nc, k, n), d)
                &&& forall|m: int| head < m < group_end(nc, k, n) ==> !opens_message(#[trigger] logs[m])
            }) by {
                if k < c.len() {
                    assert(nc[k] == c[k]);
                    if k + 1 < c.len() {
                        assert(nc[k + 1] == c[k + 1]);
                        assert(group_end(nc, k, n) == group_end(c, k, i));
                    } else {
                        assert(nc[k + 1] == g);
                        assert(anchor(g) == i);
                        assert(group_end(nc, k, n) == group_end(c, k, i));
                    }
                } else {
                    assert(nc[k] == g);
                    assert(group_end(nc, k, n) == n);
                }
            }
        } else {
            match s.open {
                Some((h, t, r)) => {
                    assert(c.last() == Group::Assistant { head: h, tools: t, thoughts: r });
                    assert(c == s.done.push(Group::Assistant { head: h, tools: t, thoughts: r }));
                    assert(groups_ok(logs, c, d, i));
                    assert(group_ok(logs, c[c.len() - 1], d, i));
                    assert(h < i);
                    let t2 = child_tools(logs, h, n);
                    let r2 = kept_thoughts(logs, h, n, d);
                    assert(next == (Scan { done: s.done, open: Some((h, t2, r2)) })) by {
                        let last = c.len() - 1;
                        assert(c[last] == Group::Assistant { head: h, tools: t, thoughts: r });
                        assert(group_end(c, last, i) == i);
                        assert(child_tools(logs, h, i) == t);
                        assert(kept_thoughts(logs, h, i, d) == r);
                        match logs[i].kind {
                            LogMessageKind::ToolCall { .. } => {
                                assert(r2 =~= r);
                                if is_child_of(parent_of(logs[i]), logs[h]) {
                                    assert(t2 =~= t.push(i));
                                } else {
                                    assert(t2 =~= t);
                                }
                            },
                            LogMessageKind::Thinking { .. } => {
                                assert(t2 =~= t);
                                if decided(d, i) && is_child_of(parent_of(logs[i]), logs[h]) {
                                    assert(r2 =~= r.push(i));
                                } else {
                                    assert(r2 =~= r);
                                }
                            },
                            _ => {
                                assert(t2 =~= t);
                                assert(r2 =~= r);
                            },
                        }
                    }
                    let g = Group::Assistant { head: h, tools: t2, thoughts: r2 };
                    assert(nc == s.done.push(g));
                    assert forall|k: int| 0 <= k < nc.len() implies (#[trigger] nc[k] matches Group::Assistant {
                        head,
                        tools,
                        thoughts,
                    } ==> {
                        &&& tools == child_tools(logs, head, group_end(nc, k, n))
                        &&& thoughts == kept_thoughts(logs, head, group_end(nc, k, n), d)
                        &&& forall|m: int| head < m < group_end(nc, k, n) ==> !opens_message(#[trigger] logs[m])
                    }) by {
                        if k < s.done.len() {
                            assert(nc[k] == c[k]);
                            if k + 1 < s.done.len() {
                                assert(nc[k + 1] == c[k + 1]);
                            } else {
                                assert(nc[k + 1] == g);
                                assert(c[k + 1] == c.last());
                            }
                            assert(group_end(nc, k, n) == group_end(c, k, i));
                        } else {
                            assert(nc[k] == g);
                            assert(group_end(nc, k, n) == n);
                            assert(c[k] == c.last());
                            assert(group_end(c, k, i) == i);
                        }
                    }
                },
                None => {
                    assert(next == s);
                    assert forall|k: int| 0 <= k < nc.len() implies (#[trigger] nc[k] matches Group::Assistant {
                        head,
                        tools,
                        thoughts,
                    } ==> {
                        &&& tools == child_tools(logs, head, group_end(nc, k, n))
                        &&& thoughts == kept_thoughts(logs, head, group_end(nc, k, n), d)
                        &&& forall|m: int| head < m < group_end(nc, k, n) ==> !opens_message(#[trigger] logs[m])
                    }) by {
                        assert(nc[k] == c[k]);
                        if k + 1 < c.len() {
                            assert(group_end(nc, k, n) == group_end(c, k, i));
                        } else {
                            assert(c[k] == c.last());
                        }
                    }
                },
            }
        }
    }
}

proof fn lemma_open_head_window(logs: Seq<LogMessage>, h: int, i: int)
    requires
        0 <= h < i <= logs.len(),
        logs[h].kind is Assistant,
        forall|m: int| h < m < i ==> !opens_message(#[trigger] logs[m]),
    ensures
        open_head(logs, i) == Some(h),
    decreases i,
{
    if i - 1 > h {
        assert(!opens_message(logs[i - 1]));
        lemma_open_head_window(logs, h, i - 1);
    }
}

proof fn lemma_kept_thoughts_policy(
    logs: Seq<LogMessage>,
    policy: &ThinkingPolicy,
    d: Seq<bool>,
    h: int,
    e: int,
)
    requires
        d.len() == logs.len(),
        decisions_fit(policy, logs, d),
        0 <= h < e <= logs.len(),
        logs[h].kind is Assistant,
        forall|m: int| h < m < e ==> !opens_message(#[trigger] logs[m]),
    ensures
        kept_thoughts(logs, h, e, d) == if policy_keeps(policy, provider_text(logs[h])) {
            child_thoughts(logs, h, e)
        } else {
            Seq::<int>::empty()
        },
    decreases e - h,
{
    if e > h + 1 {
        let i = e - 1;
        lemma_kept_thoughts_policy(logs, policy, d, h, i);
        let keep = policy_keeps(policy, provider_text(logs[h]));
        if logs[i].kind is Thinking {
            lemma_open_head_window(logs, h, i);
            assert(decided(d, i) == d[i]);
            assert(d[i] == keep);
        }
        if keep {
            assert(kept_thoughts(logs, h, e, d) =~= child_thoughts(logs, h, e));
        } else {
            assert(kept_thoughts(logs, h, e, d) =~= Seq::<int>::empty());
        }
    }
}

/// Projection law, message by message: the `k`-th projected message, when
/// it comes from an assistant record at position `h`, is the assistant
/// message with that record's provider response id whose blocks are its
/// answer text, then one tool-call block for each tool-call record between
/// `h` and the next record that starts a message (or the end of the log)
/// that names the record as its parent, in order, then, when the policy
/// keeps reasoning for the record's provider, one reasoning block for each
/// thinking record there that names it as its parent, in order.
pub proof fn lemma_assistant_message(
    logs: Seq<LogMessage>,
    policy: &ThinkingPolicy,
    d: Seq<bool>,
    ms: Seq<Message>,
    k: int,
)
    requires
        d.len() == logs.len(),
        decisions_fit(policy, logs, d),
        renders_all(ms, projected_groups(logs, d), logs),
        0 <= k < boundaries(logs, logs.len() as int).len(),
        logs[boundaries(logs, logs.len() as int)[k]].kind is Assistant,
    ensures
        ({
            let b = boundaries(logs, logs.len() as int);
            let h = b[k];
            let e = if k + 1 < b.len() {
                b[k + 1]
            } else {
                logs.len() as int
            };
            let t = child_tools(logs, h, e);
            let r = if policy_keeps(policy, provider_text(logs[h])) {
                child_thoughts(logs, h, e)
            } else {
                Seq::<int>::empty()
            };
            &&& forall|m: int| h < m < e ==> !opens_message(#[trigger] logs[m])
            &&& ms[k] matches Message::Assistant { id, content }
            &&& logs[h].kind matches LogMessageKind::Assistant { content: text, provider_response_id, .. }
            &&& id == provider_response_id
            &&& content@.len() == 1 + t.len() + r.len()
            &&& content@[0] == AssistantContent::Text(text)
            &&& forall|j: int| 0 <= j < t.len() ==> content@[1 + j] == tool_block(logs[#[trigger] t[j]])
            &&& forall|j: int|
                0 <= j < r.len() ==> content@[1 + t.len() + j] == AssistantContent::Reasoning(
                    reasoning_of(logs[#[trigger] r[j]]),
                )
        }),
{
    let n = logs.len() as int;
    let gs = projected_groups(logs, d);
    let b = boundaries(logs, n);
    lemma_scan_anchors(logs, n, d);
    lemma_scan_windows(logs, n, d);
    lemma_scan_ok(logs, n, d);
    assert(anchor(gs[k]) == b[k]);
    assert(group_kind_ok(logs, gs[k]));
    assert(group_ok(logs, gs[k], d, n));
    let e = if k + 1 < b.len() {
        b[k + 1]
    } else {
        n
    };
    if k + 1 < b.len() {
        assert(anchor(gs[k + 1]) == b[k + 1]);
    }
    assert(group_end(gs, k, n) == e);
    assert(renders(ms[k], gs[k], logs));
    if let Group::Assistant { head, tools, thoughts } = gs[k] {
        assert(head == b[k]);
        assert(0 <= head < n);
        if k + 1 < b.len() {
            assert(anchor(gs[k]) < anchor(gs[k + 1]));
        }
        lemma_kept_thoughts_policy(logs, policy, d, head, e);
    }
}

} // verus!
