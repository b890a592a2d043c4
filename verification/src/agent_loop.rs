//! The decisions of the agent loop: the system prompt, the accumulation of
//! one streamed round, what a finished round leads to, and the steps of one
//! tool call (checks, approval, cancellation, final status). The loop
//! itself, which streams, waits and writes, runs outside the library and
//! hands these functions what happened.

use vstd::prelude::*;
use crate::config::ProviderInstance;
use crate::permissions::ApprovalDecision;
use crate::providers::{
    json_object_with_string, json_parse, json_parsed, json_string_object, json_text, json_text_of, opt_seq, preset_default_base_url, preset_index, AssistantMessage, AssistantToolCall, ChatEvent, ChatMessage,
    ToolResultMessage,
};
use crate::text::{
    chars_of, is_nonempty, join_seq, push_chars, push_str, slice_chars, split_on, str_eq,
    string_of, string_views, trim, trim_chars,
};
use crate::types::{ContentBlock, StoredMessage, ToolCallStatus, Usage};

verus! {

// ---------------------------------------------------------------------------
// System prompt
// ---------------------------------------------------------------------------

/// The text before the first `c`, and after it, if `c` occurs.
pub open spec fn split_once(s: Seq<char>, c: char) -> Option<(Seq<char>, Seq<char>)>
    decreases s.len(),
{
    if s.len() == 0 {
        None
    } else if s[0] == c {
        Some((Seq::<char>::empty(), s.skip(1)))
    } else {
        match split_once(s.skip(1), c) {
            Some((a, b)) => Some((seq![s[0]] + a, b)),
            None => None,
        }
    }
}

pub open spec fn prompt_head() -> Seq<char> {
    "You are an AI agent embedded in Reach, an SSH remote management tool. You operate on a REMOTE server over SSH, so all file and terminal tools affect the remote host, not the user's local machine.\n\nHost: "@
}

pub open spec fn prompt_tail() -> Seq<char> {
    "\n\n## Tool Use\n\n- Follow the available tool schemas exactly and provide every required argument.\n- Use only the tools that are currently available; the user may have disabled some.\n- Prefer the most direct tool for the job: read_file/list_directory for inspecting files, the terminal tool for running commands.\n- You can call multiple tools in a single response. Make all independent tool calls in parallel; only serialize when one call depends on another's result.\n\n## Communication\n\n- Be concise, direct, friendly, and technical. Communicate efficiently and prioritize actionable guidance over verbose narration.\n- Be transparent about uncertainty: say what you inferred versus what you verified.\n- Prioritize technical correctness over affirming the user's assumptions. If something looks risky (destructive commands, production data), say so and explain.\n\n## Doing the work\n\n- Keep going until the task is resolved; stop early only when you genuinely need information or a decision from the user.\n- Address root causes, not symptoms. When debugging, gather evidence (logs, status, config) before changing anything.\n- Verify with commands before claiming something is fixed. Do not claim success you did not observe.\n\n## Final message\n\n- Summarize what changed and on which paths/services, and state what verification you ran (or why you did not run any)."@
}

/// The system prompt for an identity `user@host:port[#via=hash]`: host and
/// user are read from the part before `#` (user `unknown` when there is no
/// `@`), the OS is `unknown` when not detected.
pub open spec fn system_prompt(identity: Seq<char>, os: Option<Seq<char>>) -> Seq<char> {
    let base = split_on(identity, '#')[0];
    let (user, host) = match split_once(base, '@') {
        Some((u, h)) => (u, h),
        None => ("unknown"@, base),
    };
    prompt_head() + host + "  User: "@ + user + "  OS: "@ + match os {
        Some(o) => o,
        None => "unknown"@,
    } + prompt_tail()
}

fn split_once_exec(v: &Vec<char>, c: char) -> (r: Option<(Vec<char>, Vec<char>)>)
    ensures
        match split_once(v@, c) {
            Some((a, b)) => r matches Some(x) && x.0@ == a && x.1@ == b,
            None => r is None,
        },
{
    let mut i: usize = 0;
    assert(v@.skip(0) =~= v@);
    while i < v.len() && v[i] != c
        invariant
            i <= v@.len(),
            forall|j: int| 0 <= j < i ==> v@[j] != c,
            split_once(v@, c) == match split_once(v@.skip(i as int), c) {
                Some((a, b)) => Some((v@.take(i as int) + a, b)),
                None => None,
            },
        decreases v@.len() - i,
    {
        proof {
            let t = v@.skip(i as int);
            assert(t.skip(1) =~= v@.skip(i + 1));
            assert(t[0] == v@[i as int]);
            match split_once(v@.skip(i + 1), c) {
                Some((a, b)) => {
                    assert(v@.take(i as int) + (seq![v@[i as int]] + a) =~= v@.take(i + 1) + a);
                },
                None => {},
            }
        }
        i = i + 1;
    }
    if i == v.len() {
        assert(v@.skip(i as int) =~= Seq::<char>::empty());
        return None;
    }
    let a = slice_chars(v, 0, i);
    let b = slice_chars(v, i + 1, v.len());
    proof {
        let t = v@.skip(i as int);
        assert(t[0] == c);
        assert(t.skip(1) =~= v@.subrange(i + 1, v@.len() as int));
        assert(v@.take(i as int) + Seq::<char>::empty() =~= v@.subrange(0, i as int));
    }
    Some((a, b))
}

/// Builds the system prompt for an identity and detected OS.
pub fn build_system_prompt(identity: &str, detected_os: Option<&str>) -> (s: String)
    ensures
        s@ == system_prompt(identity@, match detected_os {
            Some(o) => Some(o@),
            None => None,
        }),
{
    let v = chars_of(identity);
    let pieces = crate::text::split_chars(&v, '#');
    proof {
        crate::text::lemma_split_on_nonempty(v@, '#');
    }
    let base = slice_chars(&pieces[0], 0, pieces[0].len());
    assert(base@ =~= split_on(identity@, '#')[0]);
    let (user, host) = match split_once_exec(&base, '@') {
        Some((u, h)) => (u, h),
        None => (chars_of("unknown"), slice_chars(&base, 0, base.len())),
    };
    assert(base@.subrange(0, base@.len() as int) =~= base@);
    let mut s = String::from_str(
        "You are an AI agent embedded in Reach, an SSH remote management tool. You operate on a REMOTE server over SSH, so all file and terminal tools affect the remote host, not the user's local machine.\n\nHost: ",
    );
    push_chars(&mut s, host.as_slice());
    push_str(&mut s, "  User: ");
    push_chars(&mut s, user.as_slice());
    push_str(&mut s, "  OS: ");
    match detected_os {
        Some(o) => push_str(&mut s, o),
        None => push_str(&mut s, "unknown"),
    }
    push_str(
        &mut s,
        "\n\n## Tool Use\n\n- Follow the available tool schemas exactly and provide every required argument.\n- Use only the tools that are currently available; the user may have disabled some.\n- Prefer the most direct tool for the job: read_file/list_directory for inspecting files, the terminal tool for running commands.\n- You can call multiple tools in a single response. Make all independent tool calls in parallel; only serialize when one call depends on another's result.\n\n## Communication\n\n- Be concise, direct, friendly, and technical. Communicate efficiently and prioritize actionable guidance over verbose narration.\n- Be transparent about uncertainty: say what you inferred versus what you verified.\n- Prioritize technical correctness over affirming the user's assumptions. If something looks risky (destructive commands, production data), say so and explain.\n\n## Doing the work\n\n- Keep going until the task is resolved; stop early only when you genuinely need information or a decision from the user.\n- Address root causes, not symptoms. When debugging, gather evidence (logs, status, config) before changing anything.\n- Verify with commands before claiming something is fixed. Do not claim success you did not observe.\n\n## Final message\n\n- Summarize what changed and on which paths/services, and state what verification you ran (or why you did not run any).",
    );
    s
}

// ---------------------------------------------------------------------------
// Tool registry
// ---------------------------------------------------------------------------

/// The tools the agent offers, in registration order.
pub open spec fn tool_names() -> Seq<Seq<char>> {
    seq!["read_file"@, "write_file"@, "edit_file"@, "list_directory"@, "terminal"@, "fetch"@]
}

fn tool_name_at(k: usize) -> (s: &'static str)
    requires
        k < 6,
    ensures
        s@ == tool_names()[k as int],
{
    if k == 0 {
        "read_file"
    } else if k == 1 {
        "write_file"
    } else if k == 2 {
        "edit_file"
    } else if k == 3 {
        "list_directory"
    } else if k == 4 {
        "terminal"
    } else {
        "fetch"
    }
}

/// Whether a tool of this name exists.
pub fn is_known_tool(name: &str) -> (b: bool)
    ensures
        b == tool_names().contains(name@),
{
    let mut k: usize = 0;
    while k < 6
        invariant
            k <= 6,
            forall|j: int| 0 <= j < k ==> tool_names()[j] != name@,
        decreases 6 - k,
    {
        if str_eq(tool_name_at(k), name) {
            return true;
        }
        k = k + 1;
    }
    false
}

// ---------------------------------------------------------------------------
// One tool call
// ---------------------------------------------------------------------------

/// The next step of a tool call.
pub enum ToolStep {
    /// End the call now with this status and error text.
    Finish { status: ToolCallStatus, text: String },
    /// Ask the user, showing these warnings.
    AskApproval { warnings: Vec<String> },
    /// Run the tool.
    Run,
}

/// The first 200 characters.
pub open spec fn first_200(s: Seq<char>) -> Seq<char> {
    if s.len() <= 200 {
        s
    } else {
        s.take(200)
    }
}

/// The step a tool call starts with: an argument parse error, an unknown
/// tool, a disabled tool and a built-in denial all end it as failed; an
/// approval request asks; otherwise it runs.
pub open spec fn first_step_spec(
    name: Seq<char>,
    parse_error: Option<Seq<char>>,
    enabled: bool,
    decision: ApprovalDecision,
) -> (nat, Seq<char>) {
    match parse_error {
        Some(raw) => (0, "Failed to parse tool arguments as JSON: "@ + first_200(raw)),
        None => if !tool_names().contains(name) {
            (0, "Unknown tool: "@ + name + ". Use only the tools provided in this conversation."@)
        } else if !enabled {
            (0, "The "@ + name
                + " tool is disabled in settings. Do not retry with this tool; tell the user it can be enabled in Settings -> AI."@)
        } else {
            match decision {
                ApprovalDecision::Deny { reason } => (0, reason@),
                ApprovalDecision::RequireApproval { warnings } => (1, Seq::<char>::empty()),
                ApprovalDecision::Allow => (2, Seq::<char>::empty()),
            }
        },
    }
}

/// Decides how a tool call starts, given the `__parse_error` text of its
/// arguments (if they did not parse), whether the tool is enabled and the
/// permission decision.
pub fn first_step(
    name: &str,
    parse_error: Option<&str>,
    enabled: bool,
    decision: ApprovalDecision,
) -> (s: ToolStep)
    ensures
        ({
            let (kind, text) = first_step_spec(
                name@,
                match parse_error {
                    Some(p) => Some(p@),
                    None => None,
                },
                enabled,
                decision,
            );
            match s {
                ToolStep::Finish { status, text: t } => kind == 0 && status == ToolCallStatus::Failed
                    && t@ == text,
                ToolStep::AskApproval { warnings } => kind == 1 && (decision matches ApprovalDecision::RequireApproval { warnings: w } && warnings@ == w@),
                ToolStep::Run => kind == 2,
            }
        }),
{
    match parse_error {
        Some(raw) => {
            let v = chars_of(raw);
            let n = if v.len() <= 200 {
                v.len()
            } else {
                200
            };
            let head = slice_chars(&v, 0, n);
            let mut t = String::from_str("Failed to parse tool arguments as JSON: ");
            push_chars(&mut t, head.as_slice());
            assert(v@.subrange(0, n as int) =~= first_200(raw@));
            return ToolStep::Finish { status: ToolCallStatus::Failed, text: t };
        },
        None => {},
    }
    if !is_known_tool(name) {
        let mut t = String::from_str("Unknown tool: ");
        push_str(&mut t, name);
        push_str(&mut t, ". Use only the tools provided in this conversation.");
        return ToolStep::Finish { status: ToolCallStatus::Failed, text: t };
    }
    if !enabled {
        let mut t = String::from_str("The ");
        push_str(&mut t, name);
        push_str(
            &mut t,
            " tool is disabled in settings. Do not retry with this tool; tell the user it can be enabled in Settings -> AI.",
        );
        return ToolStep::Finish { status: ToolCallStatus::Failed, text: t };
    }
    match decision {
        ApprovalDecision::Deny { reason } => ToolStep::Finish {
            status: ToolCallStatus::Failed,
            text: reason,
        },
        ApprovalDecision::RequireApproval { warnings } => ToolStep::AskApproval { warnings },
        ApprovalDecision::Allow => ToolStep::Run,
    }
}

/// The end of a call whose approval was awaited: cancelled while waiting,
/// rejected (with a note that nothing changed for the writing tools), or
/// `None` to go on.
pub open spec fn approval_end(name: Seq<char>, answer: Option<bool>) -> Option<(ToolCallStatus, Seq<char>)> {
    match answer {
        None => Some((
            ToolCallStatus::Cancelled,
            "The user cancelled this operation while it was waiting for approval. Ask them what they would like to do next rather than automatically retrying."@,
        )),
        Some(approved) => if approved {
            None
        } else {
            Some((
                ToolCallStatus::Rejected,
                "Permission to run tool denied by user"@ + if name == "write_file"@ {
                    "\nNo changes were made."@
                } else if name == "edit_file"@ {
                    "\nNo edits were made."@
                } else {
                    Seq::<char>::empty()
                },
            ))
        },
    }
}

/// What the user's answer to an approval request leads to (`None`: the
/// run was cancelled while waiting).
pub fn after_approval(name: &str, answer: Option<bool>) -> (r: Option<(ToolCallStatus, String)>)
    ensures
        match approval_end(name@, answer) {
            Some((st, t)) => r matches Some(x) && x.0 == st && x.1@ == t,
            None => r is None,
        },
{
    match answer {
        None => Some(
            (
                ToolCallStatus::Cancelled,
                String::from_str(
                    "The user cancelled this operation while it was waiting for approval. Ask them what they would like to do next rather than automatically retrying.",
                ),
            ),
        ),
        Some(approved) => {
            if approved {
                None
            } else {
                let mut t = String::from_str("Permission to run tool denied by user");
                if str_eq(name, "write_file") {
                    push_str(&mut t, "\nNo changes were made.");
                } else if str_eq(name, "edit_file") {
                    push_str(&mut t, "\nNo edits were made.");
                }
                Some((ToolCallStatus::Rejected, t))
            }
        },
    }
}

/// The text of a call cancelled before it ran.
pub fn cancelled_before_run() -> (r: (ToolCallStatus, String))
    ensures
        r.0 == ToolCallStatus::Cancelled,
        r.1@
            == "The user cancelled this operation. Ask them what they would like to do next rather than automatically retrying."@,
{
    (
        ToolCallStatus::Cancelled,
        String::from_str(
            "The user cancelled this operation. Ask them what they would like to do next rather than automatically retrying.",
        ),
    )
}

/// The final status of a call that ran: cancelled if the run was
/// cancelled, else failed or successful by the result.
pub fn final_status(cancelled: bool, is_error: bool) -> (s: ToolCallStatus)
    ensures
        s == (if cancelled {
            ToolCallStatus::Cancelled
        } else if is_error {
            ToolCallStatus::Failed
        } else {
            ToolCallStatus::Success
        }),
        crate::types::status_is_terminal(s),
{
    if cancelled {
        ToolCallStatus::Cancelled
    } else if is_error {
        ToolCallStatus::Failed
    } else {
        ToolCallStatus::Success
    }
}

// ---------------------------------------------------------------------------
// One streamed round
// ---------------------------------------------------------------------------

/// A tool call being streamed.
pub struct PendingToolCall {
    pub id: Option<String>,
    pub name: Option<String>,
    pub args_json: String,
}

/// What a round has streamed so far.
pub struct RoundAcc {
    pub text: String,
    pub thinking: String,
    pub thinking_details: Option<serde_json::Value>,
    /// Tool calls by stream index, in ascending index order.
    pub tool_calls: Vec<(usize, PendingToolCall)>,
    pub last_usage: Option<Usage>,
    pub finish_reason: Option<String>,
    pub error: Option<String>,
}

/// The indices are strictly ascending.
pub open spec fn indices_ascending(calls: Seq<(usize, PendingToolCall)>) -> bool {
    forall|a: int, b: int| 0 <= a < b < calls.len() ==> calls[a].0 < calls[b].0
}

/// The streamed state of the call with stream index `index`, if any.
pub open spec fn call_at(calls: Seq<(usize, PendingToolCall)>, index: usize) -> Option<
    (Option<Seq<char>>, Option<Seq<char>>, Seq<char>),
> {
    if exists|k: int| 0 <= k < calls.len() && calls[k].0 == index {
        let k = choose|k: int| 0 <= k < calls.len() && calls[k].0 == index;
        Some((crate::providers::opt_seq(calls[k].1.id), crate::providers::opt_seq(calls[k].1.name), calls[k].1.args_json@))
    } else {
        None
    }
}

/// What the loop must show for one event.
pub enum RoundEmit {
    Nothing,
    Text(String),
    Thinking(String),
    /// A tool call became identifiable (id and name known) for the first
    /// time; then, when the delta was not empty, the delta itself.
    ToolCall { announce: bool, id: String, name: String, args_json: String, delta: Option<String> },
    Usage(Usage),
}

/// What a tool-call delta shows, given the call's state after it (`now`:
/// id, name, accumulated arguments), the delta, and the ids already
/// announced; and the announced ids after it. Once a call has both an id
/// and a name, it is announced the first time, and shown with each
/// non-empty delta.
pub open spec fn tool_delta_emit(
    now: (Option<Seq<char>>, Option<Seq<char>>, Seq<char>),
    delta: Seq<char>,
    announced: Seq<Seq<char>>,
    e: RoundEmit,
    after: Seq<Seq<char>>,
) -> bool {
    match (now.0, now.1) {
        (Some(idv), Some(namev)) => {
            let seen = announced.contains(idv);
            &&& after == (if seen { announced } else { announced.push(idv) })
            &&& if !seen || delta.len() > 0 {
                e matches RoundEmit::ToolCall { announce, id, name, args_json, delta: d }
                    && announce == !seen && id@ == idv && name@ == namev && args_json@ == now.2 && (
                if delta.len() > 0 {
                    d matches Some(x) && x@ == delta
                } else {
                    d is None
                })
            } else {
                e is Nothing
            }
        },
        _ => after == announced && e is Nothing,
    }
}

impl RoundAcc {
    /// An empty round.
    pub fn new() -> (r: RoundAcc)
        ensures
            r.text@.len() == 0,
            r.thinking@.len() == 0,
            r.thinking_details is None,
            r.tool_calls@.len() == 0,
            r.last_usage is None,
            r.finish_reason is None,
            r.error is None,
    {
        RoundAcc {
            text: String::new(),
            thinking: String::new(),
            thinking_details: None,
            tool_calls: Vec::new(),
            last_usage: None,
            finish_reason: None,
            error: None,
        }
    }

    fn position(&self, index: usize) -> (r: Result<usize, usize>)
        requires
            indices_ascending(self.tool_calls@),
        ensures
            match r {
                Ok(k) => k < self.tool_calls@.len() && self.tool_calls@[k as int].0 == index,
                Err(k) => k <= self.tool_calls@.len() && (forall|j: int|
                    0 <= j < k ==> self.tool_calls@[j].0 < index) && (forall|j: int|
                    k <= j < self.tool_calls@.len() ==> self.tool_calls@[j].0 > index),
            },
    {
        let mut k: usize = 0;
        while k < self.tool_calls.len() && self.tool_calls[k].0 < index
            invariant
                k <= self.tool_calls@.len(),
                indices_ascending(self.tool_calls@),
                forall|j: int| 0 <= j < k ==> self.tool_calls@[j].0 < index,
            decreases self.tool_calls@.len() - k,
        {
            k = k + 1;
        }
        if k < self.tool_calls.len() && self.tool_calls[k].0 == index {
            Ok(k)
        } else {
            Err(k)
        }
    }

    /// Folds one event of the round into the accumulated state and tells
    /// what to show. `announced` holds the ids of the calls already shown.
    pub fn on_event(&mut self, event: ChatEvent, announced: &mut Vec<String>) -> (e: RoundEmit)
        requires
            indices_ascending(old(self).tool_calls@),
        ensures
            indices_ascending(final(self).tool_calls@),
            !(event is ToolCallDelta) ==> final(announced)@ == old(announced)@,
            match event {
                ChatEvent::TextDelta(d) => final(self).text@ == old(self).text@ + d@ && (e matches RoundEmit::Text(x) && x@ == d@),
                ChatEvent::ThinkingDelta(d) => final(self).thinking@ == old(self).thinking@ + d@ && (e matches RoundEmit::Thinking(x) && x@ == d@),
                ChatEvent::ReasoningDetails(v) => e is Nothing && final(self).thinking_details == (
                if old(self).thinking_details is Some {
                    old(self).thinking_details
                } else {
                    Some(v)
                }),
                ChatEvent::ToolCallDelta { index, id, name, args_json_delta } => {
                    let prev = call_at(old(self).tool_calls@, index);
                    let now = call_at(final(self).tool_calls@, index);
                    let old_args = match prev {
                        Some(p) => p.2,
                        None => Seq::<char>::empty(),
                    };
                    &&& now is Some
                    &&& now.unwrap().2 == old_args + args_json_delta@
                    &&& now.unwrap().0 == (if id is Some {
                        crate::providers::opt_seq(id)
                    } else {
                        match prev {
                            Some(p) => p.0,
                            None => None,
                        }
                    })
                    &&& now.unwrap().1 == (if name is Some {
                        crate::providers::opt_seq(name)
                    } else {
                        match prev {
                            Some(p) => p.1,
                            None => None,
                        }
                    })
                    &&& forall|j: usize| j != index ==> #[trigger] call_at(final(self).tool_calls@, j) == call_at(old(self).tool_calls@, j)
                    &&& tool_delta_emit(now.unwrap(), args_json_delta@, string_views(old(announced)@), e, string_views(final(announced)@))
                },
                ChatEvent::Usage(u) => final(self).last_usage == Some(u) && e == RoundEmit::Usage(u),
                ChatEvent::Done { finish_reason } => final(self).finish_reason matches Some(f) && f@ == finish_reason@ && e is Nothing,
                ChatEvent::Error(m) => final(self).error matches Some(x) && x@ == m@ && e is Nothing,
            },
    {
        match event {
            ChatEvent::TextDelta(delta) => {
                push_str(&mut self.text, delta.as_str());
                RoundEmit::Text(delta)
            },
            ChatEvent::ThinkingDelta(delta) => {
                push_str(&mut self.thinking, delta.as_str());
                RoundEmit::Thinking(delta)
            },
            ChatEvent::ReasoningDetails(details) => {
                if self.thinking_details.is_none() {
                    self.thinking_details = Some(details);
                }
                RoundEmit::Nothing
            },
            ChatEvent::Usage(usage) => {
                self.last_usage = Some(usage);
                RoundEmit::Usage(usage)
            },
            ChatEvent::Done { finish_reason } => {
                self.finish_reason = Some(finish_reason);
                RoundEmit::Nothing
            },
            ChatEvent::Error(e) => {
                self.error = Some(e);
                RoundEmit::Nothing
            },
            ChatEvent::ToolCallDelta { index, id, name, args_json_delta } => {
                self.apply_tool_delta(index, id, name, args_json_delta, announced)
            },
        }
    }

    fn apply_tool_delta(
        &mut self,
        index: usize,
        id: Option<String>,
        name: Option<String>,
        delta: String,
        announced: &mut Vec<String>,
    ) -> (e: RoundEmit)
        requires
            indices_ascending(old(self).tool_calls@),
        ensures
            indices_ascending(final(self).tool_calls@),
            final(self).text == old(self).text,
            final(self).thinking == old(self).thinking,
            final(self).thinking_details == old(self).thinking_details,
            final(self).last_usage == old(self).last_usage,
            final(self).finish_reason == old(self).finish_reason,
            final(self).error == old(self).error,
            ({
                let prev = call_at(old(self).tool_calls@, index);
                let now = call_at(final(self).tool_calls@, index);
                let old_args = match prev {
                    Some(p) => p.2,
                    None => Seq::<char>::empty(),
                };
                &&& now is Some
                &&& now.unwrap().2 == old_args + delta@
                &&& now.unwrap().0 == (if id is Some {
                    crate::providers::opt_seq(id)
                } else {
                    match prev {
                        Some(p) => p.0,
                        None => None,
                    }
                })
                &&& now.unwrap().1 == (if name is Some {
                    crate::providers::opt_seq(name)
                } else {
                    match prev {
                        Some(p) => p.1,
                        None => None,
                    }
                })
                &&& forall|j: usize| j != index ==> #[trigger] call_at(final(self).tool_calls@, j) == call_at(old(self).tool_calls@, j)
                &&& tool_delta_emit(now.unwrap(), delta@, string_views(old(announced)@), e, string_views(final(announced)@))
            }),
    {
        let ghost old_calls = self.tool_calls@;
        let ghost old_ann = string_views(announced@);
        let pos = self.position(index);
        let mut calls = Vec::new();
        std::mem::swap(&mut calls, &mut self.tool_calls);
        let (k, entry) = match pos {
            Ok(k) => {
                let (_, e) = calls.remove(k);
                (k, e)
            },
            Err(k) => (k, PendingToolCall { id: None, name: None, args_json: String::new() }),
        };
        let ghost rest = calls@;
        let PendingToolCall { id: old_id, name: old_name, args_json } = entry;
        let new_id = match id {
            Some(i) => Some(i),
            None => old_id,
        };
        let new_name = match name {
            Some(n) => Some(n),
            None => old_name,
        };
        let mut args = args_json;
        push_str(&mut args, delta.as_str());
        let mut emit = RoundEmit::Nothing;
        match (&new_id, &new_name) {
            (Some(tc_id), Some(tc_name)) => {
                let mut seen = false;
                let mut a: usize = 0;
                while a < announced.len()
                    invariant
                        a <= announced@.len(),
                        old_ann == string_views(announced@),
                        seen == exists|b: int| 0 <= b < a && #[trigger] old_ann[b] == tc_id@,
                    decreases announced@.len() - a,
                {
                    assert(old_ann[a as int] == announced@[a as int]@);
                    if str_eq(announced[a].as_str(), tc_id.as_str()) {
                        seen = true;
                    }
                    proof {
                        if !(announced@[a as int]@ == tc_id@) {
                            assert forall|b: int| 0 <= b < a + 1 && #[trigger] old_ann[b] == tc_id@ implies b < a by {}
                        }
                    }
                    a = a + 1;
                }
                proof {
                    if seen {
                        let b = choose|b: int| 0 <= b < a && #[trigger] old_ann[b] == tc_id@;
                        assert(old_ann.contains(tc_id@));
                    } else {
                        assert(!old_ann.contains(tc_id@)) by {
                            if old_ann.contains(tc_id@) {
                                let b = choose|b: int| 0 <= b < old_ann.len() && old_ann[b] == tc_id@;
                                assert(old_ann[b] == tc_id@);
                            }
                        }
                    }
                }
                if !seen {
                    announced.push(String::from_str(tc_id.as_str()));
                    assert(string_views(announced@) =~= old_ann.push(tc_id@));
                }
                let d = if is_nonempty(delta.as_str()) {
                    Some(String::from_str(delta.as_str()))
                } else {
                    None
                };
                if !seen || d.is_some() {
                    emit = RoundEmit::ToolCall {
                        announce: !seen,
                        id: String::from_str(tc_id.as_str()),
                        name: String::from_str(tc_name.as_str()),
                        args_json: String::from_str(args.as_str()),
                        delta: d,
                    };
                }
            },
            _ => {},
        }
        let ghost g_args = args@;
        calls.insert(k, (index, PendingToolCall { id: new_id, name: new_name, args_json: args }));
        proof {
            let nc = calls@;
            assert(nc.len() == old_calls.len() || nc.len() == old_calls.len() + 1);
            assert(indices_ascending(nc)) by {
                assert forall|a: int, b: int| 0 <= a < b < nc.len() implies nc[a].0 < nc[b].0 by {
                    match pos {
                        Ok(kk) => {
                            assert(rest == old_calls.remove(kk as int));
                            assert(nc == rest.insert(kk as int, nc[kk as int]));
                            let oa = if a < kk { a } else if a == kk { a } else { a };
                            if a != kk as int {
                                assert(nc[a] == old_calls[a]);
                            }
                            if b != kk as int {
                                assert(nc[b] == old_calls[b]);
                            }
                        },
                        Err(kk) => {
                            assert(rest == old_calls);
                            if a < kk as int {
                                assert(nc[a] == old_calls[a]);
                            } else if a > kk as int {
                                assert(nc[a] == old_calls[a - 1]);
                            }
                            if b < kk as int {
                                assert(nc[b] == old_calls[b]);
                            } else if b > kk as int {
                                assert(nc[b] == old_calls[b - 1]);
                            }
                        },
                    }
                }
            }
            assert(nc[k as int].0 == index);
            let a = choose|a: int| 0 <= a < nc.len() && nc[a].0 == index;
            assert(a == k as int);
            match pos {
                Ok(kk) => {
                    let b = choose|b: int| 0 <= b < old_calls.len() && old_calls[b].0 == index;
                    assert(b == kk as int);
                },
                Err(kk) => {
                    assert(!(exists|b: int| 0 <= b < old_calls.len() && old_calls[b].0 == index));
                },
            }
            assert forall|j: usize| j != index implies #[trigger] call_at(nc, j) == call_at(old_calls, j) by {
                if exists|b: int| 0 <= b < old_calls.len() && old_calls[b].0 == j {
                    let b = choose|b: int| 0 <= b < old_calls.len() && old_calls[b].0 == j;
                    let nb = match pos {
                        Ok(kk) => b,
                        Err(kk) => if b < kk as int { b } else { b + 1 },
                    };
                    assert(nc[nb] == old_calls[b]);
                    let c = choose|c: int| 0 <= c < nc.len() && nc[c].0 == j;
                    assert(c == nb);
                } else {
                    assert forall|c: int| 0 <= c < nc.len() implies nc[c].0 != j by {
                        if c != k as int {
                            match pos {
                                Ok(kk) => {
                                    assert(nc[c] == old_calls[c]);
                                },
                                Err(kk) => {
                                    if c < kk as int {
                                        assert(nc[c] == old_calls[c]);
                                    } else {
                                        assert(nc[c] == old_calls[c - 1]);
                                    }
                                },
                            }
                        }
                    }
                }
            }
        }
        self.tool_calls = calls;
        emit
    }
}

/// The result of a finished round.
pub struct RoundOutcome {
    /// Whether a thinking block is stored (thinking text or details).
    pub has_thinking: bool,
    /// Whether a text block is stored.
    pub has_text: bool,
    /// The complete tool calls, in stream-index order: id, name, raw
    /// arguments (`{}` when blank).
    pub calls: Vec<(String, String, String)>,
}

/// The complete calls (id and name known) in index order, with their raw
/// arguments (`{}` when blank).
pub open spec fn complete_calls(calls: Seq<(usize, PendingToolCall)>) -> Seq<(Seq<char>, Seq<char>, Seq<char>)>
    decreases calls.len(),
{
    if calls.len() == 0 {
        Seq::empty()
    } else {
        let prev = complete_calls(calls.drop_last());
        let p = calls.last().1;
        if p.id is Some && p.name is Some {
            prev.push((p.id->0@, p.name->0@, if trim(p.args_json@).len() == 0 {
                "{}"@
            } else {
                p.args_json@
            }))
        } else {
            prev
        }
    }
}

/// What a finished round stores and which calls it runs.
pub fn finish_round(acc: &RoundAcc) -> (r: RoundOutcome)
    ensures
        r.has_thinking == (acc.thinking@.len() > 0 || acc.thinking_details is Some),
        r.has_text == (acc.text@.len() > 0),
        r.calls@.map_values(|c: (String, String, String)| (c.0@, c.1@, c.2@)) == complete_calls(acc.tool_calls@),
{
    let has_thinking = is_nonempty(acc.thinking.as_str()) || acc.thinking_details.is_some();
    let has_text = is_nonempty(acc.text.as_str());
    let mut calls: Vec<(String, String, String)> = Vec::new();
    let mut i: usize = 0;
    while i < acc.tool_calls.len()
        invariant
            i <= acc.tool_calls@.len(),
            calls@.map_values(|c: (String, String, String)| (c.0@, c.1@, c.2@)) == complete_calls(acc.tool_calls@.take(i as int)),
        decreases acc.tool_calls@.len() - i,
    {
        let ghost prev = calls@;
        proof {
            assert(acc.tool_calls@.take(i + 1).drop_last() =~= acc.tool_calls@.take(i as int));
        }
        let p = &acc.tool_calls[i].1;
        match (&p.id, &p.name) {
            (Some(id), Some(name)) => {
                let av = chars_of(p.args_json.as_str());
                let raw = if trim_chars(&av).len() == 0 {
                    String::from_str("{}")
                } else {
                    String::from_str(p.args_json.as_str())
                };
                calls.push((String::from_str(id.as_str()), String::from_str(name.as_str()), raw));
                proof {
                    assert(calls@.map_values(|c: (String, String, String)| (c.0@, c.1@, c.2@)) =~= prev.map_values(|c: (String, String, String)| (c.0@, c.1@, c.2@)).push((id@, name@, calls@.last().2@)));
                }
            },
            _ => {},
        }
        i = i + 1;
    }
    assert(acc.tool_calls@.take(acc.tool_calls@.len() as int) =~= acc.tool_calls@);
    RoundOutcome { has_thinking, has_text, calls }
}

/// The arguments stored for a tool call from their raw text: the parsed
/// JSON value, or `{"__parse_error": raw}` when the text does not parse.
pub open spec fn tool_args_value(raw: Seq<char>) -> serde_json::Value {
    match json_parsed(raw) {
        Some(v) => v,
        None => json_string_object("__parse_error"@, raw),
    }
}

/// Parses a tool call's raw argument text (see `tool_args_value`).
pub fn parse_tool_args(raw: &str) -> (v: serde_json::Value)
    ensures
        v == tool_args_value(raw@),
{
    match json_parse(raw) {
        Some(v) => v,
        None => json_object_with_string("__parse_error", raw),
    }
}

/// The content of the assistant message a finished round stores: a
/// thinking block (its text and the first reasoning details) when there
/// is thinking, a text block when there is text, then one streaming tool
/// call block, without result, per complete call, with parsed arguments.
pub fn round_content(acc: &RoundAcc, o: &RoundOutcome) -> (r: Vec<ContentBlock>)
    ensures
        ({
            let t: int = if o.has_thinking { 1int } else { 0int };
            let x: int = t + if o.has_text { 1int } else { 0int };
            &&& r@.len() == x + o.calls@.len()
            &&& o.has_thinking ==> (r@[0] matches ContentBlock::Thinking { text, provider_payload }
                && text@ == acc.thinking@ && provider_payload == acc.thinking_details)
            &&& o.has_text ==> (r@[t] matches ContentBlock::Text { text } && text@ == acc.text@)
            &&& forall|j: int|
                x <= j < r@.len() ==> (#[trigger] r@[j] matches ContentBlock::ToolCall {
                    id,
                    name,
                    args,
                    status,
                    result,
                    warnings,
                } && id@ == o.calls@[j - x].0@ && name@ == o.calls@[j - x].1@ && args == tool_args_value(
                    o.calls@[j - x].2@,
                ) && status == ToolCallStatus::Streaming && result is None && warnings is None)
        }),
{
    let mut r: Vec<ContentBlock> = Vec::new();
    if o.has_thinking {
        let payload = match &acc.thinking_details {
            Some(v) => Some(v.clone()),
            None => None,
        };
        r.push(
            ContentBlock::Thinking {
                text: String::from_str(acc.thinking.as_str()),
                provider_payload: payload,
            },
        );
    }
    if o.has_text {
        r.push(ContentBlock::Text { text: String::from_str(acc.text.as_str()) });
    }
    let ghost x = r@.len() as int;
    let mut i: usize = 0;
    while i < o.calls.len()
        invariant
            i <= o.calls@.len(),
            r@.len() == x + i,
            x == (if o.has_thinking { 1int } else { 0int }) + if o.has_text { 1int } else { 0int },
            o.has_thinking ==> (r@[0] matches ContentBlock::Thinking { text, provider_payload }
                && text@ == acc.thinking@ && provider_payload == acc.thinking_details),
            o.has_text ==> (r@[if o.has_thinking { 1int } else { 0int }] matches ContentBlock::Text { text }
                && text@ == acc.text@),
            forall|j: int|
                x <= j < r@.len() ==> (#[trigger] r@[j] matches ContentBlock::ToolCall {
                    id,
                    name,
                    args,
                    status,
                    result,
                    warnings,
                } && id@ == o.calls@[j - x].0@ && name@ == o.calls@[j - x].1@ && args == tool_args_value(
                    o.calls@[j - x].2@,
                ) && status == ToolCallStatus::Streaming && result is None && warnings is None),
        decreases o.calls@.len() - i,
    {
        let c = &o.calls[i];
        let args = parse_tool_args(c.2.as_str());
        r.push(
            ContentBlock::ToolCall {
                id: String::from_str(c.0.as_str()),
                name: String::from_str(c.1.as_str()),
                args,
                status: ToolCallStatus::Streaming,
                result: None,
                warnings: None,
            },
        );
        i = i + 1;
    }
    r
}

/// What a finished round leads to.
#[derive(PartialEq, Eq, Structural)]
pub enum RoundNext {
    /// Nothing came back: store nothing; end the run unless a message is
    /// queued.
    Empty,
    /// Store the message; no tools to run, so end the run unless a message
    /// is queued.
    Answered,
    /// Store the message and run its tool calls, then go on.
    RunTools,
}

/// The round's continuation.
pub fn round_next(o: &RoundOutcome) -> (n: RoundNext)
    ensures
        n == (if !o.has_thinking && !o.has_text && o.calls@.len() == 0 {
            RoundNext::Empty
        } else if o.calls@.len() == 0 {
            RoundNext::Answered
        } else {
            RoundNext::RunTools
        }),
{
    if !o.has_thinking && !o.has_text && o.calls.len() == 0 {
        RoundNext::Empty
    } else if o.calls.len() == 0 {
        RoundNext::Answered
    } else {
        RoundNext::RunTools
    }
}

// ---------------------------------------------------------------------------
// The conversation sent to the model
// ---------------------------------------------------------------------------

/// What a message of the conversation holds, taken by its texts.
pub enum ApiShape {
    System(Seq<char>),
    User(Seq<char>),
    Assistant {
        content: Seq<char>,
        reasoning: Option<Seq<char>>,
        details: Option<serde_json::Value>,
        calls: Seq<(Seq<char>, Seq<char>)>,
        /// The arguments' JSON text of each call, in order.
        arguments: Seq<Seq<char>>,
    },
    ToolResult { id: Seq<char>, content: Seq<char>, is_error: bool },
}

pub open spec fn call_view(c: AssistantToolCall) -> (Seq<char>, Seq<char>) {
    (c.id@, c.name@)
}

pub open spec fn api_shape(m: ChatMessage) -> ApiShape {
    match m {
        ChatMessage::System(t) => ApiShape::System(t@),
        ChatMessage::User(t) => ApiShape::User(t@),
        ChatMessage::Assistant(a) => ApiShape::Assistant {
            content: a.content@,
            reasoning: opt_seq(a.reasoning_content),
            details: a.reasoning_details,
            calls: a.tool_calls@.map_values(|c: AssistantToolCall| call_view(c)),
            arguments: a.tool_calls@.map_values(|c: AssistantToolCall| c.arguments_json@),
        },
        ChatMessage::ToolResult(r) => ApiShape::ToolResult {
            id: r.tool_call_id@,
            content: r.content@,
            is_error: r.is_error,
        },
    }
}

/// The texts of the text blocks, in order.
pub open spec fn text_parts(bs: Seq<ContentBlock>) -> Seq<Seq<char>>
    decreases bs.len(),
{
    if bs.len() == 0 {
        Seq::<Seq<char>>::empty()
    } else {
        let p = text_parts(bs.drop_last());
        match bs.last() {
            ContentBlock::Text { text } => p.push(text@),
            _ => p,
        }
    }
}

/// The texts of the thinking blocks, in order.
pub open spec fn thinking_parts(bs: Seq<ContentBlock>) -> Seq<Seq<char>>
    decreases bs.len(),
{
    if bs.len() == 0 {
        Seq::<Seq<char>>::empty()
    } else {
        let p = thinking_parts(bs.drop_last());
        match bs.last() {
            ContentBlock::Thinking { text, .. } => p.push(text@),
            _ => p,
        }
    }
}

/// The first provider payload carried by a thinking block.
pub open spec fn first_payload(bs: Seq<ContentBlock>) -> Option<serde_json::Value>
    decreases bs.len(),
{
    if bs.len() == 0 {
        None
    } else {
        match first_payload(bs.drop_last()) {
            Some(v) => Some(v),
            None => match bs.last() {
                ContentBlock::Thinking { provider_payload, .. } => provider_payload,
                _ => None,
            },
        }
    }
}

/// Id and name of each tool call block, in order.
pub open spec fn call_parts(bs: Seq<ContentBlock>) -> Seq<(Seq<char>, Seq<char>)>
    decreases bs.len(),
{
    if bs.len() == 0 {
        Seq::<(Seq<char>, Seq<char>)>::empty()
    } else {
        let p = call_parts(bs.drop_last());
        match bs.last() {
            ContentBlock::ToolCall { id, name, .. } => p.push((id@, name@)),
            _ => p,
        }
    }
}

/// The JSON text of each tool call block's arguments, in order.
pub open spec fn call_args(bs: Seq<ContentBlock>) -> Seq<Seq<char>>
    decreases bs.len(),
{
    if bs.len() == 0 {
        Seq::<Seq<char>>::empty()
    } else {
        let p = call_args(bs.drop_last());
        match bs.last() {
            ContentBlock::ToolCall { args, .. } => p.push(json_text_of(args)),
            _ => p,
        }
    }
}

/// The tool result sent back for each tool call block: its result, or an
/// error saying the call was interrupted when it has none.
pub open spec fn result_parts(bs: Seq<ContentBlock>) -> Seq<ApiShape>
    decreases bs.len(),
{
    if bs.len() == 0 {
        Seq::<ApiShape>::empty()
    } else {
        let p = result_parts(bs.drop_last());
        match bs.last() {
            ContentBlock::ToolCall { id, result, .. } => p.push(
                ApiShape::ToolResult {
                    id: id@,
                    content: match result {
                        Some(r) => r.llm_text@,
                        None => "Tool call was interrupted."@,
                    },
                    is_error: match result {
                        Some(r) => r.is_error,
                        None => true,
                    },
                },
            ),
            _ => p,
        }
    }
}

/// The pieces one after another.
pub open spec fn concat(ps: Seq<Seq<char>>) -> Seq<char>
    decreases ps.len(),
{
    if ps.len() == 0 {
        Seq::<char>::empty()
    } else {
        concat(ps.drop_last()) + ps.last()
    }
}

/// The messages one stored message becomes: a user message joins its
/// texts with line breaks; an assistant message carries its texts, its
/// reasoning (when it has thinking blocks), the first reasoning payload
/// and its tool calls, followed by one tool result per call; other roles
/// are left out.
pub open spec fn message_shapes(m: StoredMessage) -> Seq<ApiShape> {
    let bs = m.content@;
    if m.role@ == "user"@ {
        seq![ApiShape::User(join_seq(text_parts(bs), "\n"@))]
    } else if m.role@ == "assistant"@ {
        seq![
            ApiShape::Assistant {
                content: concat(text_parts(bs)),
                reasoning: if thinking_parts(bs).len() == 0 {
                    None
                } else {
                    Some(concat(thinking_parts(bs)))
                },
                details: first_payload(bs),
                calls: call_parts(bs),
                arguments: call_args(bs),
            },
        ] + result_parts(bs)
    } else {
        Seq::<ApiShape>::empty()
    }
}

/// The conversation for a path of stored messages.
pub open spec fn api_shapes(path: Seq<StoredMessage>) -> Seq<ApiShape>
    decreases path.len(),
{
    if path.len() == 0 {
        Seq::<ApiShape>::empty()
    } else {
        api_shapes(path.drop_last()) + message_shapes(path.last())
    }
}

proof fn lemma_join_push(p: Seq<Seq<char>>, t: Seq<char>, sep: Seq<char>)
    ensures
        join_seq(p.push(t), sep) == if p.len() == 0 {
            t
        } else {
            join_seq(p, sep) + sep + t
        },
{
    assert(p.push(t).drop_last() =~= p);
}

fn user_text(blocks: &Vec<ContentBlock>) -> (s: String)
    ensures
        s@ == join_seq(text_parts(blocks@), "\n"@),
{
    let mut s = String::new();
    let mut any = false;
    let mut i: usize = 0;
    while i < blocks.len()
        invariant
            i <= blocks@.len(),
            s@ == join_seq(text_parts(blocks@.take(i as int)), "\n"@),
            any == (text_parts(blocks@.take(i as int)).len() > 0),
        decreases blocks@.len() - i,
    {
        proof {
            assert(blocks@.take(i + 1).drop_last() =~= blocks@.take(i as int));
        }
        match &blocks[i] {
            ContentBlock::Text { text } => {
                proof {
                    lemma_join_push(text_parts(blocks@.take(i as int)), text@, "\n"@);
                    reveal_strlit("\n");
                }
                if any {
                    s.push('\n');
                }
                push_str(&mut s, text.as_str());
                any = true;
                proof {
                    assert(s@ =~= join_seq(text_parts(blocks@.take(i + 1)), "\n"@));
                }
            },
            _ => {},
        }
        i = i + 1;
    }
    assert(blocks@.take(blocks@.len() as int) =~= blocks@);
    s
}

fn assistant_parts(blocks: &Vec<ContentBlock>) -> (r: (AssistantMessage, Vec<ChatMessage>))
    ensures
        api_shape(ChatMessage::Assistant(r.0)) == (ApiShape::Assistant {
            content: concat(text_parts(blocks@)),
            reasoning: if thinking_parts(blocks@).len() == 0 {
                None
            } else {
                Some(concat(thinking_parts(blocks@)))
            },
            details: first_payload(blocks@),
            calls: call_parts(blocks@),
            arguments: call_args(blocks@),
        }),
        r.1@.map_values(|m: ChatMessage| api_shape(m)) == result_parts(blocks@),
{
    let mut content = String::new();
    let mut thinking: Option<String> = None;
    let mut details: Option<serde_json::Value> = None;
    let mut calls: Vec<AssistantToolCall> = Vec::new();
    let mut results: Vec<ChatMessage> = Vec::new();
    let mut i: usize = 0;
    while i < blocks.len()
        invariant
            i <= blocks@.len(),
            content@ == concat(text_parts(blocks@.take(i as int))),
            opt_seq(thinking) == if thinking_parts(blocks@.take(i as int)).len() == 0 {
                None
            } else {
                Some(concat(thinking_parts(blocks@.take(i as int))))
            },
            details == first_payload(blocks@.take(i as int)),
            calls@.map_values(|c: AssistantToolCall| call_view(c)) == call_parts(blocks@.take(i as int)),
            calls@.map_values(|c: AssistantToolCall| c.arguments_json@) == call_args(blocks@.take(i as int)),
            results@.map_values(|m: ChatMessage| api_shape(m)) == result_parts(blocks@.take(i as int)),
        decreases blocks@.len() - i,
    {
        let ghost prev = blocks@.take(i as int);
        proof {
            assert(blocks@.take(i + 1).drop_last() =~= prev);
            assert(blocks@.take(i + 1).last() == blocks@[i as int]);
        }
        match &blocks[i] {
            ContentBlock::Text { text } => {
                push_str(&mut content, text.as_str());
                proof {
                    let tp = text_parts(prev);
                    assert(tp.push(text@).drop_last() =~= tp);
                }
            },
            ContentBlock::Thinking { text, provider_payload } => {
                proof {
                    let tp = thinking_parts(prev);
                    assert(tp.push(text@).drop_last() =~= tp);
                    if tp.len() == 0 {
                        assert(tp.push(text@).drop_last() =~= Seq::<Seq<char>>::empty());
                        assert(Seq::<char>::empty() + text@ =~= text@);
                    }
                }
                let t = match thinking {
                    Some(mut t) => {
                        push_str(&mut t, text.as_str());
                        t
                    },
                    None => String::from_str(text.as_str()),
                };
                thinking = Some(t);
                proof {
                    let tp = thinking_parts(prev);
                    assert(thinking_parts(blocks@.take(i + 1)) == tp.push(text@));
                    assert(concat(tp.push(text@)) == concat(tp) + text@);
                    assert(opt_seq(thinking) == Some(concat(thinking_parts(blocks@.take(i + 1)))));
                }
                if details.is_none() {
                    details = match provider_payload {
                        Some(v) => Some(v.clone()),
                        None => None,
                    };
                }
            },
            ContentBlock::ToolCall { id, name, args, result, .. } => {
                let arguments_json = match json_text(args) {
                    Some(j) => j,
                    None => String::new(),
                };
                assert(arguments_json@ == json_text_of(*args));
                calls.push(
                    AssistantToolCall {
                        id: String::from_str(id.as_str()),
                        name: String::from_str(name.as_str()),
                        arguments_json,
                    },
                );
                let (text, is_error) = match result {
                    Some(r) => (String::from_str(r.llm_text.as_str()), r.is_error),
                    None => (String::from_str("Tool call was interrupted."), true),
                };
                results.push(
                    ChatMessage::ToolResult(
                        ToolResultMessage {
                            tool_call_id: String::from_str(id.as_str()),
                            content: text,
                            is_error,
                        },
                    ),
                );
            },
        }
        i = i + 1;
        proof {
            let cur = blocks@.take(i as int);
            assert(calls@.map_values(|c: AssistantToolCall| call_view(c)) =~= call_parts(cur));
            assert(calls@.map_values(|c: AssistantToolCall| c.arguments_json@) =~= call_args(cur));
            assert(results@.map_values(|m: ChatMessage| api_shape(m)) =~= result_parts(cur));
        }
    }
    assert(blocks@.take(blocks@.len() as int) =~= blocks@);
    (AssistantMessage { content, reasoning_content: thinking, reasoning_details: details, tool_calls: calls }, results)
}

/// Converts the active path into the provider-neutral conversation; each
/// tool call's arguments go as their `serde_json::to_string` text.
pub fn to_api_messages(path: &Vec<StoredMessage>) -> (out: Vec<ChatMessage>)
    ensures
        out@.map_values(|m: ChatMessage| api_shape(m)) == api_shapes(path@),
{
    let mut out: Vec<ChatMessage> = Vec::new();
    let mut i: usize = 0;
    while i < path.len()
        invariant
            i <= path@.len(),
            out@.map_values(|m: ChatMessage| api_shape(m)) == api_shapes(path@.take(i as int)),
        decreases path@.len() - i,
    {
        let ghost before = out@;
        proof {
            assert(path@.take(i + 1).drop_last() =~= path@.take(i as int));
            assert(path@.take(i + 1).last() == path@[i as int]);
        }
        let msg = &path[i];
        if str_eq(msg.role.as_str(), "user") {
            let text = user_text(&msg.content);
            out.push(ChatMessage::User(text));
            proof {
                reveal_strlit("user");
                assert(out@.map_values(|m: ChatMessage| api_shape(m)) =~= api_shapes(path@.take(i + 1)));
            }
        } else if str_eq(msg.role.as_str(), "assistant") {
            let (a, mut results) = assistant_parts(&msg.content);
            out.push(ChatMessage::Assistant(a));
            out.append(&mut results);
            proof {
                reveal_strlit("user");
                reveal_strlit("assistant");
                assert(out@.map_values(|m: ChatMessage| api_shape(m)) =~= api_shapes(path@.take(i + 1)));
            }
        } else {
            proof {
                reveal_strlit("user");
                reveal_strlit("assistant");
                assert(out@.map_values(|m: ChatMessage| api_shape(m)) =~= api_shapes(path@.take(i + 1)));
            }
        }
        i = i + 1;
    }
    assert(path@.take(path@.len() as int) =~= path@);
    out
}

// ---------------------------------------------------------------------------
// Resolving the selected model
// ---------------------------------------------------------------------------

/// The options of a send request.
pub struct SendOpts {
    /// `{instanceId}/{modelId}`
    pub model: String,
    pub thinking: bool,
    pub effort: Option<String>,
    /// Prefer this connection when resolving the identity (active tab).
    pub connection_hint: Option<String>,
}

/// Splits a model selection `{instanceId}/{modelId}` at its first `/`.
pub fn split_model_selection(model: &str) -> (r: Result<(String, String), String>)
    ensures
        match split_once(model@, '/') {
            Some((a, b)) => r matches Ok(p) && p.0@ == a && p.1@ == b,
            None => r matches Err(e) && e@ == "Invalid model selection: "@ + model@,
        },
{
    let v = chars_of(model);
    match split_once_exec(&v, '/') {
        Some((a, b)) => Ok((string_of(a.as_slice()), string_of(b.as_slice()))),
        None => {
            let mut e = String::from_str("Invalid model selection: ");
            push_str(&mut e, model);
            Err(e)
        },
    }
}

/// Index of the first instance with this id.
pub open spec fn first_instance(instances: Seq<ProviderInstance>, id: Seq<char>) -> Option<int> {
    if exists|i: int| 0 <= i < instances.len() && instances[i].id@ == id {
        Some(choose|i: int|
            0 <= i < instances.len() && instances[i].id@ == id && forall|j: int|
                0 <= j < i ==> instances[j].id@ != id)
    } else {
        None
    }
}

/// What resolving the provider instance of a selection decides: the
/// instance (its index), or why the run cannot start.
pub open spec fn instance_outcome(
    instances: Seq<ProviderInstance>,
    instance_id: Seq<char>,
    api_key: Option<Seq<char>>,
) -> Result<int, Seq<char>> {
    match first_instance(instances, instance_id) {
        None => Err("The selected provider instance was deleted. Pick another model."@),
        Some(i) => if !(api_key matches Some(k) && trim(k).len() > 0) {
            Err("No API key configured for \""@ + instances[i].name@
                + "\". Add one in Settings -> AI."@)
        } else if preset_index(instances[i].preset@) is None {
            Err("Unknown provider preset: "@ + instances[i].preset@)
        } else {
            Ok(i)
        },
    }
}

/// Picks the configured instance a selection names and checks that it
/// can run: it still exists, has a non-blank API key, and uses a known
/// preset.
pub fn resolve_instance(instances: &Vec<ProviderInstance>, instance_id: &str, api_key: Option<&str>) -> (r:
    Result<usize, String>)
    ensures
        match r {
            Ok(i) => instance_outcome(instances@, instance_id@, opt_str(api_key)) == Ok::<
                int,
                Seq<char>,
            >(i as int),
            Err(e) => instance_outcome(instances@, instance_id@, opt_str(api_key)) == Err::<
                int,
                Seq<char>,
            >(e@),
        },
{
    let mut i: usize = 0;
    while i < instances.len()
        invariant
            i <= instances@.len(),
            forall|j: int| 0 <= j < i ==> instances@[j].id@ != instance_id@,
        ensures
            i == instances@.len() || instances@[i as int].id@ == instance_id@,
            i <= instances@.len(),
            forall|j: int| 0 <= j < i ==> instances@[j].id@ != instance_id@,
        decreases instances@.len() - i,
    {
        if str_eq(instances[i].id.as_str(), instance_id) {
            break;
        }
        i = i + 1;
    }
    if i == instances.len() {
        return Err(String::from_str("The selected provider instance was deleted. Pick another model."));
    }
    proof {
        assert(0 <= i < instances@.len() && instances@[i as int].id@ == instance_id@);
        let c = choose|j: int|
            0 <= j < instances@.len() && instances@[j].id@ == instance_id@ && forall|k: int|
                0 <= k < j ==> instances@[k].id@ != instance_id@;
        if c < i {
        } else if c > i {
            assert(instances@[i as int].id@ != instance_id@);
        }
        assert(first_instance(instances@, instance_id@) == Some(i as int));
    }
    let inst = &instances[i];
    let key_ok = match api_key {
        Some(k) => {
            let t = trim_chars(&chars_of(k));
            t.len() > 0
        },
        None => false,
    };
    if !key_ok {
        let mut e = String::from_str("No API key configured for \"");
        push_str(&mut e, inst.name.as_str());
        push_str(&mut e, "\". Add one in Settings -> AI.");
        return Err(e);
    }
    if preset_default_base_url(inst.preset.as_str()).is_none() {
        let mut e = String::from_str("Unknown provider preset: ");
        push_str(&mut e, inst.preset.as_str());
        return Err(e);
    }
    Ok(i)
}

pub open spec fn opt_str(s: Option<&str>) -> Option<Seq<char>> {
    match s {
        Some(v) => Some(v@),
        None => None,
    }
}

// ---------------------------------------------------------------------------
// Thread titles
// ---------------------------------------------------------------------------

/// The instruction appended to the conversation when asking a model for a
/// thread title.
pub const TITLE_PROMPT: &'static str = "Generate a concise 3-7 word title for this conversation, omitting punctuation.\nGo straight to the title, without any preamble and prefix like `Here's a concise suggestion:...` or `Title:`.\nIf the conversation is about a specific subject, include it in the title.\nGenerate the title in the same language as the conversation content.\nBe descriptive. DO NOT speak in the first person.";

/// The conversation sent to the title model: the path, then the title
/// instruction as a user message.
pub fn title_request(path: &Vec<StoredMessage>) -> (out: Vec<ChatMessage>)
    ensures
        out@.map_values(|m: ChatMessage| api_shape(m)) == api_shapes(path@).push(
            ApiShape::User(TITLE_PROMPT@),
        ),
{
    let mut out = to_api_messages(path);
    out.push(ChatMessage::User(String::from_str(TITLE_PROMPT)));
    proof {
        assert(out@.map_values(|m: ChatMessage| api_shape(m)) =~= api_shapes(path@).push(
            ApiShape::User(TITLE_PROMPT@),
        ));
    }
    out
}

/// The title stream has produced a whole first line.
pub fn title_line_complete(text: &str) -> (b: bool)
    ensures
        b == text@.contains('\n'),
{
    let v = chars_of(text);
    let mut i: usize = 0;
    while i < v.len()
        invariant
            i <= v@.len(),
            v@ == text@,
            forall|j: int| 0 <= j < i ==> v@[j] != '\n',
        decreases v@.len() - i,
    {
        if v[i] == '\n' {
            return true;
        }
        i = i + 1;
    }
    false
}

/// A title from the model's answer: its first line, trimmed, when that is
/// not empty.
pub open spec fn streamed_title(text: Seq<char>) -> Option<Seq<char>> {
    let t = trim(split_on(text, '\n')[0]);
    if t.len() > 0 {
        Some(t)
    } else {
        None
    }
}

/// Takes the title out of the model's streamed answer.
pub fn title_from_stream(text: &str) -> (r: Option<String>)
    ensures
        match r {
            Some(t) => streamed_title(text@) == Some(t@),
            None => streamed_title(text@) is None,
        },
{
    let v = chars_of(text);
    let pieces = crate::text::split_chars(&v, '\n');
    proof {
        crate::text::lemma_split_on_nonempty(text@, '\n');
    }
    let first = trim_chars(&pieces[0]);
    if first.len() > 0 {
        Some(string_of(first.as_slice()))
    } else {
        None
    }
}

/// Index of the first user message.
pub open spec fn first_user(path: Seq<StoredMessage>) -> Option<int>
    decreases path.len(),
{
    if path.len() == 0 {
        None
    } else {
        match first_user(path.drop_last()) {
            Some(i) => Some(i),
            None => if path.last().role@ == "user"@ {
                Some(path.len() - 1)
            } else {
                None
            },
        }
    }
}

/// The text of the first text block.
pub open spec fn first_text(bs: Seq<ContentBlock>) -> Option<Seq<char>>
    decreases bs.len(),
{
    if bs.len() == 0 {
        None
    } else {
        match first_text(bs.drop_last()) {
            Some(t) => Some(t),
            None => match bs.last() {
                ContentBlock::Text { text } => Some(text@),
                _ => None,
            },
        }
    }
}

/// The fallback title: the first text of the first user message, trimmed
/// and cut to 30 characters, when that is not empty.
pub open spec fn fallback_title_of(path: Seq<StoredMessage>) -> Option<Seq<char>> {
    match first_user(path) {
        None => None,
        Some(i) => match first_text(path[i].content@) {
            None => None,
            Some(t) => {
                let c = trim(t);
                let c30 = if c.len() <= 30 {
                    c
                } else {
                    c.take(30)
                };
                if c30.len() > 0 {
                    Some(c30)
                } else {
                    None
                }
            },
        },
    }
}

pub(crate) fn first_text_exec(blocks: &Vec<ContentBlock>) -> (r: Option<&String>)
    ensures
        match first_text(blocks@) {
            Some(t) => r matches Some(x) && x@ == t,
            None => r is None,
        },
{
    let mut i: usize = 0;
    while i < blocks.len()
        invariant
            i <= blocks@.len(),
            first_text(blocks@.take(i as int)) is None,
        decreases blocks@.len() - i,
    {
        proof {
            assert(blocks@.take(i + 1).drop_last() =~= blocks@.take(i as int));
        }
        match &blocks[i] {
            ContentBlock::Text { text } => {
                proof {
                    lemma_first_text_prefix(blocks@, i + 1);
                }
                return Some(text);
            },
            _ => {},
        }
        i = i + 1;
    }
    assert(blocks@.take(blocks@.len() as int) =~= blocks@);
    None
}

proof fn lemma_first_text_prefix(bs: Seq<ContentBlock>, k: int)
    requires
        0 <= k <= bs.len(),
        first_text(bs.take(k)) is Some,
    ensures
        first_text(bs) == first_text(bs.take(k)),
    decreases bs.len() - k,
{
    if k < bs.len() {
        assert(bs.take(k + 1).drop_last() =~= bs.take(k));
        lemma_first_text_prefix(bs, k + 1);
    } else {
        assert(bs.take(k) =~= bs);
    }
}

proof fn lemma_first_user_prefix(path: Seq<StoredMessage>, k: int)
    requires
        0 <= k <= path.len(),
        first_user(path.take(k)) is Some,
    ensures
        first_user(path) == first_user(path.take(k)),
    decreases path.len() - k,
{
    if k < path.len() {
        assert(path.take(k + 1).drop_last() =~= path.take(k));
        lemma_first_user_prefix(path, k + 1);
    } else {
        assert(path.take(k) =~= path);
    }
}

/// The title used when no title model answered.
pub fn fallback_title(path: &Vec<StoredMessage>) -> (r: Option<String>)
    ensures
        match r {
            Some(t) => fallback_title_of(path@) == Some(t@),
            None => fallback_title_of(path@) is None,
        },
{
    let mut i: usize = 0;
    while i < path.len()
        invariant
            i <= path@.len(),
            first_user(path@.take(i as int)) is None,
        decreases path@.len() - i,
    {
        proof {
            assert(path@.take(i + 1).drop_last() =~= path@.take(i as int));
            reveal_strlit("user");
        }
        if str_eq(path[i].role.as_str(), "user") {
            proof {
                lemma_first_user_prefix(path@, i + 1);
            }
            let t = match first_text_exec(&path[i].content) {
                Some(t) => t,
                None => return None,
            };
            let c = trim_chars(&chars_of(t.as_str()));
            let c30 = if c.len() <= 30 {
                c
            } else {
                slice_chars(&c, 0, 30)
            };
            proof {
                if c@.len() > 30 {
                    assert(c@.subrange(0, 30) =~= c@.take(30));
                }
            }
            if c30.len() > 0 {
                return Some(string_of(c30.as_slice()));
            } else {
                return None;
            }
        }
        i = i + 1;
    }
    assert(path@.take(path@.len() as int) =~= path@);
    None
}

// ---------------------------------------------------------------------------
// Putting a round's tool results back in call order
// ---------------------------------------------------------------------------

/// The blocks that are not tool calls, in order.
pub open spec fn non_tool_blocks(bs: Seq<ContentBlock>) -> Seq<ContentBlock>
    decreases bs.len(),
{
    if bs.len() == 0 {
        Seq::<ContentBlock>::empty()
    } else {
        let p = non_tool_blocks(bs.drop_last());
        if bs.last() is ToolCall {
            p
        } else {
            p.push(bs.last())
        }
    }
}

/// The ids of the tool calls, in the order the model made them.
pub open spec fn call_order(bs: Seq<ContentBlock>) -> Seq<Seq<char>> {
    call_parts(bs).map_values(|p: (Seq<char>, Seq<char>)| p.0)
}

/// The result block reported last for a call id.
pub open spec fn last_result(rs: Seq<(String, ContentBlock)>, id: Seq<char>) -> Option<ContentBlock>
    decreases rs.len(),
{
    if rs.len() == 0 {
        None
    } else if rs.last().0@ == id {
        Some(rs.last().1)
    } else {
        last_result(rs.drop_last(), id)
    }
}

/// One result per call id, in call order: the result reported last for
/// the id, placed at the id's first occurrence.
pub open spec fn ordered_results(order: Seq<Seq<char>>, rs: Seq<(String, ContentBlock)>) -> Seq<ContentBlock>
    decreases order.len(),
{
    if order.len() == 0 {
        Seq::<ContentBlock>::empty()
    } else {
        let p = ordered_results(order.drop_last(), rs);
        let id = order.last();
        if !order.drop_last().contains(id) && last_result(rs, id) is Some {
            p.push(last_result(rs, id).unwrap())
        } else {
            p
        }
    }
}

/// Result `j` is the last one reported for its id.
pub open spec fn is_last_for_id(rs: Seq<(String, ContentBlock)>, j: int) -> bool {
    forall|k: int| j < k < rs.len() ==> rs[k].0@ != rs[j].0@
}

/// Results for ids the message does not hold: the last one of each id, in
/// the order they were reported.
pub open spec fn leftover_results(order: Seq<Seq<char>>, rs: Seq<(String, ContentBlock)>, n: int) -> Seq<
    ContentBlock,
>
    decreases n,
{
    if n <= 0 {
        Seq::<ContentBlock>::empty()
    } else {
        let p = leftover_results(order, rs, n - 1);
        if !order.contains(rs[n - 1].0@) && is_last_for_id(rs, n - 1) {
            p.push(rs[n - 1].1)
        } else {
            p
        }
    }
}

/// The final content of an assistant message after its tool calls ran:
/// the blocks that are not tool calls, then the results in the model's
/// call order, then results for ids the message does not hold.
pub open spec fn merged_content(content: Seq<ContentBlock>, rs: Seq<(String, ContentBlock)>) -> Seq<ContentBlock> {
    non_tool_blocks(content) + ordered_results(call_order(content), rs) + leftover_results(
        call_order(content),
        rs,
        rs.len() as int,
    )
}

fn take_at(v: &mut Vec<Option<ContentBlock>>, j: usize) -> (r: Option<ContentBlock>)
    requires
        j < old(v)@.len(),
    ensures
        r == old(v)@[j as int],
        final(v)@ == old(v)@.update(j as int, None),
{
    let r = v.remove(j);
    v.insert(j, None);
    proof {
        assert(v@ =~= old(v)@.update(j as int, None));
    }
    r
}

fn last_index_of(ids: &Vec<String>, id: &str) -> (r: Option<usize>)
    ensures
        match r {
            Some(j) => j < ids@.len() && ids@[j as int]@ == id@ && forall|k: int|
                j < k < ids@.len() ==> ids@[k]@ != id@,
            None => forall|k: int| 0 <= k < ids@.len() ==> ids@[k]@ != id@,
        },
{
    let mut i: usize = ids.len();
    while i > 0
        invariant
            i <= ids@.len(),
            forall|k: int| i <= k < ids@.len() ==> ids@[k]@ != id@,
        decreases i,
    {
        if str_eq(ids[i - 1].as_str(), id) {
            return Some(i - 1);
        }
        i = i - 1;
    }
    None
}

fn contains_str(ids: &Vec<String>, upto: usize, id: &str) -> (b: bool)
    requires
        upto <= ids@.len(),
    ensures
        b == exists|k: int| 0 <= k < upto && ids@[k]@ == id@,
{
    let mut i: usize = 0;
    while i < upto
        invariant
            i <= upto <= ids@.len(),
            forall|k: int| 0 <= k < i ==> ids@[k]@ != id@,
        decreases upto - i,
    {
        if str_eq(ids[i].as_str(), id) {
            return true;
        }
        i = i + 1;
    }
    false
}

proof fn lemma_last_result(rs: Seq<(String, ContentBlock)>, id: Seq<char>, j: int)
    requires
        0 <= j < rs.len(),
        rs[j].0@ == id,
        forall|k: int| j < k < rs.len() ==> rs[k].0@ != id,
    ensures
        last_result(rs, id) == Some(rs[j].1),
    decreases rs.len(),
{
    if j < rs.len() - 1 {
        lemma_last_result(rs.drop_last(), id, j);
    }
}

proof fn lemma_last_result_none(rs: Seq<(String, ContentBlock)>, id: Seq<char>)
    requires
        forall|k: int| 0 <= k < rs.len() ==> rs[k].0@ != id,
    ensures
        last_result(rs, id) is None,
    decreases rs.len(),
{
    if rs.len() > 0 {
        lemma_last_result_none(rs.drop_last(), id);
    }
}

/// Puts a round's tool results back into the assistant message: the
/// blocks that are not tool calls keep their order, then come the results
/// in the model's call order (for an id reported twice, the later result),
/// then any result for an id the message does not hold.
pub fn merge_tool_results(content: Vec<ContentBlock>, results: Vec<(String, ContentBlock)>) -> (r: Vec<
    ContentBlock,
>)
    ensures
        r@ == merged_content(content@, results@),
{
    let ghost cs = content@;
    let ghost rs = results@;
    // The call ids, in order.
    let mut order: Vec<String> = Vec::new();
    let mut i: usize = 0;
    while i < content.len()
        invariant
            i <= content@.len(),
            content@ == cs,
            order@.map_values(|s: String| s@) == call_order(cs.take(i as int)),
        decreases content@.len() - i,
    {
        proof {
            assert(cs.take(i + 1).drop_last() =~= cs.take(i as int));
        }
        let ghost before = order@;
        match &content[i] {
            ContentBlock::ToolCall { id, name, .. } => {
                order.push(String::from_str(id.as_str()));
                proof {
                    let cp = call_parts(cs.take(i as int));
                    assert(call_parts(cs.take(i + 1)) == cp.push((id@, name@)));
                    assert(cp.push((id@, name@)).map_values(|p: (Seq<char>, Seq<char>)| p.0)
                        =~= cp.map_values(|p: (Seq<char>, Seq<char>)| p.0).push(id@));
                    assert(order@ =~= before.push(order@.last()));
                    assert(order@.map_values(|s: String| s@) =~= before.map_values(|s: String| s@).push(id@));
                }
            },
            _ => {
                proof {
                    assert(call_parts(cs.take(i + 1)) == call_parts(cs.take(i as int)));
                }
            },
        }
        i = i + 1;
        proof {
            assert(order@.map_values(|s: String| s@) =~= call_order(cs.take(i as int)));
        }
    }
    proof {
        assert(cs.take(cs.len() as int) =~= cs);
    }
    let ghost ov = order@.map_values(|s: String| s@);
    // The blocks that are not tool calls, moved out in order.
    let mut rest = content;
    let mut out: Vec<ContentBlock> = Vec::new();
    let mut k: usize = 0;
    let n = rest.len();
    while rest.len() > 0
        invariant
            k + rest@.len() == cs.len(),
            cs.len() == n,
            rest@ == cs.subrange(k as int, cs.len() as int),
            out@ == non_tool_blocks(cs.take(k as int)),
        decreases rest@.len(),
    {
        let b = rest.remove(0);
        proof {
            assert(b == cs[k as int]);
            assert(cs.take(k + 1).drop_last() =~= cs.take(k as int));
            assert(rest@ =~= cs.subrange(k + 1, cs.len() as int));
        }
        match b {
            ContentBlock::ToolCall { .. } => {},
            other => {
                out.push(other);
            },
        }
        k = k + 1;
    }
    proof {
        assert(cs.take(cs.len() as int) =~= cs);
    }
    // The results, with ids and blocks apart.
    let mut ids: Vec<String> = Vec::new();
    let mut blocks: Vec<Option<ContentBlock>> = Vec::new();
    let mut res = results;
    let m = res.len();
    let mut j: usize = 0;
    while res.len() > 0
        invariant
            j + res@.len() == rs.len(),
            rs.len() == m,
            res@ == rs.subrange(j as int, rs.len() as int),
            ids@.len() == j,
            blocks@.len() == j,
            forall|x: int| 0 <= x < j ==> ids@[x]@ == rs[x].0@,
            forall|x: int| 0 <= x < j ==> blocks@[x] == Some(rs[x].1),
        decreases res@.len(),
    {
        let (id, b) = res.remove(0);
        proof {
            assert(rs[j as int] == (id, b));
            assert(res@ =~= rs.subrange(j + 1, rs.len() as int));
        }
        ids.push(id);
        blocks.push(Some(b));
        j = j + 1;
    }
    // Results in call order.
    let ghost before_ordered = out@;
    let mut q: usize = 0;
    while q < order.len()
        invariant
            q <= order@.len(),
            ov == order@.map_values(|s: String| s@),
            ov == call_order(cs),
            ids@.len() == rs.len(),
            blocks@.len() == rs.len(),
            forall|x: int| 0 <= x < rs.len() ==> ids@[x]@ == rs[x].0@,
            forall|x: int|
                0 <= x < rs.len() ==> #[trigger] blocks@[x] == if is_last_for_id(rs, x) && ov.take(
                    q as int,
                ).contains(rs[x].0@) {
                    None
                } else {
                    Some(rs[x].1)
                },
            before_ordered == non_tool_blocks(cs),
            out@ == before_ordered + ordered_results(ov.take(q as int), rs),
        decreases order@.len() - q,
    {
        let ghost oq = ov.take(q as int);
        proof {
            assert(ov.take(q + 1).drop_last() =~= oq);
            assert(ov.take(q + 1).last() == ov[q as int]);
            assert(ov[q as int] == order@[q as int]@);
        }
        let seen = contains_str(&order, q, order[q].as_str());
        proof {
            if seen {
                let w = choose|w: int| 0 <= w < q && order@[w]@ == order@[q as int]@;
                assert(oq[w] == ov[q as int]);
                assert(oq.contains(ov[q as int]));
            }
            if oq.contains(ov[q as int]) {
                let w = choose|w: int| 0 <= w < oq.len() && oq[w] == ov[q as int];
                assert(order@[w]@ == order@[q as int]@);
            }
        }
        if !seen {
            match last_index_of(&ids, order[q].as_str()) {
                Some(x) => {
                    proof {
                        assert forall|k: int| x < k < rs.len() implies rs[k].0@ != ov[q as int] by {
                            assert(ids@[k]@ == rs[k].0@);
                        }
                        assert(ids@[x as int]@ == rs[x as int].0@);
                        lemma_last_result(rs, ov[q as int], x as int);
                        assert(is_last_for_id(rs, x as int));
                        assert(!oq.contains(rs[x as int].0@));
                        assert(blocks@[x as int] == Some(rs[x as int].1));
                    }
                    let taken = take_at(&mut blocks, x);
                    match taken {
                        Some(b) => {
                            out.push(b);
                        },
                        None => {},
                    }
                    proof {
                        assert forall|y: int| 0 <= y < rs.len() implies #[trigger] blocks@[y] == if is_last_for_id(rs, y) && ov.take(q + 1).contains(rs[y].0@) {
                            None
                        } else {
                            Some(rs[y].1)
                        } by {
                            if y != x as int {
                                if is_last_for_id(rs, y) && rs[y].0@ == ov[q as int] {
                                    assert(rs[x as int].0@ == rs[y].0@);
                                    if y < x {
                                        assert(!is_last_for_id(rs, y));
                                    } else {
                                        assert(rs[y].0@ != ov[q as int]);
                                    }
                                }
                                if ov.take(q + 1).contains(rs[y].0@) && !oq.contains(rs[y].0@) {
                                    let t1 = ov.take(q + 1);
                                    let w = choose|w: int| 0 <= w < q + 1 && t1[w] == rs[y].0@;
                                    assert(w == q);
                                }
                                if oq.contains(rs[y].0@) {
                                    let w = choose|w: int| 0 <= w < oq.len() && oq[w] == rs[y].0@;
                                    assert(ov.take(q + 1)[w] == rs[y].0@);
                                }
                            } else {
                                assert(ov.take(q + 1)[q as int] == rs[y].0@);
                            }
                        }
                        assert(out@ =~= before_ordered + ordered_results(ov.take(q + 1), rs));
                    }
                },
                None => {
                    proof {
                        assert forall|k: int| 0 <= k < rs.len() implies rs[k].0@ != ov[q as int] by {
                            assert(ids@[k]@ == rs[k].0@);
                        }
                        lemma_last_result_none(rs, ov[q as int]);
                        assert forall|y: int| 0 <= y < rs.len() implies #[trigger] blocks@[y] == if is_last_for_id(rs, y) && ov.take(q + 1).contains(rs[y].0@) {
                            None
                        } else {
                            Some(rs[y].1)
                        } by {
                            if ov.take(q + 1).contains(rs[y].0@) && !oq.contains(rs[y].0@) {
                                let t1 = ov.take(q + 1);
                                    let w = choose|w: int| 0 <= w < q + 1 && t1[w] == rs[y].0@;
                                assert(w == q);
                            }
                            if oq.contains(rs[y].0@) {
                                let w = choose|w: int| 0 <= w < oq.len() && oq[w] == rs[y].0@;
                                assert(ov.take(q + 1)[w] == rs[y].0@);
                            }
                        }
                        assert(out@ =~= before_ordered + ordered_results(ov.take(q + 1), rs));
                    }
                },
            }
        } else {
            proof {
                assert forall|y: int| 0 <= y < rs.len() implies #[trigger] blocks@[y] == if is_last_for_id(rs, y) && ov.take(q + 1).contains(rs[y].0@) {
                    None
                } else {
                    Some(rs[y].1)
                } by {
                    if ov.take(q + 1).contains(rs[y].0@) {
                        let t1 = ov.take(q + 1);
                                    let w = choose|w: int| 0 <= w < q + 1 && t1[w] == rs[y].0@;
                        if w == q {
                            assert(oq.contains(rs[y].0@));
                        } else {
                            assert(oq[w] == rs[y].0@);
                        }
                    }
                    if oq.contains(rs[y].0@) {
                        let w = choose|w: int| 0 <= w < oq.len() && oq[w] == rs[y].0@;
                        assert(ov.take(q + 1)[w] == rs[y].0@);
                    }
                }
                assert(out@ =~= before_ordered + ordered_results(ov.take(q + 1), rs));
            }
        }
        q = q + 1;
    }
    proof {
        assert(ov.take(ov.len() as int) =~= ov);
    }
    // Results for ids the message does not hold.
    let ghost before_left = out@;
    let mut y: usize = 0;
    while y < ids.len()
        invariant
            y <= ids@.len(),
            ids@.len() == rs.len(),
            blocks@.len() == rs.len(),
            ov == order@.map_values(|s: String| s@),
            forall|x: int| 0 <= x < rs.len() ==> ids@[x]@ == rs[x].0@,
            forall|x: int|
                y <= x < rs.len() ==> #[trigger] blocks@[x] == if is_last_for_id(rs, x) && ov.contains(
                    rs[x].0@,
                ) {
                    None
                } else {
                    Some(rs[x].1)
                },
            out@ == before_left + leftover_results(ov, rs, y as int),
        decreases ids@.len() - y,
    {
        let in_order = contains_str(&order, order.len(), ids[y].as_str());
        let last = match last_index_of(&ids, ids[y].as_str()) {
            Some(x) => x == y,
            None => false,
        };
        proof {
            if in_order {
                let w = choose|w: int| 0 <= w < order@.len() && order@[w]@ == ids@[y as int]@;
                assert(ov[w] == rs[y as int].0@);
            }
            if ov.contains(rs[y as int].0@) {
                let w = choose|w: int| 0 <= w < ov.len() && ov[w] == rs[y as int].0@;
                assert(order@[w]@ == ids@[y as int]@);
            }
            if last {
                assert forall|k: int| y < k < rs.len() implies rs[k].0@ != rs[y as int].0@ by {
                    assert(ids@[k]@ == rs[k].0@);
                    assert(ids@[y as int]@ == rs[y as int].0@);
                }
                assert(is_last_for_id(rs, y as int));
            }
            if is_last_for_id(rs, y as int) {
                assert(forall|k: int| y < k < ids@.len() ==> ids@[k]@ != ids@[y as int]@);
            }
        }
        if !in_order && last {
            let taken = take_at(&mut blocks, y);
            match taken {
                Some(b) => {
                    out.push(b);
                },
                None => {},
            }
        }
        proof {
            assert(out@ =~= before_left + leftover_results(ov, rs, y + 1));
        }
        y = y + 1;
    }
    out
}

/// When every call of a message (ids distinct) has a result, the results
/// come back one per call, in exactly the order the model made the calls.
pub proof fn lemma_results_follow_call_order(order: Seq<Seq<char>>, rs: Seq<(String, ContentBlock)>)
    requires
        forall|a: int, b: int| 0 <= a < b < order.len() ==> order[a] != order[b],
        forall|k: int| 0 <= k < order.len() ==> (#[trigger] last_result(rs, order[k])) is Some,
    ensures
        ordered_results(order, rs).len() == order.len(),
        forall|k: int|
            0 <= k < order.len() ==> #[trigger] ordered_results(order, rs)[k] == last_result(rs, order[k]).unwrap(),
    decreases order.len(),
{
    if order.len() > 0 {
        let d = order.drop_last();
        assert forall|k: int| 0 <= k < d.len() implies (#[trigger] last_result(rs, d[k])) is Some by {
            assert(d[k] == order[k]);
        }
        lemma_results_follow_call_order(d, rs);
        assert(!d.contains(order.last())) by {
            if d.contains(order.last()) {
                let w = choose|w: int| 0 <= w < d.len() && d[w] == order.last();
                assert(order[w] == order[order.len() - 1]);
            }
        }
        assert(last_result(rs, order[order.len() - 1]) is Some);
    }
}

/// The OS name from the output of `uname -s`: the trimmed output, when
/// there is any.
pub fn os_from_uname(output: &str) -> (r: Option<String>)
    ensures
        match r {
            Some(os) => os@ == trim(output@) && os@.len() > 0,
            None => trim(output@).len() == 0,
        },
{
    let t = trim_chars(&chars_of(output));
    if t.len() == 0 {
        None
    } else {
        Some(string_of(t.as_slice()))
    }
}

} // verus!
