//! Shared types of the agent: usage, message metadata, tool-call states,
//! branch navigation and the composer's model selection.

use vstd::prelude::*;

verus! {

/// Token usage reported by a provider at the end of a stream round.
#[derive(PartialEq, Eq, Structural, Clone, Copy)]
pub struct Usage {
    pub prompt_tokens: u64,
    pub completion_tokens: u64,
    /// Provider-reported cache hits.
    pub cached_tokens: Option<u64>,
}

/// Per-assistant-message metadata shown in the hover card.
pub struct MessageMetadata {
    pub provider_instance: Option<String>,
    pub model: Option<String>,
    pub usage: Option<Usage>,
    pub duration_ms: Option<u64>,
    pub tool_call_count: Option<u32>,
}

/// Runtime or final state of a tool call.
#[derive(PartialEq, Eq, Structural, Clone, Copy)]
pub enum ToolCallStatus {
    /// Arguments still streaming in.
    Streaming,
    /// Waiting for the user's decision.
    PendingApproval,
    Running,
    Success,
    Failed,
    Rejected,
    Cancelled,
}

/// The states from which a tool call never moves again.
pub open spec fn status_is_terminal(s: ToolCallStatus) -> bool {
    match s {
        ToolCallStatus::Success | ToolCallStatus::Failed | ToolCallStatus::Rejected
        | ToolCallStatus::Cancelled => true,
        _ => false,
    }
}

impl ToolCallStatus {
    /// Whether the call has finished (successfully or not).
    pub fn is_terminal(self) -> (b: bool)
        ensures
            b == status_is_terminal(self),
    {
        match self {
            ToolCallStatus::Success | ToolCallStatus::Failed | ToolCallStatus::Rejected
            | ToolCallStatus::Cancelled => true,
            _ => false,
        }
    }

    /// The snake_case name used on the wire.
    pub fn as_str(self) -> (s: &'static str)
        ensures
            s@ == status_name(self),
    {
        match self {
            ToolCallStatus::Streaming => "streaming",
            ToolCallStatus::PendingApproval => "pending_approval",
            ToolCallStatus::Running => "running",
            ToolCallStatus::Success => "success",
            ToolCallStatus::Failed => "failed",
            ToolCallStatus::Rejected => "rejected",
            ToolCallStatus::Cancelled => "cancelled",
        }
    }
}

pub open spec fn status_name(s: ToolCallStatus) -> Seq<char> {
    match s {
        ToolCallStatus::Streaming => "streaming"@,
        ToolCallStatus::PendingApproval => "pending_approval"@,
        ToolCallStatus::Running => "running"@,
        ToolCallStatus::Success => "success"@,
        ToolCallStatus::Failed => "failed"@,
        ToolCallStatus::Rejected => "rejected"@,
        ToolCallStatus::Cancelled => "cancelled"@,
    }
}

/// Branch navigation info for one node on the active path (`< 2 / 4 >`).
pub struct BranchInfo {
    /// 1-based position among siblings.
    pub index: i64,
    pub count: i64,
}

/// Model selection triple of the composer.
pub struct ModelSelection {
    /// `"{instanceId}/{modelId}"`
    pub model: String,
    pub thinking: bool,
    pub effort: Option<String>,
}

/// The result of executing a tool: `llm_text` goes back to the model,
/// `ui_payload` (diff text, full terminal output, ...) is for the
/// interface only.
pub struct ToolResult {
    pub llm_text: String,
    pub is_error: bool,
    pub ui_payload: Option<serde_json::Value>,
}

/// A successful result carrying `text`.
pub fn ok_text(text: String) -> (r: ToolResult)
    ensures
        r.llm_text == text,
        !r.is_error,
        r.ui_payload is None,
{
    ToolResult { llm_text: text, is_error: false, ui_payload: None }
}

/// A failed result carrying `text`.
pub fn err_text(text: String) -> (r: ToolResult)
    ensures
        r.llm_text == text,
        r.is_error,
        r.ui_payload is None,
{
    ToolResult { llm_text: text, is_error: true, ui_payload: None }
}

/// A block inside a stored message's content.
pub enum ContentBlock {
    Text { text: String },
    Thinking {
        text: String,
        /// Provider-opaque reasoning payload, sent back verbatim.
        provider_payload: Option<serde_json::Value>,
    },
    ToolCall {
        id: String,
        name: String,
        /// Full arguments JSON.
        args: serde_json::Value,
        status: ToolCallStatus,
        result: Option<ToolResult>,
        /// Approval warnings of a live pending approval; never persisted.
        warnings: Option<Vec<String>>,
    },
}

/// A message node in the thread tree.
pub struct StoredMessage {
    pub id: String,
    pub thread_id: String,
    pub parent_id: Option<String>,
    pub branch_index: i64,
    pub seq: i64,
    /// `user` or `assistant`.
    pub role: String,
    pub content: Vec<ContentBlock>,
    pub usage: Option<Usage>,
    pub metadata: Option<MessageMetadata>,
    pub created_at: i64,
}

/// A message on the active path, with its sibling branch info.
pub struct PathMessage {
    pub message: StoredMessage,
    pub branch: BranchInfo,
}

/// Summary row for the threads list.
pub struct ThreadSummary {
    pub id: String,
    /// `user@host:port[#via=hash]`
    pub identity: String,
    pub title: String,
    pub archived: bool,
    pub created_at: i64,
    pub updated_at: i64,
    pub last_usage: Option<Usage>,
    /// JSON triple `{ model, thinking, effort }`.
    pub model: Option<serde_json::Value>,
}

/// A thread's active path with branch info.
pub struct ThreadSnapshot {
    pub thread: ThreadSummary,
    pub messages: Vec<PathMessage>,
}

} // verus!
