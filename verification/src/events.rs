//! Events streamed to the interface, their per-identity channel name, and
//! the card view of a tool call.

use vstd::prelude::*;
use crate::text::{push_str, string_of};
use crate::types::{MessageMetadata, StoredMessage, ToolCallStatus, ToolResult, Usage};

verus! {

/// The base64url (no padding) text of a byte string.
pub uninterp spec fn base64url_of(bytes: Seq<u8>) -> Seq<char>;

/// A character of the URL-safe base64 alphabet.
pub open spec fn is_base64url_char(c: char) -> bool {
    ('A' <= c <= 'Z') || ('a' <= c <= 'z') || ('0' <= c <= '9') || c == '-' || c == '_'
}

/// Encodes with `base64::engine::general_purpose::URL_SAFE_NO_PAD`. The
/// engine uses the alphabet `A-Z a-z 0-9 - _` and writes no `=` padding,
/// so every character of the result is from that alphabet. Base64 maps
/// each 6-bit group to its own character and decoding gives the input
/// back, so no other byte string has the same encoding.
#[verifier::external_body]
fn base64url_encode(bytes: &[u8]) -> (s: String)
    ensures
        s@ == base64url_of(bytes@),
        forall|i: int| 0 <= i < s@.len() ==> is_base64url_char(#[trigger] s@[i]),
        forall|other: Seq<u8>| #[trigger] base64url_of(other) == s@ ==> other == bytes@,
{
    <base64::engine::GeneralPurpose as base64::Engine>::encode(
        &base64::engine::general_purpose::URL_SAFE_NO_PAD,
        bytes,
    )
}

/// Structured approval warning, shown as a strip on the tool-call card.
pub enum ApprovalWarning {
    /// The target path hit the sensitive glob list.
    SensitivePattern { pattern: String },
    /// The terminal command contains dangerous keywords.
    DangerousKeywords { keywords: Vec<String> },
}

/// A tool call as the interface renders it.
pub struct ToolCallView {
    pub id: String,
    pub message_id: String,
    pub name: String,
    /// Accumulated arguments JSON so far (may be partial while streaming).
    pub args_json: String,
    pub status: ToolCallStatus,
    pub result: Option<ToolResult>,
    pub warnings: Option<Vec<ApprovalWarning>>,
}

/// The card view of a tool call whose arguments are still streaming.
pub fn streaming_view(message_id: &str, id: &str, name: &str, args_json: &str) -> (v: ToolCallView)
    ensures
        v.id@ == id@,
        v.message_id@ == message_id@,
        v.name@ == name@,
        v.args_json@ == args_json@,
        v.status == ToolCallStatus::Streaming,
        v.result is None,
        v.warnings is None,
{
    ToolCallView {
        id: String::from_str(id),
        message_id: String::from_str(message_id),
        name: String::from_str(name),
        args_json: String::from_str(args_json),
        status: ToolCallStatus::Streaming,
        result: None,
        warnings: None,
    }
}

/// Approval request shown at the bottom of the tool-call card.
pub struct ApprovalRequest {
    pub tool_call_id: String,
    pub tool: String,
    /// Title content (path, command or URL).
    pub title: String,
    /// Tool-specific detail payload (diff text, ...).
    pub payload: Option<serde_json::Value>,
    pub warnings: Vec<ApprovalWarning>,
}

/// Events of an agent run.
#[allow(inconsistent_fields)]
pub enum AgentEvent {
    MessageStart { thread_id: String, message_id: String },
    TextDelta { thread_id: String, message_id: String, delta: String },
    ThinkingDelta { thread_id: String, message_id: String, delta: String },
    ToolCall { thread_id: String, tool_call: ToolCallView },
    ToolCallArgsDelta { thread_id: String, tool_call_id: String, args_json_delta: String },
    ToolCallArgsPatched { thread_id: String, tool_call_id: String, args_json: String },
    /// Diff preview of a streaming write_file/edit_file call, as JSON.
    ToolCallPreview { thread_id: String, tool_call_id: String, preview: serde_json::Value },
    ApprovalNeeded { thread_id: String, approval: ApprovalRequest },
    UserMessage { thread_id: String, message: StoredMessage },
    Usage { thread_id: String, usage: Usage },
    MessageDone { thread_id: String, message_id: String, metadata: Option<MessageMetadata> },
    RunEnd { thread_id: String },
    Error { thread_id: String, message: String },
    Cancelled { thread_id: String },
    TerminalOutput { tool_call_id: String, data_b64: String },
    TitleUpdated { thread_id: String, title: String },
    ThreadUpdated { thread_id: String },
}

/// A character allowed in an event name: ASCII alphanumerics and
/// `-`, `/`, `:`, `_`.
pub open spec fn is_event_name_char(c: char) -> bool {
    ('A' <= c <= 'Z') || ('a' <= c <= 'z') || ('0' <= c <= '9') || c == '-' || c == '/' || c
        == ':' || c == '_'
}

/// The event channel name of an identity.
pub open spec fn channel_name(identity: Seq<char>) -> Seq<char> {
    "agent-event-"@ + base64url_of(vstd::utf8::encode_utf8(identity))
}

impl AgentEvent {
    /// The event channel of one identity: `agent-event-` and the
    /// identity's base64url (unpadded) encoding. It is always a valid
    /// event name, and no other identity has the same channel.
    pub fn channel(identity: &str) -> (s: String)
        ensures
            s@ == channel_name(identity@),
            forall|i: int| 0 <= i < s@.len() ==> is_event_name_char(#[trigger] s@[i]),
            forall|other: Seq<char>| #[trigger] channel_name(other) == s@ ==> other == identity@,
    {
        let enc = base64url_encode(identity.as_bytes());
        let mut s = String::from_str("agent-event-");
        push_str(&mut s, enc.as_str());
        proof {
            reveal_strlit("agent-event-");
            assert forall|i: int| 0 <= i < s@.len() implies is_event_name_char(#[trigger] s@[i]) by {
                if i >= 12 {
                    assert(s@[i] == enc@[i - 12]);
                    assert(is_base64url_char(enc@[i - 12]));
                }
            }
            assert forall|other: Seq<char>| #[trigger] channel_name(other) == s@ implies other
                == identity@ by {
                let ob = vstd::utf8::encode_utf8(other);
                assert(base64url_of(ob) =~= channel_name(other).skip(12));
                assert(enc@ =~= s@.skip(12));
                vstd::utf8::encode_utf8_decode_utf8(other);
                vstd::utf8::encode_utf8_decode_utf8(identity@);
            }
        }
        s
    }
}

} // verus!
