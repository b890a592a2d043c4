//! Provider presets and the provider-neutral pieces of the chat protocol:
//! the preset registry, thinking settings, stream chunks and their mapping
//! to unified events.

use vstd::prelude::*;
use crate::text::trim;
use crate::types::Usage;

verus! {

/// The `serde_json::Value` type, carried through unchanged.
#[verifier::external_type_specification]
#[verifier::external_body]
pub struct ExJsonValue(serde_json::Value);

/// The OpenRouter preset.
pub struct OpenRouterPreset;

/// The DeepSeek preset.
pub struct DeepSeekPreset;

/// The Kimi Code preset.
pub struct KimiPreset;

impl OpenRouterPreset {
    pub fn preset_id(&self) -> (s: &'static str)
        ensures
            s@ == preset_id_spec(0),
    {
        "openrouter"
    }

    pub fn display_name(&self) -> (s: &'static str)
        ensures
            s@ == preset_name_spec(0),
    {
        "OpenRouter"
    }

    pub fn default_base_url(&self) -> (s: &'static str)
        ensures
            s@ == preset_url_spec(0),
    {
        "https://openrouter.ai/api/v1"
    }
}

impl DeepSeekPreset {
    pub fn preset_id(&self) -> (s: &'static str)
        ensures
            s@ == preset_id_spec(1),
    {
        "deepseek"
    }

    pub fn display_name(&self) -> (s: &'static str)
        ensures
            s@ == preset_name_spec(1),
    {
        "DeepSeek"
    }

    pub fn default_base_url(&self) -> (s: &'static str)
        ensures
            s@ == preset_url_spec(1),
    {
        "https://api.deepseek.com/v1"
    }
}

impl KimiPreset {
    pub fn preset_id(&self) -> (s: &'static str)
        ensures
            s@ == preset_id_spec(2),
    {
        "kimi"
    }

    pub fn display_name(&self) -> (s: &'static str)
        ensures
            s@ == preset_name_spec(2),
    {
        "Kimi Code"
    }

    pub fn default_base_url(&self) -> (s: &'static str)
        ensures
            s@ == preset_url_spec(2),
    {
        "https://api.kimi.com/coding/v1"
    }
}

/// Number of registered presets.
pub const PRESET_COUNT: usize = 3;

/// Registered preset ids, in registration order.
pub open spec fn preset_id_spec(k: int) -> Seq<char> {
    if k == 0 {
        "openrouter"@
    } else if k == 1 {
        "deepseek"@
    } else {
        "kimi"@
    }
}

/// Display names of the registered presets.
pub open spec fn preset_name_spec(k: int) -> Seq<char> {
    if k == 0 {
        "OpenRouter"@
    } else if k == 1 {
        "DeepSeek"@
    } else {
        "Kimi Code"@
    }
}

/// Default base URLs of the registered presets.
pub open spec fn preset_url_spec(k: int) -> Seq<char> {
    if k == 0 {
        "https://openrouter.ai/api/v1"@
    } else if k == 1 {
        "https://api.deepseek.com/v1"@
    } else {
        "https://api.kimi.com/coding/v1"@
    }
}

/// Position of the preset with this id in the registry.
pub open spec fn preset_index(id: Seq<char>) -> Option<int> {
    if id == preset_id_spec(0) {
        Some(0)
    } else if id == preset_id_spec(1) {
        Some(1)
    } else if id == preset_id_spec(2) {
        Some(2)
    } else {
        None
    }
}

fn preset_entry(k: usize) -> (r: (&'static str, &'static str, &'static str))
    requires
        k < PRESET_COUNT,
    ensures
        r.0@ == preset_id_spec(k as int),
        r.1@ == preset_name_spec(k as int),
        r.2@ == preset_url_spec(k as int),
{
    if k == 0 {
        let p = OpenRouterPreset;
        (p.preset_id(), p.display_name(), p.default_base_url())
    } else if k == 1 {
        let p = DeepSeekPreset;
        (p.preset_id(), p.display_name(), p.default_base_url())
    } else {
        let p = KimiPreset;
        (p.preset_id(), p.display_name(), p.default_base_url())
    }
}

fn find_preset(id: &str) -> (r: Option<usize>)
    ensures
        match r {
            Some(k) => k < PRESET_COUNT && preset_index(id@) == Some(k as int),
            None => preset_index(id@) is None,
        },
{
    let mut k: usize = 0;
    while k < PRESET_COUNT
        invariant
            k <= PRESET_COUNT,
            forall|j: int| 0 <= j < k ==> preset_id_spec(j) != id@,
        decreases PRESET_COUNT - k,
    {
        let e = preset_entry(k);
        if crate::text::str_eq(e.0, id) {
            return Some(k);
        }
        k = k + 1;
    }
    None
}

/// Default base URL of the preset with this id.
pub fn preset_default_base_url(id: &str) -> (r: Option<&'static str>)
    ensures
        match preset_index(id@) {
            Some(k) => r matches Some(u) && u@ == preset_url_spec(k),
            None => r is None,
        },
{
    match find_preset(id) {
        Some(k) => Some(preset_entry(k).2),
        None => None,
    }
}

/// Display name of the preset with this id.
pub fn preset_display_name(id: &str) -> (r: Option<&'static str>)
    ensures
        match preset_index(id@) {
            Some(k) => r matches Some(n) && n@ == preset_name_spec(k),
            None => r is None,
        },
{
    match find_preset(id) {
        Some(k) => Some(preset_entry(k).1),
        None => None,
    }
}

/// `(id, display name)` of every registered preset, in registration order.
pub fn known_presets() -> (r: Vec<(&'static str, &'static str)>)
    ensures
        r@.len() == PRESET_COUNT,
        forall|k: int|
            0 <= k < PRESET_COUNT ==> (#[trigger] r@[k]).0@ == preset_id_spec(k) && r@[k].1@
                == preset_name_spec(k),
{
    let mut r: Vec<(&'static str, &'static str)> = Vec::new();
    let mut k: usize = 0;
    while k < PRESET_COUNT
        invariant
            k <= PRESET_COUNT,
            r@.len() == k,
            forall|j: int|
                0 <= j < k ==> (#[trigger] r@[j]).0@ == preset_id_spec(j) && r@[j].1@
                    == preset_name_spec(j),
        decreases PRESET_COUNT - k,
    {
        let e = preset_entry(k);
        r.push((e.0, e.1));
        k = k + 1;
    }
    r
}

// ---------------------------------------------------------------------------
// Thinking settings
// ---------------------------------------------------------------------------

/// The composer's thinking toggle and effort.
pub struct ThinkingConfig {
    pub enabled: bool,
    pub effort: Option<String>,
}

/// The thinking capabilities of a model that the request builders read.
pub struct ModelThinking {
    pub supports_thinking: bool,
    /// Thinking is forced on.
    pub thinking_mandatory: bool,
    pub default_effort: Option<String>,
}

/// DeepSeek's effort level for a unified effort: `max` stays `max`,
/// everything else is `high`.
pub fn map_effort(effort: Option<&str>) -> (s: &'static str)
    ensures
        s@ == (if effort matches Some(e) && e@ == "max"@ {
            "max"@
        } else {
            "high"@
        }),
{
    match effort {
        Some(e) => {
            if crate::text::str_eq(e, "max") {
                "max"
            } else {
                "high"
            }
        },
        None => "high",
    }
}

/// The OpenRouter `reasoning` request field.
pub enum ReasoningField {
    /// `{"enabled": <bool>}`
    Enabled(bool),
    /// `{"effort": <effort>}`
    Effort(String),
}

/// OpenRouter reasoning: nothing for a model without thinking; for one with
/// it, `{"enabled": false}` when off (and not mandatory), else the chosen or
/// the model's default effort, else `{"enabled": true}`.
pub fn resolve_reasoning(thinking: Option<&ThinkingConfig>, meta: Option<&ModelThinking>) -> (r:
    Option<ReasoningField>)
    ensures
        ({
            let mandatory = meta matches Some(m) && m.thinking_mandatory;
            let supports = meta matches Some(m) && m.supports_thinking;
            let enabled = mandatory || (thinking matches Some(t) && t.enabled);
            let effort = match thinking {
                Some(t) if t.effort is Some => t.effort,
                _ => match meta {
                    Some(m) => m.default_effort,
                    None => None,
                },
            };
            if !mandatory && !supports {
                r is None
            } else if !enabled {
                r == Some(ReasoningField::Enabled(false))
            } else {
                match effort {
                    Some(e) => r matches Some(ReasoningField::Effort(x)) && x@ == e@,
                    None => r == Some(ReasoningField::Enabled(true)),
                }
            }
        }),
{
    let mandatory = match meta {
        Some(m) => m.thinking_mandatory,
        None => false,
    };
    let supports = match meta {
        Some(m) => m.supports_thinking,
        None => false,
    };
    if !mandatory && !supports {
        return None;
    }
    let enabled = mandatory || match thinking {
        Some(t) => t.enabled,
        None => false,
    };
    if !enabled {
        return Some(ReasoningField::Enabled(false));
    }
    let chosen: Option<&String> = match thinking {
        Some(t) => match &t.effort {
            Some(e) => Some(e),
            None => None,
        },
        None => None,
    };
    let effort: Option<&String> = match chosen {
        Some(e) => Some(e),
        None => match meta {
            Some(m) => match &m.default_effort {
                Some(e) => Some(e),
                None => None,
            },
            None => None,
        },
    };
    match effort {
        Some(e) => Some(ReasoningField::Effort(String::from_str(e.as_str()))),
        None => Some(ReasoningField::Enabled(true)),
    }
}

// ---------------------------------------------------------------------------
// Conversation pieces
// ---------------------------------------------------------------------------

/// A tool call made by the assistant.
pub struct AssistantToolCall {
    pub id: String,
    pub name: String,
    pub arguments_json: String,
}

/// A tool's result, sent back to the model.
pub struct ToolResultMessage {
    pub tool_call_id: String,
    pub content: String,
    /// Interface-only flag; the wire format has no such field.
    pub is_error: bool,
}

/// An assistant turn as sent back to the model.
pub struct AssistantMessage {
    pub content: String,
    /// Accumulated reasoning text, sent back as `reasoning_content`.
    pub reasoning_content: Option<String>,
    /// Opaque reasoning_details array, sent back verbatim.
    pub reasoning_details: Option<serde_json::Value>,
    pub tool_calls: Vec<AssistantToolCall>,
}

/// The provider-neutral conversation model.
pub enum ChatMessage {
    System(String),
    User(String),
    Assistant(AssistantMessage),
    ToolResult(ToolResultMessage),
}

/// `serde_json::Value`'s derived `Clone`: the copy is the same value.
pub assume_specification[ <serde_json::Value as Clone>::clone ](v: &serde_json::Value) -> (r:
    serde_json::Value)
    ensures
        r == *v,
;

/// The text `serde_json::to_string` writes for a JSON value.
pub uninterp spec fn json_text_of(v: serde_json::Value) -> Seq<char>;

/// Calls `serde_json::to_string` on a JSON value, keeping the text. The
/// crate's documentation says serialization fails only when a `Serialize`
/// impl fails or a map has non-string keys, neither of which a `Value`
/// can hold, so `Some` is claimed; the text, a function of the value, is
/// named `json_text_of`.
#[verifier::external_body]
pub(crate) fn json_text(v: &serde_json::Value) -> (r: Option<String>)
    ensures
        r is Some,
        r->0@ == json_text_of(*v),
{
    serde_json::to_string(v).ok()
}

/// What `serde_json::from_str::<serde_json::Value>` gives for a text: the
/// value, or `None` for a parse error.
pub uninterp spec fn json_parsed(text: Seq<char>) -> Option<serde_json::Value>;

/// Parses a text as a JSON value with `serde_json::from_str`. The outcome
/// depends on the text alone and is named `json_parsed`.
#[verifier::external_body]
pub(crate) fn json_parse(text: &str) -> (r: Option<serde_json::Value>)
    ensures
        r == json_parsed(text@),
{
    serde_json::from_str::<serde_json::Value>(text).ok()
}

/// The JSON object with one member, `key`, whose value is the string
/// `value`.
pub uninterp spec fn json_string_object(key: Seq<char>, value: Seq<char>) -> serde_json::Value;

/// Builds the object `{key: value}` (a `serde_json::Map` with one string
/// entry, wrapped in `Value::Object`), as `json!({ key: value })` does. It
/// depends on the two strings alone and is named `json_string_object`.
#[verifier::external_body]
pub(crate) fn json_object_with_string(key: &str, value: &str) -> (r: serde_json::Value)
    ensures
        r == json_string_object(key@, value@),
{
    let mut m = serde_json::Map::new();
    m.insert(key.to_string(), serde_json::Value::String(value.to_string()));
    serde_json::Value::Object(m)
}

// ---------------------------------------------------------------------------
// Stream chunks
// ---------------------------------------------------------------------------

/// One streamed chunk, every field optional since vendors differ.
pub struct StreamChunk {
    pub choices: Vec<StreamChoice>,
    pub usage: Option<StreamUsage>,
}

pub struct StreamChoice {
    pub delta: StreamDelta,
    pub finish_reason: Option<String>,
}

/// Whether a JSON value is an empty array.
pub uninterp spec fn json_is_empty_array(v: serde_json::Value) -> bool;

/// Tells whether a JSON value is an array with no element
/// (`as_array().map(|a| a.is_empty()).unwrap_or(false)`). The answer is a
/// function of the value, named `json_is_empty_array`.
#[verifier::external_body]
fn is_empty_json_array(v: &serde_json::Value) -> (b: bool)
    ensures
        b == json_is_empty_array(*v),
{
    v.as_array().map(|a| a.is_empty()).unwrap_or(false)
}

pub struct StreamDelta {
    pub content: Option<String>,
    /// OpenRouter thinking text delta.
    pub reasoning: Option<String>,
    /// DeepSeek/Kimi thinking text delta.
    pub reasoning_content: Option<String>,
    /// OpenRouter `reasoning_details` array (round-tripped).
    pub reasoning_details: Option<serde_json::Value>,
    pub tool_calls: Option<Vec<StreamToolCallDelta>>,
}

pub struct StreamToolCallDelta {
    pub index: usize,
    pub id: Option<String>,
    pub function: Option<StreamToolFunctionDelta>,
}

pub struct StreamToolFunctionDelta {
    pub name: Option<String>,
    pub arguments: Option<String>,
}

/// Usage as the vendors report it.
pub struct StreamUsage {
    pub prompt_tokens: u64,
    pub completion_tokens: u64,
    /// DeepSeek: `prompt_cache_hit_tokens`.
    pub prompt_cache_hit_tokens: Option<u64>,
    /// Kimi: top-level `cached_tokens`.
    pub cached_tokens: Option<u64>,
    /// Nested `prompt_tokens_details.cached_tokens`.
    pub prompt_tokens_details: Option<PromptTokensDetails>,
}

pub struct PromptTokensDetails {
    pub cached_tokens: Option<u64>,
}

/// Cached tokens, taken from the first of the three places that has them.
pub open spec fn cached_of(u: StreamUsage) -> Option<u64> {
    if u.prompt_cache_hit_tokens is Some {
        u.prompt_cache_hit_tokens
    } else if u.cached_tokens is Some {
        u.cached_tokens
    } else {
        match u.prompt_tokens_details {
            Some(d) => d.cached_tokens,
            None => None,
        }
    }
}

impl StreamUsage {
    /// The unified usage record.
    pub fn into_usage(self) -> (u: Usage)
        ensures
            u.prompt_tokens == self.prompt_tokens,
            u.completion_tokens == self.completion_tokens,
            u.cached_tokens == cached_of(self),
    {
        let cached = match self.prompt_cache_hit_tokens {
            Some(c) => Some(c),
            None => match self.cached_tokens {
                Some(c) => Some(c),
                None => match self.prompt_tokens_details {
                    Some(d) => d.cached_tokens,
                    None => None,
                },
            },
        };
        Usage {
            prompt_tokens: self.prompt_tokens,
            completion_tokens: self.completion_tokens,
            cached_tokens: cached,
        }
    }
}

/// Unified stream events.
pub enum ChatEvent {
    TextDelta(String),
    ThinkingDelta(String),
    /// OpenRouter `reasoning_details` (accumulated, round-tripped).
    ReasoningDetails(serde_json::Value),
    ToolCallDelta { index: usize, id: Option<String>, name: Option<String>, args_json_delta: String },
    Usage(Usage),
    Done { finish_reason: String },
    Error(String),
}

/// Kind of a unified event, with its text where it has one.
pub enum EventShape {
    Text(Seq<char>),
    Thinking(Seq<char>),
    Details(serde_json::Value),
    ToolCall(usize, Option<Seq<char>>, Option<Seq<char>>, Seq<char>),
    UsageOf(Usage),
    Done(Seq<char>),
    ErrorText(Seq<char>),
}

pub open spec fn opt_seq(s: Option<String>) -> Option<Seq<char>> {
    match s {
        Some(v) => Some(v@),
        None => None,
    }
}

pub open spec fn event_shape(e: ChatEvent) -> EventShape {
    match e {
        ChatEvent::TextDelta(t) => EventShape::Text(t@),
        ChatEvent::ThinkingDelta(t) => EventShape::Thinking(t@),
        ChatEvent::ReasoningDetails(v) => EventShape::Details(v),
        ChatEvent::ToolCallDelta { index, id, name, args_json_delta } => EventShape::ToolCall(
            index,
            opt_seq(id),
            opt_seq(name),
            args_json_delta@,
        ),
        ChatEvent::Usage(u) => EventShape::UsageOf(u),
        ChatEvent::Done { finish_reason } => EventShape::Done(finish_reason@),
        ChatEvent::Error(t) => EventShape::ErrorText(t@),
    }
}

/// The events of one tool-call delta.
pub open spec fn tool_call_shapes(calls: Seq<StreamToolCallDelta>) -> Seq<EventShape> {
    calls.map_values(
        |tc: StreamToolCallDelta|
            EventShape::ToolCall(
                tc.index,
                opt_seq(tc.id),
                match tc.function {
                    Some(f) => opt_seq(f.name),
                    None => None,
                },
                match tc.function {
                    Some(f) => match f.arguments {
                        Some(a) => a@,
                        None => Seq::<char>::empty(),
                    },
                    None => Seq::<char>::empty(),
                },
            ),
    )
}

/// The event of a non-empty `reasoning_details`, carrying its value.
pub open spec fn details_part(d: Option<serde_json::Value>) -> Seq<EventShape> {
    if d matches Some(x) && !json_is_empty_array(x) {
        seq![EventShape::Details(d->0)]
    } else {
        Seq::<EventShape>::empty()
    }
}

/// The thinking event of a non-empty reasoning text.
pub open spec fn thinking_part(r: Option<String>) -> Seq<EventShape> {
    if r matches Some(x) && x@.len() > 0 {
        seq![EventShape::Thinking(r->0@)]
    } else {
        Seq::<EventShape>::empty()
    }
}

/// The text event of non-empty content.
pub open spec fn text_part(r: Option<String>) -> Seq<EventShape> {
    if r matches Some(x) && x@.len() > 0 {
        seq![EventShape::Text(r->0@)]
    } else {
        Seq::<EventShape>::empty()
    }
}

/// The done event of a non-empty finish reason.
pub open spec fn done_part(r: Option<String>) -> Seq<EventShape> {
    if r matches Some(x) && x@.len() > 0 {
        seq![EventShape::Done(r->0@)]
    } else {
        Seq::<EventShape>::empty()
    }
}

/// The events of the tool-call deltas.
pub open spec fn calls_part(c: Option<Vec<StreamToolCallDelta>>) -> Seq<EventShape> {
    match c {
        Some(calls) => tool_call_shapes(calls@),
        None => Seq::<EventShape>::empty(),
    }
}

/// The events of one choice: non-empty details, non-empty reasoning,
/// non-empty reasoning_content, non-empty content, each tool-call delta,
/// then a non-empty finish reason.
pub open spec fn choice_shapes(c: StreamChoice) -> Seq<EventShape> {
    details_part(c.delta.reasoning_details) + thinking_part(c.delta.reasoning) + thinking_part(
        c.delta.reasoning_content,
    ) + text_part(c.delta.content) + calls_part(c.delta.tool_calls) + done_part(c.finish_reason)
}

/// The events of the choices, in order.
pub open spec fn choices_shapes(cs: Seq<StreamChoice>) -> Seq<EventShape>
    decreases cs.len(),
{
    if cs.len() == 0 {
        Seq::<EventShape>::empty()
    } else {
        choices_shapes(cs.drop_last()) + choice_shapes(cs.last())
    }
}

/// The events of a chunk: usage first, then each choice's events.
pub open spec fn chunk_shapes(chunk: StreamChunk) -> Seq<EventShape> {
    (match chunk.usage {
        Some(u) => seq![EventShape::UsageOf(
            Usage {
                prompt_tokens: u.prompt_tokens,
                completion_tokens: u.completion_tokens,
                cached_tokens: cached_of(u),
            },
        )],
        None => Seq::<EventShape>::empty(),
    }) + choices_shapes(chunk.choices@)
}

fn push_event(out: &mut Vec<ChatEvent>, e: ChatEvent)
    ensures
        final(out)@ == old(out)@.push(e),
{
    out.push(e);
}

fn push_tool_calls(out: &mut Vec<ChatEvent>, calls: Vec<StreamToolCallDelta>)
    ensures
        final(out)@.map_values(|e: ChatEvent| event_shape(e)) == old(out)@.map_values(
            |e: ChatEvent| event_shape(e),
        ) + tool_call_shapes(calls@),
{
    let ghost gcalls = calls@;
    let ghost start = out@.map_values(|e: ChatEvent| event_shape(e));
    let mut calls = calls;
    let total = calls.len();
    let mut n: usize = 0;
    assert(calls@ =~= gcalls.skip(0));
    assert(tool_call_shapes(gcalls.take(0)) =~= Seq::<EventShape>::empty());
    assert(start + tool_call_shapes(gcalls.take(0)) =~= start);
    while calls.len() > 0
        invariant
            n + calls@.len() == gcalls.len(),
            gcalls.len() <= usize::MAX,
            calls@ == gcalls.skip(n as int),
            out@.map_values(|e: ChatEvent| event_shape(e)) == start + tool_call_shapes(
                gcalls.take(n as int),
            ),
        decreases calls@.len(),
    {
        let ghost b = out@.map_values(|e: ChatEvent| event_shape(e));
        let tc = calls.remove(0);
        let ghost gtc = tc;
        assert(gtc == gcalls[n as int]);
        assert(calls@ =~= gcalls.skip(n + 1));
        let StreamToolCallDelta { index, id, function } = tc;
        let (name, args) = match function {
            Some(f) => (f.name, f.arguments),
            None => (None, None),
        };
        let args_json_delta = match args {
            Some(a) => a,
            None => String::new(),
        };
        push_event(out, ChatEvent::ToolCallDelta { index, id, name, args_json_delta });
        n = n + 1;
        proof {
            assert(gcalls.take(n as int) =~= gcalls.take(n - 1).push(gtc));
            assert(tool_call_shapes(gcalls.take(n as int)) =~= tool_call_shapes(
                gcalls.take(n - 1),
            ).push(event_shape(out@.last())));
            assert(out@.map_values(|e: ChatEvent| event_shape(e)) =~= b.push(
                event_shape(out@.last()),
            ));
        }
    }
    assert(gcalls.take(gcalls.len() as int) =~= gcalls);
}

fn push_details(out: &mut Vec<ChatEvent>, d: Option<serde_json::Value>)
    ensures
        final(out)@.map_values(|e: ChatEvent| event_shape(e)) == old(out)@.map_values(
            |e: ChatEvent| event_shape(e),
        ) + details_part(d),
{
    match d {
        Some(details) => {
            if !is_empty_json_array(&details) {
                push_event(out, ChatEvent::ReasoningDetails(details));
            }
        },
        None => {},
    }
    assert(final(out)@.map_values(|e: ChatEvent| event_shape(e)) =~= old(out)@.map_values(
        |e: ChatEvent| event_shape(e),
    ) + details_part(d));
}

fn push_thinking(out: &mut Vec<ChatEvent>, r: Option<String>)
    ensures
        final(out)@.map_values(|e: ChatEvent| event_shape(e)) == old(out)@.map_values(
            |e: ChatEvent| event_shape(e),
        ) + thinking_part(r),
{
    let ghost g = r;
    match r {
        Some(t) => {
            if crate::text::is_nonempty(t.as_str()) {
                push_event(out, ChatEvent::ThinkingDelta(t));
            }
        },
        None => {},
    }
    assert(final(out)@.map_values(|e: ChatEvent| event_shape(e)) =~= old(out)@.map_values(
        |e: ChatEvent| event_shape(e),
    ) + thinking_part(g));
}

fn push_text(out: &mut Vec<ChatEvent>, r: Option<String>)
    ensures
        final(out)@.map_values(|e: ChatEvent| event_shape(e)) == old(out)@.map_values(
            |e: ChatEvent| event_shape(e),
        ) + text_part(r),
{
    let ghost g = r;
    match r {
        Some(t) => {
            if crate::text::is_nonempty(t.as_str()) {
                push_event(out, ChatEvent::TextDelta(t));
            }
        },
        None => {},
    }
    assert(final(out)@.map_values(|e: ChatEvent| event_shape(e)) =~= old(out)@.map_values(
        |e: ChatEvent| event_shape(e),
    ) + text_part(g));
}

fn push_done(out: &mut Vec<ChatEvent>, r: Option<String>)
    ensures
        final(out)@.map_values(|e: ChatEvent| event_shape(e)) == old(out)@.map_values(
            |e: ChatEvent| event_shape(e),
        ) + done_part(r),
{
    let ghost g = r;
    match r {
        Some(t) => {
            if crate::text::is_nonempty(t.as_str()) {
                push_event(out, ChatEvent::Done { finish_reason: t });
            }
        },
        None => {},
    }
    assert(final(out)@.map_values(|e: ChatEvent| event_shape(e)) =~= old(out)@.map_values(
        |e: ChatEvent| event_shape(e),
    ) + done_part(g));
}

fn push_choice_events(out: &mut Vec<ChatEvent>, choice: StreamChoice)
    ensures
        final(out)@.map_values(|e: ChatEvent| event_shape(e)) == old(out)@.map_values(
            |e: ChatEvent| event_shape(e),
        ) + choice_shapes(choice),
{
    let ghost gc = choice;
    let StreamChoice { delta, finish_reason } = choice;
    let StreamDelta { content, reasoning, reasoning_content, reasoning_details, tool_calls } =
        delta;
    push_details(out, reasoning_details);
    push_thinking(out, reasoning);
    push_thinking(out, reasoning_content);
    push_text(out, content);
    match tool_calls {
        Some(calls) => {
            push_tool_calls(out, calls);
        },
        None => {
            assert(calls_part(gc.delta.tool_calls) =~= Seq::<EventShape>::empty());
            assert(out@.map_values(|e: ChatEvent| event_shape(e)) =~= out@.map_values(
                |e: ChatEvent| event_shape(e),
            ) + calls_part(gc.delta.tool_calls));
        },
    }
    push_done(out, finish_reason);
    assert(final(out)@.map_values(|e: ChatEvent| event_shape(e)) =~= old(out)@.map_values(
        |e: ChatEvent| event_shape(e),
    ) + choice_shapes(gc));
}

/// Maps one lenient chunk to unified events. Order: usage first (usage-only
/// chunks have no choices), then per choice reasoning details, thinking,
/// text, tool calls and done.
pub fn map_chunk(chunk: StreamChunk) -> (out: Vec<ChatEvent>)
    ensures
        out@.map_values(|e: ChatEvent| event_shape(e)) == chunk_shapes(chunk),
{
    let ghost whole = chunk;
    let mut out: Vec<ChatEvent> = Vec::new();
    let StreamChunk { choices, usage } = chunk;
    match usage {
        Some(u) => {
            let usage = u.into_usage();
            push_event(&mut out, ChatEvent::Usage(usage));
        },
        None => {},
    }
    let ghost head = out@.map_values(|e: ChatEvent| event_shape(e));
    assert(head =~= match whole.usage {
        Some(u) => seq![EventShape::UsageOf(
            Usage {
                prompt_tokens: u.prompt_tokens,
                completion_tokens: u.completion_tokens,
                cached_tokens: cached_of(u),
            },
        )],
        None => Seq::<EventShape>::empty(),
    });
    let ghost cs = choices@;
    assert(choices@ =~= cs.skip(0));
    assert(head + choices_shapes(cs.take(0)) =~= head);
    let mut choices = choices;
    let total = choices.len();
    let mut taken: usize = 0;
    while choices.len() > 0
        invariant
            taken + choices@.len() == cs.len(),
            cs.len() <= usize::MAX,
            choices@ == cs.skip(taken as int),
            out@.map_values(|e: ChatEvent| event_shape(e)) == head + choices_shapes(
                cs.take(taken as int),
            ),
        decreases choices@.len(),
    {
        let ghost before = out@.map_values(|e: ChatEvent| event_shape(e));
        let choice = choices.remove(0);
        let ghost gc = choice;
        assert(gc == cs[taken as int]);
        assert(choices@ =~= cs.skip(taken + 1));
        push_choice_events(&mut out, choice);
        taken = taken + 1;
        proof {
            assert(cs.take(taken as int).drop_last() =~= cs.take(taken - 1));
            assert(cs.take(taken as int).last() == gc);
            assert(out@.map_values(|e: ChatEvent| event_shape(e)) =~= head + choices_shapes(
                cs.take(taken as int),
            ));
        }
    }
    assert(cs.take(cs.len() as int) =~= cs);
    out
}

// ---------------------------------------------------------------------------
// Messages as each vendor receives them
// ---------------------------------------------------------------------------

/// The vendors the presets talk to.
#[derive(PartialEq, Eq, Structural, Clone, Copy)]
pub enum Vendor {
    OpenRouter,
    DeepSeek,
    Kimi,
}

/// A message in the shape the vendors' chat APIs take.
pub enum WireMessage {
    System { content: String },
    User { content: String },
    Assistant {
        /// The text, sent as null when absent.
        text: Option<String>,
        tool_calls: Vec<AssistantToolCall>,
        /// DeepSeek and Kimi: the reasoning text, sent back.
        reasoning_content: Option<String>,
        /// OpenRouter: the opaque reasoning details, sent back.
        reasoning_details: Option<serde_json::Value>,
    },
    Tool { content: String, tool_call_id: String },
}

/// What a wire message holds, taken by its texts.
pub enum WireShape {
    System(Seq<char>),
    User(Seq<char>),
    Assistant {
        text: Option<Seq<char>>,
        calls: Seq<(Seq<char>, Seq<char>, Seq<char>)>,
        reasoning_content: Option<Seq<char>>,
        reasoning_details: Option<serde_json::Value>,
    },
    Tool { content: Seq<char>, id: Seq<char> },
}

pub open spec fn full_call_view(c: AssistantToolCall) -> (Seq<char>, Seq<char>, Seq<char>) {
    (c.id@, c.name@, c.arguments_json@)
}

pub open spec fn wire_shape(m: WireMessage) -> WireShape {
    match m {
        WireMessage::System { content } => WireShape::System(content@),
        WireMessage::User { content } => WireShape::User(content@),
        WireMessage::Assistant { text, tool_calls, reasoning_content, reasoning_details } =>
            WireShape::Assistant {
            text: opt_seq(text),
            calls: tool_calls@.map_values(|c: AssistantToolCall| full_call_view(c)),
            reasoning_content: opt_seq(reasoning_content),
            reasoning_details,
        },
        WireMessage::Tool { content, tool_call_id } => WireShape::Tool {
            content: content@,
            id: tool_call_id@,
        },
    }
}

/// How a vendor receives a conversation message. An assistant turn's text
/// is sent as null when it carries tool calls and no text (Kimi: whenever
/// the text is blank, since its coding endpoint rejects whitespace-only
/// parts); OpenRouter gets the reasoning details back, except for
/// `anthropic/` models, which treat them as output only; DeepSeek and
/// Kimi get the reasoning text back; Kimi is sent a placeholder for an
/// empty tool result.
pub open spec fn vendor_shape(v: Vendor, model: Seq<char>, m: ChatMessage) -> WireShape {
    match m {
        ChatMessage::System(t) => WireShape::System(t@),
        ChatMessage::User(t) => WireShape::User(t@),
        ChatMessage::Assistant(a) => WireShape::Assistant {
            text: if (v == Vendor::Kimi && trim(a.content@).len() == 0) || (v != Vendor::Kimi
                && a.content@.len() == 0 && a.tool_calls@.len() > 0) {
                None
            } else {
                Some(a.content@)
            },
            calls: a.tool_calls@.map_values(|c: AssistantToolCall| full_call_view(c)),
            reasoning_content: if v == Vendor::OpenRouter {
                None
            } else {
                opt_seq(a.reasoning_content)
            },
            reasoning_details: if v == Vendor::OpenRouter && !(model.len() >= 10 && model.take(10)
                == "anthropic/"@) {
                a.reasoning_details
            } else {
                None
            },
        },
        ChatMessage::ToolResult(t) => WireShape::Tool {
            content: if v == Vendor::Kimi && t.content@.len() == 0 {
                "<Tool returned an empty string>"@
            } else {
                t.content@
            },
            id: t.tool_call_id@,
        },
    }
}

fn copy_calls(calls: &Vec<AssistantToolCall>) -> (r: Vec<AssistantToolCall>)
    ensures
        r@.map_values(|c: AssistantToolCall| full_call_view(c)) == calls@.map_values(
            |c: AssistantToolCall| full_call_view(c),
        ),
{
    let mut r: Vec<AssistantToolCall> = Vec::new();
    let mut i: usize = 0;
    while i < calls.len()
        invariant
            i <= calls@.len(),
            r@.map_values(|c: AssistantToolCall| full_call_view(c)) == calls@.take(i as int).map_values(
                |c: AssistantToolCall| full_call_view(c),
            ),
        decreases calls@.len() - i,
    {
        let c = &calls[i];
        let ghost prev = r@;
        let nc = AssistantToolCall {
            id: String::from_str(c.id.as_str()),
            name: String::from_str(c.name.as_str()),
            arguments_json: String::from_str(c.arguments_json.as_str()),
        };
        let ghost ncv = nc;
        r.push(nc);
        proof {
            assert(full_call_view(ncv) == full_call_view(calls@[i as int]));
            assert(r@ =~= prev.push(ncv));
            assert(r@.map_values(|c: AssistantToolCall| full_call_view(c)) =~= prev.map_values(
                |c: AssistantToolCall| full_call_view(c),
            ).push(full_call_view(ncv)));
            assert(calls@.take(i + 1) =~= calls@.take(i as int).push(calls@[i as int]));
            assert(calls@.take(i + 1).map_values(|c: AssistantToolCall| full_call_view(c)) =~= calls@.take(
                i as int,
            ).map_values(|c: AssistantToolCall| full_call_view(c)).push(full_call_view(calls@[i as int])));
        }
        i = i + 1;
    }
    assert(calls@.take(calls@.len() as int) =~= calls@);
    r
}

fn copy_opt(s: &Option<String>) -> (r: Option<String>)
    ensures
        opt_seq(r) == opt_seq(*s),
{
    match s {
        Some(x) => Some(String::from_str(x.as_str())),
        None => None,
    }
}

fn wire_message(v: Vendor, model: &str, m: &ChatMessage) -> (w: WireMessage)
    ensures
        wire_shape(w) == vendor_shape(v, model@, *m),
{
    proof {
        reveal_strlit("anthropic/");
        reveal_strlit("<Tool returned an empty string>");
    }
    match m {
        ChatMessage::System(t) => WireMessage::System { content: String::from_str(t.as_str()) },
        ChatMessage::User(t) => WireMessage::User { content: String::from_str(t.as_str()) },
        ChatMessage::Assistant(a) => {
            let blank = if v == Vendor::Kimi {
                crate::text::trim_chars(&crate::text::chars_of(a.content.as_str())).len() == 0
            } else {
                !crate::text::is_nonempty(a.content.as_str()) && a.tool_calls.len() > 0
            };
            let text = if blank {
                None
            } else {
                Some(String::from_str(a.content.as_str()))
            };
            let reasoning_content = if v == Vendor::OpenRouter {
                None
            } else {
                copy_opt(&a.reasoning_content)
            };
            let anthropic = crate::text::starts_with_chars(
                crate::text::chars_of(model).as_slice(),
                crate::text::chars_of("anthropic/").as_slice(),
            );
            let reasoning_details = if v == Vendor::OpenRouter && !anthropic {
                match &a.reasoning_details {
                    Some(d) => Some(d.clone()),
                    None => None,
                }
            } else {
                None
            };
            WireMessage::Assistant {
                text,
                tool_calls: copy_calls(&a.tool_calls),
                reasoning_content,
                reasoning_details,
            }
        },
        ChatMessage::ToolResult(t) => {
            let content = if v == Vendor::Kimi && !crate::text::is_nonempty(t.content.as_str()) {
                String::from_str("<Tool returned an empty string>")
            } else {
                String::from_str(t.content.as_str())
            };
            WireMessage::Tool { content, tool_call_id: String::from_str(t.tool_call_id.as_str()) }
        },
    }
}

/// The conversation as a vendor receives it, message by message.
pub fn wire_messages(v: Vendor, model: &str, messages: &Vec<ChatMessage>) -> (out: Vec<WireMessage>)
    ensures
        out@.len() == messages@.len(),
        forall|i: int|
            0 <= i < messages@.len() ==> wire_shape(#[trigger] out@[i]) == vendor_shape(
                v,
                model@,
                messages@[i],
            ),
{
    let mut out: Vec<WireMessage> = Vec::new();
    let mut i: usize = 0;
    while i < messages.len()
        invariant
            i <= messages@.len(),
            out@.len() == i,
            forall|k: int| 0 <= k < i ==> wire_shape(#[trigger] out@[k]) == vendor_shape(v, model@, messages@[k]),
        decreases messages@.len() - i,
    {
        out.push(wire_message(v, model, &messages[i]));
        i = i + 1;
    }
    out
}

// ---------------------------------------------------------------------------
// Provider errors and the event stream
// ---------------------------------------------------------------------------

/// Why a provider call failed.
pub enum ProviderError {
    /// The HTTP request failed; its message.
    Http(String),
    /// The API answered with an error status.
    Api { status: u16, message: String },
    Stream(String),
    Cancelled,
}

pub open spec fn provider_error_text(e: ProviderError) -> Seq<char> {
    match e {
        ProviderError::Http(m) => "HTTP error: "@ + m@,
        ProviderError::Api { status, message } => "API error "@ + crate::text::dec(status as nat)
            + ": "@ + message@,
        ProviderError::Stream(m) => "Stream error: "@ + m@,
        ProviderError::Cancelled => "Cancelled"@,
    }
}

impl ProviderError {
    /// The error's message.
    pub fn message(&self) -> (s: String)
        ensures
            s@ == provider_error_text(*self),
    {
        match self {
            ProviderError::Http(m) => {
                let mut s = String::from_str("HTTP error: ");
                crate::text::push_str(&mut s, m.as_str());
                s
            },
            ProviderError::Api { status, message } => {
                let mut s = String::from_str("API error ");
                crate::text::push_dec(&mut s, *status as u64);
                crate::text::push_str(&mut s, ": ");
                crate::text::push_str(&mut s, message.as_str());
                s
            },
            ProviderError::Stream(m) => {
                let mut s = String::from_str("Stream error: ");
                crate::text::push_str(&mut s, m.as_str());
                s
            },
            ProviderError::Cancelled => String::from_str("Cancelled"),
        }
    }
}

/// The message of an error response: the structured `error.message` when
/// the body has one, else the body's first 500 characters.
pub fn error_message_text(structured: Option<String>, body: &str) -> (s: String)
    ensures
        s@ == match structured {
            Some(m) => m@,
            None => if body@.len() <= 500 {
                body@
            } else {
                body@.take(500)
            },
        },
{
    match structured {
        Some(m) => m,
        None => {
            let v = crate::text::chars_of(body);
            if v.len() <= 500 {
                String::from_str(body)
            } else {
                let head = crate::text::slice_chars(&v, 0, 500);
                proof {
                    assert(v@.subrange(0, 500) =~= v@.take(500));
                }
                crate::text::string_of(head.as_slice())
            }
        },
    }
}

/// What one server-sent event's data means for the stream.
pub enum SseData {
    /// `[DONE]`: the stream is over.
    Done,
    /// Blank: nothing to do.
    Blank,
    /// A chunk to parse.
    Chunk,
}

/// Classifies an event's data: `[DONE]` (trimmed) ends the stream, blank
/// data is skipped, anything else is a chunk.
pub fn classify_sse_data(data: &str) -> (d: SseData)
    ensures
        match d {
            SseData::Done => trim(data@) == "[DONE]"@,
            SseData::Blank => trim(data@).len() == 0,
            SseData::Chunk => trim(data@) != "[DONE]"@ && trim(data@).len() > 0,
        },
{
    let t = crate::text::trim_chars(&crate::text::chars_of(data));
    let marker = crate::text::chars_of("[DONE]");
    if crate::text::chars_eq(t.as_slice(), marker.as_slice()) {
        SseData::Done
    } else if t.len() == 0 {
        SseData::Blank
    } else {
        SseData::Chunk
    }
}

} // verus!
