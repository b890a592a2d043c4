use reach::config::{api_key_key, ProviderInstance};
use reach::providers::{
    known_presets, map_chunk, map_effort, preset_default_base_url, preset_display_name,
    resolve_reasoning, ChatEvent, DeepSeekPreset, KimiPreset, ModelThinking, OpenRouterPreset,
    PromptTokensDetails, ReasoningField, StreamChoice, StreamChunk, StreamDelta,
    StreamToolCallDelta, StreamToolFunctionDelta, StreamUsage, ThinkingConfig,
};
use reach::providers::{wire_messages, ChatMessage, ToolResultMessage, Vendor, WireMessage};
use reach::providers::{error_message_text, ProviderError};
use reach::providers::{classify_sse_data, SseData};
use reach::config::{delete_instance, new_instance, update_instance};
use reach::config::{legacy_migration, models_cache_fresh, title_model_value};

#[test]
fn preset_registry_lookups() {
    assert_eq!(preset_default_base_url("openrouter"), Some("https://openrouter.ai/api/v1"));
    assert_eq!(preset_default_base_url("deepseek"), Some("https://api.deepseek.com/v1"));
    assert_eq!(preset_default_base_url("kimi"), Some("https://api.kimi.com/coding/v1"));
    assert_eq!(preset_default_base_url("other"), None);
    assert_eq!(preset_display_name("kimi"), Some("Kimi Code"));
    assert_eq!(preset_display_name("x"), None);
    assert_eq!(
        known_presets(),
        vec![("openrouter", "OpenRouter"), ("deepseek", "DeepSeek"), ("kimi", "Kimi Code")]
    );
    assert_eq!(OpenRouterPreset.preset_id(), "openrouter");
    assert_eq!(DeepSeekPreset.display_name(), "DeepSeek");
    assert_eq!(KimiPreset.default_base_url(), "https://api.kimi.com/coding/v1");
}

#[test]
fn api_key_key_format() {
    assert_eq!(api_key_key("abc-123"), "agent:provider:abc-123:api_key");
}

fn instance(preset: &str, base_url: Option<&str>) -> ProviderInstance {
    ProviderInstance {
        id: "i".into(),
        preset: preset.into(),
        name: "n".into(),
        base_url: base_url.map(|s| s.to_string()),
    }
}

#[test]
fn resolved_base_url_prefers_override() {
    assert_eq!(
        instance("deepseek", Some("  https://proxy.local/v1// ")).resolved_base_url(),
        "https://proxy.local/v1"
    );
    assert_eq!(instance("deepseek", Some("   ")).resolved_base_url(), "https://api.deepseek.com/v1");
    assert_eq!(instance("kimi", None).resolved_base_url(), "https://api.kimi.com/coding/v1");
    assert_eq!(instance("unknown", None).resolved_base_url(), "");
}

#[test]
fn map_effort_nearest() {
    assert_eq!(map_effort(Some("max")), "max");
    assert_eq!(map_effort(Some("low")), "high");
    assert_eq!(map_effort(None), "high");
}

#[test]
fn resolve_reasoning_cases() {
    let none_meta = ModelThinking { supports_thinking: false, thinking_mandatory: false, default_effort: None };
    assert!(resolve_reasoning(None, Some(&none_meta)).is_none());
    assert!(resolve_reasoning(None, None).is_none());
    let meta = ModelThinking { supports_thinking: true, thinking_mandatory: false, default_effort: Some("medium".into()) };
    let off = ThinkingConfig { enabled: false, effort: None };
    assert!(matches!(resolve_reasoning(Some(&off), Some(&meta)), Some(ReasoningField::Enabled(false))));
    let on = ThinkingConfig { enabled: true, effort: None };
    match resolve_reasoning(Some(&on), Some(&meta)) {
        Some(ReasoningField::Effort(e)) => assert_eq!(e, "medium"),
        _ => panic!("expected the model's default effort"),
    }
    let on_high = ThinkingConfig { enabled: true, effort: Some("high".into()) };
    match resolve_reasoning(Some(&on_high), Some(&meta)) {
        Some(ReasoningField::Effort(e)) => assert_eq!(e, "high"),
        _ => panic!("expected the chosen effort"),
    }
    let mandatory = ModelThinking { supports_thinking: false, thinking_mandatory: true, default_effort: None };
    assert!(matches!(resolve_reasoning(Some(&off), Some(&mandatory)), Some(ReasoningField::Enabled(true))));
}

#[test]
fn into_usage_prefers_first_cached_source() {
    let u = StreamUsage {
        prompt_tokens: 10,
        completion_tokens: 5,
        prompt_cache_hit_tokens: None,
        cached_tokens: Some(7),
        prompt_tokens_details: Some(PromptTokensDetails { cached_tokens: Some(3) }),
    }
    .into_usage();
    assert_eq!((u.prompt_tokens, u.completion_tokens, u.cached_tokens), (10, 5, Some(7)));
    let u = StreamUsage {
        prompt_tokens: 1,
        completion_tokens: 2,
        prompt_cache_hit_tokens: None,
        cached_tokens: None,
        prompt_tokens_details: Some(PromptTokensDetails { cached_tokens: Some(3) }),
    }
    .into_usage();
    assert_eq!(u.cached_tokens, Some(3));
}

fn delta() -> StreamDelta {
    StreamDelta { content: None, reasoning: None, reasoning_content: None, reasoning_details: None, tool_calls: None }
}

#[test]
fn map_chunk_orders_events() {
    let chunk = StreamChunk {
        choices: vec![StreamChoice {
            delta: StreamDelta {
                content: Some("hi".into()),
                reasoning: Some("".into()),
                reasoning_content: Some("think".into()),
                reasoning_details: Some(serde_json::Value::Array(vec![])),
                tool_calls: Some(vec![StreamToolCallDelta {
                    index: 2,
                    id: Some("c1".into()),
                    function: Some(StreamToolFunctionDelta { name: Some("terminal".into()), arguments: None }),
                }]),
            },
            finish_reason: Some("stop".into()),
        }],
        usage: Some(StreamUsage {
            prompt_tokens: 1,
            completion_tokens: 2,
            prompt_cache_hit_tokens: Some(9),
            cached_tokens: None,
            prompt_tokens_details: None,
        }),
    };
    let events = map_chunk(chunk);
    assert_eq!(events.len(), 5);
    assert!(matches!(&events[0], ChatEvent::Usage(u) if u.cached_tokens == Some(9)));
    assert!(matches!(&events[1], ChatEvent::ThinkingDelta(t) if t == "think"));
    assert!(matches!(&events[2], ChatEvent::TextDelta(t) if t == "hi"));
    assert!(matches!(&events[3], ChatEvent::ToolCallDelta { index: 2, id: Some(i), name: Some(n), args_json_delta }
        if i == "c1" && n == "terminal" && args_json_delta.is_empty()));
    assert!(matches!(&events[4], ChatEvent::Done { finish_reason } if finish_reason == "stop"));
    let empty = map_chunk(StreamChunk { choices: vec![StreamChoice { delta: delta(), finish_reason: Some("".into()) }], usage: None });
    assert!(empty.is_empty());
}

#[test]
fn map_chunk_forwards_reasoning_details_value() {
    let details = serde_json::Value::Array(vec![serde_json::Value::String("r1".into())]);
    let mut d = delta();
    d.reasoning_details = Some(details.clone());
    let events = map_chunk(StreamChunk { choices: vec![StreamChoice { delta: d, finish_reason: None }], usage: None });
    assert_eq!(events.len(), 1);
    assert!(matches!(&events[0], ChatEvent::ReasoningDetails(v) if *v == details));
}

fn assistant(content: &str, calls: usize) -> reach::providers::ChatMessage {
    reach::providers::ChatMessage::Assistant(reach::providers::AssistantMessage {
        content: content.into(),
        reasoning_content: Some("why".into()),
        reasoning_details: Some(serde_json::Value::Bool(true)),
        tool_calls: (0..calls)
            .map(|i| reach::providers::AssistantToolCall {
                id: format!("c{i}"),
                name: "terminal".into(),
                arguments_json: "{}".into(),
            })
            .collect(),
    })
}

fn wire_text(w: &reach::providers::WireMessage) -> Option<String> {
    match w {
        reach::providers::WireMessage::Assistant { text, .. } => text.clone(),
        reach::providers::WireMessage::Tool { content, .. } => Some(content.clone()),
        reach::providers::WireMessage::System { content } | reach::providers::WireMessage::User { content } => {
            Some(content.clone())
        }
    }
}

#[test]
fn vendor_wire_messages() {
    let msgs = vec![
        assistant("", 1),
        assistant("  ", 0),
        ChatMessage::ToolResult(ToolResultMessage { tool_call_id: "c0".into(), content: "".into(), is_error: false }),
    ];
    let k = wire_messages(Vendor::Kimi, "kimi-k2", &msgs);
    assert_eq!(wire_text(&k[0]), None);
    assert_eq!(wire_text(&k[1]), None);
    assert_eq!(wire_text(&k[2]).as_deref(), Some("<Tool returned an empty string>"));
    let d = wire_messages(Vendor::DeepSeek, "deepseek-v4-pro", &msgs);
    assert_eq!(wire_text(&d[0]), None);
    assert_eq!(wire_text(&d[1]).as_deref(), Some("  "));
    assert_eq!(wire_text(&d[2]).as_deref(), Some(""));
    match &d[0] {
        WireMessage::Assistant { reasoning_content, reasoning_details, tool_calls, .. } => {
            assert_eq!(reasoning_content.as_deref(), Some("why"));
            assert!(reasoning_details.is_none());
            assert_eq!(tool_calls[0].id, "c0");
        }
        _ => panic!("assistant"),
    }
    let o = wire_messages(Vendor::OpenRouter, "openai/gpt-4o", &msgs);
    match &o[0] {
        WireMessage::Assistant { reasoning_content, reasoning_details, .. } => {
            assert!(reasoning_content.is_none());
            assert!(reasoning_details.is_some());
        }
        _ => panic!("assistant"),
    }
    let a = wire_messages(Vendor::OpenRouter, "anthropic/model-x", &msgs);
    match &a[0] {
        WireMessage::Assistant { reasoning_details, .. } => assert!(reasoning_details.is_none()),
        _ => panic!("assistant"),
    }
}

#[test]
fn provider_error_messages() {
    assert_eq!(
        ProviderError::Api { status: 401, message: "bad key".into() }.message(),
        "API error 401: bad key"
    );
    assert_eq!(ProviderError::Cancelled.message(), "Cancelled");
    assert_eq!(error_message_text(Some("quota".into()), "{...}"), "quota");
    let long = "x".repeat(600);
    assert_eq!(error_message_text(None, &long).len(), 500);
    assert_eq!(error_message_text(None, "oops"), "oops");
}

#[test]
fn sse_data_classes() {
    assert!(matches!(classify_sse_data(" [DONE]\n"), SseData::Done));
    assert!(matches!(classify_sse_data("  "), SseData::Blank));
    assert!(matches!(classify_sse_data("{\"choices\":[]}"), SseData::Chunk));
}

fn inst(id: &str, preset: &str, name: &str) -> ProviderInstance {
    ProviderInstance { id: id.into(), preset: preset.into(), name: name.into(), base_url: None }
}

#[test]
fn provider_instance_lifecycle() {
    let mut all = vec![inst("a", "deepseek", "DeepSeek")];
    let b = new_instance(&all, "b".into(), "deepseek", None, Some("  ".into())).ok().unwrap();
    assert_eq!(b.name, "DeepSeek 2");
    assert!(b.base_url.is_none());
    let c = new_instance(&all, "c".into(), "kimi", Some("  ".into()), Some("https://x/v1".into())).ok().unwrap();
    assert_eq!(c.name, "Kimi Code");
    assert_eq!(c.base_url.as_deref(), Some("https://x/v1"));
    let d = new_instance(&all, "d".into(), "openrouter", Some("Mine".into()), None).ok().unwrap();
    assert_eq!(d.name, "Mine");
    assert_eq!(new_instance(&all, "e".into(), "nope", None, None).err().unwrap(), "Unknown preset: nope");
    all.push(b);
    all.push(c);
    assert!(update_instance(&mut all, "c", Some(" ".into()), Some("  https://y/v1 ".into())).is_ok());
    assert_eq!(all[2].name, "Kimi Code");
    assert_eq!(all[2].base_url.as_deref(), Some("https://y/v1"));
    assert!(update_instance(&mut all, "c", Some("K".into()), Some("".into())).is_ok());
    assert_eq!(all[2].name, "K");
    assert!(all[2].base_url.is_none());
    assert_eq!(update_instance(&mut all, "zz", None, None), Err("Provider instance not found".to_string()));
    delete_instance(&mut all, "b");
    let ids: Vec<&str> = all.iter().map(|i| i.id.as_str()).collect();
    assert_eq!(ids, vec!["a", "c"]);
}

#[test]
fn settings_helpers() {
    assert_eq!(title_model_value(Some("  or/x  ")).as_deref(), Some("or/x"));
    assert_eq!(title_model_value(Some("   ")), None);
    assert_eq!(title_model_value(None), None);
    assert!(models_cache_fresh(false, 599));
    assert!(!models_cache_fresh(false, 600));
    assert!(!models_cache_fresh(true, 1));
    let (created, title) = legacy_migration(&vec![], "id1".into(), Some("sk"), Some("".into()), Some("gpt"))
        .unwrap();
    assert_eq!(created.name, "OpenRouter");
    assert!(created.base_url.is_none());
    assert_eq!(title.as_deref(), Some("id1/gpt"));
    assert!(legacy_migration(&vec![], "id1".into(), Some(" "), None, None).is_none());
    let existing = vec![inst("x", "openrouter", "OR")];
    assert!(legacy_migration(&existing, "id2".into(), Some("sk"), None, None).is_none());
}
