use reach::models::{
    deepseek_models, deepseek_thinking, kimi_caps, kimi_thinking, merge_listed_ids,
    openrouter_caps, plain_model, KimiModel, OpenRouterModel,
};
use reach::providers::ThinkingConfig;

#[test]
fn openrouter_model_caps() {
    let c = openrouter_caps(OpenRouterModel {
        id: "openai/gpt-4o".into(),
        name: Some("OpenAI: GPT-4o ".into()),
        context_length: Some(128000),
        max_completion_tokens: Some(16384),
        supported_parameters: Some(vec!["tools".into(), "temperature".into()]),
        reasoning_mandatory: None,
        supported_efforts: None,
        default_effort: None,
    });
    assert_eq!(c.display_name, "GPT-4o");
    assert_eq!(c.context_length, 128000);
    assert!(c.supports_tools);
    assert!(!c.supports_thinking);
    let r = openrouter_caps(OpenRouterModel {
        id: "x/r1".into(),
        name: Some("Vendor:  ".into()),
        context_length: None,
        max_completion_tokens: None,
        supported_parameters: Some(vec!["reasoning".into()]),
        reasoning_mandatory: Some(false),
        supported_efforts: None,
        default_effort: None,
    });
    assert_eq!(r.display_name, "x/r1");
    assert!(r.supports_thinking && !r.thinking_mandatory && !r.supports_tools);
    assert_eq!(r.context_length, 0);
}

#[test]
fn kimi_name_heuristic() {
    let m = |id: &str| KimiModel {
        id: id.into(),
        display_name: None,
        context_length: Some(262144),
        supports_reasoning: None,
        think_support: false,
        valid_efforts: vec!["low".into()],
        think_default_effort: Some("low".into()),
    };
    let c = kimi_caps(m("kimi-k2-Thinking"));
    assert!(c.thinking_mandatory && c.supports_thinking);
    assert!(c.thinking_efforts.is_empty());
    assert!(c.default_effort.is_none());
    assert_eq!(c.display_name, "kimi-k2-Thinking");
    let c = kimi_caps(m("kimi-k2"));
    assert!(!c.thinking_mandatory && !c.supports_thinking && c.supports_tools);
}

#[test]
fn deepseek_fixed_models_and_merge() {
    let mut ms = deepseek_models();
    assert_eq!(ms[0].display_name, "Deepseek V4 Flash");
    assert_eq!(ms[1].display_name, "Deepseek V4 Pro");
    assert_eq!(ms[0].thinking_efforts, vec!["high".to_string(), "max".to_string()]);
    merge_listed_ids(&mut ms, &vec!["deepseek-v4-pro".into(), "deepseek-chat".into(), "deepseek-chat".into()]);
    let ids: Vec<&str> = ms.iter().map(|m| m.id.as_str()).collect();
    assert_eq!(ids, vec!["deepseek-v4-flash", "deepseek-v4-pro", "deepseek-chat"]);
    assert_eq!(plain_model("deepseek-chat").display_name, "deepseek-chat");
}

#[test]
fn deepseek_thinking_fields() {
    let on = ThinkingConfig { enabled: true, effort: Some("low".into()) };
    let p = deepseek_thinking(true, Some(&on));
    assert_eq!(p.thinking, Some(true));
    assert_eq!(p.effort.as_deref(), Some("high"));
    assert!(!p.send_temperature);
    let max = ThinkingConfig { enabled: true, effort: Some("max".into()) };
    assert_eq!(deepseek_thinking(true, Some(&max)).effort.as_deref(), Some("max"));
    let p = deepseek_thinking(false, Some(&on));
    assert_eq!(p.thinking, None);
    assert!(p.effort.is_none() && p.send_temperature);
}

#[test]
fn kimi_effort_validation() {
    let mut m = plain_model("kimi-k2-thinking");
    m.supports_thinking = true;
    m.thinking_mandatory = true;
    m.thinking_efforts = vec!["low".into(), "high".into()];
    m.default_effort = Some("high".into());
    let bad = ThinkingConfig { enabled: false, effort: Some("max".into()) };
    assert_eq!(
        kimi_thinking(Some(&m), Some(&bad)).err().unwrap(),
        "Reasoning effort \"max\" is not supported by kimi-k2-thinking (valid: low, high). Pick a valid level in the composer."
    );
    let none = ThinkingConfig { enabled: false, effort: None };
    let p = kimi_thinking(Some(&m), Some(&none)).ok().unwrap();
    assert_eq!(p.thinking, Some(true));
    assert_eq!(p.effort.as_deref(), Some("high"));
    let plain = plain_model("kimi-k2");
    let p = kimi_thinking(Some(&plain), Some(&bad)).ok().unwrap();
    assert_eq!(p.thinking, None);
    assert!(p.effort.is_none() && p.send_temperature);
}
