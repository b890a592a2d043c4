use reach::agent_loop::{
    after_approval, build_system_prompt, cancelled_before_run, final_status, finish_round,
    first_step, is_known_tool, round_next, RoundAcc, RoundEmit, RoundNext, ToolStep,
};
use reach::permissions::ApprovalDecision;
use reach::providers::ChatEvent;
use reach::types::ToolCallStatus;
use reach::agent_loop::{merge_tool_results, to_api_messages};
use reach::providers::ChatMessage;
use reach::types::{ContentBlock, ToolResult};
use reach::agent_loop::split_model_selection;
use reach::agent_loop::resolve_instance;
use reach::config::ProviderInstance;
use reach::agent_loop::{fallback_title, title_from_stream, title_line_complete, title_request, TITLE_PROMPT};
use reach::agent_loop::os_from_uname;
use reach::agent_loop::{parse_tool_args, round_content};
use reach::config::{resolve_tool_flags, ToolConfig};

#[test]
fn system_prompt_names_host_user_and_os() {
    let p = build_system_prompt("root@10.0.0.8:22#via=abcd1234", Some("Ubuntu 22.04"));
    assert!(p.starts_with("You are an AI agent embedded in Reach"));
    assert!(p.contains("\n\nHost: 10.0.0.8:22  User: root  OS: Ubuntu 22.04\n\n## Tool Use\n\n"));
    assert!(p.ends_with("(or why you did not run any)."));
    let q = build_system_prompt("nohost", None);
    assert!(q.contains("Host: nohost  User: unknown  OS: unknown\n"));
}

#[test]
fn tool_registry() {
    for n in ["read_file", "write_file", "edit_file", "list_directory", "terminal", "fetch"] {
        assert!(is_known_tool(n));
    }
    assert!(!is_known_tool("rm"));
}

#[test]
fn first_step_checks_in_order() {
    match first_step("terminal", Some("{bad"), true, ApprovalDecision::Allow) {
        ToolStep::Finish { status, text } => {
            assert!(status == ToolCallStatus::Failed);
            assert_eq!(text, "Failed to parse tool arguments as JSON: {bad");
        }
        _ => panic!(),
    }
    match first_step("nope", None, true, ApprovalDecision::Allow) {
        ToolStep::Finish { text, .. } => assert_eq!(text, "Unknown tool: nope. Use only the tools provided in this conversation."),
        _ => panic!(),
    }
    match first_step("fetch", None, false, ApprovalDecision::Allow) {
        ToolStep::Finish { text, .. } => assert!(text.starts_with("The fetch tool is disabled in settings.")),
        _ => panic!(),
    }
    match first_step("terminal", None, true, ApprovalDecision::Deny { reason: "no".into() }) {
        ToolStep::Finish { text, .. } => assert_eq!(text, "no"),
        _ => panic!(),
    }
    match first_step("terminal", None, true, ApprovalDecision::RequireApproval { warnings: vec!["w".into()] }) {
        ToolStep::AskApproval { warnings } => assert_eq!(warnings, vec!["w".to_string()]),
        _ => panic!(),
    }
    assert!(matches!(first_step("read_file", None, true, ApprovalDecision::Allow), ToolStep::Run));
    let long = "x".repeat(300);
    match first_step("terminal", Some(&long), true, ApprovalDecision::Allow) {
        ToolStep::Finish { text, .. } => assert_eq!(text.len(), "Failed to parse tool arguments as JSON: ".len() + 200),
        _ => panic!(),
    }
}

#[test]
fn approval_answers() {
    assert!(after_approval("terminal", Some(true)).is_none());
    let (s, t) = after_approval("write_file", Some(false)).unwrap();
    assert!(s == ToolCallStatus::Rejected);
    assert_eq!(t, "Permission to run tool denied by user\nNo changes were made.");
    assert_eq!(after_approval("edit_file", Some(false)).unwrap().1, "Permission to run tool denied by user\nNo edits were made.");
    assert_eq!(after_approval("fetch", Some(false)).unwrap().1, "Permission to run tool denied by user");
    assert!(after_approval("fetch", None).unwrap().0 == ToolCallStatus::Cancelled);
    assert!(cancelled_before_run().0 == ToolCallStatus::Cancelled);
    assert!(final_status(true, false) == ToolCallStatus::Cancelled);
    assert!(final_status(false, true) == ToolCallStatus::Failed);
    assert!(final_status(false, false) == ToolCallStatus::Success);
}

fn delta(index: usize, id: Option<&str>, name: Option<&str>, args: &str) -> ChatEvent {
    ChatEvent::ToolCallDelta {
        index,
        id: id.map(|s| s.to_string()),
        name: name.map(|s| s.to_string()),
        args_json_delta: args.to_string(),
    }
}

#[test]
fn round_accumulates_text_and_tool_calls() {
    let mut acc = RoundAcc::new();
    let mut announced = Vec::new();
    assert!(matches!(acc.on_event(ChatEvent::TextDelta("Hel".into()), &mut announced), RoundEmit::Text(t) if t == "Hel"));
    acc.on_event(ChatEvent::TextDelta("lo".into()), &mut announced);
    match acc.on_event(delta(1, Some("c2"), Some("terminal"), "{\"command\""), &mut announced) {
        RoundEmit::ToolCall { announce, id, name, args_json, delta } => {
            assert!(announce);
            assert_eq!((id.as_str(), name.as_str(), args_json.as_str()), ("c2", "terminal", "{\"command\""));
            assert_eq!(delta.as_deref(), Some("{\"command\""));
        }
        _ => panic!(),
    }
    match acc.on_event(delta(1, None, None, ":\"ls\"}"), &mut announced) {
        RoundEmit::ToolCall { announce, args_json, .. } => {
            assert!(!announce);
            assert_eq!(args_json, "{\"command\":\"ls\"}");
        }
        _ => panic!(),
    }
    assert!(matches!(acc.on_event(delta(0, Some("c1"), None, ""), &mut announced), RoundEmit::Nothing));
    acc.on_event(delta(0, None, Some("read_file"), "  "), &mut announced);
    acc.on_event(delta(5, None, None, "{}"), &mut announced);
    acc.on_event(ChatEvent::Done { finish_reason: "tool_calls".into() }, &mut announced);
    assert_eq!(acc.text, "Hello");
    let out = finish_round(&acc);
    assert!(out.has_text && !out.has_thinking);
    assert_eq!(
        out.calls,
        vec![
            ("c1".to_string(), "read_file".to_string(), "{}".to_string()),
            ("c2".to_string(), "terminal".to_string(), "{\"command\":\"ls\"}".to_string()),
        ]
    );
    assert!(round_next(&out) == RoundNext::RunTools);
    assert_eq!(announced, vec!["c2".to_string(), "c1".to_string()]);
}

#[test]
fn empty_round_and_answer_only_round() {
    let acc = RoundAcc::new();
    assert!(round_next(&finish_round(&acc)) == RoundNext::Empty);
    let mut acc = RoundAcc::new();
    let mut announced = Vec::new();
    acc.on_event(ChatEvent::ThinkingDelta("hmm".into()), &mut announced);
    assert!(round_next(&finish_round(&acc)) == RoundNext::Answered);
}

fn msg(role: &str, content: Vec<reach::types::ContentBlock>) -> reach::types::StoredMessage {
    reach::types::StoredMessage {
        id: format!("{role}-id"),
        thread_id: "t".into(),
        parent_id: None,
        branch_index: 0,
        seq: 1,
        role: role.into(),
        content,
        usage: None,
        metadata: None,
        created_at: 0,
    }
}

#[test]
fn api_messages_from_path() {
    let path = vec![
        msg(
            "user",
            vec![
                ContentBlock::Text { text: "check disk".into() },
                ContentBlock::Text { text: "please".into() },
            ],
        ),
        msg(
            "assistant",
            vec![
                ContentBlock::Thinking { text: "need df".into(), provider_payload: None },
                ContentBlock::Text { text: "Running df.".into() },
                ContentBlock::ToolCall {
                    id: "c1".into(),
                    name: "terminal".into(),
                    args: serde_json::Value::Null,
                    status: ToolCallStatus::Success,
                    result: Some(ToolResult { llm_text: "ok".into(), is_error: false, ui_payload: None }),
                    warnings: None,
                },
                ContentBlock::ToolCall {
                    id: "c2".into(),
                    name: "read_file".into(),
                    args: serde_json::Value::Null,
                    status: ToolCallStatus::Cancelled,
                    result: None,
                    warnings: None,
                },
            ],
        ),
        msg("system", vec![ContentBlock::Text { text: "ignored".into() }]),
    ];
    let out = to_api_messages(&path);
    assert_eq!(out.len(), 4);
    match &out[0] {
        ChatMessage::User(t) => assert_eq!(t, "check disk\nplease"),
        _ => panic!("user first"),
    }
    match &out[1] {
        ChatMessage::Assistant(a) => {
            assert_eq!(a.content, "Running df.");
            assert_eq!(a.reasoning_content.as_deref(), Some("need df"));
            assert!(a.reasoning_details.is_none());
            assert_eq!(a.tool_calls.len(), 2);
            assert_eq!(a.tool_calls[0].id, "c1");
            assert_eq!(a.tool_calls[0].arguments_json, "null");
            assert_eq!(a.tool_calls[1].name, "read_file");
        }
        _ => panic!("assistant second"),
    }
    match &out[3] {
        ChatMessage::ToolResult(r) => {
            assert_eq!(r.tool_call_id, "c2");
            assert_eq!(r.content, "Tool call was interrupted.");
            assert!(r.is_error);
        }
        _ => panic!("tool result"),
    }
}

#[test]
fn model_selection_split() {
    assert_eq!(
        split_model_selection("or-1/openai/gpt-4o"),
        Ok(("or-1".to_string(), "openai/gpt-4o".to_string()))
    );
    assert_eq!(split_model_selection("nomodel"), Err("Invalid model selection: nomodel".to_string()));
}

#[test]
fn instance_resolution_errors() {
    let instances = vec![
        ProviderInstance { id: "a".into(), preset: "deepseek".into(), name: "DS".into(), base_url: None },
        ProviderInstance { id: "b".into(), preset: "mystery".into(), name: "M".into(), base_url: None },
    ];
    assert_eq!(resolve_instance(&instances, "a", Some("sk-1")), Ok(0));
    assert_eq!(
        resolve_instance(&instances, "z", Some("sk-1")),
        Err("The selected provider instance was deleted. Pick another model.".to_string())
    );
    assert_eq!(
        resolve_instance(&instances, "a", Some("   ")),
        Err("No API key configured for \"DS\". Add one in Settings -> AI.".to_string())
    );
    assert_eq!(
        resolve_instance(&instances, "b", Some("k")),
        Err("Unknown provider preset: mystery".to_string())
    );
}

#[test]
fn titles() {
    assert!(!title_line_complete("Disk usage"));
    assert!(title_line_complete("Disk usage\nmore"));
    assert_eq!(title_from_stream("  Disk usage check \nrest"), Some("Disk usage check".to_string()));
    assert_eq!(title_from_stream("\nrest"), None);
    let path = vec![
        msg("assistant", vec![ContentBlock::Text { text: "hi".into() }]),
        msg("user", vec![ContentBlock::Text { text: "   why is nginx returning 502 on every request today?  ".into() }]),
    ];
    assert_eq!(fallback_title(&path), Some("why is nginx returning 502 on ".to_string()));
    assert_eq!(fallback_title(&vec![msg("user", vec![])]), None);
    let req = title_request(&path);
    assert_eq!(req.len(), 3);
    match &req[2] {
        ChatMessage::User(t) => assert_eq!(t, TITLE_PROMPT),
        _ => panic!("title prompt last"),
    }
}

fn call(id: &str, status: ToolCallStatus, text: Option<&str>) -> ContentBlock {
    ContentBlock::ToolCall {
        id: id.into(),
        name: "terminal".into(),
        args: serde_json::Value::Null,
        status,
        result: text.map(|t| ToolResult { llm_text: t.into(), is_error: false, ui_payload: None }),
        warnings: None,
    }
}

fn call_text(b: &ContentBlock) -> (String, Option<String>) {
    match b {
        ContentBlock::ToolCall { id, result, .. } => (id.clone(), result.as_ref().map(|r| r.llm_text.clone())),
        ContentBlock::Text { text } => ("text".into(), Some(text.clone())),
        ContentBlock::Thinking { text, .. } => ("thinking".into(), Some(text.clone())),
    }
}

#[test]
fn tool_results_return_in_call_order() {
    let content = vec![
        ContentBlock::Thinking { text: "plan".into(), provider_payload: None },
        ContentBlock::Text { text: "Checking.".into() },
        call("a", ToolCallStatus::Streaming, None),
        call("b", ToolCallStatus::Streaming, None),
        call("c", ToolCallStatus::Streaming, None),
    ];
    // Results arrive in completion order, with a stray one and a duplicate.
    let results = vec![
        ("c".to_string(), call("c", ToolCallStatus::Success, Some("c1"))),
        ("zz".to_string(), call("zz", ToolCallStatus::Failed, Some("stray"))),
        ("a".to_string(), call("a", ToolCallStatus::Success, Some("a1"))),
        ("c".to_string(), call("c", ToolCallStatus::Success, Some("c2"))),
    ];
    let merged = merge_tool_results(content, results);
    let got: Vec<(String, Option<String>)> = merged.iter().map(call_text).collect();
    assert_eq!(
        got,
        vec![
            ("thinking".to_string(), Some("plan".to_string())),
            ("text".to_string(), Some("Checking.".to_string())),
            ("a".to_string(), Some("a1".to_string())),
            ("c".to_string(), Some("c2".to_string())),
            ("zz".to_string(), Some("stray".to_string())),
        ]
    );
}

#[test]
fn uname_output() {
    assert_eq!(os_from_uname("Linux\n"), Some("Linux".to_string()));
    assert_eq!(os_from_uname("  \n"), None);
}

#[test]
fn tool_flags_default_to_enabled() {
    let c = resolve_tool_flags(None, true);
    assert!(c.enabled && c.require_approval);
    let u = ToolConfig { enabled: false, require_approval: false };
    let c = resolve_tool_flags(Some(&u), true);
    assert!(!c.enabled && !c.require_approval);
}

#[test]
fn tool_args_parse_or_keep_the_raw_text() {
    let v = parse_tool_args("{\"command\":\"ls\"}");
    assert_eq!(v.get("command").and_then(|c| c.as_str()), Some("ls"));
    let bad = parse_tool_args("{\"command\":");
    assert_eq!(bad.get("__parse_error").and_then(|c| c.as_str()), Some("{\"command\":"));
    assert_eq!(bad.as_object().map(|o| o.len()), Some(1));
    assert!(parse_tool_args("{}").as_object().map(|o| o.is_empty()).unwrap_or(false));
}

#[test]
fn round_content_stores_streaming_calls() {
    let mut acc = RoundAcc::new();
    let mut announced = Vec::new();
    acc.on_event(ChatEvent::ThinkingDelta("plan".into()), &mut announced);
    acc.on_event(ChatEvent::TextDelta("Checking.".into()), &mut announced);
    acc.on_event(delta(0, Some("c1"), Some("terminal"), "{\"command\":\"df\"}"), &mut announced);
    acc.on_event(delta(1, Some("c2"), Some("read_file"), "not json"), &mut announced);
    acc.on_event(delta(2, Some("c3"), Some("list_directory"), " "), &mut announced);
    let out = finish_round(&acc);
    let blocks = round_content(&acc, &out);
    assert_eq!(blocks.len(), 5);
    assert!(matches!(&blocks[0], ContentBlock::Thinking { text, provider_payload: None } if text == "plan"));
    assert!(matches!(&blocks[1], ContentBlock::Text { text } if text == "Checking."));
    match &blocks[2] {
        ContentBlock::ToolCall { id, args, status, result, .. } => {
            assert_eq!(id, "c1");
            assert_eq!(args.get("command").and_then(|c| c.as_str()), Some("df"));
            assert!(*status == ToolCallStatus::Streaming);
            assert!(result.is_none());
        }
        _ => panic!("tool call"),
    }
    match &blocks[3] {
        ContentBlock::ToolCall { args, .. } => {
            assert_eq!(args.get("__parse_error").and_then(|c| c.as_str()), Some("not json"))
        }
        _ => panic!("tool call"),
    }
    match &blocks[4] {
        ContentBlock::ToolCall { args, .. } => assert!(args.as_object().map(|o| o.is_empty()).unwrap_or(false)),
        _ => panic!("tool call"),
    }
}

#[test]
fn first_reasoning_details_are_kept() {
    let mut acc = RoundAcc::new();
    let mut announced = Vec::new();
    acc.on_event(ChatEvent::ReasoningDetails(serde_json::Value::Bool(true)), &mut announced);
    acc.on_event(ChatEvent::ReasoningDetails(serde_json::Value::Bool(false)), &mut announced);
    assert_eq!(acc.thinking_details, Some(serde_json::Value::Bool(true)));
}

#[test]
fn announced_calls_stay_quiet_without_new_arguments() {
    let mut acc = RoundAcc::new();
    let mut announced = Vec::new();
    match acc.on_event(delta(0, Some("c1"), Some("terminal"), ""), &mut announced) {
        RoundEmit::ToolCall { announce, id, name, args_json, delta } => {
            assert!(announce);
            assert_eq!((id.as_str(), name.as_str(), args_json.as_str()), ("c1", "terminal", ""));
            assert!(delta.is_none());
        }
        _ => panic!(),
    }
    assert!(matches!(acc.on_event(delta(0, None, None, ""), &mut announced), RoundEmit::Nothing));
    assert!(matches!(acc.on_event(ChatEvent::Error("boom".into()), &mut announced), RoundEmit::Nothing));
    assert_eq!(announced, vec!["c1".to_string()]);
    assert_eq!(acc.error.as_deref(), Some("boom"));
}
