use reach::events::{streaming_view, AgentEvent};
use reach::types::ToolCallStatus;

fn assert_tauri_event_name(name: &str) {
    assert!(
        name.chars()
            .all(|c| c.is_ascii_alphanumeric() || matches!(c, '-' | '/' | ':' | '_')),
        "invalid Tauri event name: {name}"
    );
}

#[test]
fn channel_is_valid_for_nasty_identities() {
    for identity in [
        "root@131.143.215.36:35589",
        "user@example.com:22",
        "admin@host:2222#via=a1b2c3d4",
        "user@[::1]:22",
        "user_name@a_b.domain:22",
        "用户@主机:22",
    ] {
        let channel = AgentEvent::channel(identity);
        assert!(channel.starts_with("agent-event-"));
        assert_tauri_event_name(&channel);
        assert!(!channel.contains('='));
    }
}

#[test]
fn channel_does_not_collide() {
    assert_ne!(AgentEvent::channel("user@a.b:22"), AgentEvent::channel("user@a_b:22"));
}

#[test]
fn channel_matches_frontend_encoding() {
    assert_eq!(
        AgentEvent::channel("root@131.143.215.36:35589"),
        "agent-event-cm9vdEAxMzEuMTQzLjIxNS4zNjozNTU4OQ"
    );
}

#[test]
fn streaming_view_starts_in_streaming_state() {
    let v = streaming_view("m1", "c1", "terminal", "{\"command\":");
    assert_eq!((v.id.as_str(), v.message_id.as_str(), v.name.as_str()), ("c1", "m1", "terminal"));
    assert_eq!(v.args_json, "{\"command\":");
    assert!(v.status == ToolCallStatus::Streaming);
    assert!(v.result.is_none() && v.warnings.is_none());
}
