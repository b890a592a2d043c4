use reach::ssh::{AuthParams, SshError};
use reach::types::{err_text, ok_text, ToolCallStatus};

#[test]
fn terminal_statuses() {
    assert!(ToolCallStatus::Success.is_terminal());
    assert!(ToolCallStatus::Failed.is_terminal());
    assert!(ToolCallStatus::Rejected.is_terminal());
    assert!(ToolCallStatus::Cancelled.is_terminal());
    assert!(!ToolCallStatus::Streaming.is_terminal());
    assert!(!ToolCallStatus::PendingApproval.is_terminal());
    assert!(!ToolCallStatus::Running.is_terminal());
    assert_eq!(ToolCallStatus::PendingApproval.as_str(), "pending_approval");
}

#[test]
fn tool_result_helpers() {
    let ok = ok_text("fine".into());
    assert!(!ok.is_error && ok.llm_text == "fine" && ok.ui_payload.is_none());
    let err = err_text("bad".into());
    assert!(err.is_error && err.llm_text == "bad");
}

#[test]
fn auth_constructors_allow_agent() {
    let p = AuthParams::from_password("pw".into());
    assert!(p.allow_agent && p.key.is_none() && p.password.as_deref() == Some("pw"));
    let k = AuthParams::from_key("/k".into(), Some("pp".into()));
    assert!(k.allow_agent && k.password.is_none());
    assert_eq!(k.key.as_ref().unwrap().path, "/k");
    let a = AuthParams::from_agent();
    assert!(a.allow_agent && a.key.is_none() && a.password.is_none());
}

#[test]
fn ssh_error_messages() {
    assert_eq!(SshError::ConnectionFailed("refused".into()).message(), "Connection failed: refused");
    assert_eq!(SshError::NotFound("c1".into()).message(), "Connection not found: c1");
}

#[test]
fn app_settings_default_is_empty() {
    let _s: reach::config::AppSettings = Default::default();
}
