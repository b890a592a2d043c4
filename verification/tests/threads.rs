use reach::table::Table;
use reach::threads::{
    branch_info, check_edit_message, descend_choice, needs_preview, recalled_active_child,
    reconcile_stale_calls, remember_active_child, sibling_step, thread_preview,
};
use reach::types::{ContentBlock, ToolCallStatus};

fn ids(v: &[&str]) -> Vec<String> {
    v.iter().map(|s| s.to_string()).collect()
}

#[test]
fn single_sibling_never_moves() {
    assert_eq!(sibling_step(&ids(&["a"]), "a", "next"), Ok(None));
    assert_eq!(sibling_step(&ids(&[]), "a", "sideways"), Ok(None));
}

#[test]
fn steps_between_siblings() {
    let s = ids(&["m1", "m2", "m3"]);
    assert_eq!(sibling_step(&s, "m2", "prev"), Ok(Some(0)));
    assert_eq!(sibling_step(&s, "m2", "next"), Ok(Some(2)));
    assert_eq!(sibling_step(&s, "m1", "prev"), Ok(None));
    assert_eq!(sibling_step(&s, "m3", "next"), Ok(None));
}

#[test]
fn next_then_prev_returns() {
    let s = ids(&["m1", "m2", "m3"]);
    let p = sibling_step(&s, "m1", "next").unwrap().unwrap();
    assert_eq!(sibling_step(&s, &s[p], "prev"), Ok(Some(0)));
}

#[test]
fn step_errors() {
    let s = ids(&["m1", "m2"]);
    assert_eq!(sibling_step(&s, "zz", "next"), Err("message not among its siblings".to_string()));
    assert_eq!(sibling_step(&s, "m1", "up"), Err("invalid direction: up".to_string()));
}

#[test]
fn descend_prefers_remembered_child() {
    let c = ids(&["c1", "c2", "c3"]);
    assert_eq!(descend_choice(&c, Some("c1")), 0);
    assert_eq!(descend_choice(&c, Some("gone")), 2);
    assert_eq!(descend_choice(&c, None), 2);
}

#[test]
fn branch_memory_recalls_last_choice() {
    let mut m = Table::new();
    assert_eq!(recalled_active_child(&m, "t1", None), None);
    remember_active_child(&mut m, "t1", None, "root-a");
    remember_active_child(&mut m, "t1", Some("root-a"), "child-x");
    remember_active_child(&mut m, "t1", None, "root-b");
    assert_eq!(recalled_active_child(&m, "t1", None), Some("root-b".to_string()));
    assert_eq!(recalled_active_child(&m, "t1", Some("root-a")), Some("child-x".to_string()));
    assert_eq!(recalled_active_child(&m, "t2", None), None);
}

#[test]
fn branch_info_is_one_based() {
    let b = branch_info(0, 3);
    assert_eq!(b.index, 1);
    assert_eq!(b.count, 3);
}

fn status_of(b: &ContentBlock) -> Option<ToolCallStatus> {
    match b {
        ContentBlock::ToolCall { status, .. } => Some(*status),
        _ => None,
    }
}

fn tool(id: &str, status: ToolCallStatus) -> ContentBlock {
    ContentBlock::ToolCall {
        id: id.into(),
        name: "read_file".into(),
        args: serde_json::Value::Null,
        status,
        result: None,
        warnings: None,
    }
}

#[test]
fn dead_run_calls_are_cancelled() {
    let mut content = vec![
        ContentBlock::Text { text: "hi".into() },
        tool("a", ToolCallStatus::Streaming),
        tool("b", ToolCallStatus::PendingApproval),
        tool("c", ToolCallStatus::Success),
    ];
    assert!(reconcile_stale_calls(&mut content));
    let s: Vec<Option<ToolCallStatus>> = content.iter().map(status_of).collect();
    assert!(s[0].is_none());
    assert!(s[1] == Some(ToolCallStatus::Cancelled));
    assert!(s[2] == Some(ToolCallStatus::Cancelled));
    assert!(s[3] == Some(ToolCallStatus::Success));
    // A second pass finds nothing to change.
    assert!(!reconcile_stale_calls(&mut content));
}

#[test]
fn thread_previews() {
    assert!(needs_preview("", 3));
    assert!(!needs_preview("Disk check", 3));
    assert!(!needs_preview("", 0));
    let blocks = vec![
        tool("a", ToolCallStatus::Success),
        ContentBlock::Text { text: "  restart nginx and check the error log for upstream timeouts ".into() },
    ];
    assert_eq!(thread_preview(&blocks), Some("restart nginx and check the er".to_string()));
    assert_eq!(thread_preview(&vec![ContentBlock::Text { text: "   ".into() }]), None);
}

#[test]
fn only_user_messages_are_edited() {
    assert!(check_edit_message("user", false).is_ok());
    assert_eq!(check_edit_message("assistant", false), Err("Only user messages can be edited".to_string()));
    assert_eq!(
        check_edit_message("user", true),
        Err("A run is active; cancel it before editing history".to_string())
    );
}
