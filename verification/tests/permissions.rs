use reach::config::ToolConfig;
use reach::permissions::{
    check_terminal_security, decide, expand_rm_to_single_path_commands, normalize_path,
    sensitive_match, terminal_warnings, ApprovalDecision, CallArgs, DENY_TEXT,
};
use reach::read_file::default_sensitive_patterns;

fn denied(cmd: &str) -> bool {
    check_terminal_security(cmd).is_some()
}

fn chars(s: &str) -> Vec<char> {
    s.chars().collect()
}

fn text(v: &[char]) -> String {
    v.iter().collect()
}

#[test]
fn blocks_rm_on_root() {
    assert!(denied("rm -rf /"));
    assert!(denied("rm -rf /tmp/../"));
    assert!(denied("rm -rf /tmp /"));
    assert!(denied("rm -rf ~"));
    assert!(denied("rm -rf ~/"));
    assert!(denied("rm -rf $HOME"));
    assert!(denied("rm -rf ${HOME}"));
    assert!(denied("rm -rf ."));
    assert!(denied("rm -rf .."));
    assert!(denied("sudo rm -rf /"));
    assert!(denied("ls -la && rm -rf /"));
    assert!(denied("rm / -rf"));
    assert!(denied("rm --no-preserve-root /"));
}

#[test]
fn allows_safe_rm() {
    assert!(!denied("rm -rf ./build"));
    assert!(!denied("rm -rf /tmp/test"));
    assert!(!denied("rm -rf ~/Documents/old"));
    assert!(!denied("rm -rf ../some_dir"));
    assert!(!denied("rm -rf .hidden_dir"));
    assert!(!denied("rm file.txt"));
    assert!(!denied("systemctl restart nginx"));
}

#[test]
fn sensitive_globs() {
    let patterns = default_sensitive_patterns();
    assert!(sensitive_match("/root/.ssh/id_rsa", &patterns).is_some());
    assert!(sensitive_match("/home/u/.env", &patterns).is_some());
    assert!(sensitive_match("/etc/shadow", &patterns).is_some());
    assert!(sensitive_match("/srv/app/cert.pem", &patterns).is_some());
    assert!(sensitive_match("/etc/nginx/nginx.conf", &patterns).is_none());
}

#[test]
fn sensitive_match_reports_first_matching_pattern_and_skips_invalid() {
    let patterns = vec!["a/[".to_string(), "**/*.key".to_string(), "**/server.*".to_string()];
    assert_eq!(
        sensitive_match("/etc/server.key", &patterns),
        Some("**/*.key".to_string())
    );
    assert_eq!(sensitive_match("/etc/server.crt", &patterns), Some("**/server.*".to_string()));
    assert_eq!(sensitive_match("/etc/other", &patterns), None);
}

#[test]
fn denial_reason_is_the_fixed_text() {
    assert_eq!(check_terminal_security("echo ok; rm -rf /"), Some(DENY_TEXT.to_string()));
    assert_eq!(check_terminal_security("cat a | rm -rf ~"), Some(DENY_TEXT.to_string()));
    assert_eq!(check_terminal_security("echo ok"), None);
    assert!(denied("RM -RF /"));
}

#[test]
fn normalize_path_is_lexical() {
    assert_eq!(text(&normalize_path(&chars("/tmp/../"))), "/");
    assert_eq!(text(&normalize_path(&chars("/../../x"))), "/x");
    assert_eq!(text(&normalize_path(&chars("a/./b/../../.."))), "..");
    assert_eq!(text(&normalize_path(&chars("./"))), ".");
    assert_eq!(text(&normalize_path(&chars("../../a"))), "../../a");
    assert_eq!(text(&normalize_path(&chars("a//b/"))), "a/b");
}

#[test]
fn expand_rm_splits_paths_and_keeps_flags() {
    let out: Vec<String> = expand_rm_to_single_path_commands(&chars("rm -rf /tmp/x ~/y ."))
        .iter()
        .map(|v| text(v))
        .collect();
    assert_eq!(out, vec!["rm -rf /tmp/x", "rm -rf ~/y", "rm -rf ."]);
    let dd: Vec<String> = expand_rm_to_single_path_commands(&chars("rm -- -weird a/../b"))
        .iter()
        .map(|v| text(v))
        .collect();
    assert_eq!(dd, vec!["rm -- -weird", "rm -- b"]);
    let other: Vec<String> = expand_rm_to_single_path_commands(&chars("ls -la /"))
        .iter()
        .map(|v| text(v))
        .collect();
    assert_eq!(other, vec!["ls -la /"]);
    let no_paths: Vec<String> = expand_rm_to_single_path_commands(&chars("rm -rf"))
        .iter()
        .map(|v| text(v))
        .collect();
    assert_eq!(no_paths, vec!["rm -rf"]);
}

#[test]
fn terminal_warnings_lists_each_keyword_once() {
    assert!(terminal_warnings("ls -la").is_empty());
    assert_eq!(
        terminal_warnings("sudo rm a; rm b"),
        vec!["Command contains potentially dangerous keywords: sudo, rm".to_string()]
    );
    assert_eq!(
        terminal_warnings("echo hi&&reboot"),
        vec!["Command contains potentially dangerous keyword: reboot".to_string()]
    );
    assert!(terminal_warnings("rmdir x").is_empty());
}

fn args(command: Option<&str>, path: Option<&str>) -> CallArgs {
    CallArgs {
        command: command.map(|s| s.to_string()),
        path: path.map(|s| s.to_string()),
    }
}

#[test]
fn decide_denies_before_anything_else() {
    let cfg = ToolConfig { enabled: true, require_approval: false };
    match decide("terminal", &args(Some("rm -rf /"), None), &cfg, None) {
        ApprovalDecision::Deny { reason } => assert_eq!(reason, DENY_TEXT),
        _ => panic!("expected a denial"),
    }
}

#[test]
fn decide_escalates_sensitive_paths() {
    let cfg = ToolConfig { enabled: true, require_approval: false };
    match decide("read_file", &args(None, Some("/root/.ssh/id_ed25519")), &cfg, None) {
        ApprovalDecision::RequireApproval { warnings } => {
            assert_eq!(warnings, vec!["matches sensitive pattern `**/.ssh/id_*`".to_string()])
        }
        _ => panic!("expected approval"),
    }
    let custom = vec!["**/*.txt".to_string()];
    assert!(matches!(
        decide("read_file", &args(None, Some("/root/.ssh/id_ed25519")), &cfg, Some(&custom)),
        ApprovalDecision::Allow
    ));
    assert!(matches!(
        decide("list_directory", &args(None, Some("/root/.ssh/id_ed25519")), &cfg, None),
        ApprovalDecision::Allow
    ));
}

#[test]
fn decide_follows_require_approval_with_terminal_warnings() {
    let ask = ToolConfig { enabled: true, require_approval: true };
    match decide("terminal", &args(Some("sudo ls"), None), &ask, None) {
        ApprovalDecision::RequireApproval { warnings } => assert_eq!(
            warnings,
            vec!["Command contains potentially dangerous keyword: sudo".to_string()]
        ),
        _ => panic!("expected approval"),
    }
    match decide("write_file", &args(None, Some("/tmp/a")), &ask, None) {
        ApprovalDecision::RequireApproval { warnings } => assert!(warnings.is_empty()),
        _ => panic!("expected approval"),
    }
}

#[test]
fn normalization_clamps_and_is_idempotent() {
    for raw in ["/tmp/../..", "a/../../b", "/a/./b//c/", "../x/..", ".", ""] {
        let once = normalize_path(&chars(raw));
        assert_eq!(normalize_path(&once), once);
    }
    assert_eq!(text(&normalize_path(&chars("/tmp/../.."))), "/");
    assert_eq!(text(&normalize_path(&chars("a/../../b"))), "../b");
}

#[test]
fn chain_is_blocked_iff_a_part_is() {
    for (a, b) in [("echo ok", "rm -rf /"), ("rm -rf ~", "ls"), ("echo ok", "ls -la")] {
        let joined = format!("{a};{b}");
        assert_eq!(
            check_terminal_security(&joined).is_some(),
            check_terminal_security(a).is_some() || check_terminal_security(b).is_some()
        );
    }
}
