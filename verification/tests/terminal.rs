use reach::terminal::{
    finish_command, format_result, select_lines, truncate_to_limit, wrap_command, CommandOutcome,
    TerminalTool, OUTPUT_LIMIT,
};
use reach::terminal::{terminal_request, TerminalInput, DEFAULT_TIMEOUT_MS};

fn outcome(exit_code: Option<i32>, timed_out: bool, user_stopped: bool) -> CommandOutcome {
    CommandOutcome { exit_code, timed_out, user_stopped }
}

#[test]
fn wrap_command_quotes_for_remote_shell() {
    let w = wrap_command("ls -la").ok().unwrap();
    assert!(w.starts_with("env "));
    assert!(w.contains("ls -la\n) </dev/null"));
    assert!(w.contains("/bin/sh"));
    let err = wrap_command("echo \0").err().unwrap();
    assert!(err.is_error);
    assert_eq!(
        err.llm_text,
        "Could not shell-quote the command: cannot shell-quote string containing nul byte"
    );
    assert_eq!(TerminalTool.name(), "terminal");
    assert!(TerminalTool.default_requires_approval());
}

#[test]
fn select_lines_head_tail_and_both() {
    let out = "1\n2\n3\n4\n5";
    assert_eq!(select_lines(out, Some(2), None), "1\n2");
    assert_eq!(select_lines(out, None, Some(2)), "4\n5");
    assert_eq!(select_lines(out, Some(1), Some(1)), "1\n\n5");
    assert_eq!(select_lines(out, Some(10), None), out);
    assert_eq!(select_lines(out, None, None), out);
    assert_eq!(select_lines("a\r\nb\r\n", Some(5), None), "a\nb");
}

#[test]
fn truncate_backs_off_to_line_break() {
    let mut s = String::from("abc\ndef\nghi");
    assert!(truncate_to_limit(&mut s, 9));
    assert_eq!(s, "abc\ndef");
    let mut s = String::from("abcdef");
    assert!(truncate_to_limit(&mut s, 4));
    assert_eq!(s, "abcd");
    let mut s = String::from("ééé");
    assert!(truncate_to_limit(&mut s, 5));
    assert_eq!(s, "éé");
    let mut s = String::from("short");
    assert!(!truncate_to_limit(&mut s, 100));
    assert_eq!(s, "short");
}

#[test]
fn format_result_variants() {
    assert_eq!(format_result("ls", "", false, &outcome(Some(0), false, false)), "Command executed successfully.");
    assert_eq!(format_result("ls", " out \n", false, &outcome(Some(0), false, false)), "```\nout\n```");
    assert_eq!(
        format_result("false", "", false, &outcome(Some(1), false, false)),
        "Command \"false\" failed with exit code 1."
    );
    assert_eq!(
        format_result("x", "err", false, &outcome(Some(-2), false, false)),
        "Command \"x\" failed with exit code -2.\n\n```\nerr\n```"
    );
    assert_eq!(
        format_result("sleep 9", "", false, &outcome(None, true, false)),
        "Command \"sleep 9\" timed out. No output was captured."
    );
    assert_eq!(
        format_result("y", "partial", false, &outcome(None, false, false)),
        "Command terminated unexpectedly. Output captured:\n\n```\npartial\n```"
    );
    assert!(format_result("y", "", false, &outcome(Some(0), false, true))
        .starts_with("The user stopped this command. No output was captured before stopping.\n\nSince the user"));
    assert_eq!(
        format_result("y", "abc", true, &outcome(Some(0), false, false)),
        "Command output too long. The first 3 bytes:\n\n```\nabc\n```"
    );
}

#[test]
fn finish_command_caps_or_windows() {
    let big = "x".repeat(OUTPUT_LIMIT + 10);
    let (text, is_error, shown, truncated) = finish_command("c", &big, None, None, &outcome(Some(0), false, false));
    assert!(truncated && !is_error);
    assert_eq!(shown.len(), OUTPUT_LIMIT);
    assert!(text.starts_with("Command output too long. The first 16384 bytes:"));
    let (_, is_error, shown, truncated) = finish_command("c", "  a\nb\nc  ", Some(1), None, &outcome(Some(3), false, false));
    assert!(!truncated && is_error);
    assert_eq!(shown, "a");
}

fn input(command: &str, timeout_ms: Option<u64>) -> TerminalInput {
    TerminalInput { command: command.to_string(), timeout_ms, head_lines: None, tail_lines: None }
}

#[test]
fn blank_command_is_refused_and_timeout_defaults() {
    let e = terminal_request(&input("  \n ", None)).err().unwrap();
    assert_eq!(e.llm_text, "Invalid arguments: command is empty");
    assert!(e.is_error);
    assert_eq!(terminal_request(&input(" ls ", None)).ok().unwrap(), ("ls".to_string(), DEFAULT_TIMEOUT_MS));
    assert_eq!(terminal_request(&input("df", Some(5000))).ok().unwrap(), ("df".to_string(), 5000));
    assert_eq!(DEFAULT_TIMEOUT_MS, 300_000);
}
