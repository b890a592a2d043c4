use reach::read_file::{
    cache_fresh, render_lines, sensitive_patterns, stat_rejection, ReadFileTool,
    DEFAULT_MAX_OUTPUT_BYTES, DEFAULT_MAX_OUTPUT_LINES,
};
use reach::remote_fs::Fingerprint;

#[test]
fn renders_numbered_lines() {
    let out = render_lines("a\nb\n", None, None, DEFAULT_MAX_OUTPUT_BYTES, DEFAULT_MAX_OUTPUT_LINES).ok().unwrap();
    assert_eq!(out, "     1\ta\n     2\tb\n     3\t\n");
}

#[test]
fn renders_requested_range_with_clamping() {
    let text = "l1\nl2\nl3\nl4";
    assert_eq!(render_lines(text, Some(2), Some(3), 1000, 1000).ok().unwrap(), "     2\tl2\n     3\tl3\n");
    assert_eq!(render_lines(text, Some(0), Some(1), 1000, 1000).ok().unwrap(), "     1\tl1\n");
    assert_eq!(render_lines(text, Some(3), Some(1), 1000, 1000).ok().unwrap(), "     3\tl3\n");
    assert_eq!(render_lines(text, Some(9), None, 1000, 1000).ok().unwrap(), "");
    assert_eq!(render_lines(text, None, Some(2), 1000, 1000).ok().unwrap(), "     1\tl1\n     2\tl2\n");
}

#[test]
fn budget_errors_instead_of_truncation() {
    let text = "aaaa\nbbbb\ncccc";
    assert_eq!(
        render_lines(text, None, None, 1000, 2).err().unwrap(),
        "File has 3 lines and 14 bytes, exceeding the line limit (2). Read it in sections with start_line/end_line."
    );
    assert_eq!(
        render_lines(text, None, None, 10, 100).err().unwrap(),
        "File has 3 lines and 14 bytes, exceeding the byte limit (10). Read it in sections with start_line/end_line."
    );
    assert_eq!(
        render_lines(text, Some(1), Some(2), 6, 100).err().unwrap(),
        "The requested range has 2 lines and 10 bytes, exceeding the byte limit (6). Read a smaller range with start_line/end_line."
    );
}

#[test]
fn long_lines_are_guarded() {
    let line = "x".repeat(2001);
    let out = render_lines(&line, None, None, 100_000, 10).ok().unwrap();
    assert_eq!(out, format!("     1\t{} [... line truncated, 2001 bytes total]\n", "x".repeat(2000)));
}

#[test]
fn wide_line_numbers() {
    let text = "x\n".repeat(1_000_000);
    let out = render_lines(&text, Some(999_999), Some(999_999), 100, 100).ok().unwrap();
    assert_eq!(out, "999999\tx\n");
    let out = render_lines(&text, Some(1_000_001), None, 100, 100).ok().unwrap();
    assert_eq!(out, "1000001\t\n");
}

#[test]
fn stat_checks_and_cache_freshness() {
    assert_eq!(
        stat_rejection("/etc", true, 0),
        Some("/etc is a directory, not a file. Use the list_directory tool to explore directory contents.".to_string())
    );
    assert!(stat_rejection("/big", false, 2 * 1024 * 1024).unwrap().starts_with("File is too large to read directly (2097152 bytes)."));
    assert_eq!(stat_rejection("/ok", false, 10), None);
    let f = Fingerprint::Present { mtime: 1, size: 2 };
    assert!(cache_fresh(600, f, f, 10));
    assert!(!cache_fresh(0, f, f, 10));
    assert!(!cache_fresh(600, f, Fingerprint::Absent, 10));
    assert!(!cache_fresh(600, f, f, 600));
}

#[test]
fn configured_patterns_replace_defaults() {
    let custom = vec!["*.secret".to_string()];
    assert_eq!(sensitive_patterns(Some(&custom)), custom);
    assert_eq!(sensitive_patterns(None).len(), 10);
    assert_eq!(ReadFileTool.name(), "read_file");
    assert!(!ReadFileTool.default_requires_approval());
}
