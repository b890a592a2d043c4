use reach::diff::unified_diff;
use reach::edit_match::{describe_indent, first_line_indent_mismatch, fuzzy_find, line_indent};

// fuzzy_find

#[test]
fn exact_match() {
    let buffer = "fn main() {\n    println!(\"hi\");\n}\n";
    let ranges = fuzzy_find(buffer, "println!(\"hi\");");
    assert_eq!(ranges.len(), 1);
    assert_eq!(&buffer[ranges[0].clone()], "    println!(\"hi\");");
    assert_eq!(ranges[0], 12..31);
}

#[test]
fn empty_query_returns_nothing() {
    assert!(fuzzy_find("hello\nworld\n", "").is_empty());
}

#[test]
fn fuzzy_match_differing_by_one_char() {
    let buffer = "let x = 1;\nlet total = compute_value(a, b, c);\nlet y = 2;\n";
    let ranges = fuzzy_find(buffer, "let total = compute_value(a, b, d);");
    assert_eq!(ranges.len(), 1);
    assert_eq!(
        &buffer[ranges[0].clone()],
        "let total = compute_value(a, b, c);"
    );
}

#[test]
fn fuzzy_match_with_different_indentation() {
    let buffer = "fn main() {\n\t\tcall_me();\n}\n";
    let ranges = fuzzy_find(buffer, "call_me();");
    assert_eq!(ranges.len(), 1);
    assert_eq!(&buffer[ranges[0].clone()], "\t\tcall_me();");
}

#[test]
fn no_match_returns_empty() {
    let buffer = "alpha\nbeta\ngamma\n";
    assert!(fuzzy_find(buffer, "something entirely different").is_empty());
}

#[test]
fn multiple_matches_return_all_ranges() {
    let buffer = "foo\nbar\nbaz\nfoo\nbar\n";
    let ranges = fuzzy_find(buffer, "foo\nbar");
    assert_eq!(ranges.len(), 2);
    assert_eq!(&buffer[ranges[0].clone()], "foo\nbar");
    assert_eq!(&buffer[ranges[1].clone()], "foo\nbar");
    assert_eq!(ranges[0], 0..7);
    assert_eq!(ranges[1], 12..19);
}

#[test]
fn match_ratio_rejects_two_line_query_missing_one_line() {
    let buffer = "foo\nbar\n";
    assert!(fuzzy_find(buffer, "foo\nxyz_missing").is_empty());
}

#[test]
fn match_ratio_accepts_five_line_query_missing_one_line() {
    let buffer = "aaa\nbbb\nccc\nddd\neee\n";
    let ranges = fuzzy_find(buffer, "aaa\nbbb\nxxx\nddd\neee");
    assert_eq!(ranges.len(), 1);
    assert_eq!(&buffer[ranges[0].clone()], "aaa\nbbb\nccc\nddd\neee");
}

#[test]
fn incomplete_tail_extends_single_match() {
    let buffer = "foo\nbar\nbazaar\n";
    let ranges = fuzzy_find(buffer, "foo\nbar\nbaz");
    assert_eq!(ranges.len(), 1);
    assert_eq!(&buffer[ranges[0].clone()], "foo\nbar\nbaz");
}

#[test]
fn incomplete_tail_reruns_as_full_line() {
    let buffer = "foo\nbar\nlet result = compute(t);\n";
    let ranges = fuzzy_find(buffer, "foo\nbar\nlet result = compute();");
    assert_eq!(ranges.len(), 1);
    assert_eq!(
        &buffer[ranges[0].clone()],
        "foo\nbar\nlet result = compute(t);"
    );
}

#[test]
fn crlf_normalized_buffer_matches_with_lf_ranges() {
    let raw = "fn a() {\r\n    body();\r\n}\r\n";
    let buffer = raw.replace("\r\n", "\n");
    let ranges = fuzzy_find(&buffer, "body();");
    assert_eq!(ranges.len(), 1);
    assert_eq!(&buffer[ranges[0].clone()], "    body();");
}

#[test]
fn fuzzy_find_on_empty_buffer_finds_nothing() {
    assert!(fuzzy_find("", "x").is_empty());
}

#[test]
fn fuzzy_find_ranges_lie_within_buffer() {
    let buffer = "αβγ\nδ\nαβγ\n";
    let ranges = fuzzy_find(buffer, "αβγ");
    assert_eq!(ranges.len(), 2);
    for r in &ranges {
        assert!(r.start <= r.end && r.end <= buffer.len());
        assert_eq!(&buffer[r.clone()], "αβγ");
    }
}

// first_line_indent_mismatch / describe_indent

#[test]
fn indent_mismatch_detects_tab_vs_space() {
    let buffer = "fn main() {\n\t\tcall_me();\n}\n";
    let ranges = fuzzy_find(buffer, "call_me();");
    assert_eq!(ranges.len(), 1);
    let m = first_line_indent_mismatch(buffer, &ranges[0], "call_me();").unwrap();
    assert_eq!(m.line, 2);
    assert_eq!(m.file_indent, "\t\t");
    assert_eq!(m.old_text_indent, "");
    assert!(first_line_indent_mismatch(buffer, &ranges[0], "\t\tcall_me();").is_none());
}

#[test]
fn describe_indent_human_readable() {
    assert_eq!(describe_indent(""), "no indentation");
    assert_eq!(describe_indent("\t"), "1 tab");
    assert_eq!(describe_indent("    "), "4 spaces");
    assert_eq!(describe_indent("\t  "), "1 tab + 2 spaces");
}

#[test]
fn describe_indent_plural_tabs_and_single_space() {
    assert_eq!(describe_indent("\t\t\t"), "3 tabs");
    assert_eq!(describe_indent(" "), "1 space");
    assert_eq!(describe_indent("\t\t "), "2 tabs + 1 space");
}

#[test]
fn line_indent_counts_leading_tabs_and_spaces_only() {
    assert_eq!(line_indent("\t  x\t "), (1, 2));
    assert_eq!(line_indent("abc"), (0, 0));
}

// unified_diff

#[test]
fn unified_diff_header_and_body_format() {
    let diff = unified_diff("a\nb\nc\n", "a\nX\nc\n");
    assert_eq!(diff, "@@ -1,3 +1,3 @@\n a\n-b\n+X\n c\n");
}

#[test]
fn unified_diff_uses_three_context_lines() {
    let old = "1\n2\n3\n4\n5\n6\n7\n8\n9\n10\n";
    let new = "1\n2\n3\n4\nX\n6\n7\n8\n9\n10\n";
    let diff = unified_diff(old, new);
    assert_eq!(
        diff,
        "@@ -2,7 +2,7 @@\n 2\n 3\n 4\n-5\n+X\n 6\n 7\n 8\n"
    );
}

#[test]
fn unified_diff_splits_distant_changes_into_two_hunks() {
    let old: String = (1..=20).map(|i| format!("l{i}\n")).collect();
    let new = old.replacen("l2\n", "X2\n", 1).replacen("l15\n", "X15\n", 1);
    let diff = unified_diff(&old, &new);
    let hunks: Vec<&str> = diff.split("@@ ").skip(1).collect();
    assert_eq!(hunks.len(), 2);
    assert!(hunks[0].starts_with("-1,5 +1,5 @@"), "{}", hunks[0]);
    assert!(hunks[0].contains("-l2\n+X2\n"));
    assert!(!hunks[0].contains("l15"));
    assert!(hunks[1].starts_with("-12,7 +12,7 @@"), "{}", hunks[1]);
    assert!(hunks[1].contains("-l15\n+X15\n"));
}

#[test]
fn unified_diff_merges_close_changes_into_one_hunk() {
    let old: String = (1..=12).map(|i| format!("l{i}\n")).collect();
    let new = old.replacen("l3\n", "X3\n", 1).replacen("l7\n", "X7\n", 1);
    let diff = unified_diff(&old, &new);
    assert_eq!(diff.matches("@@ ").count(), 1);
    assert!(diff.starts_with("@@ -1,10 +1,10 @@\n"));
}

#[test]
fn unified_diff_no_changes_is_empty() {
    assert_eq!(unified_diff("a\nb\n", "a\nb\n"), "");
}

#[test]
fn unified_diff_pure_insertion_and_deletion() {
    assert_eq!(unified_diff("", "a\n"), "@@ -1,0 +1,1 @@\n+a\n");
    assert_eq!(unified_diff("a\n", ""), "@@ -1,1 +1,0 @@\n-a\n");
}

#[test]
fn fuzzy_ranges_start_lines_and_ascend() {
    let buffer = "fn a() {}\nlet x = 1;\nfn a() {}\n";
    let ranges = fuzzy_find(buffer, "fn a() {}\n");
    assert_eq!(ranges.len(), 2);
    for r in &ranges {
        assert!(r.start == 0 || buffer.as_bytes()[r.start - 1] == b'\n');
    }
    assert!(ranges[0].end < ranges[1].end);
    assert!(fuzzy_find(buffer, "").is_empty());
}
