use reach::fetch::{chunk_room, decode_body, MAX_RESPONSE_BYTES};
use reach::fetch::{apply_char_window, fetch_result, normalize_url, FetchTool};

#[test]
fn url_gets_https_prefix_when_missing() {
    assert_eq!(normalize_url(" example.com/a "), "https://example.com/a");
    assert_eq!(normalize_url("http://x.org"), "http://x.org");
    assert_eq!(normalize_url("https://x.org"), "https://x.org");
    assert_eq!(FetchTool.name(), "fetch");
    assert!(FetchTool.default_requires_approval());
}

#[test]
fn window_whole_content_has_no_note() {
    assert_eq!(apply_char_window("hello", None, None, false), "hello");
}

#[test]
fn window_reports_continuation() {
    assert_eq!(
        apply_char_window("abcdefghij", Some(2), Some(3), false),
        "cde\n\n[Showing chars 3-5 of 10. Use start_char: 5 to continue reading.]"
    );
    assert_eq!(
        apply_char_window("abcdefghij", Some(8), Some(5), false),
        "ij\n\n[Showing chars 9-10 of 10.]"
    );
    assert_eq!(
        apply_char_window("abc", Some(7), None, false),
        "[start_char 3 is at or beyond the end of the content (3 chars). Nothing to return.]"
    );
}

#[test]
fn window_snaps_back_to_line_break() {
    let text = "line one\nline two\nline three";
    assert_eq!(
        apply_char_window(text, None, Some(12), false),
        "line one\n\n[Showing chars 1-8 of 28. Use start_char: 8 to continue reading.]"
    );
    let text = "αβγ\nδεζηθ";
    assert_eq!(
        apply_char_window(text, None, Some(6), true),
        "[Note: the response body exceeded the 10MB download limit; only its beginning is reflected below.]\n\nαβγ\n\n[Showing chars 1-3 of 9. Use start_char: 3 to continue reading.]"
    );
    assert_eq!(apply_char_window("abc", None, Some(0), false), "a\n\n[Showing chars 1-1 of 3. Use start_char: 1 to continue reading.]");
}

#[test]
fn content_type_dispatch() {
    assert_eq!(
        fetch_result("plain text".into(), Some("text/plain; charset=utf-8"), false, false, "200 OK", None, None),
        Ok("plain text".to_string())
    );
    assert_eq!(
        fetch_result("{\"a\":1}".into(), Some("application/json"), false, false, "200 OK", None, None),
        Ok("```json\n{\n  \"a\": 1\n}\n```".to_string())
    );
    assert_eq!(
        fetch_result("{".into(), Some("application/json"), true, false, "200 OK", None, None),
        Err("failed to parse JSON: the response exceeded the 10MB download limit and is incomplete".to_string())
    );
    assert!(fetch_result("{".into(), Some("application/json"), false, false, "200 OK", None, None)
        .unwrap_err()
        .starts_with("failed to parse JSON response body: "));
    assert_eq!(
        fetch_result("x".into(), None, false, false, "200 OK", None, None),
        Err("missing Content-Type header".to_string())
    );
    let md = fetch_result("<html><body><h1>Title</h1><p>Body text</p></body></html>".into(), Some("text/html"), false, false, "200 OK", None, None).unwrap();
    assert!(md.contains("Title"));
    assert!(md.contains("Body text"));
}

#[test]
fn status_and_empty_body_errors() {
    assert_eq!(
        fetch_result("  ".into(), Some("text/plain"), false, true, "404 Not Found", None, None),
        Err("status error 404 Not Found".to_string())
    );
    assert_eq!(
        fetch_result("gone".into(), Some("text/plain"), false, true, "410 Gone", None, None),
        Err("status error 410 Gone, response:\n\ngone".to_string())
    );
    assert_eq!(
        fetch_result(" \n ".into(), Some("text/plain"), false, false, "200 OK", None, None),
        Err("no textual content found".to_string())
    );
}

#[test]
fn body_is_capped_and_decoded() {
    assert_eq!(MAX_RESPONSE_BYTES, 10 * 1024 * 1024);
    assert_eq!(chunk_room(0, 100), None);
    assert_eq!(chunk_room(MAX_RESPONSE_BYTES - 10, 100), Some(10));
    assert_eq!(decode_body("h\u{e9}llo".as_bytes(), false), "h\u{e9}llo");
    // A cut in the middle of the last character drops that character.
    let cut = &"ab\u{e9}".as_bytes()[..3];
    assert_eq!(decode_body(cut, true), "ab");
    // Invalid bytes in a complete body are replaced.
    assert_eq!(decode_body(&[b'a', 0xff, b'b'], false), "a\u{fffd}b");
    assert_eq!(decode_body(&[b'a', 0xff, b'b'], true), "a");
}
