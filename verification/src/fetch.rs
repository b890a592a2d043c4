//! The fetch tool's text logic: URL normalization, Content-Type dispatch
//! (plain text, pretty-printed JSON, HTML converted to Markdown), the status
//! decision and the character window returned to the model.

use vstd::prelude::*;
use std::cell::RefCell;
use std::rc::Rc;
use html_to_markdown::markdown;
use vstd::utf8::encode_utf8;
use crate::exec_backend::utf8_text;
use crate::remote_fs::{lossy_utf8, utf8_lossy};
use crate::text::{
    chars_of, dec, is_nonempty, push_chars, push_dec, push_str, slice_chars, starts_with_chars,
    string_of, trim, trim_chars,
};

verus! {

// ---------------------------------------------------------------------------
// Outside calls
// ---------------------------------------------------------------------------

/// `n` is the longest prefix of `b` that is valid UTF-8.
pub open spec fn max_valid_prefix(b: Seq<u8>, n: int) -> bool {
    &&& 0 <= n <= b.len()
    &&& exists|c: Seq<char>| encode_utf8(c) == b.take(n)
    &&& forall|k: int, c: Seq<char>| n < k <= b.len() ==> #[trigger] encode_utf8(c) != #[trigger] b.take(k)
}

/// `std::str::from_utf8(bytes)`, read for how far the bytes are valid:
/// all of them, or, on error, `Utf8Error::valid_up_to`, which std
/// documents as the maximum index such that `from_utf8(&input[..index])`
/// succeeds.
#[verifier::external_body]
fn utf8_valid_up_to(bytes: &[u8]) -> (n: usize)
    ensures
        max_valid_prefix(bytes@, n as int),
{
    match std::str::from_utf8(bytes) {
        Ok(_) => bytes.len(),
        Err(e) => e.valid_up_to(),
    }
}


/// What pretty-printing a JSON text gives: kind 0 with the pretty text,
/// kind 1 with serde_json's parse error, kind 2 with its formatting error.
pub uninterp spec fn json_pretty_outcome(text: Seq<char>) -> (u8, Seq<char>);

/// Parses `text` with `serde_json::from_str::<serde_json::Value>` and, when
/// that succeeds, formats it with `serde_json::to_string_pretty`; errors
/// are given as their display text. The outcome is named
/// `json_pretty_outcome`; its kind is 0, 1 or 2 as the code shows.
#[verifier::external_body]
fn json_pretty(text: &str) -> (r: (u8, String))
    ensures
        (r.0, r.1@) == json_pretty_outcome(text@),
        r.0 <= 2,
{
    match serde_json::from_str::<serde_json::Value>(text) {
        Ok(json) => match serde_json::to_string_pretty(&json) {
            Ok(pretty) => (0, pretty),
            Err(e) => (2, e.to_string()),
        },
        Err(e) => (1, e.to_string()),
    }
}

/// What `html_to_markdown::convert_html_to_markdown` gives for a page with
/// the handlers used here, or the display text of its error.
pub uninterp spec fn html_markdown_of(html: Seq<char>) -> Result<Seq<char>, Seq<char>>;

/// Converts HTML to Markdown with `convert_html_to_markdown` and the
/// page-chrome remover, paragraph, heading, list, table, styled-text and
/// code handlers; an error is given as its display text. The result is
/// named `html_markdown_of`.
#[verifier::external_body]
fn markdown_from_html(html: &str) -> (r: Result<String, String>)
    ensures
        match r {
            Ok(m) => html_markdown_of(html@) == Ok::<Seq<char>, Seq<char>>(m@),
            Err(e) => html_markdown_of(html@) == Err::<Seq<char>, Seq<char>>(e@),
        },
{
    let mut handlers: Vec<html_to_markdown::TagHandler> = vec![
        Rc::new(RefCell::new(markdown::WebpageChromeRemover)),
        Rc::new(RefCell::new(markdown::ParagraphHandler)),
        Rc::new(RefCell::new(markdown::HeadingHandler)),
        Rc::new(RefCell::new(markdown::ListHandler)),
        Rc::new(RefCell::new(markdown::TableHandler::new())),
        Rc::new(RefCell::new(markdown::StyledTextHandler)),
        Rc::new(RefCell::new(markdown::CodeHandler)),
    ];
    html_to_markdown::convert_html_to_markdown(html.as_bytes(), &mut handlers)
        .map_err(|e| e.to_string())
}

// ---------------------------------------------------------------------------
// Tool
// ---------------------------------------------------------------------------

/// Default window size in characters.
pub const DEFAULT_MAX_CHARS: u32 = 16384;

/// Largest window in characters.
pub const MAX_CHARS_LIMIT: u32 = 65536;

/// Download cap in bytes (10 MiB).
pub const MAX_RESPONSE_BYTES: usize = 10485760;

/// A window that would drop at most this many characters after its last
/// line break ends at that line break instead.
pub const LINE_SNAP_BACKOFF_CHARS: u32 = 200;

/// The fetch tool.
pub struct FetchTool;

impl FetchTool {
    pub fn name(&self) -> (s: &'static str)
        ensures
            s@ == "fetch"@,
    {
        "fetch"
    }

    pub fn default_requires_approval(&self) -> (b: bool)
        ensures
            b,
    {
        true
    }
}

/// The URL as fetched: trimmed, with `https://` put in front unless it
/// already starts with `https://` or `http://`.
pub open spec fn normalized_url(url: Seq<char>) -> Seq<char> {
    let t = trim(url);
    if (t.len() >= 8 && t.take(8) == "https://"@) || (t.len() >= 7 && t.take(7) == "http://"@) {
        t
    } else {
        "https://"@ + t
    }
}

/// Normalizes the URL the model gave.
pub fn normalize_url(url: &str) -> (r: String)
    ensures
        r@ == normalized_url(url@),
{
    let v = chars_of(url);
    let t = trim_chars(&v);
    let https = chars_of("https://");
    let http = chars_of("http://");
    proof {
        reveal_strlit("https://");
        reveal_strlit("http://");
    }
    if starts_with_chars(t.as_slice(), https.as_slice()) || starts_with_chars(
        t.as_slice(),
        http.as_slice(),
    ) {
        string_of(t.as_slice())
    } else {
        let mut r = String::from_str("https://");
        push_chars(&mut r, t.as_slice());
        r
    }
}

/// The index of the last `\n` in `s`.
pub open spec fn last_nl(s: Seq<char>) -> Option<int>
    decreases s.len(),
{
    if s.len() == 0 {
        None
    } else if s.last() == '\n' {
        Some(s.len() - 1)
    } else {
        last_nl(s.drop_last())
    }
}

proof fn lemma_last_nl_bound(s: Seq<char>)
    ensures
        last_nl(s) matches Some(j) ==> 0 <= j < s.len(),
    decreases s.len(),
{
    if s.len() > 0 && s.last() != '\n' {
        lemma_last_nl_bound(s.drop_last());
    }
}

/// The window size asked for, clamped to `1..=65536`.
pub open spec fn window_size(max_chars: Option<u32>) -> int {
    let m: int = match max_chars {
        Some(v) => v as int,
        None => DEFAULT_MAX_CHARS as int,
    };
    if m < 1 {
        1
    } else if m > MAX_CHARS_LIMIT {
        MAX_CHARS_LIMIT as int
    } else {
        m
    }
}

/// How many characters from `start` the window takes.
pub open spec fn window_take(s: Seq<char>, start: int, max: int) -> int {
    let rc = s.len() - start;
    let take = if rc < max {
        rc
    } else {
        max
    };
    if take < rc {
        match last_nl(s.subrange(start, start + take)) {
            Some(nl) => if take - nl - 1 <= LINE_SNAP_BACKOFF_CHARS {
                nl
            } else {
                take
            },
            None => take,
        }
    } else {
        take
    }
}

pub open spec fn truncation_note() -> Seq<char> {
    "[Note: the response body exceeded the 10MB download limit; only its beginning is reflected below.]\n\n"@
}

/// The content window returned to the model, counted in characters: from
/// `start_char`, at most the clamped `max_chars`, snapped back to a line
/// break when that drops little, with a note on the download cap and a
/// continuation note when the window is not the whole content.
pub open spec fn char_window(
    s: Seq<char>,
    start_char: Option<u32>,
    max_chars: Option<u32>,
    download_truncated: bool,
) -> Seq<char> {
    let total = s.len() as int;
    let start0: int = match start_char {
        Some(v) => v as int,
        None => 0,
    };
    let start = if start0 < total {
        start0
    } else {
        total
    };
    if start >= total {
        "[start_char "@ + dec(start as nat) + " is at or beyond the end of the content ("@ + dec(
            total as nat,
        ) + " chars). Nothing to return.]"@
    } else {
        let take = window_take(s, start, window_size(max_chars));
        let end = start + take;
        (if download_truncated {
            truncation_note()
        } else {
            Seq::<char>::empty()
        }) + s.subrange(start, end) + window_note(start, end, total)
    }
}

fn window_take_exec(v: &Vec<char>, start: usize, max: usize) -> (take: usize)
    requires
        start < v@.len(),
        1 <= max,
    ensures
        take == window_take(v@, start as int, max as int),
        start + take <= v@.len(),
{
    let rc = v.len() - start;
    let mut take = if rc < max {
        rc
    } else {
        max
    };
    if take < rc {
        let mut j = start + take;
        let ghost w = v@.subrange(start as int, start + take);
        assert(w.take(take as int) =~= w);
        while j > start && v[j - 1] != '\n'
            invariant
                start <= j <= start + take <= v@.len(),
                w == v@.subrange(start as int, start + take),
                last_nl(w) == last_nl(w.take(j - start)),
            decreases j,
        {
            assert(w.take(j - start).drop_last() =~= w.take(j - start - 1));
            j = j - 1;
        }
        if j > start {
            let nl = j - 1 - start;
            assert(w.take(j - start).last() == '\n');
            assert(last_nl(w) == Some(nl as int));
            if take - nl - 1 <= LINE_SNAP_BACKOFF_CHARS as usize {
                take = nl;
            }
        } else {
            assert(w.take(0) =~= Seq::<char>::empty());
        }
    }
    take
}

/// The continuation note of a window.
pub open spec fn window_note(start: int, end: int, total: int) -> Seq<char> {
    if start > 0 || end < total {
        if end < total {
            "\n\n[Showing chars "@ + dec((start + 1) as nat) + "-"@ + dec(end as nat) + " of "@
                + dec(total as nat) + ". Use start_char: "@ + dec(end as nat)
                + " to continue reading.]"@
        } else {
            "\n\n[Showing chars "@ + dec((start + 1) as nat) + "-"@ + dec(end as nat) + " of "@
                + dec(total as nat) + ".]"@
        }
    } else {
        Seq::<char>::empty()
    }
}

fn push_window_note(r: &mut String, start: usize, end: usize, total: usize)
    requires
        start <= end <= total,
        start < total,
    ensures
        final(r)@ == old(r)@ + window_note(start as int, end as int, total as int),
{
    if start > 0 || end < total {
        push_str(r, "\n\n[Showing chars ");
        push_dec(r, (start + 1) as u64);
        push_str(r, "-");
        push_dec(r, end as u64);
        push_str(r, " of ");
        push_dec(r, total as u64);
        if end < total {
            push_str(r, ". Use start_char: ");
            push_dec(r, end as u64);
            push_str(r, " to continue reading.]");
        } else {
            push_str(r, ".]");
        }
    }
    assert(final(r)@ =~= old(r)@ + window_note(start as int, end as int, total as int));
}

/// Windows `text` by characters (not bytes).
#[verifier::rlimit(40)]
pub fn apply_char_window(
    text: &str,
    start_char: Option<u32>,
    max_chars: Option<u32>,
    download_truncated: bool,
) -> (r: String)
    ensures
        r@ == char_window(text@, start_char, max_chars, download_truncated),
{
    let v = chars_of(text);
    let max: usize = match max_chars {
        Some(m) => if m < 1 {
            1
        } else if m > MAX_CHARS_LIMIT {
            MAX_CHARS_LIMIT as usize
        } else {
            m as usize
        },
        None => DEFAULT_MAX_CHARS as usize,
    };
    assert(max as int == window_size(max_chars));
    let total = v.len();
    let start0: usize = match start_char {
        Some(s) => s as usize,
        None => 0,
    };
    let start = if start0 < total {
        start0
    } else {
        total
    };
    if start >= total {
        let mut r = String::from_str("[start_char ");
        push_dec(&mut r, start as u64);
        push_str(&mut r, " is at or beyond the end of the content (");
        push_dec(&mut r, total as u64);
        push_str(&mut r, " chars). Nothing to return.]");
        return r;
    }
    let take = window_take_exec(&v, start, max);
    let end = start + take;
    let mut r = String::new();
    if download_truncated {
        push_str(
            &mut r,
            "[Note: the response body exceeded the 10MB download limit; only its beginning is reflected below.]\n\n",
        );
    }
    let ghost prefix = r@;
    let win = slice_chars(&v, start, end);
    push_chars(&mut r, win.as_slice());
    let ghost mid = r@;
    push_window_note(&mut r, start, end, total);
    proof {
        assert(prefix == (if download_truncated {
            truncation_note()
        } else {
            Seq::<char>::empty()
        }));
        assert(mid == prefix + v@.subrange(start as int, end as int));
        assert(r@ == prefix + v@.subrange(start as int, end as int) + window_note(
            start as int,
            end as int,
            total as int,
        ));
    }
    assert(r@ =~= char_window(text@, start_char, max_chars, download_truncated));
    r
}

/// The page text by Content-Type: `text/plain` as is, `application/json`
/// pretty-printed in a fenced block, anything else converted from HTML to
/// Markdown; or the error for the model.
pub open spec fn typed_text(text: Seq<char>, content_type: Option<Seq<char>>, download_truncated: bool) -> Result<
    Seq<char>,
    Seq<char>,
> {
    match content_type {
        None => Err("missing Content-Type header"@),
        Some(ct) => if ct.len() >= 10 && ct.take(10) == "text/plain"@ {
            Ok(text)
        } else if ct.len() >= 16 && ct.take(16) == "application/json"@ {
            let (kind, out) = json_pretty_outcome(text);
            if kind == 0 {
                Ok("```json\n"@ + out + "\n```"@)
            } else if kind == 2 {
                Err("failed to format JSON: "@ + out)
            } else if download_truncated {
                Err(
                    "failed to parse JSON: the response exceeded the 10MB download limit and is incomplete"@,
                )
            } else {
                Err("failed to parse JSON response body: "@ + out)
            }
        } else {
            match html_markdown_of(text) {
                Ok(m) => Ok(m),
                Err(e) => Err("failed to convert HTML to Markdown: "@ + e),
            }
        },
    }
}

/// What the fetch tool answers for a downloaded body: an error for a 4xx
/// status (with the windowed body when there is one), an error for an
/// empty page, else the window.
pub open spec fn fetch_answer(
    text: Seq<char>,
    content_type: Option<Seq<char>>,
    download_truncated: bool,
    client_error: bool,
    status: Seq<char>,
    start_char: Option<u32>,
    max_chars: Option<u32>,
) -> Result<Seq<char>, Seq<char>> {
    match typed_text(text, content_type, download_truncated) {
        Err(e) => Err(e),
        Ok(t) => if client_error {
            if trim(t).len() == 0 {
                Err("status error "@ + status)
            } else {
                Err("status error "@ + status + ", response:\n\n"@ + char_window(
                    t,
                    start_char,
                    max_chars,
                    download_truncated,
                ))
            }
        } else if trim(t).len() == 0 {
            Err("no textual content found"@)
        } else {
            Ok(char_window(t, start_char, max_chars, download_truncated))
        },
    }
}

fn typed_body(text: String, content_type: Option<&str>, download_truncated: bool) -> (r: Result<
    String,
    String,
>)
    ensures
        match r {
            Ok(t) => typed_text(
                text@,
                match content_type {
                    Some(c) => Some(c@),
                    None => None,
                },
                download_truncated,
            ) == Ok::<Seq<char>, Seq<char>>(t@),
            Err(e) => typed_text(
                text@,
                match content_type {
                    Some(c) => Some(c@),
                    None => None,
                },
                download_truncated,
            ) == Err::<Seq<char>, Seq<char>>(e@),
        },
{
    let ct = match content_type {
        Some(c) => c,
        None => {
            return Err(String::from_str("missing Content-Type header"));
        },
    };
    let cv = chars_of(ct);
    let plain = chars_of("text/plain");
    let json = chars_of("application/json");
    proof {
        reveal_strlit("text/plain");
        reveal_strlit("application/json");
    }
    if starts_with_chars(cv.as_slice(), plain.as_slice()) {
        Ok(text)
    } else if starts_with_chars(cv.as_slice(), json.as_slice()) {
        let (kind, out) = json_pretty(text.as_str());
        if kind == 0 {
            let mut s = String::from_str("```json\n");
            push_str(&mut s, out.as_str());
            push_str(&mut s, "\n```");
            Ok(s)
        } else if kind == 2 {
            let mut s = String::from_str("failed to format JSON: ");
            push_str(&mut s, out.as_str());
            Err(s)
        } else if download_truncated {
            Err(
                String::from_str(
                    "failed to parse JSON: the response exceeded the 10MB download limit and is incomplete",
                ),
            )
        } else {
            let mut s = String::from_str("failed to parse JSON response body: ");
            push_str(&mut s, out.as_str());
            Err(s)
        }
    } else {
        match markdown_from_html(text.as_str()) {
            Ok(m) => Ok(m),
            Err(e) => {
                let mut s = String::from_str("failed to convert HTML to Markdown: ");
                push_str(&mut s, e.as_str());
                Err(s)
            },
        }
    }
}

/// Turns a downloaded body into the tool's answer (see `fetch_answer`).
pub fn fetch_result(
    text: String,
    content_type: Option<&str>,
    download_truncated: bool,
    client_error: bool,
    status: &str,
    start_char: Option<u32>,
    max_chars: Option<u32>,
) -> (r: Result<String, String>)
    ensures
        match r {
            Ok(t) => fetch_answer(
                text@,
                match content_type {
                    Some(c) => Some(c@),
                    None => None,
                },
                download_truncated,
                client_error,
                status@,
                start_char,
                max_chars,
            ) == Ok::<Seq<char>, Seq<char>>(t@),
            Err(e) => fetch_answer(
                text@,
                match content_type {
                    Some(c) => Some(c@),
                    None => None,
                },
                download_truncated,
                client_error,
                status@,
                start_char,
                max_chars,
            ) == Err::<Seq<char>, Seq<char>>(e@),
        },
{
    let t = match typed_body(text, content_type, download_truncated) {
        Ok(t) => t,
        Err(e) => {
            return Err(e);
        },
    };
    let tv = chars_of(t.as_str());
    let blank = trim_chars(&tv).len() == 0;
    if client_error {
        let mut s = String::from_str("status error ");
        push_str(&mut s, status);
        if blank {
            return Err(s);
        }
        push_str(&mut s, ", response:\n\n");
        let w = apply_char_window(t.as_str(), start_char, max_chars, download_truncated);
        push_str(&mut s, w.as_str());
        return Err(s);
    }
    if blank {
        return Err(String::from_str("no textual content found"));
    }
    Ok(apply_char_window(t.as_str(), start_char, max_chars, download_truncated))
}

// ---------------------------------------------------------------------------
// The response body
// ---------------------------------------------------------------------------

/// How much of a new chunk fits under `MAX_RESPONSE_BYTES`: `None` when
/// all of it does; otherwise the number of its bytes to keep, after which
/// the download stops as truncated.
pub fn chunk_room(body_len: usize, chunk_len: usize) -> (r: Option<usize>)
    requires
        body_len <= MAX_RESPONSE_BYTES,
    ensures
        body_len + chunk_len > MAX_RESPONSE_BYTES ==> r == Some((MAX_RESPONSE_BYTES - body_len) as usize),
        body_len + chunk_len <= MAX_RESPONSE_BYTES ==> r is None,
{
    if chunk_len > MAX_RESPONSE_BYTES - body_len {
        Some(MAX_RESPONSE_BYTES - body_len)
    } else {
        None
    }
}

/// The body as text: the UTF-8 text when it is valid; for a truncated
/// download, its longest valid prefix (the cut may have split the last
/// character); otherwise the lossy conversion.
pub fn decode_body(body: &[u8], truncated: bool) -> (text: String)
    ensures
        (exists|c: Seq<char>| encode_utf8(c) == body@) ==> encode_utf8(text@) == body@,
        !(exists|c: Seq<char>| encode_utf8(c) == body@) && truncated ==> exists|n: int|
            max_valid_prefix(body@, n) && encode_utf8(text@) == body@.take(n),
        !(exists|c: Seq<char>| encode_utf8(c) == body@) && !truncated ==> text@ == lossy_utf8(body@),
{
    match utf8_text(body) {
        Some(t) => t,
        None => {
            if truncated {
                let n = utf8_valid_up_to(body);
                let mut prefix: Vec<u8> = Vec::new();
                let mut i: usize = 0;
                while i < n
                    invariant
                        i <= n <= body@.len(),
                        prefix@ == body@.take(i as int),
                    decreases n - i,
                {
                    prefix.push(body[i]);
                    i = i + 1;
                    assert(prefix@ =~= body@.take(i as int));
                }
                let t = utf8_lossy(prefix.as_slice());
                proof {
                    let c = choose|c: Seq<char>| encode_utf8(c) == body@.take(n as int);
                    assert(encode_utf8(c) == prefix@);
                }
                t
            } else {
                utf8_lossy(body)
            }
        },
    }
}

} // verus!
