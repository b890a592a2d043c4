//! The terminal tool's text logic: wrapping the model's command for the
//! remote shell, windowing and capping the captured output, and the text
//! that goes back to the model.

use vstd::prelude::*;
use crate::text::{
    append_chars, char_utf8_len, char_views, char_width, chars_of, dec, join_seq, join_vecs,
    lemma_utf8_len_add, lemma_utf8_len_push, lemma_utf8_len_single, push_chars, push_dec,
    push_str, slice_chars, split_chars, split_on, str_byte_len, string_of, string_views, trim,
    trim_chars, utf8_len,
};
use crate::types::{err_text, ToolResult};

verus! {

/// The `shlex::QuoteError` type.
#[verifier::external_type_specification]
#[verifier::external_body]
pub struct ExQuoteError(shlex::QuoteError);

/// Some word holds a NUL character.
pub open spec fn any_has_nul(words: Seq<Seq<char>>) -> bool {
    exists|i: int| 0 <= i < words.len() && #[trigger] words[i].contains('\0')
}

/// What `shlex::try_join` returns when it succeeds on these words.
pub uninterp spec fn shlex_joined(words: Seq<Seq<char>>) -> Seq<char>;

/// Calls `shlex::try_join` on the words. Its source fails (with
/// `QuoteError::Nul`) exactly when a word contains a NUL byte, which in a
/// `str` is exactly the character `'\0'`; the joined text is named
/// `shlex_joined`.
#[verifier::external_body]
fn shlex_try_join(words: &Vec<String>) -> (r: Result<String, shlex::QuoteError>)
    ensures
        r is Err <==> any_has_nul(string_views(words@)),
        r matches Ok(s) ==> s@ == shlex_joined(string_views(words@)),
{
    shlex::try_join(words.iter().map(|w| w.as_str()))
}

/// The display text of a `shlex::QuoteError`; the crate's only variant,
/// `Nul`, displays as this fixed sentence.
#[verifier::external_body]
fn quote_error_text(e: &shlex::QuoteError) -> (s: String)
    ensures
        s@ == "cannot shell-quote string containing nul byte"@,
{
    e.to_string()
}

/// Default PTY width.
pub const DEFAULT_COLS: u32 = 100;

/// Default PTY height.
pub const DEFAULT_ROWS: u32 = 6;

/// Default command timeout in milliseconds.
pub const DEFAULT_TIMEOUT_MS: u64 = 300000;

/// Cap on the output returned to the model, in bytes.
pub const OUTPUT_LIMIT: usize = 16384;

/// The terminal tool's arguments.
pub struct TerminalInput {
    /// The one-liner to run on the remote host.
    pub command: String,
    /// Maximum runtime in milliseconds.
    pub timeout_ms: Option<u64>,
    /// Return only the first N lines.
    pub head_lines: Option<usize>,
    /// Return only the last N lines.
    pub tail_lines: Option<usize>,
}

/// The terminal tool.
pub struct TerminalTool;

impl TerminalTool {
    pub fn name(&self) -> (s: &'static str)
        ensures
            s@ == "terminal"@,
    {
        "terminal"
    }

    pub fn default_requires_approval(&self) -> (b: bool)
        ensures
            b,
    {
        true
    }
}

/// What a terminal call runs: the trimmed command, refused when blank,
/// and the timeout asked for or `DEFAULT_TIMEOUT_MS`.
pub fn terminal_request(input: &TerminalInput) -> (r: Result<(String, u64), ToolResult>)
    ensures
        trim(input.command@).len() == 0 ==> (r matches Err(e) && e.llm_text@
            == "Invalid arguments: command is empty"@ && e.is_error && e.ui_payload is None),
        trim(input.command@).len() > 0 ==> (r matches Ok(p) && p.0@ == trim(input.command@)
            && p.1 == match input.timeout_ms {
            Some(t) => t,
            None => DEFAULT_TIMEOUT_MS,
        }),
{
    let t = trim_chars(&chars_of(input.command.as_str()));
    if t.len() == 0 {
        return Err(err_text(String::from_str("Invalid arguments: command is empty")));
    }
    let timeout = match input.timeout_ms {
        Some(v) => v,
        None => DEFAULT_TIMEOUT_MS,
    };
    Ok((string_of(t.as_slice()), timeout))
}

/// The words of the remote command line: `env 'PAGER=' 'GIT_PAGER=cat'
/// '/bin/sh' '-i' '-c' '(<cmd>\n) </dev/null'`.
pub open spec fn wrap_words(command: Seq<char>) -> Seq<Seq<char>> {
    seq![
        "env"@,
        "PAGER="@,
        "GIT_PAGER=cat"@,
        "/bin/sh"@,
        "-i"@,
        "-c"@,
        seq!['('] + command + "\n) </dev/null"@,
    ]
}

/// Wraps the model's command for a non-interactive remote shell with the
/// pagers disabled and stdin closed. Fails when the command holds a NUL.
pub fn wrap_command(command: &str) -> (r: Result<String, ToolResult>)
    ensures
        match r {
            Ok(s) => !command@.contains('\0') && s@ == shlex_joined(wrap_words(command@)),
            Err(e) => command@.contains('\0') && e.is_error && e.llm_text@
                == "Could not shell-quote the command: cannot shell-quote string containing nul byte"@,
        },
{
    let mut inner = String::new();
    inner.push('(');
    push_str(&mut inner, command);
    push_str(&mut inner, "\n) </dev/null");
    let words = vec![
        String::from_str("env"),
        String::from_str("PAGER="),
        String::from_str("GIT_PAGER=cat"),
        String::from_str("/bin/sh"),
        String::from_str("-i"),
        String::from_str("-c"),
        inner,
    ];
    proof {
        reveal_strlit("env");
        reveal_strlit("PAGER=");
        reveal_strlit("GIT_PAGER=cat");
        reveal_strlit("/bin/sh");
        reveal_strlit("-i");
        reveal_strlit("-c");
        reveal_strlit("\n) </dev/null");
        assert(string_views(words@) =~= wrap_words(command@));
        let w6 = words@[6]@;
        assert(w6 =~= seq!['('] + command@ + "\n) </dev/null"@);
        if command@.contains('\0') {
            let j = choose|j: int| 0 <= j < command@.len() && command@[j] == '\0';
            assert(w6[j + 1] == '\0');
            assert(w6.contains('\0'));
        }
        let wv = string_views(words@);
        if command@.contains('\0') {
            assert(wv[6].contains('\0'));
            assert(any_has_nul(wv));
        }
        assert forall|i: int| 0 <= i < wv.len() && #[trigger] wv[i].contains('\0') implies command@.contains('\0') by {
            let j = choose|j: int| 0 <= j < wv[i].len() && wv[i][j] == '\0';
            if i == 6 {
                assert(1 <= j <= command@.len());
                assert(command@[j - 1] == '\0');
            }
        }
    }
    match shlex_try_join(&words) {
        Ok(s) => Ok(s),
        Err(e) => {
            let mut msg = String::from_str("Could not shell-quote the command: ");
            let t = quote_error_text(&e);
            push_str(&mut msg, t.as_str());
            proof {
                reveal_strlit("Could not shell-quote the command: ");
                reveal_strlit("cannot shell-quote string containing nul byte");
                reveal_strlit(
                    "Could not shell-quote the command: cannot shell-quote string containing nul byte",
                );
                assert(msg@ =~= "Could not shell-quote the command: cannot shell-quote string containing nul byte"@);
            }
            Err(err_text(msg))
        },
    }
}

// ---------------------------------------------------------------------------
// Windowing
// ---------------------------------------------------------------------------

/// A line without its trailing `\r`.
pub open spec fn strip_cr(l: Seq<char>) -> Seq<char> {
    if l.len() > 0 && l.last() == '\r' {
        l.drop_last()
    } else {
        l
    }
}

/// `str::lines`: split at `\n`, a `\r` before the `\n` dropped, no empty
/// line after a final line end.
pub open spec fn lines_of(s: Seq<char>) -> Seq<Seq<char>> {
    let ps = split_on(s, '\n');
    let n = ps.len() as int;
    let ended = ps.take(n - 1).map_values(|p: Seq<char>| strip_cr(p));
    if ps[n - 1].len() > 0 {
        ended.push(ps[n - 1])
    } else {
        ended
    }
}

pub(crate) fn lines_vec(v: &Vec<char>) -> (ls: Vec<Vec<char>>)
    ensures
        char_views(ls@) == lines_of(v@),
{
    let ps = split_chars(v, '\n');
    let ghost pv = split_on(v@, '\n');
    proof {
        crate::text::lemma_split_on_nonempty(v@, '\n');
    }
    let n = ps.len();
    let mut ls: Vec<Vec<char>> = Vec::new();
    let mut i: usize = 0;
    while i + 1 < n
        invariant
            n == ps@.len() == pv.len(),
            n >= 1,
            i <= n - 1,
            forall|k: int| 0 <= k < n ==> #[trigger] ps@[k]@ == pv[k],
            char_views(ls@) == pv.take(i as int).map_values(|p: Seq<char>| strip_cr(p)),
        decreases n - i,
    {
        let p = &ps[i];
        let end = if p.len() > 0 && p[p.len() - 1] == '\r' {
            p.len() - 1
        } else {
            p.len()
        };
        let line = slice_chars(p, 0, end);
        let ghost prev = char_views(ls@);
        ls.push(line);
        i = i + 1;
        proof {
            assert(line@ =~= strip_cr(pv[i - 1]));
            assert(char_views(ls@) =~= prev.push(line@));
            assert(pv.take(i as int).map_values(|p: Seq<char>| strip_cr(p)) =~= pv.take(
                i - 1,
            ).map_values(|p: Seq<char>| strip_cr(p)).push(strip_cr(pv[i - 1])));
        }
    }
    let last = &ps[n - 1];
    if last.len() > 0 {
        let ghost prev = char_views(ls@);
        let c = slice_chars(last, 0, last.len());
        ls.push(c);
        proof {
            assert(c@ =~= pv[n - 1]);
            assert(char_views(ls@) =~= prev.push(c@));
        }
    }
    ls
}

/// `lines[..min(h, len)]`.
pub open spec fn head_of(ls: Seq<Seq<char>>, h: usize) -> Seq<Seq<char>> {
    ls.take(if h < ls.len() {
        h as int
    } else {
        ls.len() as int
    })
}

/// `lines[len.saturating_sub(t)..]`.
pub open spec fn tail_of(ls: Seq<Seq<char>>, t: usize) -> Seq<Seq<char>> {
    ls.skip(if t < ls.len() {
        ls.len() - t
    } else {
        0
    })
}

/// head_lines/tail_lines windowing: the first `h` lines, the last `t`
/// lines, or both separated by a blank line; the whole output when
/// neither is given.
pub open spec fn selected_lines(output: Seq<char>, head: Option<usize>, tail: Option<usize>) -> Seq<
    char,
> {
    let ls = lines_of(output);
    match (head, tail) {
        (Some(h), Some(t)) => join_seq(head_of(ls, h), seq!['\n']) + seq!['\n', '\n'] + join_seq(
            tail_of(ls, t),
            seq!['\n'],
        ),
        (Some(h), None) => join_seq(head_of(ls, h), seq!['\n']),
        (None, Some(t)) => join_seq(tail_of(ls, t), seq!['\n']),
        (None, None) => output,
    }
}

fn sub_vecs(v: &Vec<Vec<char>>, from: usize, to: usize) -> (r: Vec<Vec<char>>)
    requires
        from <= to <= v@.len(),
    ensures
        char_views(r@) == char_views(v@).subrange(from as int, to as int),
{
    let mut r: Vec<Vec<char>> = Vec::new();
    let mut i = from;
    while i < to
        invariant
            from <= i <= to <= v@.len(),
            char_views(r@) == char_views(v@).subrange(from as int, i as int),
        decreases to - i,
    {
        let ghost prev = r@;
        let c = slice_chars(&v[i], 0, v[i].len());
        r.push(c);
        i = i + 1;
        proof {
            assert(c@ =~= v@[i - 1]@);
            assert(char_views(r@) =~= char_views(prev).push(v@[i - 1]@));
            assert(char_views(v@).subrange(from as int, i as int) =~= char_views(v@).subrange(
                from as int,
                i - 1,
            ).push(v@[i - 1]@));
        }
    }
    r
}

/// Applies head_lines/tail_lines windowing to the output.
pub fn select_lines(output: &str, head: Option<usize>, tail: Option<usize>) -> (s: String)
    ensures
        s@ == selected_lines(output@, head, tail),
{
    let v = chars_of(output);
    let ls = lines_vec(&v);
    let n = ls.len();
    let nl = ['\n'];
    assert(seq!['\n'] =~= nl@);
    match (head, tail) {
        (Some(h), Some(t)) => {
            let hn = if h < n {
                h
            } else {
                n
            };
            let tn = if t < n {
                n - t
            } else {
                0
            };
            let hp = join_vecs(&sub_vecs(&ls, 0, hn), &nl);
            let tp = join_vecs(&sub_vecs(&ls, tn, n), &nl);
            let mut out = hp;
            out.push('\n');
            out.push('\n');
            append_chars(&mut out, tp.as_slice());
            proof {
                assert(char_views(ls@).subrange(0, hn as int) =~= head_of(lines_of(v@), h));
                assert(char_views(ls@).subrange(tn as int, n as int) =~= tail_of(lines_of(v@), t));
                assert(out@ =~= selected_lines(output@, head, tail));
            }
            string_of(out.as_slice())
        },
        (Some(h), None) => {
            let hn = if h < n {
                h
            } else {
                n
            };
            let hp = join_vecs(&sub_vecs(&ls, 0, hn), &nl);
            assert(char_views(ls@).subrange(0, hn as int) =~= head_of(lines_of(v@), h));
            string_of(hp.as_slice())
        },
        (None, Some(t)) => {
            let tn = if t < n {
                n - t
            } else {
                0
            };
            let tp = join_vecs(&sub_vecs(&ls, tn, n), &nl);
            assert(char_views(ls@).subrange(tn as int, n as int) =~= tail_of(lines_of(v@), t));
            string_of(tp.as_slice())
        },
        (None, None) => String::from_str(output),
    }
}

// ---------------------------------------------------------------------------
// Byte cap
// ---------------------------------------------------------------------------

/// The number of leading characters whose UTF-8 encoding fits in `limit`
/// bytes.
pub open spec fn fit_chars(s: Seq<char>, limit: nat) -> nat
    decreases s.len(),
{
    if s.len() == 0 || char_width(s[0]) > limit {
        0
    } else {
        1 + fit_chars(s.skip(1), (limit - char_width(s[0])) as nat)
    }
}

proof fn lemma_fit_chars_bound(s: Seq<char>, limit: nat)
    ensures
        fit_chars(s, limit) <= s.len(),
    decreases s.len(),
{
    if s.len() > 0 && char_width(s[0]) <= limit {
        lemma_fit_chars_bound(s.skip(1), (limit - char_width(s[0])) as nat);
    }
}

/// Index of the last `\n`.
pub open spec fn last_newline(s: Seq<char>) -> Option<int>
    decreases s.len(),
{
    if s.len() == 0 {
        None
    } else if s.last() == '\n' {
        Some(s.len() - 1)
    } else {
        last_newline(s.drop_last())
    }
}

proof fn lemma_last_newline_bound(s: Seq<char>)
    ensures
        last_newline(s) matches Some(j) ==> 0 <= j < s.len(),
    decreases s.len(),
{
    if s.len() > 0 && s.last() != '\n' {
        lemma_last_newline_bound(s.drop_last());
    }
}

/// Output over `limit` bytes is cut at the last character boundary within
/// the limit and then back to the last line break before it, if any.
pub open spec fn capped_output(s: Seq<char>, limit: nat) -> Seq<char> {
    if utf8_len(s) > limit {
        let p = s.take(fit_chars(s, limit) as int);
        match last_newline(p) {
            Some(j) => p.take(j),
            None => p,
        }
    } else {
        s
    }
}

/// Caps the content at `limit` bytes (on a character boundary, backed off
/// to a line break); reports whether it was shortened.
pub fn truncate_to_limit(content: &mut String, limit: usize) -> (cut: bool)
    ensures
        final(content)@ == capped_output(old(content)@, limit as nat),
        cut == (utf8_len(old(content)@) > limit),
{
    let total = str_byte_len(content.as_str());
    if total <= limit {
        return false;
    }
    let v = chars_of(content.as_str());
    let mut k: usize = 0;
    let mut acc: usize = 0;
    assert(v@.skip(0) =~= v@);
    assert(v@.take(0) =~= Seq::<char>::empty());
    while k < v.len() && char_utf8_len(v[k]) <= limit - acc
        invariant
            k <= v@.len(),
            acc <= limit,
            acc == utf8_len(v@.take(k as int)),
            fit_chars(v@, limit as nat) == k + fit_chars(v@.skip(k as int), (limit - acc) as nat),
        decreases v@.len() - k,
    {
        let w = char_utf8_len(v[k]);
        proof {
            let t = v@.skip(k as int);
            assert(t[0] == v@[k as int]);
            assert(t.skip(1) =~= v@.skip(k + 1));
            assert(v@.take(k + 1) =~= v@.take(k as int).push(v@[k as int]));
            lemma_utf8_len_push(v@.take(k as int), v@[k as int]);
            lemma_utf8_len_single(v@[k as int]);
        }
        acc = acc + w;
        k = k + 1;
    }
    proof {
        if k < v.len() {
            let t = v@.skip(k as int);
            assert(t[0] == v@[k as int]);
            lemma_utf8_len_single(v@[k as int]);
        } else {
            assert(v@.skip(k as int) =~= Seq::<char>::empty());
        }
        assert(fit_chars(v@, limit as nat) == k);
    }
    let mut end = k;
    let mut j = k;
    let ghost p = v@.take(k as int);
    assert(p.take(k as int) =~= p);
    while j > 0 && v[j - 1] != '\n'
        invariant
            j <= k <= v@.len(),
            p == v@.take(k as int),
            last_newline(p) == last_newline(p.take(j as int)),
        decreases j,
    {
        assert(p.take(j as int).drop_last() =~= p.take(j - 1));
        j = j - 1;
    }
    if j > 0 {
        end = j - 1;
        assert(p.take(j as int).last() == '\n');
    }
    let kept = slice_chars(&v, 0, end);
    proof {
        if j > 0 {
            assert(p.take(end as int) =~= v@.subrange(0, end as int));
        } else {
            assert(p =~= v@.subrange(0, end as int));
        }
    }
    *content = string_of(kept.as_slice());
    true
}

// ---------------------------------------------------------------------------
// Result text
// ---------------------------------------------------------------------------

/// How a command ended.
pub struct CommandOutcome {
    pub exit_code: Option<i32>,
    pub timed_out: bool,
    pub user_stopped: bool,
}

/// Decimal text of a signed number.
pub open spec fn int_dec(n: int) -> Seq<char> {
    if n < 0 {
        seq!['-'] + dec((-n) as nat)
    } else {
        dec(n as nat)
    }
}

fn push_i32(s: &mut String, n: i32)
    ensures
        final(s)@ == old(s)@ + int_dec(n as int),
{
    if n < 0 {
        s.push('-');
        let m: u64 = (-(n as i64)) as u64;
        push_dec(s, m);
        assert(final(s)@ =~= old(s)@ + int_dec(n as int));
    } else {
        push_dec(s, n as u64);
    }
}

/// The fenced output block, with the "too long" preface when it was cut.
pub open spec fn output_block(output: Seq<char>, truncated: bool) -> Seq<char> {
    let t = trim(output);
    let content = if t.len() == 0 {
        Seq::<char>::empty()
    } else {
        "```\n"@ + t + "\n```"@
    };
    if truncated && content.len() > 0 {
        "Command output too long. The first "@ + dec(utf8_len(t)) + " bytes:\n\n"@ + content
    } else {
        content
    }
}

pub open spec fn stopped_hint() -> Seq<char> {
    "Since the user intentionally interrupted this command, ask them what they would like to do next rather than automatically retrying or assuming something went wrong."@
}

/// The text the model gets for a finished command.
pub open spec fn result_text(
    command: Seq<char>,
    output: Seq<char>,
    truncated: bool,
    outcome: CommandOutcome,
) -> Seq<char> {
    let content = output_block(output, truncated);
    if outcome.user_stopped {
        if content.len() == 0 {
            "The user stopped this command. No output was captured before stopping.\n\n"@
                + stopped_hint()
        } else {
            "The user stopped this command. Output captured before stopping:\n\n"@ + content
                + "\n\n"@ + stopped_hint()
        }
    } else if outcome.timed_out {
        if content.len() == 0 {
            "Command \""@ + command + "\" timed out. No output was captured."@
        } else {
            "Command \""@ + command + "\" timed out. Output captured before timeout:\n\n"@
                + content
        }
    } else {
        match outcome.exit_code {
            Some(code) => if code == 0 {
                if content.len() == 0 {
                    "Command executed successfully."@
                } else {
                    content
                }
            } else if content.len() == 0 {
                "Command \""@ + command + "\" failed with exit code "@ + int_dec(code as int)
                    + "."@
            } else {
                "Command \""@ + command + "\" failed with exit code "@ + int_dec(code as int)
                    + ".\n\n"@ + content
            },
            None => if content.len() == 0 {
                "Command terminated unexpectedly. No output was captured."@
            } else {
                "Command terminated unexpectedly. Output captured:\n\n"@ + content
            },
        }
    }
}

fn output_block_exec(output: &str, truncated: bool) -> (s: String)
    ensures
        s@ == output_block(output@, truncated),
{
    let v = chars_of(output);
    let t = trim_chars(&v);
    if t.len() == 0 {
        return String::new();
    }
    let mut content = String::from_str("```\n");
    push_chars(&mut content, t.as_slice());
    push_str(&mut content, "\n```");
    proof {
        reveal_strlit("```\n");
        reveal_strlit("\n```");
    }
    if truncated {
        let mut s = String::from_str("Command output too long. The first ");
        let ts = string_of(t.as_slice());
        let tn = str_byte_len(ts.as_str());
        push_dec(&mut s, tn as u64);
        push_str(&mut s, " bytes:\n\n");
        push_str(&mut s, content.as_str());
        s
    } else {
        content
    }
}

/// Formats the model-facing result of a finished command.
pub fn format_result(command: &str, output: &str, truncated: bool, outcome: &CommandOutcome) -> (s:
    String)
    ensures
        s@ == result_text(command@, output@, truncated, *outcome),
{
    let content = output_block_exec(output, truncated);
    let empty = !crate::text::is_nonempty(content.as_str());
    if outcome.user_stopped {
        if empty {
            let mut s = String::from_str(
                "The user stopped this command. No output was captured before stopping.\n\n",
            );
            push_str(
                &mut s,
                "Since the user intentionally interrupted this command, ask them what they would like to do next rather than automatically retrying or assuming something went wrong.",
            );
            return s;
        }
        let mut s = String::from_str(
            "The user stopped this command. Output captured before stopping:\n\n",
        );
        push_str(&mut s, content.as_str());
        push_str(&mut s, "\n\n");
        push_str(
            &mut s,
            "Since the user intentionally interrupted this command, ask them what they would like to do next rather than automatically retrying or assuming something went wrong.",
        );
        return s;
    }
    if outcome.timed_out {
        let mut s = String::from_str("Command \"");
        push_str(&mut s, command);
        if empty {
            push_str(&mut s, "\" timed out. No output was captured.");
        } else {
            push_str(&mut s, "\" timed out. Output captured before timeout:\n\n");
            push_str(&mut s, content.as_str());
        }
        return s;
    }
    match outcome.exit_code {
        Some(code) => {
            if code == 0 {
                if empty {
                    String::from_str("Command executed successfully.")
                } else {
                    content
                }
            } else {
                let mut s = String::from_str("Command \"");
                push_str(&mut s, command);
                push_str(&mut s, "\" failed with exit code ");
                push_i32(&mut s, code);
                if empty {
                    push_str(&mut s, ".");
                } else {
                    push_str(&mut s, ".\n\n");
                    push_str(&mut s, content.as_str());
                }
                s
            }
        },
        None => {
            if empty {
                String::from_str("Command terminated unexpectedly. No output was captured.")
            } else {
                let mut s = String::from_str("Command terminated unexpectedly. Output captured:\n\n");
                push_str(&mut s, content.as_str());
                s
            }
        },
    }
}

/// A command's result is an error unless it exited with code 0 on its own.
pub open spec fn outcome_is_error(o: CommandOutcome) -> bool {
    o.timed_out || o.user_stopped || o.exit_code != Some(0i32)
}

/// The captured output as returned to the model: windowed when
/// head_lines/tail_lines are given (which bypasses the byte cap), else
/// capped at `OUTPUT_LIMIT` bytes. Also whether it was cut.
pub open spec fn shown_output(raw: Seq<char>, head: Option<usize>, tail: Option<usize>) -> (Seq<
    char,
>, bool) {
    let t = trim(raw);
    if head is Some || tail is Some {
        (selected_lines(t, head, tail), false)
    } else {
        (capped_output(t, OUTPUT_LIMIT as nat), utf8_len(t) > OUTPUT_LIMIT)
    }
}

/// Turns the terminal text captured for a command into the tool result:
/// windowing or capping, then the model-facing text; the error flag is
/// set unless the command exited with code 0 on its own.
pub fn finish_command(command: &str, raw: &str, input_head: Option<usize>, input_tail: Option<usize>, outcome: &CommandOutcome) -> (r: (String, bool, String, bool))
    ensures
        r.0@ == result_text(command@, r.2@, r.3, *outcome),
        r.1 == outcome_is_error(*outcome),
        (r.2@, r.3) == shown_output(raw@, input_head, input_tail),
{
    let rv = chars_of(raw);
    let trimmed = string_of(trim_chars(&rv).as_slice());
    let (selected, truncated) = if input_head.is_some() || input_tail.is_some() {
        (select_lines(trimmed.as_str(), input_head, input_tail), false)
    } else {
        let mut s = trimmed;
        let t = truncate_to_limit(&mut s, OUTPUT_LIMIT);
        (s, t)
    };
    let llm_text = format_result(command, selected.as_str(), truncated, outcome);
    let is_error = outcome.timed_out || outcome.user_stopped || match outcome.exit_code {
        Some(c) => c != 0,
        None => true,
    };
    (llm_text, is_error, selected, truncated)
}

} // verus!
