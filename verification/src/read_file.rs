//! The read_file tool's text logic: sensitive-path patterns, line-range
//! selection, the output budget and the numbered rendering.

use vstd::prelude::*;
use crate::remote_fs::Fingerprint;
use crate::text::{
    char_width, chars_of, dec, dec_string, lemma_split_on_nonempty, lemma_utf8_len_add,
    lemma_utf8_len_push, lemma_utf8_len_single, push_chars, push_dec, push_str, slice_chars,
    split_chars, split_on, str_byte_len, string_of, string_views, utf8_len,
};

verus! {

/// Default sensitive glob patterns: reading a matching file needs approval,
/// writing or editing one always does.
pub open spec fn default_sensitive_patterns_spec() -> Seq<Seq<char>> {
    seq![
        "**/.ssh/id_*"@,
        "**/.ssh/*.pem"@,
        "**/.aws/credentials"@,
        "**/.aws/config"@,
        "**/.env"@,
        "**/.env.*"@,
        "**/*.pem"@,
        "**/*.key"@,
        "**/.gnupg/**"@,
        "**/shadow"@,
    ]
}

/// The default sensitive glob patterns.
pub fn default_sensitive_patterns() -> (r: Vec<String>)
    ensures
        string_views(r@) == default_sensitive_patterns_spec(),
{
    let r = vec![
        String::from_str("**/.ssh/id_*"),
        String::from_str("**/.ssh/*.pem"),
        String::from_str("**/.aws/credentials"),
        String::from_str("**/.aws/config"),
        String::from_str("**/.env"),
        String::from_str("**/.env.*"),
        String::from_str("**/*.pem"),
        String::from_str("**/*.key"),
        String::from_str("**/.gnupg/**"),
        String::from_str("**/shadow"),
    ];
    assert(string_views(r@) =~= default_sensitive_patterns_spec());
    r
}

/// The sensitive patterns in force: the configured list (the string
/// entries of the tool's `sensitive_patterns` option) when there is one,
/// else the defaults.
pub fn sensitive_patterns(configured: Option<&Vec<String>>) -> (r: Vec<String>)
    ensures
        string_views(r@) == (match configured {
            Some(v) => string_views(v@),
            None => default_sensitive_patterns_spec(),
        }),
{
    match configured {
        Some(v) => {
            let mut r: Vec<String> = Vec::new();
            let mut i: usize = 0;
            while i < v.len()
                invariant
                    i <= v.len(),
                    string_views(r@) == string_views(v@.take(i as int)),
                decreases v.len() - i,
            {
                let ghost prev = r@;
                let s = String::from_str(v[i].as_str());
                r.push(s);
                i = i + 1;
                proof {
                    assert(string_views(r@) =~= string_views(prev).push(v@[i - 1]@));
                    assert(string_views(v@.take(i as int)) =~= string_views(v@.take(i - 1)).push(
                        v@[i - 1]@,
                    ));
                }
            }
            assert(v@.take(v.len() as int) =~= v@);
            r
        },
        None => default_sensitive_patterns(),
    }
}

/// Default cap on the bytes of one read.
pub const DEFAULT_MAX_OUTPUT_BYTES: usize = 16384;

/// Default cap on the lines of one read.
pub const DEFAULT_MAX_OUTPUT_LINES: usize = 2000;

/// Default lifetime of a read-cache entry, in seconds.
pub const DEFAULT_CACHE_TTL_SECONDS: u64 = 600;

/// Longest line shown in full, in characters.
pub const MAX_LINE_CHARS: usize = 2000;

/// The read_file tool's arguments.
pub struct ReadFileInput {
    /// Absolute path of the file on the remote host.
    pub path: String,
    /// First line to read (1-based).
    pub start_line: Option<u32>,
    /// Last line to read (1-based, inclusive).
    pub end_line: Option<u32>,
}

/// The read_file tool.
pub struct ReadFileTool;

impl ReadFileTool {
    pub fn name(&self) -> (s: &'static str)
        ensures
            s@ == "read_file"@,
    {
        "read_file"
    }

    pub fn default_requires_approval(&self) -> (b: bool)
        ensures
            !b,
    {
        false
    }
}

/// Why a stat result rules the read out, if it does.
pub open spec fn stat_rejection_text(path: Seq<char>, is_dir: bool, size: u64) -> Option<Seq<char>> {
    if is_dir {
        Some(path
            + " is a directory, not a file. Use the list_directory tool to explore directory contents."@)
    } else if size > crate::remote_fs::AGENT_READ_MAX {
        Some("File is too large to read directly ("@ + dec(size as nat)
            + " bytes). Use the terminal tool to inspect it, e.g. `grep`, or read specific line ranges if you know them."@)
    } else {
        None
    }
}

/// Refuses directories and files over the read cap.
pub fn stat_rejection(path: &str, is_dir: bool, size: u64) -> (r: Option<String>)
    ensures
        match r {
            Some(m) => stat_rejection_text(path@, is_dir, size) == Some(m@),
            None => stat_rejection_text(path@, is_dir, size) is None,
        },
{
    if is_dir {
        let mut m = String::from_str(path);
        push_str(
            &mut m,
            " is a directory, not a file. Use the list_directory tool to explore directory contents.",
        );
        Some(m)
    } else if size > crate::remote_fs::AGENT_READ_MAX {
        let mut m = String::from_str("File is too large to read directly (");
        push_dec(&mut m, size);
        push_str(
            &mut m,
            " bytes). Use the terminal tool to inspect it, e.g. `grep`, or read specific line ranges if you know them.",
        );
        Some(m)
    } else {
        None
    }
}

/// A cached read is used when caching is on, the file's fingerprint is
/// unchanged and the entry is younger than the TTL.
pub fn cache_fresh(ttl_secs: u64, cached: Fingerprint, current: Fingerprint, age_secs: u64) -> (b:
    bool)
    ensures
        b == (ttl_secs > 0 && cached == current && age_secs < ttl_secs),
{
    ttl_secs > 0 && cached == current && age_secs < ttl_secs
}

// ---------------------------------------------------------------------------
// Rendering
// ---------------------------------------------------------------------------

/// Bytes of the lines with one line break each.
pub open spec fn bytes_with_breaks(ls: Seq<Seq<char>>) -> nat
    decreases ls.len(),
{
    if ls.len() == 0 {
        0
    } else {
        bytes_with_breaks(ls.drop_last()) + utf8_len(ls.last()) + 1
    }
}

proof fn lemma_bytes_with_breaks_add(a: Seq<Seq<char>>, b: Seq<Seq<char>>)
    ensures
        bytes_with_breaks(a + b) == bytes_with_breaks(a) + bytes_with_breaks(b),
    decreases b.len(),
{
    if b.len() == 0 {
        assert(a + b =~= a);
    } else {
        lemma_bytes_with_breaks_add(a, b.drop_last());
        assert((a + b).drop_last() =~= a + b.drop_last());
    }
}

proof fn lemma_split_bytes(s: Seq<char>)
    ensures
        bytes_with_breaks(split_on(s, '\n')) == utf8_len(s) + 1,
    decreases s.len(),
{
    lemma_split_on_nonempty(s, '\n');
    if s.len() == 0 {
        assert(utf8_len(s) == 0) by {
            assert(vstd::utf8::encode_utf8(s) =~= Seq::<u8>::empty());
        }
        let one = split_on(s, '\n');
        assert(one == seq![Seq::<char>::empty()]);
        assert(one.drop_last() =~= Seq::<Seq<char>>::empty());
        assert(utf8_len(one.last()) == 0) by {
            assert(vstd::utf8::encode_utf8(one.last()) =~= Seq::<u8>::empty());
        }
        assert(bytes_with_breaks(one) == bytes_with_breaks(one.drop_last()) + utf8_len(one.last()) + 1);
    } else {
        let p = s.drop_last();
        lemma_split_bytes(p);
        lemma_split_on_nonempty(p, '\n');
        assert(s =~= p.push(s.last()));
        lemma_utf8_len_push(p, s.last());
        let prev = split_on(p, '\n');
        let cur = split_on(s, '\n');
        assert(s.drop_last() == p);
        if s.last() == '\n' {
            lemma_utf8_len_single('\n');
            assert(cur == prev.push(Seq::<char>::empty()));
            assert(cur.drop_last() =~= prev);
            assert(utf8_len(Seq::<char>::empty()) == 0) by {
                assert(vstd::utf8::encode_utf8(Seq::<char>::empty()) =~= Seq::<u8>::empty());
            }
            assert(bytes_with_breaks(cur) == bytes_with_breaks(prev) + 1);
        } else {
            assert(cur == prev.update(prev.len() - 1, prev.last().push(s.last())));
            assert(cur.drop_last() =~= prev.drop_last());
            assert(cur.last() == prev.last().push(s.last()));
            lemma_utf8_len_push(prev.last(), s.last());
            assert(bytes_with_breaks(cur) == bytes_with_breaks(cur.drop_last()) + utf8_len(cur.last()) + 1);
            assert(bytes_with_breaks(prev) == bytes_with_breaks(prev.drop_last()) + utf8_len(prev.last()) + 1);
        }
    }
}

proof fn lemma_sub_bytes(ls: Seq<Seq<char>>, a: int, b: int)
    requires
        0 <= a <= b <= ls.len(),
    ensures
        bytes_with_breaks(ls.subrange(a, b)) <= bytes_with_breaks(ls),
{
    lemma_bytes_with_breaks_add(ls.take(a), ls.subrange(a, b));
    lemma_bytes_with_breaks_add(ls.take(a) + ls.subrange(a, b), ls.skip(b));
    assert(ls.take(a) + ls.subrange(a, b) + ls.skip(b) =~= ls);
}

/// `format!("{:>6}", n)`: the number right-aligned in six columns.
pub open spec fn pad6(n: nat) -> Seq<char> {
    let d = dec(n);
    if d.len() < 6 {
        Seq::new((6 - d.len()) as nat, |i: int| ' ') + d
    } else {
        d
    }
}

/// One rendered line: number, tab, content (lines over 2000 characters
/// are cut with a note of their byte length), line break.
pub open spec fn render_line(lineno: nat, line: Seq<char>) -> Seq<char> {
    pad6(lineno) + seq!['\t'] + (if line.len() > MAX_LINE_CHARS {
        line.take(MAX_LINE_CHARS as int) + " [... line truncated, "@ + dec(utf8_len(line))
            + " bytes total]"@
    } else {
        line
    }) + seq!['\n']
}

/// The rendering of `ls`, numbered from `first`.
pub open spec fn render_from(first: nat, ls: Seq<Seq<char>>) -> Seq<char>
    decreases ls.len(),
{
    if ls.len() == 0 {
        Seq::<char>::empty()
    } else {
        render_from(first, ls.drop_last()) + render_line((first + ls.len() - 1) as nat, ls.last())
    }
}

/// The lines a read selects: from `start_line` (at least 1) through
/// `end_line` (at least the start line), clipped to the file.
pub open spec fn selected_range(total: nat, start_line: Option<u32>, end_line: Option<u32>) -> (
    int,
    int,
) {
    let start: int = match start_line {
        Some(s) => if s < 1 {
            1
        } else {
            s as int
        },
        None => 1,
    };
    let end0: int = match end_line {
        Some(e) => e as int,
        None => u32::MAX as int,
    };
    let end = if end0 < start {
        start
    } else {
        end0
    };
    let sel_start = start - 1;
    let sel_end = if end < total {
        end
    } else {
        total as int
    };
    if sel_start >= total {
        (total as int, total as int)
    } else {
        (sel_start, if sel_end < sel_start {
            sel_start
        } else {
            sel_end
        })
    }
}

/// The budget error text.
pub open spec fn budget_text(
    whole: bool,
    lines: nat,
    bytes: nat,
    over_bytes: bool,
    max_bytes: nat,
    max_lines: nat,
) -> Seq<char> {
    (if whole {
        "File has "@
    } else {
        "The requested range has "@
    }) + dec(lines) + " lines and "@ + dec(bytes) + " bytes, exceeding the "@ + (if over_bytes {
        "byte"@
    } else {
        "line"@
    }) + " limit ("@ + dec(
        if over_bytes {
            max_bytes
        } else {
            max_lines
        },
    ) + (if whole {
        "). Read it in sections with start_line/end_line."@
    } else {
        "). Read a smaller range with start_line/end_line."@
    })
}

/// What read_file returns for a file's text: the selected lines numbered
/// and rendered, or the budget error. Without a range the whole file must
/// fit the budget; with one, the selected lines must. Output is never
/// silently truncated.
pub open spec fn rendered(
    text: Seq<char>,
    start_line: Option<u32>,
    end_line: Option<u32>,
    max_bytes: nat,
    max_lines: nat,
) -> Result<Seq<char>, Seq<char>> {
    let ls = split_on(text, '\n');
    let (a, b) = selected_range(ls.len(), start_line, end_line);
    let sel = ls.subrange(a, b);
    let ranged = start_line is Some || end_line is Some;
    let total_bytes = utf8_len(text);
    let sel_bytes = bytes_with_breaks(sel);
    if !ranged && (ls.len() > max_lines || total_bytes > max_bytes) {
        Err(budget_text(true, ls.len(), total_bytes, total_bytes > max_bytes, max_bytes, max_lines))
    } else if ranged && (sel.len() > max_lines || sel_bytes > max_bytes) {
        Err(budget_text(false, sel.len(), sel_bytes, sel_bytes > max_bytes, max_bytes, max_lines))
    } else {
        Ok(render_from((a + 1) as nat, sel))
    }
}

/// Number of line breaks in `s`.
pub open spec fn line_breaks(s: Seq<char>) -> nat
    decreases s.len(),
{
    if s.len() == 0 {
        0
    } else {
        line_breaks(s.drop_last()) + (if s.last() == '\n' {
            1nat
        } else {
            0nat
        })
    }
}

/// No character of `s` is a line break.
pub open spec fn no_break(s: Seq<char>) -> bool {
    forall|i: int| 0 <= i < s.len() ==> s[i] != '\n'
}

proof fn lemma_breaks_add(x: Seq<char>, y: Seq<char>)
    ensures
        line_breaks(x + y) == line_breaks(x) + line_breaks(y),
    decreases y.len(),
{
    if y.len() > 0 {
        lemma_breaks_add(x, y.drop_last());
        assert((x + y).drop_last() =~= x + y.drop_last());
        assert((x + y).last() == y.last());
    } else {
        assert(x + y =~= x);
    }
}

proof fn lemma_breaks_none(s: Seq<char>)
    requires
        no_break(s),
    ensures
        line_breaks(s) == 0,
    decreases s.len(),
{
    if s.len() > 0 {
        assert(s.last() == s[s.len() - 1]);
        lemma_breaks_none(s.drop_last());
    }
}

proof fn lemma_dec_no_break(n: nat)
    ensures
        no_break(dec(n)),
    decreases n,
{
    if n >= 10 {
        lemma_dec_no_break(n / 10);
        let d = dec(n / 10);
        assert forall|i: int| 0 <= i < dec(n).len() implies dec(n)[i] != '\n' by {
            if i < d.len() {
                assert(dec(n)[i] == d[i]);
            }
        }
    }
}

proof fn lemma_concat_no_break(x: Seq<char>, y: Seq<char>)
    requires
        no_break(x),
        no_break(y),
    ensures
        no_break(x + y),
{
    assert forall|i: int| 0 <= i < (x + y).len() implies (x + y)[i] != '\n' by {
        if i < x.len() {
            assert((x + y)[i] == x[i]);
        } else {
            assert((x + y)[i] == y[i - x.len()]);
        }
    }
}

/// A rendered line holds exactly one line break, at its end.
proof fn lemma_render_line_breaks(n: nat, line: Seq<char>)
    requires
        no_break(line),
    ensures
        line_breaks(render_line(n, line)) == 1,
{
    lemma_dec_no_break(n);
    let d = dec(n);
    let pad = pad6(n);
    if d.len() < 6 {
        let sp = Seq::new((6 - d.len()) as nat, |i: int| ' ');
        assert(no_break(sp));
        lemma_concat_no_break(sp, d);
    }
    assert(no_break(pad));
    assert(no_break(seq!['\t']));
    let body = if line.len() > MAX_LINE_CHARS {
        line.take(MAX_LINE_CHARS as int) + " [... line truncated, "@ + dec(utf8_len(line))
            + " bytes total]"@
    } else {
        line
    };
    if line.len() > MAX_LINE_CHARS {
        reveal_strlit(" [... line truncated, ");
        reveal_strlit(" bytes total]");
        let t = line.take(MAX_LINE_CHARS as int);
        assert(no_break(t));
        let l1 = " [... line truncated, "@;
        let l2 = " bytes total]"@;
        assert(no_break(l1));
        assert(no_break(l2));
        lemma_dec_no_break(utf8_len(line));
        lemma_concat_no_break(t, l1);
        lemma_concat_no_break(t + l1, dec(utf8_len(line)));
        lemma_concat_no_break(t + l1 + dec(utf8_len(line)), l2);
    }
    assert(no_break(body));
    lemma_concat_no_break(pad, seq!['\t']);
    lemma_concat_no_break(pad + seq!['\t'], body);
    let head = pad + seq!['\t'] + body;
    lemma_breaks_none(head);
    lemma_breaks_add(head, seq!['\n']);
    assert(seq!['\n'].drop_last() =~= Seq::<char>::empty());
    assert(line_breaks(Seq::<char>::empty()) == 0);
    assert(line_breaks(seq!['\n']) == 1);
    assert(render_line(n, line) == head + seq!['\n']);
}

/// Rendering `ls` writes one line per entry.
proof fn lemma_render_from_breaks(first: nat, ls: Seq<Seq<char>>)
    requires
        forall|i: int| 0 <= i < ls.len() ==> no_break(#[trigger] ls[i]),
    ensures
        line_breaks(render_from(first, ls)) == ls.len(),
    decreases ls.len(),
{
    if ls.len() > 0 {
        let d = ls.drop_last();
        assert forall|i: int| 0 <= i < d.len() implies no_break(#[trigger] d[i]) by {
            assert(d[i] == ls[i]);
        }
        lemma_render_from_breaks(first, d);
        assert(ls.last() == ls[ls.len() - 1]);
        lemma_render_line_breaks((first + ls.len() - 1) as nat, ls.last());
        lemma_breaks_add(
            render_from(first, d),
            render_line((first + ls.len() - 1) as nat, ls.last()),
        );
    }
}

/// Some run of consecutive lines of `text`, fitting `max_bytes` with one
/// line break each, has as many lines as `shown` has line breaks.
pub open spec fn shows_lines_within(text: Seq<char>, shown: Seq<char>, max_bytes: nat) -> bool {
    exists|a: int, b: int|
        0 <= a <= b <= split_on(text, '\n').len() && #[trigger] bytes_with_breaks(
            split_on(text, '\n').subrange(a, b),
        ) <= max_bytes && line_breaks(shown) == b - a
}

/// The output budget holds for every read that succeeds: the rendering has
/// one line per shown file line and never more than `max_lines` of them;
/// a read without a range shows the whole file, which fits `max_bytes`; a
/// ranged read shows consecutive file lines whose bytes fit `max_bytes`.
pub proof fn lemma_read_within_budget(
    text: Seq<char>,
    start_line: Option<u32>,
    end_line: Option<u32>,
    max_bytes: nat,
    max_lines: nat,
)
    ensures
        rendered(text, start_line, end_line, max_bytes, max_lines) matches Ok(s) ==> line_breaks(s)
            <= max_lines,
        rendered(text, start_line, end_line, max_bytes, max_lines) matches Ok(s) ==> (start_line is None
            && end_line is None ==> utf8_len(text) <= max_bytes && (split_on(text, '\n').len()
            <= u32::MAX ==> line_breaks(s) == split_on(text, '\n').len())),
        rendered(text, start_line, end_line, max_bytes, max_lines) matches Ok(s) ==> (
        start_line is Some || end_line is Some ==> shows_lines_within(text, s, max_bytes)),
{
    let ls = split_on(text, '\n');
    lemma_split_on_nonempty(text, '\n');
    crate::text::lemma_split_on_pieces(text, '\n');
    let (a, b) = selected_range(ls.len(), start_line, end_line);
    let sel = ls.subrange(a, b);
    assert forall|i: int| 0 <= i < sel.len() implies no_break(#[trigger] sel[i]) by {
        assert(sel[i] == ls[a + i]);
    }
    lemma_render_from_breaks((a + 1) as nat, sel);
    if start_line is None && end_line is None && ls.len() <= u32::MAX {
        assert(a == 0 && b == ls.len());
        assert(sel =~= ls);
    }
    if rendered(text, start_line, end_line, max_bytes, max_lines) is Ok {
        if start_line is Some || end_line is Some {
            assert(bytes_with_breaks(ls.subrange(a, b)) <= max_bytes);
            assert(shows_lines_within(text, render_from((a + 1) as nat, sel), max_bytes));
        }
    }
}

/// A read of lines `first..=last` inside the file succeeds exactly when
/// those lines fit the budget (no more than `max_lines` lines, no more than
/// `max_bytes` bytes with their line breaks), and then shows each of them
/// once; a read without a range succeeds exactly when the whole file fits,
/// and then shows every line.
pub proof fn lemma_read_budget_decides(
    text: Seq<char>,
    first: u32,
    last: u32,
    max_bytes: nat,
    max_lines: nat,
)
    ensures
        1 <= first <= last <= split_on(text, '\n').len() ==> ({
            let count = last - first + 1;
            let fits = count <= max_lines && bytes_with_breaks(
                split_on(text, '\n').subrange(first - 1, last as int),
            ) <= max_bytes;
            &&& (rendered(text, Some(first), Some(last), max_bytes, max_lines) is Ok <==> fits)
            &&& (rendered(text, Some(first), Some(last), max_bytes, max_lines) matches Ok(s)
                ==> line_breaks(s) == count)
        }),
        split_on(text, '\n').len() <= u32::MAX ==> ({
            let fits = split_on(text, '\n').len() <= max_lines && utf8_len(text) <= max_bytes;
            &&& (rendered(text, None, None, max_bytes, max_lines) is Ok <==> fits)
            &&& (rendered(text, None, None, max_bytes, max_lines) matches Ok(s) ==> line_breaks(s)
                == split_on(text, '\n').len())
        }),
{
    let ls = split_on(text, '\n');
    lemma_split_on_nonempty(text, '\n');
    crate::text::lemma_split_on_pieces(text, '\n');
    lemma_read_within_budget(text, None, None, max_bytes, max_lines);
    if 1 <= first <= last <= ls.len() {
        let (a, b) = selected_range(ls.len(), Some(first), Some(last));
        assert(a == first - 1 && b == last);
        let sel = ls.subrange(a, b);
        assert forall|i: int| 0 <= i < sel.len() implies no_break(#[trigger] sel[i]) by {
            assert(sel[i] == ls[a + i]);
        }
        lemma_render_from_breaks((a + 1) as nat, sel);
    }
}

fn push_pad6(out: &mut String, n: usize)
    ensures
        final(out)@ == old(out)@ + pad6(n as nat),
{
    let d = dec_string(n as u64);
    let dv = chars_of(d.as_str());
    if dv.len() < 6 {
        let k = 6 - dv.len();
        let mut i: usize = 0;
        while i < k
            invariant
                i <= k,
                out@ == old(out)@ + Seq::new(i as nat, |j: int| ' '),
            decreases k - i,
        {
            out.push(' ');
            i = i + 1;
            assert(out@ =~= old(out)@ + Seq::new(i as nat, |j: int| ' '));
        }
    }
    push_chars(out, dv.as_slice());
    assert(final(out)@ =~= old(out)@ + pad6(n as nat));
}

fn push_rendered_line(out: &mut String, lineno: usize, line: &Vec<char>)
    ensures
        final(out)@ == old(out)@ + render_line(lineno as nat, line@),
{
    push_pad6(out, lineno);
    out.push('\t');
    if line.len() > MAX_LINE_CHARS {
        let head = slice_chars(line, 0, MAX_LINE_CHARS);
        push_chars(out, head.as_slice());
        push_str(out, " [... line truncated, ");
        let ls = string_of(line.as_slice());
        let n = str_byte_len(ls.as_str());
        push_dec(out, n as u64);
        push_str(out, " bytes total]");
    } else {
        push_chars(out, line.as_slice());
    }
    out.push('\n');
    assert(final(out)@ =~= old(out)@ + render_line(lineno as nat, line@));
}

#[verifier::spinoff_prover]
#[verifier::rlimit(30)]
fn push_budget(
    out: &mut String,
    whole: bool,
    lines: usize,
    bytes: usize,
    over_bytes: bool,
    max_bytes: usize,
    max_lines: usize,
)
    ensures
        final(out)@ == old(out)@ + budget_text(
            whole,
            lines as nat,
            bytes as nat,
            over_bytes,
            max_bytes as nat,
            max_lines as nat,
        ),
{
    if whole {
        push_str(out, "File has ");
    } else {
        push_str(out, "The requested range has ");
    }
    push_dec(out, lines as u64);
    push_str(out, " lines and ");
    push_dec(out, bytes as u64);
    push_str(out, " bytes, exceeding the ");
    if over_bytes {
        push_str(out, "byte");
    } else {
        push_str(out, "line");
    }
    push_str(out, " limit (");
    if over_bytes {
        push_dec(out, max_bytes as u64);
    } else {
        push_dec(out, max_lines as u64);
    }
    if whole {
        push_str(out, "). Read it in sections with start_line/end_line.");
    } else {
        push_str(out, "). Read a smaller range with start_line/end_line.");
    }
    assert(final(out)@ =~= old(out)@ + budget_text(
        whole,
        lines as nat,
        bytes as nat,
        over_bytes,
        max_bytes as nat,
        max_lines as nat,
    ));
}

/// Selects, checks against the output budget and renders a file's text
/// with line numbers (`{:>6}\t` + line).
pub fn render_lines(
    text: &str,
    start_line: Option<u32>,
    end_line: Option<u32>,
    max_bytes: usize,
    max_lines: usize,
) -> (r: Result<String, String>)
    requires
        utf8_len(text@) < usize::MAX,
    ensures
        match r {
            Ok(s) => rendered(text@, start_line, end_line, max_bytes as nat, max_lines as nat)
                == Ok::<Seq<char>, Seq<char>>(s@),
            Err(e) => rendered(text@, start_line, end_line, max_bytes as nat, max_lines as nat)
                == Err::<Seq<char>, Seq<char>>(e@),
        },
{
    let v = chars_of(text);
    let ls = split_chars(&v, '\n');
    let ghost lv = split_on(text@, '\n');
    proof {
        lemma_split_bytes(text@);
        lemma_split_on_nonempty(text@, '\n');
    }
    let total_lines = ls.len();
    let total_bytes = str_byte_len(text);
    let start: u32 = match start_line {
        Some(s) => if s < 1 {
            1
        } else {
            s
        },
        None => 1,
    };
    let end0: u32 = match end_line {
        Some(e) => e,
        None => 0xffff_ffffu32,
    };
    let end: u32 = if end0 < start {
        start
    } else {
        end0
    };
    let ranged = start_line.is_some() || end_line.is_some();
    let sel_start0 = (start - 1) as usize;
    let sel_end0: usize = if (end as usize) < total_lines {
        end as usize
    } else {
        total_lines
    };
    let (a, b) = if sel_start0 >= total_lines {
        (total_lines, total_lines)
    } else {
        (sel_start0, if sel_end0 < sel_start0 {
            sel_start0
        } else {
            sel_end0
        })
    };
    assert((a as int, b as int) == selected_range(lv.len(), start_line, end_line));
    let mut sel_bytes: usize = 0;
    let mut i = a;
    proof {
        lemma_sub_bytes(lv, a as int, b as int);
        assert(lv.subrange(a as int, a as int) =~= Seq::<Seq<char>>::empty());
    }
    while i < b
        invariant
            a <= i <= b <= lv.len(),
            lv.len() == ls@.len(),
            forall|k: int| 0 <= k < ls@.len() ==> #[trigger] ls@[k]@ == lv[k],
            sel_bytes == bytes_with_breaks(lv.subrange(a as int, i as int)),
            bytes_with_breaks(lv.subrange(a as int, b as int)) <= utf8_len(text@) + 1,
            utf8_len(text@) < usize::MAX,
        decreases b - i,
    {
        proof {
            assert(lv.subrange(a as int, i + 1).drop_last() =~= lv.subrange(a as int, i as int));
            lemma_sub_bytes(lv.subrange(a as int, b as int), 0, i + 1 - a);
            assert(lv.subrange(a as int, b as int).subrange(0, i + 1 - a) =~= lv.subrange(
                a as int,
                i + 1,
            ));
        }
        let ls_i = string_of(ls[i].as_slice());
        let n = str_byte_len(ls_i.as_str());
        sel_bytes = sel_bytes + n + 1;
        i = i + 1;
    }
    let sel_len = b - a;
    let mut msg = String::new();
    if !ranged {
        let over_lines = total_lines > max_lines;
        let over_bytes = total_bytes > max_bytes;
        if over_lines || over_bytes {
            push_budget(&mut msg, true, total_lines, total_bytes, over_bytes, max_bytes, max_lines);
            return Err(msg);
        }
    } else if sel_len > max_lines || sel_bytes > max_bytes {
        push_budget(&mut msg, false, sel_len, sel_bytes, sel_bytes > max_bytes, max_bytes, max_lines);
        return Err(msg);
    }
    let mut out = String::new();
    let mut j = a;
    assert(out@ =~= render_from((a + 1) as nat, lv.subrange(a as int, a as int)));
    while j < b
        invariant
            a <= j <= b <= lv.len(),
            lv.len() == ls@.len(),
            forall|k: int| 0 <= k < ls@.len() ==> #[trigger] ls@[k]@ == lv[k],
            out@ == render_from((a + 1) as nat, lv.subrange(a as int, j as int)),
        decreases b - j,
    {
        push_rendered_line(&mut out, j + 1, &ls[j]);
        j = j + 1;
        proof {
            let t = lv.subrange(a as int, j as int);
            assert(t.drop_last() =~= lv.subrange(a as int, j - 1));
            assert(t.last() == lv[j - 1]);
        }
    }
    Ok(out)
}

} // verus!
