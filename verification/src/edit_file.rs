//! The edit_file tool's logic: applying old_text/new_text edits in memory,
//! one after another, all or nothing, with fuzzy line matching and a loud
//! rejection of retyped indentation.

use vstd::prelude::*;
use std::ops::Range;
use crate::edit_match::{
    char_index, count_newlines, count_newlines_upto, describe_indent, find_char_index,
    first_line_indent_mismatch, fuzzy_find, fuzzy_matches, indent_description, indent_mismatch,
    is_boundary, leading_indent, lemma_fuzzy_ranges_on_boundaries, lemma_leading_indent_len,
    lemma_split_first_len, lemma_utf8_take_strict,
};
use crate::text::{
    append_chars, chars_of, dec, join_seq, push_chars, push_dec, push_str, slice_chars, split_on,
    str_eq, string_of, utf8_len,
};
use crate::remote_fs::{map_stat_error, stat_error_text, Fingerprint};
use crate::sftp::{RemoteStat, SftpBrowserError};
use crate::types::{err_text, ok_text, ToolResult};
use crate::write_file::invalid_filename;

verus! {

/// One edit: the text to find and its replacement.
pub struct Edit {
    /// Text to find (copied from read_file output, line numbers stripped).
    pub old_text: String,
    /// Replacement text.
    pub new_text: String,
}

/// The edit_file tool's arguments.
pub struct EditFileInput {
    /// Absolute path of the file on the remote host.
    pub path: String,
    /// Edits applied in order, each to the result of the previous one.
    pub edits: Vec<Edit>,
}

/// The edit_file tool.
pub struct EditFileTool;

impl EditFileTool {
    pub fn name(&self) -> (s: &'static str)
        ensures
            s@ == "edit_file"@,
    {
        "edit_file"
    }

    pub fn default_requires_approval(&self) -> (b: bool)
        ensures
            b,
    {
        true
    }
}

/// `buffer` with the characters between two byte offsets replaced.
pub open spec fn replace_bytes(buffer: Seq<char>, start: nat, end: nat, new: Seq<char>) -> Seq<char> {
    buffer.take(char_index(buffer, start)) + new + buffer.skip(char_index(buffer, end))
}

/// The 1-based line on which a byte offset lies.
pub open spec fn line_of(buffer: Seq<char>, b: nat) -> nat {
    count_newlines(buffer.take(char_index(buffer, b))) + 1
}

pub open spec fn not_found_text(i: nat, changed: bool) -> Seq<char> {
    "Could not find matching text for edit at index "@ + dec(i)
        + ". The old_text did not match any content in the file."@ + (if changed {
        " The file has changed on disk since you last read it."@
    } else {
        Seq::<char>::empty()
    }) + " Please read the file again to get the current content."@
}

pub open spec fn indent_text(i: nat, line: nat, file_indent: Seq<char>, old_indent: Seq<char>) -> Seq<
    char,
> {
    "Edit "@ + dec(i) + " was rejected: the matched text at line "@ + dec(line)
        + " is indented differently than your old_text (the file uses "@ + indent_description(
        file_indent,
    ) + ", your old_text uses "@ + indent_description(old_indent)
        + "). Re-read the file and copy the text exactly, including its indentation. No edits were made."@
}

pub open spec fn ambiguous_text(i: nat, lines: Seq<Seq<char>>) -> Seq<char> {
    "Edit "@ + dec(i) + " matched multiple locations in the file at lines: "@ + join_seq(
        lines,
        ", "@,
    ) + ". Please provide more context in old_text to uniquely identify the location."@
}

/// The outcome of edit number `i` on `buffer`: no match is an error (with
/// a hint when the file changed since it was read); exactly one match is
/// replaced unless its first line's indentation differs from old_text's;
/// several matches are an error naming their lines.
pub open spec fn edit_outcome(buffer: Seq<char>, i: nat, old: Seq<char>, new: Seq<char>, changed: bool) -> Result<
    Seq<char>,
    Seq<char>,
> {
    let ms = fuzzy_matches(buffer, old);
    if ms.len() == 0 {
        Err(not_found_text(i, changed))
    } else if ms.len() == 1 {
        match indent_mismatch(buffer, ms[0].0, ms[0].1, old) {
            Some(m) => Err(indent_text(i, m.0, m.1, m.2)),
            None => Ok(replace_bytes(buffer, ms[0].0, ms[0].1, new)),
        }
    } else {
        Err(ambiguous_text(i, ms.map_values(|m: (nat, nat)| dec(line_of(buffer, m.0)))))
    }
}

pub open spec fn edit_pairs(edits: Seq<Edit>) -> Seq<(Seq<char>, Seq<char>)> {
    edits.map_values(|e: Edit| (e.old_text@, e.new_text@))
}

/// The edits applied in order; the first failing edit's error ends it.
pub open spec fn edits_outcome(buffer: Seq<char>, edits: Seq<(Seq<char>, Seq<char>)>, changed: bool) -> Result<
    Seq<char>,
    Seq<char>,
>
    decreases edits.len(),
{
    if edits.len() == 0 {
        Ok(buffer)
    } else {
        match edits_outcome(buffer, edits.drop_last(), changed) {
            Err(e) => Err(e),
            Ok(b) => edit_outcome(b, (edits.len() - 1) as nat, edits.last().0, edits.last().1, changed),
        }
    }
}

/// Sum of the replacement lengths.
pub open spec fn total_new(edits: Seq<(Seq<char>, Seq<char>)>) -> nat
    decreases edits.len(),
{
    if edits.len() == 0 {
        0
    } else {
        total_new(edits.drop_last()) + edits.last().1.len()
    }
}

proof fn lemma_char_index_order(s: Seq<char>, a: nat, b: nat)
    requires
        a <= b,
        is_boundary(s, a),
        is_boundary(s, b),
    ensures
        0 <= char_index(s, a) <= char_index(s, b) <= s.len(),
        utf8_len(s.take(char_index(s, a))) == a,
        utf8_len(s.take(char_index(s, b))) == b,
{
    let ci = char_index(s, a);
    let cj = char_index(s, b);
    if cj < ci {
        lemma_utf8_take_strict(s, cj, ci);
    }
}

fn push_lines_list(out: &mut String, buffer: &Vec<char>, ranges: &Vec<Range<usize>>)
    requires
        buffer@.len() < u32::MAX,
        forall|k: int|
            0 <= k < ranges@.len() ==> is_boundary(buffer@, (#[trigger] ranges@[k]).start as nat),
    ensures
        final(out)@ == old(out)@ + join_seq(
            ranges@.map_values(|r: Range<usize>| dec(line_of(buffer@, r.start as nat))),
            ", "@,
        ),
{
    let ghost lines = ranges@.map_values(|r: Range<usize>| dec(line_of(buffer@, r.start as nat)));
    let mut k: usize = 0;
    while k < ranges.len()
        invariant
            k <= ranges@.len(),
            buffer@.len() < u32::MAX,
            lines == ranges@.map_values(|r: Range<usize>| dec(line_of(buffer@, r.start as nat))),
            forall|j: int|
                0 <= j < ranges@.len() ==> is_boundary(buffer@, (#[trigger] ranges@[j]).start as nat),
            out@ == old(out)@ + join_seq(lines.take(k as int), ", "@),
        decreases ranges@.len() - k,
    {
        let ghost before = out@;
        if k > 0 {
            push_str(out, ", ");
        }
        let start = ranges[k].start;
        let ci = find_char_index(buffer, start);
        let n = count_newlines_upto(buffer, ci);
        push_dec(out, n as u64 + 1);
        k = k + 1;
        proof {
            let t = lines.take(k as int);
            assert(t.drop_last() =~= lines.take(k - 1));
            assert(t.last() == dec(line_of(buffer@, start as nat)));
            assert(out@ =~= old(out)@ + join_seq(t, ", "@));
        }
    }
    assert(lines.take(ranges@.len() as int) =~= lines);
}

/// Applies edit number `i` to `buffer`.
fn apply_one(buffer: &Vec<char>, i: usize, edit: &Edit, changed: bool) -> (r: Result<Vec<char>, String>)
    requires
        edit.old_text@.len() < 400_000_000,
        buffer@.len() < u32::MAX,
    ensures
        match r {
            Ok(b) => edit_outcome(buffer@, i as nat, edit.old_text@, edit.new_text@, changed)
                == Ok::<Seq<char>, Seq<char>>(b@) && b@.len() <= buffer@.len()
                + edit.new_text@.len(),
            Err(e) => edit_outcome(buffer@, i as nat, edit.old_text@, edit.new_text@, changed)
                == Err::<Seq<char>, Seq<char>>(e@),
        },
{
    let text = string_of(buffer.as_slice());
    let ranges = fuzzy_find(text.as_str(), edit.old_text.as_str());
    let ghost ms = fuzzy_matches(buffer@, edit.old_text@);
    proof {
        lemma_fuzzy_ranges_on_boundaries(buffer@, edit.old_text@);
    }
    if ranges.len() == 0 {
        let mut s = String::from_str("Could not find matching text for edit at index ");
        push_dec(&mut s, i as u64);
        push_str(&mut s, ". The old_text did not match any content in the file.");
        if changed {
            push_str(&mut s, " The file has changed on disk since you last read it.");
        }
        push_str(&mut s, " Please read the file again to get the current content.");
        return Err(s);
    }
    if ranges.len() == 1 {
        let range = &ranges[0];
        assert(ms[0].0 == range.start && ms[0].1 == range.end);
        match first_line_indent_mismatch(text.as_str(), range, edit.old_text.as_str()) {
            Some(m) => {
                let ghost spec = indent_mismatch(buffer@, range.start as nat, range.end as nat, edit.old_text@)->0;
                proof {
                    let ci = char_index(buffer@, range.start as nat);
                    let cj = char_index(buffer@, range.end as nat);
                    lemma_char_index_order(buffer@, range.start as nat, range.end as nat);
                    lemma_split_first_len(buffer@.subrange(ci, cj), '\n');
                    lemma_leading_indent_len(split_on(buffer@.subrange(ci, cj), '\n')[0]);
                    lemma_split_first_len(edit.old_text@, '\n');
                    lemma_leading_indent_len(split_on(edit.old_text@, '\n')[0]);
                    lemma_leading_indent_len(m.file_indent@);
                    lemma_leading_indent_len(m.old_text_indent@);
                }
                let fi = describe_indent(m.file_indent.as_str());
                let oi = describe_indent(m.old_text_indent.as_str());
                let mut s = String::from_str("Edit ");
                push_dec(&mut s, i as u64);
                push_str(&mut s, " was rejected: the matched text at line ");
                push_dec(&mut s, m.line as u64);
                push_str(&mut s, " is indented differently than your old_text (the file uses ");
                push_str(&mut s, fi.as_str());
                push_str(&mut s, ", your old_text uses ");
                push_str(&mut s, oi.as_str());
                push_str(
                    &mut s,
                    "). Re-read the file and copy the text exactly, including its indentation. No edits were made.",
                );
                return Err(s);
            },
            None => {
                let ci = find_char_index(buffer, range.start);
                let cj = find_char_index(buffer, range.end);
                proof {
                    lemma_char_index_order(buffer@, range.start as nat, range.end as nat);
                }
                let mut out = slice_chars(buffer, 0, ci);
                let nv = chars_of(edit.new_text.as_str());
                append_chars(&mut out, nv.as_slice());
                let tail = slice_chars(buffer, cj, buffer.len());
                append_chars(&mut out, tail.as_slice());
                assert(out@ =~= replace_bytes(buffer@, range.start as nat, range.end as nat, edit.new_text@));
                return Ok(out);
            },
        }
    }
    let mut s = String::from_str("Edit ");
    push_dec(&mut s, i as u64);
    push_str(&mut s, " matched multiple locations in the file at lines: ");
    proof {
        assert forall|k: int| 0 <= k < ranges@.len() implies is_boundary(
            buffer@,
            (#[trigger] ranges@[k]).start as nat,
        ) by {
            assert(ranges@[k].start == ms[k].0);
        }
    }
    push_lines_list(&mut s, buffer, &ranges);
    push_str(
        &mut s,
        ". Please provide more context in old_text to uniquely identify the location.",
    );
    proof {
        assert(ranges@.map_values(|r: Range<usize>| dec(line_of(buffer@, r.start as nat))) =~= ms.map_values(
            |m: (nat, nat)| dec(line_of(buffer@, m.0)),
        ));
    }
    Err(s)
}

/// Applies all edits in memory, each to the result of the previous one.
/// Returns the new text, or the tool error of the first edit that fails
/// (and then no edit takes effect).
pub fn apply_edits(buffer: &str, edits: &Vec<Edit>, file_changed_since_read: bool) -> (r: Result<
    String,
    ToolResult,
>)
    requires
        forall|k: int| 0 <= k < edits@.len() ==> (#[trigger] edits@[k]).old_text@.len() < 400_000_000,
        buffer@.len() + total_new(edit_pairs(edits@)) < u32::MAX,
    ensures
        match r {
            Ok(b) => edits_outcome(buffer@, edit_pairs(edits@), file_changed_since_read)
                == Ok::<Seq<char>, Seq<char>>(b@),
            Err(e) => e.is_error && edits_outcome(buffer@, edit_pairs(edits@), file_changed_since_read)
                == Err::<Seq<char>, Seq<char>>(e.llm_text@),
        },
{
    let ghost pairs = edit_pairs(edits@);
    let mut cur = chars_of(buffer);
    let mut i: usize = 0;
    while i < edits.len()
        invariant
            i <= edits@.len(),
            pairs == edit_pairs(edits@),
            forall|k: int| 0 <= k < edits@.len() ==> (#[trigger] edits@[k]).old_text@.len() < 400_000_000,
            buffer@.len() + total_new(pairs) < u32::MAX,
            edits_outcome(buffer@, pairs.take(i as int), file_changed_since_read) == Ok::<
                Seq<char>,
                Seq<char>,
            >(cur@),
            cur@.len() <= buffer@.len() + total_new(pairs.take(i as int)),
        decreases edits@.len() - i,
    {
        proof {
            assert(pairs.take(i + 1).drop_last() =~= pairs.take(i as int));
            assert(pairs.take(i + 1).last() == (edits@[i as int].old_text@, edits@[i as int].new_text@));
            lemma_total_new_prefix(pairs, i + 1);
        }
        match apply_one(&cur, i, &edits[i], file_changed_since_read) {
            Ok(next) => {
                cur = next;
            },
            Err(msg) => {
                proof {
                    lemma_outcome_err_stays(buffer@, pairs, (i + 1) as int, file_changed_since_read);
                }
                return Err(err_text(msg));
            },
        }
        i = i + 1;
    }
    assert(pairs.take(edits@.len() as int) =~= pairs);
    Ok(string_of(cur.as_slice()))
}

proof fn lemma_total_new_prefix(pairs: Seq<(Seq<char>, Seq<char>)>, k: int)
    requires
        0 <= k <= pairs.len(),
    ensures
        total_new(pairs.take(k)) <= total_new(pairs),
    decreases pairs.len() - k,
{
    if k < pairs.len() {
        lemma_total_new_prefix(pairs, k + 1);
        assert(pairs.take(k + 1).drop_last() =~= pairs.take(k));
    } else {
        assert(pairs.take(k) =~= pairs);
    }
}

/// Once an edit fails, every longer run of the same edits fails with the
/// same error.
proof fn lemma_outcome_err_stays(
    buffer: Seq<char>,
    pairs: Seq<(Seq<char>, Seq<char>)>,
    k: int,
    changed: bool,
)
    requires
        0 <= k <= pairs.len(),
        edits_outcome(buffer, pairs.take(k), changed) is Err,
    ensures
        edits_outcome(buffer, pairs, changed) == edits_outcome(buffer, pairs.take(k), changed),
    decreases pairs.len() - k,
{
    if k < pairs.len() {
        assert(pairs.take(k + 1).drop_last() =~= pairs.take(k));
        lemma_outcome_err_stays(buffer, pairs, k + 1, changed);
    } else {
        assert(pairs.take(k) =~= pairs);
    }
}

/// Why a path and its stat result rule an edit out, if they do.
pub open spec fn edit_target_text(path: Seq<char>, stat: Result<RemoteStat, SftpBrowserError>) -> Option<
    Seq<char>,
> {
    if invalid_filename(path) {
        Some("Can't edit file: invalid path"@)
    } else {
        match stat {
            Err(SftpBrowserError::PathNotFound(_)) => Some("Can't edit file: path not found"@),
            Err(e) => Some(stat_error_text(path, e)),
            Ok(s) => if s.is_dir {
                Some("Can't edit file: path is a directory"@)
            } else {
                None
            },
        }
    }
}

/// Checks the edit's target before reading it: a usable path naming an
/// existing file that is not a directory.
pub fn check_edit_target(path: &str, stat: &Result<RemoteStat, SftpBrowserError>) -> (r: Result<
    (),
    ToolResult,
>)
    ensures
        r is Ok <==> edit_target_text(path@, *stat) is None,
        r matches Err(t) ==> (t.is_error && t.ui_payload is None && edit_target_text(path@, *stat)
            == Some(t.llm_text@)),
{
    let v = chars_of(path);
    let mut has_nul = false;
    let mut i: usize = 0;
    while i < v.len()
        invariant
            i <= v@.len(),
            v@ == path@,
            has_nul == exists|j: int| 0 <= j < i && v@[j] == '\0',
        decreases v@.len() - i,
    {
        if v[i] == '\0' {
            has_nul = true;
        }
        i = i + 1;
    }
    proof {
        if has_nul {
            let j = choose|j: int| 0 <= j < v@.len() && v@[j] == '\0';
            assert(path@.contains('\0'));
        }
        if path@.contains('\0') {
            let j = choose|j: int| 0 <= j < path@.len() && path@[j] == '\0';
            assert(v@[j] == '\0');
        }
    }
    if v.len() == 0 || has_nul {
        return Err(err_text(String::from_str("Can't edit file: invalid path")));
    }
    match stat {
        Err(SftpBrowserError::PathNotFound(_)) => Err(
            err_text(String::from_str("Can't edit file: path not found")),
        ),
        Err(e) => Err(map_stat_error(path, e)),
        Ok(s) => if s.is_dir {
            Err(err_text(String::from_str("Can't edit file: path is a directory")))
        } else {
            Ok(())
        },
    }
}

/// The file changed since the model last read it: there is a fingerprint
/// from that read and it differs from the current one.
pub fn changed_since_read(last_read: Option<Fingerprint>, current: Fingerprint) -> (b: bool)
    ensures
        b == (last_read matches Some(fp) && fp != current),
{
    match last_read {
        Some(fp) => fp != current,
        None => false,
    }
}

/// Applies the edits to the file's text: `Ok(None)` when they leave the
/// text as it was (nothing to approve or write), `Ok(Some(new))` for a
/// changed text, or the error of the first failing edit.
pub fn edit_result(text: &str, edits: &Vec<Edit>, file_changed_since_read: bool) -> (r: Result<
    Option<String>,
    ToolResult,
>)
    requires
        forall|k: int| 0 <= k < edits@.len() ==> (#[trigger] edits@[k]).old_text@.len() < 400_000_000,
        text@.len() + total_new(edit_pairs(edits@)) < u32::MAX,
    ensures
        match r {
            Ok(None) => edits_outcome(text@, edit_pairs(edits@), file_changed_since_read) == Ok::<
                Seq<char>,
                Seq<char>,
            >(text@),
            Ok(Some(b)) => b@ != text@ && edits_outcome(text@, edit_pairs(edits@), file_changed_since_read)
                == Ok::<Seq<char>, Seq<char>>(b@),
            Err(e) => e.is_error && edits_outcome(text@, edit_pairs(edits@), file_changed_since_read)
                == Err::<Seq<char>, Seq<char>>(e.llm_text@),
        },
{
    let buffer = apply_edits(text, edits, file_changed_since_read)?;
    if str_eq(buffer.as_str(), text) {
        Ok(None)
    } else {
        Ok(Some(buffer))
    }
}

/// The tool result when edits change nothing.
pub fn no_edits_result() -> (r: ToolResult)
    ensures
        !r.is_error,
        r.ui_payload is None,
        r.llm_text@ == "No edits were made."@,
{
    ok_text(String::from_str("No edits were made."))
}

/// Success text of an applied edit, with the diff in a fenced block.
pub fn edited_text(path: &str, diff: &str) -> (s: String)
    ensures
        s@ == "Edited "@ + path@ + ":\n\n```diff\n"@ + diff@ + "\n```"@,
{
    let mut s = String::from_str("Edited ");
    push_str(&mut s, path);
    push_str(&mut s, ":\n\n```diff\n");
    push_str(&mut s, diff);
    push_str(&mut s, "\n```");
    s
}

} // verus!
