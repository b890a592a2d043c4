//! The list_directory tool's text logic: the stat checks and the grouped
//! Folders/Files listing with a per-group entry cap.

use vstd::prelude::*;
use crate::remote_fs::{map_stat_error, stat_error_text};
use crate::sftp::{RemoteEntry, SftpBrowserError};
use crate::text::{dec, push_dec, push_str};
use crate::types::{err_text, ok_text, ToolResult};

verus! {

/// Default cap on the entries listed per group.
pub const DEFAULT_MAX_ENTRIES: usize = 500;

/// The list_directory tool's arguments.
pub struct ListDirectoryInput {
    /// Absolute path of the directory on the remote host.
    pub path: String,
}

/// The list_directory tool.
pub struct ListDirectoryTool;

impl ListDirectoryTool {
    pub fn name(&self) -> (s: &'static str)
        ensures
            s@ == "list_directory"@,
    {
        "list_directory"
    }

    pub fn default_requires_approval(&self) -> (b: bool)
        ensures
            !b,
    {
        false
    }
}

/// The paths of the entries that are (or are not) directories, in order.
pub open spec fn group_paths(es: Seq<RemoteEntry>, dirs: bool) -> Seq<Seq<char>>
    decreases es.len(),
{
    if es.len() == 0 {
        Seq::<Seq<char>>::empty()
    } else {
        let prev = group_paths(es.drop_last(), dirs);
        if es.last().is_dir == dirs {
            prev.push(es.last().path@)
        } else {
            prev
        }
    }
}

/// Each path followed by a line break.
pub open spec fn path_lines(ps: Seq<Seq<char>>) -> Seq<char>
    decreases ps.len(),
{
    if ps.len() == 0 {
        Seq::<char>::empty()
    } else {
        path_lines(ps.drop_last()) + ps.last() + seq!['\n']
    }
}

/// `n.saturating_sub(m)`.
pub open spec fn sat_sub(n: nat, m: nat) -> nat {
    if n > m {
        (n - m) as nat
    } else {
        0
    }
}

/// A group: its heading and its first `max` paths, or nothing when empty.
pub open spec fn group_block(heading: Seq<char>, ps: Seq<Seq<char>>, max: nat) -> Seq<char> {
    if ps.len() == 0 {
        Seq::<char>::empty()
    } else {
        heading + path_lines(ps.take(if ps.len() < max {
            ps.len() as int
        } else {
            max as int
        }))
    }
}

/// The listing: folders, then files, each group capped at `max`, with a
/// note on how many entries were left out.
pub open spec fn listing_text(path: Seq<char>, es: Seq<RemoteEntry>, max: nat) -> Seq<char> {
    if es.len() == 0 {
        path + " is empty."@
    } else {
        let folders = group_paths(es, true);
        let files = group_paths(es, false);
        let overflow = sat_sub(folders.len(), max) + sat_sub(files.len(), max);
        group_block("# Folders:\n"@, folders, max) + group_block("\n# Files:\n"@, files, max) + (
        if overflow > 0 {
            "\n... and "@ + dec(overflow)
                + " more entries. Narrow down with the terminal tool (find/ls | grep).\n"@
        } else {
            Seq::<char>::empty()
        })
    }
}

proof fn lemma_groups_partition(es: Seq<RemoteEntry>)
    ensures
        group_paths(es, true).len() + group_paths(es, false).len() == es.len(),
    decreases es.len(),
{
    if es.len() > 0 {
        lemma_groups_partition(es.drop_last());
    }
}

proof fn lemma_group_len(es: Seq<RemoteEntry>, dirs: bool)
    ensures
        group_paths(es, dirs).len() <= es.len(),
    decreases es.len(),
{
    if es.len() > 0 {
        lemma_group_len(es.drop_last(), dirs);
    }
}

fn push_group(
    out: &mut String,
    heading: &str,
    entries: &Vec<RemoteEntry>,
    dirs: bool,
    max: usize,
) -> (count: usize)
    ensures
        count == group_paths(entries@, dirs).len(),
        final(out)@ == old(out)@ + group_block(heading@, group_paths(entries@, dirs), max as nat),
{
    let ghost g = group_paths(entries@, dirs);
    let mut count: usize = 0;
    let mut written: usize = 0;
    let mut i: usize = 0;
    let ghost base = out@;
    proof {
        lemma_group_len(entries@, dirs);
    }
    while i < entries.len()
        invariant
            i <= entries@.len(),
            g == group_paths(entries@, dirs),
            g.len() <= entries@.len(),
            count == group_paths(entries@.take(i as int), dirs).len(),
            written == (if count < max {
                count
            } else {
                max
            }),
            count > 0 ==> out@ == base + heading@ + path_lines(
                group_paths(entries@.take(i as int), dirs).take(written as int),
            ),
            count == 0 ==> out@ == base,
        decreases entries@.len() - i,
    {
        let ghost prev = group_paths(entries@.take(i as int), dirs);
        proof {
            assert(entries@.take(i + 1).drop_last() =~= entries@.take(i as int));
            lemma_group_len(entries@.take(i as int), dirs);
        }
        if entries[i].is_dir == dirs {
            let ghost p = entries@[i as int].path@;
            let ghost before = out@;
            if count == 0 {
                push_str(out, heading);
            }
            let ghost after_heading = out@;
            if written < max {
                push_str(out, entries[i].path.as_str());
                out.push('\n');
                written = written + 1;
                proof {
                    let now = group_paths(entries@.take(i + 1), dirs);
                    assert(now == prev.push(p));
                    assert(prev.take(written - 1) =~= prev);
                    assert(now.take(written as int) =~= now);
                    assert(now.drop_last() =~= prev);
                    assert(out@ =~= after_heading + p + seq!['\n']);
                    if count == 0 {
                        assert(prev.len() == 0);
                        assert(path_lines(prev) =~= Seq::<char>::empty());
                        assert(after_heading =~= base + heading@);
                    } else {
                        assert(after_heading == before);
                    }
                    assert(out@ =~= base + heading@ + path_lines(now.take(written as int)));
                }
            } else {
                proof {
                    let now = group_paths(entries@.take(i + 1), dirs);
                    assert(now == prev.push(p));
                    assert(now.take(written as int) =~= prev.take(written as int));
                    if count == 0 {
                        assert(prev.take(written as int) =~= Seq::<Seq<char>>::empty());
                        assert(out@ =~= base + heading@ + path_lines(now.take(written as int)));
                    }
                }
            }
            count = count + 1;
        }
        i = i + 1;
    }
    assert(entries@.take(entries@.len() as int) =~= entries@);
    proof {
        if count > 0 {
            assert(out@ =~= base + group_block(heading@, g, max as nat));
        } else {
            assert(out@ =~= base + group_block(heading@, g, max as nat));
        }
    }
    count
}

/// The folders/files listing of a non-empty directory, or `<path> is
/// empty.`.
pub fn format_listing(path: &str, entries: &Vec<RemoteEntry>, max_entries: usize) -> (s: String)
    ensures
        s@ == listing_text(path@, entries@, max_entries as nat),
{
    if entries.len() == 0 {
        let mut s = String::from_str(path);
        push_str(&mut s, " is empty.");
        return s;
    }
    let mut out = String::new();
    let nf = push_group(&mut out, "# Folders:\n", entries, true, max_entries);
    let nfiles = push_group(&mut out, "\n# Files:\n", entries, false, max_entries);
    proof {
        lemma_groups_partition(entries@);
    }
    let over_f = if nf > max_entries {
        nf - max_entries
    } else {
        0
    };
    let over_g = if nfiles > max_entries {
        nfiles - max_entries
    } else {
        0
    };
    let overflow = over_f + over_g;
    if overflow > 0 {
        push_str(&mut out, "\n... and ");
        push_dec(&mut out, overflow as u64);
        push_str(
            &mut out,
            " more entries. Narrow down with the terminal tool (find/ls | grep).\n",
        );
    }
    out
}

/// The tool error a stat of the listed path gives, if any: not a
/// directory, not found, or another stat failure.
pub open spec fn listing_stat_text(path: Seq<char>, stat: Result<bool, SftpBrowserError>) -> Option<
    Seq<char>,
> {
    match stat {
        Ok(is_dir) => if is_dir {
            None
        } else {
            Some(path + " is not a directory."@)
        },
        Err(SftpBrowserError::PathNotFound(_)) => Some("Path not found: "@ + path),
        Err(e) => Some(stat_error_text(path, e)),
    }
}

/// Checks the stat of the listed path (`Ok` carries whether it is a
/// directory).
pub fn check_listing_stat(path: &str, stat: &Result<bool, SftpBrowserError>) -> (r: Option<
    ToolResult,
>)
    ensures
        match r {
            Some(t) => t.is_error && listing_stat_text(path@, *stat) == Some(t.llm_text@),
            None => listing_stat_text(path@, *stat) is None,
        },
{
    match stat {
        Ok(is_dir) => {
            if *is_dir {
                None
            } else {
                let mut s = String::from_str(path);
                push_str(&mut s, " is not a directory.");
                Some(err_text(s))
            }
        },
        Err(SftpBrowserError::PathNotFound(_)) => {
            let mut s = String::from_str("Path not found: ");
            push_str(&mut s, path);
            Some(err_text(s))
        },
        Err(e) => Some(map_stat_error(path, e)),
    }
}

/// The listing as a tool result.
pub fn listing_result(path: &str, entries: &Vec<RemoteEntry>, max_entries: usize) -> (r: ToolResult)
    ensures
        !r.is_error,
        r.llm_text@ == listing_text(path@, entries@, max_entries as nat),
{
    ok_text(format_listing(path, entries, max_entries))
}

} // verus!
