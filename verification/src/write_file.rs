//! The write_file tool's decisions: path validation, the read-before-write
//! gate, the parent-directory check for new files, and what a new file's
//! prepared write starts from.

use vstd::prelude::*;
use crate::remote_fs::{map_stat_error, stat_error_text};
use crate::sftp::{RemoteStat, SftpBrowserError};
use crate::text::{chars_of, string_of};
use crate::types::{err_text, ToolResult};

verus! {

/// The write_file tool's arguments.
pub struct WriteFileInput {
    /// Absolute path of the file on the remote host.
    pub path: String,
    /// The complete new content of the file. Overwrites everything.
    pub content: String,
}

/// The write_file tool.
pub struct WriteFileTool;

impl WriteFileTool {
    pub fn name(&self) -> (s: &'static str)
        ensures
            s@ == "write_file"@,
    {
        "write_file"
    }

    pub fn default_requires_approval(&self) -> (b: bool)
        ensures
            b,
    {
        true
    }
}

/// A path that cannot name a file: empty, or holding a NUL.
pub open spec fn invalid_filename(path: Seq<char>) -> bool {
    path.len() == 0 || path.contains('\0')
}

/// Index of the last `/` in `s`, if there is one.
pub open spec fn last_slash(s: Seq<char>) -> Option<nat>
    decreases s.len(),
{
    if s.len() == 0 {
        None
    } else if s.last() == '/' {
        Some((s.len() - 1) as nat)
    } else {
        last_slash(s.drop_last())
    }
}

/// The directory a new file would go into: everything before the last
/// `/`, or `/` when that is empty or there is no `/` at all.
pub open spec fn parent_of(path: Seq<char>) -> Seq<char> {
    match last_slash(path) {
        Some(i) => if i == 0 {
            "/"@
        } else {
            path.take(i as int)
        },
        None => "/"@,
    }
}

proof fn lemma_last_slash(s: Seq<char>, i: int)
    requires
        0 <= i <= s.len(),
        forall|j: int| i <= j < s.len() ==> s[j] != '/',
    ensures
        last_slash(s) == last_slash(s.take(i)),
    decreases s.len() - i,
{
    if i < s.len() {
        assert(s.drop_last() =~= s.take(s.len() - 1));
        lemma_last_slash(s.drop_last(), i);
        assert(s.drop_last().take(i) =~= s.take(i));
    } else {
        assert(s.take(i) =~= s);
    }
}

/// The directory a new file at `path` would go into.
pub fn parent_dir(path: &str) -> (p: String)
    ensures
        p@ == parent_of(path@),
{
    let v = chars_of(path);
    let mut i: usize = v.len();
    while i > 0
        invariant
            i <= v@.len(),
            v@ == path@,
            forall|j: int| i <= j < v@.len() ==> v@[j] != '/',
        ensures
            i == 0 || v@[i - 1] == '/',
        decreases i,
    {
        if v[i - 1] == '/' {
            break;
        }
        i = i - 1;
    }
    proof {
        lemma_last_slash(v@, i as int);
        if i > 0 {
            assert(v@.take(i as int).last() == '/');
        } else {
            assert(v@.take(0) =~= Seq::<char>::empty());
        }
    }
    if i <= 1 {
        String::from_str("/")
    } else {
        let r = string_of(&v.as_slice()[0..i - 1]);
        proof {
            assert(v@.subrange(0, i - 1) =~= v@.take(i - 1));
        }
        r
    }
}

/// What a write goes to once the target has been stat'ed.
pub enum WriteTarget {
    /// The file exists, was read, and is not a directory.
    Existing,
    /// The file does not exist; its parent directory still has to be checked.
    NewFile { parent: String },
}

/// What `plan_write` decides: the target, or the error text.
pub open spec fn write_plan(path: Seq<char>, stat: Result<RemoteStat, SftpBrowserError>, was_read: bool) -> Result<
    Option<Seq<char>>,
    Seq<char>,
> {
    if invalid_filename(path) {
        Err("Can't create file: invalid filename"@)
    } else {
        match stat {
            Ok(s) => if s.is_dir {
                Err("Can't write to file: path is a directory"@)
            } else if !was_read {
                Err("You must read the file with read_file before overwriting it."@)
            } else {
                Ok(None)
            },
            Err(SftpBrowserError::PathNotFound(_)) => Ok(Some(parent_of(path))),
            Err(e) => Err(stat_error_text(path, e)),
        }
    }
}

/// Decides where a write goes from the path, the target's stat result and
/// whether the file was read in this thread. An empty path or one with a
/// NUL is refused first; a directory is refused; an existing file that
/// was not read is refused (read-before-write); a missing file becomes a
/// new file whose parent must be checked; any other stat error is
/// reported as for reads. `Existing` is `Ok(None)` in `write_plan`,
/// `NewFile` is `Ok(Some(parent))`.
pub fn plan_write(path: &str, stat: &Result<RemoteStat, SftpBrowserError>, was_read: bool) -> (r:
    Result<WriteTarget, ToolResult>)
    ensures
        match r {
            Ok(WriteTarget::Existing) => write_plan(path@, *stat, was_read) == Ok::<
                Option<Seq<char>>,
                Seq<char>,
            >(None),
            Ok(WriteTarget::NewFile { parent }) => write_plan(path@, *stat, was_read) == Ok::<
                Option<Seq<char>>,
                Seq<char>,
            >(Some(parent@)),
            Err(t) => t.is_error && t.ui_payload is None && write_plan(path@, *stat, was_read)
                == Err::<Option<Seq<char>>, Seq<char>>(t.llm_text@),
        },
{
    let v = chars_of(path);
    let mut has_nul = false;
    let mut i: usize = 0;
    while i < v.len()
        invariant
            i <= v@.len(),
            v@ == path@,
            has_nul == exists|j: int| 0 <= j < i && v@[j] == '\0',
        decreases v@.len() - i,
    {
        if v[i] == '\0' {
            has_nul = true;
        }
        i = i + 1;
    }
    proof {
        if has_nul {
            let j = choose|j: int| 0 <= j < v@.len() && v@[j] == '\0';
            assert(path@.contains('\0'));
        }
        if path@.contains('\0') {
            let j = choose|j: int| 0 <= j < path@.len() && path@[j] == '\0';
            assert(v@[j] == '\0');
        }
    }
    if v.len() == 0 || has_nul {
        return Err(err_text(String::from_str("Can't create file: invalid filename")));
    }
    match stat {
        Ok(s) => {
            if s.is_dir {
                Err(err_text(String::from_str("Can't write to file: path is a directory")))
            } else if !was_read {
                Err(
                    err_text(
                        String::from_str(
                            "You must read the file with read_file before overwriting it.",
                        ),
                    ),
                )
            } else {
                Ok(WriteTarget::Existing)
            }
        },
        Err(SftpBrowserError::PathNotFound(_)) => Ok(WriteTarget::NewFile { parent: parent_dir(path) }),
        Err(e) => Err(map_stat_error(path, e)),
    }
}

/// A new file may be created only in an existing directory.
pub fn check_parent(stat: &Result<RemoteStat, SftpBrowserError>) -> (r: Result<(), ToolResult>)
    ensures
        r is Ok <==> (stat matches Ok(s) && s.is_dir),
        r matches Err(t) ==> (t.is_error && t.ui_payload is None && t.llm_text@
            == "Can't create file: parent directory doesn't exist"@),
{
    match stat {
        Ok(s) => {
            if s.is_dir {
                return Ok(());
            }
        },
        Err(_) => {},
    }
    Err(err_text(String::from_str("Can't create file: parent directory doesn't exist")))
}

} // verus!
