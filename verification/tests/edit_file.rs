use reach::edit_file::{apply_edits, Edit, EditFileTool};
use reach::list_directory::{check_listing_stat, format_listing, ListDirectoryTool};
use reach::sftp::{RemoteEntry, SftpBrowserError};
use reach::edit_file::check_edit_target;
use reach::sftp::RemoteStat;
use reach::edit_file::changed_since_read;
use reach::remote_fs::Fingerprint;
use reach::edit_file::{edit_result, edited_text, no_edits_result};

fn edit(old: &str, new: &str) -> Edit {
    Edit { old_text: old.into(), new_text: new.into() }
}

#[test]
fn edits_apply_in_sequence() {
    let buf = "fn main() {\n    let a = 1;\n    let b = 2;\n}\n";
    let out = apply_edits(buf, &vec![edit("    let a = 1;", "    let a = 10;"), edit("    let a = 10;", "    let a = 11;")], false)
        .ok()
        .unwrap();
    assert_eq!(out, "fn main() {\n    let a = 11;\n    let b = 2;\n}\n");
}

#[test]
fn edit_not_found_reports_index_and_hint() {
    let err = apply_edits("a\nb\n", &vec![edit("a", "A"), edit("zzz_not_here", "y")], true).err().unwrap();
    assert!(err.is_error);
    assert_eq!(
        err.llm_text,
        "Could not find matching text for edit at index 1. The old_text did not match any content in the file. The file has changed on disk since you last read it. Please read the file again to get the current content."
    );
}

#[test]
fn ambiguous_edit_lists_lines() {
    let err = apply_edits("foo\nbar\nfoo\n", &vec![edit("foo", "x")], false).err().unwrap();
    assert_eq!(
        err.llm_text,
        "Edit 0 matched multiple locations in the file at lines: 1, 3. Please provide more context in old_text to uniquely identify the location."
    );
}

#[test]
fn retyped_indentation_is_rejected() {
    let err = apply_edits("fn f() {\n\t\tcall();\n}\n", &vec![edit("  call();", "  other();")], false).err().unwrap();
    assert_eq!(
        err.llm_text,
        "Edit 0 was rejected: the matched text at line 2 is indented differently than your old_text (the file uses 2 tabs, your old_text uses 2 spaces). Re-read the file and copy the text exactly, including its indentation. No edits were made."
    );
}

#[test]
fn no_edits_keeps_buffer() {
    assert_eq!(apply_edits("same", &vec![], false).ok().unwrap(), "same");
    assert_eq!(EditFileTool.name(), "edit_file");
    assert!(EditFileTool.default_requires_approval());
}

fn entry(path: &str, is_dir: bool) -> RemoteEntry {
    RemoteEntry { name: path.rsplit('/').next().unwrap().into(), path: path.into(), is_dir, size: 0, modified: 0, permissions: String::new() }
}

#[test]
fn listing_groups_and_caps() {
    let entries = vec![entry("/d/a", true), entry("/d/x.txt", false), entry("/d/b", true), entry("/d/y.txt", false), entry("/d/z.txt", false)];
    assert_eq!(format_listing("/d", &entries, 500), "# Folders:\n/d/a\n/d/b\n\n# Files:\n/d/x.txt\n/d/y.txt\n/d/z.txt\n");
    assert_eq!(
        format_listing("/d", &entries, 1),
        "# Folders:\n/d/a\n\n# Files:\n/d/x.txt\n\n... and 3 more entries. Narrow down with the terminal tool (find/ls | grep).\n"
    );
    assert_eq!(format_listing("/empty", &vec![], 5), "/empty is empty.");
    let files_only = vec![entry("/f/1", false)];
    assert_eq!(format_listing("/f", &files_only, 5), "\n# Files:\n/f/1\n");
    assert_eq!(ListDirectoryTool.name(), "list_directory");
}

#[test]
fn listing_stat_errors() {
    assert!(check_listing_stat("/d", &Ok(true)).is_none());
    assert_eq!(check_listing_stat("/f", &Ok(false)).unwrap().llm_text, "/f is not a directory.");
    assert_eq!(
        check_listing_stat("/n", &Err(SftpBrowserError::PathNotFound("/n".into()))).unwrap().llm_text,
        "Path not found: /n"
    );
    assert_eq!(
        check_listing_stat("/p", &Err(SftpBrowserError::NotConnected)).unwrap().llm_text,
        "Not connected to the remote host."
    );
}

#[test]
fn edit_target_checks() {
    let ok: Result<RemoteStat, SftpBrowserError> = Ok(RemoteStat { size: 3, mtime: 1, is_dir: false });
    assert!(check_edit_target("/etc/hosts", &ok).is_ok());
    assert_eq!(check_edit_target("", &ok).err().unwrap().llm_text, "Can't edit file: invalid path");
    let missing: Result<RemoteStat, SftpBrowserError> = Err(SftpBrowserError::PathNotFound("/x".into()));
    assert_eq!(check_edit_target("/x", &missing).err().unwrap().llm_text, "Can't edit file: path not found");
    let d: Result<RemoteStat, SftpBrowserError> = Ok(RemoteStat { size: 0, mtime: 1, is_dir: true });
    assert_eq!(check_edit_target("/etc", &d).err().unwrap().llm_text, "Can't edit file: path is a directory");
}

#[test]
fn changed_since_read_needs_an_earlier_read() {
    let a = Fingerprint::Present { mtime: 1, size: 2 };
    let b = Fingerprint::Present { mtime: 3, size: 2 };
    assert!(!changed_since_read(None, a));
    assert!(!changed_since_read(Some(a), a));
    assert!(changed_since_read(Some(a), b));
}

#[test]
fn edit_result_detects_no_op_edits() {
    assert_eq!(edit_result("x = 1\n", &vec![edit("x = 1", "x = 1")], false).ok().unwrap(), None);
    assert_eq!(
        edit_result("x = 1\n", &vec![edit("x = 1", "x = 2")], false).ok().unwrap(),
        Some("x = 2\n".to_string())
    );
    assert!(edit_result("x\n", &vec![edit("nope", "y")], false).is_err());
    assert_eq!(no_edits_result().llm_text, "No edits were made.");
    assert_eq!(edited_text("/a", "-x\n+y"), "Edited /a:\n\n```diff\n-x\n+y\n```");
}
