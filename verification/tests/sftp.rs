use reach::remote_fs::{
    connection_lost_result, detect_line_ending, map_read_error, map_stat_error, normalize_to_lf,
    restore_crlf, wrote_result, Fingerprint, LineEnding,
};
use reach::sftp::{
    format_permissions, local_filename, parse_ls_output, remote_filename, shell_escape,
    sort_entries, with_trailing_slash, FileKind, RemoteEntry, RemoteStat, SftpBrowserError,
    TransferError,
};
use reach::ssh::SshError;
use reach::transfer::{ReadPlan, PIPELINE_DEPTH};
use reach::transfer::WritePlan;

#[test]
fn permissions_render_like_ls() {
    assert_eq!(format_permissions(&FileKind::Dir, Some(0o755)), "drwxr-xr-x");
    assert_eq!(format_permissions(&FileKind::Other, Some(0o640)), "-rw-r-----");
    assert_eq!(format_permissions(&FileKind::Symlink, None), "l---------");
}

#[test]
fn trailing_slash_and_quoting() {
    assert_eq!(with_trailing_slash("/a"), "/a/");
    assert_eq!(with_trailing_slash("/a/"), "/a/");
    assert_eq!(shell_escape("it's"), "'it'\\''s'");
    assert_eq!(shell_escape(""), "''");
}

fn entry(name: &str, is_dir: bool) -> RemoteEntry {
    RemoteEntry { name: name.into(), path: format!("/{name}"), is_dir, size: 0, modified: 0, permissions: String::new() }
}

#[test]
fn sort_puts_directories_first_then_names_case_insensitively() {
    let mut v = vec![entry("b.txt", false), entry("Zeta", true), entry("a.txt", false), entry("alpha", true), entry("B.txt", false)];
    sort_entries(&mut v);
    let names: Vec<&str> = v.iter().map(|e| e.name.as_str()).collect();
    assert_eq!(names, vec!["alpha", "Zeta", "a.txt", "b.txt", "B.txt"]);
}

#[test]
fn parse_ls_output_epoch_and_standard_formats() {
    let out = "total 12\n\
drwxr-xr-x 2 root root 4096 1700000000 my dir\n\
-rw-r--r-- 1 root root 42 1700000001 notes.txt\n\
lrwxrwxrwx 1 root root 7 1700000002 link -> target\n\
drwxr-xr-x 2 root root 4096 1700000003 .\n\
-rw-r--r-- 1 root root 10 Jan 1 12:00 old file.log\n\
garbage line\n";
    let entries = parse_ls_output(out, "/srv").ok().unwrap();
    let got: Vec<(String, String, bool, u64, u64)> = entries
        .iter()
        .map(|e| (e.name.clone(), e.path.clone(), e.is_dir, e.size, e.modified))
        .collect();
    assert_eq!(
        got,
        vec![
            ("my dir".to_string(), "/srv/my dir".to_string(), true, 4096, 1700000000),
            ("link".to_string(), "/srv/link".to_string(), false, 7, 1700000002),
            ("notes.txt".to_string(), "/srv/notes.txt".to_string(), false, 42, 1700000001),
            ("old file.log".to_string(), "/srv/old file.log".to_string(), false, 10, 0),
        ]
    );
    assert_eq!(entries[0].permissions, "drwxr-xr-x");
}

#[test]
fn error_messages() {
    assert_eq!(SftpBrowserError::NotConnected.message(), "Not connected");
    assert_eq!(SftpBrowserError::PathNotFound("/x".into()).message(), "Path not found: /x");
    assert_eq!(
        SftpBrowserError::SshError(SshError::ChannelError("eof".into())).message(),
        "SSH error: Channel error: eof"
    );
    assert_eq!(TransferError::Cancelled.message(), "Transfer cancelled");
    assert_eq!(TransferError::IoError("disk".into()).message(), "IO error: disk");
}

#[test]
fn transfer_file_names() {
    assert_eq!(remote_filename("/var/log/syslog"), "syslog");
    assert_eq!(remote_filename("/var/log/"), "log");
    assert_eq!(remote_filename("/"), "/");
    assert_eq!(local_filename("dir/file.txt"), "file.txt");
}

#[test]
fn line_endings_by_majority() {
    assert!(detect_line_ending("a\r\nb\r\nc\n") == LineEnding::CrLf);
    assert!(detect_line_ending("a\r\nb\nc\n") == LineEnding::Lf);
    assert!(detect_line_ending("no newline") == LineEnding::Lf);
    // A tie goes to the first line break's type.
    assert!(detect_line_ending("a\r\nb\n") == LineEnding::CrLf);
    assert!(detect_line_ending("a\nb\r\n") == LineEnding::Lf);
    assert_eq!(LineEnding::CrLf.as_str(), "\r\n");
    assert_eq!(LineEnding::Lf.as_str(), "\n");
}

#[test]
fn crlf_normalization_round_trips() {
    assert_eq!(normalize_to_lf("a\r\nb\r\r\nc\n"), "a\nb\r\nc\n");
    assert_eq!(restore_crlf("a\nb\n"), "a\r\nb\r\n");
    for t in ["", "x", "\r", "\r\n", "a\n\r\nb", "\n\n"] {
        assert_eq!(normalize_to_lf(&restore_crlf(t)), t);
    }
}

#[test]
fn fingerprint_from_stat() {
    let f = Fingerprint::from_stat(&RemoteStat { size: 5, mtime: 77, is_dir: false });
    assert!(f == Fingerprint::Present { mtime: 77, size: 5 });
    assert!(f != Fingerprint::Absent);
}

#[test]
fn filesystem_error_results() {
    let r = map_stat_error("/a", &SftpBrowserError::PathNotFound("/a".into()));
    assert!(r.is_error);
    assert_eq!(r.llm_text, "File not found: /a");
    let r = map_stat_error("/a", &SftpBrowserError::Protocol("boom".into()));
    assert_eq!(r.llm_text, "Failed to stat /a: SFTP error: boom");
    let r = map_read_error("/a", &SftpBrowserError::PermissionDenied("/a".into()));
    assert_eq!(
        r.llm_text,
        "Permission denied reading /a. You may need sudo; use the terminal tool if elevated access is required."
    );
    assert_eq!(map_stat_error("/a", &SftpBrowserError::NotConnected).llm_text, "Not connected to the remote host.");
    let w = wrote_result("/etc/x", 12);
    assert!(!w.is_error);
    assert_eq!(w.llm_text, "Wrote /etc/x (12 bytes).");
    assert!(connection_lost_result("u@h:22", &SftpBrowserError::NotConnected).llm_text.starts_with("SSH connection to u@h:22 was lost."));
}

#[test]
fn pipelined_read_tiles_the_file() {
    let mut p = ReadPlan::new(1000, 300);
    let mut reqs = Vec::new();
    while let Some(r) = p.next_request() {
        reqs.push(r);
    }
    assert_eq!(reqs, vec![(0, 300), (300, 300), (600, 300), (900, 100)]);
    assert!(!p.finished());
    for (_, len) in &reqs {
        p.complete(*len as u64);
    }
    assert!(p.finished());
    assert_eq!(p.bytes_done(), 1000);
    assert!(reqs.len() <= PIPELINE_DEPTH);
}

#[test]
fn pipelined_read_respects_depth() {
    let mut p = ReadPlan::new(100_000, 10);
    let mut n = 0;
    while p.next_request().is_some() {
        n += 1;
    }
    assert_eq!(n, PIPELINE_DEPTH);
    p.complete(10);
    assert_eq!(p.next_request(), Some((80, 10)));
    assert!(p.next_request().is_none());
}

#[test]
fn pipelined_write_offsets() {
    let mut w = WritePlan::new(4);
    assert!(w.wants_chunk());
    assert_eq!(w.on_chunk(Some(4)), Some(0));
    assert_eq!(w.on_chunk(Some(3)), Some(4));
    assert_eq!(w.on_chunk(None), None);
    assert!(!w.wants_chunk());
    w.complete(4);
    assert!(!w.finished());
    w.complete(3);
    assert!(w.finished());
    assert_eq!(w.bytes_done(), 7);
}
