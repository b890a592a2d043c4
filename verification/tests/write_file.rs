use reach::sftp::{RemoteStat, SftpBrowserError};
use reach::write_file::{check_parent, parent_dir, plan_write, WriteFileTool, WriteTarget};

fn file(size: u64) -> Result<RemoteStat, SftpBrowserError> {
    Ok(RemoteStat { size, mtime: 1700000000, is_dir: false })
}

fn dir() -> Result<RemoteStat, SftpBrowserError> {
    Ok(RemoteStat { size: 4096, mtime: 1700000000, is_dir: true })
}

fn missing(p: &str) -> Result<RemoteStat, SftpBrowserError> {
    Err(SftpBrowserError::PathNotFound(p.to_string()))
}

#[test]
fn write_file_tool_identity() {
    let t = WriteFileTool;
    assert_eq!(t.name(), "write_file");
    assert!(t.default_requires_approval());
}

#[test]
fn parent_dir_of_paths() {
    assert_eq!(parent_dir("/etc/nginx/nginx.conf"), "/etc/nginx");
    assert_eq!(parent_dir("/notes.txt"), "/");
    assert_eq!(parent_dir("notes.txt"), "/");
    assert_eq!(parent_dir("/srv/app/"), "/srv/app");
}

#[test]
fn invalid_filenames_are_refused_first() {
    for p in ["", "/tmp/a\0b"] {
        let e = plan_write(p, &file(3), true).err().unwrap();
        assert!(e.is_error);
        assert_eq!(e.llm_text, "Can't create file: invalid filename");
    }
}

#[test]
fn existing_file_needs_a_prior_read() {
    let e = plan_write("/etc/hosts", &file(120), false).err().unwrap();
    assert_eq!(e.llm_text, "You must read the file with read_file before overwriting it.");
    assert!(matches!(plan_write("/etc/hosts", &file(120), true), Ok(WriteTarget::Existing)));
}

#[test]
fn directory_is_not_a_write_target() {
    let e = plan_write("/etc", &dir(), true).err().unwrap();
    assert_eq!(e.llm_text, "Can't write to file: path is a directory");
}

#[test]
fn missing_file_becomes_new_file_in_parent() {
    match plan_write("/srv/app/new.txt", &missing("/srv/app/new.txt"), false) {
        Ok(WriteTarget::NewFile { parent }) => assert_eq!(parent, "/srv/app"),
        _ => panic!("expected a new file"),
    }
}

#[test]
fn other_stat_errors_are_reported_as_for_reads() {
    let e = plan_write("/root/x", &Err(SftpBrowserError::PermissionDenied("x".into())), true)
        .err()
        .unwrap();
    assert_eq!(
        e.llm_text,
        "Permission denied reading /root/x. You may need sudo; use the terminal tool if elevated access is required."
    );
    let e = plan_write("/x", &Err(SftpBrowserError::NotConnected), true).err().unwrap();
    assert_eq!(e.llm_text, "Not connected to the remote host.");
}

#[test]
fn parent_must_be_an_existing_directory() {
    assert!(check_parent(&dir()).is_ok());
    let e = check_parent(&file(1)).err().unwrap();
    assert_eq!(e.llm_text, "Can't create file: parent directory doesn't exist");
    let e = check_parent(&missing("/nope")).err().unwrap();
    assert_eq!(e.llm_text, "Can't create file: parent directory doesn't exist");
}
