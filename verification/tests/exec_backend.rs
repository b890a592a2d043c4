use reach::exec_backend::{
    decode_base64_text, delete_command, list_command, destination_exists, exists_check_command, mkdir_command,
    parse_file_size, read_base64_command, rename_command, size_command, touch_command,
    truncate_command, write_base64_command, write_exit_error, write_payload, MAX_EDIT_SIZE,
    WRITE_CHUNK,
};
use reach::exec_backend::{
    download_progress_due, download_size, download_size_command, empty_download_check,
    file_exists_command, upload_exit_error, upload_progress_due, StreamDecoder, PROGRESS_STEP,
};
use reach::sftp::{SftpBrowserError, TransferError};

fn parse_error(r: Result<String, SftpBrowserError>) -> String {
    match r {
        Err(SftpBrowserError::ParseError(m)) => m,
        _ => panic!("expected a parse error"),
    }
}

#[test]
fn shell_commands_quote_every_path() {
    assert_eq!(list_command("/srv"), "ls -lA --time-style=+%s '/srv' 2>/dev/null || ls -lA '/srv'");
    assert_eq!(mkdir_command("/tmp/a b"), "mkdir -p '/tmp/a b'");
    assert_eq!(delete_command("/x"), "rm -rf '/x'");
    assert_eq!(touch_command("it's"), "touch 'it'\\''s'");
    assert_eq!(exists_check_command("/n"), "test -e '/n' && echo EXISTS");
    assert_eq!(rename_command("/a", "/b c"), "mv '/a' '/b c'");
    assert_eq!(size_command("/f"), "stat -c %s '/f' 2>/dev/null || stat -f %z '/f'");
    assert_eq!(read_base64_command("/f"), "base64 '/f'");
    assert_eq!(truncate_command("/f"), ": > '/f'");
    assert_eq!(write_base64_command("/f"), "base64 -d > '/f'");
}

#[test]
fn existence_check_reads_trimmed_output() {
    assert!(destination_exists("EXISTS\n"));
    assert!(destination_exists("  EXISTS  "));
    assert!(!destination_exists(""));
    assert!(!destination_exists("EXIST"));
}

#[test]
fn file_size_output_parses_or_names_the_path() {
    assert_eq!(MAX_EDIT_SIZE, 5 * 1024 * 1024);
    assert!(matches!(parse_file_size("/f", " 1234\n"), Ok(1234)));
    match parse_file_size("/f", "stat: cannot stat") {
        Err(SftpBrowserError::ParseError(m)) => assert_eq!(m, "Cannot determine file size: /f"),
        _ => panic!("expected a parse error"),
    }
}

#[test]
fn base64_output_decodes_to_text() {
    assert_eq!(decode_base64_text("aGVs\nbG8=\n").ok().unwrap(), "hello");
    assert_eq!(decode_base64_text("").ok().unwrap(), "");
    assert_eq!(decode_base64_text(" \n\t").ok().unwrap(), "");
    assert_eq!(decode_base64_text("w6k=").ok().unwrap(), "\u{e9}");
}

#[test]
fn base64_output_errors() {
    assert!(parse_error(decode_base64_text("!!!!")).starts_with("Base64 decode failed: "));
    assert_eq!(parse_error(decode_base64_text("/w==")), "File is not valid UTF-8 text");
}

#[test]
fn write_payload_is_chunked_base64_lines() {
    assert_eq!(write_payload(b"hello"), vec!["aGVsbG8=\n".to_string()]);
    assert_eq!(WRITE_CHUNK, 48 * 1024);
    let big = "a".repeat(WRITE_CHUNK + 1);
    let lines = write_payload(big.as_bytes());
    assert_eq!(lines.len(), 2);
    assert_eq!(lines[1], "YQ==\n");
    assert_eq!(lines[0].len(), WRITE_CHUNK / 3 * 4 + 1);
    assert_eq!(write_payload("b".repeat(WRITE_CHUNK).as_bytes()).len(), 1);
    assert!(write_payload(&[]).is_empty());
    assert_eq!(write_payload(&[0xff, 0x00]), vec!["/wA=\n".to_string()]);
}

#[test]
fn write_exit_status_is_mapped() {
    assert!(write_exit_error("/f", None, "").is_ok());
    assert!(write_exit_error("/f", Some(0), "noise").is_ok());
    match write_exit_error("/x", Some(1), "bash: /x: Permission Denied\n") {
        Err(SftpBrowserError::PermissionDenied(p)) => assert_eq!(p, "/x"),
        _ => panic!("expected permission denied"),
    }
    match write_exit_error("/f", Some(2), "  \n") {
        Err(SftpBrowserError::ParseError(m)) => assert_eq!(m, "Write failed with exit code 2"),
        _ => panic!("expected a parse error"),
    }
    match write_exit_error("/f", Some(1), " disk full \n") {
        Err(SftpBrowserError::ParseError(m)) => assert_eq!(m, "disk full"),
        _ => panic!("expected a parse error"),
    }
}

fn io_error<T>(r: Result<T, TransferError>) -> String {
    match r {
        Err(TransferError::IoError(m)) => m,
        _ => panic!("expected an I/O error"),
    }
}

#[test]
fn download_commands_and_size() {
    assert_eq!(
        download_size_command("/f"),
        "stat -c%s '/f' 2>/dev/null || stat -f%z '/f' 2>/dev/null"
    );
    assert_eq!(file_exists_command("/f"), "test -f '/f' && echo EXISTS");
    assert_eq!(download_size("4096\n"), 4096);
    assert_eq!(download_size(""), 0);
    assert_eq!(download_size("no such file"), 0);
}

#[test]
fn empty_download_needs_the_file() {
    assert!(empty_download_check("/f", "EXISTS\n").is_ok());
    match empty_download_check("/gone", "") {
        Err(TransferError::FileNotFound(p)) => assert_eq!(p, "/gone"),
        _ => panic!("expected file not found"),
    }
}

#[test]
fn stream_decoder_decodes_complete_lines() {
    let mut d = StreamDecoder::new();
    let (b, e) = d.feed(b"aGVs");
    assert!(b.is_empty() && e.is_none());
    let (b, e) = d.feed(b"bG8=\n\nd29y");
    assert_eq!(b, b"hello".to_vec());
    assert!(e.is_none());
    let (b, e) = d.feed(b"bGQ=");
    assert!(b.is_empty() && e.is_none());
    assert_eq!(d.finish().ok().unwrap(), b"world".to_vec());
}

#[test]
fn stream_decoder_split_does_not_matter() {
    let whole = "aGVsbG8=\nd29ybGQ=\n";
    let mut one = StreamDecoder::new();
    let (all, _) = one.feed(whole.as_bytes());
    let mut two = StreamDecoder::new();
    let (mut first, _) = two.feed(&whole.as_bytes()[..5]);
    let (second, _) = two.feed(&whole.as_bytes()[5..]);
    first.extend(second);
    assert_eq!(all, first);
    assert_eq!(all, b"helloworld".to_vec());
}

#[test]
fn stream_decoder_errors() {
    let mut d = StreamDecoder::new();
    let (b, e) = d.feed(b"aGk=\n!!!!\naGk=\n");
    assert_eq!(b, b"hi".to_vec());
    match e {
        Some(TransferError::IoError(m)) => assert!(m.starts_with("Base64 decode error: ")),
        _ => panic!("expected a decode error"),
    }
    let mut t = StreamDecoder::new();
    let _ = t.feed(b"!!!!");
    assert!(io_error(t.finish()).starts_with("Base64 decode error (tail): "));
    assert!(StreamDecoder::new().finish().ok().unwrap().is_empty());
}

#[test]
fn progress_and_upload_exit() {
    assert_eq!(PROGRESS_STEP, 65536);
    assert!(!download_progress_due(65535, 0));
    assert!(download_progress_due(65536, 0));
    assert!(upload_progress_due(10, 0, 10));
    assert!(!upload_progress_due(10, 0, 20));
    assert!(upload_exit_error(None, "").is_ok());
    assert!(upload_exit_error(Some(0), "x").is_ok());
    assert_eq!(io_error(upload_exit_error(Some(3), "")), "Upload failed with exit code 3");
    assert_eq!(io_error(upload_exit_error(Some(1), " no space \n")), "no space");
}
