use reach::remote_fs::{
    check_unchanged, decode_bytes, decode_read, encode_for_write, fingerprint_after_write,
    new_pending_writes, new_read_cache, normalize_to_lf, restore_crlf, Fingerprint, LineEnding,
    PreparedWrite, ReadCacheEntry,
};
use reach::sftp::{RemoteStat, SftpBrowserError};

fn stat(size: u64, mtime: u64) -> RemoteStat {
    RemoteStat { size, mtime, is_dir: false }
}

#[test]
fn binary_content_is_refused() {
    let e = decode_bytes("/bin/ls", b"\x7fELF\x00\x01").err().unwrap();
    assert!(e.is_error);
    assert_eq!(e.llm_text, "File appears to be binary (/bin/ls); it cannot be displayed as text.");
    let e = decode_bytes("/a.png", b"\x89PNG\r\n").err().unwrap();
    assert!(e.llm_text.contains("binary"));
}

#[test]
fn utf8_is_decoded_as_utf8() {
    let (text, enc) = decode_bytes("/a", "héllo\n".as_bytes()).ok().unwrap();
    assert_eq!(text, "héllo\n");
    assert_eq!(enc, "UTF-8");
    let (text, enc) = decode_bytes("/empty", b"").ok().unwrap();
    assert_eq!(text, "");
    assert_eq!(enc, "UTF-8");
}

#[test]
fn legacy_bytes_without_bom_are_read_as_lossy_utf8() {
    // "Grüße aus Köln" in windows-1252 has no BOM and no NUL: inspected as UTF-8.
    let (text, enc) = decode_bytes("/a", b"Gr\xfc\xdfe aus K\xf6ln").ok().unwrap();
    assert_eq!(text, "Gr\u{FFFD}\u{FFFD}e aus K\u{FFFD}ln");
    assert_eq!(enc, "UTF-8");
}

#[test]
fn bom_marked_utf16_goes_through_the_detector() {
    let (text, enc) = decode_bytes("/w", b"\xff\xfeh\x00i\x00").ok().unwrap();
    assert_eq!(text, "hi");
    assert!(!enc.is_empty());
}

#[test]
fn read_normalizes_crlf_files() {
    let d = decode_read("/w.txt", &stat(9, 77), b"a\r\nb\r\nc").ok().unwrap();
    assert_eq!(d.text, "a\nb\nc");
    assert!(d.line_ending == LineEnding::CrLf);
    assert_eq!(d.encoding, "UTF-8");
    assert!(d.fingerprint == Fingerprint::Present { mtime: 77, size: 9 });
    let d = decode_read("/u.txt", &stat(4, 1), b"a\nb\r\n").ok().unwrap();
    assert_eq!(d.text, "a\nb\r\n");
    assert!(d.line_ending == LineEnding::Lf);
}

#[test]
fn write_restores_line_endings_and_encoding() {
    let b = encode_for_write("/w.txt", "a\nb\n", "UTF-8", LineEnding::CrLf).ok().unwrap();
    assert_eq!(b, b"a\r\nb\r\n".to_vec());
    let b = encode_for_write("/l.txt", "Köln", "windows-1252", LineEnding::Lf).ok().unwrap();
    assert_eq!(b, b"K\xf6ln".to_vec());
    // Unknown labels fall back to UTF-8.
    let b = encode_for_write("/x", "é", "no-such-encoding", LineEnding::Lf).ok().unwrap();
    assert_eq!(b, "é".as_bytes().to_vec());
}

#[test]
fn unrepresentable_characters_refuse_the_write() {
    let e = encode_for_write("/l.txt", "snow ☃", "windows-1252", LineEnding::Lf).err().unwrap();
    assert!(e.is_error);
    assert_eq!(
        e.llm_text,
        "The new content contains characters that cannot be represented in the file's original encoding (windows-1252). No changes were made."
    );
}

#[test]
fn utf16_files_fail_the_round_trip_check() {
    let e = encode_for_write("/u16.txt", "hi", "UTF-16LE", LineEnding::Lf).err().unwrap();
    assert_eq!(
        e.llm_text,
        "Encoding round-trip verification failed for /u16.txt (UTF-16LE). No changes were made."
    );
}

#[test]
fn crlf_round_trip_on_concrete_text() {
    for t in ["", "a", "a\nb", "\r\n", "x\r\ny\n", "\n\n"] {
        assert_eq!(normalize_to_lf(&restore_crlf(t)), t);
    }
}

#[test]
fn race_check_before_write() {
    let fp = Fingerprint::Present { mtime: 5, size: 10 };
    assert!(check_unchanged("/f", &Ok(stat(10, 5)), fp).is_ok());
    let e = check_unchanged("/f", &Ok(stat(11, 5)), fp).err().unwrap();
    assert_eq!(
        e.llm_text,
        "The file changed on disk between preview and write (mtime or size differs). Aborted. Please re-read the file and retry."
    );
    assert!(check_unchanged("/n", &Err(SftpBrowserError::PathNotFound("/n".into())), Fingerprint::Absent).is_ok());
    let e = check_unchanged("/f", &Err(SftpBrowserError::NotConnected), fp).err().unwrap();
    assert_eq!(e.llm_text, "Could not stat /f before writing: Not connected");
}

#[test]
fn fingerprint_after_write_falls_back_to_expected() {
    let fp = Fingerprint::Absent;
    assert!(fingerprint_after_write(&Ok(stat(3, 9)), fp) == Fingerprint::Present { mtime: 9, size: 3 });
    assert!(fingerprint_after_write(&Err(SftpBrowserError::NotConnected), fp) == Fingerprint::Absent);
}

fn prepared(path: &str, text: &str) -> PreparedWrite {
    PreparedWrite {
        path: path.into(),
        new_text: text.into(),
        diff: String::new(),
        expected: Fingerprint::Absent,
        encoding_label: "UTF-8".into(),
        line_ending: LineEnding::Lf,
    }
}

#[test]
fn pending_write_is_taken_back_exactly_once() {
    let mut p = new_pending_writes();
    p.insert("call_1".to_string(), prepared("/a", "one"));
    p.insert("call_2".to_string(), prepared("/b", "two"));
    p.insert("call_1".to_string(), prepared("/a", "uno"));
    assert!(p.contains_key(&"call_2".to_string()));
    let w = p.remove(&"call_1".to_string()).unwrap();
    assert_eq!(w.new_text, "uno");
    assert!(p.remove(&"call_1".to_string()).is_none());
    assert_eq!(p.get(&"call_2".to_string()).unwrap().path, "/b");
}

#[test]
fn read_cache_is_keyed_by_identity_and_path() {
    let mut c = new_read_cache();
    let key = ("root@h:22".to_string(), "/etc/hosts".to_string());
    assert!(c.get(&key).is_none());
    c.insert(
        key.clone(),
        ReadCacheEntry {
            text: "127.0.0.1 localhost\n".into(),
            encoding_label: "UTF-8".into(),
            line_ending: LineEnding::Lf,
            fingerprint: Fingerprint::Present { mtime: 1, size: 20 },
            fetched_at: std::time::Instant::now(),
        },
    );
    assert_eq!(c.get(&key).unwrap().text, "127.0.0.1 localhost\n");
    let other = ("root@g:22".to_string(), "/etc/hosts".to_string());
    assert!(!c.contains_key(&other));
    assert!(c.remove(&other).is_none());
    assert!(c.remove(&key).is_some());
    assert!(c.get(&key).is_none());
}
