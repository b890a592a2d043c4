//! The shell side of the file browser when a connection has no SFTP
//! subsystem: the commands it runs (every path quoted), and how their
//! output is read back.

use vstd::prelude::*;
use vstd::utf8::encode_utf8;
use base64::Engine;
use crate::sftp::{
    parse_u64, parse_u64_spec, shell_escape, shell_quoted, SftpBrowserError, TransferError,
};
use crate::remote_fs::{lossy_utf8, utf8_lossy};
use crate::models::occurs;
use crate::text::{
    chars_of, is_whitespace, lowercase_of, push_dec, push_str, string_of, to_lowercase, trim,
    trim_chars, unicode_whitespace,
};

verus! {

/// Largest file the text editor opens (5 MiB).
pub const MAX_EDIT_SIZE: u64 = 5242880;

/// Lists a directory: `ls -lA` with epoch timestamps where `ls` supports
/// them, plain `ls -lA` otherwise.
pub fn list_command(path: &str) -> (c: String)
    ensures
        c@ == "ls -lA --time-style=+%s "@ + shell_quoted(path@) + " 2>/dev/null || ls -lA "@
            + shell_quoted(path@),
{
    let q = shell_escape(path);
    let mut c = String::from_str("ls -lA --time-style=+%s ");
    push_str(&mut c, q.as_str());
    push_str(&mut c, " 2>/dev/null || ls -lA ");
    push_str(&mut c, q.as_str());
    c
}

/// `mkdir -p` of a path.
pub fn mkdir_command(path: &str) -> (c: String)
    ensures
        c@ == "mkdir -p "@ + shell_quoted(path@),
{
    let mut c = String::from_str("mkdir -p ");
    push_str(&mut c, shell_escape(path).as_str());
    c
}

/// `rm -rf` of a path.
pub fn delete_command(path: &str) -> (c: String)
    ensures
        c@ == "rm -rf "@ + shell_quoted(path@),
{
    let mut c = String::from_str("rm -rf ");
    push_str(&mut c, shell_escape(path).as_str());
    c
}

/// `touch` of a path.
pub fn touch_command(path: &str) -> (c: String)
    ensures
        c@ == "touch "@ + shell_quoted(path@),
{
    let mut c = String::from_str("touch ");
    push_str(&mut c, shell_escape(path).as_str());
    c
}

/// Prints `EXISTS` when something is at the path.
pub fn exists_check_command(path: &str) -> (c: String)
    ensures
        c@ == "test -e "@ + shell_quoted(path@) + " && echo EXISTS"@,
{
    let mut c = String::from_str("test -e ");
    push_str(&mut c, shell_escape(path).as_str());
    push_str(&mut c, " && echo EXISTS");
    c
}

/// `mv` from one path to another.
pub fn rename_command(old_path: &str, new_path: &str) -> (c: String)
    ensures
        c@ == "mv "@ + shell_quoted(old_path@) + " "@ + shell_quoted(new_path@),
{
    let mut c = String::from_str("mv ");
    push_str(&mut c, shell_escape(old_path).as_str());
    push_str(&mut c, " ");
    push_str(&mut c, shell_escape(new_path).as_str());
    c
}

/// Prints a file's size in bytes (GNU `stat`, else BSD `stat`).
pub fn size_command(path: &str) -> (c: String)
    ensures
        c@ == "stat -c %s "@ + shell_quoted(path@) + " 2>/dev/null || stat -f %z "@ + shell_quoted(
            path@,
        ),
{
    let q = shell_escape(path);
    let mut c = String::from_str("stat -c %s ");
    push_str(&mut c, q.as_str());
    push_str(&mut c, " 2>/dev/null || stat -f %z ");
    push_str(&mut c, q.as_str());
    c
}

/// Prints a file's content in base64.
pub fn read_base64_command(path: &str) -> (c: String)
    ensures
        c@ == "base64 "@ + shell_quoted(path@),
{
    let mut c = String::from_str("base64 ");
    push_str(&mut c, shell_escape(path).as_str());
    c
}

/// Empties a file (creating it when missing).
pub fn truncate_command(path: &str) -> (c: String)
    ensures
        c@ == ": > "@ + shell_quoted(path@),
{
    let mut c = String::from_str(": > ");
    push_str(&mut c, shell_escape(path).as_str());
    c
}

/// Writes its base64 input, decoded, to a file.
pub fn write_base64_command(path: &str) -> (c: String)
    ensures
        c@ == "base64 -d > "@ + shell_quoted(path@),
{
    let mut c = String::from_str("base64 -d > ");
    push_str(&mut c, shell_escape(path).as_str());
    c
}

/// The existence check found the destination: its trimmed output holds
/// `EXISTS`.
pub fn destination_exists(output: &str) -> (b: bool)
    ensures
        b == occurs(trim(output@), "EXISTS"@),
{
    let t = trim_chars(&chars_of(output));
    occurs_in(&t, "EXISTS")
}

pub(crate) fn occurs_in(v: &Vec<char>, needle: &str) -> (b: bool)
    ensures
        b == occurs(v@, needle@),
{
    let n = chars_of(needle);
    if n.len() > v.len() {
        proof {
            assert forall|i: int| 0 <= i && i + n@.len() <= v@.len() implies #[trigger] v@.subrange(
                i,
                i + n@.len(),
            ) != n@ by {}
        }
        return false;
    }
    let last = v.len() - n.len();
    let mut i: usize = 0;
    while i <= last
        invariant
            n@ == needle@,
            last == v@.len() - n@.len(),
            v@.len() <= usize::MAX,
            forall|j: int| 0 <= j < i ==> #[trigger] v@.subrange(j, j + n@.len()) != n@,
        decreases last + 1 - i,
    {
        let mut k: usize = 0;
        let mut same = true;
        while k < n.len()
            invariant
                k <= n@.len(),
                i + n@.len() <= v@.len(),
                v@.len() <= usize::MAX,
                same == forall|q: int| 0 <= q < k ==> v@[i + q] == n@[q],
            decreases n@.len() - k,
        {
            if v[i + k] != n[k] {
                same = false;
            }
            k = k + 1;
        }
        if same {
            proof {
                assert(v@.subrange(i as int, i + n@.len()) =~= n@);
            }
            return true;
        }
        proof {
            let q = choose|q: int| 0 <= q < n@.len() && v@[i + q] != n@[q];
            assert(v@.subrange(i as int, i + n@.len())[q] != n@[q]);
            assert(n@.len() > 0);
        }
        i = i + 1;
    }
    proof {
        assert forall|j: int| 0 <= j && j + n@.len() <= v@.len() implies #[trigger] v@.subrange(
            j,
            j + n@.len(),
        ) != n@ by {
            assert(j < i);
        }
    }
    false
}

/// Reads the size printed by `size_command`.
pub fn parse_file_size(path: &str, output: &str) -> (r: Result<u64, SftpBrowserError>)
    ensures
        match parse_u64_spec(trim(output@)) {
            Some(n) => r == Ok::<u64, SftpBrowserError>(n),
            None => r matches Err(SftpBrowserError::ParseError(m)) && m@ == "Cannot determine file size: "@
                + path@,
        },
{
    let t = trim_chars(&chars_of(output));
    match parse_u64(&t) {
        Some(n) => Ok(n),
        None => {
            let mut m = String::from_str("Cannot determine file size: ");
            push_str(&mut m, path);
            Err(SftpBrowserError::ParseError(m))
        },
    }
}

/// `s` without its whitespace characters.
pub open spec fn without_whitespace(s: Seq<char>) -> Seq<char>
    decreases s.len(),
{
    if s.len() == 0 {
        s
    } else if unicode_whitespace(s.last()) {
        without_whitespace(s.drop_last())
    } else {
        without_whitespace(s.drop_last()).push(s.last())
    }
}

/// The characters of `v` that are not whitespace, in order.
fn strip_whitespace(v: &Vec<char>) -> (clean: String)
    ensures
        clean@ == without_whitespace(v@),
{
    let mut clean = String::new();
    let mut i: usize = 0;
    while i < v.len()
        invariant
            i <= v@.len(),
            clean@ == without_whitespace(v@.take(i as int)),
        decreases v@.len() - i,
    {
        proof {
            assert(v@.take(i + 1).drop_last() =~= v@.take(i as int));
        }
        if !is_whitespace(v[i]) {
            clean.push(v[i]);
        }
        i = i + 1;
    }
    assert(v@.take(v@.len() as int) =~= v@);
    clean
}

/// What `general_purpose::STANDARD.decode` gives for a text: the bytes,
/// or the message of its decode error.
pub uninterp spec fn standard_base64_decoded(text: Seq<char>) -> Result<Seq<u8>, Seq<char>>;

/// Decodes with base64's `STANDARD` engine. Claimed: the outcome, bytes or
/// the error's message, depends on the text alone.
#[verifier::external_body]
fn base64_standard_decode(text: &str) -> (r: Result<Vec<u8>, String>)
    ensures
        match r {
            Ok(b) => standard_base64_decoded(text@) == Ok::<Seq<u8>, Seq<char>>(b@),
            Err(e) => standard_base64_decoded(text@) == Err::<Seq<u8>, Seq<char>>(e@),
        },
{
    match base64::engine::general_purpose::STANDARD.decode(text) {
        Ok(b) => Ok(b),
        Err(e) => Err(e.to_string()),
    }
}

/// `String::from_utf8`: the text when the bytes are UTF-8, as std
/// documents.
#[verifier::external_body]
pub(crate) fn utf8_text(bytes: &[u8]) -> (r: Option<String>)
    ensures
        r matches Some(s) ==> encode_utf8(s@) == bytes@,
        r is None ==> forall|c: Seq<char>| encode_utf8(c) != bytes@,
{
    String::from_utf8(bytes.to_vec()).ok()
}

/// What reading a text file through `read_base64_command` gives: empty
/// output is an empty file; otherwise the whitespace-free output must
/// decode as base64, and the bytes must be UTF-8.
pub open spec fn base64_text_outcome(output: Seq<char>) -> Result<Option<Seq<u8>>, Seq<char>> {
    let clean = without_whitespace(output);
    if clean.len() == 0 {
        Ok(None)
    } else {
        match standard_base64_decoded(clean) {
            Ok(b) => Ok(Some(b)),
            Err(e) => Err("Base64 decode failed: "@ + e),
        }
    }
}

/// Reads back the output of `read_base64_command` as text.
pub fn decode_base64_text(output: &str) -> (r: Result<String, SftpBrowserError>)
    ensures
        match base64_text_outcome(output@) {
            Ok(None) => r matches Ok(s) && s@.len() == 0,
            Ok(Some(b)) => match r {
                Ok(s) => encode_utf8(s@) == b,
                Err(e) => (e matches SftpBrowserError::ParseError(m) && m@
                    == "File is not valid UTF-8 text"@) && forall|c: Seq<char>|
                    encode_utf8(c) != b,
            },
            Err(m) => r matches Err(SftpBrowserError::ParseError(x)) && x@ == m,
        },
{
    let clean = strip_whitespace(&chars_of(output));
    if !crate::text::is_nonempty(clean.as_str()) {
        return Ok(String::new());
    }
    match base64_standard_decode(clean.as_str()) {
        Ok(bytes) => match utf8_text(bytes.as_slice()) {
            Some(s) => Ok(s),
            None => Err(SftpBrowserError::ParseError(String::from_str("File is not valid UTF-8 text"))),
        },
        Err(e) => {
            let mut m = String::from_str("Base64 decode failed: ");
            push_str(&mut m, e.as_str());
            Err(SftpBrowserError::ParseError(m))
        },
    }
}

/// Raw bytes per base64 line of a streamed write (48 KiB, a multiple of
/// 3, so no line carries padding in the middle of the stream).
pub const WRITE_CHUNK: usize = 49152;

/// What `general_purpose::STANDARD.encode` gives for some bytes.
pub uninterp spec fn standard_base64_encoded(bytes: Seq<u8>) -> Seq<char>;

/// Encodes with base64's `STANDARD` engine. Claimed: the text depends on
/// the bytes alone.
#[verifier::external_body]
pub(crate) fn base64_standard_encode(bytes: &[u8]) -> (r: String)
    ensures
        r@ == standard_base64_encoded(bytes@),
{
    base64::engine::general_purpose::STANDARD.encode(bytes)
}

/// The `i`-th slice of `WRITE_CHUNK` bytes of `data` (the last may be
/// shorter).
pub open spec fn write_chunk(data: Seq<u8>, i: int) -> Seq<u8> {
    let start = i * WRITE_CHUNK;
    let end = if start + WRITE_CHUNK < data.len() { start + WRITE_CHUNK } else { data.len() as int };
    data.subrange(start, end)
}

/// How many lines a streamed write of `n` bytes sends.
pub open spec fn write_chunk_count(n: nat) -> nat {
    ((n + WRITE_CHUNK - 1) / (WRITE_CHUNK as int)) as nat
}

/// The lines piped into `write_base64_command` for some bytes: each
/// `WRITE_CHUNK` of them in base64, ended by a newline.
pub fn write_payload(data: &[u8]) -> (r: Vec<String>)
    ensures
        r@.len() == write_chunk_count(data@.len()),
        forall|i: int|
            0 <= i < r@.len() ==> #[trigger] r@[i]@ == standard_base64_encoded(write_chunk(data@, i))
                + seq!['\n'],
{
    let ghost d = data@;
    let mut r: Vec<String> = Vec::new();
    let mut pos: usize = 0;
    while pos < data.len()
        invariant
            data@ == d,
            pos <= d.len(),
            pos == (if r@.len() * WRITE_CHUNK <= d.len() { r@.len() * WRITE_CHUNK } else { d.len() as int }),
            r@.len() > 0 ==> (r@.len() - 1) * WRITE_CHUNK < d.len(),
            forall|i: int|
                0 <= i < r@.len() ==> #[trigger] r@[i]@ == standard_base64_encoded(write_chunk(d, i))
                    + seq!['\n'],
        decreases d.len() - pos,
    {
        let end: usize = if data.len() - pos > WRITE_CHUNK {
            pos + WRITE_CHUNK
        } else {
            data.len()
        };
        let mut chunk: Vec<u8> = Vec::new();
        let mut k: usize = pos;
        while k < end
            invariant
                pos <= k <= end <= data@.len(),
                chunk@ == data@.subrange(pos as int, k as int),
            decreases end - k,
        {
            chunk.push(data[k]);
            k = k + 1;
        }
        let mut line = base64_standard_encode(chunk.as_slice());
        line.push('\n');
        proof {
            assert(chunk@ == write_chunk(d, r@.len() as int));
        }
        r.push(line);
        pos = end;
    }
    proof {
        lemma_chunk_count(d.len(), r@.len());
    }
    r
}

proof fn lemma_chunk_count(n: nat, k: nat)
    requires
        k * WRITE_CHUNK >= n,
        k > 0 ==> (k - 1) * WRITE_CHUNK < n,
    ensures
        k == write_chunk_count(n),
{
    assert(k == (n + WRITE_CHUNK - 1) / (WRITE_CHUNK as int)) by (nonlinear_arith)
        requires
            k * 49152 >= n,
            k > 0 ==> (k - 1) * 49152 < n,
            WRITE_CHUNK == 49152,
    ;
}

/// How a streamed write ended: a non-zero exit status is an error — a
/// permission error when stderr says so, else stderr's text, or the exit
/// status when stderr is blank.
pub fn write_exit_error(path: &str, exit_code: Option<u32>, stderr: &str) -> (r: Result<(), SftpBrowserError>)
    ensures
        match exit_code {
            Some(code) if code != 0 => {
                let msg = trim(stderr@);
                if occurs(lowercase_of(msg), "permission denied"@) {
                    r matches Err(SftpBrowserError::PermissionDenied(p)) && p@ == path@
                } else if msg.len() == 0 {
                    r matches Err(SftpBrowserError::ParseError(m)) && m@ == "Write failed with exit code "@
                        + crate::text::dec(code as nat)
                } else {
                    r matches Err(SftpBrowserError::ParseError(m)) && m@ == msg
                }
            },
            _ => r is Ok,
        },
{
    match exit_code {
        Some(code) => {
            if code == 0 {
                return Ok(());
            }
            let msg = string_of(trim_chars(&chars_of(stderr)).as_slice());
            let lower = chars_of(to_lowercase(msg.as_str()).as_str());
            if occurs_in(&lower, "permission denied") {
                return Err(SftpBrowserError::PermissionDenied(String::from_str(path)));
            }
            if !crate::text::is_nonempty(msg.as_str()) {
                let mut m = String::from_str("Write failed with exit code ");
                push_dec(&mut m, code as u64);
                return Err(SftpBrowserError::ParseError(m));
            }
            Err(SftpBrowserError::ParseError(msg))
        },
        None => Ok(()),
    }
}

// ---------------------------------------------------------------------------
// Downloads: `base64 <file>` streamed back and decoded line by line
// ---------------------------------------------------------------------------

/// Bytes decoded from the complete lines of a stream `s`, given the
/// unfinished line `line` read before it, and the message of the first
/// decode error, if any (decoding stops there). Blank lines are skipped.
pub open spec fn stream_decoded(s: Seq<char>, line: Seq<char>) -> (Seq<u8>, Option<Seq<char>>)
    decreases s.len(),
{
    if s.len() == 0 {
        (Seq::empty(), None)
    } else if s[0] == '\n' {
        let clean = without_whitespace(line);
        if clean.len() == 0 {
            stream_decoded(s.drop_first(), Seq::empty())
        } else {
            match standard_base64_decoded(clean) {
                Ok(b) => {
                    let rest = stream_decoded(s.drop_first(), Seq::empty());
                    (b + rest.0, rest.1)
                },
                Err(m) => (Seq::empty(), Some(m)),
            }
        }
    } else {
        stream_decoded(s.drop_first(), line.push(s[0]))
    }
}

/// The unfinished line left after reading `s` from `line` on.
pub open spec fn stream_pending(s: Seq<char>, line: Seq<char>) -> Seq<char>
    decreases s.len(),
{
    if s.len() == 0 {
        line
    } else if s[0] == '\n' {
        stream_pending(s.drop_first(), Seq::empty())
    } else {
        stream_pending(s.drop_first(), line.push(s[0]))
    }
}

/// How the channel splits a download's text into messages does not change
/// what is decoded: reading `a` and then `b` gives the bytes, the first
/// error and the unfinished line that reading `a + b` at once gives.
pub proof fn lemma_stream_split(a: Seq<char>, b: Seq<char>, line: Seq<char>)
    ensures
        stream_decoded(a + b, line) == (match stream_decoded(a, line).1 {
            Some(m) => stream_decoded(a, line),
            None => (
                stream_decoded(a, line).0 + stream_decoded(b, stream_pending(a, line)).0,
                stream_decoded(b, stream_pending(a, line)).1,
            ),
        }),
        stream_decoded(a, line).1 is None ==> stream_pending(a + b, line) == stream_pending(
            b,
            stream_pending(a, line),
        ),
    decreases a.len(),
{
    if a.len() == 0 {
        assert(a + b =~= b);
        assert(Seq::<u8>::empty() + stream_decoded(b, line).0 =~= stream_decoded(b, line).0);
    } else {
        assert((a + b).drop_first() =~= a.drop_first() + b);
        assert((a + b)[0] == a[0]);
        if a[0] == '\n' {
            lemma_stream_split(a.drop_first(), b, Seq::empty());
            let clean = without_whitespace(line);
            if clean.len() != 0 {
                match standard_base64_decoded(clean) {
                    Ok(x) => {
                        let ra = stream_decoded(a.drop_first(), Seq::empty());
                        let rb = stream_decoded(b, stream_pending(a.drop_first(), Seq::empty()));
                        assert(x + (ra.0 + rb.0) =~= (x + ra.0) + rb.0);
                    },
                    Err(m) => {},
                }
            }
        } else {
            lemma_stream_split(a.drop_first(), b, line.push(a[0]));
        }
    }
}

/// Decodes the base64 text of a download as it arrives.
pub struct StreamDecoder {
    line: Vec<char>,
}

impl StreamDecoder {
    /// The text received since the last newline.
    pub closed spec fn pending(&self) -> Seq<char> {
        self.line@
    }

    pub fn new() -> (d: StreamDecoder)
        ensures
            d.pending() == Seq::<char>::empty(),
    {
        StreamDecoder { line: Vec::new() }
    }

    /// Takes a message of channel data (read as lossy UTF-8) and returns
    /// the bytes of the lines it completes, up to a decode error, which
    /// ends the download.
    pub fn feed(&mut self, data: &[u8]) -> (out: (Vec<u8>, Option<TransferError>))
        ensures
            out.0@ == stream_decoded(lossy_utf8(data@), old(self).pending()).0,
            match stream_decoded(lossy_utf8(data@), old(self).pending()).1 {
                None => out.1 is None && final(self).pending() == stream_pending(
                    lossy_utf8(data@),
                    old(self).pending(),
                ),
                Some(m) => out.1 matches Some(TransferError::IoError(x)) && x@
                    == "Base64 decode error: "@ + m,
            },
    {
        let text = chars_of(utf8_lossy(data).as_str());
        let ghost t = text@;
        let ghost start = self.line@;
        let mut line: Vec<char> = Vec::new();
        std::mem::swap(&mut line, &mut self.line);
        let mut out: Vec<u8> = Vec::new();
        let mut i: usize = 0;
        assert(t.skip(0) =~= t);
        assert(Seq::<u8>::empty() + stream_decoded(t, start).0 =~= stream_decoded(t, start).0);
        while i < text.len()
            invariant
                text@ == t,
                t == lossy_utf8(data@),
                start == old(self).line@,
                i <= t.len(),
                stream_decoded(t, start).1 == stream_decoded(t.skip(i as int), line@).1,
                stream_decoded(t, start).0 == out@ + stream_decoded(t.skip(i as int), line@).0,
                stream_pending(t, start) == stream_pending(t.skip(i as int), line@),
            decreases t.len() - i,
        {
            assert(t.skip(i as int).drop_first() =~= t.skip(i + 1));
            assert(t.skip(i as int)[0] == t[i as int]);
            let c = text[i];
            if c == '\n' {
                let clean = strip_whitespace(&line);
                if crate::text::is_nonempty(clean.as_str()) {
                    match base64_standard_decode(clean.as_str()) {
                        Ok(b) => {
                            let ghost before = out@;
                            let ghost bytes = b@;
                            let mut b = b;
                            out.append(&mut b);
                            assert(before + (bytes + stream_decoded(t.skip(i + 1), Seq::empty()).0)
                                =~= out@ + stream_decoded(t.skip(i + 1), Seq::empty()).0);
                        },
                        Err(e) => {
                            assert(stream_decoded(t.skip(i as int), line@).0 == Seq::<u8>::empty());
                            assert(out@ + Seq::<u8>::empty() =~= out@);
                            let mut m = String::from_str("Base64 decode error: ");
                            push_str(&mut m, e.as_str());
                            return (out, Some(TransferError::IoError(m)));
                        },
                    }
                }
                line = Vec::new();
            } else {
                line.push(c);
            }
            i = i + 1;
        }
        assert(t.skip(i as int) =~= Seq::<char>::empty());
        assert(out@ + Seq::<u8>::empty() =~= out@);
        self.line = line;
        (out, None)
    }

    /// The last, unterminated line once the channel is done.
    pub fn finish(&self) -> (r: Result<Vec<u8>, TransferError>)
        ensures
            ({
                let clean = without_whitespace(self.pending());
                if clean.len() == 0 {
                    r matches Ok(b) && b@.len() == 0
                } else {
                    match standard_base64_decoded(clean) {
                        Ok(b) => r matches Ok(x) && x@ == b,
                        Err(m) => r matches Err(TransferError::IoError(x)) && x@
                            == "Base64 decode error (tail): "@ + m,
                    }
                }
            }),
    {
        let clean = strip_whitespace(&self.line);
        if !crate::text::is_nonempty(clean.as_str()) {
            return Ok(Vec::new());
        }
        match base64_standard_decode(clean.as_str()) {
            Ok(b) => Ok(b),
            Err(e) => {
                let mut m = String::from_str("Base64 decode error (tail): ");
                push_str(&mut m, e.as_str());
                Err(TransferError::IoError(m))
            },
        }
    }
}

/// Prints a file's size in bytes for a download (GNU `stat`, else BSD
/// `stat`, errors silenced).
pub fn download_size_command(path: &str) -> (c: String)
    ensures
        c@ == "stat -c%s "@ + shell_quoted(path@) + " 2>/dev/null || stat -f%z "@ + shell_quoted(
            path@,
        ) + " 2>/dev/null"@,
{
    let q = shell_escape(path);
    let mut c = String::from_str("stat -c%s ");
    push_str(&mut c, q.as_str());
    push_str(&mut c, " 2>/dev/null || stat -f%z ");
    push_str(&mut c, q.as_str());
    push_str(&mut c, " 2>/dev/null");
    c
}

/// Prints `EXISTS` when a regular file is at the path.
pub fn file_exists_command(path: &str) -> (c: String)
    ensures
        c@ == "test -f "@ + shell_quoted(path@) + " && echo EXISTS"@,
{
    let mut c = String::from_str("test -f ");
    push_str(&mut c, shell_escape(path).as_str());
    push_str(&mut c, " && echo EXISTS");
    c
}

/// The size a download expects: what `download_size_command` printed, or
/// 0 when that is not a number.
pub fn download_size(output: &str) -> (n: u64)
    ensures
        n == match parse_u64_spec(trim(output@)) {
            Some(v) => v,
            None => 0,
        },
{
    match parse_u64(&trim_chars(&chars_of(output))) {
        Some(v) => v,
        None => 0,
    }
}

/// A download of zero bytes goes on only when the file exists (then it is
/// an empty file); otherwise the file was not found.
pub fn empty_download_check(path: &str, exists_output: &str) -> (r: Result<(), TransferError>)
    ensures
        occurs(trim(exists_output@), "EXISTS"@) ==> r is Ok,
        !occurs(trim(exists_output@), "EXISTS"@) ==> (r matches Err(TransferError::FileNotFound(p))
            && p@ == path@),
{
    if destination_exists(exists_output) {
        Ok(())
    } else {
        Err(TransferError::FileNotFound(String::from_str(path)))
    }
}

/// Progress is reported every 64 KiB.
pub const PROGRESS_STEP: u64 = 65536;

/// A download reports progress once `PROGRESS_STEP` bytes were written
/// since the last report.
pub fn download_progress_due(done: u64, last_reported: u64) -> (b: bool)
    requires
        last_reported <= done,
    ensures
        b == (done - last_reported >= PROGRESS_STEP),
{
    done - last_reported >= PROGRESS_STEP
}

/// An upload reports progress every `PROGRESS_STEP` bytes sent, and when
/// the last byte is sent.
pub fn upload_progress_due(sent: u64, last_reported: u64, total: u64) -> (b: bool)
    requires
        last_reported <= sent,
    ensures
        b == (sent - last_reported >= PROGRESS_STEP || sent == total),
{
    sent - last_reported >= PROGRESS_STEP || sent == total
}

/// How a streamed upload ended: a non-zero exit status is an I/O error
/// with stderr's text, or the exit status when stderr is blank.
pub fn upload_exit_error(exit_code: Option<u32>, stderr: &str) -> (r: Result<(), TransferError>)
    ensures
        match exit_code {
            Some(code) if code != 0 => {
                let msg = trim(stderr@);
                if msg.len() == 0 {
                    r matches Err(TransferError::IoError(m)) && m@ == "Upload failed with exit code "@
                        + crate::text::dec(code as nat)
                } else {
                    r matches Err(TransferError::IoError(m)) && m@ == msg
                }
            },
            _ => r is Ok,
        },
{
    match exit_code {
        Some(code) => {
            if code == 0 {
                return Ok(());
            }
            let msg = string_of(trim_chars(&chars_of(stderr)).as_slice());
            if !crate::text::is_nonempty(msg.as_str()) {
                let mut m = String::from_str("Upload failed with exit code ");
                push_dec(&mut m, code as u64);
                return Err(TransferError::IoError(m));
            }
            Err(TransferError::IoError(msg))
        },
        None => Ok(()),
    }
}

} // verus!
