//! The agent's view of remote files: line-ending detection and
//! normalization, change fingerprints, the read cache entry, prepared
//! writes, and the tool results for filesystem errors.

use vstd::prelude::*;
use vstd::utf8::encode_utf8;
use chardetng::EncodingDetector;
use content_inspector::{inspect, ContentType};
use encoding_rs::Encoding;
use crate::sftp::{browser_error_text, RemoteStat, SftpBrowserError};
use crate::table::Table;
use crate::text::{chars_of, push_str, str_eq, string_of, utf8_len};
use crate::types::{err_text, ok_text, ToolResult};

verus! {

/// The `std::time::Instant` type, carried through unchanged.
#[verifier::external_type_specification]
#[verifier::external_body]
pub struct ExInstant(std::time::Instant);

/// Largest file the agent reads (1 MiB).
pub const AGENT_READ_MAX: u64 = 1048576;

/// A file's line-ending convention.
#[derive(PartialEq, Eq, Structural, Clone, Copy)]
pub enum LineEnding {
    Lf,
    CrLf,
}

impl LineEnding {
    /// The line terminator.
    pub fn as_str(self) -> (s: &'static str)
        ensures
            s@ == (match self {
                LineEnding::Lf => "\n"@,
                LineEnding::CrLf => "\r\n"@,
            }),
    {
        match self {
            LineEnding::Lf => "\n",
            LineEnding::CrLf => "\r\n",
        }
    }
}

/// What identifies a version of a file between a read and a write.
#[derive(PartialEq, Eq, Structural, Clone, Copy)]
pub enum Fingerprint {
    Present { mtime: u64, size: u64 },
    Absent,
}

/// The fingerprint a stat result gives.
pub open spec fn stat_fingerprint(stat: RemoteStat) -> Fingerprint {
    Fingerprint::Present { mtime: stat.mtime, size: stat.size }
}

impl Fingerprint {
    /// The fingerprint of a stat result.
    pub fn from_stat(stat: &RemoteStat) -> (f: Fingerprint)
        ensures
            f == (Fingerprint::Present { mtime: stat.mtime, size: stat.size }),
    {
        Fingerprint::Present { mtime: stat.mtime, size: stat.size }
    }
}

/// A decoded file kept in the read cache.
pub struct ReadCacheEntry {
    pub text: String,
    /// encoding_rs label (e.g. "UTF-8", "GBK").
    pub encoding_label: String,
    pub line_ending: LineEnding,
    pub fingerprint: Fingerprint,
    pub fetched_at: std::time::Instant,
}

/// A write prepared for approval: what the user approves is exactly what
/// gets written.
pub struct PreparedWrite {
    pub path: String,
    /// New full content, LF-normalized.
    pub new_text: String,
    /// Unified diff shown to the model.
    pub diff: String,
    /// Fingerprint when the write was prepared.
    pub expected: Fingerprint,
    pub encoding_label: String,
    pub line_ending: LineEnding,
}

/// Decoded files by (identity, path).
pub type ReadCache = Table<(String, String), ReadCacheEntry>;

/// Writes prepared for approval, by tool call id.
pub type PendingWrites = Table<String, PreparedWrite>;

/// An empty read cache.
pub fn new_read_cache() -> (c: ReadCache)
    ensures
        c@ == Map::<(Seq<char>, Seq<char>), ReadCacheEntry>::empty(),
{
    Table::new()
}

/// No writes awaiting approval.
pub fn new_pending_writes() -> (p: PendingWrites)
    ensures
        p@ == Map::<Seq<char>, PreparedWrite>::empty(),
{
    Table::new()
}

// ---------------------------------------------------------------------------
// Line endings
// ---------------------------------------------------------------------------

/// Counts of `\r\n` and of bare `\n` line ends.
pub open spec fn newline_counts(s: Seq<char>) -> (nat, nat)
    decreases s.len(),
{
    if s.len() == 0 {
        (0, 0)
    } else {
        let (crlf, lf) = newline_counts(s.drop_last());
        if s.last() == '\n' {
            if s.len() >= 2 && s[s.len() - 2] == '\r' {
                (crlf + 1, lf)
            } else {
                (crlf, lf + 1)
            }
        } else {
            (crlf, lf)
        }
    }
}

proof fn lemma_newline_counts_bound(s: Seq<char>)
    ensures
        newline_counts(s).0 + newline_counts(s).1 <= s.len(),
    decreases s.len(),
{
    if s.len() > 0 {
        lemma_newline_counts_bound(s.drop_last());
    }
}

/// Whether the first line break of a text is `\r\n` (`Some(true)`), a
/// bare `\n` (`Some(false)`), or there is none.
pub open spec fn first_break_is_crlf(s: Seq<char>) -> Option<bool>
    decreases s.len(),
{
    if s.len() == 0 {
        None
    } else {
        match first_break_is_crlf(s.drop_last()) {
            Some(b) => Some(b),
            None => if s.last() == '\n' {
                Some(s.len() >= 2 && s[s.len() - 2] == '\r')
            } else {
                None
            },
        }
    }
}

/// The convention a text uses: the majority of its line ends, and on a
/// tie the type of its first line break; LF when it has none.
pub open spec fn line_ending_of(s: Seq<char>) -> LineEnding {
    let (crlf, lf) = newline_counts(s);
    if crlf > lf {
        LineEnding::CrLf
    } else if crlf == lf && crlf > 0 && first_break_is_crlf(s) == Some(true) {
        LineEnding::CrLf
    } else {
        LineEnding::Lf
    }
}

/// Detects line endings: the first line break's type wins, and mixed
/// input resolves by majority.
pub fn detect_line_ending(text: &str) -> (e: LineEnding)
    ensures
        e == line_ending_of(text@),
{
    let v = chars_of(text);
    let mut crlf: usize = 0;
    let mut bare_lf: usize = 0;
    let mut first: Option<bool> = None;
    let mut i: usize = 0;
    while i < v.len()
        invariant
            i <= v@.len(),
            (crlf as nat, bare_lf as nat) == newline_counts(v@.take(i as int)),
            first == first_break_is_crlf(v@.take(i as int)),
        decreases v@.len() - i,
    {
        proof {
            let t = v@.take(i + 1);
            assert(t.drop_last() =~= v@.take(i as int));
            lemma_newline_counts_bound(v@.take(i as int));
        }
        if v[i] == '\n' {
            let is_crlf = i > 0 && v[i - 1] == '\r';
            if is_crlf {
                crlf = crlf + 1;
            } else {
                bare_lf = bare_lf + 1;
            }
            if first.is_none() {
                first = Some(is_crlf);
            }
        }
        i = i + 1;
    }
    assert(v@.take(v@.len() as int) =~= v@);
    if crlf > bare_lf {
        LineEnding::CrLf
    } else if crlf == bare_lf && crlf > 0 && first == Some(true) {
        LineEnding::CrLf
    } else {
        LineEnding::Lf
    }
}

/// `s.replace("\r\n", "\n")`.
pub open spec fn crlf_to_lf(s: Seq<char>) -> Seq<char>
    decreases s.len(),
{
    if s.len() < 2 {
        s
    } else if s[0] == '\r' && s[1] == '\n' {
        seq!['\n'] + crlf_to_lf(s.skip(2))
    } else {
        seq![s[0]] + crlf_to_lf(s.skip(1))
    }
}

/// `s.replace('\n', "\r\n")`.
pub open spec fn lf_to_crlf(s: Seq<char>) -> Seq<char>
    decreases s.len(),
{
    if s.len() == 0 {
        s
    } else {
        lf_to_crlf(s.drop_last()) + if s.last() == '\n' {
            seq!['\r', '\n']
        } else {
            seq![s.last()]
        }
    }
}

proof fn lemma_lf_to_crlf_append(a: Seq<char>, b: Seq<char>)
    ensures
        lf_to_crlf(a + b) == lf_to_crlf(a) + lf_to_crlf(b),
    decreases b.len(),
{
    if b.len() == 0 {
        assert(a + b =~= a);
        assert(lf_to_crlf(b) =~= Seq::<char>::empty());
        assert(lf_to_crlf(a) + lf_to_crlf(b) =~= lf_to_crlf(a));
    } else {
        assert((a + b).drop_last() =~= a + b.drop_last());
        assert((a + b).last() == b.last());
        lemma_lf_to_crlf_append(a, b.drop_last());
    }
}

proof fn lemma_lf_to_crlf_single(c: char)
    ensures
        lf_to_crlf(seq![c]) == (if c == '\n' {
            seq!['\r', '\n']
        } else {
            seq![c]
        }),
{
    let s = seq![c];
    assert(s.drop_last() =~= Seq::<char>::empty());
    assert(lf_to_crlf(s.drop_last()) =~= Seq::<char>::empty());
    assert(Seq::<char>::empty() + seq!['\r', '\n'] =~= seq!['\r', '\n']);
    assert(Seq::<char>::empty() + seq![c] =~= seq![c]);
}

/// Normalizing what a write restored gives back the LF text the agent
/// wrote: `\r\n` → `\n` undoes `\n` → `\r\n` on every text, including
/// texts that already hold a `\r`.
pub proof fn lemma_crlf_round_trip(t: Seq<char>)
    ensures
        crlf_to_lf(lf_to_crlf(t)) == t,
    decreases t.len(),
{
    if t.len() > 0 {
        let c = t[0];
        let rest = t.skip(1);
        assert(t =~= seq![c] + rest);
        lemma_lf_to_crlf_append(seq![c], rest);
        lemma_lf_to_crlf_single(c);
        lemma_crlf_round_trip(rest);
        let x = lf_to_crlf(rest);
        let s = lf_to_crlf(t);
        if c == '\n' {
            assert(s =~= seq!['\r', '\n'] + x);
            assert(s.skip(2) =~= x);
            assert(crlf_to_lf(s) =~= seq!['\n'] + rest);
        } else {
            assert(s =~= seq![c] + x);
            assert(s.skip(1) =~= x);
            if x.len() > 0 {
                assert(rest =~= seq![rest[0]] + rest.skip(1));
                lemma_lf_to_crlf_append(seq![rest[0]], rest.skip(1));
                lemma_lf_to_crlf_single(rest[0]);
                assert(x[0] != '\n');
                assert(s[1] == x[0]);
                assert(crlf_to_lf(s) =~= seq![c] + rest);
            } else {
                assert(crlf_to_lf(s) =~= s);
                assert(rest.len() == 0) by {
                    if rest.len() > 0 {
                        assert(rest =~= seq![rest[0]] + rest.skip(1));
                        lemma_lf_to_crlf_append(seq![rest[0]], rest.skip(1));
                        lemma_lf_to_crlf_single(rest[0]);
                    }
                }
                assert(s =~= seq![c]);
            }
        }
    } else {
        assert(lf_to_crlf(t) =~= t);
    }
}

/// Replaces every `\r\n` with `\n`.
pub fn normalize_to_lf(text: &str) -> (r: String)
    ensures
        r@ == crlf_to_lf(text@),
{
    let v = chars_of(text);
    let mut r = String::new();
    let mut i: usize = 0;
    assert(v@.skip(0) =~= v@);
    while i < v.len()
        invariant
            i <= v@.len(),
            r@ + crlf_to_lf(v@.skip(i as int)) == crlf_to_lf(text@),
            v@ == text@,
        decreases v@.len() - i,
    {
        let ghost t = v@.skip(i as int);
        if i + 1 < v.len() && v[i] == '\r' && v[i + 1] == '\n' {
            r.push('\n');
            proof {
                assert(t.skip(2) =~= v@.skip(i + 2));
            }
            i = i + 2;
        } else {
            r.push(v[i]);
            proof {
                assert(t.skip(1) =~= v@.skip(i + 1));
                if t.len() < 2 {
                    assert(v@.skip(i + 1) =~= Seq::<char>::empty());
                    assert(crlf_to_lf(t) =~= seq![t[0]] + crlf_to_lf(v@.skip(i + 1)));
                }
            }
            i = i + 1;
        }
        proof {
            assert(r@ + crlf_to_lf(v@.skip(i as int)) =~= crlf_to_lf(text@));
        }
    }
    assert(v@.skip(v@.len() as int) =~= Seq::<char>::empty());
    assert(r@ + Seq::<char>::empty() =~= r@);
    r
}

/// Replaces every `\n` with `\r\n`.
pub fn restore_crlf(text: &str) -> (r: String)
    ensures
        r@ == lf_to_crlf(text@),
{
    let v = chars_of(text);
    let mut r = String::new();
    let mut i: usize = 0;
    while i < v.len()
        invariant
            i <= v@.len(),
            r@ == lf_to_crlf(v@.take(i as int)),
        decreases v@.len() - i,
    {
        if v[i] == '\n' {
            r.push('\r');
            r.push('\n');
        } else {
            r.push(v[i]);
        }
        i = i + 1;
        proof {
            assert(v@.take(i as int).drop_last() =~= v@.take(i - 1));
            assert(r@ =~= lf_to_crlf(v@.take(i as int)));
        }
    }
    assert(v@.take(v@.len() as int) =~= v@);
    r
}

// ---------------------------------------------------------------------------
// Tool results for filesystem errors
// ---------------------------------------------------------------------------

/// Text of the tool error for a failed stat.
pub open spec fn stat_error_text(path: Seq<char>, e: SftpBrowserError) -> Seq<char> {
    match e {
        SftpBrowserError::NotConnected => "Not connected to the remote host."@,
        SftpBrowserError::PathNotFound(_) => "File not found: "@ + path,
        SftpBrowserError::PermissionDenied(_) => "Permission denied reading "@ + path
            + ". You may need sudo; use the terminal tool if elevated access is required."@,
        _ => "Failed to stat "@ + path + ": "@ + browser_error_text(e),
    }
}

fn permission_denied_text(path: &str) -> (s: String)
    ensures
        s@ == "Permission denied reading "@ + path@
            + ". You may need sudo; use the terminal tool if elevated access is required."@,
{
    let mut s = String::from_str("Permission denied reading ");
    push_str(&mut s, path);
    push_str(&mut s, ". You may need sudo; use the terminal tool if elevated access is required.");
    s
}

/// The tool error for a failed stat.
pub fn map_stat_error(path: &str, e: &SftpBrowserError) -> (r: ToolResult)
    ensures
        r.is_error,
        r.ui_payload is None,
        r.llm_text@ == stat_error_text(path@, *e),
{
    match e {
        SftpBrowserError::NotConnected => err_text(
            String::from_str("Not connected to the remote host."),
        ),
        SftpBrowserError::PathNotFound(_) => {
            let mut s = String::from_str("File not found: ");
            push_str(&mut s, path);
            err_text(s)
        },
        SftpBrowserError::PermissionDenied(_) => err_text(permission_denied_text(path)),
        _ => {
            let mut s = String::from_str("Failed to stat ");
            push_str(&mut s, path);
            push_str(&mut s, ": ");
            let m = e.message();
            push_str(&mut s, m.as_str());
            err_text(s)
        },
    }
}

/// The tool error for a failed read: like a failed stat, except that a
/// permission error always gets the sudo hint.
pub fn map_read_error(path: &str, e: &SftpBrowserError) -> (r: ToolResult)
    ensures
        r.is_error,
        r.ui_payload is None,
        r.llm_text@ == stat_error_text(path@, *e),
{
    match e {
        SftpBrowserError::PermissionDenied(_) => err_text(permission_denied_text(path)),
        other => map_stat_error(path, other),
    }
}

/// Success text for write_file.
pub fn wrote_result(path: &str, bytes: usize) -> (r: ToolResult)
    ensures
        !r.is_error,
        r.llm_text@ == "Wrote "@ + path@ + " ("@ + crate::text::dec(bytes as nat) + " bytes)."@,
{
    let mut s = String::from_str("Wrote ");
    push_str(&mut s, path);
    push_str(&mut s, " (");
    crate::text::push_dec(&mut s, bytes as u64);
    push_str(&mut s, " bytes).");
    ok_text(s)
}

/// The tool error for a lost connection; the loop itself carries on.
pub fn connection_lost_result(identity: &str, err: &SftpBrowserError) -> (r: ToolResult)
    ensures
        r.is_error,
        r.llm_text@ == "SSH connection to "@ + identity@
            + " was lost. The user may have closed it. Ask the user to reconnect before retrying."@,
{
    let mut s = String::from_str("SSH connection to ");
    push_str(&mut s, identity);
    push_str(
        &mut s,
        " was lost. The user may have closed it. Ask the user to reconnect before retrying.",
    );
    err_text(s)
}

// ---------------------------------------------------------------------------
// Decoding a read
// ---------------------------------------------------------------------------

/// What content_inspector reports about a buffer.
#[derive(PartialEq, Eq, Structural, Clone, Copy)]
pub enum ContentKind {
    Binary,
    Utf8,
    Utf8Bom,
    Utf16Le,
    Utf16Be,
    Utf32Le,
    Utf32Be,
}

/// `p` is a prefix of `b`.
pub open spec fn has_prefix(b: Seq<u8>, p: Seq<u8>) -> bool {
    p.len() <= b.len() && b.take(p.len() as int) == p
}

/// content_inspector's rule: a byte order mark decides (UTF-32 before
/// UTF-16); otherwise a NUL among the first 1024 bytes, or a PDF or PNG
/// signature, means binary; anything else (the empty buffer too) is UTF-8.
pub open spec fn inspected(b: Seq<u8>) -> ContentKind {
    if has_prefix(b, seq![0xEFu8, 0xBBu8, 0xBFu8]) {
        ContentKind::Utf8Bom
    } else if has_prefix(b, seq![0x00u8, 0x00u8, 0xFEu8, 0xFFu8]) {
        ContentKind::Utf32Be
    } else if has_prefix(b, seq![0xFFu8, 0xFEu8, 0x00u8, 0x00u8]) {
        ContentKind::Utf32Le
    } else if has_prefix(b, seq![0xFEu8, 0xFFu8]) {
        ContentKind::Utf16Be
    } else if has_prefix(b, seq![0xFFu8, 0xFEu8]) {
        ContentKind::Utf16Le
    } else if exists|i: int| 0 <= i < b.len() && i < 1024 && b[i] == 0x00u8 {
        ContentKind::Binary
    } else if has_prefix(b, seq![0x25u8, 0x50u8, 0x44u8, 0x46u8]) || has_prefix(
        b,
        seq![0x89u8, 0x50u8, 0x4Eu8, 0x47u8],
    ) {
        ContentKind::Binary
    } else {
        ContentKind::Utf8
    }
}

/// Calls `content_inspector::inspect`; the contract restates the rule
/// that the crate's source applies (`inspected`).
#[verifier::external_body]
fn inspect_bytes(bytes: &[u8]) -> (k: ContentKind)
    ensures
        k == inspected(bytes@),
{
    match inspect(bytes) {
        ContentType::BINARY => ContentKind::Binary,
        ContentType::UTF_8 => ContentKind::Utf8,
        ContentType::UTF_8_BOM => ContentKind::Utf8Bom,
        ContentType::UTF_16LE => ContentKind::Utf16Le,
        ContentType::UTF_16BE => ContentKind::Utf16Be,
        ContentType::UTF_32LE => ContentKind::Utf32Le,
        ContentType::UTF_32BE => ContentKind::Utf32Be,
    }
}

/// What `String::from_utf8_lossy` gives for a buffer.
pub uninterp spec fn lossy_utf8(bytes: Seq<u8>) -> Seq<char>;

/// Calls `String::from_utf8_lossy`. Claimed: the result depends on the
/// bytes alone, and valid UTF-8 comes back unchanged (as std documents);
/// how invalid sequences are replaced is left unsaid.
#[verifier::external_body]
pub(crate) fn utf8_lossy(bytes: &[u8]) -> (s: String)
    ensures
        s@ == lossy_utf8(bytes@),
        (exists|c: Seq<char>| encode_utf8(c) == bytes@) ==> encode_utf8(s@) == bytes@,
{
    String::from_utf8_lossy(bytes).into_owned()
}

/// The name of the encoding chardetng guesses for a whole buffer.
pub uninterp spec fn guessed_encoding(bytes: Seq<u8>) -> Seq<char>;

/// Whether `Encoding::for_label` knows a label.
pub uninterp spec fn known_label(label: Seq<char>) -> bool;

/// Runs chardetng's `EncodingDetector` over the whole buffer (`new`,
/// `feed` with `last` set, `guess` with no TLD and UTF-8 allowed) and
/// returns the guessed encoding's name. Claimed: the name depends on the
/// bytes alone, and it is a label `Encoding::for_label` knows (every
/// encoding's name is among encoding_rs's labels).
#[verifier::external_body]
fn guess_encoding(bytes: &[u8]) -> (name: String)
    ensures
        name@ == guessed_encoding(bytes@),
        known_label(name@),
{
    let mut detector = EncodingDetector::new();
    detector.feed(bytes, true);
    String::from(detector.guess(None, true).name())
}

/// The canonical name of the encoding a label stands for.
pub uninterp spec fn label_encoding_name(label: Seq<char>) -> Seq<char>;

/// Calls `Encoding::for_label` and, when the label is known, the
/// encoding's `name`. Claimed: `Some` exactly for known labels, the name
/// is itself a known label, and "UTF-8" names UTF-8.
#[verifier::external_body]
fn resolve_encoding(label: &str) -> (r: Option<String>)
    ensures
        r is Some <==> known_label(label@),
        r matches Some(n) ==> (n@ == label_encoding_name(label@) && known_label(n@)),
        r matches Some(n) ==> (label@ == "UTF-8"@ ==> n@ == "UTF-8"@),
        r is None ==> label@ != "UTF-8"@,
{
    match Encoding::for_label(label.as_bytes()) {
        Some(enc) => Some(String::from(enc.name())),
        None => None,
    }
}

/// What `Encoding::decode` gives for a buffer in the encoding a label
/// names (BOM sniffing included, malformed sequences replaced).
pub uninterp spec fn decoded_as(label: Seq<char>, bytes: Seq<u8>) -> Seq<char>;

/// Decodes with the encoding `label` names (`Encoding::for_label`, then
/// `decode`). Claimed: the text depends on the label and the bytes alone.
/// encoding_rs panics only when the size of its output buffer overflows
/// `usize`; the length bound keeps far below that.
#[verifier::external_body]
fn decode_as(label: &str, bytes: &[u8]) -> (text: String)
    requires
        known_label(label@),
        bytes@.len() <= usize::MAX / 8,
    ensures
        text@ == decoded_as(label@, bytes@),
{
    Encoding::for_label(label.as_bytes()).unwrap().decode(bytes).0.into_owned()
}

/// What `Encoding::encode` gives for a text in the encoding a label names:
/// the bytes, and whether some character could not be represented.
pub uninterp spec fn encoded_as(label: Seq<char>, text: Seq<char>) -> (Seq<u8>, bool);

/// Encodes with the encoding `label` names (`Encoding::for_label`, then
/// `encode`). Claimed: the result depends on the label and the text alone.
/// As for decoding, the length bound keeps the output size computation
/// from overflowing.
#[verifier::external_body]
fn encode_as(label: &str, text: &str) -> (r: (Vec<u8>, bool))
    requires
        known_label(label@),
        utf8_len(text@) <= usize::MAX / 16,
    ensures
        (r.0@, r.1) == encoded_as(label@, text@),
{
    let (bytes, _, had_errors) = Encoding::for_label(label.as_bytes()).unwrap().encode(text);
    (bytes.into_owned(), had_errors)
}

/// Text and encoding name of a buffer that is not binary: UTF-8 (with or
/// without a BOM) is decoded leniently as UTF-8; anything else is decoded
/// in the encoding chardetng guesses.
pub open spec fn decoded_text(bytes: Seq<u8>) -> (Seq<char>, Seq<char>) {
    match inspected(bytes) {
        ContentKind::Utf8 | ContentKind::Utf8Bom => (lossy_utf8(bytes), "UTF-8"@),
        _ => (decoded_as(guessed_encoding(bytes), bytes), guessed_encoding(bytes)),
    }
}

pub open spec fn binary_text(path: Seq<char>) -> Seq<char> {
    "File appears to be binary ("@ + path + "); it cannot be displayed as text."@
}

/// Decodes raw file bytes into text: binary content is refused; the
/// result is the text and the name of the encoding it was read in.
pub fn decode_bytes(path: &str, bytes: &[u8]) -> (r: Result<(String, String), ToolResult>)
    requires
        bytes@.len() <= usize::MAX / 8,
    ensures
        r is Err <==> inspected(bytes@) == ContentKind::Binary,
        r matches Ok(p) ==> (p.0@, p.1@) == decoded_text(bytes@),
        r matches Err(t) ==> (t.is_error && t.ui_payload is None && t.llm_text@ == binary_text(path@)),
{
    match inspect_bytes(bytes) {
        ContentKind::Binary => {
            let mut m = String::from_str("File appears to be binary (");
            push_str(&mut m, path);
            push_str(&mut m, "); it cannot be displayed as text.");
            Err(err_text(m))
        },
        ContentKind::Utf8 | ContentKind::Utf8Bom => Ok((utf8_lossy(bytes), String::from_str("UTF-8"))),
        _ => {
            let name = guess_encoding(bytes);
            let text = decode_as(name.as_str(), bytes);
            Ok((text, name))
        },
    }
}

/// A file read for the agent: LF-normalized text, the encoding it was
/// read in, its line-ending convention and its fingerprint.
pub struct DecodedFile {
    pub text: String,
    /// Name of the encoding (e.g. "UTF-8", "GBK").
    pub encoding: String,
    pub line_ending: LineEnding,
    pub fingerprint: Fingerprint,
}

/// The text of a read after line-ending normalization.
pub open spec fn normalized(t: Seq<char>) -> Seq<char> {
    if line_ending_of(t) == LineEnding::CrLf {
        crlf_to_lf(t)
    } else {
        t
    }
}

/// Everything a read does after the bytes arrive: decode, detect the
/// line-ending convention, normalize CRLF files to LF, and fingerprint
/// the file from the stat taken before the read.
pub fn decode_read(path: &str, stat: &RemoteStat, bytes: &[u8]) -> (r: Result<DecodedFile, ToolResult>)
    requires
        bytes@.len() <= usize::MAX / 8,
    ensures
        r is Err <==> inspected(bytes@) == ContentKind::Binary,
        r matches Err(t) ==> (t.is_error && t.llm_text@ == binary_text(path@)),
        r matches Ok(d) ==> ({
            let (t, e) = decoded_text(bytes@);
            &&& d.text@ == normalized(t)
            &&& d.encoding@ == e
            &&& d.line_ending == line_ending_of(t)
            &&& d.fingerprint == stat_fingerprint(*stat)
        }),
{
    let (text, encoding) = match decode_bytes(path, bytes) {
        Ok(p) => p,
        Err(t) => return Err(t),
    };
    let line_ending = detect_line_ending(text.as_str());
    let text = match line_ending {
        LineEnding::CrLf => normalize_to_lf(text.as_str()),
        LineEnding::Lf => text,
    };
    Ok(DecodedFile { text, encoding, line_ending, fingerprint: Fingerprint::from_stat(stat) })
}

proof fn lemma_lf_to_crlf_len(t: Seq<char>)
    ensures
        utf8_len(lf_to_crlf(t)) <= 2 * utf8_len(t),
    decreases t.len(),
{
    if t.len() > 0 {
        let p = t.drop_last();
        lemma_lf_to_crlf_len(p);
        assert(t =~= p + seq![t.last()]);
        crate::text::lemma_utf8_len_add(p, seq![t.last()]);
        crate::text::lemma_utf8_len_single(t.last());
        if t.last() == '\n' {
            let rn = seq!['\r', '\n'];
            assert(rn =~= seq!['\r'] + seq!['\n']);
            crate::text::lemma_utf8_len_add(seq!['\r'], seq!['\n']);
            crate::text::lemma_utf8_len_single('\r');
            crate::text::lemma_utf8_len_single('\n');
            crate::text::lemma_utf8_len_add(lf_to_crlf(p), rn);
        } else {
            crate::text::lemma_utf8_len_add(lf_to_crlf(p), seq![t.last()]);
        }
    }
}

// ---------------------------------------------------------------------------
// Preparing a write
// ---------------------------------------------------------------------------

/// The fingerprint a file has now, from a fresh stat: a missing file is
/// `Absent`; any other stat error is no fingerprint.
pub open spec fn current_fingerprint(stat: Result<RemoteStat, SftpBrowserError>) -> Option<Fingerprint> {
    match stat {
        Ok(s) => Some(stat_fingerprint(s)),
        Err(SftpBrowserError::PathNotFound(_)) => Some(Fingerprint::Absent),
        Err(_) => None,
    }
}

pub open spec fn changed_text() -> Seq<char> {
    "The file changed on disk between preview and write (mtime or size differs). Aborted. Please re-read the file and retry."@
}

/// The race check before a write: the file must still have the
/// fingerprint it had when the write was prepared.
pub fn check_unchanged(path: &str, stat: &Result<RemoteStat, SftpBrowserError>, expected: Fingerprint) -> (r:
    Result<(), ToolResult>)
    ensures
        r is Ok <==> current_fingerprint(*stat) == Some(expected),
        r matches Err(t) ==> (t.is_error && t.ui_payload is None && t.llm_text@ == match *stat {
            Ok(_) | Err(SftpBrowserError::PathNotFound(_)) => changed_text(),
            Err(e) => "Could not stat "@ + path@ + " before writing: "@ + browser_error_text(e),
        }),
{
    let current = match stat {
        Ok(s) => Fingerprint::from_stat(s),
        Err(SftpBrowserError::PathNotFound(_)) => Fingerprint::Absent,
        Err(e) => {
            let mut m = String::from_str("Could not stat ");
            push_str(&mut m, path);
            push_str(&mut m, " before writing: ");
            let em = e.message();
            push_str(&mut m, em.as_str());
            return Err(err_text(m));
        },
    };
    if current == expected {
        Ok(())
    } else {
        Err(
            err_text(
                String::from_str(
                    "The file changed on disk between preview and write (mtime or size differs). Aborted. Please re-read the file and retry.",
                ),
            ),
        )
    }
}

/// The fingerprint recorded after a write: the fresh stat's, or the
/// expected one when that stat fails.
pub fn fingerprint_after_write(stat: &Result<RemoteStat, SftpBrowserError>, expected: Fingerprint) -> (f:
    Fingerprint)
    ensures
        f == match *stat {
            Ok(s) => stat_fingerprint(s),
            Err(_) => expected,
        },
{
    match stat {
        Ok(s) => Fingerprint::from_stat(s),
        Err(_) => expected,
    }
}

/// The text a write puts on disk before encoding: LF text with the
/// file's own line endings restored.
pub open spec fn restored(text_lf: Seq<char>, line_ending: LineEnding) -> Seq<char> {
    match line_ending {
        LineEnding::CrLf => lf_to_crlf(text_lf),
        LineEnding::Lf => text_lf,
    }
}

/// The encoding a write uses: the one its label names, UTF-8 when the
/// label is unknown.
pub open spec fn write_encoding(label: Seq<char>) -> Seq<char> {
    if known_label(label) {
        label_encoding_name(label)
    } else {
        "UTF-8"@
    }
}

/// What `encode_for_write` decides.
pub open spec fn write_bytes_outcome(path: Seq<char>, text_lf: Seq<char>, label: Seq<char>, line_ending: LineEnding) -> Result<
    Seq<u8>,
    Seq<char>,
> {
    let name = write_encoding(label);
    let text = restored(text_lf, line_ending);
    let (bytes, had_errors) = encoded_as(name, text);
    if had_errors {
        Err("The new content contains characters that cannot be represented in the file's original encoding ("@
            + name + "). No changes were made."@)
    } else if bytes.len() > usize::MAX / 8 || decoded_as(name, bytes) != text {
        Err("Encoding round-trip verification failed for "@ + path + " ("@ + name
            + "). No changes were made."@)
    } else {
        Ok(bytes)
    }
}

/// The bytes a write accepts decode, in the encoding it wrote them in, to
/// the text with the file's line endings, and normalizing that text gives
/// back exactly the LF text the agent wrote.
pub proof fn lemma_written_bytes_read_back(
    path: Seq<char>,
    text_lf: Seq<char>,
    label: Seq<char>,
    line_ending: LineEnding,
    bytes: Seq<u8>,
)
    requires
        write_bytes_outcome(path, text_lf, label, line_ending) == Ok::<Seq<u8>, Seq<char>>(bytes),
    ensures
        decoded_as(write_encoding(label), bytes) == restored(text_lf, line_ending),
        line_ending == LineEnding::CrLf ==> crlf_to_lf(decoded_as(write_encoding(label), bytes)) == text_lf,
{
    if line_ending == LineEnding::CrLf {
        lemma_crlf_round_trip(text_lf);
    }
}

/// Turns LF text into the bytes to write: restore the file's line
/// endings, encode in its original encoding, and refuse the write when a
/// character cannot be represented or when decoding the bytes does not
/// give the text back.
pub fn encode_for_write(path: &str, text_lf: &str, label: &str, line_ending: LineEnding) -> (r: Result<
    Vec<u8>,
    ToolResult,
>)
    requires
        utf8_len(text_lf@) <= usize::MAX / 32,
    ensures
        match r {
            Ok(b) => write_bytes_outcome(path@, text_lf@, label@, line_ending) == Ok::<Seq<u8>, Seq<char>>(b@),
            Err(t) => t.is_error && t.ui_payload is None && write_bytes_outcome(
                path@,
                text_lf@,
                label@,
                line_ending,
            ) == Err::<Seq<u8>, Seq<char>>(t.llm_text@),
        },
        r matches Ok(b) ==> decoded_as(write_encoding(label@), b@) == restored(text_lf@, line_ending),
{
    let name = match resolve_encoding(label) {
        Some(n) => n,
        None => match resolve_encoding("UTF-8") {
            Some(n) => n,
            None => {
                proof {
                    assert(false);
                }
                String::from_str("UTF-8")
            },
        },
    };
    let text = match line_ending {
        LineEnding::CrLf => restore_crlf(text_lf),
        LineEnding::Lf => String::from_str(text_lf),
    };
    proof {
        lemma_lf_to_crlf_len(text_lf@);
    }
    let (bytes, had_errors) = encode_as(name.as_str(), text.as_str());
    if had_errors {
        let mut m = String::from_str(
            "The new content contains characters that cannot be represented in the file's original encoding (",
        );
        push_str(&mut m, name.as_str());
        push_str(&mut m, "). No changes were made.");
        return Err(err_text(m));
    }
    let round_trip_ok = if bytes.len() > usize::MAX / 8 {
        false
    } else {
        let back = decode_as(name.as_str(), bytes.as_slice());
        str_eq(back.as_str(), text.as_str())
    };
    if !round_trip_ok {
        let mut m = String::from_str("Encoding round-trip verification failed for ");
        push_str(&mut m, path);
        push_str(&mut m, " (");
        push_str(&mut m, name.as_str());
        push_str(&mut m, "). No changes were made.");
        return Err(err_text(m));
    }
    Ok(bytes)
}

} // verus!
