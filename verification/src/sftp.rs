//! Remote file browsing: directory entries, `ls -l` output parsing, entry
//! ordering, permission strings, shell quoting, and the errors of the file
//! browser and of transfers.

use vstd::prelude::*;
use crate::ssh::{ssh_error_text, SshError};
use crate::text::{
    chars_lt, chars_of, char_views, join_seq, join_vecs, lex_lt, lowercase_of, push_chars, push_str,
    slice_chars, split_chars, split_on, split_words, string_of, to_lowercase, trim, trim_chars,
    words,
};

verus! {

// ---------------------------------------------------------------------------
// Errors
// ---------------------------------------------------------------------------

/// Errors of the remote file browser.
pub enum SftpBrowserError {
    NotConnected,
    SshError(SshError),
    ParseError(String),
    PathNotFound(String),
    PermissionDenied(String),
    AlreadyExists(String),
    Protocol(String),
}

pub open spec fn browser_error_text(e: SftpBrowserError) -> Seq<char> {
    match e {
        SftpBrowserError::NotConnected => "Not connected"@,
        SftpBrowserError::SshError(s) => "SSH error: "@ + ssh_error_text(s),
        SftpBrowserError::ParseError(m) => "Parse error: "@ + m@,
        SftpBrowserError::PathNotFound(m) => "Path not found: "@ + m@,
        SftpBrowserError::PermissionDenied(m) => "Permission denied: "@ + m@,
        SftpBrowserError::AlreadyExists(m) => "Target already exists: "@ + m@,
        SftpBrowserError::Protocol(m) => "SFTP error: "@ + m@,
    }
}

fn prefixed(prefix: &str, m: &str) -> (s: String)
    ensures
        s@ == prefix@ + m@,
{
    let mut s = String::from_str(prefix);
    push_str(&mut s, m);
    s
}

impl SftpBrowserError {
    /// The error's message.
    pub fn message(&self) -> (s: String)
        ensures
            s@ == browser_error_text(*self),
    {
        match self {
            SftpBrowserError::NotConnected => String::from_str("Not connected"),
            SftpBrowserError::SshError(e) => {
                let inner = e.message();
                prefixed("SSH error: ", inner.as_str())
            },
            SftpBrowserError::ParseError(m) => prefixed("Parse error: ", m.as_str()),
            SftpBrowserError::PathNotFound(m) => prefixed("Path not found: ", m.as_str()),
            SftpBrowserError::PermissionDenied(m) => prefixed("Permission denied: ", m.as_str()),
            SftpBrowserError::AlreadyExists(m) => prefixed("Target already exists: ", m.as_str()),
            SftpBrowserError::Protocol(m) => prefixed("SFTP error: ", m.as_str()),
        }
    }
}

/// Errors of file transfers.
pub enum TransferError {
    NotConnected,
    SshError(SshError),
    FileNotFound(String),
    IoError(String),
    Sftp(String),
    Cancelled,
}

pub open spec fn transfer_error_text(e: TransferError) -> Seq<char> {
    match e {
        TransferError::NotConnected => "Not connected"@,
        TransferError::SshError(s) => "SSH error: "@ + ssh_error_text(s),
        TransferError::FileNotFound(m) => "File not found: "@ + m@,
        TransferError::IoError(m) => "IO error: "@ + m@,
        TransferError::Sftp(m) => "SFTP error: "@ + m@,
        TransferError::Cancelled => "Transfer cancelled"@,
    }
}

impl TransferError {
    /// The error's message.
    pub fn message(&self) -> (s: String)
        ensures
            s@ == transfer_error_text(*self),
    {
        match self {
            TransferError::NotConnected => String::from_str("Not connected"),
            TransferError::SshError(e) => {
                let inner = e.message();
                prefixed("SSH error: ", inner.as_str())
            },
            TransferError::FileNotFound(m) => prefixed("File not found: ", m.as_str()),
            TransferError::IoError(m) => prefixed("IO error: ", m.as_str()),
            TransferError::Sftp(m) => prefixed("SFTP error: ", m.as_str()),
            TransferError::Cancelled => String::from_str("Transfer cancelled"),
        }
    }
}

// ---------------------------------------------------------------------------
// Entries
// ---------------------------------------------------------------------------

/// Metadata for a remote file or directory entry.
pub struct RemoteEntry {
    pub name: String,
    pub path: String,
    pub is_dir: bool,
    pub size: u64,
    pub modified: u64,
    pub permissions: String,
}

/// What a stat of a remote path reports.
pub struct RemoteStat {
    pub size: u64,
    pub mtime: u64,
    pub is_dir: bool,
}

/// The kind of a directory entry, as the permission string's first letter
/// shows it.
pub enum FileKind {
    Dir,
    Symlink,
    Other,
}

/// One permission letter: `ch` when `bit` is set in `mode`, else `-`.
pub open spec fn perm_char(mode: u32, bit: u32, ch: char) -> char {
    if mode & bit != 0 {
        ch
    } else {
        '-'
    }
}

/// `ls`-style permissions, e.g. `drwxr-xr-x`.
pub open spec fn permissions_text(kind: FileKind, mode: Option<u32>) -> Seq<char> {
    let m = match mode {
        Some(v) => v,
        None => 0,
    };
    seq![
        match kind {
            FileKind::Dir => 'd',
            FileKind::Symlink => 'l',
            FileKind::Other => '-',
        },
        perm_char(m, 0o400, 'r'),
        perm_char(m, 0o200, 'w'),
        perm_char(m, 0o100, 'x'),
        perm_char(m, 0o040, 'r'),
        perm_char(m, 0o020, 'w'),
        perm_char(m, 0o010, 'x'),
        perm_char(m, 0o004, 'r'),
        perm_char(m, 0o002, 'w'),
        perm_char(m, 0o001, 'x'),
    ]
}

fn perm_char_exec(mode: u32, bit: u32, ch: char) -> (c: char)
    ensures
        c == perm_char(mode, bit, ch),
{
    if mode & bit != 0 {
        ch
    } else {
        '-'
    }
}

/// Renders `ls`-style permission characters from an entry kind and mode,
/// so that both backends look alike.
pub fn format_permissions(kind: &FileKind, mode: Option<u32>) -> (s: String)
    ensures
        s@ == permissions_text(*kind, mode),
{
    let m: u32 = match mode {
        Some(v) => v,
        None => 0,
    };
    let mut s = String::new();
    s.push(
        match kind {
            FileKind::Dir => 'd',
            FileKind::Symlink => 'l',
            FileKind::Other => '-',
        },
    );
    s.push(perm_char_exec(m, 0o400, 'r'));
    s.push(perm_char_exec(m, 0o200, 'w'));
    s.push(perm_char_exec(m, 0o100, 'x'));
    s.push(perm_char_exec(m, 0o040, 'r'));
    s.push(perm_char_exec(m, 0o020, 'w'));
    s.push(perm_char_exec(m, 0o010, 'x'));
    s.push(perm_char_exec(m, 0o004, 'r'));
    s.push(perm_char_exec(m, 0o002, 'w'));
    s.push(perm_char_exec(m, 0o001, 'x'));
    assert(s@ =~= permissions_text(*kind, mode));
    s
}

/// `path` with exactly one `/` added when it does not end in one.
pub open spec fn trailing_slash(path: Seq<char>) -> Seq<char> {
    if path.len() > 0 && path.last() == '/' {
        path
    } else {
        path.push('/')
    }
}

/// Appends `/` unless the path already ends with one.
pub fn with_trailing_slash(path: &str) -> (s: String)
    ensures
        s@ == trailing_slash(path@),
{
    let v = chars_of(path);
    let mut s = string_of(v.as_slice());
    if !(v.len() > 0 && v[v.len() - 1] == '/') {
        s.push('/');
    }
    s
}

/// Single-quotes a string for a POSIX shell; each `'` becomes `'\''`.
pub open spec fn shell_quoted(s: Seq<char>) -> Seq<char> {
    seq!['\''] + quote_body(s) + seq!['\'']
}

pub open spec fn quote_body(s: Seq<char>) -> Seq<char>
    decreases s.len(),
{
    if s.len() == 0 {
        Seq::<char>::empty()
    } else {
        quote_body(s.drop_last()) + if s.last() == '\'' {
            seq!['\'', '\\', '\'', '\'']
        } else {
            seq![s.last()]
        }
    }
}

/// Quotes a path for use in a remote shell command.
pub fn shell_escape(s: &str) -> (r: String)
    ensures
        r@ == shell_quoted(s@),
{
    let v = chars_of(s);
    let mut r = String::new();
    r.push('\'');
    let mut i: usize = 0;
    while i < v.len()
        invariant
            i <= v@.len(),
            v@ == s@,
            r@ == seq!['\''] + quote_body(v@.take(i as int)),
        decreases v@.len() - i,
    {
        let c = v[i];
        if c == '\'' {
            r.push('\'');
            r.push('\\');
            r.push('\'');
            r.push('\'');
        } else {
            r.push(c);
        }
        i = i + 1;
        proof {
            assert(v@.take(i as int).drop_last() =~= v@.take(i - 1));
            assert(r@ =~= seq!['\''] + quote_body(v@.take(i as int)));
        }
    }
    assert(v@.take(v@.len() as int) =~= v@);
    r.push('\'');
    assert(r@ =~= shell_quoted(s@));
    r
}

/// `t` with `prefix` in front, when there is a `t`.
pub open spec fn prepend(prefix: Seq<char>, t: Option<Seq<char>>) -> Option<Seq<char>> {
    match t {
        Some(x) => Some(prefix + x),
        None => None,
    }
}

/// The word a POSIX shell reads from text made only of single-quoted runs
/// and backslash-escaped characters, outside any quote (`None` when the
/// text holds anything the shell would interpret, or an open quote).
pub open spec fn sh_word_outside(s: Seq<char>) -> Option<Seq<char>>
    decreases s.len(), 1int,
{
    if s.len() == 0 {
        Some(Seq::<char>::empty())
    } else if s[0] == '\'' {
        sh_word_inside(s.skip(1))
    } else if s[0] == '\\' && s.len() >= 2 {
        prepend(seq![s[1]], sh_word_outside(s.skip(2)))
    } else {
        None
    }
}

/// The same, inside a single-quoted run: every character is literal up
/// to the closing quote.
pub open spec fn sh_word_inside(s: Seq<char>) -> Option<Seq<char>>
    decreases s.len(), 0int,
{
    if s.len() == 0 {
        None
    } else if s[0] == '\'' {
        sh_word_outside(s.skip(1))
    } else {
        prepend(seq![s[0]], sh_word_inside(s.skip(1)))
    }
}

proof fn lemma_quote_body_inside(s: Seq<char>, t: Seq<char>)
    ensures
        sh_word_inside(quote_body(s) + t) == prepend(s, sh_word_inside(t)),
    decreases s.len(),
{
    if s.len() == 0 {
        assert(quote_body(s) + t =~= t);
        match sh_word_inside(t) {
            Some(x) => assert(s + x =~= x),
            None => {},
        }
    } else {
        let p = s.drop_last();
        let c = s.last();
        let piece = if c == '\'' {
            seq!['\'', '\\', '\'', '\'']
        } else {
            seq![c]
        };
        assert(quote_body(s) + t =~= quote_body(p) + (piece + t));
        lemma_quote_body_inside(p, piece + t);
        let pt = piece + t;
        if c == '\'' {
            assert(pt.skip(1) =~= seq!['\\', '\'', '\''] + t);
            let a = pt.skip(1);
            assert(a.skip(2) =~= seq!['\''] + t);
            let b = a.skip(2);
            assert(b.skip(1) =~= t);
            assert(sh_word_outside(b) == sh_word_inside(t));
            assert(sh_word_outside(a) == prepend(seq!['\''], sh_word_inside(t)));
            assert(sh_word_inside(pt) == prepend(seq!['\''], sh_word_inside(t)));
        } else {
            assert(pt.skip(1) =~= t);
            assert(sh_word_inside(pt) == prepend(seq![c], sh_word_inside(t)));
        }
        match sh_word_inside(t) {
            Some(x) => {
                assert(p + (seq![c] + x) =~= s + x);
            },
            None => {},
        }
    }
}

/// A quoted path is read back by the shell as exactly one word, the path
/// itself: no character of it is interpreted, whatever it holds.
pub proof fn lemma_shell_quoted_reads_back(s: Seq<char>)
    ensures
        sh_word_outside(shell_quoted(s)) == Some(s),
{
    let q = shell_quoted(s);
    assert(q.skip(1) =~= quote_body(s) + seq!['\'']);
    lemma_quote_body_inside(s, seq!['\'']);
    let e = seq!['\''].skip(1);
    assert(e =~= Seq::<char>::empty());
    assert(sh_word_outside(e) == Some(Seq::<char>::empty()));
    assert(seq!['\''][0] == '\'');
    assert(sh_word_inside(seq!['\'']) == Some(Seq::<char>::empty()));
    assert(s + Seq::<char>::empty() =~= s);
}

// ---------------------------------------------------------------------------
// Decimal parsing
// ---------------------------------------------------------------------------

/// Value of a run of ASCII digits.
pub open spec fn digits_value(s: Seq<char>) -> nat
    decreases s.len(),
{
    if s.len() == 0 {
        0
    } else {
        digits_value(s.drop_last()) * 10 + ((s.last() as u32 - 48) as nat)
    }
}

pub open spec fn all_digits(s: Seq<char>) -> bool {
    forall|i: int| 0 <= i < s.len() ==> '0' <= #[trigger] s[i] <= '9'
}

/// `str::parse::<u64>`: an optional `+`, then one or more ASCII digits
/// whose value fits in a `u64`.
pub open spec fn parse_u64_spec(s: Seq<char>) -> Option<u64> {
    let d = if s.len() > 0 && s[0] == '+' {
        s.skip(1)
    } else {
        s
    };
    if d.len() > 0 && all_digits(d) && digits_value(d) <= u64::MAX {
        Some(digits_value(d) as u64)
    } else {
        None
    }
}

proof fn lemma_digits_value_mono(s: Seq<char>, i: int)
    requires
        0 <= i <= s.len(),
        all_digits(s),
    ensures
        digits_value(s.take(i)) <= digits_value(s),
    decreases s.len() - i,
{
    if i < s.len() {
        lemma_digits_value_mono(s, i + 1);
        assert(s.take(i + 1).drop_last() =~= s.take(i));
    } else {
        assert(s.take(i) =~= s);
    }
}

/// Parses a decimal `u64` the way `str::parse` does.
pub fn parse_u64(s: &Vec<char>) -> (r: Option<u64>)
    ensures
        r == parse_u64_spec(s@),
{
    let start: usize = if s.len() > 0 && s[0] == '+' {
        1
    } else {
        0
    };
    let ghost d = if s@.len() > 0 && s@[0] == '+' {
        s@.skip(1)
    } else {
        s@
    };
    assert(d =~= s@.skip(start as int));
    if start >= s.len() {
        return None;
    }
    let mut i: usize = start;
    let mut v: u64 = 0;
    while i < s.len()
        invariant
            start <= i <= s@.len(),
            d == s@.skip(start as int),
            d == (if s@.len() > 0 && s@[0] == '+' {
                s@.skip(1)
            } else {
                s@
            }),
            all_digits(d.take(i - start)),
            v == digits_value(d.take(i - start)),
        decreases s@.len() - i,
    {
        let c = s[i];
        proof {
            assert(d.take(i - start + 1).drop_last() =~= d.take(i - start));
            assert(d.take(i - start + 1).last() == c);
        }
        if !('0' <= c && c <= '9') {
            proof {
                assert(d[i - start] == c);
                if all_digits(d) {
                    assert('0' <= d[i - start] <= '9');
                }
            }
            return None;
        }
        let digit = (c as u32 - 48) as u64;
        if v > 1844674407370955161 || (v == 1844674407370955161 && digit > 5) {
            proof {
                let t = d.take(i - start + 1);
                assert(t.drop_last() =~= d.take(i - start));
                assert(t.last() == c);
                assert(digits_value(t) == digits_value(d.take(i - start)) * 10 + digit);
                assert(digits_value(t) > u64::MAX);
                if all_digits(d) {
                    lemma_digits_value_mono(d, i - start + 1);
                }
            }
            return None;
        }
        v = v * 10 + digit;
        i = i + 1;
        proof {
            assert(all_digits(d.take(i - start)));
        }
    }
    assert(d.take(i - start) =~= d);
    Some(v)
}

// ---------------------------------------------------------------------------
// Ordering of entries
// ---------------------------------------------------------------------------

/// `a` sorts strictly before `b`: directories first, then by lowercased
/// name.
pub open spec fn entry_before(a: RemoteEntry, b: RemoteEntry) -> bool {
    if a.is_dir != b.is_dir {
        a.is_dir
    } else {
        lex_lt(lowercase_of(a.name@), lowercase_of(b.name@))
    }
}

/// Where a stable insertion puts `x` into `sorted`: after every entry that
/// does not sort after it.
pub open spec fn insert_pos(sorted: Seq<RemoteEntry>, x: RemoteEntry) -> int
    decreases sorted.len(),
{
    if sorted.len() == 0 {
        0
    } else if entry_before(x, sorted.last()) {
        insert_pos(sorted.drop_last(), x)
    } else {
        sorted.len() as int
    }
}

proof fn lemma_insert_pos_bound(sorted: Seq<RemoteEntry>, x: RemoteEntry)
    ensures
        0 <= insert_pos(sorted, x) <= sorted.len(),
    decreases sorted.len(),
{
    if sorted.len() > 0 {
        lemma_insert_pos_bound(sorted.drop_last(), x);
    }
}

/// Stable sort of entries: directories first, then by lowercased name,
/// entries that compare equal keeping their order.
pub open spec fn sorted_entries(s: Seq<RemoteEntry>) -> Seq<RemoteEntry>
    decreases s.len(),
{
    if s.len() == 0 {
        Seq::<RemoteEntry>::empty()
    } else {
        let prev = sorted_entries(s.drop_last());
        prev.insert(insert_pos(prev, s.last()), s.last())
    }
}

proof fn lemma_sorted_entries_len(s: Seq<RemoteEntry>)
    ensures
        sorted_entries(s).len() == s.len(),
    decreases s.len(),
{
    if s.len() > 0 {
        lemma_sorted_entries_len(s.drop_last());
        lemma_insert_pos_bound(sorted_entries(s.drop_last()), s.last());
    }
}

proof fn lemma_lex_lt_asym(a: Seq<char>, b: Seq<char>)
    ensures
        lex_lt(a, b) ==> !lex_lt(b, a),
    decreases a.len(),
{
    if a.len() > 0 && b.len() > 0 && a[0] == b[0] {
        lemma_lex_lt_asym(a.skip(1), b.skip(1));
    }
}

/// No entry sorts strictly before the one in front of it.
pub open spec fn entries_sorted(s: Seq<RemoteEntry>) -> bool {
    forall|i: int| 0 <= i < s.len() - 1 ==> !entry_before(#[trigger] s[i + 1], s[i])
}

proof fn lemma_insert_pos_props(sorted: Seq<RemoteEntry>, x: RemoteEntry)
    ensures
        0 <= insert_pos(sorted, x) <= sorted.len(),
        insert_pos(sorted, x) > 0 ==> !entry_before(x, sorted[insert_pos(sorted, x) - 1]),
        forall|q: int| insert_pos(sorted, x) <= q < sorted.len() ==> entry_before(x, #[trigger] sorted[q]),
    decreases sorted.len(),
{
    if sorted.len() > 0 && entry_before(x, sorted.last()) {
        let d = sorted.drop_last();
        lemma_insert_pos_props(d, x);
        assert forall|q: int| insert_pos(sorted, x) <= q < sorted.len() implies entry_before(x, #[trigger] sorted[q]) by {
            if q < d.len() {
                assert(d[q] == sorted[q]);
            }
        }
    }
}

/// Listings come out directories first, then by case-insensitive name:
/// no entry of the sorted listing sorts before the one in front of it.
pub proof fn lemma_sorted_entries_ordered(s: Seq<RemoteEntry>)
    ensures
        entries_sorted(sorted_entries(s)),
    decreases s.len(),
{
    if s.len() > 0 {
        let prev = sorted_entries(s.drop_last());
        let x = s.last();
        lemma_sorted_entries_ordered(s.drop_last());
        lemma_insert_pos_props(prev, x);
        let p = insert_pos(prev, x);
        let r = prev.insert(p, x);
        assert(r.len() == prev.len() + 1);
        assert forall|i: int| 0 <= i < r.len() - 1 implies !entry_before(#[trigger] r[i + 1], r[i]) by {
            if i + 1 < p {
                assert(r[i] == prev[i] && r[i + 1] == prev[i + 1]);
            } else if i + 1 == p {
                assert(r[i] == prev[i] && r[i + 1] == x);
            } else if i == p {
                assert(r[i] == x && r[i + 1] == prev[i]);
                let y = prev[i];
                assert(entry_before(x, y));
                if x.is_dir == y.is_dir {
                    lemma_lex_lt_asym(lowercase_of(x.name@), lowercase_of(y.name@));
                }
            } else {
                assert(r[i] == prev[i - 1] && r[i + 1] == prev[i]);
                assert(i - 1 + 1 == i);
            }
        }
    }
}

/// Sorting a listing keeps exactly its entries.
pub proof fn lemma_sorted_entries_permutes(s: Seq<RemoteEntry>)
    ensures
        sorted_entries(s).to_multiset() == s.to_multiset(),
    decreases s.len(),
{
    if s.len() > 0 {
        let prev = sorted_entries(s.drop_last());
        lemma_sorted_entries_permutes(s.drop_last());
        lemma_insert_pos_props(prev, s.last());
        vstd::seq_lib::to_multiset_insert(prev, insert_pos(prev, s.last()), s.last());
        vstd::seq_lib::to_multiset_build(s.drop_last(), s.last());
        assert(s.drop_last().push(s.last()) =~= s);
    } else {
        assert(s =~= Seq::<RemoteEntry>::empty());
    }
}

fn entry_before_exec(a: &RemoteEntry, b: &RemoteEntry) -> (r: bool)
    ensures
        r == entry_before(*a, *b),
{
    if a.is_dir != b.is_dir {
        a.is_dir
    } else {
        let la = chars_of(to_lowercase(a.name.as_str()).as_str());
        let lb = chars_of(to_lowercase(b.name.as_str()).as_str());
        chars_lt(la.as_slice(), lb.as_slice())
    }
}

/// Sorts entries: directories first, then by lowercased name (stable).
pub fn sort_entries(entries: &mut Vec<RemoteEntry>)
    ensures
        final(entries)@ == sorted_entries(old(entries)@),
{
    let ghost orig = entries@;
    let mut rest: Vec<RemoteEntry> = Vec::new();
    std::mem::swap(&mut rest, entries);
    let mut out: Vec<RemoteEntry> = Vec::new();
    let mut taken: usize = 0;
    let total = rest.len();
    assert(rest@ =~= orig.skip(0));
    while rest.len() > 0
        invariant
            taken + rest@.len() == orig.len(),
            orig.len() == total,
            rest@ == orig.skip(taken as int),
            out@ == sorted_entries(orig.take(taken as int)),
        decreases rest@.len(),
    {
        let x = rest.remove(0);
        proof {
            assert(x == orig[taken as int]);
            assert(rest@ =~= orig.skip(taken + 1));
            lemma_sorted_entries_len(orig.take(taken as int));
        }
        let mut pos = out.len();
        assert(out@.take(pos as int) =~= out@);
        while pos > 0 && entry_before_exec(&x, &out[pos - 1])
            invariant
                pos <= out@.len(),
                insert_pos(out@, x) == insert_pos(out@.take(pos as int), x),
            decreases pos,
        {
            assert(out@.take(pos as int).drop_last() =~= out@.take(pos - 1));
            pos = pos - 1;
        }
        proof {
            if pos > 0 {
                assert(out@.take(pos as int).last() == out@[pos - 1]);
            }
            assert(insert_pos(out@.take(pos as int), x) == pos);
        }
        let ghost before = out@;
        out.insert(pos, x);
        taken = taken + 1;
        proof {
            assert(orig.take(taken as int).drop_last() =~= orig.take(taken - 1));
            assert(orig.take(taken as int).last() == x);
            assert(out@ == before.insert(pos as int, x));
        }
    }
    assert(orig.take(orig.len() as int) =~= orig);
    *entries = out;
}

// ---------------------------------------------------------------------------
// `ls -l` parsing
// ---------------------------------------------------------------------------

/// Position of the first `" -> "` in `s`.
pub open spec fn find_arrow(s: Seq<char>) -> Option<nat>
    decreases s.len(),
{
    if s.len() < 4 {
        None
    } else if s.take(4) == seq![' ', '-', '>', ' '] {
        Some(0)
    } else {
        match find_arrow(s.skip(1)) {
            Some(i) => Some(i + 1),
            None => None,
        }
    }
}

/// The first character of an `ls -l` entry line's permissions.
pub open spec fn is_entry_type(c: char) -> bool {
    c == 'd' || c == '-' || c == 'l' || c == 'c' || c == 'b' || c == 'p' || c == 's'
}

/// The fields of one `ls -l` line, if it describes an entry:
/// `(name, is_dir, size, modified, permissions)`.
pub open spec fn ls_line_entry(line: Seq<char>) -> Option<(Seq<char>, bool, u64, u64, Seq<char>)> {
    let l = trim(line);
    let parts = words(l);
    if l.len() == 0 || (l.len() >= 5 && l.take(5) == "total"@) {
        None
    } else if parts.len() < 7 {
        None
    } else if !(parts[0].len() > 0 && is_entry_type(parts[0][0])) {
        None
    } else {
        let size = match parse_u64_spec(parts[4]) {
            Some(v) => v,
            None => 0u64,
        };
        let (modified, name) = match parse_u64_spec(parts[5]) {
            Some(ts) => (ts, join_seq(parts.skip(6), seq![' '])),
            None => if parts.len() < 9 {
                (0u64, parts.last())
            } else {
                (0u64, join_seq(parts.skip(8), seq![' ']))
            },
        };
        if name == seq!['.'] || name == seq!['.', '.'] || name.len() == 0 {
            None
        } else {
            let clean = match find_arrow(name) {
                Some(i) => name.take(i as int),
                None => name,
            };
            Some((clean, parts[0][0] == 'd', size, modified, parts[0]))
        }
    }
}

/// The entry a line describes, with its path under `base`.
pub open spec fn entry_matches(
    e: RemoteEntry,
    f: (Seq<char>, bool, u64, u64, Seq<char>),
    base: Seq<char>,
) -> bool {
    &&& e.name@ == f.0
    &&& e.path@ == trailing_slash(base) + f.0
    &&& e.is_dir == f.1
    &&& e.size == f.2
    &&& e.modified == f.3
    &&& e.permissions@ == f.4
}

/// The entry lines of the output, in order, before sorting.
pub open spec fn ls_entries(lines: Seq<Seq<char>>) -> Seq<(Seq<char>, bool, u64, u64, Seq<char>)>
    decreases lines.len(),
{
    if lines.len() == 0 {
        Seq::empty()
    } else {
        let prev = ls_entries(lines.drop_last());
        match ls_line_entry(lines.last()) {
            Some(f) => prev.push(f),
            None => prev,
        }
    }
}

proof fn lemma_find_arrow_bound(s: Seq<char>)
    ensures
        find_arrow(s) matches Some(i) ==> i + 4 <= s.len(),
    decreases s.len(),
{
    if s.len() >= 4 && s.take(4) != seq![' ', '-', '>', ' '] {
        lemma_find_arrow_bound(s.skip(1));
    }
}

fn find_arrow_exec(s: &Vec<char>) -> (r: Option<usize>)
    ensures
        match find_arrow(s@) {
            Some(i) => r == Some(i as usize),
            None => r is None,
        },
{
    let mut i: usize = 0;
    assert(s@.skip(0) =~= s@);
    while i < s.len() && s.len() - i >= 4
        invariant
            i <= s@.len(),
            forall|k: nat| #[trigger] find_arrow(s@) == Some(k) ==> k >= i,
            find_arrow(s@) == match find_arrow(s@.skip(i as int)) {
                Some(j) => Some((j + i) as nat),
                None => None,
            },
        decreases s@.len() - i,
    {
        let ghost t = s@.skip(i as int);
        if s[i] == ' ' && s[i + 1] == '-' && s[i + 2] == '>' && s[i + 3] == ' ' {
            assert(t.take(4) =~= seq![' ', '-', '>', ' ']);
            return Some(i);
        }
        proof {
            assert(t.take(4) != seq![' ', '-', '>', ' ']) by {
                if t.take(4) == seq![' ', '-', '>', ' '] {
                    assert(t.take(4)[0] == s@[i as int]);
                    assert(t.take(4)[1] == s@[i + 1]);
                    assert(t.take(4)[2] == s@[i + 2]);
                    assert(t.take(4)[3] == s@[i + 3]);
                }
            }
            assert(t.skip(1) =~= s@.skip(i + 1));
        }
        i = i + 1;
    }
    assert(s@.skip(i as int).len() < 4);
    None
}

fn parse_ls_line(line: &Vec<char>) -> (r: Option<(Vec<char>, bool, u64, u64, Vec<char>)>)
    ensures
        match ls_line_entry(line@) {
            Some(f) => r matches Some(x) && x.0@ == f.0 && x.1 == f.1 && x.2 == f.2 && x.3 == f.3
                && x.4@ == f.4,
            None => r is None,
        },
{
    let l = trim_chars(line);
    let parts = split_words(&l);
    let ghost pv = words(l@);
    if l.len() == 0 {
        return None;
    }
    if l.len() >= 5 && l[0] == 't' && l[1] == 'o' && l[2] == 't' && l[3] == 'a' && l[4] == 'l' {
        proof {
            reveal_strlit("total");
            assert(l@.take(5) =~= "total"@);
        }
        return None;
    }
    proof {
        reveal_strlit("total");
        if l@.len() >= 5 {
            assert(l@.take(5) != "total"@) by {
                if l@.take(5) == "total"@ {
                    assert(l@.take(5)[0] == l@[0]);
                    assert(l@.take(5)[1] == l@[1]);
                    assert(l@.take(5)[2] == l@[2]);
                    assert(l@.take(5)[3] == l@[3]);
                    assert(l@.take(5)[4] == l@[4]);
                }
            }
        }
    }
    if parts.len() < 7 {
        return None;
    }
    assert(pv[0] == parts@[0]@);
    if !(parts[0].len() > 0 && (parts[0][0] == 'd' || parts[0][0] == '-' || parts[0][0] == 'l'
        || parts[0][0] == 'c' || parts[0][0] == 'b' || parts[0][0] == 'p' || parts[0][0] == 's')) {
        return None;
    }
    assert(pv[4] == parts@[4]@);
    assert(pv[5] == parts@[5]@);
    let size = match parse_u64(&parts[4]) {
        Some(v) => v,
        None => 0,
    };
    let ts = parse_u64(&parts[5]);
    let mut name: Vec<char>;
    let modified: u64;
    match ts {
        Some(t) => {
            modified = t;
            let tail = slice_vecs(&parts, 6);
            name = join_vecs(&tail, &[' ']);
            proof {
                assert(char_views(tail@) =~= pv.skip(6));
                assert(seq![' '] =~= [' ']@);
            }
        },
        None => {
            modified = 0;
            if parts.len() < 9 {
                let last = &parts[parts.len() - 1];
                name = slice_chars(last, 0, last.len());
                proof {
                    assert(last@.subrange(0, last@.len() as int) =~= last@);
                    assert(pv.last() == last@);
                }
            } else {
                let tail = slice_vecs(&parts, 8);
                name = join_vecs(&tail, &[' ']);
                proof {
                    assert(char_views(tail@) =~= pv.skip(8));
                    assert(seq![' '] =~= [' ']@);
                }
            }
        },
    }
    let is_dot = name.len() == 1 && name[0] == '.';
    let is_dotdot = name.len() == 2 && name[0] == '.' && name[1] == '.';
    proof {
        if is_dot {
            assert(name@ =~= seq!['.']);
        } else if name@ == seq!['.'] {
            assert(name@.len() == 1 && name@[0] == '.');
        }
        if is_dotdot {
            assert(name@ =~= seq!['.', '.']);
        } else if name@ == seq!['.', '.'] {
            assert(name@.len() == 2 && name@[0] == '.' && name@[1] == '.');
        }
    }
    if is_dot || is_dotdot || name.len() == 0 {
        return None;
    }
    proof {
        lemma_find_arrow_bound(name@);
    }
    let clean = match find_arrow_exec(&name) {
        Some(i) => slice_chars(&name, 0, i),
        None => name,
    };
    let perms = slice_chars(&parts[0], 0, parts[0].len());
    assert(parts@[0]@.subrange(0, parts@[0]@.len() as int) =~= parts@[0]@);
    Some((clean, parts[0][0] == 'd', size, modified, perms))
}

/// Copies `v[from..]`.
fn slice_vecs(v: &Vec<Vec<char>>, from: usize) -> (r: Vec<Vec<char>>)
    requires
        from <= v@.len(),
    ensures
        char_views(r@) == char_views(v@).skip(from as int),
{
    let mut r: Vec<Vec<char>> = Vec::new();
    let mut i = from;
    while i < v.len()
        invariant
            from <= i <= v@.len(),
            char_views(r@) == char_views(v@).subrange(from as int, i as int),
        decreases v@.len() - i,
    {
        let ghost prev = r@;
        let c = slice_chars(&v[i], 0, v[i].len());
        assert(v@[i as int]@.subrange(0, v@[i as int]@.len() as int) =~= v@[i as int]@);
        r.push(c);
        i = i + 1;
        proof {
            assert(r@ == prev.push(c));
            assert(char_views(r@) =~= char_views(prev).push(v@[i - 1]@));
            assert(char_views(v@).subrange(from as int, i as int) =~= char_views(v@).subrange(
                from as int,
                i - 1,
            ).push(v@[i - 1]@));
        }
    }
    assert(char_views(v@).subrange(from as int, v@.len() as int) =~= char_views(v@).skip(
        from as int,
    ));
    r
}

/// Parses `ls -lA` output (with or without `--time-style=+%s`) into
/// sorted entries under `base_path`. Lines that do not describe an entry
/// (the `total` line, short lines, `.` and `..`) are skipped; symlink
/// targets are cut off the name.
pub fn parse_ls_output(output: &str, base_path: &str) -> (r: Result<Vec<RemoteEntry>, SftpBrowserError>)
    ensures
        r matches Ok(v) && exists|unsorted: Seq<RemoteEntry>|
            #![trigger sorted_entries(unsorted)]
            v@ == sorted_entries(unsorted) && unsorted.len() == ls_entries(
                split_on(output@, '\n'),
            ).len() && forall|i: int|
                0 <= i < unsorted.len() ==> entry_matches(
                    #[trigger] unsorted[i],
                    ls_entries(split_on(output@, '\n'))[i],
                    base_path@,
                ),
{
    let base = with_trailing_slash(base_path);
    let ov = chars_of(output);
    let lines = split_chars(&ov, '\n');
    let ghost lv = split_on(output@, '\n');
    let mut entries: Vec<RemoteEntry> = Vec::new();
    let mut i: usize = 0;
    while i < lines.len()
        invariant
            i <= lines@.len(),
            lines@.len() == lv.len(),
            forall|k: int| 0 <= k < lines@.len() ==> #[trigger] lines@[k]@ == lv[k],
            base@ == trailing_slash(base_path@),
            entries@.len() == ls_entries(lv.take(i as int)).len(),
            forall|k: int|
                0 <= k < entries@.len() ==> entry_matches(
                    #[trigger] entries@[k],
                    ls_entries(lv.take(i as int))[k],
                    base_path@,
                ),
        decreases lines@.len() - i,
    {
        let ghost prev = ls_entries(lv.take(i as int));
        proof {
            assert(lv.take(i + 1).drop_last() =~= lv.take(i as int));
            assert(lv.take(i + 1).last() == lines@[i as int]@);
        }
        match parse_ls_line(&lines[i]) {
            Some((name, is_dir, size, modified, perms)) => {
                let mut path = String::from_str(base.as_str());
                push_chars(&mut path, name.as_slice());
                entries.push(
                    RemoteEntry {
                        name: string_of(name.as_slice()),
                        path,
                        is_dir,
                        size,
                        modified,
                        permissions: string_of(perms.as_slice()),
                    },
                );
            },
            None => {},
        }
        i = i + 1;
    }
    assert(lv.take(lines@.len() as int) =~= lv);
    let ghost unsorted = entries@;
    sort_entries(&mut entries);
    Ok(entries)
}

// ---------------------------------------------------------------------------
// Transfer names
// ---------------------------------------------------------------------------

/// What `std::path::Path::file_name` gives for a path (as text) that
/// `portable_path` accepts.
pub uninterp spec fn path_file_name(p: Seq<char>) -> Option<Seq<char>>;

/// A path that `Path` splits the same way on every platform: no `\\`
/// (a separator on Windows only), no `:` (drive prefixes) and no leading
/// `//` (UNC prefixes).
pub open spec fn portable_path(p: Seq<char>) -> bool {
    !p.contains('\\') && !p.contains(':') && !(p.len() >= 2 && p[0] == '/' && p[1] == '/')
}

/// Calls `Path::new(p).file_name()`; the name of a path built from a `str`
/// is valid UTF-8, so the lossy conversion is exact. For a path that
/// `portable_path` accepts the result is named `path_file_name`; for
/// another one it depends on the platform and nothing is claimed.
#[verifier::external_body]
fn file_name_of(p: &str) -> (r: Option<String>)
    ensures
        portable_path(p@) ==> match r {
            Some(n) => path_file_name(p@) == Some(n@),
            None => path_file_name(p@) is None,
        },
{
    std::path::Path::new(p).file_name().map(|n| n.to_string_lossy().to_string())
}

/// The file name shown for a transfer: the path's last component, or the
/// whole path when it has none.
pub open spec fn display_file_name(p: Seq<char>) -> Seq<char> {
    match path_file_name(p) {
        Some(n) => n,
        None => p,
    }
}

/// Display name of a remote path.
pub fn remote_filename(remote_path: &str) -> (s: String)
    ensures
        portable_path(remote_path@) ==> s@ == display_file_name(remote_path@),
{
    match file_name_of(remote_path) {
        Some(n) => n,
        None => String::from_str(remote_path),
    }
}

/// Display name of a local path.
pub fn local_filename(local_path: &str) -> (s: String)
    ensures
        portable_path(local_path@) ==> s@ == display_file_name(local_path@),
{
    match file_name_of(local_path) {
        Some(n) => n,
        None => String::from_str(local_path),
    }
}

} // verus!
