//! Approval decisions for tool calls: the built-in terminal security rules
//! (which no setting can switch off), the dangerous-keyword warnings shown
//! on terminal approval cards, and sensitive-path escalation.

use vstd::prelude::*;
use crate::config::ToolConfig;
use crate::read_file::{sensitive_patterns, default_sensitive_patterns_spec};
use crate::text::{
    append_chars, char_views, chars_eq, chars_of, chars_of_all, is_sep, join_seq, join_vecs,
    lemma_split_on_nonempty, lemma_split_on_pieces, lemma_split_when_nonempty, push_chars, push_str, sep_at, slice_chars, split_by, split_chars,
    split_on, split_when, split_words, str_eq, string_of, string_views, trim, trim_chars, words,
    SepKind,
};

verus! {

/// Outcome of the permission check for one tool call.
pub enum ApprovalDecision {
    /// Run without asking.
    Allow,
    /// Ask the user; the warnings are shown with the request.
    RequireApproval { warnings: Vec<String> },
    /// Refused outright; the reason goes back to the model.
    Deny { reason: String },
}

/// The parts of a tool call's JSON arguments that the decision reads: the
/// `command` and `path` members, where they are strings.
pub struct CallArgs {
    pub command: Option<String>,
    pub path: Option<String>,
}

/// Reason given for a command refused by a built-in rule.
pub const DENY_TEXT: &'static str =
    "Blocked by built-in security rule. This operation is considered too harmful.";

// ---------------------------------------------------------------------------
// Outside calls
// ---------------------------------------------------------------------------

/// What building `pattern` with `regex::RegexBuilder` (case-insensitive)
/// and testing `text` with `Regex::is_match` gives: `None` when the
/// pattern does not build, else whether it matches somewhere in `text`.
pub uninterp spec fn regex_ci_match(pattern: Seq<char>, text: Seq<char>) -> Option<bool>;

/// Builds `pattern` with `regex::RegexBuilder::new(..).case_insensitive(true)`
/// and, when that succeeds, runs `Regex::is_match` on `text`. The result is
/// claimed to be a function of the two strings alone, named
/// `regex_ci_match`; nothing else is claimed of it.
#[verifier::external_body]
fn regex_is_match_ci(pattern: &str, text: &str) -> (r: Option<bool>)
    ensures
        r == regex_ci_match(pattern@, text@),
{
    match regex::RegexBuilder::new(pattern).case_insensitive(true).build() {
        Ok(re) => Some(re.is_match(text)),
        Err(_) => None,
    }
}

/// Whether `globset::Glob::new` accepts a pattern that holds no `\\`.
pub uninterp spec fn glob_parses(pattern: Seq<char>) -> bool;

/// Neither the text nor any of the patterns holds a `\\`. Only then do
/// globset's answers not depend on the platform: where `\\` is a path
/// separator (Windows), globset reads it as a separator in patterns
/// (`GlobOptions::default`, `backslash_escape: !is_separator('\\')`) and
/// turns it into `/` in paths (`pathutil::normalize_path`); elsewhere it
/// escapes in patterns and is a plain character in paths.
pub open spec fn no_backslash(s: Seq<char>) -> bool {
    !s.contains('\\')
}

pub open spec fn all_no_backslash(ps: Seq<Seq<char>>) -> bool {
    forall|i: int| 0 <= i < ps.len() ==> no_backslash(#[trigger] ps[i])
}

/// Calls `globset::Glob::new` and reports whether it returned `Ok`. For a
/// pattern without `\\` the answer is named `glob_parses`; for one with a
/// `\\` it depends on the platform and nothing is claimed.
#[verifier::external_body]
fn glob_is_valid(pattern: &str) -> (ok: bool)
    ensures
        no_backslash(pattern@) ==> ok == glob_parses(pattern@),
{
    globset::Glob::new(pattern).is_ok()
}

/// What a `globset::GlobSet` built (with `GlobSetBuilder`) from `patterns`
/// answers to `matches(path)`, for patterns and a path without `\\`:
/// `None` when a pattern or the set does not build, else the sequence
/// numbers of the matching patterns.
pub uninterp spec fn globset_matches(patterns: Seq<Seq<char>>, path: Seq<char>) -> Option<
    Seq<usize>,
>;

/// Builds a `globset::GlobSet` from the patterns, in order, and calls
/// `GlobSet::matches` on `path`. Where neither holds a `\\`, the result is
/// named `globset_matches`; otherwise it depends on the platform and only
/// the shape below is claimed. In every case the numbers are positions in
/// `patterns`, in strictly ascending order (`matches_candidate_into` sorts
/// and dedups).
#[verifier::external_body]
fn globset_match_indices(patterns: &Vec<String>, path: &str) -> (r: Option<Vec<usize>>)
    ensures
        all_no_backslash(string_views(patterns@)) && no_backslash(path@) ==> match r {
            Some(v) => globset_matches(string_views(patterns@), path@) == Some(v@),
            None => globset_matches(string_views(patterns@), path@) is None,
        },
        r matches Some(v) ==> (forall|i: int| 0 <= i < v@.len() ==> v@[i] < patterns@.len()) && (
        forall|i: int, j: int| 0 <= i < j < v@.len() ==> v@[i] < v@[j]),
{
    let mut builder = globset::GlobSetBuilder::new();
    for p in patterns.iter() {
        builder.add(globset::Glob::new(p).ok()?);
    }
    builder.build().ok().map(|set| set.matches(path))
}

// ---------------------------------------------------------------------------
// Built-in terminal rules
// ---------------------------------------------------------------------------

/// `rm` of `/` (optionally `/*`), with any flags before or after.
pub const RULE_ROOT: &'static str = r"\brm\s+(?:--[a-zA-Z0-9][-a-zA-Z0-9_]*(?:=[^\s]*)?\s+|-[a-zA-Z]+\s+)*(?:--\s+)?/\*?(?:\s+--[a-zA-Z0-9][-a-zA-Z0-9_]*(?:=[^\s]*)?|\s+-[a-zA-Z]+)*\s*$";

/// `rm` of the home directory written as `~`.
pub const RULE_TILDE: &'static str = r"\brm\s+(?:--[a-zA-Z0-9][-a-zA-Z0-9_]*(?:=[^\s]*)?\s+|-[a-zA-Z]+\s+)*(?:--\s+)?~/?\*?(?:\s+--[a-zA-Z0-9][-a-zA-Z0-9_]*(?:=[^\s]*)?|\s+-[a-zA-Z]+)*\s*$";

/// `rm` of the home directory written as `$HOME` or `${HOME}`.
pub const RULE_HOME: &'static str = r"\brm\s+(?:--[a-zA-Z0-9][-a-zA-Z0-9_]*(?:=[^\s]*)?\s+|-[a-zA-Z]+\s+)*(?:--\s+)?(?:\$HOME|\$\{HOME\})/?(?:\*)?(?:\s+--[a-zA-Z0-9][-a-zA-Z0-9_]*(?:=[^\s]*)?|\s+-[a-zA-Z]+)*\s*$";

/// `rm` of the current directory.
pub const RULE_DOT: &'static str = r"\brm\s+(?:--[a-zA-Z0-9][-a-zA-Z0-9_]*(?:=[^\s]*)?\s+|-[a-zA-Z]+\s+)*(?:--\s+)?\./?\*?(?:\s+--[a-zA-Z0-9][-a-zA-Z0-9_]*(?:=[^\s]*)?|\s+-[a-zA-Z]+)*\s*$";

/// `rm` of the parent directory.
pub const RULE_DOTDOT: &'static str = r"\brm\s+(?:--[a-zA-Z0-9][-a-zA-Z0-9_]*(?:=[^\s]*)?\s+|-[a-zA-Z]+\s+)*(?:--\s+)?\.\./?\*?(?:\s+--[a-zA-Z0-9][-a-zA-Z0-9_]*(?:=[^\s]*)?|\s+-[a-zA-Z]+)*\s*$";

/// The built-in rules, in the order they are tried.
pub open spec fn rule_pattern(k: int) -> Seq<char> {
    if k == 0 {
        RULE_ROOT@
    } else if k == 1 {
        RULE_TILDE@
    } else if k == 2 {
        RULE_HOME@
    } else if k == 3 {
        RULE_DOT@
    } else {
        RULE_DOTDOT@
    }
}

/// Number of built-in rules.
pub const RULE_COUNT: usize = 5;

fn rule_source(k: usize) -> (p: &'static str)
    requires
        k < RULE_COUNT,
    ensures
        p@ == rule_pattern(k as int),
{
    if k == 0 {
        RULE_ROOT
    } else if k == 1 {
        RULE_TILDE
    } else if k == 2 {
        RULE_HOME
    } else if k == 3 {
        RULE_DOT
    } else {
        RULE_DOTDOT
    }
}

/// Some built-in rule builds and matches `text`.
pub open spec fn rules_match(text: Seq<char>) -> bool {
    exists|k: int| 0 <= k < RULE_COUNT && #[trigger] regex_ci_match(rule_pattern(k), text) == Some(true)
}

fn matches_rules(text: &str) -> (b: bool)
    ensures
        b == rules_match(text@),
{
    let mut k: usize = 0;
    while k < RULE_COUNT
        invariant
            k <= RULE_COUNT,
            forall|j: int| 0 <= j < k ==> #[trigger] regex_ci_match(rule_pattern(j), text@) != Some(true),
        decreases RULE_COUNT - k,
    {
        match regex_is_match_ci(rule_source(k), text) {
            Some(true) => {
                return true;
            },
            _ => {},
        }
        k = k + 1;
    }
    false
}

// ---------------------------------------------------------------------------
// Lexical path normalization
// ---------------------------------------------------------------------------

/// One component applied to the stack of kept components: `""` and `"."`
/// are dropped; `".."` pops, or is kept when there is nothing to pop in a
/// relative path, or dropped at the root of an absolute one.
pub open spec fn path_step(parts: Seq<Seq<char>>, comp: Seq<char>, absolute: bool) -> Seq<Seq<char>> {
    if comp.len() == 0 || comp == seq!['.'] {
        parts
    } else if comp == seq!['.', '.'] {
        if parts.len() == 0 || parts.last() == seq!['.', '.'] {
            if !absolute {
                parts.push(seq!['.', '.'])
            } else {
                parts
            }
        } else {
            parts.drop_last()
        }
    } else {
        parts.push(comp)
    }
}

/// The components kept after applying each of `comps` in order.
pub open spec fn path_parts(comps: Seq<Seq<char>>, absolute: bool) -> Seq<Seq<char>>
    decreases comps.len(),
{
    if comps.len() == 0 {
        Seq::<Seq<char>>::empty()
    } else {
        path_step(path_parts(comps.drop_last(), absolute), comps.last(), absolute)
    }
}

/// Lexical normalization of a path, without touching any disk.
pub open spec fn normalized_path(raw: Seq<char>) -> Seq<char> {
    let absolute = raw.len() > 0 && raw[0] == '/';
    let joined = join_seq(path_parts(split_on(raw, '/'), absolute), seq!['/']);
    if absolute {
        seq!['/'] + joined
    } else if joined.len() == 0 {
        seq!['.']
    } else {
        joined
    }
}

proof fn lemma_split_on_join3(x: Seq<char>, y: Seq<char>, sep: char)
    ensures
        split_on(x + seq![sep] + y, sep) == split_on(x, sep) + split_on(y, sep),
    decreases y.len(),
{
    let s = x + seq![sep] + y;
    lemma_split_on_nonempty(x, sep);
    lemma_split_on_nonempty(y, sep);
    if y.len() == 0 {
        assert(s.drop_last() =~= x);
        assert(split_on(x, sep).push(Seq::<char>::empty()) =~= split_on(x, sep) + seq![Seq::<char>::empty()]);
    } else {
        let d = y.drop_last();
        lemma_split_on_join3(x, d, sep);
        lemma_split_on_nonempty(d, sep);
        assert(s.drop_last() =~= x + seq![sep] + d);
        assert(s.last() == y.last());
        let px = split_on(x, sep);
        let q = split_on(d, sep);
        let p = px + q;
        if y.last() == sep {
            assert(p.push(Seq::<char>::empty()) =~= px + q.push(Seq::<char>::empty()));
        } else {
            assert(p.update(p.len() - 1, p.last().push(y.last())) =~= px + q.update(
                q.len() - 1,
                q.last().push(y.last()),
            ));
        }
    }
}

pub(crate) proof fn lemma_split_on_whole(y: Seq<char>, sep: char)
    requires
        !y.contains(sep),
    ensures
        split_on(y, sep) == seq![y],
    decreases y.len(),
{
    if y.len() > 0 {
        let d = y.drop_last();
        assert(!d.contains(sep)) by {
            if d.contains(sep) {
                let k = choose|k: int| 0 <= k < d.len() && d[k] == sep;
                assert(y[k] == sep);
            }
        }
        lemma_split_on_whole(d, sep);
        assert(y.last() != sep) by {
            assert(y[y.len() - 1] == y.last());
        }
        assert(y.drop_last() == d);
        assert(d.push(y.last()) =~= y);
        let prev = seq![d];
        assert(prev.len() - 1 == 0 && prev.last() == d);
        assert(prev.update(0, y) =~= seq![y]);
        assert(y.last() != sep);
        assert(split_on(y, sep) == prev.update(prev.len() - 1, prev.last().push(y.last())));
    } else {
        assert(y =~= Seq::<char>::empty());
    }
}

/// Components that a normalization can produce: none empty, none `.`,
/// none holding `/`; an absolute path keeps no `..`, and a relative one
/// keeps `..` only at its start.
pub open spec fn clean_parts(p: Seq<Seq<char>>, absolute: bool) -> bool {
    &&& forall|i: int|
        0 <= i < p.len() ==> (#[trigger] p[i]).len() > 0 && !p[i].contains('/') && p[i] != seq!['.']
            && (absolute ==> p[i] != seq!['.', '.'])
    &&& forall|i: int, j: int|
        0 <= i < j < p.len() && #[trigger] p[j] == seq!['.', '.'] ==> #[trigger] p[i] == seq!['.', '.']
}

proof fn lemma_path_parts_clean(comps: Seq<Seq<char>>, absolute: bool)
    requires
        forall|i: int| 0 <= i < comps.len() ==> !(#[trigger] comps[i]).contains('/'),
    ensures
        clean_parts(path_parts(comps, absolute), absolute),
    decreases comps.len(),
{
    if comps.len() > 0 {
        let d = comps.drop_last();
        assert forall|i: int| 0 <= i < d.len() implies !(#[trigger] d[i]).contains('/') by {
            assert(d[i] == comps[i]);
        }
        lemma_path_parts_clean(d, absolute);
        let prev = path_parts(d, absolute);
        let c = comps.last();
        assert(!c.contains('/')) by {
            assert(comps[comps.len() - 1] == c);
        }
        let now = path_parts(comps, absolute);
        if c.len() == 0 || c == seq!['.'] {
        } else if c == seq!['.', '.'] {
            if prev.len() == 0 || prev.last() == seq!['.', '.'] {
                if !absolute {
                    assert(now == prev.push(seq!['.', '.']));
                    assert forall|i: int, j: int|
                        0 <= i < j < now.len() && #[trigger] now[j] == seq!['.', '.'] implies #[trigger] now[i]
                            == seq!['.', '.'] by {
                        assert(now[i] == prev[i]);
                        if j < prev.len() {
                            assert(now[j] == prev[j]);
                        } else if i < prev.len() - 1 {
                            assert(prev[prev.len() - 1] == seq!['.', '.']);
                        }
                    }
                    assert forall|i: int| 0 <= i < now.len() implies (#[trigger] now[i]).len() > 0
                        && !now[i].contains('/') && now[i] != seq!['.'] && (absolute ==> now[i] != seq![
                        '.',
                        '.',
                    ]) by {
                        if i < prev.len() {
                            assert(now[i] == prev[i]);
                        } else {
                            assert(now[i] == seq!['.', '.']);
                            assert(seq!['.', '.'] != seq!['.']) by {
                                assert(seq!['.', '.'].len() != seq!['.'].len());
                            }
                        }
                    }
                }
            } else {
                assert(now == prev.drop_last());
                assert forall|i: int, j: int|
                    0 <= i < j < now.len() && #[trigger] now[j] == seq!['.', '.'] implies #[trigger] now[i]
                        == seq!['.', '.'] by {
                    assert(now[i] == prev[i] && now[j] == prev[j]);
                }
                assert forall|i: int| 0 <= i < now.len() implies (#[trigger] now[i]).len() > 0 && !now[i].contains(
                    '/',
                ) && now[i] != seq!['.'] && (absolute ==> now[i] != seq!['.', '.']) by {
                    assert(now[i] == prev[i]);
                }
            }
        } else {
            assert(now == prev.push(c));
            assert forall|i: int, j: int|
                0 <= i < j < now.len() && #[trigger] now[j] == seq!['.', '.'] implies #[trigger] now[i]
                    == seq!['.', '.'] by {
                assert(now[i] == prev[i]);
                if j < prev.len() {
                    assert(now[j] == prev[j]);
                }
            }
            assert forall|i: int| 0 <= i < now.len() implies (#[trigger] now[i]).len() > 0 && !now[i].contains(
                '/',
            ) && now[i] != seq!['.'] && (absolute ==> now[i] != seq!['.', '.']) by {
                if i < prev.len() {
                    assert(now[i] == prev[i]);
                }
            }
        }
    }
}

proof fn lemma_clean_prefix(p: Seq<Seq<char>>, absolute: bool)
    requires
        clean_parts(p, absolute),
        p.len() > 0,
    ensures
        clean_parts(p.drop_last(), absolute),
{
    let d = p.drop_last();
    assert forall|i: int| 0 <= i < d.len() implies (#[trigger] d[i]).len() > 0 && !d[i].contains('/')
        && d[i] != seq!['.'] && (absolute ==> d[i] != seq!['.', '.']) by {
        assert(d[i] == p[i]);
    }
    assert forall|i: int, j: int|
        0 <= i < j < d.len() && #[trigger] d[j] == seq!['.', '.'] implies #[trigger] d[i] == seq![
        '.',
        '.',
    ] by {
        assert(d[i] == p[i] && d[j] == p[j]);
    }
}

/// Normalizing components that are already clean keeps them.
proof fn lemma_path_parts_fixed(p: Seq<Seq<char>>, absolute: bool, lead: bool)
    requires
        clean_parts(p, absolute),
        lead ==> absolute,
    ensures
        path_parts(if lead { seq![Seq::<char>::empty()] + p } else { p }, absolute) == p,
    decreases p.len(),
{
    let comps = if lead {
        seq![Seq::<char>::empty()] + p
    } else {
        p
    };
    if p.len() == 0 {
        if lead {
            assert(comps.drop_last() =~= Seq::<Seq<char>>::empty());
            reveal_with_fuel(path_parts, 2);
            assert(comps.last() == Seq::<char>::empty());
        }
    } else {
        lemma_clean_prefix(p, absolute);
        lemma_path_parts_fixed(p.drop_last(), absolute, lead);
        let dc = if lead {
            seq![Seq::<char>::empty()] + p.drop_last()
        } else {
            p.drop_last()
        };
        assert(comps.drop_last() =~= dc);
        assert(comps.last() == p.last());
        let c = p.last();
        assert(c == p[p.len() - 1]);
        let prev = p.drop_last();
        if c == seq!['.', '.'] {
            assert(!absolute);
            if prev.len() > 0 {
                assert(prev.last() == p[p.len() - 2]);
                assert(p[p.len() - 2] == seq!['.', '.']);
            }
            assert(prev.push(c) =~= p);
        } else {
            assert(c.len() > 0 && c != seq!['.']);
            assert(prev.push(c) =~= p);
        }
    }
}

proof fn lemma_join_first(p: Seq<Seq<char>>, sep: Seq<char>)
    requires
        p.len() > 0,
        p[0].len() > 0,
    ensures
        join_seq(p, sep).len() > 0,
        join_seq(p, sep)[0] == p[0][0],
    decreases p.len(),
{
    if p.len() > 1 {
        let d = p.drop_last();
        assert(d[0] == p[0]);
        lemma_join_first(d, sep);
    }
}

proof fn lemma_split_join_clean(p: Seq<Seq<char>>)
    requires
        p.len() > 0,
        forall|i: int| 0 <= i < p.len() ==> !(#[trigger] p[i]).contains('/'),
    ensures
        split_on(join_seq(p, seq!['/']), '/') == p,
    decreases p.len(),
{
    if p.len() == 1 {
        lemma_split_on_whole(p[0], '/');
        assert(seq![p[0]] =~= p);
    } else {
        let d = p.drop_last();
        assert forall|i: int| 0 <= i < d.len() implies !(#[trigger] d[i]).contains('/') by {
            assert(d[i] == p[i]);
        }
        lemma_split_join_clean(d);
        assert(!p.last().contains('/')) by {
            assert(p[p.len() - 1] == p.last());
        }
        lemma_split_on_whole(p.last(), '/');
        lemma_split_on_join3(join_seq(d, seq!['/']), p.last(), '/');
        assert(join_seq(p, seq!['/']) == join_seq(d, seq!['/']) + seq!['/'] + p.last());
        assert(d + seq![p.last()] =~= p);
    }
}

/// No `/`-separated component of `path` is `.` or `..`.
pub open spec fn no_dot_components(path: Seq<char>) -> bool {
    forall|i: int|
        0 <= i < split_on(path, '/').len() ==> #[trigger] split_on(path, '/')[i] != seq!['.']
            && split_on(path, '/')[i] != seq!['.', '.']
}

/// Lexical normalization is idempotent, and an absolute path stays
/// absolute with no `.` or `..` component left (a `..` at the root is
/// dropped): normalizing a normalized path changes nothing.
pub proof fn lemma_normalize_idempotent(raw: Seq<char>)
    ensures
        normalized_path(normalized_path(raw)) == normalized_path(raw),
        raw.len() > 0 && raw[0] == '/' ==> normalized_path(raw).len() > 0 && normalized_path(raw)[0]
            == '/' && clean_parts(path_parts(split_on(raw, '/'), true), true),
        raw.len() > 0 && raw[0] == '/' ==> no_dot_components(normalized_path(raw)),
{
    let absolute = raw.len() > 0 && raw[0] == '/';
    let comps = split_on(raw, '/');
    lemma_split_on_pieces(raw, '/');
    assert forall|i: int| 0 <= i < comps.len() implies !(#[trigger] comps[i]).contains('/') by {
        if comps[i].contains('/') {
            let k = choose|k: int| 0 <= k < comps[i].len() && comps[i][k] == '/';
            assert(split_on(raw, '/')[i][k] != '/');
        }
    }
    lemma_path_parts_clean(comps, absolute);
    let p = path_parts(comps, absolute);
    let j = join_seq(p, seq!['/']);
    let r = normalized_path(raw);
    assert forall|i: int| 0 <= i < p.len() implies !(#[trigger] p[i]).contains('/') by {}
    if absolute {
        assert(r == seq!['/'] + j);
        assert(r[0] == '/');
        assert(r =~= Seq::<char>::empty() + seq!['/'] + j);
        lemma_split_on_join3(Seq::<char>::empty(), j, '/');
        assert(split_on(Seq::<char>::empty(), '/') == seq![Seq::<char>::empty()]);
        if p.len() == 0 {
            assert(j == Seq::<char>::empty());
            let two = seq![Seq::<char>::empty()] + seq![Seq::<char>::empty()];
            assert(split_on(r, '/') == two);
            assert(two.drop_last() =~= seq![Seq::<char>::empty()]);
            assert(seq![Seq::<char>::empty()].drop_last() =~= Seq::<Seq<char>>::empty());
            reveal_with_fuel(path_parts, 3);
            assert(seq![Seq::<char>::empty()].last() == Seq::<char>::empty());
            assert(two.last() == Seq::<char>::empty());
            assert(path_parts(seq![Seq::<char>::empty()], true) =~= Seq::<Seq<char>>::empty());
            assert(path_parts(two, true) =~= Seq::<Seq<char>>::empty());
            assert forall|i: int| 0 <= i < split_on(r, '/').len() implies #[trigger] split_on(r, '/')[i]
                != seq!['.'] && split_on(r, '/')[i] != seq!['.', '.'] by {
                assert(split_on(r, '/')[i] == Seq::<char>::empty());
            }
        } else {
            lemma_split_join_clean(p);
            assert(split_on(r, '/') == seq![Seq::<char>::empty()] + p);
            lemma_path_parts_fixed(p, true, true);
            assert(path_parts(split_on(r, '/'), true) == p);
            assert forall|i: int| 0 <= i < split_on(r, '/').len() implies #[trigger] split_on(r, '/')[i]
                != seq!['.'] && split_on(r, '/')[i] != seq!['.', '.'] by {
                if i == 0 {
                    assert(split_on(r, '/')[i] == Seq::<char>::empty());
                } else {
                    assert(split_on(r, '/')[i] == p[i - 1]);
                }
            }
        }
        assert(normalized_path(r) == r);
    } else if j.len() == 0 {
        assert(r == seq!['.']);
        if p.len() > 0 {
            lemma_join_first(p, seq!['/']);
        }
        assert(!seq!['.'].contains('/')) by {
            if seq!['.'].contains('/') {
                let k = choose|k: int| 0 <= k < seq!['.'].len() && seq!['.'][k] == '/';
                assert(seq!['.'][k] == '.');
            }
        }
        lemma_split_on_whole(seq!['.'], '/');
        reveal_with_fuel(path_parts, 2);
        let one = seq![seq!['.']];
        assert(one.drop_last() =~= Seq::<Seq<char>>::empty());
        assert(path_parts(one, false) =~= Seq::<Seq<char>>::empty());
        assert(join_seq(Seq::<Seq<char>>::empty(), seq!['/']) =~= Seq::<char>::empty());
        assert(normalized_path(r) == r);
    } else {
        assert(r == j);
        assert(p.len() > 0);
        lemma_join_first(p, seq!['/']);
        assert(r[0] != '/') by {
            assert(p[0].len() > 0);
            assert(!p[0].contains('/'));
            assert(p[0][0] != '/');
        }
        lemma_split_join_clean(p);
        lemma_path_parts_fixed(p, false, false);
        assert(normalized_path(r) == r);
    }
}

/// Lexical path normalization (no disk access): drops `.`, pops `..`
/// (clamped at the root for absolute paths).
pub fn normalize_path(raw: &Vec<char>) -> (r: Vec<char>)
    ensures
        r@ == normalized_path(raw@),
{
    let absolute = raw.len() > 0 && raw[0] == '/';
    let comps = split_chars(raw, '/');
    let ghost cv = split_on(raw@, '/');
    assert(char_views(comps@) =~= cv);
    let mut parts: Vec<Vec<char>> = Vec::new();
    let mut i: usize = 0;
    while i < comps.len()
        invariant
            i <= comps.len(),
            comps@.len() == cv.len(),
            forall|k: int| 0 <= k < comps@.len() ==> #[trigger] comps@[k]@ == cv[k],
            char_views(parts@) == path_parts(cv.take(i as int), absolute),
        decreases comps.len() - i,
    {
        let ghost prev = char_views(parts@);
        let comp = &comps[i];
        proof {
            assert(cv.take(i + 1).drop_last() =~= cv.take(i as int));
            assert(cv.take(i + 1).last() == comp@);
        }
        let is_dot = comp.len() == 1 && comp[0] == '.';
        let is_dotdot = comp.len() == 2 && comp[0] == '.' && comp[1] == '.';
        proof {
            if is_dot {
                assert(comp@ =~= seq!['.']);
            } else {
                assert(comp@ != seq!['.']) by {
                    if comp@ == seq!['.'] {
                        assert(comp@.len() == 1 && comp@[0] == '.');
                    }
                }
            }
            if is_dotdot {
                assert(comp@ =~= seq!['.', '.']);
            } else {
                assert(comp@ != seq!['.', '.']) by {
                    if comp@ == seq!['.', '.'] {
                        assert(comp@.len() == 2 && comp@[0] == '.' && comp@[1] == '.');
                    }
                }
            }
        }
        if comp.len() == 0 || is_dot {
        } else if is_dotdot {
            let n = parts.len();
            let last_is_dotdot = n > 0 && parts[n - 1].len() == 2 && parts[n - 1][0] == '.'
                && parts[n - 1][1] == '.';
            proof {
                if n > 0 {
                    assert(prev.last() == parts@[n - 1]@);
                    if last_is_dotdot {
                        assert(prev.last() =~= seq!['.', '.']);
                    } else {
                        assert(prev.last() != seq!['.', '.']) by {
                            if prev.last() == seq!['.', '.'] {
                                assert(parts@[n - 1]@.len() == 2);
                            }
                        }
                    }
                }
            }
            if n == 0 || last_is_dotdot {
                if !absolute {
                    parts.push(vec!['.', '.']);
                    proof {
                        assert(char_views(parts@) =~= prev.push(seq!['.', '.']));
                    }
                }
            } else {
                parts.pop();
                proof {
                    assert(char_views(parts@) =~= prev.drop_last());
                }
            }
        } else {
            let copy = slice_chars(comp, 0, comp.len());
            parts.push(copy);
            proof {
                assert(comp@.subrange(0, comp@.len() as int) =~= comp@);
                assert(char_views(parts@) =~= prev.push(comp@));
            }
        }
        i = i + 1;
    }
    assert(cv.take(comps.len() as int) =~= cv);
    let joined = join_vecs(&parts, &['/']);
    assert(seq!['/'] =~= ['/']@);
    if absolute {
        let mut r: Vec<char> = vec!['/'];
        append_chars(&mut r, joined.as_slice());
        assert(r@ =~= seq!['/'] + joined@);
        r
    } else if joined.len() == 0 {
        vec!['.']
    } else {
        joined
    }
}

// ---------------------------------------------------------------------------
// Splitting `rm` commands per path
// ---------------------------------------------------------------------------

/// `str::eq_ignore_ascii_case(word, "rm")`.
pub open spec fn is_rm_word(w: Seq<char>) -> bool {
    w.len() == 2 && (w[0] == 'r' || w[0] == 'R') && (w[1] == 'm' || w[1] == 'M')
}

/// Sorts the words after `rm` into flags and paths: up to and including a
/// `--`, a word that starts with `-` is a flag; everything else is a path.
/// The third component records whether `--` was seen.
pub open spec fn rm_split(ws: Seq<Seq<char>>) -> (Seq<Seq<char>>, Seq<Seq<char>>, bool)
    decreases ws.len(),
{
    if ws.len() == 0 {
        (Seq::<Seq<char>>::empty(), Seq::<Seq<char>>::empty(), false)
    } else {
        let (flags, paths, seen) = rm_split(ws.drop_last());
        let w = ws.last();
        if !seen && w.len() > 0 && w[0] == '-' {
            (flags.push(w), paths, seen || w == seq!['-', '-'])
        } else {
            (flags, paths.push(w), seen)
        }
    }
}

/// The path as it is checked: `$…` and `~…` paths are kept as written,
/// others are normalized.
pub open spec fn rm_target(p: Seq<char>) -> Seq<char> {
    if p.len() > 0 && (p[0] == '$' || p[0] == '~') {
        p
    } else {
        normalized_path(p)
    }
}

/// `"rm {flags joined by spaces} {target}"`.
pub open spec fn rm_command(flags: Seq<Seq<char>>, p: Seq<char>) -> Seq<char> {
    seq!['r', 'm', ' '] + join_seq(flags, seq![' ']) + seq![' '] + rm_target(p)
}

/// An `rm` command with several paths as one command per path; any other
/// command as itself.
pub open spec fn expand_rm(cmd: Seq<char>) -> Seq<Seq<char>> {
    let ws = words(cmd);
    if ws.len() == 0 || !is_rm_word(ws[0]) {
        seq![cmd]
    } else {
        let (flags, paths, seen) = rm_split(ws.skip(1));
        if paths.len() == 0 {
            seq![cmd]
        } else {
            paths.map_values(|p: Seq<char>| rm_command(flags, p))
        }
    }
}

/// Split an `rm` command with multiple paths into one command per path, so
/// `rm -rf /tmp /` is checked as `rm -rf /tmp` and `rm -rf /`.
pub fn expand_rm_to_single_path_commands(cmd: &Vec<char>) -> (r: Vec<Vec<char>>)
    ensures
        char_views(r@) == expand_rm(cmd@),
{
    let ws = split_words(cmd);
    let ghost wv = words(cmd@);
    if ws.len() == 0 || !(ws[0].len() == 2 && (ws[0][0] == 'r' || ws[0][0] == 'R') && (ws[0][1]
        == 'm' || ws[0][1] == 'M')) {
        let r = vec![slice_chars(cmd, 0, cmd.len())];
        proof {
            assert(cmd@.subrange(0, cmd@.len() as int) =~= cmd@);
            assert(char_views(r@) =~= seq![cmd@]);
            if ws.len() > 0 {
                assert(wv[0] == ws@[0]@);
            }
        }
        return r;
    }
    proof {
        assert(wv[0] == ws@[0]@);
    }
    let ghost rest = wv.skip(1);
    let mut flags: Vec<Vec<char>> = Vec::new();
    let mut paths: Vec<Vec<char>> = Vec::new();
    let mut seen_dashdash = false;
    let mut i: usize = 1;
    while i < ws.len()
        invariant
            1 <= i <= ws.len(),
            char_views(ws@) == wv,
            rest == wv.skip(1),
            rm_split(rest.take(i - 1)) == (char_views(flags@), char_views(paths@), seen_dashdash),
        decreases ws.len() - i,
    {
        let ghost pf = char_views(flags@);
        let ghost pp = char_views(paths@);
        let w = &ws[i];
        proof {
            assert(rest.take(i as int).drop_last() =~= rest.take(i - 1));
            assert(rest.take(i as int).last() == w@);
        }
        let copy = slice_chars(w, 0, w.len());
        assert(w@.subrange(0, w@.len() as int) =~= w@);
        if !seen_dashdash && w.len() > 0 && w[0] == '-' {
            let dd = w.len() == 2 && w[1] == '-';
            proof {
                if dd {
                    assert(w@ =~= seq!['-', '-']);
                } else {
                    assert(w@ != seq!['-', '-']) by {
                        if w@ == seq!['-', '-'] {
                            assert(w@.len() == 2 && w@[1] == '-');
                        }
                    }
                }
            }
            if dd {
                seen_dashdash = true;
            }
            flags.push(copy);
            proof {
                assert(char_views(flags@) =~= pf.push(w@));
            }
        } else {
            paths.push(copy);
            proof {
                assert(char_views(paths@) =~= pp.push(w@));
            }
        }
        i = i + 1;
    }
    assert(rest.take(ws.len() - 1) =~= rest);
    if paths.len() == 0 {
        let r = vec![slice_chars(cmd, 0, cmd.len())];
        proof {
            assert(cmd@.subrange(0, cmd@.len() as int) =~= cmd@);
            assert(char_views(r@) =~= seq![cmd@]);
        }
        return r;
    }
    let joined_flags = join_vecs(&flags, &[' ']);
    assert(seq![' '] =~= [' ']@);
    let mut r: Vec<Vec<char>> = Vec::new();
    let mut j: usize = 0;
    while j < paths.len()
        invariant
            j <= paths.len(),
            joined_flags@ == join_seq(char_views(flags@), seq![' ']),
            rm_split(rest) == (char_views(flags@), char_views(paths@), seen_dashdash),
            char_views(r@) == char_views(paths@).take(j as int).map_values(
                |p: Seq<char>| rm_command(char_views(flags@), p),
            ),
        decreases paths.len() - j,
    {
        let ghost prev = char_views(r@);
        let p = &paths[j];
        let target = if p.len() > 0 && (p[0] == '$' || p[0] == '~') {
            let t = slice_chars(p, 0, p.len());
            assert(p@.subrange(0, p@.len() as int) =~= p@);
            t
        } else {
            normalize_path(p)
        };
        let mut line: Vec<char> = vec!['r', 'm', ' '];
        append_chars(&mut line, joined_flags.as_slice());
        line.push(' ');
        append_chars(&mut line, target.as_slice());
        proof {
            assert(target@ == rm_target(p@));
            assert(line@ =~= rm_command(char_views(flags@), p@));
        }
        r.push(line);
        j = j + 1;
        proof {
            assert(char_views(paths@).take(j as int) =~= char_views(paths@).take(j - 1).push(p@));
            assert(char_views(r@) =~= prev.push(rm_command(char_views(flags@), p@)));
            assert(char_views(r@) =~= char_views(paths@).take(j as int).map_values(
                |q: Seq<char>| rm_command(char_views(flags@), q),
            ));
        }
    }
    assert(char_views(paths@).take(paths.len() as int) =~= char_views(paths@));
    r
}

// ---------------------------------------------------------------------------
// Command check
// ---------------------------------------------------------------------------

/// A command hits a built-in rule, as written or after splitting a
/// multi-path `rm` into one command per path.
pub open spec fn matches_hardcoded(cmd: Seq<char>) -> bool {
    rules_match(cmd) || exists|i: int|
        0 <= i < expand_rm(cmd).len() && #[trigger] rules_match(expand_rm(cmd)[i])
}

fn matches_hardcoded_exec(cmd: &Vec<char>) -> (b: bool)
    ensures
        b == matches_hardcoded(cmd@),
{
    let whole = string_of(cmd.as_slice());
    if matches_rules(whole.as_str()) {
        return true;
    }
    let expanded = expand_rm_to_single_path_commands(cmd);
    let mut i: usize = 0;
    while i < expanded.len()
        invariant
            i <= expanded.len(),
            char_views(expanded@) == expand_rm(cmd@),
            forall|j: int| 0 <= j < i ==> !#[trigger] rules_match(expand_rm(cmd@)[j]),
        decreases expanded.len() - i,
    {
        let s = string_of(expanded[i].as_slice());
        assert(expand_rm(cmd@)[i as int] == expanded@[i as int]@);
        if matches_rules(s.as_str()) {
            return true;
        }
        i = i + 1;
    }
    false
}

/// `str::split("&&")`: pieces between non-overlapping occurrences of `&&`,
/// found from the left.
pub open spec fn split_and(s: Seq<char>) -> Seq<Seq<char>>
    decreases s.len(),
{
    if s.len() < 2 {
        seq![s]
    } else if s[0] == '&' && s[1] == '&' {
        seq![Seq::<char>::empty()] + split_and(s.skip(2))
    } else {
        let r = split_and(s.skip(1));
        r.update(0, seq![s[0]] + r[0])
    }
}

proof fn lemma_split_and_nonempty(s: Seq<char>)
    ensures
        split_and(s).len() >= 1,
    decreases s.len(),
{
    if s.len() >= 2 {
        if s[0] == '&' && s[1] == '&' {
            lemma_split_and_nonempty(s.skip(2));
        } else {
            lemma_split_and_nonempty(s.skip(1));
        }
    }
}

/// `ps` with `cur` put in front of its first piece.
pub open spec fn prepend_first(cur: Seq<char>, ps: Seq<Seq<char>>) -> Seq<Seq<char>> {
    ps.update(0, cur + ps[0])
}

fn split_and_chars(v: &Vec<char>) -> (pieces: Vec<Vec<char>>)
    ensures
        char_views(pieces@) == split_and(v@),
{
    let mut pieces: Vec<Vec<char>> = Vec::new();
    let mut cur: Vec<char> = Vec::new();
    let mut i: usize = 0;
    proof {
        assert(v@.skip(0) =~= v@);
        lemma_split_and_nonempty(v@);
        assert(prepend_first(cur@, split_and(v@)) =~= split_and(v@));
        assert(char_views(pieces@) + split_and(v@) =~= split_and(v@));
    }
    while i < v.len()
        invariant
            i <= v.len(),
            split_and(v@) == char_views(pieces@) + prepend_first(cur@, split_and(v@.skip(i as int))),
        decreases v.len() - i,
    {
        let ghost pp = char_views(pieces@);
        let ghost pc = cur@;
        let ghost tail = v@.skip(i as int);
        if i + 1 < v.len() && v[i] == '&' && v[i + 1] == '&' {
            proof {
                assert(tail.skip(2) =~= v@.skip(i + 2));
                let x = split_and(v@.skip(i + 2));
                lemma_split_and_nonempty(v@.skip(i + 2));
                assert(split_and(tail) == seq![Seq::<char>::empty()] + x);
                assert(prepend_first(pc, split_and(tail)) =~= seq![pc] + x);
                assert(prepend_first(Seq::<char>::empty(), x) =~= x);
            }
            let mut done: Vec<char> = Vec::new();
            std::mem::swap(&mut done, &mut cur);
            pieces.push(done);
            i = i + 2;
            proof {
                assert(char_views(pieces@) =~= pp.push(pc));
                assert(pp + (seq![pc] + split_and(v@.skip(i as int))) =~= pp.push(pc) + prepend_first(
                    cur@,
                    split_and(v@.skip(i as int)),
                ));
            }
        } else {
            let c = v[i];
            proof {
                assert(tail.skip(1) =~= v@.skip(i + 1));
                let y = split_and(v@.skip(i + 1));
                lemma_split_and_nonempty(v@.skip(i + 1));
                if tail.len() >= 2 {
                    assert(split_and(tail) == y.update(0, seq![c] + y[0]));
                } else {
                    assert(v@.skip(i + 1) =~= Seq::<char>::empty());
                    assert(y == seq![Seq::<char>::empty()]);
                    assert(split_and(tail) == seq![tail]);
                    assert(tail =~= seq![c]);
                    assert(split_and(tail) =~= y.update(0, seq![c] + y[0]));
                }
                assert(pc + (seq![c] + y[0]) =~= pc.push(c) + y[0]);
                assert(prepend_first(pc, split_and(tail)) =~= prepend_first(pc.push(c), y));
            }
            cur.push(c);
            i = i + 1;
        }
    }
    proof {
        assert(v@.skip(v.len() as int) =~= Seq::<char>::empty());
        assert(prepend_first(cur@, split_and(Seq::<char>::empty())) =~= seq![cur@]);
    }
    let ghost pp = char_views(pieces@);
    pieces.push(cur);
    assert(char_views(pieces@) =~= pp.push(pieces@.last()@));
    pieces
}

/// A chain of commands breaks a built-in rule: some fragment, after
/// splitting at `;` and `|` and then at `&&`, and trimming, hits one.
pub open spec fn security_violation(command: Seq<char>) -> bool {
    exists|i: int, j: int|
        0 <= i < split_when(command, SepKind::Chain).len() && 0 <= j < split_and(
            split_when(command, SepKind::Chain)[i],
        ).len() && #[trigger] matches_hardcoded(
            trim(split_and(split_when(command, SepKind::Chain)[i])[j]),
        )
}

proof fn lemma_split_when_last_piece(a: Seq<char>, c: Seq<char>)
    requires
        forall|k: int| 0 <= k < c.len() ==> !is_sep(SepKind::Chain, #[trigger] c[k]),
    ensures
        split_when(a + seq![';'] + c, SepKind::Chain).len() >= 1,
        split_when(a + seq![';'] + c, SepKind::Chain).last() == c,
    decreases c.len(),
{
    let s = a + seq![';'] + c;
    if c.len() == 0 {
        assert(s.drop_last() =~= a);
        assert(s =~= a + seq![';']);
        lemma_split_when_nonempty(a, SepKind::Chain);
    } else {
        let d = c.drop_last();
        assert forall|k: int| 0 <= k < d.len() implies !is_sep(SepKind::Chain, #[trigger] d[k]) by {
            assert(d[k] == c[k]);
        }
        lemma_split_when_last_piece(a, d);
        assert(s.drop_last() =~= a + seq![';'] + d);
        assert(s.last() == c.last());
        assert(!is_sep(SepKind::Chain, c[c.len() - 1]));
        assert(d.push(c.last()) =~= c);
    }
}

proof fn lemma_split_and_whole(c: Seq<char>)
    requires
        forall|k: int| 0 <= k < c.len() ==> #[trigger] c[k] != '&',
    ensures
        split_and(c) == seq![c],
    decreases c.len(),
{
    if c.len() >= 2 {
        let t = c.skip(1);
        assert forall|k: int| 0 <= k < t.len() implies #[trigger] t[k] != '&' by {
            assert(t[k] == c[k + 1]);
        }
        lemma_split_and_whole(t);
        assert(seq![c[0]] + t =~= c);
    }
}

/// A forbidden command cannot hide behind another one: whatever comes
/// before it, a command that breaks a built-in rule still makes the whole
/// chain refused when it follows a `;` (as long as it holds no chain
/// separator or `&` of its own).
pub proof fn lemma_chained_violation_caught(a: Seq<char>, c: Seq<char>)
    requires
        matches_hardcoded(trim(c)),
        forall|k: int| 0 <= k < c.len() ==> #[trigger] c[k] != ';' && c[k] != '|' && c[k] != '&',
    ensures
        security_violation(a + seq![';'] + c),
{
    let cmd = a + seq![';'] + c;
    assert forall|k: int| 0 <= k < c.len() implies !is_sep(SepKind::Chain, #[trigger] c[k]) by {
        assert(c[k] != ';' && c[k] != '|');
    }
    lemma_split_when_last_piece(a, c);
    assert forall|k: int| 0 <= k < c.len() implies #[trigger] c[k] != '&' by {
        assert(c[k] != ';' && c[k] != '|' && c[k] != '&');
    }
    lemma_split_and_whole(c);
    let pieces = split_when(cmd, SepKind::Chain);
    let i = pieces.len() - 1;
    assert(pieces[i] == c);
    assert(split_and(pieces[i]) == seq![c]);
    assert(split_and(pieces[i])[0] == c);
    assert(matches_hardcoded(trim(split_and(split_when(cmd, SepKind::Chain)[i])[0])));
}

proof fn lemma_split_chain_join(a: Seq<char>, b: Seq<char>)
    ensures
        split_when(a + seq![';'] + b, SepKind::Chain) == split_when(a, SepKind::Chain) + split_when(
            b,
            SepKind::Chain,
        ),
    decreases b.len(),
{
    let s = a + seq![';'] + b;
    lemma_split_when_nonempty(a, SepKind::Chain);
    lemma_split_when_nonempty(b, SepKind::Chain);
    if b.len() == 0 {
        assert(s.drop_last() =~= a);
        assert(split_when(b, SepKind::Chain) == seq![Seq::<char>::empty()]);
        assert(split_when(a, SepKind::Chain).push(Seq::<char>::empty()) =~= split_when(a, SepKind::Chain)
            + seq![Seq::<char>::empty()]);
    } else {
        let d = b.drop_last();
        lemma_split_chain_join(a, d);
        lemma_split_when_nonempty(d, SepKind::Chain);
        assert(s.drop_last() =~= a + seq![';'] + d);
        assert(s.last() == b.last());
        let pa = split_when(a, SepKind::Chain);
        let q = split_when(d, SepKind::Chain);
        let p = pa + q;
        if is_sep(SepKind::Chain, b.last()) {
            assert(p.push(Seq::<char>::empty()) =~= pa + q.push(Seq::<char>::empty()));
        } else {
            assert(p.update(p.len() - 1, p.last().push(b.last())) =~= pa + q.update(
                q.len() - 1,
                q.last().push(b.last()),
            ));
        }
    }
}

/// Joining two commands with `;` gives a chain that breaks a built-in rule
/// exactly when one of them does: nothing can hide a forbidden command
/// behind another, and joining never makes allowed commands forbidden.
pub proof fn lemma_chain_violation_iff(a: Seq<char>, b: Seq<char>)
    ensures
        security_violation(a + seq![';'] + b) == (security_violation(a) || security_violation(b)),
{
    let s = a + seq![';'] + b;
    lemma_split_chain_join(a, b);
    let pa = split_when(a, SepKind::Chain);
    let pb = split_when(b, SepKind::Chain);
    let ps = split_when(s, SepKind::Chain);
    assert(ps == pa + pb);
    if security_violation(s) {
        let (i, j) = choose|i: int, j: int|
            0 <= i < ps.len() && 0 <= j < split_and(ps[i]).len() && #[trigger] matches_hardcoded(
                trim(split_and(ps[i])[j]),
            );
        if i < pa.len() {
            assert(ps[i] == pa[i]);
            assert(matches_hardcoded(trim(split_and(pa[i])[j])));
        } else {
            assert(ps[i] == pb[i - pa.len()]);
            assert(matches_hardcoded(trim(split_and(pb[i - pa.len()])[j])));
        }
    }
    if security_violation(a) {
        let (i, j) = choose|i: int, j: int|
            0 <= i < pa.len() && 0 <= j < split_and(pa[i]).len() && #[trigger] matches_hardcoded(
                trim(split_and(pa[i])[j]),
            );
        assert(ps[i] == pa[i]);
        assert(matches_hardcoded(trim(split_and(ps[i])[j])));
    }
    if security_violation(b) {
        let (i, j) = choose|i: int, j: int|
            0 <= i < pb.len() && 0 <= j < split_and(pb[i]).len() && #[trigger] matches_hardcoded(
                trim(split_and(pb[i])[j]),
            );
        assert(ps[i + pa.len()] == pb[i]);
        assert(matches_hardcoded(trim(split_and(ps[i + pa.len()])[j])));
    }
}

/// Naive chain splitting (`&&`, `||`, `;`, `|`) so `ls && rm -rf /` is
/// caught; not a full shell parser. Returns the refusal reason when a
/// fragment breaks a built-in rule.
pub fn check_terminal_security(command: &str) -> (r: Option<String>)
    ensures
        r is Some <==> security_violation(command@),
        r matches Some(reason) ==> reason@ == DENY_TEXT@,
{
    let v = chars_of(command);
    let chain = split_by(&v, &SepKind::Chain);
    let ghost cw = split_when(command@, SepKind::Chain);
    let mut i: usize = 0;
    while i < chain.len()
        invariant
            i <= chain.len(),
            char_views(chain@) == cw,
            cw == split_when(command@, SepKind::Chain),
            forall|a: int, b: int|
                0 <= a < i && 0 <= b < split_and(cw[a]).len() ==> !#[trigger] matches_hardcoded(
                    trim(split_and(cw[a])[b]),
                ),
        decreases chain.len() - i,
    {
        assert(cw[i as int] == chain@[i as int]@);
        let frags = split_and_chars(&chain[i]);
        let mut j: usize = 0;
        while j < frags.len()
            invariant
                i < chain.len(),
                j <= frags.len(),
                char_views(chain@) == cw,
                cw == split_when(command@, SepKind::Chain),
                char_views(frags@) == split_and(cw[i as int]),
                forall|a: int, b: int|
                    0 <= a < i && 0 <= b < split_and(cw[a]).len() ==> !#[trigger] matches_hardcoded(
                        trim(split_and(cw[a])[b]),
                    ),
                forall|b: int| 0 <= b < j ==> !#[trigger] matches_hardcoded(
                    trim(split_and(cw[i as int])[b]),
                ),
            decreases frags.len() - j,
        {
            assert(split_and(cw[i as int])[j as int] == frags@[j as int]@);
            let t = trim_chars(&frags[j]);
            if matches_hardcoded_exec(&t) {
                proof {
                    assert(matches_hardcoded(
                        trim(split_and(split_when(command@, SepKind::Chain)[i as int])[j as int]),
                    ));
                }
                return Some(String::from_str(DENY_TEXT));
            }
            j = j + 1;
        }
        i = i + 1;
    }
    None
}

// ---------------------------------------------------------------------------
// Dangerous-keyword warnings
// ---------------------------------------------------------------------------

/// Words that put a warning on a terminal approval request.
pub open spec fn keywords() -> Seq<Seq<char>> {
    seq![
        "sudo"@,
        "rm"@,
        "kill"@,
        "killall"@,
        "pkill"@,
        "mkfs"@,
        "dd"@,
        "shutdown"@,
        "reboot"@,
        "poweroff"@,
        "halt"@,
        "umount"@,
        "fdisk"@,
        "parted"@,
    ]
}

fn keyword_source(k: usize) -> (s: &'static str)
    requires
        k < 14,
    ensures
        s@ == keywords()[k as int],
{
    if k == 0 {
        "sudo"
    } else if k == 1 {
        "rm"
    } else if k == 2 {
        "kill"
    } else if k == 3 {
        "killall"
    } else if k == 4 {
        "pkill"
    } else if k == 5 {
        "mkfs"
    } else if k == 6 {
        "dd"
    } else if k == 7 {
        "shutdown"
    } else if k == 8 {
        "reboot"
    } else if k == 9 {
        "poweroff"
    } else if k == 10 {
        "halt"
    } else if k == 11 {
        "umount"
    } else if k == 12 {
        "fdisk"
    } else {
        "parted"
    }
}

fn is_keyword(w: &Vec<char>) -> (b: bool)
    ensures
        b == keywords().contains(w@),
{
    let mut k: usize = 0;
    while k < 14
        invariant
            k <= 14,
            forall|j: int| 0 <= j < k ==> keywords()[j] != w@,
        decreases 14 - k,
    {
        let kw = chars_of(keyword_source(k));
        if chars_eq(kw.as_slice(), w.as_slice()) {
            return true;
        }
        k = k + 1;
    }
    false
}

/// The distinct keywords among the (trimmed) words, in order of first
/// appearance.
pub open spec fn keyword_hits(ws: Seq<Seq<char>>) -> Seq<Seq<char>>
    decreases ws.len(),
{
    if ws.len() == 0 {
        Seq::<Seq<char>>::empty()
    } else {
        let prev = keyword_hits(ws.drop_last());
        let w = trim(ws.last());
        if keywords().contains(w) && !prev.contains(w) {
            prev.push(w)
        } else {
            prev
        }
    }
}

/// The warning strip for a terminal command: one message naming the
/// dangerous keywords it contains, or nothing.
pub open spec fn warnings_for(command: Seq<char>) -> Seq<Seq<char>> {
    let hits = keyword_hits(split_when(command, SepKind::Word));
    if hits.len() == 0 {
        Seq::<Seq<char>>::empty()
    } else {
        seq![
            "Command contains potentially dangerous keyword"@ + (if hits.len() > 1 {
                "s"@
            } else {
                Seq::<char>::empty()
            }) + ": "@ + join_seq(hits, ", "@),
        ]
    }
}

fn contains_chars(v: &Vec<Vec<char>>, w: &Vec<char>) -> (b: bool)
    ensures
        b == char_views(v@).contains(w@),
{
    let mut k: usize = 0;
    while k < v.len()
        invariant
            k <= v.len(),
            forall|j: int| 0 <= j < k ==> char_views(v@)[j] != w@,
        decreases v.len() - k,
    {
        if chars_eq(v[k].as_slice(), w.as_slice()) {
            assert(char_views(v@)[k as int] == w@);
            return true;
        }
        k = k + 1;
    }
    false
}

/// Dangerous keywords that put a warning on the terminal approval request.
pub fn terminal_warnings(command: &str) -> (r: Vec<String>)
    ensures
        string_views(r@) == warnings_for(command@),
{
    let v = chars_of(command);
    let ws = split_by(&v, &SepKind::Word);
    let ghost wv = split_when(command@, SepKind::Word);
    let mut hits: Vec<Vec<char>> = Vec::new();
    let mut i: usize = 0;
    while i < ws.len()
        invariant
            i <= ws.len(),
            char_views(ws@) == wv,
            wv == split_when(command@, SepKind::Word),
            char_views(hits@) == keyword_hits(wv.take(i as int)),
        decreases ws.len() - i,
    {
        let ghost prev = char_views(hits@);
        proof {
            assert(wv.take(i + 1).drop_last() =~= wv.take(i as int));
            assert(wv.take(i + 1).last() == ws@[i as int]@);
        }
        let w = trim_chars(&ws[i]);
        if is_keyword(&w) && !contains_chars(&hits, &w) {
            hits.push(w);
            proof {
                assert(char_views(hits@) =~= prev.push(w@));
            }
        }
        i = i + 1;
    }
    assert(wv.take(ws.len() as int) =~= wv);
    if hits.len() == 0 {
        let r: Vec<String> = Vec::new();
        assert(string_views(r@) =~= Seq::<Seq<char>>::empty());
        return r;
    }
    let mut msg = String::from_str("Command contains potentially dangerous keyword");
    if hits.len() > 1 {
        push_str(&mut msg, "s");
    }
    push_str(&mut msg, ": ");
    let sep = chars_of(", ");
    let joined = join_vecs(&hits, sep.as_slice());
    push_chars(&mut msg, joined.as_slice());
    let ghost expected = warnings_for(command@)[0];
    assert(msg@ =~= expected);
    let r = vec![msg];
    assert(string_views(r@) =~= seq![expected]);
    r
}

// ---------------------------------------------------------------------------
// Sensitive paths
// ---------------------------------------------------------------------------

/// The patterns that `globset::Glob::new` accepts, in order.
pub open spec fn valid_patterns(ps: Seq<Seq<char>>) -> Seq<Seq<char>>
    decreases ps.len(),
{
    if ps.len() == 0 {
        Seq::<Seq<char>>::empty()
    } else {
        let prev = valid_patterns(ps.drop_last());
        if glob_parses(ps.last()) {
            prev.push(ps.last())
        } else {
            prev
        }
    }
}

/// `str::trim_start_matches('/')`.
pub open spec fn strip_leading_slashes(s: Seq<char>) -> Seq<char>
    decreases s.len(),
{
    if s.len() > 0 && s[0] == '/' {
        strip_leading_slashes(s.skip(1))
    } else {
        s
    }
}

/// The first sensitive pattern (among those that parse) that the path,
/// without its leading slashes, matches.
pub open spec fn sensitive_hit(path: Seq<char>, patterns: Seq<Seq<char>>) -> Option<Seq<char>> {
    let valid = valid_patterns(patterns);
    match globset_matches(valid, strip_leading_slashes(path)) {
        Some(ix) => if ix.len() > 0 && ix[0] < valid.len() {
            Some(valid[ix[0] as int])
        } else {
            None
        },
        None => None,
    }
}

/// Returns the matched pattern when `path` hits the sensitive list.
/// Patterns that do not parse are skipped. Where the path or a pattern
/// holds a `\\`, globset answers per platform: then the result is only
/// known to be one of the patterns, or none.
pub fn sensitive_match(path: &str, patterns: &Vec<String>) -> (r: Option<String>)
    ensures
        no_backslash(path@) && all_no_backslash(string_views(patterns@)) ==> match r {
            Some(p) => sensitive_hit(path@, string_views(patterns@)) == Some(p@),
            None => sensitive_hit(path@, string_views(patterns@)) is None,
        },
        r matches Some(p) ==> exists|i: int| 0 <= i < patterns@.len() && #[trigger] patterns@[i]@ == p@,
{
    let ghost pv = string_views(patterns@);
    let ghost portable = all_no_backslash(pv);
    let mut valid: Vec<String> = Vec::new();
    let mut i: usize = 0;
    while i < patterns.len()
        invariant
            i <= patterns.len(),
            pv == string_views(patterns@),
            portable == all_no_backslash(pv),
            portable ==> string_views(valid@) == valid_patterns(pv.take(i as int)),
            forall|k: int|
                #![trigger valid@[k]]
                0 <= k < valid@.len() ==> exists|j: int|
                    0 <= j < patterns@.len() && #[trigger] patterns@[j]@ == valid@[k]@,
        decreases patterns.len() - i,
    {
        let ghost prev = string_views(valid@);
        proof {
            assert(pv.take(i + 1).drop_last() =~= pv.take(i as int));
            assert(pv.take(i + 1).last() == patterns@[i as int]@);
            if portable {
                assert(no_backslash(pv[i as int]));
            }
        }
        if glob_is_valid(patterns[i].as_str()) {
            let ghost before = valid@;
            valid.push(String::from_str(patterns[i].as_str()));
            proof {
                assert(string_views(valid@) =~= prev.push(patterns@[i as int]@));
                assert forall|k: int|
                    #![trigger valid@[k]]
                    0 <= k < valid@.len() implies exists|j: int|
                        0 <= j < patterns@.len() && #[trigger] patterns@[j]@ == valid@[k]@ by {
                    if k < before.len() {
                        assert(valid@[k] == before[k]);
                    } else {
                        assert(patterns@[i as int]@ == valid@[k]@);
                    }
                }
            }
        }
        i = i + 1;
    }
    assert(pv.take(patterns.len() as int) =~= pv);
    proof {
        if portable {
            lemma_valid_patterns_portable(pv);
            assert(all_no_backslash(string_views(valid@)));
        }
    }
    let v = chars_of(path);
    let mut start: usize = 0;
    assert(v@.skip(0) =~= v@);
    while start < v.len() && v[start] == '/'
        invariant
            start <= v.len(),
            v@ == path@,
            strip_leading_slashes(path@) == strip_leading_slashes(v@.skip(start as int)),
        decreases v.len() - start,
    {
        assert(v@.skip(start as int).skip(1) =~= v@.skip(start + 1));
        start = start + 1;
    }
    assert(v@.skip(start as int) =~= v@.subrange(start as int, v@.len() as int));
    let stripped = string_of(slice_chars(&v, start, v.len()).as_slice());
    proof {
        if no_backslash(path@) {
            lemma_strip_portable(path@);
        }
    }
    match globset_match_indices(&valid, stripped.as_str()) {
        Some(ix) => {
            if ix.len() > 0 {
                let k = ix[0];
                Some(String::from_str(valid[k].as_str()))
            } else {
                None
            }
        },
        None => None,
    }
}

proof fn lemma_valid_patterns_portable(ps: Seq<Seq<char>>)
    requires
        all_no_backslash(ps),
    ensures
        all_no_backslash(valid_patterns(ps)),
    decreases ps.len(),
{
    if ps.len() > 0 {
        assert(all_no_backslash(ps.drop_last())) by {
            assert forall|i: int| 0 <= i < ps.drop_last().len() implies no_backslash(
                #[trigger] ps.drop_last()[i],
            ) by {
                assert(ps.drop_last()[i] == ps[i]);
            }
        }
        lemma_valid_patterns_portable(ps.drop_last());
        assert(no_backslash(ps[ps.len() - 1]));
    }
}

proof fn lemma_strip_portable(s: Seq<char>)
    requires
        no_backslash(s),
    ensures
        no_backslash(strip_leading_slashes(s)),
    decreases s.len(),
{
    if s.len() > 0 && s[0] == '/' {
        assert forall|i: int| 0 <= i < s.skip(1).len() implies s.skip(1)[i] != '\\' by {
            assert(s.skip(1)[i] == s[i + 1]);
        }
        lemma_strip_portable(s.skip(1));
    }
}

// ---------------------------------------------------------------------------
// Decision entry point
// ---------------------------------------------------------------------------

/// `Some` string's characters, or the empty sequence.
pub open spec fn opt_view(s: Option<String>) -> Seq<char> {
    match s {
        Some(v) => v@,
        None => Seq::<char>::empty(),
    }
}

/// The tools whose `path` is checked against the sensitive patterns.
pub open spec fn checks_paths(tool_name: Seq<char>) -> bool {
    tool_name == "read_file"@ || tool_name == "write_file"@ || tool_name == "edit_file"@
}

/// The sensitive-pattern hit that escalates this call, if any.
pub open spec fn sensitive_escalation(
    tool_name: Seq<char>,
    args: CallArgs,
    configured: Option<Seq<Seq<char>>>,
) -> Option<Seq<char>> {
    match args.path {
        Some(p) => if checks_paths(tool_name) {
            sensitive_hit(
                p@,
                match configured {
                    Some(c) => c,
                    None => default_sensitive_patterns_spec(),
                },
            )
        } else {
            None
        },
        None => None,
    }
}

/// The sensitive patterns in force: the configured ones, else the
/// defaults.
pub open spec fn patterns_in_force(configured: Option<Seq<Seq<char>>>) -> Seq<Seq<char>> {
    match configured {
        Some(c) => c,
        None => default_sensitive_patterns_spec(),
    }
}

/// The sensitive check of this call does not depend on the platform: it
/// is not checked, or neither its path nor a pattern in force holds a `\\`.
pub open spec fn escalation_portable(
    tool_name: Seq<char>,
    args: CallArgs,
    configured: Option<Seq<Seq<char>>>,
) -> bool {
    match args.path {
        Some(p) => !checks_paths(tool_name) || (no_backslash(p@) && all_no_backslash(
            patterns_in_force(configured),
        )),
        None => true,
    }
}

/// The warning a sensitive hit on `pattern` shows.
pub open spec fn sensitive_warning(pattern: Seq<char>) -> Seq<char> {
    "matches sensitive pattern `"@ + pattern + "`"@
}

/// What the call's own `require_approval` flag decides.
pub open spec fn flag_decision(d: ApprovalDecision, require: bool, terminal: bool, cmd: Seq<char>) -> bool {
    if require {
        d matches ApprovalDecision::RequireApproval { warnings } && string_views(warnings@)
            == if terminal {
            warnings_for(cmd)
        } else {
            Seq::<Seq<char>>::empty()
        }
    } else {
        d is Allow
    }
}

/// The configured sensitive patterns, as sequences.
pub open spec fn configured_of(p: Option<&Vec<String>>) -> Option<Seq<Seq<char>>> {
    match p {
        Some(v) => Some(string_views(v@)),
        None => None,
    }
}

/// The decision asks about one of `patterns`.
pub open spec fn sensitive_from(d: ApprovalDecision, patterns: Seq<Seq<char>>) -> bool {
    d matches ApprovalDecision::RequireApproval { warnings } && exists|i: int|
        0 <= i < patterns.len() && string_views(warnings@) == seq![sensitive_warning(
            #[trigger] patterns[i],
        )]
}

/// Decide whether a tool call may run. The built-in terminal rules come
/// first and no configuration lifts them; a sensitive path then always
/// asks; otherwise the tool's `require_approval` flag decides. (Where a
/// path or pattern holds a `\\`, globset's answer depends on the platform:
/// then the call asks about one of the patterns in force, or the flag
/// decides.)
pub fn decide(
    tool_name: &str,
    args: &CallArgs,
    config: &ToolConfig,
    read_file_patterns: Option<&Vec<String>>,
) -> (d: ApprovalDecision)
    ensures
        tool_name@ == "terminal"@ && security_violation(opt_view(args.command)) ==> (d matches ApprovalDecision::Deny { reason } && reason@ == DENY_TEXT@),
        !(tool_name@ == "terminal"@ && security_violation(opt_view(args.command)))
            && escalation_portable(tool_name@, *args, configured_of(read_file_patterns))
            ==> match sensitive_escalation(tool_name@, *args, configured_of(read_file_patterns)) {
            Some(pattern) => d matches ApprovalDecision::RequireApproval { warnings }
                && string_views(warnings@) == seq![sensitive_warning(pattern)],
            None => flag_decision(
                d,
                config.require_approval,
                tool_name@ == "terminal"@,
                opt_view(args.command),
            ),
        },
        !(tool_name@ == "terminal"@ && security_violation(opt_view(args.command)))
            && !escalation_portable(tool_name@, *args, configured_of(read_file_patterns))
            ==> flag_decision(
            d,
            config.require_approval,
            tool_name@ == "terminal"@,
            opt_view(args.command),
        ) || sensitive_from(d, patterns_in_force(configured_of(read_file_patterns))),
{
    let terminal = str_eq(tool_name, "terminal");
    let empty = String::new();
    let command: &str = match &args.command {
        Some(c) => c.as_str(),
        None => empty.as_str(),
    };
    if terminal {
        if let Some(reason) = check_terminal_security(command) {
            return ApprovalDecision::Deny { reason };
        }
    }
    if let Some(path) = &args.path {
        if str_eq(tool_name, "read_file") || str_eq(tool_name, "write_file") || str_eq(
            tool_name,
            "edit_file",
        ) {
            let patterns = sensitive_patterns(read_file_patterns);
            if let Some(pattern) = sensitive_match(path.as_str(), &patterns) {
                let mut warning = String::from_str("matches sensitive pattern `");
                push_str(&mut warning, pattern.as_str());
                push_str(&mut warning, "`");
                let warnings = vec![warning];
                assert(string_views(warnings@) =~= seq![warning@]);
                proof {
                    let configured = configured_of(read_file_patterns);
                    assert(string_views(patterns@) == patterns_in_force(configured));
                    let i = choose|i: int| 0 <= i < patterns@.len() && #[trigger] patterns@[i]@ == pattern@;
                    assert(patterns_in_force(configured)[i] == pattern@);
                    assert(seq![warning@] == seq![sensitive_warning(patterns_in_force(configured)[i])]);
                    assert(checks_paths(tool_name@));
                    if escalation_portable(tool_name@, *args, configured) {
                        assert(no_backslash(path@));
                        assert(sensitive_hit(path@, string_views(patterns@)) == Some(pattern@));
                        assert(sensitive_escalation(tool_name@, *args, configured) == Some(pattern@));
                    }
                }
                return ApprovalDecision::RequireApproval { warnings };
            }
        }
    }
    let warnings = if terminal {
        terminal_warnings(command)
    } else {
        let w: Vec<String> = Vec::new();
        assert(string_views(w@) =~= Seq::<Seq<char>>::empty());
        w
    };
    if config.require_approval {
        ApprovalDecision::RequireApproval { warnings }
    } else {
        ApprovalDecision::Allow
    }
}

} // verus!
