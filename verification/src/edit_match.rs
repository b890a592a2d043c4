//! Line-level fuzzy matching of an edit's `old_text` inside a file buffer,
//! the indentation checks used to reject mis-indented edits, and the
//! unified-diff rendering shown on approval cards.
//!
//! Matching is a dynamic program over (query line, buffer line) pairs:
//! pairing two lines costs 0 when their trimmed text is equal, 1 when it is
//! similar (normalized Levenshtein similarity at least 0.8) and 13
//! otherwise; skipping a buffer line costs 3 and skipping a query line 10.
//! Every end column of minimal cost whose backtracked path matched at least
//! 80% of the lines yields one byte range.

use std::ops::Range;
use vstd::prelude::*;

use crate::text::{
    dec, lemma_utf8_len_ge_len, push_dec, push_str, chars_eq, chars_of, chars_utf8_len, char_utf8_len, join_with, lemma_split_join,
    lemma_split_on_nonempty, str_byte_len, lemma_utf8_len_add, lemma_utf8_len_push,
    lemma_utf8_len_single, split_chars, split_on, starts_with_chars, string_of, trim, trim_chars,
    utf8_len,
};

verus! {

// ---------------------------------------------------------------------------
// Specification
// ---------------------------------------------------------------------------

/// Levenshtein distance over characters: the minimum number of insertions,
/// deletions and substitutions turning `a` into `b`.
pub open spec fn levenshtein(a: Seq<char>, b: Seq<char>) -> nat
    decreases a.len() + b.len(),
{
    if a.len() == 0 {
        b.len()
    } else if b.len() == 0 {
        a.len()
    } else {
        let del = levenshtein(a.drop_last(), b) + 1;
        let ins = levenshtein(a, b.drop_last()) + 1;
        let sub = levenshtein(a.drop_last(), b.drop_last()) + (if a.last() == b.last() {
            0nat
        } else {
            1nat
        });
        if del <= ins && del <= sub {
            del
        } else if ins <= sub {
            ins
        } else {
            sub
        }
    }
}

/// Near-equality of two trimmed lines: their byte lengths are within a
/// factor 0.8 of each other and their normalized Levenshtein similarity
/// `1 - d / max(chars)` is at least 0.8 (two empty lines are equal).
pub open spec fn lines_similar(a: Seq<char>, b: Seq<char>) -> bool {
    let la = utf8_len(a);
    let lb = utf8_len(b);
    let mn = if la <= lb {
        la
    } else {
        lb
    };
    let mx = if la <= lb {
        lb
    } else {
        la
    };
    let mc = if a.len() <= b.len() {
        b.len()
    } else {
        a.len()
    };
    if mx > 0 && 5 * mn < 4 * mx {
        false
    } else if a.len() == 0 && b.len() == 0 {
        true
    } else {
        5 * levenshtein(a, b) <= mc
    }
}

/// Cost of pairing a query line with a buffer line.
pub open spec fn pair_cost(q: Seq<char>, b: Seq<char>) -> nat {
    if trim(q) == trim(b) {
        0
    } else if lines_similar(trim(q), trim(b)) {
        1
    } else {
        13
    }
}

/// Direction ranks of a matrix cell; on equal cost the lower rank wins.
pub open spec fn dir_up() -> nat {
    0
}

pub open spec fn dir_left() -> nat {
    1
}

pub open spec fn dir_diag() -> nat {
    2
}

/// The cheaper of two (cost, direction) cells; ties go to the lower rank.
pub open spec fn cell_min(x: (nat, nat), y: (nat, nat)) -> (nat, nat) {
    if x.0 < y.0 || (x.0 == y.0 && x.1 <= y.1) {
        x
    } else {
        y
    }
}

/// Cell `(r, c)` of the matching matrix for query lines `q` and buffer lines
/// `b`: its cost and the direction of its cheapest incoming edge.
pub open spec fn dp(q: Seq<Seq<char>>, b: Seq<Seq<char>>, r: nat, c: nat) -> (nat, nat)
    decreases r + c,
{
    if r == 0 {
        (0, dir_diag())
    } else if c == 0 {
        (10 * r, dir_up())
    } else {
        let up = (dp(q, b, (r - 1) as nat, c).0 + 10, dir_up());
        let left = (dp(q, b, r, (c - 1) as nat).0 + 3, dir_left());
        let diag = (dp(q, b, (r - 1) as nat, (c - 1) as nat).0 + pair_cost(
            q[r - 1],
            b[c - 1],
        ), dir_diag());
        cell_min(cell_min(up, left), diag)
    }
}

/// Follows the directions back from `(r, c)` to row 0; returns the buffer
/// line where the path starts and the number of diagonal steps taken.
pub open spec fn backtrack(q: Seq<Seq<char>>, b: Seq<Seq<char>>, r: nat, c: nat, matched: nat) -> (
    nat,
    nat,
)
    decreases r + c,
{
    if r == 0 {
        (c, matched)
    } else if dp(q, b, r, c).1 == dir_diag() {
        if c == 0 {
            (c, matched)
        } else {
            backtrack(q, b, (r - 1) as nat, (c - 1) as nat, matched + 1)
        }
    } else if dp(q, b, r, c).1 == dir_up() {
        backtrack(q, b, (r - 1) as nat, c, matched)
    } else {
        if c == 0 {
            (c, matched)
        } else {
            backtrack(q, b, r, (c - 1) as nat, matched)
        }
    }
}

/// Byte offset of the start of line `i` when `lines` are joined by `\n`.
pub open spec fn line_start(lines: Seq<Seq<char>>, i: int) -> nat
    decreases i,
{
    if i <= 0 {
        0
    } else {
        line_start(lines, i - 1) + utf8_len(lines[i - 1]) + 1
    }
}

/// Minimum cost over the last row, columns `1..=k`.
pub open spec fn last_row_min(q: Seq<Seq<char>>, b: Seq<Seq<char>>, k: nat) -> nat
    decreases k,
{
    if k <= 1 {
        dp(q, b, q.len(), 1).0
    } else {
        let prev = last_row_min(q, b, (k - 1) as nat);
        let cur = dp(q, b, q.len(), k).0;
        if cur < prev {
            cur
        } else {
            prev
        }
    }
}

/// The match ending at buffer line `col - 1`, when its path matched at
/// least 80% of max(spanned lines, query lines): (start byte, end byte,
/// index of the line after the match).
pub open spec fn accepted_match(q: Seq<Seq<char>>, b: Seq<Seq<char>>, col: nat) -> Option<
    (nat, nat, nat),
> {
    let (br, matched) = backtrack(q, b, q.len(), col, 0);
    let span = col - br;
    let denom = if span >= q.len() {
        span
    } else {
        q.len() as int
    };
    if denom > 0 && 5 * matched >= 4 * denom {
        Some((line_start(b, br as int), line_start(b, col - 1) + utf8_len(b[col - 1]), col))
    } else {
        None
    }
}

/// All accepted minimal-cost matches ending at columns `1..=k`, in order.
#[verifier::opaque]
pub open spec fn collect_matches(q: Seq<Seq<char>>, b: Seq<Seq<char>>, k: nat, m: nat) -> Seq<
    (nat, nat, nat),
>
    decreases k,
{
    if k == 0 {
        seq![]
    } else {
        let prev = collect_matches(q, b, (k - 1) as nat, m);
        if dp(q, b, q.len(), k).0 == m && accepted_match(q, b, k) is Some {
            prev.push(accepted_match(q, b, k)->0)
        } else {
            prev
        }
    }
}

/// Best matches of complete query lines `q` among buffer lines `b`.
pub open spec fn match_lines(q: Seq<Seq<char>>, b: Seq<Seq<char>>) -> Seq<(nat, nat, nat)> {
    collect_matches(q, b, b.len(), last_row_min(q, b, b.len()))
}

/// Byte ranges where `old` matches inside `buffer`. The query's complete
/// lines are matched first; a non-empty incomplete last line either extends
/// a single match whose next buffer line starts with it, or is matched as
/// one more complete line.
pub open spec fn fuzzy_matches(buffer: Seq<char>, old: Seq<char>) -> Seq<(nat, nat)> {
    if old.len() == 0 {
        seq![]
    } else {
        let b = split_on(buffer, '\n');
        let all = split_on(old, '\n');
        let complete = all.drop_last();
        let tail = all.last();
        let first = match_lines(complete, b);
        let found = if tail.len() == 0 {
            first
        } else if first.len() == 1 && first[0].2 < b.len() && tail.len() <= b[first[0].2 as int].len()
            && b[first[0].2 as int].take(tail.len() as int) == tail {
            seq![(first[0].0, first[0].1 + 1 + utf8_len(tail), first[0].2)]
        } else {
            match_lines(all, b)
        };
        found.map_values(|m: (nat, nat, nat)| (m.0, m.1))
    }
}

// ---------------------------------------------------------------------------
// Lemmas
// ---------------------------------------------------------------------------

proof fn lemma_dp_bound(q: Seq<Seq<char>>, b: Seq<Seq<char>>, r: nat, c: nat)
    ensures
        dp(q, b, r, c).0 <= 10 * r,
        dp(q, b, r, c).1 <= 2,
        r > 0 && c == 0 ==> dp(q, b, r, c).1 == dir_up(),
    decreases r + c,
{
    if r > 0 && c > 0 {
        lemma_dp_bound(q, b, (r - 1) as nat, c);
        lemma_dp_bound(q, b, r, (c - 1) as nat);
        lemma_dp_bound(q, b, (r - 1) as nat, (c - 1) as nat);
    }
}

proof fn lemma_line_start_mono(lines: Seq<Seq<char>>, i: int, j: int)
    requires
        i <= j,
    ensures
        line_start(lines, i) <= line_start(lines, j),
    decreases j - i,
{
    if i < j {
        lemma_line_start_mono(lines, i, j - 1);
    }
}

/// The joined text is as long as the last line's start plus its length.
proof fn lemma_join_len(pieces: Seq<Seq<char>>)
    requires
        pieces.len() >= 1,
    ensures
        utf8_len(join_with(pieces, '\n')) == line_start(pieces, pieces.len() - 1) + utf8_len(
            pieces.last(),
        ),
    decreases pieces.len(),
{
    if pieces.len() > 1 {
        let init = pieces.drop_last();
        lemma_join_len(init);
        assert(forall|k: int| 0 <= k < init.len() ==> init[k] == pieces[k]);
        assert(line_start(init, init.len() - 1) == line_start(pieces, init.len() - 1)) by {
            lemma_line_start_same_prefix(init, pieces, init.len() - 1);
        }
        let j = join_with(init, '\n');
        lemma_utf8_len_push(j, '\n');
        lemma_utf8_len_single('\n');
        lemma_utf8_len_add(j.push('\n'), pieces.last());
    }
}

proof fn lemma_line_start_same_prefix(a: Seq<Seq<char>>, b: Seq<Seq<char>>, i: int)
    requires
        i <= a.len(),
        i <= b.len(),
        forall|k: int| 0 <= k < i ==> a[k] == b[k],
    ensures
        line_start(a, i) == line_start(b, i),
    decreases i,
{
    if i > 0 {
        lemma_line_start_same_prefix(a, b, i - 1);
    }
}

/// Every line of a split text lies inside the text.
proof fn lemma_lines_in_text(s: Seq<char>)
    ensures
        forall|i: int|
            0 <= i < split_on(s, '\n').len() ==> line_start(split_on(s, '\n'), i) + utf8_len(
                #[trigger] split_on(s, '\n')[i],
            ) <= utf8_len(s),
{
    let lines = split_on(s, '\n');
    lemma_split_on_nonempty(s, '\n');
    lemma_split_join(s, '\n');
    lemma_join_len(lines);
    assert forall|i: int| 0 <= i < lines.len() implies line_start(lines, i) + utf8_len(
        #[trigger] lines[i],
    ) <= utf8_len(s) by {
        if i < lines.len() - 1 {
            lemma_line_start_mono(lines, i + 1, lines.len() - 1);
        }
    }
}

proof fn lemma_utf8_len_take(s: Seq<char>, n: int)
    requires
        0 <= n <= s.len(),
    ensures
        utf8_len(s.take(n)) <= utf8_len(s),
{
    assert(s =~= s.take(n) + s.skip(n));
    lemma_utf8_len_add(s.take(n), s.skip(n));
}

proof fn lemma_utf8_len_bound(s: Seq<char>)
    ensures
        utf8_len(s) <= 4 * s.len(),
    decreases s.len(),
{
    if s.len() > 0 {
        lemma_utf8_len_bound(s.drop_last());
        assert(s =~= s.drop_last().push(s.last()));
        lemma_utf8_len_push(s.drop_last(), s.last());
        lemma_utf8_len_single(s.last());
    }
}

proof fn lemma_collect_step(
    old_res: Seq<(usize, usize, usize)>,
    new_res: Seq<(usize, usize, usize)>,
    found: Option<(usize, usize, usize)>,
    q: Seq<Seq<char>>,
    b: Seq<Seq<char>>,
    col: nat,
    m: nat,
)
    requires
        col >= 1,
        same_triples(old_res, collect_matches(q, b, (col - 1) as nat, m)),
        (dp(q, b, q.len(), col).0 == m && accepted_match(q, b, col) is Some) <==> found is Some,
        found is Some ==> (found->0).0 == (accepted_match(q, b, col)->0).0 && (found->0).1 == (
        accepted_match(q, b, col)->0).1 && (found->0).2 == (accepted_match(q, b, col)->0).2,
        new_res == (if found is Some {
            old_res.push(found->0)
        } else {
            old_res
        }),
    ensures
        same_triples(new_res, collect_matches(q, b, col, m)),
{
    reveal(collect_matches);
    reveal(same_triples);
    let prev = collect_matches(q, b, (col - 1) as nat, m);
    let now = collect_matches(q, b, col, m);
    assert forall|i: int| 0 <= i < new_res.len() implies (#[trigger] new_res[i]).0 == now[i].0
        && new_res[i].1 == now[i].1 && new_res[i].2 == now[i].2 by {
        if i < prev.len() {
            assert(now[i] == prev[i]);
            assert(new_res[i] == old_res[i]);
        }
    }
}

/// Every collected match ends after buffer line 0.
proof fn lemma_match_col_pos(q: Seq<Seq<char>>, b: Seq<Seq<char>>, k: nat, m: nat, i: int)
    requires
        0 <= i < collect_matches(q, b, k, m).len(),
    ensures
        1 <= collect_matches(q, b, k, m)[i].2 <= k,
        collect_matches(q, b, k, m)[i].1 == line_start(b, collect_matches(q, b, k, m)[i].2 - 1)
            + utf8_len(b[collect_matches(q, b, k, m)[i].2 - 1]),
    decreases k,
{
    reveal(collect_matches);
    if k > 0 {
        let prev = collect_matches(q, b, (k - 1) as nat, m);
        if i < prev.len() {
            lemma_match_col_pos(q, b, (k - 1) as nat, m, i);
        }
    }
}

// ---------------------------------------------------------------------------
// Outside call
// ---------------------------------------------------------------------------

/// Calls `strsim::levenshtein`, documented as the minimum number of
/// insertions, deletions and substitutions (over characters) turning one
/// string into the other.
#[verifier::external_body]
fn strsim_levenshtein(a: &str, b: &str) -> (d: usize)
    ensures
        d == levenshtein(a@, b@),
{
    strsim::levenshtein(a, b)
}

// ---------------------------------------------------------------------------
// Implementation
// ---------------------------------------------------------------------------

/// Byte length as a `u128` (no overflow possible: at most 4 bytes per char).
fn byte_len_wide(v: &Vec<char>) -> (n: u128)
    ensures
        n == utf8_len(v@),
        n <= 4 * v@.len(),
{
    let mut n: u128 = 0;
    let mut i: usize = 0;
    while i < v.len()
        invariant
            i <= v.len(),
            n == utf8_len(v@.take(i as int)),
            n <= 4 * i,
        decreases v.len() - i,
    {
        proof {
            assert(v@.take(i + 1) =~= v@.take(i as int).push(v@[i as int]));
            lemma_utf8_len_push(v@.take(i as int), v@[i as int]);
        }
        let w = char_utf8_len(v[i]);
        n = n + w as u128;
        i = i + 1;
    }
    assert(v@.take(v.len() as int) =~= v@);
    n
}

/// Near-equality of two trimmed lines (see [`lines_similar`]).
fn fuzzy_eq(a: &Vec<char>, b: &Vec<char>) -> (r: bool)
    ensures
        r == lines_similar(a@, b@),
{
    let la = byte_len_wide(a);
    let lb = byte_len_wide(b);
    let alen = a.len();
    let blen = b.len();
    let mn = if la <= lb {
        la
    } else {
        lb
    };
    let mx = if la <= lb {
        lb
    } else {
        la
    };
    proof {
        lemma_utf8_len_bound(a@);
        lemma_utf8_len_bound(b@);
    }
    if mx > 0 && 5 * mn < 4 * mx {
        return false;
    }
    if a.len() == 0 && b.len() == 0 {
        return true;
    }
    let sa = string_of(a.as_slice());
    let sb = string_of(b.as_slice());
    let d = strsim_levenshtein(sa.as_str(), sb.as_str());
    let mc = if a.len() <= b.len() {
        b.len()
    } else {
        a.len()
    };
    5 * (d as u128) <= mc as u128
}

/// Byte offsets of the starts of `lines` (joined by `\n`).
fn line_starts_of(lines: &Vec<Vec<char>>, Ghost(text): Ghost<Seq<char>>) -> (starts: Vec<usize>)
    requires
        views(lines@) == split_on(text, '\n'),
        utf8_len(text) <= usize::MAX,
    ensures
        starts@.len() == lines@.len(),
        starts_ok(starts@, text),
{
    let ghost sl = split_on(text, '\n');
    proof {
        lemma_lines_in_text(text);
        assert forall|k: int| 0 <= k < lines@.len() implies #[trigger] lines@[k]@ == sl[k] by {
            assert(views(lines@)[k] == lines@[k]@);
        }
    }
    let mut starts: Vec<usize> = Vec::new();
    let mut offset: usize = 0;
    let mut i: usize = 0;
    while i < lines.len()
        invariant
            i <= lines@.len() == sl.len(),
            forall|k: int| 0 <= k < lines@.len() ==> #[trigger] lines@[k]@ == sl[k],
            forall|k: int|
                0 <= k < sl.len() ==> line_start(sl, k) + utf8_len(#[trigger] sl[k]) <= utf8_len(
                    text,
                ),
            utf8_len(text) <= usize::MAX,
            starts@.len() == i,
            forall|k: int| 0 <= k < i ==> #[trigger] starts@[k] == line_start(sl, k),
            i < sl.len() ==> offset == line_start(sl, i as int),
        decreases lines@.len() - i,
    {
        starts.push(offset);
        if i + 1 < lines.len() {
            assert(line_start(sl, i as int) + utf8_len(sl[i as int]) <= utf8_len(text));
            assert(line_start(sl, i + 1) == line_start(sl, i as int) + utf8_len(sl[i as int]) + 1);
            assert(line_start(sl, i + 1) + utf8_len(sl[i + 1]) <= utf8_len(text));
            let w = chars_utf8_len(&lines[i]);
            offset = offset + w + 1;
        }
        i = i + 1;
    }
    assert(starts_ok(starts@, text)) by {
        reveal(starts_ok);
    }
    starts
}

/// Trimmed copies of each line.
fn trim_all(lines: &Vec<Vec<char>>) -> (t: Vec<Vec<char>>)
    ensures
        t@.len() == lines@.len(),
        forall|i: int| 0 <= i < t@.len() ==> #[trigger] t@[i]@ == trim(lines@[i]@),
{
    let mut t: Vec<Vec<char>> = Vec::new();
    let mut i: usize = 0;
    while i < lines.len()
        invariant
            i <= lines@.len(),
            t@.len() == i,
            forall|k: int| 0 <= k < i ==> #[trigger] t@[k]@ == trim(lines@[k]@),
        decreases lines@.len() - i,
    {
        t.push(trim_chars(&lines[i]));
        i = i + 1;
    }
    t
}

spec fn views(v: Seq<Vec<char>>) -> Seq<Seq<char>> {
    v.map_values(|x: Vec<char>| x@)
}

/// The rows `0..rows` of `m` hold the matching matrix for `qv` and `bv`.
#[verifier::opaque]
spec fn matrix_ok(m: Seq<Vec<(u32, u8)>>, qv: Seq<Seq<char>>, bv: Seq<Seq<char>>, rows: int) -> bool {
    &&& m.len() == rows
    &&& forall|i: int| 0 <= i < rows ==> (#[trigger] m[i])@.len() == bv.len() + 1
    &&& forall|i: int, j: int|
        0 <= i < rows && 0 <= j <= bv.len() ==> (#[trigger] m[i]@[j]).0 == dp(
            qv,
            bv,
            i as nat,
            j as nat,
        ).0 && m[i]@[j].1 == dp(qv, bv, i as nat, j as nat).1
}

/// Row `r + 1` of the matrix, given row `r`.
fn next_row(
    prev: &Vec<(u32, u8)>,
    r: usize,
    tq: &Vec<Vec<char>>,
    tb: &Vec<Vec<char>>,
    Ghost(qv): Ghost<Seq<Seq<char>>>,
    Ghost(bv): Ghost<Seq<Seq<char>>>,
) -> (row: Vec<(u32, u8)>)
    requires
        r < qv.len(),
        tq@.len() == qv.len(),
        tb@.len() == bv.len(),
        forall|i: int| 0 <= i < qv.len() ==> #[trigger] tq@[i]@ == trim(qv[i]),
        forall|i: int| 0 <= i < bv.len() ==> #[trigger] tb@[i]@ == trim(bv[i]),
        10 * qv.len() + 13 <= u32::MAX,
        prev@.len() == bv.len() + 1,
        forall|j: int|
            0 <= j <= bv.len() ==> (#[trigger] prev@[j]).0 == dp(qv, bv, r as nat, j as nat).0
                && prev@[j].1 == dp(qv, bv, r as nat, j as nat).1,
    ensures
        row@.len() == bv.len() + 1,
        forall|j: int|
            0 <= j <= bv.len() ==> (#[trigger] row@[j]).0 == dp(qv, bv, (r + 1) as nat, j as nat).0
                && row@[j].1 == dp(qv, bv, (r + 1) as nat, j as nat).1,
{
    let bn = tb.len();
    proof {
        lemma_dp_bound(qv, bv, (r + 1) as nat, 0);
    }
    let mut row: Vec<(u32, u8)> = Vec::new();
    row.push((((r + 1) * 10) as u32, 0u8));
    let mut c: usize = 0;
    while c < bn
        invariant
            c <= bn == bv.len(),
            r < qv.len(),
            tq@.len() == qv.len(),
            tb@.len() == bn,
            forall|i: int| 0 <= i < qv.len() ==> #[trigger] tq@[i]@ == trim(qv[i]),
            forall|i: int| 0 <= i < bn ==> #[trigger] tb@[i]@ == trim(bv[i]),
            10 * qv.len() + 13 <= u32::MAX,
            prev@.len() == bn + 1,
            forall|j: int|
                0 <= j <= bn ==> (#[trigger] prev@[j]).0 == dp(qv, bv, r as nat, j as nat).0
                    && prev@[j].1 == dp(qv, bv, r as nat, j as nat).1,
            row@.len() == c + 1,
            forall|j: int|
                0 <= j <= c ==> (#[trigger] row@[j]).0 == dp(qv, bv, (r + 1) as nat, j as nat).0
                    && row@[j].1 == dp(qv, bv, (r + 1) as nat, j as nat).1,
        decreases bn - c,
    {
        proof {
            lemma_dp_bound(qv, bv, r as nat, (c + 1) as nat);
            lemma_dp_bound(qv, bv, (r + 1) as nat, c as nat);
            lemma_dp_bound(qv, bv, r as nat, c as nat);
        }
        let up_cost = prev[c + 1].0 + 10;
        let left_cost = row[c].0 + 3;
        let base = prev[c].0;
        let ql = &tq[r];
        let bl = &tb[c];
        let diag_cost = if chars_eq(ql.as_slice(), bl.as_slice()) {
            base
        } else if fuzzy_eq(ql, bl) {
            base + 1
        } else {
            base + 13
        };
        let ul: (u32, u8) = if up_cost <= left_cost {
            (up_cost, 0u8)
        } else {
            (left_cost, 1u8)
        };
        let cell: (u32, u8) = if ul.0 <= diag_cost {
            ul
        } else {
            (diag_cost, 2u8)
        };
        row.push(cell);
        c = c + 1;
    }
    row
}

/// The whole matching matrix for query lines `q` and buffer lines `b`.
fn build_matrix(
    q: &Vec<Vec<char>>,
    b: &Vec<Vec<char>>,
    Ghost(qv): Ghost<Seq<Seq<char>>>,
    Ghost(bv): Ghost<Seq<Seq<char>>>,
) -> (m: Vec<Vec<(u32, u8)>>)
    requires
        qv == views(q@),
        bv == views(b@),
        10 * qv.len() + 13 <= u32::MAX,
    ensures
        matrix_ok(m@, qv, bv, qv.len() + 1int),
{
    let qn = q.len();
    let bn = b.len();
    let tq = trim_all(q);
    let tb = trim_all(b);
    let mut row0: Vec<(u32, u8)> = Vec::new();
    row0.push((0u32, 2u8));
    let mut c: usize = 0;
    while c < bn
        invariant
            c <= bn,
            bn == bv.len(),
            row0@.len() == c + 1,
            forall|j: int|
                0 <= j <= c ==> (#[trigger] row0@[j]).0 == dp(qv, bv, 0, j as nat).0 && row0@[j].1
                    == dp(qv, bv, 0, j as nat).1,
        decreases bn - c,
    {
        row0.push((0u32, 2u8));
        c = c + 1;
    }
    let mut m: Vec<Vec<(u32, u8)>> = Vec::new();
    m.push(row0);
    assert(matrix_ok(m@, qv, bv, 1)) by {
        reveal(matrix_ok);
    }
    let mut r: usize = 0;
    while r < qn
        invariant
            r <= qn == qv.len(),
            bn == bv.len(),
            tq@.len() == qn,
            tb@.len() == bn,
            forall|i: int| 0 <= i < qn ==> #[trigger] tq@[i]@ == trim(qv[i]),
            forall|i: int| 0 <= i < bn ==> #[trigger] tb@[i]@ == trim(bv[i]),
            10 * qv.len() + 13 <= u32::MAX,
            matrix_ok(m@, qv, bv, r + 1),
        decreases qn - r,
    {
        proof {
            reveal(matrix_ok);
        }
        let row = next_row(&m[r], r, &tq, &tb, Ghost(qv), Ghost(bv));
        m.push(row);
        r = r + 1;
        proof {
            reveal(matrix_ok);
            let mm = m@;
            assert forall|i: int| 0 <= i < r + 1 implies (#[trigger] mm[i])@.len() == bv.len() + 1 by {
            }
            assert forall|i: int, j: int|
                0 <= i < r + 1 && 0 <= j <= bv.len() implies (#[trigger] mm[i]@[j]).0 == dp(
                qv,
                bv,
                i as nat,
                j as nat,
            ).0 && mm[i]@[j].1 == dp(qv, bv, i as nat, j as nat).1 by {
            }
        }
    }
    m
}

/// Minimum cost over columns `1..=bn` of the last row.
fn last_row_minimum(last: &Vec<(u32, u8)>, Ghost(qv): Ghost<Seq<Seq<char>>>, Ghost(bv): Ghost<Seq<Seq<char>>>) -> (m: u32)
    requires
        bv.len() >= 1,
        last@.len() == bv.len() + 1,
        forall|j: int|
            0 <= j <= bv.len() ==> (#[trigger] last@[j]).0 == dp(qv, bv, qv.len(), j as nat).0,
    ensures
        m == last_row_min(qv, bv, bv.len()),
{
    let bn = last.len() - 1;
    let mut min_cost = last[1].0;
    let mut k: usize = 2;
    while k < last.len()
        invariant
            2 <= k <= bn + 1,
            bn == bv.len(),
            last@.len() == bn + 1,
            forall|j: int|
                0 <= j <= bn ==> (#[trigger] last@[j]).0 == dp(qv, bv, qv.len(), j as nat).0,
            min_cost == last_row_min(qv, bv, (k - 1) as nat),
        decreases bn + 1 - k,
    {
        if last[k].0 < min_cost {
            min_cost = last[k].0;
        }
        k = k + 1;
    }
    min_cost
}

/// Follows the matrix directions from `(qn, col)` back to row 0.
fn backtrack_from(
    m: &Vec<Vec<(u32, u8)>>,
    col: usize,
    Ghost(qv): Ghost<Seq<Seq<char>>>,
    Ghost(bv): Ghost<Seq<Seq<char>>>,
) -> (res: (usize, usize))
    requires
        matrix_ok(m@, qv, bv, qv.len() + 1int),
        col <= bv.len(),
    ensures
        res.0 == backtrack(qv, bv, qv.len(), col as nat, 0).0,
        res.1 == backtrack(qv, bv, qv.len(), col as nat, 0).1,
        res.0 + res.1 <= col,
        res.1 <= qv.len(),
{
    proof {
        reveal(matrix_ok);
    }
    let mut qr = m.len() - 1;
    let mut br = col;
    let mut matched: usize = 0;
    while qr > 0
        invariant
            qr <= qv.len(),
            br <= col <= bv.len(),
            matched + br <= col,
            matched + qr <= qv.len(),
            matrix_ok(m@, qv, bv, qv.len() + 1int),
            backtrack(qv, bv, qv.len(), col as nat, 0) == backtrack(
                qv,
                bv,
                qr as nat,
                br as nat,
                matched as nat,
            ),
        decreases qr + br,
    {
        proof {
            lemma_dp_bound(qv, bv, qr as nat, br as nat);
            reveal(matrix_ok);
        }
        let d = m[qr][br].1;
        if d == 2 {
            qr = qr - 1;
            br = br - 1;
            matched = matched + 1;
        } else if d == 0 {
            qr = qr - 1;
        } else {
            br = br - 1;
        }
    }
    (br, matched)
}

/// `starts` holds the byte offset of every line of `text`, and every line
/// lies inside `text`, whose byte length fits a `usize`.
#[verifier::opaque]
spec fn starts_ok(starts: Seq<usize>, text: Seq<char>) -> bool {
    let sl = split_on(text, '\n');
    &&& starts.len() == sl.len()
    &&& forall|i: int| 0 <= i < starts.len() ==> #[trigger] starts[i] == line_start(sl, i)
    &&& forall|k: int|
        0 <= k < sl.len() ==> line_start(sl, k) + utf8_len(#[trigger] sl[k]) <= utf8_len(text)
    &&& utf8_len(text) <= usize::MAX
}

/// `res` lists the same (start, end, next line) triples as `spec`.
#[verifier::opaque]
spec fn same_triples(res: Seq<(usize, usize, usize)>, spec: Seq<(nat, nat, nat)>) -> bool {
    &&& res.len() == spec.len()
    &&& forall|i: int|
        0 <= i < res.len() ==> (#[trigger] res[i]).0 == spec[i].0 && res[i].1 == spec[i].1
            && res[i].2 == spec[i].2
}

/// The accepted match ending at column `col`, when that column has the
/// minimal cost `min_cost`.
fn match_at(
    m: &Vec<Vec<(u32, u8)>>,
    b: &Vec<Vec<char>>,
    starts: &Vec<usize>,
    col: usize,
    min_cost: u32,
    Ghost(qv): Ghost<Seq<Seq<char>>>,
    Ghost(text): Ghost<Seq<char>>,
) -> (res: Option<(usize, usize, usize)>)
    requires
        views(b@) == split_on(text, '\n'),
        1 <= col <= b@.len(),
        matrix_ok(m@, qv, views(b@), qv.len() + 1int),
        starts_ok(starts@, text),
    ensures
        (dp(qv, views(b@), qv.len(), col as nat).0 == min_cost && accepted_match(qv, views(b@), col as nat) is Some)
            <==> res is Some,
        res is Some ==> (res->0).0 == (accepted_match(qv, views(b@), col as nat)->0).0
            && (res->0).1 == (accepted_match(qv, views(b@), col as nat)->0).1
            && (res->0).2 == (accepted_match(qv, views(b@), col as nat)->0).2,
{
    let ghost bv = views(b@);
    let ghost sl = split_on(text, '\n');
    proof {
        reveal(matrix_ok);
        reveal(starts_ok);
    }
    let qn = m.len() - 1;
    if m[qn][col].0 != min_cost {
        return None;
    }
    let (br, matched) = backtrack_from(m, col, Ghost(qv), Ghost(bv));
    let span = col - br;
    let denom = if span >= qn {
        span
    } else {
        qn
    };
    if denom > 0 && 5 * (matched as u128) >= 4 * (denom as u128) {
        proof {
            lemma_line_start_mono(sl, br as int, (col - 1) as int);
            assert(b@[col - 1]@ == sl[col - 1]);
        }
        let end = starts[col - 1] + chars_utf8_len(&b[col - 1]);
        Some((starts[br], end, col))
    } else {
        None
    }
}

/// Runs the matching program for complete query lines `q` over buffer lines
/// `b` (whose byte starts are `starts`) and returns every accepted match as
/// (start byte, end byte, index of the line after the match).
#[verifier::rlimit(60)]
#[verifier::spinoff_prover]
fn fuzzy_find_lines(
    b: &Vec<Vec<char>>,
    starts: &Vec<usize>,
    q: &Vec<Vec<char>>,
    Ghost(text): Ghost<Seq<char>>,
) -> (res: Vec<(usize, usize, usize)>)
    requires
        views(b@) == split_on(text, '\n'),
        starts_ok(starts@, text),
        10 * q@.len() + 13 <= u32::MAX,
    ensures
        same_triples(res@, match_lines(views(q@), views(b@))),
{
    let ghost qv = views(q@);
    let ghost bv = views(b@);
    proof {
        lemma_split_on_nonempty(text, '\n');
    }
    let bn = b.len();
    let m = build_matrix(q, b, Ghost(qv), Ghost(bv));
    let qn = q.len();
    proof {
        reveal(matrix_ok);
    }
    let min_cost = last_row_minimum(&m[qn], Ghost(qv), Ghost(bv));
    let mut res: Vec<(usize, usize, usize)> = Vec::new();
    assert(same_triples(res@, collect_matches(qv, bv, 0, min_cost as nat))) by {
        reveal(collect_matches);
        reveal(same_triples);
    }
    let mut c0: usize = 0;
    while c0 < bn
        invariant
            c0 <= bn,
            bn == b@.len(),
            qn == q@.len(),
            qv == views(q@),
            bv == views(b@),
            bv == split_on(text, '\n'),
            matrix_ok(m@, qv, bv, qn + 1),
            min_cost == last_row_min(qv, bv, bn as nat),
            starts_ok(starts@, text),
            same_triples(res@, collect_matches(qv, bv, c0 as nat, min_cost as nat)),
        decreases bn - c0,
    {
        let col = c0 + 1;
        let ghost old_res = res@;
        let found = match_at(&m, b, starts, col, min_cost, Ghost(qv), Ghost(text));
        if let Some(f) = found {
            res.push(f);
        }
        proof {
            lemma_collect_step(old_res, res@, found, qv, bv, col as nat, min_cost as nat);
        }
        c0 = c0 + 1;
    }
    res
}

/// Returns all best-match byte ranges of `old_text` inside `buffer` (none,
/// one or several). Callers normalize `\r\n` to `\n` in `buffer` first.
pub fn fuzzy_find(buffer: &str, old_text: &str) -> (ranges: Vec<Range<usize>>)
    requires
        old_text@.len() < 400_000_000,
    ensures
        ranges@.len() == fuzzy_matches(buffer@, old_text@).len(),
        forall|i: int|
            0 <= i < ranges@.len() ==> (#[trigger] ranges@[i]).start == fuzzy_matches(
                buffer@,
                old_text@,
            )[i].0 && ranges@[i].end == fuzzy_matches(buffer@, old_text@)[i].1,
{
    if old_text.is_empty() {
        return Vec::new();
    }
    let ghost text = buffer@;
    let _blen = str_byte_len(buffer);
    proof {
        lemma_split_on_nonempty(old_text@, '\n');
        lemma_split_on_nonempty(text, '\n');
    }
    let bchars = chars_of(buffer);
    let blines = split_chars(&bchars, '\n');
    let ochars = chars_of(old_text);
    let mut complete = split_chars(&ochars, '\n');
    let ghost all = complete@;
    let tail = complete.pop().unwrap();
    let ghost bv = views(blines@);
    let ghost allv = views(all);
    let ghost cv = views(complete@);
    proof {
        assert(bv =~= split_on(text, '\n'));
        assert(allv =~= split_on(old_text@, '\n'));
        assert(cv =~= allv.drop_last());
        assert(tail@ == allv.last());
    }
    let starts = line_starts_of(&blines, Ghost(text));
    proof {
        reveal(starts_ok);
    }
    let first = fuzzy_find_lines(&blines, &starts, &complete, Ghost(text));
    proof {
        reveal(same_triples);
    }
    let ghost spec_first = match_lines(cv, bv);
    let ghost spec_found: Seq<(nat, nat, nat)> = if tail@.len() == 0 {
        spec_first
    } else if spec_first.len() == 1 && spec_first[0].2 < bv.len() && tail@.len() <= bv[spec_first[0].2 as int].len()
        && bv[spec_first[0].2 as int].take(tail@.len() as int) == tail@ {
        seq![(spec_first[0].0, spec_first[0].1 + 1 + utf8_len(tail@), spec_first[0].2)]
    } else {
        match_lines(allv, bv)
    };
    let found: Vec<(usize, usize, usize)> = if tail.len() == 0 {
        first
    } else {
        let mut extended = false;
        let mut ext: (usize, usize, usize) = (0, 0, 0);
        if first.len() == 1 {
            let m = first[0];
            if m.2 < blines.len() && starts_with_chars(blines[m.2].as_slice(), tail.as_slice()) {
                proof {
                    let lines = split_on(text, '\n');
                    assert(lines[m.2 as int] == blines@[m.2 as int]@);
                    lemma_utf8_len_take(lines[m.2 as int], tail@.len() as int);
                    assert(starts@[m.2 as int] == line_start(lines, m.2 as int));
                    assert(spec_first[0].2 == m.2);
                    assert(spec_first[0].1 == m.1);
                    assert(spec_first[0].0 == m.0);
                    lemma_match_col_pos(cv, bv, bv.len(), last_row_min(cv, bv, bv.len()), 0);
                    assert(bv[m.2 as int] == blines@[m.2 as int]@);
                    assert(line_start(lines, m.2 as int) == line_start(lines, m.2 - 1) + utf8_len(
                        lines[m.2 - 1],
                    ) + 1);
                }
                let w = chars_utf8_len(&tail);
                ext = (m.0, starts[m.2] + w, m.2);
                extended = true;
            }
        }
        if extended {
            let mut v: Vec<(usize, usize, usize)> = Vec::new();
            v.push(ext);
            v
        } else {
            complete.push(tail);
            assert(views(complete@) =~= allv);
            let again = fuzzy_find_lines(&blines, &starts, &complete, Ghost(text));
            proof {
                reveal(same_triples);
            }
            again
        }
    };
    proof {
        if tail@.len() != 0 && !(spec_first.len() == 1 && spec_first[0].2 < bv.len()
            && tail@.len() <= bv[spec_first[0].2 as int].len() && bv[spec_first[0].2 as int].take(
            tail@.len() as int,
        ) == tail@) {
            assert(spec_found == match_lines(allv, bv));
        }
    }
    assert(same_triples(found@, spec_found)) by {
        reveal(same_triples);
    }
    proof {
        reveal(same_triples);
    }
    let mut ranges: Vec<Range<usize>> = Vec::new();
    let mut i: usize = 0;
    while i < found.len()
        invariant
            i <= found@.len(),
            ranges@.len() == i,
            forall|k: int|
                0 <= k < i ==> (#[trigger] ranges@[k]).start == found@[k].0 && ranges@[k].end
                    == found@[k].1,
        decreases found@.len() - i,
    {
        ranges.push(Range { start: found[i].0, end: found[i].1 });
        i = i + 1;
    }
    proof {
        let fm = fuzzy_matches(buffer@, old_text@);
        assert(fm == spec_found.map_values(|m: (nat, nat, nat)| (m.0, m.1)));
    }
    ranges
}


// ---------------------------------------------------------------------------
// Indentation
// ---------------------------------------------------------------------------

/// (tabs, spaces) in the leading run of tabs and spaces of `s`.
pub open spec fn indent_counts(s: Seq<char>) -> (nat, nat)
    decreases s.len(),
{
    if s.len() == 0 {
        (0, 0)
    } else if s[0] == '\t' {
        let rest = indent_counts(s.drop_first());
        (rest.0 + 1, rest.1)
    } else if s[0] == ' ' {
        let rest = indent_counts(s.drop_first());
        (rest.0, rest.1 + 1)
    } else {
        (0, 0)
    }
}

/// The leading run of tabs and spaces of `s`.
pub open spec fn leading_indent(s: Seq<char>) -> Seq<char>
    decreases s.len(),
{
    if s.len() > 0 && (s[0] == '\t' || s[0] == ' ') {
        seq![s[0]] + leading_indent(s.drop_first())
    } else {
        Seq::<char>::empty()
    }
}

proof fn lemma_indent_counts_leading(s: Seq<char>)
    ensures
        indent_counts(s).0 + indent_counts(s).1 == leading_indent(s).len(),
    decreases s.len(),
{
    if s.len() > 0 && (s[0] == '\t' || s[0] == ' ') {
        lemma_indent_counts_leading(s.drop_first());
    }
}

proof fn lemma_indent_counts_bound(s: Seq<char>)
    ensures
        indent_counts(s).0 + indent_counts(s).1 <= s.len(),
    decreases s.len(),
{
    if s.len() > 0 {
        lemma_indent_counts_bound(s.drop_first());
    }
}

/// Leading-indent counts of a line: `'\t'` counts a tab, `' '` a space, and
/// any other character ends the scan.
pub fn line_indent(line: &str) -> (counts: (u32, u32))
    requires
        leading_indent(line@).len() <= u32::MAX,
    ensures
        counts.0 == indent_counts(line@).0,
        counts.1 == indent_counts(line@).1,
{
    let v = chars_of(line);
    let mut tabs: u32 = 0;
    let mut spaces: u32 = 0;
    let mut i: usize = 0;
    proof {
        lemma_indent_counts_leading(v@);
        assert(v@.skip(0) =~= v@);
    }
    while i < v.len()
        invariant
            i <= v@.len(),
            v@ == line@,
            indent_counts(v@).0 + indent_counts(v@).1 <= u32::MAX,
            indent_counts(v@).0 == tabs + indent_counts(v@.skip(i as int)).0,
            indent_counts(v@).1 == spaces + indent_counts(v@.skip(i as int)).1,
        decreases v@.len() - i,
    {
        proof {
            assert(v@.skip(i as int).drop_first() =~= v@.skip(i + 1));
        }
        if v[i] == '\t' {
            tabs = tabs + 1;
        } else if v[i] == ' ' {
            spaces = spaces + 1;
        } else {
            return (tabs, spaces);
        }
        i = i + 1;
    }
    (tabs, spaces)
}

/// `"{n} {unit}"`, with a plural `s` when `n > 1`.
pub open spec fn count_phrase(n: nat, unit: Seq<char>) -> Seq<char> {
    dec(n) + " "@ + unit + (if n > 1 {
        "s"@
    } else {
        Seq::<char>::empty()
    })
}

/// Human-readable description of a leading-whitespace run.
pub open spec fn indent_description(s: Seq<char>) -> Seq<char> {
    let (tabs, spaces) = indent_counts(s);
    if tabs == 0 && spaces == 0 {
        "no indentation"@
    } else if spaces == 0 {
        count_phrase(tabs, "tab"@)
    } else if tabs == 0 {
        count_phrase(spaces, "space"@)
    } else {
        count_phrase(tabs, "tab"@) + " + "@ + count_phrase(spaces, "space"@)
    }
}

fn push_count_phrase(out: &mut String, n: u32, unit: &str)
    ensures
        final(out)@ == old(out)@ + count_phrase(n as nat, unit@),
{
    push_dec(out, n as u64);
    push_str(out, " ");
    push_str(out, unit);
    if n > 1 {
        push_str(out, "s");
    }
    proof {
        if n > 1 {
            assert(final(out)@ =~= old(out)@ + count_phrase(n as nat, unit@));
        } else {
            assert(final(out)@ =~= old(out)@ + count_phrase(n as nat, unit@));
        }
    }
}

/// Human-readable description of a leading-whitespace run, for the
/// indent-mismatch error message.
pub fn describe_indent(indent: &str) -> (d: String)
    requires
        leading_indent(indent@).len() <= u32::MAX,
    ensures
        d@ == indent_description(indent@),
{
    let (tabs, spaces) = line_indent(indent);
    if tabs == 0 && spaces == 0 {
        return String::from_str("no indentation");
    }
    let mut out = String::new();
    if tabs > 0 {
        push_count_phrase(&mut out, tabs, "tab");
    }
    if spaces > 0 {
        if tabs > 0 {
            push_str(&mut out, " + ");
        }
        push_count_phrase(&mut out, spaces, "space");
    }
    assert(out@ =~= indent_description(indent@));
    out
}

/// Details when the model's old_text first-line indentation differs from
/// the file's actual indentation at the match site.
pub struct IndentMismatch {
    /// 1-based line number where the match starts.
    pub line: usize,
    pub file_indent: String,
    pub old_text_indent: String,
}

/// Number of `\n` characters in `s`.
pub open spec fn count_newlines(s: Seq<char>) -> nat
    decreases s.len(),
{
    if s.len() == 0 {
        0
    } else {
        count_newlines(s.drop_last()) + (if s.last() == '\n' {
            1nat
        } else {
            0nat
        })
    }
}

/// `b` is the byte offset of a character boundary of `s`.
pub open spec fn is_boundary(s: Seq<char>, b: nat) -> bool {
    exists|i: int| 0 <= i <= s.len() && utf8_len(s.take(i)) == b
}

/// The character index whose byte offset is `b`.
pub open spec fn char_index(s: Seq<char>, b: nat) -> int {
    choose|i: int| 0 <= i <= s.len() && utf8_len(s.take(i)) == b
}

/// The indentation comparison at a match: `None` when the first line of the
/// matched text and the first line of `old` start with the same run of tabs
/// and spaces, else (1-based line of the match start, file indent, old
/// indent).
pub open spec fn indent_mismatch(buffer: Seq<char>, start: nat, end: nat, old: Seq<char>) -> Option<
    (nat, Seq<char>, Seq<char>),
> {
    let ci = char_index(buffer, start);
    let cj = char_index(buffer, end);
    let file_indent = leading_indent(split_on(buffer.subrange(ci, cj), '\n')[0]);
    let old_indent = leading_indent(split_on(old, '\n')[0]);
    if file_indent == old_indent {
        None
    } else {
        Some((count_newlines(buffer.take(ci)) + 1, file_indent, old_indent))
    }
}

pub(crate) proof fn lemma_utf8_take_strict(s: Seq<char>, k: int, i: int)
    requires
        0 <= k < i <= s.len(),
    ensures
        utf8_len(s.take(k)) < utf8_len(s.take(i)),
{
    assert(s.take(i) =~= s.take(k) + s.subrange(k, i));
    lemma_utf8_len_add(s.take(k), s.subrange(k, i));
    lemma_utf8_len_ge_len(s.subrange(k, i));
}

/// Character index of a byte offset that is a character boundary.
pub(crate) fn find_char_index(v: &Vec<char>, b: usize) -> (i: usize)
    requires
        is_boundary(v@, b as nat),
    ensures
        i == char_index(v@, b as nat),
        utf8_len(v@.take(i as int)) == b,
        i <= v@.len(),
{
    let ghost target = char_index(v@, b as nat);
    proof {
        assert(0 <= target <= v@.len() && utf8_len(v@.take(target)) == b);
    }
    let mut i: usize = 0;
    let mut offset: usize = 0;
    let n = v.len();
    while offset < b
        invariant
            i <= target <= v@.len() == n,
            utf8_len(v@.take(target)) == b,
            offset == utf8_len(v@.take(i as int)),
        decreases target - i,
    {
        proof {
            if i == target {
                assert(false);
            }
            assert(v@.take(i + 1) =~= v@.take(i as int).push(v@[i as int]));
            lemma_utf8_len_push(v@.take(i as int), v@[i as int]);
            if i + 1 < target {
                lemma_utf8_take_strict(v@, i + 1, target);
            }
        }
        offset = offset + char_utf8_len(v[i]);
        i = i + 1;
    }
    proof {
        if i < target {
            lemma_utf8_take_strict(v@, i as int, target);
        }
    }
    i
}

/// The leading tabs and spaces of the first line of `v[from..to]`.
fn first_line_indent(v: &Vec<char>, from: usize, to: usize) -> (ind: Vec<char>)
    requires
        from <= to <= v@.len(),
    ensures
        ind@ == leading_indent(split_on(v@.subrange(from as int, to as int), '\n')[0]),
{
    let ghost seg = v@.subrange(from as int, to as int);
    let mut k = from;
    while k < to && v[k] != '\n'
        invariant
            from <= k <= to <= v@.len(),
            seg == v@.subrange(from as int, to as int),
            forall|x: int| from <= x < k ==> v@[x] != '\n',
        decreases to - k,
    {
        k = k + 1;
    }
    proof {
        assert forall|x: int| 0 <= x < k - from implies seg[x] != '\n' by {
            assert(seg[x] == v@[from + x]);
        }
        if k < to {
            assert(seg[k - from] == v@[k as int]);
        }
        lemma_first_piece(seg, (k - from) as int);
        assert(seg.take(k - from) =~= v@.subrange(from as int, k as int));
        assert(v@.subrange(from as int, k as int).subrange(0, 0) =~= Seq::<char>::empty());
    }
    let mut ind: Vec<char> = Vec::new();
    let mut p = from;
    assert(ind@ + leading_indent(v@.subrange(p as int, k as int)) =~= leading_indent(
        v@.subrange(from as int, k as int),
    ));
    while p < k && (v[p] == '\t' || v[p] == ' ')
        invariant
            from <= p <= k <= to <= v@.len(),
            leading_indent(v@.subrange(from as int, k as int)) == ind@ + leading_indent(
                v@.subrange(p as int, k as int),
            ),
        decreases k - p,
    {
        proof {
            let r = v@.subrange(p as int, k as int);
            assert(r.drop_first() =~= v@.subrange(p + 1, k as int));
            assert(leading_indent(r) == seq![r[0]] + leading_indent(r.drop_first()));
            assert(ind@.push(v@[p as int]) + leading_indent(r.drop_first()) =~= ind@ + (seq![r[0]]
                + leading_indent(r.drop_first())));
        }
        ind.push(v[p]);
        p = p + 1;
    }
    proof {
        let r = v@.subrange(p as int, k as int);
        assert(leading_indent(r) == Seq::<char>::empty());
        assert(ind@ + Seq::<char>::empty() =~= ind@);
    }
    ind
}

/// The first piece of a split is the prefix before the first separator.
proof fn lemma_first_piece(s: Seq<char>, k: int)
    requires
        0 <= k <= s.len(),
        forall|x: int| 0 <= x < k ==> s[x] != '\n',
        k < s.len() ==> s[k] == '\n',
    ensures
        split_on(s, '\n')[0] == s.take(k),
    decreases s.len(),
{
    lemma_split_on_nonempty(s, '\n');
    if s.len() > 0 {
        if k == s.len() {
            lemma_first_piece(s.drop_last(), k - 1);
            lemma_split_on_nonempty(s.drop_last(), '\n');
            let prev = split_on(s.drop_last(), '\n');
            if prev.len() == 1 {
                assert(s.drop_last().take(k - 1).push(s.last()) =~= s.take(k));
            } else {
                lemma_split_count_no_sep(s.drop_last());
            }
        } else if k == s.len() - 1 {
            lemma_first_piece(s.drop_last(), k);
            lemma_split_on_nonempty(s.drop_last(), '\n');
            assert(s.drop_last().take(k) =~= s.take(k));
        } else {
            lemma_first_piece(s.drop_last(), k);
            lemma_split_on_nonempty(s.drop_last(), '\n');
            lemma_split_count_with_sep(s.drop_last(), k);
            assert(s.drop_last().take(k) =~= s.take(k));
        }
    }
}

/// A text with a separator splits into at least two pieces.
proof fn lemma_split_count_with_sep(s: Seq<char>, x: int)
    requires
        0 <= x < s.len(),
        s[x] == '\n',
    ensures
        split_on(s, '\n').len() >= 2,
    decreases s.len(),
{
    lemma_split_on_nonempty(s.drop_last(), '\n');
    if x < s.len() - 1 {
        lemma_split_count_with_sep(s.drop_last(), x);
    }
}

/// A text without separators splits into exactly one piece.
proof fn lemma_split_count_no_sep(s: Seq<char>)
    requires
        forall|x: int| 0 <= x < s.len() ==> s[x] != '\n',
    ensures
        split_on(s, '\n').len() == 1,
    decreases s.len(),
{
    if s.len() > 0 {
        lemma_split_count_no_sep(s.drop_last());
    }
}

pub(crate) fn count_newlines_upto(v: &Vec<char>, n: usize) -> (c: usize)
    requires
        n <= v@.len(),
    ensures
        c == count_newlines(v@.take(n as int)),
        c <= n,
{
    let mut c: usize = 0;
    let mut i: usize = 0;
    while i < n
        invariant
            i <= n <= v@.len(),
            c == count_newlines(v@.take(i as int)),
            c <= i,
        decreases n - i,
    {
        assert(v@.take(i + 1).drop_last() =~= v@.take(i as int));
        if v[i] == '\n' {
            c = c + 1;
        }
        i = i + 1;
    }
    c
}

/// Compares the leading whitespace of the matched range's first line with
/// the first line of `old_text`. A difference means the model retyped the
/// indentation rather than copying it exactly; the edit is then rejected.
pub fn first_line_indent_mismatch(buffer: &str, range: &Range<usize>, old_text: &str) -> (m: Option<
    IndentMismatch,
>)
    requires
        buffer@.len() < usize::MAX,
        range.start <= range.end,
        is_boundary(buffer@, range.start as nat),
        is_boundary(buffer@, range.end as nat),
    ensures
        m is None <==> indent_mismatch(buffer@, range.start as nat, range.end as nat, old_text@) is None,
        m is Some ==> {
            let spec = indent_mismatch(buffer@, range.start as nat, range.end as nat, old_text@)->0;
            &&& (m->0).line == spec.0
            &&& (m->0).file_indent@ == spec.1
            &&& (m->0).old_text_indent@ == spec.2
        },
{
    let v = chars_of(buffer);
    let ci = find_char_index(&v, range.start);
    let cj = find_char_index(&v, range.end);
    proof {
        if cj < ci {
            lemma_utf8_take_strict(v@, cj as int, ci as int);
        }
    }
    let file_indent = first_line_indent(&v, ci, cj);
    let o = chars_of(old_text);
    let old_indent = first_line_indent(&o, 0, o.len());
    assert(o@.subrange(0, o@.len() as int) =~= old_text@);
    if chars_eq(file_indent.as_slice(), old_indent.as_slice()) {
        return None;
    }
    let line = count_newlines_upto(&v, ci) + 1;
    Some(IndentMismatch {
        line,
        file_indent: string_of(file_indent.as_slice()),
        old_text_indent: string_of(old_indent.as_slice()),
    })
}

// ---------------------------------------------------------------------------
// Where matches lie
// ---------------------------------------------------------------------------

proof fn lemma_backtrack_bounds(q: Seq<Seq<char>>, b: Seq<Seq<char>>, r: nat, c: nat, m: nat)
    ensures
        backtrack(q, b, r, c, m).0 <= c,
        backtrack(q, b, r, c, m).1 >= m,
        backtrack(q, b, r, c, m).1 > m ==> backtrack(q, b, r, c, m).0 < c,
    decreases r + c,
{
    if r == 0 {
    } else if dp(q, b, r, c).1 == dir_diag() {
        if c > 0 {
            lemma_backtrack_bounds(q, b, (r - 1) as nat, (c - 1) as nat, m + 1);
        }
    } else if dp(q, b, r, c).1 == dir_up() {
        lemma_backtrack_bounds(q, b, (r - 1) as nat, c, m);
    } else if c > 0 {
        lemma_backtrack_bounds(q, b, r, (c - 1) as nat, m);
    }
}

/// Every collected match starts at the start of a buffer line before its
/// last line.
proof fn lemma_match_start(q: Seq<Seq<char>>, b: Seq<Seq<char>>, k: nat, m: nat, i: int)
    requires
        0 <= i < collect_matches(q, b, k, m).len(),
    ensures
        exists|br: int|
            0 <= br < collect_matches(q, b, k, m)[i].2 && #[trigger] line_start(b, br)
                == collect_matches(q, b, k, m)[i].0,
    decreases k,
{
    reveal(collect_matches);
    if k > 0 {
        let prev = collect_matches(q, b, (k - 1) as nat, m);
        if i < prev.len() {
            lemma_match_start(q, b, (k - 1) as nat, m, i);
        } else {
            let (br, matched) = backtrack(q, b, q.len(), k, 0);
            lemma_backtrack_bounds(q, b, q.len(), k, 0);
            assert(line_start(b, br as int) == collect_matches(q, b, k, m)[i].0);
        }
    }
}

/// Lines `0..=i` joined with `\n`.
pub open spec fn joined_upto(b: Seq<Seq<char>>, i: int) -> Seq<char> {
    join_with(b.take(i + 1), '\n')
}

proof fn lemma_joined_step(b: Seq<Seq<char>>, i: int)
    requires
        1 <= i < b.len(),
    ensures
        joined_upto(b, i) == joined_upto(b, i - 1) + seq!['\n'] + b[i],
{
    let t = b.take(i + 1);
    assert(t.drop_last() =~= b.take(i));
    assert(t.last() == b[i]);
    assert(joined_upto(b, i) == join_with(t.drop_last(), '\n').push('\n') + t.last());
    assert(join_with(b.take(i), '\n').push('\n') =~= join_with(b.take(i), '\n') + seq!['\n']);
}

proof fn lemma_joined_len(b: Seq<Seq<char>>, i: int)
    requires
        0 <= i < b.len(),
    ensures
        utf8_len(joined_upto(b, i)) == line_start(b, i) + utf8_len(b[i]),
    decreases i,
{
    if i == 0 {
        assert(b.take(1) =~= seq![b[0]]);
    } else {
        lemma_joined_len(b, i - 1);
        lemma_joined_step(b, i);
        lemma_utf8_len_add(joined_upto(b, i - 1) + seq!['\n'], b[i]);
        lemma_utf8_len_add(joined_upto(b, i - 1), seq!['\n']);
        lemma_utf8_len_single('\n');
    }
}

/// `x` is a prefix of `y`.
pub open spec fn is_prefix(x: Seq<char>, y: Seq<char>) -> bool {
    x.len() <= y.len() && y.take(x.len() as int) == x
}

proof fn lemma_joined_prefix(b: Seq<Seq<char>>, i: int)
    requires
        0 <= i < b.len(),
    ensures
        is_prefix(joined_upto(b, i), join_with(b, '\n')),
    decreases b.len() - i,
{
    if i == b.len() - 1 {
        assert(b.take(i + 1) =~= b);
        let z = join_with(b, '\n');
        assert(z.take(z.len() as int) =~= z);
    } else {
        lemma_joined_prefix(b, i + 1);
        lemma_joined_step(b, i + 1);
        let x = joined_upto(b, i);
        let y = joined_upto(b, i + 1);
        let z = join_with(b, '\n');
        assert(y.take(x.len() as int) =~= x);
        assert(z.take(x.len() as int) =~= y.take(x.len() as int));
    }
}

proof fn lemma_prefix_boundary(x: Seq<char>, s: Seq<char>)
    requires
        is_prefix(x, s),
    ensures
        is_boundary(s, utf8_len(x)),
{
    assert(s.take(x.len() as int) == x);
}

/// The start of line `i` is a character boundary of the buffer.
proof fn lemma_line_start_boundary(s: Seq<char>, i: int)
    requires
        0 <= i < split_on(s, '\n').len(),
    ensures
        is_boundary(s, line_start(split_on(s, '\n'), i)),
{
    let b = split_on(s, '\n');
    lemma_split_join(s, '\n');
    if i == 0 {
        assert(s.take(0) =~= Seq::<char>::empty());
        assert(utf8_len(Seq::<char>::empty()) == 0) by {
            assert(vstd::utf8::encode_utf8(Seq::<char>::empty()) =~= Seq::<u8>::empty());
        }
        assert(utf8_len(s.take(0)) == 0);
    } else {
        lemma_joined_prefix(b, i);
        lemma_joined_step(b, i);
        lemma_joined_len(b, i - 1);
        let p = joined_upto(b, i - 1) + seq!['\n'];
        let y = joined_upto(b, i);
        assert(y.take(p.len() as int) =~= p);
        assert(s.take(p.len() as int) =~= p);
        lemma_utf8_len_add(joined_upto(b, i - 1), seq!['\n']);
        lemma_utf8_len_single('\n');
        lemma_prefix_boundary(p, s);
    }
}

/// The end of line `i` is a character boundary of the buffer.
proof fn lemma_line_end_boundary(s: Seq<char>, i: int)
    requires
        0 <= i < split_on(s, '\n').len(),
    ensures
        is_boundary(s, line_start(split_on(s, '\n'), i) + utf8_len(split_on(s, '\n')[i])),
{
    let b = split_on(s, '\n');
    lemma_split_join(s, '\n');
    lemma_joined_prefix(b, i);
    lemma_joined_len(b, i);
    lemma_prefix_boundary(joined_upto(b, i), s);
}

/// A prefix of line `i`, taken from the start of that line, ends on a
/// character boundary.
proof fn lemma_line_prefix_boundary(s: Seq<char>, i: int, t: Seq<char>)
    requires
        1 <= i < split_on(s, '\n').len(),
        is_prefix(t, split_on(s, '\n')[i]),
    ensures
        is_boundary(s, line_start(split_on(s, '\n'), i) + utf8_len(t)),
{
    let b = split_on(s, '\n');
    lemma_split_join(s, '\n');
    lemma_joined_prefix(b, i);
    lemma_joined_step(b, i);
    lemma_joined_len(b, i - 1);
    let p = joined_upto(b, i - 1) + seq!['\n'] + t;
    let y = joined_upto(b, i);
    assert(y.take(p.len() as int) =~= p);
    assert(s.take(p.len() as int) =~= p);
    lemma_utf8_len_add(joined_upto(b, i - 1) + seq!['\n'], t);
    lemma_utf8_len_add(joined_upto(b, i - 1), seq!['\n']);
    lemma_utf8_len_single('\n');
    lemma_prefix_boundary(p, s);
}

proof fn lemma_matches_wf(q: Seq<Seq<char>>, s: Seq<char>, i: int)
    requires
        0 <= i < match_lines(q, split_on(s, '\n')).len(),
    ensures
        ({
            let b = split_on(s, '\n');
            let mt = match_lines(q, b)[i];
            &&& 1 <= mt.2 <= b.len()
            &&& mt.0 <= mt.1
            &&& is_boundary(s, mt.0)
            &&& is_boundary(s, mt.1)
            &&& mt.1 == line_start(b, mt.2 - 1) + utf8_len(b[mt.2 - 1])
        }),
{
    let b = split_on(s, '\n');
    let k = b.len();
    let m = last_row_min(q, b, k);
    lemma_match_col_pos(q, b, k, m, i);
    lemma_match_start(q, b, k, m, i);
    let mt = collect_matches(q, b, k, m)[i];
    let br = choose|br: int| 0 <= br < mt.2 && #[trigger] line_start(b, br) == mt.0;
    lemma_line_start_boundary(s, br);
    lemma_line_end_boundary(s, mt.2 - 1);
    lemma_line_start_mono(b, br, mt.2 - 1);
}

/// Every range `fuzzy_find` reports lies within the buffer, from one
/// character boundary to another: `start <= end <= buffer.len()`, both on
/// boundaries, so the range can be sliced and replaced.
pub proof fn lemma_fuzzy_ranges_on_boundaries(buffer: Seq<char>, old: Seq<char>)
    ensures
        forall|i: int|
            0 <= i < fuzzy_matches(buffer, old).len() ==> {
                let r = #[trigger] fuzzy_matches(buffer, old)[i];
                &&& r.0 <= r.1
                &&& is_boundary(buffer, r.0)
                &&& is_boundary(buffer, r.1)
            },
{
    if old.len() > 0 {
        let b = split_on(buffer, '\n');
        let all = split_on(old, '\n');
        let complete = all.drop_last();
        let tail = all.last();
        let first = match_lines(complete, b);
        assert forall|i: int| 0 <= i < fuzzy_matches(buffer, old).len() implies {
            let r = #[trigger] fuzzy_matches(buffer, old)[i];
            &&& r.0 <= r.1
            &&& is_boundary(buffer, r.0)
            &&& is_boundary(buffer, r.1)
        } by {
            if tail.len() == 0 {
                lemma_matches_wf(complete, buffer, i);
            } else if first.len() == 1 && first[0].2 < b.len() && tail.len() <= b[first[0].2 as int].len()
                && b[first[0].2 as int].take(tail.len() as int) == tail {
                lemma_matches_wf(complete, buffer, 0);
                let col = first[0].2 as int;
                assert(is_prefix(tail, b[col]));
                lemma_line_prefix_boundary(buffer, col, tail);
                assert(line_start(b, col) == first[0].1 + 1);
            } else {
                lemma_matches_wf(all, buffer, i);
            }
        }
    }
}

proof fn lemma_collect_cols_ascending(q: Seq<Seq<char>>, b: Seq<Seq<char>>, k: nat, m: nat, i: int, j: int)
    requires
        0 <= i < j < collect_matches(q, b, k, m).len(),
    ensures
        collect_matches(q, b, k, m)[i].2 < collect_matches(q, b, k, m)[j].2,
    decreases k,
{
    reveal(collect_matches);
    if k > 0 {
        let prev = collect_matches(q, b, (k - 1) as nat, m);
        if j < prev.len() {
            lemma_collect_cols_ascending(q, b, (k - 1) as nat, m, i, j);
        } else {
            lemma_match_col_pos(q, b, (k - 1) as nat, m, i);
            assert(collect_matches(q, b, k, m)[j].2 == k);
            assert(collect_matches(q, b, k, m)[i] == prev[i]);
        }
    }
}

proof fn lemma_line_ends_ascending(b: Seq<Seq<char>>, x: int, y: int)
    requires
        0 <= x < y,
    ensures
        line_start(b, x) + utf8_len(b[x]) < line_start(b, y) + utf8_len(b[y]),
{
    lemma_line_start_mono(b, x + 1, y);
    assert(line_start(b, x + 1) == line_start(b, x) + utf8_len(b[x]) + 1);
}

proof fn lemma_matches_ordered(q: Seq<Seq<char>>, b: Seq<Seq<char>>, i: int, j: int)
    requires
        0 <= i < j < match_lines(q, b).len(),
    ensures
        match_lines(q, b)[i].1 < match_lines(q, b)[j].1,
{
    let k = b.len();
    let m = last_row_min(q, b, k);
    lemma_collect_cols_ascending(q, b, k, m, i, j);
    lemma_match_col_pos(q, b, k, m, i);
    lemma_match_col_pos(q, b, k, m, j);
    let ci = collect_matches(q, b, k, m)[i].2 as int;
    let cj = collect_matches(q, b, k, m)[j].2 as int;
    lemma_line_ends_ascending(b, ci - 1, cj - 1);
}

proof fn lemma_matches_on_line_starts(q: Seq<Seq<char>>, b: Seq<Seq<char>>, i: int)
    requires
        0 <= i < match_lines(q, b).len(),
    ensures
        exists|l: int| 0 <= l < b.len() && #[trigger] line_start(b, l) == match_lines(q, b)[i].0,
{
    let k = b.len();
    let m = last_row_min(q, b, k);
    lemma_match_start(q, b, k, m, i);
    lemma_match_col_pos(q, b, k, m, i);
    let br = choose|br: int|
        0 <= br < collect_matches(q, b, k, m)[i].2 && #[trigger] line_start(b, br)
            == collect_matches(q, b, k, m)[i].0;
    assert(0 <= br < b.len());
}

/// Byte offset `p` is where one of the buffer's lines starts.
pub open spec fn starts_a_line(buffer: Seq<char>, p: nat) -> bool {
    exists|l: int|
        0 <= l < split_on(buffer, '\n').len() && #[trigger] line_start(split_on(buffer, '\n'), l) == p
}

proof fn lemma_fuzzy_range_shape(buffer: Seq<char>, old: Seq<char>, i: int, j: int)
    requires
        0 <= i < fuzzy_matches(buffer, old).len(),
    ensures
        starts_a_line(buffer, fuzzy_matches(buffer, old)[i].0),
        i < j < fuzzy_matches(buffer, old).len() ==> fuzzy_matches(buffer, old)[i].1
            < fuzzy_matches(buffer, old)[j].1,
{
    let b = split_on(buffer, '\n');
    let all = split_on(old, '\n');
    let complete = all.drop_last();
    let tail = all.last();
    let first = match_lines(complete, b);
    let single = first.len() == 1 && first[0].2 < b.len() && tail.len() <= b[first[0].2 as int].len()
        && b[first[0].2 as int].take(tail.len() as int) == tail;
    let found = if tail.len() == 0 {
        first
    } else if single {
        seq![(first[0].0, first[0].1 + 1 + utf8_len(tail), first[0].2)]
    } else {
        match_lines(all, b)
    };
    let fm = fuzzy_matches(buffer, old);
    assert(fm == found.map_values(|m: (nat, nat, nat)| (m.0, m.1)));
    assert(fm[i].0 == found[i].0);
    let l = if tail.len() == 0 {
        lemma_matches_on_line_starts(complete, b, i);
        choose|l: int| 0 <= l < b.len() && #[trigger] line_start(b, l) == first[i].0
    } else if single {
        lemma_matches_on_line_starts(complete, b, 0);
        choose|l: int| 0 <= l < b.len() && #[trigger] line_start(b, l) == first[0].0
    } else {
        lemma_matches_on_line_starts(all, b, i);
        choose|l: int| 0 <= l < b.len() && #[trigger] line_start(b, l) == match_lines(all, b)[i].0
    };
    assert(0 <= l < b.len() && line_start(b, l) == fm[i].0);
    assert(starts_a_line(buffer, fm[i].0));
    if i < j < fm.len() {
        assert(fm[i].1 == found[i].1 && fm[j].1 == found[j].1);
        if tail.len() == 0 {
            lemma_matches_ordered(complete, b, i, j);
        } else if single {
        } else {
            lemma_matches_ordered(all, b, i, j);
        }
    }
}

/// The ranges `fuzzy_find` reports start at the beginning of a buffer line
/// and come in strictly ascending order of their ends; an empty query
/// matches nothing.
pub proof fn lemma_fuzzy_ranges_ordered(buffer: Seq<char>, old: Seq<char>)
    ensures
        old.len() == 0 ==> fuzzy_matches(buffer, old).len() == 0,
        forall|i: int|
            0 <= i < fuzzy_matches(buffer, old).len() ==> starts_a_line(
                buffer,
                (#[trigger] fuzzy_matches(buffer, old)[i]).0,
            ),
        forall|i: int, j: int|
            0 <= i < j < fuzzy_matches(buffer, old).len() ==> (#[trigger] fuzzy_matches(buffer, old)[i]).1
                < (#[trigger] fuzzy_matches(buffer, old)[j]).1,
{
    assert forall|i: int|
        0 <= i < fuzzy_matches(buffer, old).len() implies starts_a_line(
            buffer,
            (#[trigger] fuzzy_matches(buffer, old)[i]).0,
        ) by {
        lemma_fuzzy_range_shape(buffer, old, i, i);
    }
    assert forall|i: int, j: int|
        0 <= i < j < fuzzy_matches(buffer, old).len() implies (#[trigger] fuzzy_matches(buffer, old)[i]).1
            < (#[trigger] fuzzy_matches(buffer, old)[j]).1 by {
        lemma_fuzzy_range_shape(buffer, old, i, j);
    }
}

/// Every collected match is the accepted match ending at one of the
/// columns `1..=k`.
proof fn lemma_collect_is_accepted(q: Seq<Seq<char>>, b: Seq<Seq<char>>, k: nat, m: nat, i: int)
    requires
        0 <= i < collect_matches(q, b, k, m).len(),
    ensures
        exists|c: nat|
            1 <= c <= k && #[trigger] accepted_match(q, b, c) is Some && accepted_match(q, b, c)->0
                == collect_matches(q, b, k, m)[i],
    decreases k,
{
    reveal(collect_matches);
    if k > 0 {
        let prev = collect_matches(q, b, (k - 1) as nat, m);
        if i < prev.len() {
            lemma_collect_is_accepted(q, b, (k - 1) as nat, m, i);
            let c = choose|c: nat|
                1 <= c <= k - 1 && #[trigger] accepted_match(q, b, c) is Some && accepted_match(
                    q,
                    b,
                    c,
                )->0 == prev[i];
            assert(collect_matches(q, b, k, m)[i] == prev[i]);
            assert(accepted_match(q, b, c) is Some);
        } else {
            assert(accepted_match(q, b, k) is Some);
        }
    }
}

/// With no query line there is nothing to accept.
proof fn lemma_no_lines_no_match(b: Seq<Seq<char>>)
    ensures
        match_lines(Seq::<Seq<char>>::empty(), b).len() == 0,
{
    let q = Seq::<Seq<char>>::empty();
    let k = b.len();
    let m = last_row_min(q, b, k);
    if collect_matches(q, b, k, m).len() > 0 {
        lemma_collect_is_accepted(q, b, k, m, 0);
        let c = choose|c: nat|
            1 <= c <= k && #[trigger] accepted_match(q, b, c) is Some && accepted_match(q, b, c)->0
                == collect_matches(q, b, k, m)[0];
        assert(backtrack(q, b, 0, c, 0) == (c, 0nat));
        assert(accepted_match(q, b, c) is None);
    }
}

/// Backtracking from the single query row: at most one diagonal step, and
/// a path that ends next to its start column took that step right there.
proof fn lemma_row_one_backtrack(q: Seq<Seq<char>>, b: Seq<Seq<char>>, c: nat)
    requires
        q.len() == 1,
    ensures
        backtrack(q, b, 1, c, 0).1 <= 1,
        backtrack(q, b, 1, c, 0).0 <= c,
        backtrack(q, b, 1, c, 0).1 == 1 ==> backtrack(q, b, 1, c, 0).0 < c,
        backtrack(q, b, 1, c, 0).1 == 1 && backtrack(q, b, 1, c, 0).0 + 1 >= c ==> c >= 1 && dp(
            q,
            b,
            1,
            c,
        ).1 == dir_diag() && backtrack(q, b, 1, c, 0).0 + 1 == c,
    decreases c,
{
    reveal_with_fuel(backtrack, 2);
    if dp(q, b, 1, c).1 == dir_diag() {
    } else if dp(q, b, 1, c).1 == dir_up() {
    } else if c > 0 {
        lemma_row_one_backtrack(q, b, (c - 1) as nat);
    }
}

/// A single query line is accepted at a column only through a diagonal
/// step that paired it with that column's line at cost 0 or 1.
proof fn lemma_single_accept(q: Seq<Seq<char>>, b: Seq<Seq<char>>, col: nat)
    requires
        q.len() == 1,
        1 <= col <= b.len(),
        accepted_match(q, b, col) is Some,
    ensures
        pair_cost(q[0], b[col - 1]) <= 1,
        accepted_match(q, b, col)->0 == (
            line_start(b, col - 1),
            line_start(b, col - 1) + utf8_len(b[col - 1]),
            col,
        ),
{
    lemma_row_one_backtrack(q, b, col);
    let (br, matched) = backtrack(q, b, 1, col, 0);
    assert(matched == 1);
    assert(br + 1 == col);
    reveal_with_fuel(dp, 2);
    lemma_dp_bound(q, b, 1, (col - 1) as nat);
    let up = (dp(q, b, 0, col).0 + 10, dir_up());
    assert(up.0 == 10);
    let diag_cost = dp(q, b, 0, (col - 1) as nat).0 + pair_cost(q[0], b[col - 1]);
    assert(diag_cost == pair_cost(q[0], b[col - 1]));
    assert(pair_cost(q[0], b[col - 1]) < 10);
}

/// A query line pairs with a buffer line as a near match: the two are equal
/// after trimming, or the shorter trimmed line has at least 80% of the
/// longer one's bytes and their character edit distance is at most a fifth
/// of the longer one's length in characters.
pub open spec fn near_line(q: Seq<char>, l: Seq<char>) -> bool {
    let tq = trim(q);
    let tl = trim(l);
    tq == tl || (5 * utf8_len(tq) >= 4 * utf8_len(tl) && 5 * utf8_len(tl) >= 4 * utf8_len(tq)
        && 5 * levenshtein(tq, tl) <= (if tq.len() <= tl.len() {
        tl.len()
    } else {
        tq.len()
    }))
}

/// The range `r` covers exactly one line of `buffer`, and that line is a
/// near match of `q`.
pub open spec fn covers_near_line(buffer: Seq<char>, q: Seq<char>, r: (nat, nat)) -> bool {
    exists|l: int|
        0 <= l < split_on(buffer, '\n').len() && #[trigger] line_start(split_on(buffer, '\n'), l)
            == r.0 && r.1 == line_start(split_on(buffer, '\n'), l) + utf8_len(
            split_on(buffer, '\n')[l],
        ) && near_line(q, split_on(buffer, '\n')[l])
}

/// A one-line query is only ever found on a single buffer line that equals
/// it after trimming or lies within a fifth of the longer line's length in
/// Levenshtein distance: lines less than 80% similar are never taken as a
/// match.
pub proof fn lemma_single_line_matches_are_near(buffer: Seq<char>, old: Seq<char>)
    requires
        !old.contains('\n'),
    ensures
        forall|i: int|
            0 <= i < fuzzy_matches(buffer, old).len() ==> covers_near_line(
                buffer,
                old,
                #[trigger] fuzzy_matches(buffer, old)[i],
            ),
{
    if old.len() > 0 {
        let b = split_on(buffer, '\n');
        crate::permissions::lemma_split_on_whole(old, '\n');
        let all = split_on(old, '\n');
        assert(all == seq![old]);
        let complete = all.drop_last();
        assert(complete =~= Seq::<Seq<char>>::empty());
        assert(all.last() == old);
        lemma_no_lines_no_match(b);
        let found = match_lines(all, b);
        let fm = fuzzy_matches(buffer, old);
        assert(fm == found.map_values(|m: (nat, nat, nat)| (m.0, m.1)));
        assert forall|i: int| 0 <= i < fm.len() implies covers_near_line(buffer, old, #[trigger] fm[i]) by {
            let k = b.len();
            let m = last_row_min(all, b, k);
            lemma_collect_is_accepted(all, b, k, m, i);
            let c = choose|c: nat|
                1 <= c <= k && #[trigger] accepted_match(all, b, c) is Some && accepted_match(
                    all,
                    b,
                    c,
                )->0 == collect_matches(all, b, k, m)[i];
            lemma_single_accept(all, b, c);
            let l = c - 1;
            assert(fm[i].0 == found[i].0 && fm[i].1 == found[i].1);
            assert(line_start(b, l) == fm[i].0);
            assert(near_line(old, b[l]));
        }
    }
}

proof fn lemma_last_row_min_le(q: Seq<Seq<char>>, b: Seq<Seq<char>>, k: nat, c: nat)
    requires
        1 <= c <= k,
    ensures
        last_row_min(q, b, k) <= dp(q, b, q.len(), c).0,
    decreases k,
{
    if k > 1 && c < k {
        lemma_last_row_min_le(q, b, (k - 1) as nat, c);
    }
}

proof fn lemma_collect_contains(q: Seq<Seq<char>>, b: Seq<Seq<char>>, k: nat, m: nat, c: nat)
    requires
        1 <= c <= k,
        dp(q, b, q.len(), c).0 == m,
        accepted_match(q, b, c) is Some,
    ensures
        collect_matches(q, b, k, m).contains(accepted_match(q, b, c)->0),
    decreases k,
{
    reveal(collect_matches);
    let prev = collect_matches(q, b, (k - 1) as nat, m);
    let now = collect_matches(q, b, k, m);
    if c == k {
        assert(now[now.len() - 1] == accepted_match(q, b, c)->0);
    } else {
        lemma_collect_contains(q, b, (k - 1) as nat, m, c);
        let j = choose|j: int| 0 <= j < prev.len() && prev[j] == accepted_match(q, b, c)->0;
        assert(now[j] == prev[j]);
    }
}

/// A one-line query is found on every buffer line equal to it after
/// trimming: the range of exactly that line is reported.
pub proof fn lemma_single_line_equal_is_found(buffer: Seq<char>, old: Seq<char>, l: int)
    requires
        old.len() > 0,
        !old.contains('\n'),
        0 <= l < split_on(buffer, '\n').len(),
        trim(split_on(buffer, '\n')[l]) == trim(old),
    ensures
        fuzzy_matches(buffer, old).contains(
            (
                line_start(split_on(buffer, '\n'), l),
                line_start(split_on(buffer, '\n'), l) + utf8_len(split_on(buffer, '\n')[l]),
            ),
        ),
{
    let b = split_on(buffer, '\n');
    crate::permissions::lemma_split_on_whole(old, '\n');
    let all = split_on(old, '\n');
    assert(all == seq![old]);
    assert(all.drop_last() =~= Seq::<Seq<char>>::empty());
    assert(all.last() == old);
    lemma_no_lines_no_match(b);
    let c = (l + 1) as nat;
    reveal_with_fuel(dp, 2);
    lemma_dp_bound(all, b, 1, (c - 1) as nat);
    assert(pair_cost(all[0], b[c - 1]) == 0);
    assert(dp(all, b, 1, c) == (0nat, dir_diag()));
    reveal_with_fuel(backtrack, 2);
    assert(backtrack(all, b, 1, c, 0) == (l as nat, 1nat));
    assert(accepted_match(all, b, c) is Some);
    let k = b.len();
    lemma_last_row_min_le(all, b, k, c);
    let m = last_row_min(all, b, k);
    assert(m == 0);
    lemma_collect_contains(all, b, k, m, c);
    let found = match_lines(all, b);
    let fm = fuzzy_matches(buffer, old);
    assert(fm == found.map_values(|x: (nat, nat, nat)| (x.0, x.1)));
    let j = choose|j: int| 0 <= j < found.len() && found[j] == accepted_match(all, b, c)->0;
    assert(fm[j] == (found[j].0, found[j].1));
}

pub(crate) proof fn lemma_leading_indent_len(s: Seq<char>)
    ensures
        leading_indent(s).len() <= s.len(),
    decreases s.len(),
{
    if s.len() > 0 && (s[0] == '\t' || s[0] == ' ') {
        lemma_leading_indent_len(s.drop_first());
    }
}

pub(crate) proof fn lemma_split_first_len(s: Seq<char>, sep: char)
    ensures
        split_on(s, sep)[0].len() <= s.len(),
    decreases s.len(),
{
    lemma_split_on_nonempty(s, sep);
    if s.len() > 0 {
        lemma_split_first_len(s.drop_last(), sep);
        lemma_split_on_nonempty(s.drop_last(), sep);
    }
}

} // verus!
