//! Unified diffs: line tokenization, the histogram diff (computed by
//! `imara-diff`), and the rendering of its changes into `@@` hunks with three
//! lines of context, merging changes whose gap fits in both contexts.

use std::ops::Range;
use vstd::prelude::*;

use crate::text::{chars_of, dec, push_dec, push_str, slice_chars, split_chars, split_on, string_of};

verus! {

/// Number of context lines on each side of a change within a hunk.
pub const DIFF_CONTEXT: u32 = 3;

/// Drops one trailing carriage return.
pub open spec fn strip_cr(line: Seq<char>) -> Seq<char> {
    if line.len() > 0 && line.last() == '\r' {
        line.drop_last()
    } else {
        line
    }
}

/// The line tokens of a text: every `\n`-terminated line without its
/// terminator (`\n` or `\r\n`), then the unterminated rest when it is not
/// empty.
pub open spec fn diff_lines(s: Seq<char>) -> Seq<Seq<char>> {
    let pieces = split_on(s, '\n');
    let n = pieces.len();
    let terminated = pieces.take(n - 1).map_values(|l: Seq<char>| strip_cr(l));
    if pieces[n - 1].len() == 0 {
        terminated
    } else {
        terminated.push(pieces[n - 1])
    }
}

/// The views of a list of strings.
pub open spec fn strings_view(v: Seq<String>) -> Seq<Seq<char>> {
    v.map_values(|s: String| s@)
}

/// The changes (removed before-range, inserted after-range) that the
/// histogram diff algorithm of `imara-diff` reports between two token lists.
pub uninterp spec fn histogram_changes(before: Seq<Seq<char>>, after: Seq<Seq<char>>) -> Seq<
    (u32, u32, u32, u32),
>;

/// Changes lie inside both token lists and come in increasing order.
pub open spec fn changes_valid(c: Seq<(u32, u32, u32, u32)>, nb: nat, na: nat) -> bool {
    &&& forall|i: int|
        0 <= i < c.len() ==> (#[trigger] c[i]).0 <= c[i].1 <= nb && c[i].2 <= c[i].3 <= na
    &&& forall|i: int, j: int|
        0 <= i < j < c.len() ==> (#[trigger] c[i]).1 <= (#[trigger] c[j]).0 && c[i].3 <= c[j].2
}

/// Index of the last change of the hunk that continues from change `j`:
/// the next change joins while at most `2 * DIFF_CONTEXT` unchanged lines
/// separate them.
pub open spec fn hunk_end(c: Seq<(u32, u32, u32, u32)>, j: int) -> int
    decreases c.len() - j,
{
    if 0 <= j && j + 1 < c.len() && c[j + 1].0 - c[j].1 <= 2 * DIFF_CONTEXT {
        hunk_end(c, j + 1)
    } else {
        j
    }
}

/// Lines `from..to` of `l`, each as `prefix`, the line, and `\n`.
#[verifier::opaque]
pub open spec fn prefixed_lines(prefix: char, l: Seq<Seq<char>>, from: int, to: int) -> Seq<char>
    decreases to - from,
{
    if from >= to {
        Seq::<char>::empty()
    } else {
        seq![prefix] + l[from] + seq!['\n'] + prefixed_lines(prefix, l, from + 1, to)
    }
}

/// Body of a hunk from change `k` to change `j`, with before-lines printed
/// up to `b` already.
#[verifier::opaque]
pub open spec fn hunk_body(
    before: Seq<Seq<char>>,
    after: Seq<Seq<char>>,
    c: Seq<(u32, u32, u32, u32)>,
    k: int,
    j: int,
    b: int,
    before_end: int,
) -> Seq<char>
    decreases j + 1 - k,
{
    if k > j {
        prefixed_lines(' ', before, b, before_end)
    } else {
        prefixed_lines(' ', before, b, c[k].0 as int) + prefixed_lines(
            '-',
            before,
            c[k].0 as int,
            c[k].1 as int,
        ) + prefixed_lines('+', after, c[k].2 as int, c[k].3 as int) + hunk_body(
            before,
            after,
            c,
            k + 1,
            j,
            c[k].1 as int,
            before_end,
        )
    }
}

pub open spec fn sat_sub(x: nat, y: nat) -> nat {
    if x >= y {
        (x - y) as nat
    } else {
        0
    }
}

pub open spec fn min_nat(x: nat, y: nat) -> nat {
    if x <= y {
        x
    } else {
        y
    }
}

/// The `@@ -a,b +c,d @@` line of a hunk spanning before-lines `bs..be` and
/// after-lines `as_..ae` (1-based starts, then lengths).
#[verifier::opaque]
pub open spec fn hunk_header(bs: nat, be: nat, as_: nat, ae: nat) -> Seq<char> {
    "@@ -"@ + dec(bs + 1) + ","@ + dec((be - bs) as nat) + " +"@ + dec(as_ + 1) + ","@ + dec(
        (ae - as_) as nat,
    ) + " @@\n"@
}

/// One hunk covering changes `i..=j`: the `@@ -a,b +c,d @@` header and the
/// body.
#[verifier::opaque]
pub open spec fn hunk_text(
    before: Seq<Seq<char>>,
    after: Seq<Seq<char>>,
    c: Seq<(u32, u32, u32, u32)>,
    i: int,
    j: int,
) -> Seq<char> {
    let bs = sat_sub(c[i].0 as nat, DIFF_CONTEXT as nat);
    let be = min_nat((c[j].1 + DIFF_CONTEXT) as nat, before.len());
    let as_ = sat_sub(c[i].2 as nat, DIFF_CONTEXT as nat);
    let ae = min_nat((c[j].3 + DIFF_CONTEXT) as nat, after.len());
    hunk_header(bs, be, as_, ae) + hunk_body(before, after, c, i, j, bs as int, be as int)
}

/// All hunks from change `i` on.
#[verifier::opaque]
pub open spec fn hunks_from(
    before: Seq<Seq<char>>,
    after: Seq<Seq<char>>,
    c: Seq<(u32, u32, u32, u32)>,
    i: int,
) -> Seq<char>
    decreases c.len() - i,
{
    if i < 0 || i >= c.len() {
        Seq::<char>::empty()
    } else {
        let j = hunk_end(c, i);
        if j < i || j >= c.len() {
            Seq::<char>::empty()
        } else {
            hunk_text(before, after, c, i, j) + hunks_from(before, after, c, j + 1)
        }
    }
}

/// The unified diff text of two token lists for the given changes.
pub open spec fn render_unified(
    before: Seq<Seq<char>>,
    after: Seq<Seq<char>>,
    c: Seq<(u32, u32, u32, u32)>,
) -> Seq<char> {
    hunks_from(before, after, c, 0)
}

/// The unified diff of two texts.
pub open spec fn unified_diff_text(old: Seq<char>, new: Seq<char>) -> Seq<char> {
    render_unified(
        diff_lines(old),
        diff_lines(new),
        histogram_changes(diff_lines(old), diff_lines(new)),
    )
}

// ---------------------------------------------------------------------------
// Lemmas
// ---------------------------------------------------------------------------

proof fn lemma_hunk_end_bounds(c: Seq<(u32, u32, u32, u32)>, j: int)
    requires
        0 <= j < c.len(),
    ensures
        j <= hunk_end(c, j) < c.len(),
    decreases c.len() - j,
{
    if j + 1 < c.len() && c[j + 1].0 - c[j].1 <= 2 * DIFF_CONTEXT {
        lemma_hunk_end_bounds(c, j + 1);
    }
}

proof fn lemma_prefixed_step(prefix: char, l: Seq<Seq<char>>, k: int, to: int)
    requires
        k < to,
    ensures
        prefixed_lines(prefix, l, k, to) == seq![prefix] + l[k] + seq!['\n'] + prefixed_lines(
            prefix,
            l,
            k + 1,
            to,
        ),
{
    reveal(prefixed_lines);
}

proof fn lemma_prefixed_empty(prefix: char, l: Seq<Seq<char>>, k: int, to: int)
    requires
        k >= to,
    ensures
        prefixed_lines(prefix, l, k, to) == Seq::<char>::empty(),
{
    reveal(prefixed_lines);
}

proof fn lemma_body_step(
    before: Seq<Seq<char>>,
    after: Seq<Seq<char>>,
    c: Seq<(u32, u32, u32, u32)>,
    k: int,
    j: int,
    b: int,
    be: int,
)
    requires
        k <= j,
    ensures
        hunk_body(before, after, c, k, j, b, be) == prefixed_lines(' ', before, b, c[k].0 as int)
            + prefixed_lines('-', before, c[k].0 as int, c[k].1 as int) + prefixed_lines(
            '+',
            after,
            c[k].2 as int,
            c[k].3 as int,
        ) + hunk_body(before, after, c, k + 1, j, c[k].1 as int, be),
{
    reveal(hunk_body);
}

proof fn lemma_body_end(
    before: Seq<Seq<char>>,
    after: Seq<Seq<char>>,
    c: Seq<(u32, u32, u32, u32)>,
    k: int,
    j: int,
    b: int,
    be: int,
)
    requires
        k > j,
    ensures
        hunk_body(before, after, c, k, j, b, be) == prefixed_lines(' ', before, b, be),
{
    reveal(hunk_body);
}

proof fn lemma_hunks_step(
    before: Seq<Seq<char>>,
    after: Seq<Seq<char>>,
    c: Seq<(u32, u32, u32, u32)>,
    i: int,
)
    requires
        0 <= i < c.len(),
    ensures
        hunks_from(before, after, c, i) == hunk_text(before, after, c, i, hunk_end(c, i))
            + hunks_from(before, after, c, hunk_end(c, i) + 1),
{
    reveal(hunks_from);
    lemma_hunk_end_bounds(c, i);
}

proof fn lemma_hunks_end(
    before: Seq<Seq<char>>,
    after: Seq<Seq<char>>,
    c: Seq<(u32, u32, u32, u32)>,
    i: int,
)
    requires
        i >= c.len(),
    ensures
        hunks_from(before, after, c, i) == Seq::<char>::empty(),
{
    reveal(hunks_from);
}

proof fn lemma_add_assoc(a: Seq<char>, b: Seq<char>, c: Seq<char>)
    ensures
        (a + b) + c == a + (b + c),
{
    assert((a + b) + c =~= a + (b + c));
}

// ---------------------------------------------------------------------------
// Outside call
// ---------------------------------------------------------------------------

/// Runs `imara_diff::diff` with the histogram algorithm over the two token
/// lists and collects the changes it reports. Its `Sink` documentation
/// promises the changes in strictly increasing order, each a range of
/// positions of the removed tokens before and the inserted tokens after;
/// `diff` asserts fewer than `i32::MAX` tokens per side. The interner gives
/// equal lines equal tokens, and the histogram algorithm first strips the
/// common prefix of both token lists, so equal lists report no change.
#[verifier::external_body]
fn imara_histogram(before: &Vec<String>, after: &Vec<String>) -> (c: Vec<(u32, u32, u32, u32)>)
    requires
        before@.len() < i32::MAX,
        after@.len() < i32::MAX,
    ensures
        c@ == histogram_changes(strings_view(before@), strings_view(after@)),
        changes_valid(c@, before@.len(), after@.len()),
        strings_view(before@) == strings_view(after@) ==> c@.len() == 0,
{
    let mut input: imara_diff::intern::InternedInput<&str> = Default::default();
    input.update_before(before.iter().map(|s| s.as_str()));
    input.update_after(after.iter().map(|s| s.as_str()));
    let mut changes: Vec<(u32, u32, u32, u32)> = Vec::new();
    let sink = |b: Range<u32>, a: Range<u32>| changes.push((b.start, b.end, a.start, a.end));
    imara_diff::diff(imara_diff::Algorithm::Histogram, &input, sink);
    changes
}

// ---------------------------------------------------------------------------
// Implementation
// ---------------------------------------------------------------------------

/// The line tokens of `s` (see [`diff_lines`]).
pub fn tokenize_lines(s: &str) -> (lines: Vec<String>)
    ensures
        strings_view(lines@) == diff_lines(s@),
        lines@.len() <= s@.len() + 1,
{
    let chars = chars_of(s);
    let pieces = split_chars(&chars, '\n');
    proof {
        crate::text::lemma_split_on_nonempty(s@, '\n');
    }
    let n = pieces.len();
    let mut lines: Vec<String> = Vec::new();
    let mut k: usize = 0;
    while k + 1 < n
        invariant
            n == pieces@.len() == split_on(s@, '\n').len(),
            1 <= n <= s@.len() + 1,
            k < n,
            forall|i: int| 0 <= i < n ==> #[trigger] pieces@[i]@ == split_on(s@, '\n')[i],
            lines@.len() == k,
            forall|i: int|
                0 <= i < k ==> #[trigger] lines@[i]@ == strip_cr(split_on(s@, '\n')[i]),
        decreases n - k,
    {
        let p = &pieces[k];
        let plen = p.len();
        let line = if plen > 0 && p[plen - 1] == '\r' {
            {
                let t = slice_chars(p, 0, plen - 1);
                string_of(t.as_slice())
            }
        } else {
            string_of(p.as_slice())
        };
        proof {
            if plen > 0 && p@[plen - 1] == '\r' {
                assert(p@.subrange(0, plen - 1) =~= p@.drop_last());
            }
        }
        lines.push(line);
        k = k + 1;
    }
    let last = &pieces[n - 1];
    if last.len() > 0 {
        lines.push(string_of(last.as_slice()));
    }
    proof {
        let pieces_s = split_on(s@, '\n');
        let t = pieces_s.take(n - 1).map_values(|l: Seq<char>| strip_cr(l));
        if pieces_s[n - 1].len() == 0 {
            assert(strings_view(lines@) =~= t);
        } else {
            assert(strings_view(lines@) =~= t.push(pieces_s[n - 1]));
        }
    }
    lines
}

/// Appends lines `from..to` of `l`, each prefixed by `prefix`.
fn push_prefixed(out: &mut String, prefix: char, l: &Vec<String>, from: u32, to: u32)
    requires
        to <= l@.len(),
    ensures
        final(out)@ == old(out)@ + prefixed_lines(prefix, strings_view(l@), from as int, to as int),
{
    let ghost lv = strings_view(l@);
    let mut k = from;
    proof {
        if from > to {
            lemma_prefixed_empty(prefix, lv, from as int, to as int);
            assert(old(out)@ + Seq::<char>::empty() =~= old(out)@);
        }
    }
    while k < to
        invariant
            to <= l@.len(),
            lv == strings_view(l@),
            from <= to ==> from <= k <= to,
            from > to ==> k == from,
            old(out)@ + prefixed_lines(prefix, lv, from as int, to as int) == out@
                + prefixed_lines(prefix, lv, k as int, to as int),
        decreases to - k,
    {
        let ghost before = out@;
        out.push(prefix);
        push_str(out, l[k as usize].as_str());
        out.push('\n');
        proof {
            assert(lv[k as int] == l@[k as int]@);
            let x = seq![prefix] + lv[k as int] + seq!['\n'];
            let rest = prefixed_lines(prefix, lv, k + 1, to as int);
            lemma_prefixed_step(prefix, lv, k as int, to as int);
            assert(out@ =~= before + x);
            lemma_add_assoc(before, x, rest);
        }
        k = k + 1;
    }
    proof {
        lemma_prefixed_empty(prefix, lv, k as int, to as int);
        assert(out@ + Seq::<char>::empty() =~= out@);
    }
}

/// Appends the body of the hunk covering changes `i..=j`.
fn push_hunk_body(
    out: &mut String,
    before: &Vec<String>,
    after: &Vec<String>,
    c: &Vec<(u32, u32, u32, u32)>,
    i: usize,
    j: usize,
    bs: u32,
    be: u32,
)
    requires
        i <= j < c@.len(),
        changes_valid(c@, before@.len(), after@.len()),
        bs <= c@[i as int].0,
        c@[j as int].1 <= be <= before@.len(),
    ensures
        final(out)@ == old(out)@ + hunk_body(
            strings_view(before@),
            strings_view(after@),
            c@,
            i as int,
            j as int,
            bs as int,
            be as int,
        ),
{
    let ghost bv = strings_view(before@);
    let ghost av = strings_view(after@);
    let mut k = i;
    let mut b = bs;
    let clen = c.len();
    while k <= j
        invariant
            i <= k <= j + 1,
            j < c@.len() == clen,
            changes_valid(c@, before@.len(), after@.len()),
            bv == strings_view(before@),
            av == strings_view(after@),
            k <= j ==> b <= c@[k as int].0,
            k > j ==> b <= be,
            c@[j as int].1 <= be <= before@.len(),
            old(out)@ + hunk_body(bv, av, c@, i as int, j as int, bs as int, be as int) == out@
                + hunk_body(bv, av, c@, k as int, j as int, b as int, be as int),
        decreases j + 1 - k,
    {
        let ch = c[k];
        let ghost o0 = out@;
        let ghost b0 = b;
        push_prefixed(out, ' ', before, b, ch.0);
        push_prefixed(out, '-', before, ch.0, ch.1);
        push_prefixed(out, '+', after, ch.2, ch.3);
        proof {
            let p1 = prefixed_lines(' ', bv, b as int, ch.0 as int);
            let p2 = prefixed_lines('-', bv, ch.0 as int, ch.1 as int);
            let p3 = prefixed_lines('+', av, ch.2 as int, ch.3 as int);
            let rest = hunk_body(bv, av, c@, k + 1, j as int, ch.1 as int, be as int);
            lemma_body_step(bv, av, c@, k as int, j as int, b as int, be as int);
            assert(out@ == o0 + p1 + p2 + p3);
            assert(o0 + (p1 + p2 + p3 + rest) =~= (o0 + p1 + p2 + p3) + rest);
            if k + 1 <= j {
                assert(c@[k as int].1 <= c@[k + 1].0);
            }
        }
        b = ch.1;
        k = k + 1;
    }
    let ghost o1 = out@;
    push_prefixed(out, ' ', before, b, be);
    proof {
        lemma_body_end(bv, av, c@, k as int, j as int, b as int, be as int);
    }
}

/// Appends the `@@` header line of a hunk.
fn push_hunk_header(out: &mut String, bs: u32, be: u32, as_: u32, ae: u32)
    requires
        bs <= be,
        as_ <= ae,
        bs < u32::MAX,
        as_ < u32::MAX,
    ensures
        final(out)@ == old(out)@ + hunk_header(bs as nat, be as nat, as_ as nat, ae as nat),
{
    push_str(out, "@@ -");
    push_dec(out, (bs + 1) as u64);
    push_str(out, ",");
    push_dec(out, (be - bs) as u64);
    push_str(out, " +");
    push_dec(out, (as_ + 1) as u64);
    push_str(out, ",");
    push_dec(out, (ae - as_) as u64);
    push_str(out, " @@\n");
    proof {
        reveal(hunk_header);
        assert(final(out)@ =~= old(out)@ + hunk_header(bs as nat, be as nat, as_ as nat, ae as nat));
    }
}

/// Index of the last change of the hunk starting at change `i`.
fn find_hunk_end(c: &Vec<(u32, u32, u32, u32)>, i: usize) -> (j: usize)
    requires
        i < c@.len(),
        changes_valid(c@, u32::MAX as nat, u32::MAX as nat),
    ensures
        j == hunk_end(c@, i as int),
        i <= j < c@.len(),
{
    proof {
        lemma_hunk_end_bounds(c@, i as int);
    }
    let mut j = i;
    let clen = c.len();
    while j + 1 < clen && c[j + 1].0 - c[j].1 <= 2 * DIFF_CONTEXT
        invariant
            i <= j < c@.len() == clen,
            changes_valid(c@, u32::MAX as nat, u32::MAX as nat),
            hunk_end(c@, i as int) == hunk_end(c@, j as int),
        decreases c@.len() - j,
    {
        assert(c@[j as int].1 <= c@[j + 1].0);
        j = j + 1;
    }
    j
}

/// Renders the changes between two token lists as unified-diff hunks with
/// three context lines; changes separated by at most six unchanged lines
/// share a hunk.
pub fn format_unified_diff(
    before: &Vec<String>,
    after: &Vec<String>,
    c: &Vec<(u32, u32, u32, u32)>,
) -> (out: String)
    requires
        before@.len() <= u32::MAX - DIFF_CONTEXT,
        after@.len() <= u32::MAX - DIFF_CONTEXT,
        changes_valid(c@, before@.len(), after@.len()),
    ensures
        out@ == render_unified(strings_view(before@), strings_view(after@), c@),
{
    let ghost bv = strings_view(before@);
    let ghost av = strings_view(after@);
    let before_total = before.len() as u32;
    let after_total = after.len() as u32;
    let mut out = String::new();
    let mut i: usize = 0;
    while i < c.len()
        invariant
            i <= c@.len(),
            bv == strings_view(before@),
            av == strings_view(after@),
            before_total == before@.len(),
            after_total == after@.len(),
            before@.len() <= u32::MAX - DIFF_CONTEXT,
            after@.len() <= u32::MAX - DIFF_CONTEXT,
            changes_valid(c@, before@.len(), after@.len()),
            render_unified(bv, av, c@) == out@ + hunks_from(bv, av, c@, i as int),
        decreases c@.len() - i,
    {
        let j = find_hunk_end(c, i);
        let first = c[i];
        let last = c[j];
        assert(first.0 <= last.1 && first.2 <= last.3) by {
            if i < j {
                assert(c@[i as int].1 <= c@[j as int].0);
            }
        }
        let bs = if first.0 >= DIFF_CONTEXT {
            first.0 - DIFF_CONTEXT
        } else {
            0
        };
        let be = if last.1 + DIFF_CONTEXT <= before_total {
            last.1 + DIFF_CONTEXT
        } else {
            before_total
        };
        let as_ = if first.2 >= DIFF_CONTEXT {
            first.2 - DIFF_CONTEXT
        } else {
            0
        };
        let ae = if last.3 + DIFF_CONTEXT <= after_total {
            last.3 + DIFF_CONTEXT
        } else {
            after_total
        };
        let ghost o0 = out@;
        push_hunk_header(&mut out, bs, be, as_, ae);
        let ghost o1 = out@;
        push_hunk_body(&mut out, before, after, c, i, j, bs, be);
        proof {
            let hh = hunk_header(bs as nat, be as nat, as_ as nat, ae as nat);
            let hb = hunk_body(bv, av, c@, i as int, j as int, bs as int, be as int);
            let h = hunk_text(bv, av, c@, i as int, j as int);
            assert(h == hh + hb) by {
                reveal(hunk_text);
            }
            lemma_add_assoc(o0, hh, hb);
            lemma_hunks_step(bv, av, c@, i as int);
            lemma_add_assoc(o0, h, hunks_from(bv, av, c@, j + 1));
        }
        i = j + 1;
    }
    proof {
        lemma_hunks_end(bv, av, c@, i as int);
        assert(out@ =~= out@ + hunks_from(bv, av, c@, i as int));
    }
    out
}

/// Unified diff of `old_text` vs `new_text`: line tokens diffed with the
/// histogram algorithm, rendered with three lines of context per hunk.
/// `imara-diff` takes fewer than `i32::MAX` lines per side. Two equal
/// texts give the empty diff.
pub fn unified_diff(old_text: &str, new_text: &str) -> (diff: String)
    requires
        diff_lines(old_text@).len() < i32::MAX,
        diff_lines(new_text@).len() < i32::MAX,
    ensures
        diff@ == unified_diff_text(old_text@, new_text@),
        old_text@ == new_text@ ==> diff@.len() == 0,
{
    let before = tokenize_lines(old_text);
    let after = tokenize_lines(new_text);
    let changes = imara_histogram(&before, &after);
    proof {
        if old_text@ == new_text@ {
            lemma_hunks_end(strings_view(before@), strings_view(after@), changes@, 0);
        }
    }
    format_unified_diff(&before, &after, &changes)
}

} // verus!
