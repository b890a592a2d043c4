//! Character-level helpers shared by the text-processing modules: UTF-8
//! byte lengths, line splitting, whitespace trimming and string building.

use vstd::prelude::*;
use vstd::utf8::*;
use vstd::string::StringSliceAdditionalSpecFns;

verus! {

/// `String::push` appends one character.
pub assume_specification[ String::push ](s: &mut String, ch: char)
    ensures
        final(s)@ == old(s)@.push(ch),
;

/// Whether `char::is_whitespace` holds of a character: the Unicode
/// `White_Space` property, which is the ASCII space, tab, line feed,
/// vertical tab, form feed and carriage return, and U+0085, U+00A0,
/// U+1680, U+2000 to U+200A, U+2028, U+2029, U+202F, U+205F and U+3000.
pub open spec fn unicode_whitespace(c: char) -> bool {
    let u = c as u32;
    ||| u == 0x20
    ||| 0x09 <= u <= 0x0d
    ||| u == 0x85
    ||| u == 0xa0
    ||| u == 0x1680
    ||| 0x2000 <= u <= 0x200a
    ||| u == 0x2028
    ||| u == 0x2029
    ||| u == 0x202f
    ||| u == 0x205f
    ||| u == 0x3000
}

/// `char::is_whitespace`.
pub(crate) fn is_whitespace(c: char) -> (b: bool)
    ensures
        b == unicode_whitespace(c),
        (c == ' ' || c == '\t' || c == '\n' || c == '\r' || c == '\x0b' || c == '\x0c') ==> b,
        ('!' <= c <= '~') ==> !b,
{
    let u = c as u32;
    u == 0x20 || (0x09 <= u && u <= 0x0d) || u == 0x85 || u == 0xa0 || u == 0x1680 || (0x2000 <= u
        && u <= 0x200a) || u == 0x2028 || u == 0x2029 || u == 0x202f || u == 0x205f || u == 0x3000
}

/// Number of bytes of the UTF-8 encoding of `s`.
pub open spec fn utf8_len(s: Seq<char>) -> nat {
    encode_utf8(s).len()
}

/// Number of bytes of the UTF-8 encoding of one character.
pub open spec fn char_width(c: char) -> nat {
    encode_scalar(c as u32).len()
}

pub proof fn lemma_encode_utf8_add(a: Seq<char>, b: Seq<char>)
    ensures
        encode_utf8(a + b) == encode_utf8(a) + encode_utf8(b),
    decreases a.len(),
{
    if a.len() == 0 {
        assert(a + b =~= b);
        assert(encode_utf8(a) =~= Seq::<u8>::empty());
        assert(encode_utf8(a) + encode_utf8(b) =~= encode_utf8(b));
    } else {
        assert((a + b).drop_first() =~= a.drop_first() + b);
        assert((a + b)[0] == a[0]);
        lemma_encode_utf8_add(a.drop_first(), b);
        assert(encode_utf8(a + b) =~= encode_scalar(a[0] as u32) + encode_utf8(
            a.drop_first() + b,
        ));
        assert(encode_utf8(a) + encode_utf8(b) =~= encode_scalar(a[0] as u32) + (encode_utf8(
            a.drop_first(),
        ) + encode_utf8(b)));
    }
}

pub proof fn lemma_utf8_len_add(a: Seq<char>, b: Seq<char>)
    ensures
        utf8_len(a + b) == utf8_len(a) + utf8_len(b),
{
    lemma_encode_utf8_add(a, b);
}

pub proof fn lemma_utf8_len_single(c: char)
    ensures
        utf8_len(seq![c]) == char_width(c),
        1 <= char_width(c) <= 4,
        c == '\n' ==> char_width(c) == 1,
        c == '\r' ==> char_width(c) == 1,
{
    let s = seq![c];
    assert(s.drop_first() =~= Seq::<char>::empty());
    assert(encode_utf8(s.drop_first()) =~= Seq::<u8>::empty());
    assert(encode_utf8(s) =~= encode_scalar(c as u32) + encode_utf8(s.drop_first()));
    assert(encode_scalar(c as u32) + Seq::<u8>::empty() =~= encode_scalar(c as u32));
    assert(is_scalar(c as u32)) by {
        char_is_scalar(c);
    }
}

pub proof fn lemma_utf8_len_push(s: Seq<char>, c: char)
    ensures
        utf8_len(s.push(c)) == utf8_len(s) + char_width(c),
        utf8_len(s) <= utf8_len(s.push(c)),
{
    assert(s.push(c) =~= s + seq![c]);
    lemma_utf8_len_add(s, seq![c]);
    lemma_utf8_len_single(c);
}

pub proof fn lemma_utf8_len_ge_len(s: Seq<char>)
    ensures
        s.len() <= utf8_len(s),
    decreases s.len(),
{
    if s.len() > 0 {
        lemma_utf8_len_ge_len(s.drop_last());
        assert(s =~= s.drop_last().push(s.last()));
        lemma_utf8_len_push(s.drop_last(), s.last());
        lemma_utf8_len_single(s.last());
    }
}

/// UTF-8 width of one character.
pub fn char_utf8_len(c: char) -> (n: usize)
    ensures
        n == char_width(c),
        1 <= n <= 4,
{
    proof {
        char_is_scalar(c);
    }
    let u = c as u32;
    if u <= 0x7f {
        1
    } else if u <= 0x7ff {
        2
    } else if u <= 0xffff {
        3
    } else {
        4
    }
}

/// Byte length of a character sequence, computed one character at a time.
pub fn chars_utf8_len(v: &Vec<char>) -> (n: usize)
    requires
        utf8_len(v@) <= usize::MAX,
    ensures
        n == utf8_len(v@),
{
    let mut n: usize = 0;
    let mut i: usize = 0;
    while i < v.len()
        invariant
            i <= v.len(),
            n == utf8_len(v@.take(i as int)),
            utf8_len(v@) <= usize::MAX,
        decreases v.len() - i,
    {
        proof {
            assert(v@.take(i + 1) =~= v@.take(i as int).push(v@[i as int]));
            lemma_utf8_len_push(v@.take(i as int), v@[i as int]);
            assert(v@ =~= v@.take(i + 1) + v@.skip(i + 1));
            lemma_utf8_len_add(v@.take(i + 1), v@.skip(i + 1));
        }
        n = n + char_utf8_len(v[i]);
        i = i + 1;
    }
    assert(v@.take(v.len() as int) =~= v@);
    n
}

/// Byte length of a string (`str::len`).
pub fn str_byte_len(s: &str) -> (n: usize)
    ensures
        n == utf8_len(s@),
{
    let b = s.as_bytes();
    b.len()
}

/// The characters of `s`, in order.
pub fn chars_of(s: &str) -> (v: Vec<char>)
    ensures
        v@ == s@,
{
    let mut v: Vec<char> = Vec::new();
    broadcast use vstd::string::group_string_axioms;

    for c in it: s.chars()
        invariant
            v@ == it.seq().take(it.index() as int),
            it.seq() == s@,
    {
        v.push(c);
    }
    assert(v@ =~= s@);
    v
}

/// A `String` holding exactly the characters of `v`.
pub fn string_of(v: &[char]) -> (s: String)
    ensures
        s@ == v@,
{
    let mut s = String::new();
    let mut i: usize = 0;
    while i < v.len()
        invariant
            i <= v.len(),
            s@ == v@.take(i as int),
        decreases v.len() - i,
    {
        s.push(v[i]);
        i = i + 1;
        assert(s@ =~= v@.take(i as int));
    }
    assert(v@.take(v.len() as int) =~= v@);
    s
}

/// Appends all characters of `v` to `s`.
pub fn push_chars(s: &mut String, v: &[char])
    ensures
        final(s)@ == old(s)@ + v@,
{
    let mut i: usize = 0;
    while i < v.len()
        invariant
            i <= v.len(),
            s@ == old(s)@ + v@.take(i as int),
        decreases v.len() - i,
    {
        s.push(v[i]);
        i = i + 1;
        assert(s@ =~= old(s)@ + v@.take(i as int));
    }
    assert(v@.take(v.len() as int) =~= v@);
}

/// Appends all characters of `t` to `s`.
pub fn push_str(s: &mut String, t: &str)
    ensures
        final(s)@ == old(s)@ + t@,
{
    let v = chars_of(t);
    push_chars(s, v.as_slice());
}

// ---------------------------------------------------------------------------
// Decimal formatting
// ---------------------------------------------------------------------------

/// The decimal digit character for `d < 10`.
pub open spec fn digit_char(d: nat) -> char {
    if d == 0 {
        '0'
    } else if d == 1 {
        '1'
    } else if d == 2 {
        '2'
    } else if d == 3 {
        '3'
    } else if d == 4 {
        '4'
    } else if d == 5 {
        '5'
    } else if d == 6 {
        '6'
    } else if d == 7 {
        '7'
    } else if d == 8 {
        '8'
    } else {
        '9'
    }
}

/// Decimal representation of `n`, as `format!("{}", n)` writes it.
pub open spec fn dec(n: nat) -> Seq<char>
    decreases n,
{
    if n < 10 {
        seq![digit_char(n)]
    } else {
        dec(n / 10).push(digit_char(n % 10))
    }
}

fn digit(d: u64) -> (c: char)
    requires
        d < 10,
    ensures
        c == digit_char(d as nat),
{
    if d == 0 {
        '0'
    } else if d == 1 {
        '1'
    } else if d == 2 {
        '2'
    } else if d == 3 {
        '3'
    } else if d == 4 {
        '4'
    } else if d == 5 {
        '5'
    } else if d == 6 {
        '6'
    } else if d == 7 {
        '7'
    } else if d == 8 {
        '8'
    } else {
        '9'
    }
}

/// Appends the decimal representation of `n` to `s`.
pub fn push_dec(s: &mut String, n: u64)
    ensures
        final(s)@ == old(s)@ + dec(n as nat),
    decreases n,
{
    if n < 10 {
        s.push(digit(n));
        assert(final(s)@ =~= old(s)@ + dec(n as nat));
    } else {
        push_dec(s, n / 10);
        s.push(digit(n % 10));
        assert(final(s)@ =~= old(s)@ + dec(n as nat));
    }
}

/// The decimal representation of `n`.
pub fn dec_string(n: u64) -> (s: String)
    ensures
        s@ == dec(n as nat),
{
    let mut s = String::new();
    push_dec(&mut s, n);
    assert(s@ =~= dec(n as nat));
    s
}

// ---------------------------------------------------------------------------
// Splitting
// ---------------------------------------------------------------------------

/// `str::split(sep)`: the pieces between occurrences of `sep`, keeping
/// empty pieces (so there is always at least one).
pub open spec fn split_on(s: Seq<char>, sep: char) -> Seq<Seq<char>>
    decreases s.len(),
{
    if s.len() == 0 {
        seq![Seq::<char>::empty()]
    } else {
        let prev = split_on(s.drop_last(), sep);
        if s.last() == sep {
            prev.push(Seq::<char>::empty())
        } else {
            prev.update(prev.len() - 1, prev.last().push(s.last()))
        }
    }
}

pub proof fn lemma_split_on_nonempty(s: Seq<char>, sep: char)
    ensures
        split_on(s, sep).len() >= 1,
        split_on(s, sep).len() <= s.len() + 1,
    decreases s.len(),
{
    if s.len() > 0 {
        lemma_split_on_nonempty(s.drop_last(), sep);
    }
}

/// No piece of a split contains the separator.
pub proof fn lemma_split_on_pieces(s: Seq<char>, sep: char)
    ensures
        forall|i: int, j: int|
            0 <= i < split_on(s, sep).len() && 0 <= j < split_on(s, sep)[i].len()
                ==> split_on(s, sep)[i][j] != sep,
    decreases s.len(),
{
    lemma_split_on_nonempty(s, sep);
    if s.len() > 0 {
        lemma_split_on_pieces(s.drop_last(), sep);
        lemma_split_on_nonempty(s.drop_last(), sep);
    }
}

/// Joining the pieces of a split with the separator gives back the input.
pub open spec fn join_with(pieces: Seq<Seq<char>>, sep: char) -> Seq<char>
    decreases pieces.len(),
{
    if pieces.len() == 0 {
        Seq::<char>::empty()
    } else if pieces.len() == 1 {
        pieces[0]
    } else {
        join_with(pieces.drop_last(), sep).push(sep) + pieces.last()
    }
}

pub proof fn lemma_split_join(s: Seq<char>, sep: char)
    ensures
        join_with(split_on(s, sep), sep) == s,
    decreases s.len(),
{
    lemma_split_on_nonempty(s, sep);
    if s.len() > 0 {
        let p = s.drop_last();
        lemma_split_join(p, sep);
        lemma_split_on_nonempty(p, sep);
        let prev = split_on(p, sep);
        if s.last() == sep {
            let cur = prev.push(Seq::<char>::empty());
            assert(cur.drop_last() =~= prev);
            assert(join_with(cur, sep) =~= s);
        } else {
            let cur = prev.update(prev.len() - 1, prev.last().push(s.last()));
            if prev.len() == 1 {
                assert(join_with(cur, sep) =~= s);
            } else {
                assert(cur.drop_last() =~= prev.drop_last());
                let x = join_with(prev.drop_last(), sep).push(sep);
                assert(join_with(prev, sep) == x + prev.last());
                assert(cur.last() == prev.last().push(s.last()));
                assert(join_with(cur, sep) == x + cur.last());
                assert(x + prev.last().push(s.last()) =~= (x + prev.last()).push(s.last()));
                assert(s =~= p.push(s.last()));
            }
        }
    }
}

/// Splits `v` at every `sep`, like `str::split`.
pub fn split_chars(v: &Vec<char>, sep: char) -> (pieces: Vec<Vec<char>>)
    ensures
        pieces@.len() == split_on(v@, sep).len(),
        forall|i: int| 0 <= i < pieces@.len() ==> #[trigger] pieces@[i]@ == split_on(v@, sep)[i],
{
    let mut pieces: Vec<Vec<char>> = Vec::new();
    let mut cur: Vec<char> = Vec::new();
    let mut i: usize = 0;
    while i < v.len()
        invariant
            i <= v.len(),
            pieces@.len() + 1 == split_on(v@.take(i as int), sep).len(),
            forall|k: int|
                0 <= k < pieces@.len() ==> #[trigger] pieces@[k]@ == split_on(
                    v@.take(i as int),
                    sep,
                )[k],
            cur@ == split_on(v@.take(i as int), sep).last(),
        decreases v.len() - i,
    {
        proof {
            lemma_split_on_nonempty(v@.take(i as int), sep);
            assert(v@.take(i + 1).drop_last() =~= v@.take(i as int));
        }
        let c = v[i];
        if c == sep {
            let mut done: Vec<char> = Vec::new();
            std::mem::swap(&mut done, &mut cur);
            pieces.push(done);
        } else {
            cur.push(c);
        }
        i = i + 1;
        proof {
            let prev = split_on(v@.take(i - 1), sep);
            let now = split_on(v@.take(i as int), sep);
            assert(v@.take(i as int).last() == c);
            if c == sep {
                assert(now == prev.push(Seq::<char>::empty()));
            } else {
                assert(now == prev.update(prev.len() - 1, prev.last().push(c)));
            }
            assert forall|k: int| 0 <= k < pieces@.len() implies #[trigger] pieces@[k]@ == now[k] by {
            }
            assert(cur@ =~= now.last());
        }
    }
    pieces.push(cur);
    proof {
        assert(v@.take(v.len() as int) =~= v@);
        let fin = split_on(v@, sep);
        assert forall|k: int| 0 <= k < pieces@.len() implies #[trigger] pieces@[k]@ == fin[k] by {
        }
    }
    pieces
}

// ---------------------------------------------------------------------------
// Trimming
// ---------------------------------------------------------------------------

/// `str::trim_start`: drops leading whitespace.
pub open spec fn trim_start(s: Seq<char>) -> Seq<char>
    decreases s.len(),
{
    if s.len() > 0 && unicode_whitespace(s[0]) {
        trim_start(s.drop_first())
    } else {
        s
    }
}

/// `str::trim_end`: drops trailing whitespace.
pub open spec fn trim_end(s: Seq<char>) -> Seq<char>
    decreases s.len(),
{
    if s.len() > 0 && unicode_whitespace(s.last()) {
        trim_end(s.drop_last())
    } else {
        s
    }
}

/// `str::trim`: drops leading and trailing whitespace.
pub open spec fn trim(s: Seq<char>) -> Seq<char> {
    trim_end(trim_start(s))
}

/// Index of the first character of `s` at or after `i` that is not whitespace.
pub fn skip_ws_from(v: &Vec<char>, i: usize) -> (j: usize)
    requires
        i <= v.len(),
    ensures
        i <= j <= v.len(),
        trim_start(v@.skip(i as int)) == v@.skip(j as int),
{
    let mut j = i;
    while j < v.len() && is_whitespace(v[j])
        invariant
            i <= j <= v.len(),
            trim_start(v@.skip(i as int)) == trim_start(v@.skip(j as int)),
        decreases v.len() - j,
    {
        assert(v@.skip(j as int).drop_first() =~= v@.skip(j + 1));
        j = j + 1;
    }
    j
}

/// The characters of `v` with leading and trailing whitespace removed.
pub fn trim_chars(v: &Vec<char>) -> (t: Vec<char>)
    ensures
        t@ == trim(v@),
{
    let start = skip_ws_from(v, 0);
    assert(v@.skip(0) =~= v@);
    let mut end = v.len();
    while end > start && is_whitespace(v[end - 1])
        invariant
            start <= end <= v.len(),
            trim(v@) == trim_end(v@.subrange(start as int, end as int)),
        decreases end,
    {
        assert(v@.subrange(start as int, end as int).drop_last() =~= v@.subrange(
            start as int,
            end - 1,
        ));
        end = end - 1;
    }
    assert(v@.skip(start as int) =~= v@.subrange(start as int, v.len() as int));
    let t = slice_chars(v, start, end);
    t
}

/// `v[from..to]` as a new vector.
pub fn slice_chars(v: &Vec<char>, from: usize, to: usize) -> (t: Vec<char>)
    requires
        from <= to <= v.len(),
    ensures
        t@ == v@.subrange(from as int, to as int),
{
    let mut t: Vec<char> = Vec::new();
    let mut i = from;
    while i < to
        invariant
            from <= i <= to <= v.len(),
            t@ == v@.subrange(from as int, i as int),
        decreases to - i,
    {
        t.push(v[i]);
        i = i + 1;
        assert(t@ =~= v@.subrange(from as int, i as int));
    }
    t
}

/// Whether two character vectors are equal.
pub fn chars_eq(a: &[char], b: &[char]) -> (r: bool)
    ensures
        r == (a@ == b@),
{
    if a.len() != b.len() {
        return false;
    }
    let mut i: usize = 0;
    while i < a.len()
        invariant
            i <= a.len() == b.len(),
            a@.take(i as int) == b@.take(i as int),
        decreases a.len() - i,
    {
        if a[i] != b[i] {
            assert(a@[i as int] != b@[i as int]);
            return false;
        }
        i = i + 1;
        assert(a@.take(i as int) =~= b@.take(i as int)) by {
            assert(a@.take(i as int) =~= a@.take(i - 1).push(a@[i - 1]));
            assert(b@.take(i as int) =~= b@.take(i - 1).push(b@[i - 1]));
        }
    }
    assert(a@ =~= a@.take(a.len() as int));
    assert(b@ =~= b@.take(b.len() as int));
    true
}

/// Whether `prefix` is a prefix of `v`.
pub fn starts_with_chars(v: &[char], prefix: &[char]) -> (r: bool)
    ensures
        r == (prefix@.len() <= v@.len() && v@.take(prefix@.len() as int) == prefix@),
{
    if prefix.len() > v.len() {
        return false;
    }
    let mut i: usize = 0;
    while i < prefix.len()
        invariant
            i <= prefix.len() <= v.len(),
            v@.take(i as int) == prefix@.take(i as int),
        decreases prefix.len() - i,
    {
        if v[i] != prefix[i] {
            assert(v@.take(prefix@.len() as int)[i as int] != prefix@[i as int]);
            return false;
        }
        i = i + 1;
        assert(v@.take(i as int) =~= prefix@.take(i as int)) by {
            assert(v@.take(i as int) =~= v@.take(i - 1).push(v@[i - 1]));
            assert(prefix@.take(i as int) =~= prefix@.take(i - 1).push(prefix@[i - 1]));
        }
    }
    assert(prefix@ =~= prefix@.take(prefix.len() as int));
    true
}

// ---------------------------------------------------------------------------
// Joining and splitting on character classes
// ---------------------------------------------------------------------------

/// The character sequences held by a sequence of character vectors.
pub open spec fn char_views(v: Seq<Vec<char>>) -> Seq<Seq<char>> {
    v.map_values(|p: Vec<char>| p@)
}

/// `pieces.join(sep)` for a separator string.
pub open spec fn join_seq(pieces: Seq<Seq<char>>, sep: Seq<char>) -> Seq<char>
    decreases pieces.len(),
{
    if pieces.len() == 0 {
        Seq::<char>::empty()
    } else if pieces.len() == 1 {
        pieces[0]
    } else {
        join_seq(pieces.drop_last(), sep) + sep + pieces.last()
    }
}

/// Appends the characters of `w` to `v`.
pub fn append_chars(v: &mut Vec<char>, w: &[char])
    ensures
        final(v)@ == old(v)@ + w@,
{
    let mut i: usize = 0;
    while i < w.len()
        invariant
            i <= w.len(),
            v@ == old(v)@ + w@.take(i as int),
        decreases w.len() - i,
    {
        v.push(w[i]);
        i = i + 1;
        assert(v@ =~= old(v)@ + w@.take(i as int));
    }
    assert(w@.take(w.len() as int) =~= w@);
}

/// Joins the pieces with `sep` between consecutive pieces.
pub fn join_vecs(pieces: &Vec<Vec<char>>, sep: &[char]) -> (r: Vec<char>)
    ensures
        r@ == join_seq(char_views(pieces@), sep@),
{
    let mut r: Vec<char> = Vec::new();
    let mut i: usize = 0;
    while i < pieces.len()
        invariant
            i <= pieces.len(),
            r@ == join_seq(char_views(pieces@.take(i as int)), sep@),
        decreases pieces.len() - i,
    {
        let ghost prev = char_views(pieces@.take(i as int));
        if i > 0 {
            append_chars(&mut r, sep);
        }
        append_chars(&mut r, pieces[i].as_slice());
        i = i + 1;
        proof {
            let cur = char_views(pieces@.take(i as int));
            assert(cur.drop_last() =~= prev);
            assert(cur.last() == pieces@[i - 1]@);
            if i == 1 {
                assert(r@ =~= join_seq(cur, sep@));
            } else {
                assert(r@ =~= join_seq(cur, sep@));
            }
        }
    }
    assert(pieces@.take(pieces.len() as int) =~= pieces@);
    r
}

/// Character classes that the splitting helpers cut at.
pub enum SepKind {
    /// `;` or `|`, the separators of a shell command chain.
    Chain,
    /// Unicode whitespace, as `str::split_whitespace` uses.
    Space,
    /// Whitespace or one of `;`, `|`, `&`.
    Word,
}

pub open spec fn is_sep(k: SepKind, c: char) -> bool {
    match k {
        SepKind::Chain => c == ';' || c == '|',
        SepKind::Space => unicode_whitespace(c),
        SepKind::Word => unicode_whitespace(c) || c == ';' || c == '|' || c == '&',
    }
}

pub fn sep_at(k: &SepKind, c: char) -> (b: bool)
    ensures
        b == is_sep(*k, c),
{
    match k {
        SepKind::Chain => c == ';' || c == '|',
        SepKind::Space => is_whitespace(c),
        SepKind::Word => is_whitespace(c) || c == ';' || c == '|' || c == '&',
    }
}

/// `str::split` with a character predicate: the pieces between separator
/// characters, empty pieces kept.
pub open spec fn split_when(s: Seq<char>, k: SepKind) -> Seq<Seq<char>>
    decreases s.len(),
{
    if s.len() == 0 {
        seq![Seq::<char>::empty()]
    } else {
        let prev = split_when(s.drop_last(), k);
        if is_sep(k, s.last()) {
            prev.push(Seq::<char>::empty())
        } else {
            prev.update(prev.len() - 1, prev.last().push(s.last()))
        }
    }
}

pub proof fn lemma_split_when_nonempty(s: Seq<char>, k: SepKind)
    ensures
        split_when(s, k).len() >= 1,
        split_when(s, k).len() <= s.len() + 1,
    decreases s.len(),
{
    if s.len() > 0 {
        lemma_split_when_nonempty(s.drop_last(), k);
    }
}

/// Splits `v` at every separator character of class `k`.
pub fn split_by(v: &Vec<char>, k: &SepKind) -> (pieces: Vec<Vec<char>>)
    ensures
        char_views(pieces@) == split_when(v@, *k),
{
    let mut pieces: Vec<Vec<char>> = Vec::new();
    let mut cur: Vec<char> = Vec::new();
    let mut i: usize = 0;
    while i < v.len()
        invariant
            i <= v.len(),
            char_views(pieces@).push(cur@) == split_when(v@.take(i as int), *k),
        decreases v.len() - i,
    {
        proof {
            lemma_split_when_nonempty(v@.take(i as int), *k);
            assert(v@.take(i + 1).drop_last() =~= v@.take(i as int));
        }
        let ghost prev_pieces = char_views(pieces@);
        let ghost prev_cur = cur@;
        let c = v[i];
        if sep_at(k, c) {
            let mut done: Vec<char> = Vec::new();
            std::mem::swap(&mut done, &mut cur);
            pieces.push(done);
            proof {
                assert(char_views(pieces@) =~= prev_pieces.push(prev_cur));
            }
        } else {
            cur.push(c);
        }
        i = i + 1;
        proof {
            let prev = split_when(v@.take(i - 1), *k);
            let now = split_when(v@.take(i as int), *k);
            assert(v@.take(i as int).last() == c);
            assert(prev == prev_pieces.push(prev_cur));
            if is_sep(*k, c) {
                assert(char_views(pieces@).push(cur@) =~= now);
            } else {
                assert(char_views(pieces@) =~= prev_pieces);
                assert(char_views(pieces@).push(cur@) =~= now);
            }
        }
    }
    let ghost before = char_views(pieces@);
    pieces.push(cur);
    proof {
        assert(v@.take(v.len() as int) =~= v@);
        assert(char_views(pieces@) =~= before.push(pieces@.last()@));
    }
    pieces
}

/// The non-empty pieces, in order.
pub open spec fn nonempty_pieces(ps: Seq<Seq<char>>) -> Seq<Seq<char>>
    decreases ps.len(),
{
    if ps.len() == 0 {
        Seq::<Seq<char>>::empty()
    } else {
        let prev = nonempty_pieces(ps.drop_last());
        if ps.last().len() > 0 {
            prev.push(ps.last())
        } else {
            prev
        }
    }
}

/// `str::split_whitespace`: the maximal runs of non-whitespace characters.
pub open spec fn words(s: Seq<char>) -> Seq<Seq<char>> {
    nonempty_pieces(split_when(s, SepKind::Space))
}

/// The words of `v`, as `str::split_whitespace` yields them.
pub fn split_words(v: &Vec<char>) -> (ws: Vec<Vec<char>>)
    ensures
        char_views(ws@) == words(v@),
{
    let pieces = split_by(v, &SepKind::Space);
    let mut ws: Vec<Vec<char>> = Vec::new();
    let mut i: usize = 0;
    while i < pieces.len()
        invariant
            i <= pieces.len(),
            char_views(ws@) == nonempty_pieces(char_views(pieces@).take(i as int)),
        decreases pieces.len() - i,
    {
        let ghost prev = char_views(ws@);
        proof {
            assert(char_views(pieces@).take(i + 1).drop_last() =~= char_views(pieces@).take(
                i as int,
            ));
        }
        if pieces[i].len() > 0 {
            ws.push(slice_chars(&pieces[i], 0, pieces[i].len()));
            proof {
                assert(pieces@[i as int]@.subrange(0, pieces@[i as int]@.len() as int) =~= pieces@[i as int]@);
                assert(char_views(ws@) =~= prev.push(pieces@[i as int]@));
            }
        }
        i = i + 1;
    }
    assert(char_views(pieces@).take(pieces.len() as int) =~= char_views(pieces@));
    ws
}

/// The character sequences held by a sequence of strings.
pub open spec fn string_views(v: Seq<String>) -> Seq<Seq<char>> {
    v.map_values(|p: String| p@)
}

/// Whether two strings hold the same characters.
pub fn str_eq(a: &str, b: &str) -> (r: bool)
    ensures
        r == (a@ == b@),
{
    let x = chars_of(a);
    let y = chars_of(b);
    chars_eq(x.as_slice(), y.as_slice())
}

/// Copies each character vector into a `String`.
pub fn strings_of(v: &Vec<Vec<char>>) -> (r: Vec<String>)
    ensures
        string_views(r@) == char_views(v@),
{
    let mut r: Vec<String> = Vec::new();
    let mut i: usize = 0;
    while i < v.len()
        invariant
            i <= v.len(),
            string_views(r@) == char_views(v@.take(i as int)),
        decreases v.len() - i,
    {
        let ghost prev = r@;
        let s = string_of(v[i].as_slice());
        r.push(s);
        i = i + 1;
        proof {
            assert(r@ == prev.push(s));
            assert(string_views(r@) =~= string_views(prev).push(v@[i - 1]@));
            assert(char_views(v@.take(i as int)) =~= char_views(v@.take(i - 1)).push(v@[i - 1]@));
        }
    }
    assert(v@.take(v.len() as int) =~= v@);
    r
}

/// Copies each string into a character vector.
pub fn chars_of_all(v: &Vec<String>) -> (r: Vec<Vec<char>>)
    ensures
        char_views(r@) == string_views(v@),
{
    let mut r: Vec<Vec<char>> = Vec::new();
    let mut i: usize = 0;
    while i < v.len()
        invariant
            i <= v.len(),
            char_views(r@) == string_views(v@.take(i as int)),
        decreases v.len() - i,
    {
        let ghost prev = r@;
        let c = chars_of(v[i].as_str());
        r.push(c);
        i = i + 1;
        proof {
            assert(r@ == prev.push(c));
            assert(char_views(r@) =~= char_views(prev).push(v@[i - 1]@));
            assert(string_views(v@.take(i as int)) =~= string_views(v@.take(i - 1)).push(v@[i - 1]@));
        }
    }
    assert(v@.take(v.len() as int) =~= v@);
    r
}

/// Whether a string has at least one character.
pub fn is_nonempty(s: &str) -> (b: bool)
    ensures
        b == (s@.len() > 0),
{
    proof {
        lemma_utf8_len_ge_len(s@);
        if s@.len() == 0 {
            assert(s@ =~= Seq::<char>::empty());
            assert(encode_utf8(s@) =~= Seq::<u8>::empty());
        }
    }
    str_byte_len(s) > 0
}

/// What `str::to_lowercase` returns for a string.
pub uninterp spec fn lowercase_of(s: Seq<char>) -> Seq<char>;

/// The ASCII lowercase of a character: `A` to `Z` become `a` to `z`.
pub open spec fn ascii_lower(c: char) -> char {
    if 'A' <= c <= 'Z' {
        ((c as u32) + 32) as char
    } else {
        c
    }
}

pub open spec fn all_ascii(s: Seq<char>) -> bool {
    forall|i: int| 0 <= i < s.len() ==> (#[trigger] s[i] as u32) < 0x80
}

/// Calls `str::to_lowercase` (Unicode lowercase mapping). The result is
/// claimed to depend on the characters of `s` alone, and, as the Unicode
/// mapping does for ASCII text, to lower `A` to `Z` one for one and keep
/// every other ASCII character.
#[verifier::external_body]
pub(crate) fn to_lowercase(s: &str) -> (r: String)
    ensures
        r@ == lowercase_of(s@),
        all_ascii(s@) ==> r@ == s@.map_values(|c: char| ascii_lower(c)),
{
    s.to_lowercase()
}

/// Strict lexicographic order of character sequences by code point (the
/// order of `str`'s `Ord`, since UTF-8 preserves code point order).
pub open spec fn lex_lt(a: Seq<char>, b: Seq<char>) -> bool
    decreases a.len(),
{
    if b.len() == 0 {
        false
    } else if a.len() == 0 {
        true
    } else if a[0] != b[0] {
        (a[0] as u32) < (b[0] as u32)
    } else {
        lex_lt(a.skip(1), b.skip(1))
    }
}

/// Whether `a` sorts strictly before `b`.
pub fn chars_lt(a: &[char], b: &[char]) -> (r: bool)
    ensures
        r == lex_lt(a@, b@),
{
    let mut i: usize = 0;
    assert(a@.skip(0) =~= a@);
    assert(b@.skip(0) =~= b@);
    while i < a.len() && i < b.len() && a[i] == b[i]
        invariant
            i <= a@.len(),
            i <= b@.len(),
            lex_lt(a@, b@) == lex_lt(a@.skip(i as int), b@.skip(i as int)),
        decreases a@.len() - i,
    {
        assert(a@.skip(i as int).skip(1) =~= a@.skip(i + 1));
        assert(b@.skip(i as int).skip(1) =~= b@.skip(i + 1));
        i = i + 1;
    }
    if i >= b.len() {
        return false;
    }
    if i >= a.len() {
        return true;
    }
    (a[i] as u32) < (b[i] as u32)
}

} // verus!
