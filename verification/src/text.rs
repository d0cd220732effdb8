//! Text scanning: whitespace, fields, words and lines.
//!
//! Every parser of the crate works on slices of characters. The specification
//! functions say what a scan yields as a function of the character sequence,
//! and the executable functions compute it.
use vstd::prelude::*;
use vstd::slice::slice_subrange;

verus! {

/// Trusted: `String::push` appends the one given character.
pub assume_specification[ String::push ](s: &mut String, c: char)
    ensures
        final(s)@ == old(s)@.push(c),
;

/// Whether `c` has the Unicode `White_Space` property.
pub open spec fn is_space(c: char) -> bool {
    ||| '\u{9}' <= c <= '\u{d}'
    ||| c == ' '
    ||| c == '\u{85}'
    ||| c == '\u{a0}'
    ||| c == '\u{1680}'
    ||| '\u{2000}' <= c <= '\u{200a}'
    ||| c == '\u{2028}'
    ||| c == '\u{2029}'
    ||| c == '\u{202f}'
    ||| c == '\u{205f}'
    ||| c == '\u{3000}'
}

/// `s` without its leading whitespace.
pub open spec fn trimmed_start(s: Seq<char>) -> Seq<char>
    decreases s.len(),
{
    if s.len() > 0 && is_space(s[0]) {
        trimmed_start(s.drop_first())
    } else {
        s
    }
}

/// `s` without its trailing whitespace.
pub open spec fn trimmed_end(s: Seq<char>) -> Seq<char>
    decreases s.len(),
{
    if s.len() > 0 && is_space(s.last()) {
        trimmed_end(s.drop_last())
    } else {
        s
    }
}

/// `s` without its leading and trailing whitespace.
pub open spec fn trimmed(s: Seq<char>) -> Seq<char> {
    trimmed_end(trimmed_start(s))
}

/// The length of the longest prefix of `s` that does not hold `c`.
pub open spec fn until(s: Seq<char>, c: char) -> nat
    decreases s.len(),
{
    if s.len() == 0 || s[0] == c {
        0
    } else {
        1 + until(s.drop_first(), c)
    }
}

/// The length of the longest prefix of `s` in front of the first `c` that is
/// followed by `d`; all of `s` where there is no such pair.
pub open spec fn until_pair(s: Seq<char>, c: char, d: char) -> nat
    decreases s.len(),
{
    if s.len() < 2 {
        s.len()
    } else if s[0] == c && s[1] == d {
        0
    } else {
        1 + until_pair(s.drop_first(), c, d)
    }
}

/// The parts of `s` between the occurrences of `sep`, in order. There is always
/// one more part than there are separators.
pub open spec fn fields(s: Seq<char>, sep: char) -> Seq<Seq<char>>
    decreases s.len(),
{
    let n = until(s, sep);
    if n >= s.len() {
        seq![s]
    } else {
        seq![s.take(n as int)] + fields(s.skip(n as int + 1), sep)
    }
}

/// The length of the run of non-whitespace that `s` starts with.
pub open spec fn word_len(s: Seq<char>) -> nat
    decreases s.len(),
{
    if s.len() == 0 || is_space(s[0]) {
        0
    } else {
        1 + word_len(s.drop_first())
    }
}

/// The maximal runs of non-whitespace of `s`, in order.
pub open spec fn words(s: Seq<char>) -> Seq<Seq<char>>
    decreases s.len(),
{
    if s.len() == 0 {
        seq![]
    } else if is_space(s[0]) {
        words(s.drop_first())
    } else {
        proof {
            lemma_word_len(s);
        }
        seq![s.take(word_len(s) as int)] + words(s.skip(word_len(s) as int))
    }
}

/// A line whose newline has been cut off, without a carriage return at its end.
pub open spec fn without_cr(line: Seq<char>) -> Seq<char> {
    if line.len() > 0 && line.last() == '\r' {
        line.drop_last()
    } else {
        line
    }
}

/// The lines of `s`. A line ends in a newline or in a carriage return and a
/// newline, neither of which belongs to it; the last ending is optional.
pub open spec fn lines(s: Seq<char>) -> Seq<Seq<char>>
    decreases s.len(),
{
    let n = until(s, '\n');
    if s.len() == 0 {
        seq![]
    } else if n >= s.len() {
        seq![s]
    } else {
        seq![without_cr(s.take(n as int))] + lines(s.skip(n as int + 1))
    }
}

/// The character sequences behind a sequence of strings.
pub open spec fn string_views(v: Seq<String>) -> Seq<Seq<char>> {
    Seq::new(v.len(), |i: int| v[i]@)
}

/// The character sequences behind a sequence of slices.
pub open spec fn views(v: Seq<&[char]>) -> Seq<Seq<char>> {
    Seq::new(v.len(), |i: int| v[i]@)
}

/// [`word_len`] stops at the first whitespace, or at the end.
pub proof fn lemma_word_len(s: Seq<char>)
    ensures
        word_len(s) <= s.len(),
        forall|k: int| 0 <= k < word_len(s) ==> !is_space(#[trigger] s[k]),
        word_len(s) < s.len() ==> is_space(s[word_len(s) as int]),
    decreases s.len(),
{
    if s.len() > 0 && !is_space(s[0]) {
        let t = s.drop_first();
        lemma_word_len(t);
        assert forall|k: int| 0 <= k < word_len(s) implies !is_space(#[trigger] s[k]) by {
            if k > 0 {
                assert(s[k] == t[k - 1]);
            }
        }
    }
}

/// What pins [`word_len`] down.
pub proof fn lemma_word_len_is(s: Seq<char>, n: int)
    requires
        0 <= n <= s.len(),
        forall|k: int| 0 <= k < n ==> !is_space(#[trigger] s[k]),
        n < s.len() ==> is_space(s[n]),
    ensures
        word_len(s) == n,
{
    lemma_word_len(s);
    if word_len(s) < n {
        assert(is_space(s[word_len(s) as int]));
    }
}

/// [`until`] stops at the first occurrence, or at the end.
pub proof fn lemma_until(s: Seq<char>, c: char)
    ensures
        until(s, c) <= s.len(),
        forall|k: int| 0 <= k < until(s, c) ==> #[trigger] s[k] != c,
        until(s, c) < s.len() ==> s[until(s, c) as int] == c,
    decreases s.len(),
{
    if s.len() > 0 && s[0] != c {
        let t = s.drop_first();
        lemma_until(t, c);
        assert forall|k: int| 0 <= k < until(s, c) implies #[trigger] s[k] != c by {
            if k > 0 {
                assert(s[k] == t[k - 1]);
            }
        }
    }
}

/// What pins [`until`] down.
pub proof fn lemma_until_is(s: Seq<char>, c: char, n: int)
    requires
        0 <= n <= s.len(),
        forall|k: int| 0 <= k < n ==> #[trigger] s[k] != c,
        n < s.len() ==> s[n] == c,
    ensures
        until(s, c) == n,
{
    lemma_until(s, c);
    if until(s, c) < n {
        assert(s[until(s, c) as int] == c);
    }
}

/// [`until_pair`] stops at the first pair, or at the end.
pub proof fn lemma_until_pair(s: Seq<char>, c: char, d: char)
    ensures
        until_pair(s, c, d) <= s.len(),
        forall|k: int|
            0 <= k < until_pair(s, c, d) && k + 1 < s.len() ==> !(#[trigger] s[k] == c && s[k + 1]
                == d),
        until_pair(s, c, d) < s.len() ==> until_pair(s, c, d) + 1 < s.len() && s[until_pair(
            s,
            c,
            d,
        ) as int] == c && s[until_pair(s, c, d) as int + 1] == d,
    decreases s.len(),
{
    if s.len() >= 2 && !(s[0] == c && s[1] == d) {
        let t = s.drop_first();
        lemma_until_pair(t, c, d);
        assert forall|k: int|
            0 <= k < until_pair(s, c, d) && k + 1 < s.len() implies !(#[trigger] s[k] == c && s[k
            + 1] == d) by {
            if k > 0 {
                assert(s[k] == t[k - 1]);
                assert(s[k + 1] == t[k]);
            }
        }
    }
}

/// What pins [`until_pair`] down.
pub proof fn lemma_until_pair_is(s: Seq<char>, c: char, d: char, n: int)
    requires
        0 <= n <= s.len(),
        forall|k: int| 0 <= k < n && k + 1 < s.len() ==> !(#[trigger] s[k] == c && s[k + 1] == d),
        n < s.len() ==> n + 1 < s.len() && s[n] == c && s[n + 1] == d,
    ensures
        until_pair(s, c, d) == n,
{
    lemma_until_pair(s, c, d);
    let m = until_pair(s, c, d) as int;
    if m < n {
        assert(s[m] == c);
    }
    if n < m {
        assert(s[n] == c);
    }
}

/// The first field of a text that starts with a field and a separator.
pub proof fn lemma_fields_cons(a: Seq<char>, sep: char, rest: Seq<char>)
    requires
        forall|k: int| 0 <= k < a.len() ==> #[trigger] a[k] != sep,
    ensures
        fields(a + seq![sep] + rest, sep) == seq![a] + fields(rest, sep),
{
    let s = a + seq![sep] + rest;
    assert forall|k: int| 0 <= k < a.len() implies #[trigger] s[k] != sep by {
        assert(s[k] == a[k]);
    }
    lemma_until_is(s, sep, a.len() as int);
    assert(s.take(a.len() as int) =~= a);
    assert(s.skip(a.len() as int + 1) =~= rest);
}

/// A text without the separator is its own only field.
pub proof fn lemma_fields_one(a: Seq<char>, sep: char)
    requires
        forall|k: int| 0 <= k < a.len() ==> #[trigger] a[k] != sep,
    ensures
        fields(a, sep) == seq![a],
{
    lemma_until_is(a, sep, a.len() as int);
}

/// Every character of a text that is no separator stands in one of its fields.
pub proof fn lemma_fields_hold(s: Seq<char>, sep: char, k: int)
    requires
        0 <= k < s.len(),
        s[k] != sep,
    ensures
        exists|i: int, j: int|
            0 <= i < fields(s, sep).len() && 0 <= j < fields(s, sep)[i].len() && #[trigger] fields(
                s,
                sep,
            )[i][j] == s[k],
    decreases s.len(),
{
    let n = until(s, sep) as int;
    let f = fields(s, sep);
    lemma_until(s, sep);
    if n >= s.len() {
        assert(f[0][k] == s[k]);
    } else if k < n {
        assert(f[0][k] == s[k]);
    } else {
        let rest = s.skip(n + 1);
        let g = fields(rest, sep);
        assert(rest[k - n - 1] == s[k]);
        lemma_fields_hold(rest, sep, k - n - 1);
        let (i, j) = choose|i: int, j: int|
            0 <= i < g.len() && 0 <= j < g[i].len() && #[trigger] g[i][j] == s[k];
        assert(f[i + 1] == g[i]);
        assert(f[i + 1][j] == s[k]);
    }
}

/// Decides [`is_space`].
pub fn is_whitespace(c: char) -> (r: bool)
    ensures
        r == is_space(c),
{
    ('\u{9}' <= c && c <= '\u{d}') || c == ' ' || c == '\u{85}' || c == '\u{a0}' || c == '\u{1680}'
        || ('\u{2000}' <= c && c <= '\u{200a}') || c == '\u{2028}' || c == '\u{2029}' || c
        == '\u{202f}' || c == '\u{205f}' || c == '\u{3000}'
}

/// The characters of `s`.
pub fn chars_of(s: &str) -> (r: Vec<char>)
    ensures
        r@ == s@,
{
    let mut out: Vec<char> = Vec::new();
    for c in it: s.chars()
        invariant
            out@ == s@.take(it.index() as int),
            it.seq() == s@,
    {
        out.push(c);
        assert(s@.take(it.index() as int).push(c) =~= s@.take(it.index() + 1));
    }
    out
}

/// Appends the characters to `out`.
pub fn push_chars(out: &mut String, s: &[char])
    ensures
        final(out)@ == old(out)@ + s@,
{
    let mut i: usize = 0;
    while i < s.len()
        invariant
            i <= s@.len(),
            out@ == old(out)@ + s@.take(i as int),
        decreases s@.len() - i,
    {
        out.push(s[i]);
        i += 1;
        assert(s@.take(i as int) =~= s@.take(i - 1).push(s@[i - 1]));
    }
    assert(s@.take(i as int) =~= s@);
}

/// The characters as a string.
pub fn string_of(s: &[char]) -> (r: String)
    ensures
        r@ == s@,
{
    let mut out = String::new();
    push_chars(&mut out, s);
    out
}

/// Appends a string slice to `out`.
pub fn push_text(out: &mut String, s: &str)
    ensures
        final(out)@ == old(out)@ + s@,
{
    let cs = chars_of(s);
    push_chars(out, cs.as_slice());
}

/// Whether the two character sequences are equal.
pub fn same(a: &[char], b: &[char]) -> (r: bool)
    ensures
        r == (a@ == b@),
{
    if a.len() != b.len() {
        return false;
    }
    let mut i: usize = 0;
    while i < a.len()
        invariant
            i <= a@.len(),
            a@.len() == b@.len(),
            forall|k: int| 0 <= k < i ==> a@[k] == b@[k],
        decreases a@.len() - i,
    {
        if a[i] != b[i] {
            return false;
        }
        i += 1;
    }
    assert(a@ =~= b@);
    true
}

/// Whether the characters are those of the string slice.
pub fn is_text(a: &[char], b: &str) -> (r: bool)
    ensures
        r == (a@ == b@),
{
    let cs = chars_of(b);
    same(a, cs.as_slice())
}

/// What follows `prefix` in `s`, where `s` starts with it.
pub fn strip_prefix<'a>(s: &'a [char], prefix: &str) -> (r: Option<&'a [char]>)
    ensures
        r is Some <==> prefix@.is_prefix_of(s@),
        r matches Some(rest) ==> rest@ == s@.skip(prefix@.len() as int),
{
    let p = chars_of(prefix);
    if p.len() > s.len() {
        return None;
    }
    let head = slice_subrange(s, 0, p.len());
    if !same(head, p.as_slice()) {
        return None;
    }
    Some(slice_subrange(s, p.len(), s.len()))
}

/// The index of the first `c` in `s`.
pub fn find(s: &[char], c: char) -> (r: Option<usize>)
    ensures
        r matches Some(i) ==> i < s@.len() && i == until(s@, c),
        r is None ==> until(s@, c) == s@.len(),
{
    let mut i: usize = 0;
    while i < s.len()
        invariant
            i <= s@.len(),
            forall|k: int| 0 <= k < i ==> #[trigger] s@[k] != c,
        decreases s@.len() - i,
    {
        if s[i] == c {
            proof {
                lemma_until_is(s@, c, i as int);
            }
            return Some(i);
        }
        i += 1;
    }
    proof {
        lemma_until_is(s@, c, i as int);
    }
    None
}

/// The index of the first `c` in `s` that is followed by `d`.
pub fn find_pair(s: &[char], c: char, d: char) -> (r: Option<usize>)
    ensures
        r matches Some(i) ==> i + 1 < s@.len() && i == until_pair(s@, c, d),
        r is None ==> until_pair(s@, c, d) == s@.len(),
{
    let mut i: usize = 0;
    while i < s.len() && s.len() - i >= 2
        invariant
            i <= s@.len(),
            forall|k: int|
                0 <= k < i && k + 1 < s@.len() ==> !(#[trigger] s@[k] == c && s@[k + 1] == d),
        decreases s@.len() - i,
    {
        if s[i] == c && s[i + 1] == d {
            proof {
                lemma_until_pair_is(s@, c, d, i as int);
            }
            return Some(i);
        }
        i += 1;
    }
    proof {
        lemma_until_pair_is(s@, c, d, s@.len() as int);
    }
    None
}

/// `s` without leading and trailing whitespace.
pub fn trim<'a>(s: &'a [char]) -> (r: &'a [char])
    ensures
        r@ == trimmed(s@),
{
    let mut start: usize = 0;
    assert(s@.skip(0) =~= s@);
    while start < s.len() && is_whitespace(s[start])
        invariant
            start <= s@.len(),
            trimmed_start(s@) == trimmed_start(s@.skip(start as int)),
        decreases s@.len() - start,
    {
        start += 1;
        assert(s@.skip(start - 1).drop_first() =~= s@.skip(start as int));
    }
    let mut end: usize = s.len();
    let ghost t = s@.skip(start as int);
    assert(trimmed_start(s@) == t);
    assert(s@.subrange(start as int, end as int) =~= t);
    while end > start && is_whitespace(s[end - 1])
        invariant
            start <= end <= s@.len(),
            t == s@.skip(start as int),
            trimmed_end(t) == trimmed_end(s@.subrange(start as int, end as int)),
        decreases end,
    {
        end -= 1;
        assert(s@.subrange(start as int, end + 1).drop_last() =~= s@.subrange(
            start as int,
            end as int,
        ));
    }
    slice_subrange(s, start, end)
}

/// The [`fields`] of `s`.
pub fn split<'a>(s: &'a [char], sep: char) -> (r: Vec<&'a [char]>)
    ensures
        views(r@) == fields(s@, sep),
{
    let mut out: Vec<&'a [char]> = Vec::new();
    let mut start: usize = 0;
    let mut i: usize = 0;
    assert(s@.skip(0) =~= s@);
    assert(views(out@) + fields(s@, sep) =~= fields(s@, sep));
    while i < s.len()
        invariant
            start <= i <= s@.len(),
            views(out@) + fields(s@.skip(start as int), sep) == fields(s@, sep),
            forall|k: int| start <= k < i ==> #[trigger] s@[k] != sep,
        decreases s@.len() - i,
    {
        if s[i] == sep {
            let ghost rest = s@.skip(start as int);
            let part = slice_subrange(s, start, i);
            let ghost before = views(out@);
            out.push(part);
            proof {
                lemma_until_is(rest, sep, i - start);
                assert(rest.take(i - start) =~= part@);
                assert(rest.skip(i - start + 1) =~= s@.skip(i + 1));
                assert(views(out@) =~= before.push(part@));
                assert(views(out@) + fields(s@.skip(i + 1), sep) =~= before + (seq![part@] + fields(
                    s@.skip(i + 1),
                    sep,
                )));
            }
            start = i + 1;
        }
        i += 1;
    }
    let part = slice_subrange(s, start, i);
    let ghost before = views(out@);
    out.push(part);
    proof {
        let rest = s@.skip(start as int);
        assert(rest =~= part@);
        lemma_until_is(rest, sep, rest.len() as int);
        assert(views(out@) =~= before + seq![part@]);
    }
    out
}

/// The [`words`] of `s`.
pub fn split_words<'a>(s: &'a [char]) -> (r: Vec<&'a [char]>)
    ensures
        views(r@) == words(s@),
{
    let mut out: Vec<&'a [char]> = Vec::new();
    let mut i: usize = 0;
    assert(s@.skip(0) =~= s@);
    assert(views(out@) + words(s@) =~= words(s@));
    while i < s.len()
        invariant
            i <= s@.len(),
            views(out@) + words(s@.skip(i as int)) == words(s@),
        decreases s@.len() - i,
    {
        let ghost rest = s@.skip(i as int);
        if is_whitespace(s[i]) {
            assert(rest.drop_first() =~= s@.skip(i + 1));
            i += 1;
        } else {
            let start = i;
            while i < s.len() && !is_whitespace(s[i])
                invariant
                    start <= i <= s@.len(),
                    forall|k: int| start <= k < i ==> !is_space(#[trigger] s@[k]),
                ensures
                    start <= i <= s@.len(),
                    forall|k: int| start <= k < i ==> !is_space(#[trigger] s@[k]),
                    i < s@.len() ==> is_space(s@[i as int]),
                decreases s@.len() - i,
            {
                i += 1;
            }
            let part = slice_subrange(s, start, i);
            let ghost before = views(out@);
            out.push(part);
            proof {
                lemma_word_len_is(rest, i - start);
                assert(rest.take(i - start) =~= part@);
                assert(rest.skip(i - start) =~= s@.skip(i as int));
                assert(views(out@) =~= before.push(part@));
                assert(views(out@) + words(s@.skip(i as int)) =~= before + (seq![part@] + words(
                    s@.skip(i as int),
                )));
            }
        }
    }
    proof {
        assert(s@.skip(i as int).len() == 0);
        assert(views(out@) + words(s@.skip(i as int)) =~= views(out@));
    }
    out
}

/// The [`lines`] of `s`.
pub fn split_lines<'a>(s: &'a [char]) -> (r: Vec<&'a [char]>)
    ensures
        views(r@) == lines(s@),
{
    let mut out: Vec<&'a [char]> = Vec::new();
    let mut start: usize = 0;
    let mut i: usize = 0;
    assert(s@.skip(0) =~= s@);
    assert(views(out@) + lines(s@) =~= lines(s@));
    while i < s.len()
        invariant
            start <= i <= s@.len(),
            views(out@) + lines(s@.skip(start as int)) == lines(s@),
            forall|k: int| start <= k < i ==> #[trigger] s@[k] != '\n',
        decreases s@.len() - i,
    {
        if s[i] == '\n' {
            let ghost rest = s@.skip(start as int);
            let end: usize = if i > start && s[i - 1] == '\r' {
                i - 1
            } else {
                i
            };
            let part = slice_subrange(s, start, end);
            let ghost before = views(out@);
            out.push(part);
            proof {
                lemma_until_is(rest, '\n', i - start);
                assert(without_cr(rest.take(i - start)) =~= part@);
                assert(rest.skip(i - start + 1) =~= s@.skip(i + 1));
                assert(views(out@) =~= before.push(part@));
                assert(views(out@) + lines(s@.skip(i + 1)) =~= before + (seq![part@] + lines(
                    s@.skip(i + 1),
                )));
            }
            start = i + 1;
        }
        i += 1;
    }
    let ghost before = views(out@);
    if start < i {
        let part = slice_subrange(s, start, i);
        out.push(part);
        proof {
            let rest = s@.skip(start as int);
            assert(rest =~= part@);
            lemma_until_is(rest, '\n', rest.len() as int);
            assert(views(out@) =~= before + seq![part@]);
        }
    } else {
        assert(s@.skip(start as int).len() == 0);
        assert(views(out@) + lines(s@.skip(start as int)) =~= views(out@));
    }
    out
}

/// The parts with `sep` between them.
pub open spec fn joined(parts: Seq<Seq<char>>, sep: char) -> Seq<char>
    decreases parts.len(),
{
    if parts.len() == 0 {
        seq![]
    } else if parts.len() == 1 {
        parts[0]
    } else {
        parts[0] + seq![sep] + joined(parts.drop_first(), sep)
    }
}

/// The lines with a newline behind each.
pub open spec fn lines_text(ls: Seq<Seq<char>>) -> Seq<char>
    decreases ls.len(),
{
    if ls.len() == 0 {
        seq![]
    } else {
        ls[0] + seq!['\n'] + lines_text(ls.drop_first())
    }
}

/// Whether `w` is a word: not empty, and without whitespace.
pub open spec fn is_word(w: Seq<char>) -> bool {
    w.len() > 0 && forall|k: int| 0 <= k < w.len() ==> !is_space(#[trigger] w[k])
}

/// Whether `line` is one line: without a newline in it and a carriage return at its
/// end.
pub open spec fn is_line(line: Seq<char>) -> bool {
    &&& !line.contains('\n')
    &&& line.len() > 0 ==> line.last() != '\r'
}

/// Law: a whitespace character parts the words in front of it from those behind it.
pub proof fn law_space_parts_words(a: Seq<char>, c: char, b: Seq<char>)
    requires
        is_space(c),
    ensures
        words(a + seq![c] + b) == words(a) + words(b),
    decreases a.len(),
{
    let s = a + seq![c] + b;
    if a.len() == 0 {
        assert(s.drop_first() =~= b);
        assert(words(a) + words(b) =~= words(b));
    } else if is_space(a[0]) {
        law_space_parts_words(a.drop_first(), c, b);
        assert(s.drop_first() =~= a.drop_first() + seq![c] + b);
    } else {
        let n = word_len(a) as int;
        lemma_word_len(a);
        assert forall|k: int| 0 <= k < n implies !is_space(#[trigger] s[k]) by {
            assert(s[k] == a[k]);
        }
        assert(n < a.len() ==> s[n] == a[n]);
        lemma_word_len_is(s, n);
        assert(n > 0);
        law_space_parts_words(a.skip(n), c, b);
        assert(s.take(n) =~= a.take(n));
        assert(s.skip(n) =~= a.skip(n) + seq![c] + b);
        assert(words(a) == seq![a.take(n)] + words(a.skip(n)));
        assert(words(s) == seq![s.take(n)] + words(s.skip(n)));
        assert(words(s) =~= words(a) + words(b));
    }
}

/// Law: a word is its own only word, and an empty text has none.
pub proof fn law_word_alone(w: Seq<char>)
    ensures
        is_word(w) ==> words(w) == seq![w],
        w.len() == 0 ==> words(w) == Seq::<Seq<char>>::empty(),
{
    if is_word(w) {
        lemma_word_len_is(w, w.len() as int);
        assert(!is_space(w[0]));
        assert(w.take(w.len() as int) =~= w);
        let rest = w.skip(w.len() as int);
        assert(words(rest) == Seq::<Seq<char>>::empty());
        assert(words(w) == seq![w.take(word_len(w) as int)] + words(w.skip(word_len(w) as int)));
        assert(words(w) =~= seq![w]);
    }
}

/// Law: splitting into words undoes joining with spaces.
pub proof fn law_joined_words_read_back(w: Seq<Seq<char>>)
    requires
        forall|i: int| 0 <= i < w.len() ==> is_word(#[trigger] w[i]),
    ensures
        words(joined(w, ' ')) == w,
    decreases w.len(),
{
    if w.len() == 0 {
        law_word_alone(joined(w, ' '));
        assert(w =~= seq![]);
    } else if w.len() == 1 {
        assert(is_word(w[0]));
        law_word_alone(w[0]);
        assert(w =~= seq![w[0]]);
    } else {
        let rest = w.drop_first();
        assert forall|i: int| 0 <= i < rest.len() implies is_word(#[trigger] rest[i]) by {
            assert(rest[i] == w[i + 1]);
        }
        assert(is_word(w[0]));
        law_word_alone(w[0]);
        law_joined_words_read_back(rest);
        law_space_parts_words(w[0], ' ', joined(rest, ' '));
        assert(seq![w[0]] + rest =~= w);
    }
}

/// Law: the words of a text are words, and where the text has any, each of them
/// stands in it.
pub proof fn law_words_are_words(s: Seq<char>, i: int)
    requires
        0 <= i < words(s).len(),
    ensures
        is_word(words(s)[i]),
        exists|k: int| 0 <= k <= k + words(s)[i].len() <= s.len() && #[trigger] s.subrange(
            k,
            k + words(s)[i].len(),
        ) == words(s)[i],
    decreases s.len(),
{
    if is_space(s[0]) {
        let t = s.drop_first();
        law_words_are_words(t, i);
        let w = words(s)[i];
        let k = choose|k: int| 0 <= k <= k + w.len() <= t.len() && #[trigger] t.subrange(
            k,
            k + w.len(),
        ) == w;
        assert(s.subrange(k + 1, k + 1 + w.len()) =~= t.subrange(k, k + w.len()));
    } else {
        let n = word_len(s) as int;
        lemma_word_len(s);
        assert(n > 0);
        let t = s.skip(n);
        let w = words(s)[i];
        if i == 0 {
            assert(w == s.take(n));
            assert forall|k: int| 0 <= k < w.len() implies !is_space(#[trigger] w[k]) by {
                assert(w[k] == s[k]);
            }
            assert(s.subrange(0int, 0int + w.len()) =~= w);
        } else {
            assert(w == words(t)[i - 1]);
            law_words_are_words(t, i - 1);
            let k = choose|k: int| 0 <= k <= k + w.len() <= t.len() && #[trigger] t.subrange(
                k,
                k + w.len(),
            ) == w;
            assert(s.subrange(k + n, k + n + w.len()) =~= t.subrange(k, k + w.len()));
        }
    }
}

/// Law: a separator parts the fields in front of it from those behind it.
pub proof fn law_separator_parts_fields(a: Seq<char>, sep: char, b: Seq<char>)
    ensures
        fields(a + seq![sep] + b, sep) == fields(a, sep) + fields(b, sep),
    decreases a.len(),
{
    let s = a + seq![sep] + b;
    let n = until(a, sep) as int;
    lemma_until(a, sep);
    assert forall|k: int| 0 <= k < n implies #[trigger] s[k] != sep by {
        assert(s[k] == a[k]);
    }
    assert(n < a.len() ==> s[n] == a[n]);
    lemma_until_is(s, sep, n);
    if n >= a.len() {
        assert(s.take(n) =~= a);
        assert(s.skip(n + 1) =~= b);
    } else {
        law_separator_parts_fields(a.skip(n + 1), sep, b);
        assert(s.take(n) =~= a.take(n));
        assert(s.skip(n + 1) =~= a.skip(n + 1) + seq![sep] + b);
        assert(fields(s, sep) =~= fields(a, sep) + fields(b, sep));
    }
}

/// Law: splitting into fields undoes joining with the separator.
pub proof fn law_joined_fields_read_back(parts: Seq<Seq<char>>, sep: char)
    requires
        parts.len() > 0,
        forall|i: int| 0 <= i < parts.len() ==> !(#[trigger] parts[i]).contains(sep),
    ensures
        fields(joined(parts, sep), sep) == parts,
    decreases parts.len(),
{
    let first = parts[0];
    assert forall|k: int| 0 <= k < first.len() implies #[trigger] first[k] != sep by {
        assert(first.contains(first[k]));
    }
    if parts.len() == 1 {
        lemma_fields_one(first, sep);
        assert(parts =~= seq![first]);
    } else {
        let rest = parts.drop_first();
        assert forall|i: int| 0 <= i < rest.len() implies !(#[trigger] rest[i]).contains(sep) by {
            assert(rest[i] == parts[i + 1]);
        }
        law_joined_fields_read_back(rest, sep);
        lemma_fields_cons(first, sep, joined(rest, sep));
        assert(seq![first] + rest =~= parts);
    }
}

/// Law: joining the fields of a text gives the text back, and no field holds the
/// separator.
pub proof fn law_fields_join_back(s: Seq<char>, sep: char)
    ensures
        fields(s, sep).len() > 0,
        joined(fields(s, sep), sep) == s,
        forall|i: int| 0 <= i < fields(s, sep).len() ==> !(#[trigger] fields(s, sep)[i]).contains(
            sep,
        ),
    decreases s.len(),
{
    let n = until(s, sep) as int;
    let f = fields(s, sep);
    lemma_until(s, sep);
    if n >= s.len() {
        assert(f =~= seq![s]);
    } else {
        let rest = s.skip(n + 1);
        let g = fields(rest, sep);
        law_fields_join_back(rest, sep);
        assert(f.drop_first() =~= g);
        assert(f[0] == s.take(n));
        assert(s.take(n) + seq![sep] + rest =~= s);
        assert forall|i: int| 0 <= i < f.len() implies !(#[trigger] f[i]).contains(sep) by {
            if i > 0 {
                assert(f[i] == g[i - 1]);
            }
        }
    }
}

/// Law: a newline, or a carriage return and a newline, ends a line and belongs to
/// none.
pub proof fn law_newline_ends_line(line: Seq<char>, rest: Seq<char>)
    requires
        !line.contains('\n'),
    ensures
        is_line(line) ==> lines(line + seq!['\n'] + rest) == seq![line] + lines(rest),
        lines(line + seq!['\r', '\n'] + rest) == seq![line] + lines(rest),
{
    let n = line.len() as int;
    assert forall|k: int| 0 <= k < n implies #[trigger] line[k] != '\n' by {
        assert(line.contains(line[k]));
    }
    let s = line + seq!['\n'] + rest;
    assert forall|k: int| 0 <= k < n implies #[trigger] s[k] != '\n' by {
        assert(s[k] == line[k]);
    }
    lemma_until_is(s, '\n', n);
    assert(s.take(n) =~= line);
    assert(s.skip(n + 1) =~= rest);
    let t = line + seq!['\r', '\n'] + rest;
    assert forall|k: int| 0 <= k < n + 1 implies #[trigger] t[k] != '\n' by {
        if k < n {
            assert(t[k] == line[k]);
        }
    }
    lemma_until_is(t, '\n', n + 1);
    assert(t.take(n + 1).drop_last() =~= line);
    assert(t.skip(n + 2) =~= rest);
}

/// Law: the last line needs no newline, and an empty text has no line.
pub proof fn law_last_line(line: Seq<char>)
    requires
        !line.contains('\n'),
    ensures
        line.len() > 0 ==> lines(line) == seq![line],
        line.len() == 0 ==> lines(line) == Seq::<Seq<char>>::empty(),
{
    assert forall|k: int| 0 <= k < line.len() implies #[trigger] line[k] != '\n' by {
        assert(line.contains(line[k]));
    }
    lemma_until_is(line, '\n', line.len() as int);
}

/// Law: splitting into lines undoes writing lines with a newline behind each.
pub proof fn law_lines_read_back(ls: Seq<Seq<char>>)
    requires
        forall|i: int| 0 <= i < ls.len() ==> is_line(#[trigger] ls[i]),
    ensures
        lines(lines_text(ls)) == ls,
    decreases ls.len(),
{
    if ls.len() == 0 {
        assert(ls =~= seq![]);
    } else {
        let rest = ls.drop_first();
        assert forall|i: int| 0 <= i < rest.len() implies is_line(#[trigger] rest[i]) by {
            assert(rest[i] == ls[i + 1]);
        }
        assert(is_line(ls[0]));
        law_lines_read_back(rest);
        law_newline_ends_line(ls[0], lines_text(rest));
        assert(seq![ls[0]] + rest =~= ls);
    }
}

/// Law: trimming takes away the whitespace around a text and nothing of the text.
pub proof fn law_trimming(a: Seq<char>, core: Seq<char>, b: Seq<char>)
    requires
        forall|k: int| 0 <= k < a.len() ==> is_space(#[trigger] a[k]),
        forall|k: int| 0 <= k < b.len() ==> is_space(#[trigger] b[k]),
        core.len() > 0 ==> !is_space(core[0]) && !is_space(core.last()),
    ensures
        trimmed(a + core + b) == core,
    decreases a.len() + b.len(),
{
    let s = a + core + b;
    if a.len() > 0 {
        let rest = a.drop_first();
        assert(s[0] == a[0]);
        assert(s.drop_first() =~= rest + core + b);
        assert forall|k: int| 0 <= k < rest.len() implies is_space(#[trigger] rest[k]) by {
            assert(rest[k] == a[k + 1]);
        }
        law_trimming(rest, core, b);
    } else if core.len() == 0 {
        assert(s =~= b);
        if b.len() > 0 {
            assert(is_space(b[0]));
            let rest = b.drop_first();
            assert(s.drop_first() =~= a + core + rest);
            assert forall|k: int| 0 <= k < rest.len() implies is_space(#[trigger] rest[k]) by {
                assert(rest[k] == b[k + 1]);
            }
            law_trimming(a, core, rest);
        }
    } else {
        assert(s[0] == core[0]);
        assert(trimmed_start(s) == s);
        if b.len() > 0 {
            let front = b.drop_last();
            assert(s.last() == b.last());
            assert(is_space(b[b.len() - 1]));
            assert(s.drop_last() =~= a + core + front);
            assert forall|k: int| 0 <= k < front.len() implies is_space(#[trigger] front[k]) by {
                assert(front[k] == b[k]);
            }
            law_trimming(a, core, front);
            assert((a + core + front)[0] == core[0]);
        } else {
            assert(s =~= core);
        }
    }
}

} // verus!
