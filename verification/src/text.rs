//! Character-level text operations: whitespace, trimming, lines, fields and tokens.
//!
//! Every operation is specified over `Seq<char>` and implemented over `Vec<char>`.

use vstd::prelude::*;

verus! {

/// Whether `c` is a Unicode white-space character.
pub open spec fn is_whitespace(c: char) -> bool {
    ||| '\u{9}' <= c <= '\u{d}'
    ||| c == ' '
    ||| c == '\u{85}'
    ||| c == '\u{a0}'
    ||| c == '\u{1680}'
    ||| '\u{2000}' <= c <= '\u{200a}'
    ||| c == '\u{2028}'
    ||| c == '\u{2029}'
    ||| c == '\u{202f}'
    ||| c == '\u{205f}'
    ||| c == '\u{3000}'
}

/// `s` without its leading white space.
pub open spec fn trimmed_start(s: Seq<char>) -> Seq<char>
    decreases s.len(),
{
    if s.len() > 0 && is_whitespace(s[0]) {
        trimmed_start(s.drop_first())
    } else {
        s
    }
}

/// `s` without its trailing white space.
pub open spec fn trimmed_end(s: Seq<char>) -> Seq<char>
    decreases s.len(),
{
    if s.len() > 0 && is_whitespace(s.last()) {
        trimmed_end(s.drop_last())
    } else {
        s
    }
}

/// `s` without leading and trailing white space.
pub open spec fn trimmed(s: Seq<char>) -> Seq<char> {
    trimmed_end(trimmed_start(s))
}

/// The number of characters of `s` before the first occurrence of `c`;
/// the length of `s` where `c` does not occur.
pub open spec fn offset_of(s: Seq<char>, c: char) -> nat
    decreases s.len(),
{
    if s.len() == 0 || s[0] == c {
        0
    } else {
        1 + offset_of(s.drop_first(), c)
    }
}

/// `line` without one trailing carriage return.
pub open spec fn without_cr(line: Seq<char>) -> Seq<char> {
    if line.len() > 0 && line.last() == '\r' {
        line.drop_last()
    } else {
        line
    }
}

/// The lines of `s`. A line ends at a line feed, or at a carriage return
/// directly followed by a line feed; neither belongs to the line. The text
/// after the last line feed is a line of its own unless it is empty.
pub open spec fn lines_of(s: Seq<char>) -> Seq<Seq<char>>
    decreases s.len(),
{
    let n = offset_of(s, '\n') as int;
    if s.len() == 0 {
        Seq::empty()
    } else if n >= s.len() {
        seq![s]
    } else {
        seq![without_cr(s.take(n))] + lines_of(s.skip(n + 1))
    }
}

/// The two fields of `s` around its first occurrence of `c`, where it has one.
pub open spec fn split_at_first(s: Seq<char>, c: char) -> Option<(Seq<char>, Seq<char>)> {
    let n = offset_of(s, c) as int;
    if n >= s.len() {
        None
    } else {
        Some((s.take(n), s.skip(n + 1)))
    }
}

/// The number of characters of `s` before its first white-space character.
pub open spec fn run_length(s: Seq<char>) -> nat
    decreases s.len(),
{
    if s.len() == 0 || is_whitespace(s[0]) {
        0
    } else {
        1 + run_length(s.drop_first())
    }
}

/// The pieces of `s` between its white-space characters, empty ones included.
pub open spec fn pieces_of(s: Seq<char>) -> Seq<Seq<char>>
    decreases s.len(),
{
    let n = run_length(s) as int;
    if n >= s.len() {
        seq![s]
    } else {
        seq![s.take(n)] + pieces_of(s.skip(n + 1))
    }
}

/// Whether a piece of text holds at least one character.
pub open spec fn is_nonempty(p: Seq<char>) -> bool {
    p.len() > 0
}

/// The maximal runs of characters of `s` that hold no white space, in order.
pub open spec fn tokens_of(s: Seq<char>) -> Seq<Seq<char>> {
    pieces_of(s).filter(|p: Seq<char>| is_nonempty(p))
}

/// The texts joined into one, with a single space between each two.
pub open spec fn joined_by_space(parts: Seq<Seq<char>>) -> Seq<char>
    decreases parts.len(),
{
    if parts.len() == 0 {
        Seq::empty()
    } else if parts.len() == 1 {
        parts[0]
    } else {
        joined_by_space(parts.drop_last()) + seq![' '] + parts.last()
    }
}

/// Whether `c` is one of the punctuation marks that are taken out of words.
pub open spec fn is_punctuation(c: char) -> bool {
    ||| c == '.'
    ||| c == ','
    ||| c == '?'
    ||| c == '!'
    ||| c == ':'
    ||| c == ';'
    ||| c == '('
    ||| c == ')'
    ||| c == '['
    ||| c == ']'
    ||| c == '\''
    ||| c == '"'
    ||| c == '<'
    ||| c == '>'
}

/// `s` without its punctuation marks.
pub open spec fn without_punctuation(s: Seq<char>) -> Seq<char> {
    s.filter(|c: char| !is_punctuation(c))
}

/// The texts that a vector of character vectors holds, in order.
pub open spec fn texts(v: Seq<Vec<char>>) -> Seq<Seq<char>> {
    v.map_values(|x: Vec<char>| x@)
}

/// The characters of a string slice, in order.
pub fn chars_of(s: &str) -> (out: Vec<char>)
    ensures
        out@ == s@,
{
    let mut out: Vec<char> = Vec::new();
    for c in it: s.chars()
        invariant
            out@ == it.seq().take(it.index() as int),
    {
        out.push(c);
    }
    out
}

/// Tests a character for Unicode white space.
pub fn whitespace(c: char) -> (r: bool)
    ensures
        r == is_whitespace(c),
{
    ('\u{9}' <= c && c <= '\u{d}') || c == ' ' || c == '\u{85}' || c == '\u{a0}' || c == '\u{1680}'
        || ('\u{2000}' <= c && c <= '\u{200a}') || c == '\u{2028}' || c == '\u{2029}' || c
        == '\u{202f}' || c == '\u{205f}' || c == '\u{3000}'
}

/// Tests a character for the punctuation marks that are taken out of words.
pub fn punctuation(c: char) -> (r: bool)
    ensures
        r == is_punctuation(c),
{
    c == '.' || c == ',' || c == '?' || c == '!' || c == ':' || c == ';' || c == '(' || c == ')'
        || c == '[' || c == ']' || c == '\'' || c == '"' || c == '<' || c == '>'
}

/// The characters of `s` from `from` up to `to`, as a vector of their own.
pub fn slice_of(s: &Vec<char>, from: usize, to: usize) -> (out: Vec<char>)
    requires
        from <= to <= s.len(),
    ensures
        out@ == s@.subrange(from as int, to as int),
{
    let mut out: Vec<char> = Vec::new();
    let mut i: usize = from;
    while i < to
        invariant
            from <= i <= to <= s.len(),
            out@ == s@.subrange(from as int, i as int),
        decreases to - i,
    {
        out.push(s[i]);
        i += 1;
    }
    out
}

proof fn lemma_trimmed_start_skip(s: Seq<char>, k: int)
    requires
        0 <= k <= s.len(),
        forall|j: int| 0 <= j < k ==> is_whitespace(s[j]),
    ensures
        trimmed_start(s) == trimmed_start(s.skip(k)),
    decreases k,
{
    if k > 0 {
        assert(s.drop_first().skip(k - 1) == s.skip(k));
        lemma_trimmed_start_skip(s.drop_first(), k - 1);
    } else {
        assert(s.skip(0) == s);
    }
}

proof fn lemma_trimmed_end_take(s: Seq<char>, k: int)
    requires
        0 <= k <= s.len(),
        forall|j: int| k <= j < s.len() ==> is_whitespace(s[j]),
    ensures
        trimmed_end(s) == trimmed_end(s.take(k)),
    decreases s.len() - k,
{
    if k < s.len() {
        assert(s.drop_last().take(k) == s.take(k));
        lemma_trimmed_end_take(s.drop_last(), k);
    } else {
        assert(s.take(k) == s);
    }
}

/// Copies `s` without its leading and trailing white space.
pub fn trim(s: &Vec<char>) -> (out: Vec<char>)
    ensures
        out@ == trimmed(s@),
{
    let mut start: usize = 0;
    while start < s.len() && whitespace(s[start])
        invariant
            start <= s.len(),
            forall|j: int| 0 <= j < start ==> is_whitespace(s@[j]),
        decreases s.len() - start,
    {
        start += 1;
    }
    let mut end: usize = s.len();
    while end > start && whitespace(s[end - 1])
        invariant
            start <= end <= s.len(),
            forall|j: int| end <= j < s.len() ==> is_whitespace(s@[j]),
        decreases end,
    {
        end -= 1;
    }
    proof {
        lemma_trimmed_start_skip(s@, start as int);
        let rest = s@.skip(start as int);
        assert(trimmed_start(rest) == rest);
        lemma_trimmed_end_take(rest, end - start);
        let kept = rest.take(end - start);
        assert(kept == s@.subrange(start as int, end as int));
        assert(trimmed_end(kept) == kept);
    }
    slice_of(s, start, end)
}

proof fn lemma_offset_of(s: Seq<char>, c: char, k: int)
    requires
        0 <= k <= s.len(),
        forall|j: int| 0 <= j < k ==> s[j] != c,
        k < s.len() ==> s[k] == c,
    ensures
        offset_of(s, c) == k,
    decreases k,
{
    if k > 0 {
        lemma_offset_of(s.drop_first(), c, k - 1);
    }
}

proof fn lemma_run_length(s: Seq<char>, k: int)
    requires
        0 <= k <= s.len(),
        forall|j: int| 0 <= j < k ==> !is_whitespace(s[j]),
        k < s.len() ==> is_whitespace(s[k]),
    ensures
        run_length(s) == k,
    decreases k,
{
    if k > 0 {
        lemma_run_length(s.drop_first(), k - 1);
    }
}

/// The position of the first `c` in `s` at or after `from`; the length of
/// `s` where there is none.
pub fn find(s: &Vec<char>, from: usize, c: char) -> (at: usize)
    requires
        from <= s.len(),
    ensures
        from <= at <= s.len(),
        at - from == offset_of(s@.skip(from as int), c),
{
    let mut at: usize = from;
    while at < s.len() && s[at] != c
        invariant
            from <= at <= s.len(),
            forall|j: int| from <= j < at ==> s@[j] != c,
        decreases s.len() - at,
    {
        at += 1;
    }
    proof {
        lemma_offset_of(s@.skip(from as int), c, at - from);
    }
    at
}

/// Splits `s` into its lines.
pub fn lines(s: &Vec<char>) -> (out: Vec<Vec<char>>)
    ensures
        texts(out@) == lines_of(s@),
{
    let mut out: Vec<Vec<char>> = Vec::new();
    let mut pos: usize = 0;
    assert(s@.skip(0) == s@);
    assert(texts(out@) + lines_of(s@) == lines_of(s@));
    while pos < s.len()
        invariant
            pos <= s.len(),
            lines_of(s@) == texts(out@) + lines_of(s@.skip(pos as int)),
        decreases s.len() - pos,
    {
        let ghost rest = s@.skip(pos as int);
        let ghost before = texts(out@);
        let end = find(s, pos, '\n');
        if end >= s.len() {
            let line = slice_of(s, pos, end);
            assert(line@ == rest);
            out.push(line);
            assert(texts(out@) == before + seq![rest]);
            pos = s.len();
            assert(lines_of(s@.skip(pos as int)) == Seq::<Seq<char>>::empty());
        } else {
            let mut stop = end;
            if stop > pos && s[stop - 1] == '\r' {
                stop -= 1;
            }
            let line = slice_of(s, pos, stop);
            assert(rest.take(end - pos) == s@.subrange(pos as int, end as int));
            assert(line@ == without_cr(rest.take(end - pos)));
            out.push(line);
            assert(texts(out@) == before + seq![without_cr(rest.take(end - pos))]);
            assert(rest.skip(end - pos + 1) == s@.skip(end + 1));
            pos = end + 1;
        }
    }
    assert(lines_of(s@.skip(pos as int)) == Seq::<Seq<char>>::empty());
    out
}

/// Splits `s` around its first occurrence of `c`, where it has one.
pub fn split_once(s: &Vec<char>, c: char) -> (out: Option<(Vec<char>, Vec<char>)>)
    ensures
        match out {
            Some((head, tail)) => split_at_first(s@, c) == Some((head@, tail@)),
            None => split_at_first(s@, c) is None,
        },
{
    assert(s@.skip(0) == s@);
    let at = find(s, 0, c);
    if at >= s.len() {
        None
    } else {
        let head = slice_of(s, 0, at);
        let tail = slice_of(s, at + 1, s.len());
        assert(s@.take(at as int) == s@.subrange(0, at as int));
        assert(s@.skip(at + 1) == s@.subrange(at + 1, s.len() as int));
        Some((head, tail))
    }
}

/// Whether two character vectors hold the same text.
pub fn same_text(a: &Vec<char>, b: &Vec<char>) -> (r: bool)
    ensures
        r == (a@ == b@),
{
    if a.len() != b.len() {
        return false;
    }
    let mut i: usize = 0;
    while i < a.len()
        invariant
            i <= a.len() == b.len(),
            forall|j: int| 0 <= j < i ==> a@[j] == b@[j],
        decreases a.len() - i,
    {
        if a[i] != b[i] {
            return false;
        }
        i += 1;
    }
    assert(a@ =~= b@);
    true
}

/// Whether `s` begins with `prefix`.
pub fn starts_with(s: &Vec<char>, prefix: &Vec<char>) -> (r: bool)
    ensures
        r == prefix@.is_prefix_of(s@),
{
    if prefix.len() > s.len() {
        return false;
    }
    let mut i: usize = 0;
    while i < prefix.len()
        invariant
            i <= prefix.len() <= s.len(),
            forall|j: int| 0 <= j < i ==> s@[j] == prefix@[j],
        decreases prefix.len() - i,
    {
        if s[i] != prefix[i] {
            assert(s@.subrange(0, prefix@.len() as int)[i as int] != prefix@[i as int]);
            return false;
        }
        i += 1;
    }
    assert(s@.subrange(0, prefix@.len() as int) =~= prefix@);
    true
}

proof fn lemma_run_length_bound(s: Seq<char>)
    ensures
        run_length(s) <= s.len(),
    decreases s.len(),
{
    if s.len() > 0 {
        lemma_run_length_bound(s.drop_first());
    }
}

proof fn lemma_filter_one(x: Seq<char>)
    ensures
        seq![x].filter(|p: Seq<char>| is_nonempty(p)) == (if x.len() > 0 {
            seq![x]
        } else {
            Seq::empty()
        }),
{
    reveal_with_fuel(Seq::filter, 2);
    let keep = |p: Seq<char>| is_nonempty(p);
    let one = seq![x];
    assert(one.drop_last() =~= Seq::<Seq<char>>::empty());
    assert(one.last() == x);
    assert(one.filter(keep) =~= if x.len() > 0 {
        one
    } else {
        Seq::empty()
    });
}

proof fn lemma_tokens_step(rest: Seq<char>, n: int)
    requires
        n == run_length(rest),
    ensures
        n >= rest.len() ==> tokens_of(rest) == (if n > 0 {
            seq![rest]
        } else {
            Seq::empty()
        }),
        n < rest.len() ==> tokens_of(rest) == (if n > 0 {
            seq![rest.take(n)]
        } else {
            Seq::empty()
        }) + tokens_of(rest.skip(n + 1)),
{
    let keep = |p: Seq<char>| is_nonempty(p);
    lemma_run_length_bound(rest);
    if n >= rest.len() {
        lemma_filter_one(rest);
    } else {
        lemma_filter_one(rest.take(n));
        Seq::filter_distributes_over_add(seq![rest.take(n)], pieces_of(rest.skip(n + 1)), keep);
    }
}

/// Splits `s` at white space into its tokens.
pub fn tokens(s: &Vec<char>) -> (out: Vec<Vec<char>>)
    ensures
        texts(out@) == tokens_of(s@),
{
    let mut out: Vec<Vec<char>> = Vec::new();
    let mut pos: usize = 0;
    let mut done = false;
    assert(s@.skip(0) == s@);
    assert(texts(out@) + tokens_of(s@) == tokens_of(s@));
    while !done
        invariant
            pos <= s.len(),
            !done ==> tokens_of(s@) == texts(out@) + tokens_of(s@.skip(pos as int)),
            done ==> tokens_of(s@) == texts(out@),
        decreases s.len() - pos + (if done { 0int } else { 1int }),
    {
        let ghost rest = s@.skip(pos as int);
        let ghost before = texts(out@);
        let mut end: usize = pos;
        while end < s.len() && !whitespace(s[end])
            invariant
                pos <= end <= s.len(),
                forall|j: int| pos <= j < end ==> !is_whitespace(s@[j]),
            decreases s.len() - end,
        {
            end += 1;
        }
        proof {
            lemma_run_length(rest, end - pos);
            lemma_tokens_step(rest, end - pos);
        }
        if end > pos {
            let token = slice_of(s, pos, end);
            assert(rest.take(end - pos) == s@.subrange(pos as int, end as int));
            assert(end >= s.len() ==> token@ == rest);
            out.push(token);
            assert(texts(out@) == before + seq![token@]);
        }
        if end >= s.len() {
            done = true;
            pos = s.len();
        } else {
            assert(rest.skip(end - pos + 1) == s@.skip(end + 1));
            pos = end + 1;
        }
    }
    out
}

/// Copies `s` without its punctuation marks.
pub fn strip_punctuation(s: &Vec<char>) -> (out: Vec<char>)
    ensures
        out@ == without_punctuation(s@),
{
    let mut out: Vec<char> = Vec::new();
    let mut i: usize = 0;
    proof {
        reveal(Seq::filter);
        assert(s@.take(0) =~= Seq::<char>::empty());
    }
    while i < s.len()
        invariant
            i <= s.len(),
            out@ == without_punctuation(s@.take(i as int)),
        decreases s.len() - i,
    {
        proof {
            reveal(Seq::filter);
            assert(s@.take(i + 1).drop_last() == s@.take(i as int));
        }
        if !punctuation(s[i]) {
            out.push(s[i]);
        }
        i += 1;
    }
    assert(s@.take(i as int) == s@);
    out
}

/// The lower-case form that `str::to_lowercase` gives a text.
pub uninterp spec fn lowercase_of(s: Seq<char>) -> Seq<char>;

/// Calls `str::to_lowercase`. Trusted: the result is the lower-case form of
/// the argument, which depends on nothing but the argument's characters.
#[verifier::external_body]
pub(crate) fn lowercase(s: &str) -> (out: String)
    ensures
        out@ == lowercase_of(s@),
{
    s.to_lowercase()
}

/// Calls `String::from_iter` on the characters of `chars`. Trusted: the
/// string holds exactly those characters, in order.
#[verifier::external_body]
pub(crate) fn string_of(chars: &Vec<char>) -> (out: String)
    ensures
        out@ == chars@,
{
    String::from_iter(chars.iter())
}

/// The form under which a token is counted: its lower-case form without
/// punctuation marks.
pub open spec fn normalized(token: Seq<char>) -> Seq<char> {
    without_punctuation(lowercase_of(token))
}

/// Normalizes a token: lower case first, then the punctuation marks go.
/// A token of punctuation marks alone gives the empty word.
pub fn normalize(token: &str) -> (word: String)
    ensures
        word@ == normalized(token@),
{
    let lowered = lowercase(token);
    let kept = strip_punctuation(&chars_of(lowered.as_str()));
    string_of(&kept)
}

proof fn lemma_pieces_around_space(a: Seq<char>, b: Seq<char>)
    ensures
        pieces_of(a + seq![' '] + b) == pieces_of(a) + pieces_of(b),
    decreases a.len(),
{
    let whole = a + seq![' '] + b;
    let n = run_length(a) as int;
    lemma_run_length_bound(a);
    assert(is_whitespace(' '));
    if n >= a.len() {
        assert forall|j: int| 0 <= j < a.len() implies !is_whitespace(whole[j]) by {
            lemma_run_is_free(a, j);
            assert(whole[j] == a[j]);
        }
        assert(whole[a.len() as int] == ' ');
        lemma_run_length(whole, a.len() as int);
        assert(whole.take(a.len() as int) =~= a);
        assert(whole.skip(a.len() as int + 1) =~= b);
        assert(pieces_of(a) == seq![a]);
    } else {
        assert forall|j: int| 0 <= j < n implies !is_whitespace(whole[j]) by {
            lemma_run_is_free(a, j);
            assert(whole[j] == a[j]);
        }
        lemma_run_ends(a);
        assert(whole[n] == a[n]);
        lemma_run_length(whole, n);
        assert(whole.take(n) =~= a.take(n));
        assert(whole.skip(n + 1) =~= a.skip(n + 1) + seq![' '] + b);
        lemma_pieces_around_space(a.skip(n + 1), b);
        assert(seq![a.take(n)] + (pieces_of(a.skip(n + 1)) + pieces_of(b)) =~= (seq![a.take(n)]
            + pieces_of(a.skip(n + 1))) + pieces_of(b));
    }
}

proof fn lemma_run_is_free(s: Seq<char>, j: int)
    requires
        0 <= j < run_length(s),
    ensures
        j < s.len(),
        !is_whitespace(s[j]),
    decreases j,
{
    if j > 0 {
        lemma_run_is_free(s.drop_first(), j - 1);
    }
}

proof fn lemma_run_ends(s: Seq<char>)
    requires
        run_length(s) < s.len(),
    ensures
        is_whitespace(s[run_length(s) as int]),
    decreases s.len(),
{
    if !(s.len() == 0 || is_whitespace(s[0])) {
        lemma_run_ends(s.drop_first());
    }
}

/// The empty text has no token.
pub proof fn lemma_tokens_of_nothing()
    ensures
        tokens_of(Seq::empty()) == Seq::<Seq<char>>::empty(),
{
    lemma_filter_one(Seq::empty());
}

/// No token spans a space between two texts: the tokens of two texts with a
/// space between them are the tokens of the first and then those of the
/// second.
pub proof fn lemma_tokens_around_space(a: Seq<char>, b: Seq<char>)
    ensures
        tokens_of(a + seq![' '] + b) == tokens_of(a) + tokens_of(b),
{
    lemma_pieces_around_space(a, b);
    Seq::filter_distributes_over_add(pieces_of(a), pieces_of(b), |p: Seq<char>| is_nonempty(p));
}

} // verus!
