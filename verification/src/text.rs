//! Text as sequences of characters: lines, words, numbers.

use vstd::prelude::*;
use vstd::slice::slice_subrange;
use vstd::string::StringExecFns;

verus! {

/// Appends one character. `std` documents `String::push` as appending the given
/// `char` to the end of the string.
pub assume_specification[ String::push ](text: &mut String, c: char)
    ensures
        final(text)@ == old(text)@.push(c),
;

// ---------------------------------------------------------------------------
// Characters
// ---------------------------------------------------------------------------

/// The characters that Unicode calls white space.
pub open spec fn is_space(c: char) -> bool {
    ||| '\u{9}' <= c <= '\u{D}'
    ||| c == ' '
    ||| c == '\u{85}'
    ||| c == '\u{A0}'
    ||| c == '\u{1680}'
    ||| '\u{2000}' <= c <= '\u{200A}'
    ||| c == '\u{2028}'
    ||| c == '\u{2029}'
    ||| c == '\u{202F}'
    ||| c == '\u{205F}'
    ||| c == '\u{3000}'
}

/// Whether Unicode calls `c` white space.
pub fn white_space(c: char) -> (yes: bool)
    ensures
        yes == is_space(c),
{
    ('\u{9}' <= c && c <= '\u{D}') || c == ' ' || c == '\u{85}' || c == '\u{A0}' || c == '\u{1680}'
        || ('\u{2000}' <= c && c <= '\u{200A}') || c == '\u{2028}' || c == '\u{2029}' || c
        == '\u{202F}' || c == '\u{205F}' || c == '\u{3000}'
}

/// What separates the words of a statement: white space or a comma.
pub open spec fn is_separator(c: char) -> bool {
    is_space(c) || c == ','
}

pub open spec fn is_ascii_letter(c: char) -> bool {
    'A' <= c <= 'Z' || 'a' <= c <= 'z'
}

pub open spec fn is_ascii_digit(c: char) -> bool {
    '0' <= c <= '9'
}

/// `c` with an ASCII lowercase letter made uppercase.
pub open spec fn upper(c: char) -> char {
    if 'a' <= c <= 'z' {
        (c as u32 - 32) as char
    } else {
        c
    }
}

pub fn to_upper(c: char) -> (u: char)
    ensures
        u == upper(c),
{
    if 'a' <= c && c <= 'z' {
        (c as u8 - 32) as char
    } else {
        c
    }
}

// ---------------------------------------------------------------------------
// Strings
// ---------------------------------------------------------------------------

/// The characters of `text`.
pub fn characters(text: &str) -> (list: Vec<char>)
    ensures
        list@ == text@,
{
    let mut list: Vec<char> = Vec::new();
    for c in it: text.chars()
        invariant
            list@ == it.seq().take(it.index() as int),
            it.seq() == text@,
    {
        list.push(c);
        assert(it.seq().take(it.index() + 1) =~= it.seq().take(it.index() as int).push(c));
    }
    assert(list@ =~= text@);
    list
}

/// Appends the characters of `piece`.
pub fn push_all(text: &mut String, piece: &[char])
    ensures
        final(text)@ == old(text)@ + piece@,
{
    let mut i: usize = 0;
    assert(text@ =~= old(text)@ + piece@.take(0));
    while i < piece.len()
        invariant
            i <= piece.len(),
            text@ == old(text)@ + piece@.take(i as int),
        decreases piece.len() - i,
    {
        text.push(piece[i]);
        i += 1;
        assert(text@ =~= old(text)@ + piece@.take(i as int));
    }
    assert(piece@.take(i as int) =~= piece@);
}

/// `piece` between two fixed texts.
pub fn message(before: &str, piece: &[char], after: &str) -> (text: String)
    ensures
        text@ == before@ + piece@ + after@,
{
    let mut text: String = before.to_owned();
    push_all(&mut text, piece);
    text.append(after);
    text
}

// ---------------------------------------------------------------------------
// Searching
// ---------------------------------------------------------------------------

/// Position of the first `c` in `s`, or the length of `s` where there is none.
pub open spec fn find(s: Seq<char>, c: char) -> int
    decreases s.len(),
{
    if s.len() == 0 || s[0] == c {
        0
    } else {
        1 + find(s.drop_first(), c)
    }
}

/// Position `n` is the first `c` of `s`, or its end without one, exactly if [`find`]
/// says so.
pub proof fn lemma_find(s: Seq<char>, c: char, n: int)
    ensures
        0 <= find(s, c) <= s.len(),
        find(s, c) < s.len() ==> s[find(s, c)] == c,
        forall|i: int| 0 <= i < find(s, c) ==> s[i] != c,
        ({
            &&& 0 <= n <= s.len()
            &&& forall|i: int| 0 <= i < n ==> s[i] != c
            &&& n < s.len() ==> s[n] == c
        }) ==> find(s, c) == n,
    decreases s.len(),
{
    if s.len() > 0 && s[0] != c {
        let t = s.drop_first();
        lemma_find(t, c, n - 1);
        assert forall|i: int| 0 <= i < find(s, c) implies s[i] != c by {
            if i > 0 {
                assert(s[i] == t[i - 1]);
            }
        }
        if 0 <= n <= s.len() && (forall|i: int| 0 <= i < n ==> s[i] != c) && (n < s.len() ==> s[n]
            == c) {
            assert(n > 0);
            assert forall|i: int| 0 <= i < n - 1 implies t[i] != c by {
                assert(t[i] == s[i + 1]);
            }
        }
    }
}

/// Position of the first `c` in `s`, or the length of `s` where there is none.
pub fn position(s: &[char], c: char) -> (n: usize)
    ensures
        n == find(s@, c),
        n <= s@.len(),
{
    let mut n: usize = 0;
    while n < s.len() && s[n] != c
        invariant
            n <= s.len(),
            forall|i: int| 0 <= i < n ==> s@[i] != c,
        decreases s.len() - n,
    {
        n += 1;
    }
    proof {
        lemma_find(s@, c, n as int);
    }
    n
}

/// Whether two texts are the same.
pub fn same(a: &[char], b: &[char]) -> (yes: bool)
    ensures
        yes == (a@ == b@),
{
    if a.len() != b.len() {
        return false;
    }
    let mut i: usize = 0;
    while i < a.len()
        invariant
            i <= a.len() == b.len(),
            forall|k: int| 0 <= k < i ==> a@[k] == b@[k],
        decreases a.len() - i,
    {
        if a[i] != b[i] {
            return false;
        }
        i += 1;
    }
    assert(a@ =~= b@);
    true
}

/// Two texts are the same but for the case of ASCII letters.
pub open spec fn same_ignoring_case(a: Seq<char>, b: Seq<char>) -> bool {
    a.len() == b.len() && forall|i: int| 0 <= i < a.len() ==> upper(#[trigger] a[i]) == upper(b[i])
}

/// Whether two texts are the same but for the case of ASCII letters.
pub fn eq_ignore_ascii_case(a: &[char], b: &[char]) -> (yes: bool)
    ensures
        yes == same_ignoring_case(a@, b@),
{
    if a.len() != b.len() {
        return false;
    }
    let mut i: usize = 0;
    while i < a.len()
        invariant
            i <= a.len() == b.len(),
            forall|k: int| 0 <= k < i ==> upper(#[trigger] a@[k]) == upper(b@[k]),
        decreases a.len() - i,
    {
        if to_upper(a[i]) != to_upper(b[i]) {
            return false;
        }
        i += 1;
    }
    true
}

// ---------------------------------------------------------------------------
// Lines and words
// ---------------------------------------------------------------------------

/// The first line of `s` without its line ending, which is a line feed or a
/// carriage return and a line feed. The last line needs no ending.
pub open spec fn first_line(s: Seq<char>) -> Seq<char> {
    let n = find(s, '\n');
    if n < s.len() && n > 0 && s[n - 1] == '\r' {
        s.take(n - 1)
    } else {
        s.take(n)
    }
}

/// What follows the first line of `s`.
pub open spec fn other_lines(s: Seq<char>) -> Seq<char> {
    let n = find(s, '\n');
    if n < s.len() {
        s.skip(n + 1)
    } else {
        Seq::empty()
    }
}

/// `s` without the white space it begins with.
pub open spec fn trim_start(s: Seq<char>) -> Seq<char>
    decreases s.len(),
{
    if s.len() > 0 && is_space(s[0]) {
        trim_start(s.drop_first())
    } else {
        s
    }
}

/// `s` without the white space it ends with.
pub open spec fn trim_end(s: Seq<char>) -> Seq<char>
    decreases s.len(),
{
    if s.len() > 0 && is_space(s.last()) {
        trim_end(s.drop_last())
    } else {
        s
    }
}

/// `s` without the white space at its two ends.
pub open spec fn trim(s: Seq<char>) -> Seq<char> {
    trim_end(trim_start(s))
}

/// How many characters of `s` come before its first separator.
pub open spec fn word_length(s: Seq<char>) -> int
    decreases s.len(),
{
    if s.len() == 0 || is_separator(s[0]) {
        0
    } else {
        1 + word_length(s.drop_first())
    }
}

pub proof fn lemma_word_length_bound(s: Seq<char>)
    ensures
        0 <= word_length(s) <= s.len(),
    decreases s.len(),
{
    if s.len() > 0 && !is_separator(s[0]) {
        lemma_word_length_bound(s.drop_first());
    }
}

/// The words of `s`: its longest stretches without a separator.
pub open spec fn words(s: Seq<char>) -> Seq<Seq<char>>
    decreases s.len(),
{
    if s.len() == 0 {
        Seq::empty()
    } else if is_separator(s[0]) {
        words(s.drop_first())
    } else {
        proof {
            lemma_word_length_bound(s.drop_first());
        }
        let n = 1 + word_length(s.drop_first());
        seq![s.take(n)] + words(s.skip(n))
    }
}

/// `s` without the white space at its two ends.
pub fn trimmed(s: &[char]) -> (t: &[char])
    ensures
        t@ == trim(s@),
        t@.len() <= s@.len(),
{
    let mut lo: usize = 0;
    assert(s@.skip(0) =~= s@);
    while lo < s.len() && white_space(s[lo])
        invariant
            lo <= s.len(),
            trim_start(s@) == trim_start(s@.skip(lo as int)),
        decreases s.len() - lo,
    {
        assert(s@.skip(lo as int).drop_first() =~= s@.skip(lo + 1));
        lo += 1;
    }
    let mut hi: usize = s.len();
    assert(s@.subrange(lo as int, hi as int) =~= s@.skip(lo as int));
    while hi > lo && white_space(s[hi - 1])
        invariant
            lo <= hi <= s.len(),
            trim_start(s@) == s@.skip(lo as int),
            trim_end(s@.skip(lo as int)) == trim_end(s@.subrange(lo as int, hi as int)),
        decreases hi,
    {
        assert(s@.subrange(lo as int, hi as int).drop_last() =~= s@.subrange(lo as int, hi - 1));
        hi -= 1;
    }
    slice_subrange(s, lo, hi)
}

/// The views of a list of texts.
pub open spec fn texts(list: Seq<&[char]>) -> Seq<Seq<char>> {
    list.map_values(|t: &[char]| t@)
}

/// Whether `c` separates words.
pub fn separator(c: char) -> (yes: bool)
    ensures
        yes == is_separator(c),
{
    white_space(c) || c == ','
}

/// A word ends where the first separator stands, or at the end of the text.
pub proof fn lemma_word_length(s: Seq<char>, n: int)
    requires
        0 <= n <= s.len(),
        forall|i: int| 0 <= i < n ==> !is_separator(#[trigger] s[i]),
        n < s.len() ==> is_separator(s[n]),
    ensures
        word_length(s) == n,
    decreases s.len(),
{
    if n > 0 {
        lemma_word_length(s.drop_first(), n - 1);
    }
}

/// A word has no separator in it, and ends before one or at the end of the text.
pub proof fn lemma_word_end(s: Seq<char>)
    ensures
        0 <= word_length(s) <= s.len(),
        forall|i: int| 0 <= i < word_length(s) ==> !is_separator(#[trigger] s[i]),
        word_length(s) < s.len() ==> is_separator(s[word_length(s)]),
    decreases s.len(),
{
    if s.len() > 0 && !is_separator(s[0]) {
        let t = s.drop_first();
        lemma_word_end(t);
        assert forall|i: int| 0 <= i < word_length(s) implies !is_separator(#[trigger] s[i]) by {
            if i > 0 {
                assert(s[i] == t[i - 1]);
            }
        }
        if word_length(s) < s.len() {
            assert(s[word_length(s)] == t[word_length(t)]);
        }
    }
}

/// A separator is as good as another: texts that differ in which separators they
/// have only have the same words.
pub proof fn lemma_words_alike(s: Seq<char>, t: Seq<char>)
    requires
        s.len() == t.len(),
        forall|i: int|
            0 <= i < s.len() ==> #[trigger] s[i] == t[i] || is_separator(s[i]) && is_separator(t[i]),
    ensures
        words(s) == words(t),
    decreases s.len(),
{
    if s.len() > 0 {
        if is_separator(s[0]) {
            assert forall|i: int| 0 <= i < s.len() - 1 implies #[trigger] s.drop_first()[i]
                == t.drop_first()[i] || is_separator(s.drop_first()[i]) && is_separator(
                t.drop_first()[i],
            ) by {
                assert(s.drop_first()[i] == s[i + 1]);
            }
            lemma_words_alike(s.drop_first(), t.drop_first());
        } else {
            let n = 1 + word_length(s.drop_first());
            lemma_word_end(s.drop_first());
            assert forall|i: int| 0 <= i < n implies !is_separator(s[i]) && s[i] == t[i] by {
                if i > 0 {
                    assert(s[i] == s.drop_first()[i - 1]);
                }
            }
            if n < s.len() {
                assert(s[n] == s.drop_first()[n - 1]);
            }
            lemma_word_length(t.drop_first(), n - 1);
            assert(s.take(n) =~= t.take(n));
            assert forall|i: int| 0 <= i < s.len() - n implies #[trigger] s.skip(n)[i]
                == t.skip(n)[i] || is_separator(s.skip(n)[i]) && is_separator(t.skip(n)[i]) by {
                assert(s.skip(n)[i] == s[i + n]);
            }
            lemma_words_alike(s.skip(n), t.skip(n));
        }
    }
}

/// Separators before a text make no difference to its words.
pub proof fn lemma_words_behind(lead: Seq<char>, s: Seq<char>)
    requires
        forall|i: int| 0 <= i < lead.len() ==> is_separator(#[trigger] lead[i]),
    ensures
        words(lead + s) == words(s),
    decreases lead.len(),
{
    if lead.len() > 0 {
        assert((lead + s).drop_first() =~= lead.drop_first() + s);
        lemma_words_behind(lead.drop_first(), s);
    } else {
        assert(lead + s =~= s);
    }
}

/// Separators behind a text make no difference to its words.
pub proof fn lemma_words_before(s: Seq<char>, tail: Seq<char>)
    requires
        forall|i: int| 0 <= i < tail.len() ==> is_separator(#[trigger] tail[i]),
    ensures
        words(s + tail) == words(s),
    decreases s.len(),
{
    let whole = s + tail;
    if s.len() == 0 {
        assert(whole =~= tail + s);
        lemma_words_behind(tail, s);
    } else if is_separator(s[0]) {
        assert(whole.drop_first() =~= s.drop_first() + tail);
        lemma_words_before(s.drop_first(), tail);
    } else {
        let n = 1 + word_length(s.drop_first());
        lemma_word_end(s.drop_first());
        assert forall|i: int| 0 <= i < n - 1 implies !is_separator(
            #[trigger] whole.drop_first()[i],
        ) by {
            assert(whole.drop_first()[i] == s.drop_first()[i]);
        }
        if n < s.len() {
            assert(whole.drop_first()[n - 1] == s.drop_first()[n - 1]);
        } else if tail.len() > 0 {
            assert(whole.drop_first()[n - 1] == tail[0]);
        }
        lemma_word_length(whole.drop_first(), n - 1);
        assert(whole.take(n) =~= s.take(n));
        assert(whole.skip(n) =~= s.skip(n) + tail);
        lemma_words_before(s.skip(n), tail);
    }
}

/// A word is the first word of a text that goes on with a separator.
pub proof fn lemma_first_word(word: Seq<char>, rest: Seq<char>)
    requires
        word.len() > 0,
        forall|i: int| 0 <= i < word.len() ==> !is_separator(#[trigger] word[i]),
        rest.len() > 0 ==> is_separator(rest[0]),
    ensures
        words(word + rest) == seq![word] + words(rest),
{
    let s = word + rest;
    lemma_word_length(s.drop_first(), word.len() - 1);
    assert(s.take(word.len() as int) =~= word);
    assert(s.skip(word.len() as int) =~= rest);
}

/// What [`trim`] leaves: everything between the white space at the two ends.
pub proof fn lemma_trim(s: Seq<char>, from: int, to: int)
    requires
        0 <= from <= to <= s.len(),
        forall|i: int| 0 <= i < from ==> is_space(#[trigger] s[i]),
        forall|i: int| to <= i < s.len() ==> is_space(#[trigger] s[i]),
        from < to ==> !is_space(s[from]) && !is_space(s[to - 1]),
    ensures
        trim(s) == s.subrange(from, to),
    decreases s.len(),
{
    if s.len() == 0 {
        assert(s.subrange(from, to) =~= s);
    } else if from > 0 {
        let t = s.drop_first();
        assert forall|i: int| 0 <= i < from - 1 implies is_space(#[trigger] t[i]) by {
            assert(t[i] == s[i + 1]);
        }
        assert forall|i: int| to - 1 <= i < t.len() implies is_space(#[trigger] t[i]) by {
            assert(t[i] == s[i + 1]);
        }
        assert(from < to ==> t[from - 1] == s[from] && t[to - 2] == s[to - 1]);
        assert(is_space(s[0]));
        lemma_trim(t, from - 1, to - 1);
        assert(t.subrange(from - 1, to - 1) =~= s.subrange(from, to));
    } else if to < s.len() {
        assert(is_space(s.last()));
        if from < to {
            assert(trim_start(s) == s);
            lemma_trim(s.drop_last(), from, to);
            assert(trim_start(s.drop_last()) == s.drop_last());
            assert(s.drop_last().subrange(from, to) =~= s.subrange(from, to));
        } else {
            lemma_all_space(s);
            assert(s.subrange(from, to) =~= Seq::empty());
        }
    } else {
        assert(s.subrange(0, s.len() as int) =~= s);
    }
}

proof fn lemma_all_space(s: Seq<char>)
    requires
        forall|i: int| 0 <= i < s.len() ==> is_space(#[trigger] s[i]),
    ensures
        trim(s) == Seq::<char>::empty(),
    decreases s.len(),
{
    if s.len() > 0 {
        lemma_all_space(s.drop_first());
    } else {
        assert(s =~= Seq::empty());
    }
}

/// Where [`trim`] cuts.
pub proof fn lemma_trim_bounds(s: Seq<char>) -> (bounds: (int, int))
    ensures
        ({
            let (from, to) = bounds;
            &&& 0 <= from <= to <= s.len()
            &&& forall|i: int| 0 <= i < from ==> is_space(#[trigger] s[i])
            &&& forall|i: int| to <= i < s.len() ==> is_space(#[trigger] s[i])
            &&& from < to ==> !is_space(s[from]) && !is_space(s[to - 1])
            &&& trim(s) == s.subrange(from, to)
        }),
    decreases s.len(),
{
    let bounds: (int, int) = if s.len() == 0 {
        (0, 0)
    } else if is_space(s[0]) {
        let t = s.drop_first();
        let (from, to) = lemma_trim_bounds(t);
        assert forall|i: int| 0 <= i < from + 1 implies is_space(#[trigger] s[i]) by {
            if i > 0 {
                assert(s[i] == t[i - 1]);
            }
        }
        assert forall|i: int| to + 1 <= i < s.len() implies is_space(#[trigger] s[i]) by {
            assert(s[i] == t[i - 1]);
        }
        (from + 1, to + 1)
    } else if is_space(s.last()) {
        let t = s.drop_last();
        let (from, to) = lemma_trim_bounds(t);
        assert(t[0] == s[0]);
        assert(from == 0) by {
            if from > 0 {
                assert(is_space(t[0]));
            }
        }
        assert(to > 0) by {
            if to == 0 {
                assert(is_space(t[0]));
            }
        }
        assert forall|i: int| to <= i < s.len() implies is_space(#[trigger] s[i]) by {
            if i < t.len() {
                assert(s[i] == t[i]);
            }
        }
        (from, to)
    } else {
        (0, s.len() as int)
    };
    lemma_trim(s, bounds.0, bounds.1);
    bounds
}

/// The words of `s`.
pub fn split_words(s: &[char]) -> (list: Vec<&[char]>)
    ensures
        texts(list@) == words(s@),
{
    let mut list: Vec<&[char]> = Vec::new();
    let mut at: usize = 0;
    assert(s@.skip(0) =~= s@);
    assert(texts(list@) + words(s@) =~= words(s@));
    while at < s.len()
        invariant
            at <= s.len(),
            texts(list@) + words(s@.skip(at as int)) == words(s@),
        decreases s.len() - at,
    {
        let ghost here = s@.skip(at as int);
        if separator(s[at]) {
            assert(here.drop_first() =~= s@.skip(at + 1));
            at += 1;
        } else {
            let mut end: usize = at + 1;
            while end < s.len() && !separator(s[end])
                invariant
                    at < end <= s.len(),
                    forall|i: int| at < i < end ==> !is_separator(s@[i]),
                decreases s.len() - end,
            {
                end += 1;
            }
            let word: &[char] = slice_subrange(s, at, end);
            let ghost before = list@;
            list.push(word);
            proof {
                lemma_word_length(here.drop_first(), end - at - 1);
                assert(here.take(end - at) =~= word@);
                assert(here.skip(end - at) =~= s@.skip(end as int));
                assert(texts(list@) =~= texts(before) + seq![word@]);
                assert(texts(list@) + words(s@.skip(end as int)) =~= texts(before) + (seq![word@]
                    + words(s@.skip(end as int))));
            }
            at = end;
        }
    }
    assert(s@.skip(at as int) =~= Seq::empty());
    assert(texts(list@) + words(s@.skip(at as int)) =~= texts(list@));
    list
}

} // verus!
