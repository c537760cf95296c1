//! Ways of writing the same program: what may be changed in a source text without a
//! change to what it assembles to.

use vstd::prelude::*;

use crate::assembly::{
    assembly, blank, code, diagnosed, encode, encode_from, lemma_other_lines_shorter, read_line,
    read_lines, read_statement, Diagnostic, Listing, Placed,
};
use crate::source_laws::{
    blank_lines_are_ignored, comments_are_ignored, statements_are_case_insensitive,
};
use crate::text::{
    find, first_line, is_separator, is_space, lemma_find, lemma_first_word, lemma_trim,
    lemma_trim_bounds, lemma_words_alike, lemma_words_before, lemma_words_behind, other_lines,
    same_ignoring_case, trim, upper, words,
};

verus! {

// ---------------------------------------------------------------------------
// Sources that are alike
// ---------------------------------------------------------------------------

/// The label that a line defines, where it defines one.
pub open spec fn label_part(raw: Seq<char>) -> Option<Seq<char>> {
    let text = code(raw);
    let colon = find(text, ':');
    if colon < text.len() {
        Some(trim(text.take(colon)))
    } else {
        None
    }
}

/// The statement of a line, behind its label.
pub open spec fn statement_part(raw: Seq<char>) -> Seq<char> {
    let text = code(raw);
    let colon = find(text, ':');
    if colon < text.len() {
        trim(text.skip(colon + 1))
    } else {
        text
    }
}

/// The same words but for the case of the first, which is the mnemonic.
pub open spec fn alike_words(t: Seq<Seq<char>>, u: Seq<Seq<char>>) -> bool {
    &&& t.len() == u.len()
    &&& t.len() > 0 ==> same_ignoring_case(t[0], u[0])
    &&& forall|i: int| 1 <= i < t.len() ==> t[i] == u[i]
}

/// The two lines define the same label, if any, and have the same words in their
/// statements but for the case of the mnemonic. They may differ in their comments, in
/// the white space around what they say, and in what separates their words.
pub open spec fn alike_lines(a: Seq<char>, b: Seq<char>) -> bool {
    &&& label_part(a) == label_part(b)
    &&& statement_part(a).len() == 0 <==> statement_part(b).len() == 0
    &&& alike_words(words(statement_part(a)), words(statement_part(b)))
}

/// The line `raw` by itself, or nothing where it says nothing.
pub open spec fn said_by(raw: Seq<char>) -> Seq<Seq<char>> {
    if code(raw).len() == 0 {
        Seq::empty()
    } else {
        seq![raw]
    }
}

/// The lines of `source` that say anything, in order: not those that are blank or
/// hold a comment only.
pub open spec fn said(source: Seq<char>) -> Seq<Seq<char>>
    decreases source.len(),
{
    if source.len() == 0 {
        Seq::empty()
    } else {
        proof {
            lemma_other_lines_shorter(source);
        }
        said_by(first_line(source)) + said(other_lines(source))
    }
}

/// The two sources are alike line by line, the lines that say nothing left out.
pub open spec fn alike(a: Seq<char>, b: Seq<char>) -> bool {
    &&& said(a).len() == said(b).len()
    &&& forall|i: int| 0 <= i < said(a).len() ==> alike_lines(#[trigger] said(a)[i], said(b)[i])
}

// ---------------------------------------------------------------------------
// Reading without line numbers
// ---------------------------------------------------------------------------

/// `listing` without the line numbers of its instructions.
spec fn unnumbered(listing: Listing) -> Listing {
    Listing {
        insns: listing.insns.map_values(|placed: Placed| Placed { line: 0, ..placed }),
        ..listing
    }
}

/// Reads the lines `raws` into `so_far`, without line numbers.
spec fn gather(so_far: Listing, raws: Seq<Seq<char>>) -> Option<Result<Listing, Diagnostic>>
    decreases raws.len(),
{
    if raws.len() == 0 {
        Some(Ok(so_far))
    } else {
        match read_line(so_far, 0, raws[0]) {
            Some(Ok(listing)) => gather(listing, raws.drop_first()),
            other => other,
        }
    }
}

proof fn lemma_unnumbered_statement(so_far: Listing, line: nat, text: Seq<char>)
    ensures
        match read_statement(so_far, line, text) {
            Some(Ok(listing)) => read_statement(unnumbered(so_far), 0, text) == Some(
                Ok::<Listing, Diagnostic>(unnumbered(listing)),
            ),
            _ => !(read_statement(unnumbered(so_far), 0, text) matches Some(Ok(_))),
        },
{
    if let Some(Ok(listing)) = read_statement(so_far, line, text) {
        if text.len() > 0 {
            let insn = listing.insns.last();
            assert(unnumbered(listing).insns =~= unnumbered(so_far).insns.push(
                Placed { line: 0, ..insn },
            ));
        }
    }
}

proof fn lemma_unnumbered_line(so_far: Listing, line: nat, raw: Seq<char>)
    ensures
        match read_line(so_far, line, raw) {
            Some(Ok(listing)) => read_line(unnumbered(so_far), 0, raw) == Some(
                Ok::<Listing, Diagnostic>(unnumbered(listing)),
            ),
            _ => !(read_line(unnumbered(so_far), 0, raw) matches Some(Ok(_))),
        },
{
    let text = code(raw);
    let colon = find(text, ':');
    let with_label = Listing {
        labels: so_far.labels.push((trim(text.take(colon)), so_far.size)),
        ..so_far
    };
    lemma_unnumbered_statement(so_far, line, text);
    lemma_unnumbered_statement(with_label, line, trim(text.skip(colon + 1)));
}

/// What is read of a source is what is read of its lines that say anything, but for
/// the line numbers.
proof fn lemma_gather(so_far: Listing, line: nat, source: Seq<char>)
    ensures
        match read_lines(so_far, line, source) {
            Some(Ok(listing)) => gather(unnumbered(so_far), said(source)) == Some(
                Ok::<Listing, Diagnostic>(unnumbered(listing)),
            ),
            _ => !(gather(unnumbered(so_far), said(source)) matches Some(Ok(_))),
        },
    decreases source.len(),
{
    if source.len() > 0 {
        let raw = first_line(source);
        let rest = other_lines(source);
        lemma_other_lines_shorter(source);
        if code(raw).len() == 0 {
            blank_lines_are_ignored(so_far, line, raw);
            assert(said(source) =~= said(rest));
            lemma_gather(so_far, line + 1, rest);
        } else {
            lemma_unnumbered_line(so_far, line, raw);
            assert(said(source)[0] == raw);
            assert(said(source).drop_first() =~= said(rest));
            if let Some(Ok(listing)) = read_line(so_far, line, raw) {
                lemma_gather(listing, line + 1, rest);
            }
        }
    }
}

/// Lines that are alike are read alike.
proof fn lemma_read_alike(so_far: Listing, a: Seq<char>, b: Seq<char>)
    requires
        alike_lines(a, b),
        read_line(so_far, 0, a) matches Some(Ok(_)),
    ensures
        read_line(so_far, 0, a) == read_line(so_far, 0, b),
{
    let t = words(statement_part(a));
    let u = words(statement_part(b));
    if t.len() > 0 {
        statements_are_case_insensitive(t, u);
    }
}

proof fn lemma_gather_alike(so_far: Listing, ra: Seq<Seq<char>>, rb: Seq<Seq<char>>)
    requires
        ra.len() == rb.len(),
        forall|i: int| 0 <= i < ra.len() ==> alike_lines(#[trigger] ra[i], rb[i]),
        gather(so_far, ra) matches Some(Ok(_)),
    ensures
        gather(so_far, ra) == gather(so_far, rb),
    decreases ra.len(),
{
    if ra.len() > 0 {
        lemma_read_alike(so_far, ra[0], rb[0]);
        let listing = read_line(so_far, 0, ra[0])->0->Ok_0;
        assert forall|i: int| 0 <= i < ra.len() - 1 implies alike_lines(
            #[trigger] ra.drop_first()[i],
            rb.drop_first()[i],
        ) by {
            assert(alike_lines(ra[i + 1], rb[i + 1]));
        }
        lemma_gather_alike(listing, ra.drop_first(), rb.drop_first());
    }
}

/// Line numbers make no difference to the bytes.
proof fn lemma_unnumbered_bytes(listing: Listing, k: int)
    requires
        0 <= k,
    ensures
        match encode_from(listing, k) {
            Ok(bytes) => encode_from(unnumbered(listing), k) == Ok::<Seq<u8>, Diagnostic>(bytes),
            Err(_) => encode_from(unnumbered(listing), k) is Err,
        },
    decreases listing.insns.len() - k,
{
    if k < listing.insns.len() {
        let plain = unnumbered(listing);
        assert(plain.insns[k] == (Placed { line: 0, ..listing.insns[k] }));
        assert(match encode(listing, listing.insns[k]) {
            Ok(bytes) => encode(plain, plain.insns[k]) == Ok::<Seq<u8>, Diagnostic>(bytes),
            Err(_) => encode(plain, plain.insns[k]) is Err,
        });
        lemma_unnumbered_bytes(listing, k + 1);
    }
}

proof fn lemma_alike_assemble(a: Seq<char>, b: Seq<char>)
    requires
        alike(a, b),
    ensures
        assembly(a) matches Some(Ok(bytes)) ==> assembly(b) == Some(
            Ok::<Seq<u8>, Diagnostic>(bytes),
        ),
{
    if let Some(Ok(bytes)) = assembly(a) {
        lemma_gather(blank(), 1, a);
        lemma_gather(blank(), 1, b);
        lemma_gather_alike(unnumbered(blank()), said(a), said(b));
        lemma_unnumbered_bytes(read_lines(blank(), 1, a)->0->Ok_0, 0);
        lemma_unnumbered_bytes(read_lines(blank(), 1, b)->0->Ok_0, 0);
    }
}

/// Sources that are alike assemble to the same bytes, if one of them assembles at
/// all: the case of mnemonics, comments, blank and comment-only lines, the white
/// space around lines and what separates operands make no difference.
pub proof fn notation_makes_no_difference(a: Seq<char>, b: Seq<char>)
    requires
        alike(a, b),
    ensures
        assembly(a) matches Some(Ok(bytes)) ==> assembly(b) == Some(
            Ok::<Seq<u8>, Diagnostic>(bytes),
        ),
        assembly(b) matches Some(Ok(bytes)) ==> assembly(a) == Some(
            Ok::<Seq<u8>, Diagnostic>(bytes),
        ),
        diagnosed(a) is Ok <==> diagnosed(b) is Ok,
        diagnosed(a) is Ok ==> diagnosed(a) == diagnosed(b),
{
    assert forall|i: int| 0 <= i < said(b).len() implies alike_lines(
        #[trigger] said(b)[i],
        said(a)[i],
    ) by {
        assert(alike_lines(said(a)[i], said(b)[i]));
        let t = words(statement_part(said(a)[i]));
        let u = words(statement_part(said(b)[i]));
        assert(alike_words(u, t));
    }
    lemma_alike_assemble(a, b);
    lemma_alike_assemble(b, a);
}

// ---------------------------------------------------------------------------
// Changes to a source
// ---------------------------------------------------------------------------

/// A line of a source without its ending.
pub open spec fn is_line(line: Seq<char>) -> bool {
    &&& forall|i: int| 0 <= i < line.len() ==> #[trigger] line[i] != '\n'
    &&& line.len() > 0 ==> line.last() != '\r'
}

/// What may stand between a line and the rest of the source: a line feed, with or
/// without a carriage return before it, or nothing behind the last line.
pub open spec fn is_ending(ending: Seq<char>, rest: Seq<char>) -> bool {
    ||| ending == seq!['\n']
    ||| ending == seq!['\r', '\n']
    ||| ending.len() == 0 && rest.len() == 0
}

/// `before` is nothing or whole lines.
pub open spec fn is_whole_lines(before: Seq<char>) -> bool {
    before.len() > 0 ==> before.last() == '\n'
}

proof fn lemma_said_after(before: Seq<char>, rest: Seq<char>)
    requires
        is_whole_lines(before),
    ensures
        said(before + rest) == said(before) + said(rest),
    decreases before.len(),
{
    let whole = before + rest;
    if before.len() == 0 {
        assert(whole =~= rest);
        assert(said(before) + said(rest) =~= said(rest));
    } else {
        let n = find(before, '\n');
        lemma_find(before, '\n', n);
        assert(n < before.len());
        assert forall|i: int| 0 <= i < n implies whole[i] != '\n' by {
            assert(whole[i] == before[i]);
        }
        lemma_find(whole, '\n', n);
        assert(whole.take(n) =~= before.take(n));
        assert(n > 0 ==> whole.take(n - 1) =~= before.take(n - 1));
        assert(first_line(whole) == first_line(before));
        assert(other_lines(whole) =~= other_lines(before) + rest);
        assert(is_whole_lines(other_lines(before))) by {
            if other_lines(before).len() > 0 {
                assert(other_lines(before).last() == before.last());
            }
        }
        lemma_said_after(other_lines(before), rest);
        assert(said(whole) =~= said(before) + said(rest));
    }
}

proof fn lemma_said_line(line: Seq<char>, ending: Seq<char>, rest: Seq<char>)
    requires
        is_line(line),
        is_ending(ending, rest),
    ensures
        said(line + ending + rest) == said_by(line) + said(rest),
{
    let whole = line + ending + rest;
    if ending.len() == 0 {
        assert(whole =~= line);
        lemma_find(whole, '\n', whole.len() as int);
        assert(whole.take(whole.len() as int) =~= whole);
        if line.len() == 0 {
            assert(line.take(find(line, ';')) =~= line);
            assert(said_by(line) =~= Seq::empty());
        }
        assert(said(rest) =~= Seq::empty());
        assert(said(other_lines(whole)) =~= Seq::empty());
        assert(said(whole) =~= said_by(line) + said(rest));
    } else {
        let n = line.len() + ending.len() - 1;
        assert forall|i: int| 0 <= i < n implies whole[i] != '\n' by {
            if i < line.len() {
                assert(whole[i] == line[i]);
            }
        }
        assert(whole[n] == ending.last());
        lemma_find(whole, '\n', n);
        if ending.len() == 1 {
            assert(n > 0 ==> whole[n - 1] == line.last());
            assert(whole.take(n) =~= line);
        } else {
            assert(whole[n - 1] == '\r');
            assert(whole.take(n - 1) =~= line);
        }
        assert(whole.skip(n + 1) =~= rest);
    }
}

proof fn lemma_said_within(before: Seq<char>, line: Seq<char>, ending: Seq<char>, rest: Seq<char>)
    requires
        is_whole_lines(before),
        is_line(line),
        is_ending(ending, rest),
    ensures
        said(before + line + ending + rest) == said(before) + said_by(line) + said(rest),
{
    lemma_said_line(line, ending, rest);
    lemma_said_after(before, line + ending + rest);
    assert(before + line + ending + rest =~= before + (line + ending + rest));
    assert(said(before) + (said_by(line) + said(rest)) =~= said(before) + said_by(line) + said(rest));
}

/// A line that says nothing, blank or a comment only, may be put in anywhere.
pub proof fn a_silent_line_may_be_inserted(
    before: Seq<char>,
    line: Seq<char>,
    ending: Seq<char>,
    rest: Seq<char>,
)
    requires
        is_whole_lines(before),
        is_line(line),
        is_ending(ending, rest),
        code(line).len() == 0,
    ensures
        alike(before + rest, before + line + ending + rest),
{
    lemma_said_within(before, line, ending, rest);
    lemma_said_after(before, rest);
    assert(said(before) + said_by(line) + said(rest) =~= said(before) + said(rest));
    assert forall|raw: Seq<char>| #[trigger] alike_lines(raw, raw) by {
        assert(alike_words(words(statement_part(raw)), words(statement_part(raw))));
    }
}

/// A line may be replaced by one that is alike.
pub proof fn a_line_may_be_rewritten(
    before: Seq<char>,
    line: Seq<char>,
    rewritten: Seq<char>,
    ending: Seq<char>,
    rest: Seq<char>,
)
    requires
        is_whole_lines(before),
        is_line(line),
        is_line(rewritten),
        is_ending(ending, rest),
        alike_lines(line, rewritten),
    ensures
        alike(before + line + ending + rest, before + rewritten + ending + rest),
{
    lemma_said_within(before, line, ending, rest);
    lemma_said_within(before, rewritten, ending, rest);
    lemma_silent_alike(line, rewritten);
    assert forall|raw: Seq<char>| #[trigger] alike_lines(raw, raw) by {
        assert(alike_words(words(statement_part(raw)), words(statement_part(raw))));
    }
    let a = said(before) + said_by(line) + said(rest);
    let b = said(before) + said_by(rewritten) + said(rest);
    assert forall|i: int| 0 <= i < a.len() implies alike_lines(#[trigger] a[i], b[i]) by {
        if i != said(before).len() {
            assert(a[i] == b[i]);
        }
    }
}

/// A line says nothing exactly if it has no label and no statement.
proof fn lemma_silent_alike(a: Seq<char>, b: Seq<char>)
    requires
        label_part(a) == label_part(b),
        statement_part(a).len() == 0 <==> statement_part(b).len() == 0,
    ensures
        code(a).len() == 0 <==> code(b).len() == 0,
{
    lemma_find(code(a), ':', 0);
    lemma_find(code(b), ':', 0);
}

// ---------------------------------------------------------------------------
// Changes to a line
// ---------------------------------------------------------------------------

/// A comment may be added to a line.
pub proof fn a_comment_may_be_added(raw: Seq<char>, comment: Seq<char>)
    ensures
        alike_lines(raw, raw + seq![';'] + comment),
{
    comments_are_ignored(raw, comment);
    let t = words(statement_part(raw));
    assert(alike_words(t, t));
}

/// White space may be put around a line.
pub proof fn white_space_may_be_added(lead: Seq<char>, raw: Seq<char>, tail: Seq<char>)
    requires
        forall|i: int| 0 <= i < lead.len() ==> is_space(#[trigger] lead[i]),
        forall|i: int| 0 <= i < tail.len() ==> is_space(#[trigger] tail[i]),
    ensures
        alike_lines(raw, lead + raw + tail),
{
    let padded = lead + raw + tail;
    let stop = find(raw, ';');
    let padded_stop = if stop < raw.len() {
        lead.len() + stop
    } else {
        padded.len() as int
    };
    lemma_find(raw, ';', stop);
    assert forall|i: int| 0 <= i < padded_stop implies padded[i] != ';' by {
        if i < lead.len() {
            assert(padded[i] == lead[i]);
        } else if i < lead.len() + raw.len() {
            assert(padded[i] == raw[i - lead.len()]);
        } else {
            assert(padded[i] == tail[i - lead.len() - raw.len()]);
        }
    }
    assert(stop < raw.len() ==> padded[padded_stop] == raw[stop]);
    lemma_find(padded, ';', padded_stop);
    let x = raw.take(stop);
    let y = padded.take(padded_stop);
    let (from, to) = lemma_trim_bounds(x);
    let n = lead.len();
    assert forall|i: int| 0 <= i < x.len() implies y[i + n] == #[trigger] x[i] by {}
    assert forall|i: int| 0 <= i < n + from implies is_space(#[trigger] y[i]) by {
        if i < n {
            assert(y[i] == lead[i]);
        } else {
            assert(y[i] == x[i - n]);
        }
    }
    assert forall|i: int| n + to <= i < y.len() implies is_space(#[trigger] y[i]) by {
        if i < n + x.len() {
            assert(y[i] == x[i - n]);
        } else {
            assert(y[i] == tail[i - n - raw.len()]);
        }
    }
    assert(from < to ==> y[n + from] == x[from] && y[n + to - 1] == x[to - 1]);
    lemma_trim(y, n + from, n + to);
    assert(y.subrange(n + from, n + to) =~= x.subrange(from, to));
    let t = words(statement_part(raw));
    assert(alike_words(t, t));
}

/// Where the statement of a line begins: behind the colon of its label, or at the
/// beginning of the line.
pub open spec fn statement_start(raw: Seq<char>) -> int {
    if find(raw, ':') < find(raw, ';') {
        find(raw, ':') + 1
    } else {
        0
    }
}

/// The statement of a line as it is written, from its start to the comment.
pub open spec fn written_statement(raw: Seq<char>) -> Seq<char> {
    raw.subrange(statement_start(raw), find(raw, ';'))
}

/// The parts of a line do not depend on the white space around it.
proof fn lemma_parts(raw: Seq<char>)
    ensures
        0 <= statement_start(raw) <= find(raw, ';') <= raw.len(),
        statement_part(raw) == trim(written_statement(raw)),
        label_part(raw) == (if find(raw, ':') < find(raw, ';') {
            Some(trim(raw.take(find(raw, ':'))))
        } else {
            None
        }),
{
    let stop = find(raw, ';');
    let colon = find(raw, ':');
    lemma_find(raw, ';', stop);
    lemma_find(raw, ':', colon);
    let x = raw.take(stop);
    let text = code(raw);
    let (from, to) = lemma_trim_bounds(x);
    if colon < stop {
        assert(x[colon] == ':');
        assert(from <= colon < to);
        assert forall|i: int| 0 <= i < colon - from implies text[i] != ':' by {
            assert(text[i] == raw[i + from]);
        }
        assert(text[colon - from] == ':');
        lemma_find(text, ':', colon - from);

        // The label: only white space was cut off before it.
        let name = raw.take(colon);
        let short = text.take(colon - from);
        let (l, r) = lemma_trim_bounds(short);
        assert forall|i: int| 0 <= i < short.len() implies name[i + from] == #[trigger] short[i] by {}
        assert forall|i: int| 0 <= i < from + l implies is_space(#[trigger] name[i]) by {
            if i < from {
                assert(name[i] == x[i]);
            } else {
                assert(name[i] == short[i - from]);
            }
        }
        assert forall|i: int| from + r <= i < name.len() implies is_space(#[trigger] name[i]) by {
            assert(name[i] == short[i - from]);
        }
        assert(l < r ==> name[from + l] == short[l] && name[from + r - 1] == short[r - 1]);
        lemma_trim(name, from + l, from + r);
        assert(name.subrange(from + l, from + r) =~= short.subrange(l, r));

        // The statement: only white space was cut off behind it.
        let written = written_statement(raw);
        let kept = text.skip(colon - from + 1);
        let (p, q) = lemma_trim_bounds(kept);
        assert forall|i: int| 0 <= i < kept.len() implies written[i] == #[trigger] kept[i] by {}
        assert forall|i: int| 0 <= i < p implies is_space(#[trigger] written[i]) by {
            assert(written[i] == kept[i]);
        }
        assert forall|i: int| q <= i < written.len() implies is_space(#[trigger] written[i]) by {
            if i < kept.len() {
                assert(written[i] == kept[i]);
            } else {
                assert(written[i] == x[i + colon + 1]);
            }
        }
        assert(p < q ==> written[p] == kept[p] && written[q - 1] == kept[q - 1]);
        lemma_trim(written, p, q);
        assert(written.subrange(p, q) =~= kept.subrange(p, q));
    } else {
        assert forall|i: int| 0 <= i < text.len() implies text[i] != ':' by {
            assert(text[i] == raw[i + from]);
        }
        lemma_find(text, ':', text.len() as int);
        assert(written_statement(raw) =~= x);
    }
}

/// The words of a text are those between the white space at its ends.
proof fn lemma_words_of_trim(s: Seq<char>)
    ensures
        words(trim(s)) == words(s),
{
    let (from, to) = lemma_trim_bounds(s);
    let lead = s.take(from);
    let tail = s.skip(to);
    assert forall|i: int| 0 <= i < lead.len() implies is_separator(#[trigger] lead[i]) by {
        assert(lead[i] == s[i]);
    }
    assert forall|i: int| 0 <= i < tail.len() implies is_separator(#[trigger] tail[i]) by {
        assert(tail[i] == s[i + to]);
    }
    lemma_words_before(trim(s), tail);
    lemma_words_behind(lead, trim(s) + tail);
    assert(s =~= lead + (trim(s) + tail));
}

/// A text with a character in it that is not white space does not trim to nothing.
proof fn lemma_trim_keeps(s: Seq<char>, i: int)
    requires
        0 <= i < s.len(),
        !is_space(s[i]),
    ensures
        trim(s).len() > 0,
{
    let (from, to) = lemma_trim_bounds(s);
    assert(from <= i < to);
}

/// The comma between two operands may be a space: any comma of a statement that has a
/// word may.
pub proof fn a_comma_may_be_a_space(raw: Seq<char>, word: int, comma: int)
    requires
        statement_start(raw) <= word < find(raw, ';'),
        !is_separator(raw[word]),
        statement_start(raw) <= comma < find(raw, ';'),
        raw[comma] == ',',
    ensures
        alike_lines(raw, raw.update(comma, ' ')),
{
    let changed = raw.update(comma, ' ');
    let stop = find(raw, ';');
    let colon = find(raw, ':');
    let start = statement_start(raw);
    lemma_find(raw, ';', stop);
    lemma_find(raw, ':', colon);
    lemma_parts(raw);
    lemma_find(changed, ';', stop);
    lemma_find(changed, ':', colon);
    lemma_parts(changed);
    if colon < stop {
        assert(changed.take(colon) =~= raw.take(colon));
    }
    let s = written_statement(raw);
    let t = written_statement(changed);
    assert forall|i: int| 0 <= i < s.len() implies #[trigger] s[i] == t[i] || is_separator(s[i])
        && is_separator(t[i]) by {
        assert(s[i] == raw[i + start] && t[i] == changed[i + start]);
    }
    lemma_words_alike(s, t);
    lemma_words_of_trim(s);
    lemma_words_of_trim(t);
    assert(s[word - start] == raw[word] && t[word - start] == raw[word]);
    lemma_trim_keeps(s, word - start);
    lemma_trim_keeps(t, word - start);
    assert(alike_words(words(s), words(t)));
}

/// The mnemonic, which is the first word of the statement of a line, may be written
/// in either case.
pub proof fn a_mnemonic_may_change_case(raw: Seq<char>, from: int, to: int, mnemonic: Seq<char>)
    requires
        statement_start(raw) <= from < to <= find(raw, ';'),
        forall|i: int| statement_start(raw) <= i < from ==> is_separator(#[trigger] raw[i]),
        forall|i: int| from <= i < to ==> !is_separator(#[trigger] raw[i]),
        to < find(raw, ';') ==> is_separator(raw[to]),
        same_ignoring_case(raw.subrange(from, to), mnemonic),
    ensures
        alike_lines(raw, raw.take(from) + mnemonic + raw.skip(to)),
{
    let changed = raw.take(from) + mnemonic + raw.skip(to);
    let old_word = raw.subrange(from, to);
    let stop = find(raw, ';');
    let colon = find(raw, ':');
    let start = statement_start(raw);
    lemma_find(raw, ';', stop);
    lemma_find(raw, ':', colon);
    assert forall|i: int| 0 <= i < mnemonic.len() implies {
        &&& !is_separator(#[trigger] mnemonic[i])
        &&& mnemonic[i] != ';'
        &&& mnemonic[i] == ':' ==> raw[i + from] == ':'
    } by {
        assert(upper(old_word[i]) == upper(mnemonic[i]));
        assert(old_word[i] == raw[i + from]);
    }
    assert forall|i: int| 0 <= i < raw.len() && !(from <= i < to) implies #[trigger] changed[i]
        == raw[i] by {}
    assert forall|i: int| from <= i < to implies #[trigger] changed[i] == mnemonic[i - from] by {}
    assert forall|i: int| 0 <= i < stop implies changed[i] != ';' by {
        if from <= i < to {
            assert(changed[i] == mnemonic[i - from]);
        }
    }
    lemma_find(changed, ';', stop);
    let changed_colon = find(changed, ':');
    lemma_find(changed, ':', changed_colon);
    if colon < stop {
        assert(colon < from);
        lemma_find(changed, ':', colon);
        assert(changed.take(colon) =~= raw.take(colon));
    } else if changed_colon < stop {
        if from <= changed_colon < to {
            assert(mnemonic[changed_colon - from] == ':');
        }
        assert(raw[changed_colon] == ':');
        assert(false);
    }
    lemma_parts(raw);
    lemma_parts(changed);
    let s = written_statement(raw);
    let t = written_statement(changed);
    let lead = raw.subrange(start, from);
    let rest = raw.subrange(to, stop);
    assert(s =~= lead + (old_word + rest));
    assert(t =~= lead + (mnemonic + rest));
    lemma_words_behind(lead, old_word + rest);
    lemma_words_behind(lead, mnemonic + rest);
    lemma_first_word(old_word, rest);
    lemma_first_word(mnemonic, rest);
    lemma_words_of_trim(s);
    lemma_words_of_trim(t);
    assert(s[from - start] == old_word[0] && t[from - start] == mnemonic[0]);
    lemma_trim_keeps(s, from - start);
    lemma_trim_keeps(t, from - start);
    let tail = words(rest);
    assert(words(s) == seq![old_word] + tail);
    assert(words(t) == seq![mnemonic] + tail);
    assert forall|i: int| 1 <= i < words(s).len() implies words(s)[i] == words(t)[i] by {
        assert(words(s)[i] == tail[i - 1]);
    }
    assert(alike_words(words(s), words(t)));
}

} // verus!
