//! What holds of every source text and of every statement in it.

use vstd::prelude::*;

use crate::assembly::{
    assembly, blank, code, commas_line, diagnosed, encode_from, lemma_other_lines_shorter, length,
    names, narrowest, opcode_named, read_line, read_lines, read_statement, statement,
    statement_opcode, unsigned, Diagnostic, Insn, Listing, Operand,
};
use crate::disassembly::{disassembly, starts_from};
use crate::encoding::{byte_limit, lemma_byte_limits};
use crate::instruction::description;
use crate::mnemonic::{mnemonics_are_distinct, mnemonics_are_words};
use crate::opcode as op;
use crate::text::{
    find, first_line, lemma_find, lemma_words_alike, other_lines, same_ignoring_case, trim, upper,
    words,
};

verus! {

/// A comment makes no difference to what a line says.
pub proof fn comments_are_ignored(raw: Seq<char>, comment: Seq<char>)
    ensures
        code(raw + seq![';'] + comment) == code(raw),
{
    let commented = raw + seq![';'] + comment;
    let n = find(raw, ';');
    lemma_find(raw, ';', n);
    assert forall|i: int| 0 <= i < n implies commented[i] != ';' by {
        assert(commented[i] == raw[i]);
    }
    lemma_find(commented, ';', n);
    assert(commented.take(n) =~= raw.take(n));
}

/// A line that says nothing changes nothing.
pub proof fn blank_lines_are_ignored(so_far: Listing, line: nat, raw: Seq<char>)
    requires
        code(raw).len() == 0,
    ensures
        read_line(so_far, line, raw) == Some(Ok::<Listing, Diagnostic>(so_far)),
{
    lemma_find(code(raw), ':', 0);
}

/// The two sources have the same number of lines, and each line says the same in
/// both.
pub open spec fn say_the_same(a: Seq<char>, b: Seq<char>) -> bool
    decreases a.len(),
{
    if a.len() == 0 || b.len() == 0 {
        a.len() == b.len()
    } else {
        proof {
            lemma_other_lines_shorter(a);
        }
        &&& code(first_line(a)) == code(first_line(b))
        &&& say_the_same(other_lines(a), other_lines(b))
    }
}

proof fn lemma_read_the_same(so_far: Listing, line: nat, a: Seq<char>, b: Seq<char>)
    requires
        say_the_same(a, b),
    ensures
        read_lines(so_far, line, a) == read_lines(so_far, line, b),
        commas_line(so_far, line, a) == commas_line(so_far, line, b),
    decreases a.len(),
{
    if a.len() > 0 {
        lemma_other_lines_shorter(a);
        if let Some(Ok(listing)) = read_line(so_far, line, first_line(a)) {
            lemma_read_the_same(listing, line + 1, other_lines(a), other_lines(b));
        }
    }
}

/// Comments, indentation, trailing white space and the kind of line ending make no
/// difference: sources whose lines say the same assemble to the same program, or
/// earn the same diagnostic.
pub proof fn layout_makes_no_difference(a: Seq<char>, b: Seq<char>)
    requires
        say_the_same(a, b),
    ensures
        assembly(a) == assembly(b),
        diagnosed(a) == diagnosed(b),
{
    lemma_read_the_same(blank(), 1, a, b);
}

/// `s` with a space in place of every comma.
pub open spec fn without_commas(s: Seq<char>) -> Seq<char> {
    s.map_values(
        |c: char|
            if c == ',' {
                ' '
            } else {
                c
            },
    )
}

/// A comma between operands and a space between operands mean the same.
pub proof fn commas_separate_as_spaces_do(s: Seq<char>)
    ensures
        words(without_commas(s)) == words(s),
{
    lemma_words_alike(without_commas(s), s);
}

/// A mnemonic may be written in either case.
pub proof fn mnemonics_are_case_insensitive(word: Seq<char>, other: Seq<char>)
    requires
        same_ignoring_case(word, other),
    ensures
        opcode_named(word) == opcode_named(other),
        same_ignoring_case("PUSH"@, word) == same_ignoring_case("PUSH"@, other),
{
    assert forall|m: Seq<char>| #[trigger]
        same_ignoring_case(m, word) == same_ignoring_case(m, other) by {
        assert forall|i: int| 0 <= i < word.len() implies upper(#[trigger] word[i]) == upper(
            other[i],
        ) by {}
    }
    assert forall|o: u8| #[trigger] names(o, word) == names(o, other) by {}
    if exists|o: u8| names(o, word) {
        let a = choose|o: u8| names(o, word);
        assert(names(a, other));
        let b = choose|o: u8| names(o, other);
        mnemonics_are_distinct(a, b, other);
    } else {
        assert forall|o: u8| !names(o, other) by {
            assert(!names(o, word));
        }
    }
}

/// Statements that differ in the case of their mnemonic only stand for the same
/// instruction, if for any.
pub proof fn statements_are_case_insensitive(t: Seq<Seq<char>>, u: Seq<Seq<char>>)
    requires
        t.len() == u.len() > 0,
        same_ignoring_case(t[0], u[0]),
        forall|i: int| 1 <= i < t.len() ==> t[i] == u[i],
    ensures
        statement(t) is Ok <==> statement(u) is Ok,
        statement(t) is Ok ==> statement(t) == statement(u),
{
    mnemonics_are_case_insensitive(t[0], u[0]);
}

/// The canonical mnemonic of an instruction names that instruction, so an explicit
/// width is never narrowed.
pub proof fn every_mnemonic_names_its_instruction(opcode: u8)
    requires
        description(opcode) is Some,
    ensures
        opcode_named(description(opcode)->0.mnemonic@) == Some(opcode),
        forall|t: Seq<Seq<char>>|
            t.len() > 0 && t[0] == description(opcode)->0.mnemonic@ ==> #[trigger] statement_opcode(t)
                == Ok::<u8, Seq<char>>(opcode),
{
    let m = description(opcode)->0.mnemonic@;
    mnemonics_are_words(opcode);
    assert(names(opcode, m));
    mnemonics_are_distinct(opcode, choose|o: u8| names(o, m), m);
}

/// A word names an instruction exactly if it is its mnemonic, in whatever case. `PUSH`
/// and the empty word name none.
pub proof fn a_mnemonic_in_any_case_names_its_instruction(word: Seq<char>, opcode: u8)
    ensures
        opcode_named(word) == Some(opcode) <==> names(opcode, word),
        same_ignoring_case("PUSH"@, word) || word.len() == 0 ==> opcode_named(word) is None,
{
    if exists|o: u8| names(o, word) {
        let chosen = choose|o: u8| names(o, word);
        if names(opcode, word) {
            mnemonics_are_distinct(chosen, opcode, word);
        }
        let m = description(chosen)->0.mnemonic@;
        mnemonics_are_words(chosen);
        if same_ignoring_case("PUSH"@, word) {
            assert forall|i: int| 0 <= i < m.len() implies upper(#[trigger] "PUSH"@[i]) == upper(
                m[i],
            ) by {
                assert(upper("PUSH"@[i]) == upper(word[i]));
                assert(upper(m[i]) == upper(word[i]));
            }
            assert(same_ignoring_case("PUSH"@, m));
        }
    }
}

/// `PUSH` without a width takes the narrowest encoding: the operand fits in it, and
/// in no narrower one.
pub proof fn push_takes_the_narrowest_encoding(t: Seq<Seq<char>>, value: nat)
    requires
        t.len() == 2,
        same_ignoring_case("PUSH"@, t[0]),
        unsigned(t[1]) == Some(value),
    ensures
        statement(t) == Ok::<Insn, Seq<char>>(
            Insn { opcode: narrowest(value), operand: Operand::Number(value) },
        ),
        forall|opcode: u8|
            op::PUSH_U8 <= opcode <= op::PUSH_U64 && value < byte_limit(
                (#[trigger] description(opcode))->0.imm.width(),
            ) ==> length(narrowest(value)) <= length(opcode),
{
    lemma_byte_limits();
}

/// How many lines `source` has.
pub open spec fn line_count(source: Seq<char>) -> nat
    decreases source.len(),
{
    if source.len() == 0 {
        0
    } else {
        proof {
            lemma_other_lines_shorter(source);
        }
        1 + line_count(other_lines(source))
    }
}

/// Every instruction read so far stands on a line before `line`.
spec fn lines_before(listing: Listing, line: nat) -> bool {
    forall|i: int| 0 <= i < listing.insns.len() ==> 1 <= (#[trigger] listing.insns[i]).line < line
}

proof fn lemma_read_statement_line(so_far: Listing, line: nat, text: Seq<char>)
    requires
        1 <= line,
        lines_before(so_far, line),
    ensures
        match read_statement(so_far, line, text) {
            Some(Ok(listing)) => lines_before(listing, line + 1),
            Some(Err(diagnostic)) => diagnostic.line == line,
            None => true,
        },
{
    if let Some(Ok(listing)) = read_statement(so_far, line, text) {
        assert forall|i: int| 0 <= i < listing.insns.len() implies 1 <= (#[trigger] listing.insns[i]).line
            < line + 1 by {
            if i < so_far.insns.len() {
                assert(listing.insns[i] == so_far.insns[i]);
            }
        }
    }
}

proof fn lemma_read_lines_line(so_far: Listing, line: nat, source: Seq<char>)
    requires
        1 <= line,
        lines_before(so_far, line),
    ensures
        match read_lines(so_far, line, source) {
            Some(Ok(listing)) => lines_before(listing, line + line_count(source)),
            Some(Err(diagnostic)) => line <= diagnostic.line < line + line_count(source),
            None => {
                &&& commas_line(so_far, line, source) matches Some(n)
                &&& line <= n < line + line_count(source)
            },
        },
    decreases source.len(),
{
    if source.len() > 0 {
        let raw = first_line(source);
        let text = code(raw);
        let colon = find(text, ':');
        let with_label = Listing {
            labels: so_far.labels.push((trim(text.take(colon)), so_far.size)),
            ..so_far
        };
        lemma_other_lines_shorter(source);
        lemma_read_statement_line(so_far, line, text);
        lemma_read_statement_line(with_label, line, trim(text.skip(colon + 1)));
        if let Some(Ok(listing)) = read_line(so_far, line, raw) {
            lemma_read_lines_line(listing, line + 1, other_lines(source));
        }
    }
}

proof fn lemma_encode_line(listing: Listing, k: int, line: nat)
    requires
        0 <= k,
        lines_before(listing, line),
    ensures
        encode_from(listing, k) matches Err(diagnostic) ==> 1 <= diagnostic.line < line,
    decreases listing.insns.len() - k,
{
    if k < listing.insns.len() {
        assert(1 <= listing.insns[k].line < line);
        lemma_encode_line(listing, k + 1, line);
    }
}

/// Every diagnostic names a line of the source.
pub proof fn diagnostics_name_a_line(source: Seq<char>)
    ensures
        diagnosed(source) matches Err(diagnostic) ==> 1 <= diagnostic.line <= line_count(source),
{
    lemma_read_lines_line(blank(), 1, source);
    if let Some(Ok(listing)) = read_lines(blank(), 1, source) {
        lemma_encode_line(listing, 0, 1 + line_count(source));
    }
}

proof fn lemma_fault_inside(bytes: Seq<u8>, at: int)
    requires
        0 <= at,
    ensures
        starts_from(bytes, at) matches Err(fault) ==> at <= fault.offset < bytes.len(),
    decreases bytes.len() - at,
{
    if at < bytes.len() && description(bytes[at]) is Some {
        let next = crate::disassembly::next_at(bytes, at);
        if next <= bytes.len() {
            lemma_fault_inside(bytes, next);
        }
    }
}

/// A fault of decoding names an offset inside the program.
pub proof fn faults_name_an_offset(bytes: Seq<u8>)
    ensures
        disassembly(bytes) matches Err(fault) ==> fault.offset < bytes.len(),
{
    lemma_fault_inside(bytes, 0);
}

/// Reading stops at a statement of commas only exactly where there is a line for it.
pub proof fn lemma_stopped_line(so_far: Listing, line: nat, source: Seq<char>)
    ensures
        read_lines(so_far, line, source) is None <==> commas_line(so_far, line, source) is Some,
    decreases source.len(),
{
    if source.len() > 0 {
        lemma_other_lines_shorter(source);
        if let Some(Ok(listing)) = read_line(so_far, line, first_line(source)) {
            lemma_stopped_line(listing, line + 1, other_lines(source));
        }
    }
}

} // verus!
