//! The round trip through both tools: assembling what a program disassembles to
//! gives the program back. And no two programs disassemble to the same text.

use vstd::prelude::*;

use crate::assembly::{
    assembly, blank, code, defined, encode, encode_from, is_label, label_offset, length,
    opcode_named, read_line, read_lines, signed, statement, statement_operand, unsigned,
    Diagnostic, Insn, Listing, Operand, Placed, MAX_PROGRAM_LEN,
};
use crate::disassembly::{
    destination, disassembly, displacement, fills, imm_at, immediate, insn_text, is_labelled,
    is_reached, label_name, label_number, labels_ascend, lemma_label_number_gap, lemma_starts_fill,
    next_at, starts_from, text_from,
};
use crate::encoding::{
    byte_limit, le_bytes_of_little_endian, lemma_byte_limits, lemma_little_endian_bound,
    little_endian, pattern_16,
};
use crate::instruction::{description, Imm};
use crate::mnemonic::{is_mnemonic_char, mnemonics_are_words};
use crate::number::{decimal, decimal_reads_back, number, signed_decimal};
use crate::source_laws::every_mnemonic_names_its_instruction;
use crate::text::{
    first_line, is_separator, is_space, lemma_find, lemma_first_word, lemma_words_behind,
    other_lines, same_ignoring_case, trim, words,
};

verus! {

// ---------------------------------------------------------------------------
// Canonical lines as text
// ---------------------------------------------------------------------------

/// A word of canonical text: not empty, and without a separator, a semicolon or a
/// colon.
spec fn is_clean(word: Seq<char>) -> bool {
    &&& word.len() > 0
    &&& forall|i: int|
        0 <= i < word.len() ==> !is_separator(#[trigger] word[i]) && word[i] != ';' && word[i] != ':'
}

/// A line feed ends the line before it.
proof fn lemma_split_line(line: Seq<char>, rest: Seq<char>)
    requires
        forall|i: int| 0 <= i < line.len() ==> #[trigger] line[i] != '\n',
        line.len() > 0 ==> line.last() != '\r',
    ensures
        first_line(line + "\n"@ + rest) == line,
        other_lines(line + "\n"@ + rest) == rest,
        (line + "\n"@ + rest).len() > 0,
{
    reveal_strlit("\n");
    let s = line + "\n"@ + rest;
    lemma_find(s, '\n', line.len() as int);
    assert(s.take(line.len() as int) =~= line);
    assert(s.skip(line.len() as int + 1) =~= rest);
}

/// A line without a comment and without white space at its ends is all code.
proof fn lemma_code(line: Seq<char>)
    requires
        line.len() > 0,
        forall|i: int| 0 <= i < line.len() ==> #[trigger] line[i] != ';',
        !is_space(line[0]),
        !is_space(line.last()),
    ensures
        code(line) == line,
{
    lemma_find(line, ';', line.len() as int);
    assert(line.take(line.len() as int) =~= line);
}

/// The words of the three shapes of canonical lines.
proof fn lemma_words_of_line(m: Seq<char>, a: Seq<char>, b: Seq<char>)
    requires
        is_clean(m),
        is_clean(a),
        is_clean(b),
    ensures
        words(m) == seq![m],
        words(m + (" "@ + a)) == seq![m, a],
        words(m + (" "@ + a + ", "@ + b)) == seq![m, a, b],
{
    reveal_strlit(" ");
    reveal_strlit(", ");
    let none = Seq::<char>::empty();
    assert(words(none) =~= Seq::<Seq<char>>::empty());
    assert(m + none =~= m);
    assert(a + none =~= a);
    assert(b + none =~= b);
    lemma_first_word(m, none);
    assert(words(m) =~= seq![m]);

    lemma_first_word(a, none);
    lemma_words_behind(seq![' '], a);
    assert(" "@ + a =~= seq![' '] + a);
    lemma_first_word(m, " "@ + a);
    assert(words(m + (" "@ + a)) =~= seq![m, a]);

    lemma_first_word(b, none);
    let tail = ", "@ + b;
    assert(tail =~= seq![','] + (seq![' '] + b));
    lemma_words_behind(seq![' '], b);
    lemma_words_behind(seq![','], seq![' '] + b);
    lemma_first_word(a, tail);
    let operands = " "@ + a + ", "@ + b;
    assert(operands =~= seq![' '] + (a + tail));
    lemma_words_behind(seq![' '], a + tail);
    lemma_first_word(m, operands);
    assert(words(m + operands) =~= seq![m, a, b]);
}

/// A line that holds an instruction and nothing else: no label, no comment, no
/// white space at its ends.
spec fn is_plain(line: Seq<char>) -> bool {
    &&& line.len() > 0
    &&& !is_space(line[0])
    &&& !is_space(line.last())
    &&& forall|i: int|
        0 <= i < line.len() ==> #[trigger] line[i] != ';' && line[i] != ':' && line[i] != '\n'
}

/// The three shapes of canonical lines are plain.
proof fn lemma_lines_are_plain(m: Seq<char>, a: Seq<char>, b: Seq<char>)
    requires
        is_clean(m),
        is_clean(a),
        is_clean(b),
    ensures
        is_plain(m),
        is_plain(m + (" "@ + a)),
        is_plain(m + (" "@ + a + ", "@ + b)),
{
    reveal_strlit(" ");
    reveal_strlit(", ");
    let one = m + (" "@ + a);
    let two = m + (" "@ + a + ", "@ + b);
    assert(one.last() == a.last());
    assert(two.last() == b.last());
    assert forall|i: int| 0 <= i < one.len() implies #[trigger] one[i] != ';' && one[i] != ':'
        && one[i] != '\n' by {
        if i < m.len() {
            assert(one[i] == m[i]);
        } else if i > m.len() {
            assert(one[i] == a[i - m.len() - 1]);
        }
    }
    assert forall|i: int| 0 <= i < two.len() implies #[trigger] two[i] != ';' && two[i] != ':'
        && two[i] != '\n' by {
        if i < m.len() {
            assert(two[i] == m[i]);
        } else if m.len() < i < m.len() + 1 + a.len() {
            assert(two[i] == a[i - m.len() - 1]);
        } else if i >= m.len() + 3 + a.len() {
            assert(two[i] == b[i - m.len() - 3 - a.len()]);
        }
    }
}

// ---------------------------------------------------------------------------
// Numbers and names
// ---------------------------------------------------------------------------

proof fn lemma_decimal_is_clean(n: nat)
    ensures
        is_clean(decimal(n)),
        n <= u64::MAX ==> unsigned(decimal(n)) == Some(n),
        !is_label(decimal(n)),
        decimal(n)[0] != '-',
{
    decimal_reads_back(n);
    let s = decimal(n);
    assert('0' <= s[0] <= '9');
    if s.len() >= 2 {
        assert('0' <= s[1] <= '9');
    }
}

proof fn lemma_signed_decimal_reads_back(d: int)
    requires
        i16::MIN <= d <= i16::MAX,
    ensures
        is_clean(signed_decimal(d)),
        !is_label(signed_decimal(d)),
        signed(signed_decimal(d)) == Some(d),
{
    let s = signed_decimal(d);
    if d < 0 {
        lemma_decimal_is_clean((-d) as nat);
        assert(s.drop_first() =~= decimal((-d) as nat));
    } else {
        lemma_decimal_is_clean(d as nat);
    }
}

proof fn lemma_label_name(n: nat)
    ensures
        is_clean(label_name(n)),
        is_label(label_name(n)),
        label_name(n)[0] == 'L',
{
    reveal_strlit("L");
    decimal_reads_back(n);
    let s = label_name(n);
    assert forall|i: int| 1 <= i < s.len() implies '0' <= #[trigger] s[i] <= '9' by {
        assert(s[i] == decimal(n)[i - 1]);
    }
}

proof fn lemma_label_names_differ(a: nat, b: nat)
    requires
        label_name(a) == label_name(b),
    ensures
        a == b,
{
    reveal_strlit("L");
    decimal_reads_back(a);
    decimal_reads_back(b);
    assert(label_name(a).skip(1) =~= decimal(a));
    assert(label_name(b).skip(1) =~= decimal(b));
}

proof fn lemma_mnemonic(opcode: u8)
    requires
        description(opcode) is Some,
    ensures
        is_clean(description(opcode)->0.mnemonic@),
        opcode_named(description(opcode)->0.mnemonic@) == Some(opcode),
        !same_ignoring_case("PUSH"@, description(opcode)->0.mnemonic@),
{
    let m = description(opcode)->0.mnemonic@;
    mnemonics_are_words(opcode);
    every_mnemonic_names_its_instruction(opcode);
    assert forall|i: int| 0 <= i < m.len() implies !is_separator(#[trigger] m[i]) && m[i] != ';'
        && m[i] != ':' by {
        assert(is_mnemonic_char(m[i]));
    }
}

// ---------------------------------------------------------------------------
// One instruction
// ---------------------------------------------------------------------------

/// The operand that the canonical line of the instruction at `at` spells.
spec fn spelled_operand(bytes: Seq<u8>, starts: Seq<int>, at: int) -> Operand {
    let imm = immediate(bytes, at);
    match imm_at(bytes, at) {
        Imm::Absent => Operand::Absent,
        Imm::U8Pair => Operand::Pair(imm[0] as nat, imm[1] as nat),
        Imm::Rel16 => if starts.contains(destination(bytes, at)) {
            Operand::Label(label_name(label_number(bytes, starts, destination(bytes, at))))
        } else {
            Operand::Displacement(displacement(bytes, at))
        },
        _ => Operand::Number(little_endian(imm)),
    }
}

/// The instruction at `at` is allocated and complete.
spec fn is_whole(bytes: Seq<u8>, at: int) -> bool {
    &&& 0 <= at < bytes.len()
    &&& description(bytes[at]) is Some
    &&& next_at(bytes, at) <= bytes.len()
}

/// The immediate of a whole instruction has its width, and its value fits in it.
proof fn lemma_immediate(bytes: Seq<u8>, at: int)
    requires
        is_whole(bytes, at),
    ensures
        immediate(bytes, at).len() == imm_at(bytes, at).width(),
        little_endian(immediate(bytes, at)) < byte_limit(imm_at(bytes, at).width()),
        little_endian(immediate(bytes, at)) <= u64::MAX,
        imm_at(bytes, at) is Rel16 ==> i16::MIN <= displacement(bytes, at) <= i16::MAX,
{
    lemma_little_endian_bound(immediate(bytes, at));
    lemma_byte_limits();
}

/// The words of the canonical line of the instruction at `at`.
spec fn line_words(bytes: Seq<u8>, starts: Seq<int>, at: int) -> Seq<Seq<char>> {
    let m = description(bytes[at])->0.mnemonic@;
    let imm = immediate(bytes, at);
    match imm_at(bytes, at) {
        Imm::Absent => seq![m],
        Imm::U8Pair => seq![m, decimal(imm[0] as nat), decimal(imm[1] as nat)],
        Imm::Rel16 => if starts.contains(destination(bytes, at)) {
            seq![m, label_name(label_number(bytes, starts, destination(bytes, at)))]
        } else {
            seq![m, signed_decimal(displacement(bytes, at))]
        },
        _ => seq![m, decimal(little_endian(imm))],
    }
}

/// The canonical line of an instruction is plain and has these words.
proof fn lemma_insn_text(bytes: Seq<u8>, starts: Seq<int>, at: int)
    requires
        is_whole(bytes, at),
    ensures
        is_plain(insn_text(bytes, starts, at)),
        words(insn_text(bytes, starts, at)) == line_words(bytes, starts, at),
{
    let m = description(bytes[at])->0.mnemonic@;
    let imm = immediate(bytes, at);
    let line = insn_text(bytes, starts, at);
    lemma_mnemonic(bytes[at]);
    lemma_immediate(bytes, at);
    match imm_at(bytes, at) {
        Imm::Absent => {
            assert(line =~= m);
            lemma_words_of_line(m, m, m);
            lemma_lines_are_plain(m, m, m);
        },
        Imm::U8Pair => {
            let a = decimal(imm[0] as nat);
            let b = decimal(imm[1] as nat);
            lemma_decimal_is_clean(imm[0] as nat);
            lemma_decimal_is_clean(imm[1] as nat);
            lemma_words_of_line(m, a, b);
            lemma_lines_are_plain(m, a, b);
        },
        Imm::Rel16 => {
            let n = label_number(bytes, starts, destination(bytes, at));
            let d = displacement(bytes, at);
            lemma_label_name(n);
            lemma_signed_decimal_reads_back(d);
            lemma_words_of_line(m, label_name(n), label_name(n));
            lemma_lines_are_plain(m, label_name(n), label_name(n));
            lemma_words_of_line(m, signed_decimal(d), signed_decimal(d));
            lemma_lines_are_plain(m, signed_decimal(d), signed_decimal(d));
        },
        _ => {
            let a = decimal(little_endian(imm));
            lemma_decimal_is_clean(little_endian(imm));
            lemma_words_of_line(m, a, a);
            lemma_lines_are_plain(m, a, a);
        },
    }
}

/// The words of the canonical line of an instruction read as that instruction.
proof fn lemma_statement(bytes: Seq<u8>, starts: Seq<int>, at: int)
    requires
        is_whole(bytes, at),
    ensures
        line_words(bytes, starts, at).len() > 0,
        statement(line_words(bytes, starts, at)) == Ok::<Insn, Seq<char>>(
            Insn { opcode: bytes[at], operand: spelled_operand(bytes, starts, at) },
        ),
{
    let opcode = bytes[at];
    let imm = immediate(bytes, at);
    let t = line_words(bytes, starts, at);
    lemma_mnemonic(opcode);
    lemma_immediate(bytes, at);
    assert(crate::assembly::statement_opcode(t) == Ok::<u8, Seq<char>>(opcode));
    assert(statement_operand(imm_at(bytes, at), t) == Ok::<Operand, Seq<char>>(
        spelled_operand(bytes, starts, at),
    )) by {
        match imm_at(bytes, at) {
            Imm::Absent => {},
            Imm::U8Pair => {
                lemma_decimal_is_clean(imm[0] as nat);
                lemma_decimal_is_clean(imm[1] as nat);
            },
            Imm::Rel16 => {
                lemma_label_name(label_number(bytes, starts, destination(bytes, at)));
                lemma_signed_decimal_reads_back(displacement(bytes, at));
            },
            _ => {
                lemma_decimal_is_clean(little_endian(imm));
            },
        }
    }
}

/// Encoding the instruction that a canonical line spells gives its bytes back.
proof fn lemma_encode(bytes: Seq<u8>, starts: Seq<int>, at: int, listing: Listing, placed: Placed)
    requires
        is_whole(bytes, at),
        listing.size == bytes.len(),
        placed.offset == at,
        placed.insn == (Insn {
            opcode: bytes[at],
            operand: spelled_operand(bytes, starts, at),
        }),
        imm_at(bytes, at) is Rel16 ==> 0 <= destination(bytes, at) < bytes.len(),
        imm_at(bytes, at) is Rel16 && starts.contains(destination(bytes, at)) ==> label_offset(
            listing.labels,
            label_name(label_number(bytes, starts, destination(bytes, at))),
        ) == Some(destination(bytes, at) as nat),
    ensures
        encode(listing, placed) == Ok::<Seq<u8>, Diagnostic>(
            bytes.subrange(at, next_at(bytes, at)),
        ),
{
    let imm = immediate(bytes, at);
    lemma_immediate(bytes, at);
    lemma_byte_limits();
    le_bytes_of_little_endian(imm);
    let whole = bytes.subrange(at, next_at(bytes, at));
    assert(whole =~= seq![bytes[at]] + imm);
    match imm_at(bytes, at) {
        Imm::Absent => {
            assert(whole =~= seq![bytes[at]]);
        },
        Imm::U8Pair => {
            assert(whole =~= seq![bytes[at], imm[0], imm[1]]);
        },
        Imm::Rel16 => {
            assert(pattern_16(displacement(bytes, at)) == little_endian(imm));
        },
        _ => {},
    }
}

// ---------------------------------------------------------------------------
// The whole text
// ---------------------------------------------------------------------------

/// Offset of instruction number `k`, or the end of the program behind the last.
spec fn offset_of(bytes: Seq<u8>, starts: Seq<int>, k: int) -> int {
    if k < starts.len() {
        starts[k]
    } else {
        bytes.len() as int
    }
}

/// `labels` are the labels of the offsets below `limit`.
spec fn labels_below(
    bytes: Seq<u8>,
    starts: Seq<int>,
    limit: int,
    labels: Seq<(Seq<char>, nat)>,
) -> bool {
    &&& labels.len() == label_number(bytes, starts, limit)
    &&& forall|i: int|
        0 <= i < labels.len() ==> {
            &&& (#[trigger] labels[i]).0 == label_name(i as nat)
            &&& labels[i].1 < limit
            &&& is_labelled(bytes, starts, labels[i].1 as int)
            &&& label_number(bytes, starts, labels[i].1 as int) == i
        }
}

/// `listing` is what reading the canonical lines of the first `k` instructions
/// gives.
spec fn read_up_to(bytes: Seq<u8>, starts: Seq<int>, k: int, listing: Listing) -> bool {
    &&& 0 <= k <= starts.len()
    &&& listing.size == offset_of(bytes, starts, k)
    &&& labels_below(bytes, starts, offset_of(bytes, starts, k), listing.labels)
    &&& listing.insns.len() == k
    &&& forall|i: int|
        0 <= i < k ==> {
            &&& (#[trigger] listing.insns[i]).offset == starts[i]
            &&& listing.insns[i].insn == (Insn {
                opcode: bytes[starts[i]],
                operand: spelled_operand(bytes, starts, starts[i]),
            })
        }
}

/// Between one instruction and the next there is no label.
proof fn lemma_label_number_next(bytes: Seq<u8>, starts: Seq<int>, k: int)
    requires
        fills(bytes, 0, starts),
        0 <= k < starts.len(),
    ensures
        label_number(bytes, starts, offset_of(bytes, starts, k + 1)) == label_number(
            bytes,
            starts,
            starts[k] + 1,
        ),
        starts[k] < offset_of(bytes, starts, k + 1) <= bytes.len(),
        offset_of(bytes, starts, k + 1) == next_at(bytes, starts[k]),
{
    let next = offset_of(bytes, starts, k + 1);
    if k + 1 < starts.len() {
        assert(starts[k + 1] == next_at(bytes, starts[k]));
    } else {
        assert(starts.last() == starts[k]);
    }
    assert forall|t: int| starts[k] + 1 <= t < next implies !#[trigger] is_labelled(
        bytes,
        starts,
        t,
    ) by {
        if starts.contains(t) {
            let j = choose|j: int| 0 <= j < starts.len() && starts[j] == t;
            assert(j > k);
            if k + 1 < starts.len() {
                assert(starts[k + 1] <= starts[j]);
            }
        }
    }
    lemma_label_number_gap(bytes, starts, starts[k] + 1, next);
}

/// Reading a label line.
proof fn lemma_read_label(bytes: Seq<u8>, starts: Seq<int>, k: int, listing: Listing, line: nat)
    requires
        fills(bytes, 0, starts),
        0 <= k < starts.len(),
        read_up_to(bytes, starts, k, listing),
        is_labelled(bytes, starts, starts[k]),
    ensures
        ({
            let name = label_name(label_number(bytes, starts, starts[k]));
            &&& forall|i: int|
                0 <= i < (name + ":"@).len() ==> #[trigger] (name + ":"@)[i] != '\n'
            &&& (name + ":"@).last() == ':'
            &&& read_line(listing, line, name + ":"@) == Some(
                Ok::<Listing, Diagnostic>(
                    Listing { labels: listing.labels.push((name, listing.size)), ..listing },
                ),
            )
        }),
{
    reveal_strlit(":");
    let number = label_number(bytes, starts, starts[k]);
    let name = label_name(number);
    let text = name + ":"@;
    lemma_label_name(number);
    assert forall|i: int| 0 <= i < text.len() implies #[trigger] text[i] != '\n' && text[i]
        != ';' by {
        if i < name.len() {
            assert(text[i] == name[i]);
        }
    }
    assert(text[0] == name[0]);
    assert(!is_space(text[0]));
    lemma_code(text);
    assert forall|i: int| 0 <= i < name.len() implies text[i] != ':' by {
        assert(text[i] == name[i]);
    }
    lemma_find(text, ':', name.len() as int);
    assert(text.take(name.len() as int) =~= name);
    assert(!is_space(name[0]) && !is_space(name.last()));
    assert(trim(name) == name);
    assert(text.skip(name.len() as int + 1) =~= Seq::empty());
    assert(trim(Seq::<char>::empty()) =~= Seq::empty());
    if defined(listing.labels, name) {
        let i = choose|i: int|
            0 <= i < listing.labels.len() && (#[trigger] listing.labels[i]).0 == name;
        lemma_label_names_differ(i as nat, number);
        assert(false);
    }
}

/// Reading an instruction line.
proof fn lemma_read_insn(bytes: Seq<u8>, starts: Seq<int>, k: int, listing: Listing, line: nat)
    requires
        fills(bytes, 0, starts),
        bytes.len() <= MAX_PROGRAM_LEN,
        0 <= k < starts.len(),
        listing.size == starts[k],
    ensures
        ({
            let at = starts[k];
            let insn = Insn { opcode: bytes[at], operand: spelled_operand(bytes, starts, at) };
            read_line(listing, line, insn_text(bytes, starts, at)) == Some(
                Ok::<Listing, Diagnostic>(
                    Listing {
                        labels: listing.labels,
                        insns: listing.insns.push(Placed { line, offset: listing.size, insn }),
                        size: next_at(bytes, at) as nat,
                    },
                ),
            )
        }),
{
    let at = starts[k];
    let text = insn_text(bytes, starts, at);
    assert(is_whole(bytes, at));
    lemma_insn_text(bytes, starts, at);
    lemma_statement(bytes, starts, at);
    lemma_code(text);
    lemma_find(text, ':', text.len() as int);
    assert(length(bytes[at]) == next_at(bytes, at) - at);
}

/// `listing` with the label of instruction number `k`, where it has one.
spec fn with_label(bytes: Seq<u8>, starts: Seq<int>, k: int, listing: Listing) -> Listing {
    if is_labelled(bytes, starts, starts[k]) {
        let name = label_name(label_number(bytes, starts, starts[k]));
        Listing { labels: listing.labels.push((name, listing.size)), ..listing }
    } else {
        listing
    }
}

/// The line of instruction number `k`, if its label would be on line `line`.
spec fn insn_line(bytes: Seq<u8>, starts: Seq<int>, k: int, line: nat) -> nat {
    if is_labelled(bytes, starts, starts[k]) {
        line + 1
    } else {
        line
    }
}

/// `listing` with instruction number `k`.
spec fn with_insn(bytes: Seq<u8>, starts: Seq<int>, k: int, listing: Listing, line: nat) -> Listing {
    let at = starts[k];
    Listing {
        labels: listing.labels,
        insns: listing.insns.push(
            Placed {
                line,
                offset: listing.size,
                insn: Insn { opcode: bytes[at], operand: spelled_operand(bytes, starts, at) },
            },
        ),
        size: next_at(bytes, at) as nat,
    }
}

/// Reading the label of instruction number `k`, where it has one.
proof fn lemma_read_label_part(bytes: Seq<u8>, starts: Seq<int>, k: int, listing: Listing, line: nat)
    requires
        fills(bytes, 0, starts),
        0 <= k < starts.len(),
        read_up_to(bytes, starts, k, listing),
    ensures
        read_lines(listing, line, text_from(bytes, starts, k)) == read_lines(
            with_label(bytes, starts, k, listing),
            insn_line(bytes, starts, k, line),
            insn_text(bytes, starts, starts[k]) + "\n"@ + text_from(bytes, starts, k + 1),
        ),
{
    let at = starts[k];
    let body = insn_text(bytes, starts, at) + "\n"@ + text_from(bytes, starts, k + 1);
    let whole = text_from(bytes, starts, k);
    if is_labelled(bytes, starts, at) {
        let name = label_name(label_number(bytes, starts, at));
        lemma_read_label(bytes, starts, k, listing, line);
        lemma_split_line(name + ":"@, body);
        reveal_strlit(":");
        reveal_strlit("\n");
        reveal_strlit(":\n");
        assert(whole =~= name + ":"@ + "\n"@ + body);
    } else {
        assert(whole =~= body);
    }
}

/// Reading the line of instruction number `k`.
proof fn lemma_read_insn_part(bytes: Seq<u8>, starts: Seq<int>, k: int, listing: Listing, line: nat)
    requires
        fills(bytes, 0, starts),
        bytes.len() <= MAX_PROGRAM_LEN,
        0 <= k < starts.len(),
        listing.size == starts[k],
    ensures
        read_lines(
            listing,
            line,
            insn_text(bytes, starts, starts[k]) + "\n"@ + text_from(bytes, starts, k + 1),
        ) == read_lines(
            with_insn(bytes, starts, k, listing, line),
            line + 1,
            text_from(bytes, starts, k + 1),
        ),
{
    let text = insn_text(bytes, starts, starts[k]);
    assert(is_whole(bytes, starts[k]));
    lemma_insn_text(bytes, starts, starts[k]);
    lemma_split_line(text, text_from(bytes, starts, k + 1));
    lemma_read_insn(bytes, starts, k, listing, line);
}

/// One instruction further.
proof fn lemma_one_further(bytes: Seq<u8>, starts: Seq<int>, k: int, listing: Listing, line: nat)
    requires
        fills(bytes, 0, starts),
        0 <= k < starts.len(),
        read_up_to(bytes, starts, k, listing),
    ensures
        read_up_to(
            bytes,
            starts,
            k + 1,
            with_insn(bytes, starts, k, with_label(bytes, starts, k, listing), line),
        ),
{
    let next = with_insn(bytes, starts, k, with_label(bytes, starts, k, listing), line);
    let limit = offset_of(bytes, starts, k + 1);
    lemma_label_number_next(bytes, starts, k);
    assert forall|i: int| 0 <= i < next.labels.len() implies {
        &&& (#[trigger] next.labels[i]).0 == label_name(i as nat)
        &&& next.labels[i].1 < limit
        &&& is_labelled(bytes, starts, next.labels[i].1 as int)
        &&& label_number(bytes, starts, next.labels[i].1 as int) == i
    } by {
        if i < listing.labels.len() {
            assert(next.labels[i] == listing.labels[i]);
        }
    }
    assert forall|i: int| 0 <= i < k + 1 implies {
        &&& (#[trigger] next.insns[i]).offset == starts[i]
        &&& next.insns[i].insn == (Insn {
            opcode: bytes[starts[i]],
            operand: spelled_operand(bytes, starts, starts[i]),
        })
    } by {
        if i < k {
            assert(next.insns[i] == listing.insns[i]);
        }
    }
}

/// Reading the canonical lines from instruction number `k` on.
proof fn lemma_read_text(bytes: Seq<u8>, starts: Seq<int>, k: int, listing: Listing, line: nat)
    requires
        fills(bytes, 0, starts),
        bytes.len() <= MAX_PROGRAM_LEN,
        read_up_to(bytes, starts, k, listing),
    ensures
        read_lines(listing, line, text_from(bytes, starts, k)) matches Some(Ok(end)) && read_up_to(
            bytes,
            starts,
            starts.len() as int,
            end,
        ),
    decreases starts.len() - k,
{
    if k < starts.len() {
        let labelled = with_label(bytes, starts, k, listing);
        let at_line = insn_line(bytes, starts, k, line);
        lemma_read_label_part(bytes, starts, k, listing, line);
        lemma_read_insn_part(bytes, starts, k, labelled, at_line);
        lemma_one_further(bytes, starts, k, listing, at_line);
        lemma_read_text(
            bytes,
            starts,
            k + 1,
            with_insn(bytes, starts, k, labelled, at_line),
            at_line + 1,
        );
    }
}

// ---------------------------------------------------------------------------
// The round trip
// ---------------------------------------------------------------------------

/// Every linearly decoded jump of `bytes` leads into the program.
pub open spec fn jumps_stay_inside(bytes: Seq<u8>) -> bool {
    starts_from(bytes, 0) matches Ok(starts) ==> forall|i: int|
        0 <= i < starts.len() && imm_at(bytes, #[trigger] starts[i]) is Rel16 ==> 0 <= destination(
            bytes,
            starts[i],
        ) < bytes.len()
}

/// The first label of that name is the one that counts.
proof fn lemma_label_offset(labels: Seq<(Seq<char>, nat)>, i: int)
    requires
        0 <= i < labels.len(),
        forall|j: int| 0 <= j < i ==> (#[trigger] labels[j]).0 != labels[i].0,
    ensures
        label_offset(labels, labels[i].0) == Some(labels[i].1),
    decreases i,
{
    if i > 0 {
        let rest = labels.drop_first();
        assert(labels[0].0 != labels[i].0);
        assert(rest[i - 1] == labels[i]);
        assert forall|j: int| 0 <= j < i - 1 implies (#[trigger] rest[j]).0 != rest[i - 1].0 by {
            assert(rest[j] == labels[j + 1]);
        }
        lemma_label_offset(rest, i - 1);
    }
}

/// A labelled offset is found under its label.
proof fn lemma_label_found(
    bytes: Seq<u8>,
    starts: Seq<int>,
    labels: Seq<(Seq<char>, nat)>,
    target: int,
)
    requires
        labels_below(bytes, starts, bytes.len() as int, labels),
        0 <= target < bytes.len(),
        is_labelled(bytes, starts, target),
    ensures
        label_offset(labels, label_name(label_number(bytes, starts, target))) == Some(target as nat),
{
    let n = label_number(bytes, starts, target) as int;
    labels_ascend(bytes, starts, target, bytes.len() as int);
    let found = labels[n].1 as int;
    if found < target {
        labels_ascend(bytes, starts, found, target);
    } else if target < found {
        labels_ascend(bytes, starts, target, found);
    }
    assert forall|j: int| 0 <= j < n implies (#[trigger] labels[j]).0 != labels[n].0 by {
        if labels[j].0 == labels[n].0 {
            lemma_label_names_differ(j as nat, n as nat);
        }
    }
    lemma_label_offset(labels, n);
}

/// Encoding instruction number `k` of what was read of the canonical text.
proof fn lemma_encode_one(bytes: Seq<u8>, starts: Seq<int>, k: int, listing: Listing)
    requires
        fills(bytes, 0, starts),
        read_up_to(bytes, starts, starts.len() as int, listing),
        0 <= k < starts.len(),
        imm_at(bytes, starts[k]) is Rel16 ==> 0 <= destination(bytes, starts[k]) < bytes.len(),
    ensures
        encode(listing, listing.insns[k]) == Ok::<Seq<u8>, Diagnostic>(
            bytes.subrange(starts[k], next_at(bytes, starts[k])),
        ),
{
    let at = starts[k];
    let target = destination(bytes, at);
    assert(is_whole(bytes, at));
    if imm_at(bytes, at) is Rel16 && starts.contains(target) {
        assert(is_reached(bytes, starts, target));
        lemma_label_found(bytes, starts, listing.labels, target);
    }
    lemma_encode(bytes, starts, at, listing, listing.insns[k]);
}

/// Encoding what was read of the canonical text, from instruction number `k` on.
proof fn lemma_encode_from(bytes: Seq<u8>, starts: Seq<int>, k: int, listing: Listing)
    requires
        fills(bytes, 0, starts),
        read_up_to(bytes, starts, starts.len() as int, listing),
        forall|i: int|
            0 <= i < starts.len() && imm_at(bytes, #[trigger] starts[i]) is Rel16 ==> 0
                <= destination(bytes, starts[i]) < bytes.len(),
        0 <= k <= starts.len(),
    ensures
        encode_from(listing, k) == Ok::<Seq<u8>, Diagnostic>(
            bytes.skip(offset_of(bytes, starts, k)),
        ),
    decreases starts.len() - k,
{
    if k == starts.len() {
        assert(bytes.skip(bytes.len() as int) =~= Seq::empty());
    } else {
        let at = starts[k];
        let next = next_at(bytes, at);
        lemma_encode_one(bytes, starts, k, listing);
        lemma_label_number_next(bytes, starts, k);
        lemma_encode_from(bytes, starts, k + 1, listing);
        assert(bytes.skip(at) =~= bytes.subrange(at, next) + bytes.skip(next));
    }
}

/// Disassembling a program and assembling the text gives the program back, byte for
/// byte. It has to decode, to be no longer than a program may be, and to jump
/// inside itself only: the assembler accepts no other.
pub proof fn assembling_a_disassembly_gives_the_bytes_back(bytes: Seq<u8>)
    requires
        disassembly(bytes) is Ok,
        bytes.len() <= MAX_PROGRAM_LEN,
        jumps_stay_inside(bytes),
    ensures
        assembly(disassembly(bytes)->Ok_0) == Some(Ok::<Seq<u8>, Diagnostic>(bytes)),
{
    let starts = starts_from(bytes, 0)->Ok_0;
    lemma_starts_fill(bytes, 0);
    assert(read_up_to(bytes, starts, 0, blank())) by {
        assert(offset_of(bytes, starts, 0) == 0);
    }
    lemma_read_text(bytes, starts, 0, blank(), 1);
    let listing = read_lines(blank(), 1, text_from(bytes, starts, 0))->0->Ok_0;
    lemma_encode_from(bytes, starts, 0, listing);
    assert(bytes.skip(0) =~= bytes);
}

// ---------------------------------------------------------------------------
// Different programs, different texts
// ---------------------------------------------------------------------------

/// The canonical text from instruction number `k` on begins with the label line of
/// that instruction, where it has one, and goes on with its own line.
proof fn lemma_text_lines(bytes: Seq<u8>, starts: Seq<int>, k: int)
    requires
        fills(bytes, 0, starts),
        0 <= k < starts.len(),
    ensures
        ({
            let at = starts[k];
            let text = text_from(bytes, starts, k);
            let line = insn_text(bytes, starts, at);
            let rest = text_from(bytes, starts, k + 1);
            let body = line + "\n"@ + rest;
            &&& text.len() > 0
            &&& first_line(body) == line
            &&& other_lines(body) == rest
            &&& line.last() != ':'
            &&& is_labelled(bytes, starts, at) ==> first_line(text).last() == ':' && other_lines(
                text,
            ) == body
            &&& !is_labelled(bytes, starts, at) ==> text == body
        }),
{
    let at = starts[k];
    let text = text_from(bytes, starts, k);
    let line = insn_text(bytes, starts, at);
    let body = line + "\n"@ + text_from(bytes, starts, k + 1);
    assert(is_whole(bytes, at));
    lemma_insn_text(bytes, starts, at);
    lemma_split_line(line, text_from(bytes, starts, k + 1));
    if is_labelled(bytes, starts, at) {
        let name = label_name(label_number(bytes, starts, at));
        reveal_strlit(":");
        reveal_strlit("\n");
        reveal_strlit(":\n");
        lemma_label_name(label_number(bytes, starts, at));
        assert forall|i: int| 0 <= i < (name + ":"@).len() implies #[trigger] (name + ":"@)[i]
            != '\n' by {
            if i < name.len() {
                assert((name + ":"@)[i] == name[i]);
            }
        }
        lemma_split_line(name + ":"@, body);
        assert(text =~= name + ":"@ + "\n"@ + body);
    } else {
        assert(text =~= body);
    }
}

/// From instruction number `k` on the two programs have their instructions at the
/// same offsets, with the same lines and the same offsets labelled.
spec fn alike_from(a: Seq<u8>, sa: Seq<int>, b: Seq<u8>, sb: Seq<int>, k: int) -> bool {
    &&& sa.len() == sb.len()
    &&& forall|j: int|
        k <= j < sa.len() ==> {
            &&& #[trigger] sa[j] == sb[j]
            &&& is_labelled(a, sa, sa[j]) == is_labelled(b, sb, sa[j])
            &&& insn_text(a, sa, sa[j]) == insn_text(b, sb, sa[j])
        }
}

/// Instructions with the same line have the same opcode and spell the same operand.
proof fn lemma_same_line(a: Seq<u8>, sa: Seq<int>, b: Seq<u8>, sb: Seq<int>, at: int)
    requires
        is_whole(a, at),
        is_whole(b, at),
        insn_text(a, sa, at) == insn_text(b, sb, at),
    ensures
        a[at] == b[at],
        spelled_operand(a, sa, at) == spelled_operand(b, sb, at),
{
    lemma_insn_text(a, sa, at);
    lemma_insn_text(b, sb, at);
    lemma_statement(a, sa, at);
    lemma_statement(b, sb, at);
}

proof fn lemma_same_text(a: Seq<u8>, sa: Seq<int>, b: Seq<u8>, sb: Seq<int>, k: int)
    requires
        fills(a, 0, sa),
        fills(b, 0, sb),
        0 <= k <= sa.len(),
        k <= sb.len(),
        k < sa.len() && k < sb.len() ==> sa[k] == sb[k],
        text_from(a, sa, k) == text_from(b, sb, k),
    ensures
        alike_from(a, sa, b, sb, k),
    decreases sa.len() - k,
{
    if k < sa.len() {
        lemma_text_lines(a, sa, k);
    }
    if k < sb.len() {
        lemma_text_lines(b, sb, k);
    }
    if k < sa.len() && k < sb.len() {
        let at = sa[k];
        assert(is_labelled(a, sa, at) == is_labelled(b, sb, at));
        assert(is_whole(a, at) && is_whole(b, at));
        lemma_same_line(a, sa, b, sb, at);
        if k + 1 < sa.len() {
            assert(sa[k + 1] == next_at(a, sa[k]));
        }
        if k + 1 < sb.len() {
            assert(sb[k + 1] == next_at(b, sb[k]));
        }
        lemma_same_text(a, sa, b, sb, k + 1);
        assert forall|j: int| k <= j < sa.len() implies {
            &&& #[trigger] sa[j] == sb[j]
            &&& is_labelled(a, sa, sa[j]) == is_labelled(b, sb, sa[j])
            &&& insn_text(a, sa, sa[j]) == insn_text(b, sb, sa[j])
        } by {
            if j > k {
                assert(sa[j] == sb[j]);
            }
        }
    }
}

/// Where the same offsets are labelled, their numbers are the same.
proof fn lemma_same_numbers(a: Seq<u8>, b: Seq<u8>, starts: Seq<int>, target: int)
    requires
        alike_from(a, starts, b, starts, 0),
    ensures
        label_number(a, starts, target) == label_number(b, starts, target),
    decreases target,
{
    if target > 0 {
        lemma_same_numbers(a, b, starts, target - 1);
        if starts.contains(target - 1) {
            let j = choose|j: int| 0 <= j < starts.len() && starts[j] == target - 1;
            assert(is_labelled(a, starts, starts[j]) == is_labelled(b, starts, starts[j]));
        }
    }
}

/// Two labelled offsets with the same number are the same.
proof fn lemma_number_fixes_target(bytes: Seq<u8>, starts: Seq<int>, one: int, other: int)
    requires
        0 <= one,
        0 <= other,
        is_labelled(bytes, starts, one),
        is_labelled(bytes, starts, other),
        label_number(bytes, starts, one) == label_number(bytes, starts, other),
    ensures
        one == other,
{
    if one < other {
        labels_ascend(bytes, starts, one, other);
    } else if other < one {
        labels_ascend(bytes, starts, other, one);
    }
}

/// Programs that are alike have the same bytes in every instruction.
proof fn lemma_same_insn(a: Seq<u8>, b: Seq<u8>, starts: Seq<int>, k: int)
    requires
        fills(a, 0, starts),
        fills(b, 0, starts),
        alike_from(a, starts, b, starts, 0),
        0 <= k < starts.len(),
    ensures
        next_at(a, starts[k]) == next_at(b, starts[k]),
        a.subrange(starts[k], next_at(a, starts[k])) == b.subrange(
            starts[k],
            next_at(b, starts[k]),
        ),
{
    let at = starts[k];
    assert(is_whole(a, at) && is_whole(b, at));
    lemma_same_line(a, starts, b, starts, at);
    lemma_immediate(a, at);
    lemma_immediate(b, at);
    lemma_byte_limits();
    let ia = immediate(a, at);
    let ib = immediate(b, at);
    le_bytes_of_little_endian(ia);
    le_bytes_of_little_endian(ib);
    match imm_at(a, at) {
        Imm::Absent => {},
        Imm::U8Pair => {
            assert(ia =~= ib);
        },
        Imm::Rel16 => {
            let da = destination(a, at);
            let db = destination(b, at);
            if starts.contains(da) {
                lemma_label_names_differ(
                    label_number(a, starts, da),
                    label_number(b, starts, db),
                );
                lemma_same_numbers(a, b, starts, da);
                assert(is_reached(a, starts, da)) by {
                    assert(imm_at(a, starts[k]) is Rel16);
                }
                assert(is_reached(b, starts, db)) by {
                    assert(imm_at(b, starts[k]) is Rel16);
                }
                let j = choose|j: int| 0 <= j < starts.len() && starts[j] == da;
                assert(is_labelled(a, starts, starts[j]) == is_labelled(b, starts, starts[j]));
                let i = choose|i: int| 0 <= i < starts.len() && starts[i] == db;
                assert(starts[i] >= 0);
                lemma_number_fixes_target(b, starts, da, db);
            }
            assert(displacement(a, at) == displacement(b, at));
            assert(little_endian(ia) == little_endian(ib));
        },
        _ => {},
    }
    assert(ia == ib);
    assert(a.subrange(at, next_at(a, at)) =~= seq![a[at]] + ia);
    assert(b.subrange(at, next_at(b, at)) =~= seq![b[at]] + ib);
}

/// Programs that are alike have the same bytes from instruction number `k` on.
proof fn lemma_same_tail(a: Seq<u8>, b: Seq<u8>, starts: Seq<int>, k: int)
    requires
        fills(a, 0, starts),
        fills(b, 0, starts),
        alike_from(a, starts, b, starts, 0),
        0 <= k <= starts.len(),
    ensures
        a.len() == b.len(),
        a.skip(offset_of(a, starts, k)) == b.skip(offset_of(b, starts, k)),
    decreases starts.len() - k,
{
    if k < starts.len() {
        let at = starts[k];
        lemma_same_tail(a, b, starts, k + 1);
        lemma_same_insn(a, b, starts, k);
        lemma_label_number_next(a, starts, k);
        lemma_label_number_next(b, starts, k);
        assert(a.skip(at) =~= a.subrange(at, next_at(a, at)) + a.skip(next_at(a, at)));
        assert(b.skip(at) =~= b.subrange(at, next_at(b, at)) + b.skip(next_at(b, at)));
    } else {
        if starts.len() > 0 {
            lemma_same_insn(a, b, starts, starts.len() - 1);
        }
        assert(a.skip(a.len() as int) =~= b.skip(b.len() as int));
    }
}

/// Different programs have different canonical texts, however long they are and
/// wherever they jump.
pub proof fn canonical_texts_differ(a: Seq<u8>, b: Seq<u8>)
    requires
        disassembly(a) is Ok,
        disassembly(a) == disassembly(b),
    ensures
        a == b,
{
    let sa = starts_from(a, 0)->Ok_0;
    let sb = starts_from(b, 0)->Ok_0;
    lemma_starts_fill(a, 0);
    lemma_starts_fill(b, 0);
    lemma_same_text(a, sa, b, sb, 0);
    assert(sa =~= sb);
    lemma_same_tail(a, b, sa, 0);
    assert(a.skip(0) =~= a && b.skip(0) =~= b);
    assert(sa.len() == 0 ==> a.len() == 0 && b.len() == 0);
}

} // verus!
