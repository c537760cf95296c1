//! What the lines of a source stand for, and what they are encoded to.
//!
//! The laws here speak of opcode bytes, of the numbers and names that were written, and
//! of the bytes that come out.

use vstd::prelude::*;

use crate::assembly::{
    code, commas_line, encode, is_label, label_offset, opcode_named, read_line, read_lines,
    read_statement, signed, statement, unsigned, Diagnostic, Insn, Listing, Operand, Placed,
};
use crate::effects::{immediate_bytes, is_instruction};
use crate::encoding::{le_bytes, lemma_byte_limits, little_endian_of_le_bytes, pattern_16};
use crate::instruction::description;
use crate::number::{decimal, signed_decimal};
use crate::source_laws::a_mnemonic_in_any_case_names_its_instruction;
use crate::text::{
    first_line, is_separator, lemma_find, lemma_first_word, other_lines, trim, upper, words,
};

verus! {

// ---------------------------------------------------------------------------
// Mnemonics
// ---------------------------------------------------------------------------

/// A word names an instruction exactly if it is its mnemonic, letter by letter, in
/// whatever case.
pub proof fn only_a_mnemonic_names_an_instruction(word: Seq<char>, opcode: u8)
    ensures
        opcode_named(word) == Some(opcode) <==> {
            &&& description(opcode) matches Some(info)
            &&& word.len() == info.mnemonic@.len()
            &&& forall|i: int|
                0 <= i < word.len() ==> upper(#[trigger] word[i]) == upper(info.mnemonic@[i])
        },
{
    a_mnemonic_in_any_case_names_its_instruction(word, opcode);
    if let Some(info) = description(opcode) {
        let m = info.mnemonic@;
        if crate::text::same_ignoring_case(m, word) {
            assert forall|i: int| 0 <= i < word.len() implies upper(#[trigger] word[i]) == upper(
                m[i],
            ) by {
                assert(upper(m[i]) == upper(word[i]));
            }
        }
        if word.len() == m.len() && forall|i: int|
            0 <= i < word.len() ==> upper(#[trigger] word[i]) == upper(m[i]) {
            assert forall|i: int| 0 <= i < m.len() implies upper(#[trigger] m[i]) == upper(
                word[i],
            ) by {
                assert(upper(word[i]) == upper(m[i]));
            }
        }
    }
}

/// The word is `PUSH`, in whatever case.
pub open spec fn is_push(word: Seq<char>) -> bool {
    &&& word.len() == 4
    &&& upper(word[0]) == 'P'
    &&& upper(word[1]) == 'U'
    &&& upper(word[2]) == 'S'
    &&& upper(word[3]) == 'H'
}

proof fn lemma_push(word: Seq<char>)
    ensures
        is_push(word) <==> crate::text::same_ignoring_case("PUSH"@, word),
{
    reveal_strlit("PUSH");
    let p = "PUSH"@;
    assert(p =~= seq!['P', 'U', 'S', 'H']);
    if crate::text::same_ignoring_case(p, word) {
        assert(upper(p[0]) == upper(word[0]) && upper(p[1]) == upper(word[1]));
        assert(upper(p[2]) == upper(word[2]) && upper(p[3]) == upper(word[3]));
    }
}

// ---------------------------------------------------------------------------
// Statements
// ---------------------------------------------------------------------------

/// A statement has at most a mnemonic and two operands, and its mnemonic is that of an
/// instruction.
pub proof fn statements_that_are_none(t: Seq<Seq<char>>)
    requires
        t.len() > 0,
    ensures
        t.len() > 3 ==> statement(t) == Err::<Insn, Seq<char>>(
            "unexpected operand `"@ + t[3] + "`"@,
        ),
        t.len() <= 3 && !is_push(t[0]) && opcode_named(t[0]) is None ==> statement(t) == Err::<
            Insn,
            Seq<char>,
        >("unknown instruction `"@ + t[0] + "`"@),
{
    lemma_push(t[0]);
}

/// The instruction without a width pushes its operand with the narrowest of the four
/// that hold it.
pub proof fn push_picks_its_width(t: Seq<Seq<char>>)
    requires
        1 <= t.len() <= 3,
        is_push(t[0]),
    ensures
        t.len() == 1 ==> statement(t) == Err::<Insn, Seq<char>>("PUSH needs an operand"@),
        t.len() > 1 && unsigned(t[1]) is None ==> statement(t) == Err::<Insn, Seq<char>>(
            "`"@ + t[1] + "` is not an unsigned integer"@,
        ),
        t.len() == 3 && unsigned(t[1]) is Some ==> statement(t) == Err::<Insn, Seq<char>>(
            t[0] + " takes one operand, found `"@ + t[2] + "`"@,
        ),
        t.len() == 2 ==> (unsigned(t[1]) matches Some(value) ==> statement(t) == Ok::<
            Insn,
            Seq<char>,
        >(
            Insn {
                opcode: if value < 0x100 {
                    0x10
                } else if value < 0x1_0000 {
                    0x11
                } else if value < 0x1_0000_0000 {
                    0x12
                } else {
                    0x13
                },
                operand: Operand::Number(value),
            },
        )),
{
    lemma_push(t[0]);
    lemma_byte_limits();
}

/// An instruction without an immediate takes no operand.
pub proof fn statements_without_operand(t: Seq<Seq<char>>, opcode: u8)
    requires
        1 <= t.len() <= 3,
        opcode_named(t[0]) == Some(opcode),
        immediate_bytes(opcode) == 0,
    ensures
        t.len() == 1 ==> statement(t) == Ok::<Insn, Seq<char>>(
            Insn { opcode, operand: Operand::Absent },
        ),
        t.len() == 2 ==> statement(t) == Err::<Insn, Seq<char>>(
            t[0] + " takes no operand, found `"@ + t[1] + "`"@,
        ),
        t.len() == 3 ==> statement(t) == Err::<Insn, Seq<char>>(
            t[0] + " takes one operand, found `"@ + t[2] + "`"@,
        ),
{
    lemma_named(t[0], opcode);
}

proof fn lemma_named(word: Seq<char>, opcode: u8)
    requires
        opcode_named(word) == Some(opcode),
    ensures
        description(opcode) is Some,
        is_instruction(opcode),
        !crate::text::same_ignoring_case("PUSH"@, word),
{
    a_mnemonic_in_any_case_names_its_instruction(word, opcode);
}

/// An instruction that takes one number takes every number that fits in its immediate,
/// and no other.
pub proof fn statements_with_a_number(t: Seq<Seq<char>>, opcode: u8)
    requires
        1 <= t.len() <= 3,
        opcode_named(t[0]) == Some(opcode),
        0x10 <= opcode <= 0x13 || 0x30 <= opcode <= 0x32,
    ensures
        t.len() == 1 ==> statement(t) == Err::<Insn, Seq<char>>(t[0] + " needs an operand"@),
        t.len() == 3 ==> statement(t) == Err::<Insn, Seq<char>>(
            t[0] + " takes one operand, found `"@ + t[2] + "`"@,
        ),
        t.len() == 2 ==> match unsigned(t[1]) {
            None => statement(t) == Err::<Insn, Seq<char>>(
                "`"@ + t[1] + "` is not an unsigned integer"@,
            ),
            Some(value) => {
                let limit: int = if opcode == 0x11 {
                    0x1_0000
                } else if opcode == 0x12 {
                    0x1_0000_0000
                } else if opcode == 0x13 {
                    0x1_0000_0000_0000_0000
                } else {
                    0x100
                };
                let bits: nat = if opcode == 0x11 {
                    16
                } else if opcode == 0x12 {
                    32
                } else if opcode == 0x13 {
                    64
                } else {
                    8
                };
                statement(t) == if value < limit {
                    Ok::<Insn, Seq<char>>(Insn { opcode, operand: Operand::Number(value) })
                } else {
                    Err::<Insn, Seq<char>>(
                        "operand "@ + decimal(value) + " does not fit in "@ + decimal(bits)
                            + " bits"@,
                    )
                }
            },
        },
{
    lemma_named(t[0], opcode);
    lemma_byte_limits();
}

/// `GETPARAM` takes a key and an argument count, in this order, each of one byte.
pub proof fn statements_with_a_pair(t: Seq<Seq<char>>)
    requires
        1 <= t.len() <= 3,
        opcode_named(t[0]) == Some(0x70u8),
    ensures
        t.len() == 1 ==> statement(t) == Err::<Insn, Seq<char>>(
            t[0] + " needs a key and an argument count"@,
        ),
        t.len() == 2 ==> statement(t) == Err::<Insn, Seq<char>>(
            t[0] + " needs an argument count after the key"@,
        ),
        t.len() == 3 ==> statement(t) == match (unsigned(t[1]), unsigned(t[2])) {
            (None, _) => Err::<Insn, Seq<char>>("`"@ + t[1] + "` is not an unsigned integer"@),
            (_, None) => Err::<Insn, Seq<char>>("`"@ + t[2] + "` is not an unsigned integer"@),
            (Some(key), Some(count)) => if key >= 0x100 {
                Err::<Insn, Seq<char>>("key "@ + decimal(key) + " does not fit in 8 bits"@)
            } else if count >= 0x100 {
                Err::<Insn, Seq<char>>(
                    "argument count "@ + decimal(count) + " does not fit in 8 bits"@,
                )
            } else {
                Ok::<Insn, Seq<char>>(Insn { opcode: 0x70, operand: Operand::Pair(key, count) })
            },
        },
{
    lemma_named(t[0], 0x70);
}

/// A jump takes a label, or a displacement of 16 bits.
pub proof fn statements_with_a_destination(t: Seq<Seq<char>>, opcode: u8)
    requires
        1 <= t.len() <= 3,
        opcode_named(t[0]) == Some(opcode),
        0x02 <= opcode <= 0x04,
    ensures
        t.len() == 1 ==> statement(t) == Err::<Insn, Seq<char>>(
            t[0] + " needs a label or displacement"@,
        ),
        t.len() == 3 ==> statement(t) == Err::<Insn, Seq<char>>(
            t[0] + " takes one operand, found `"@ + t[2] + "`"@,
        ),
        t.len() == 2 && is_label(t[1]) ==> statement(t) == Ok::<Insn, Seq<char>>(
            Insn { opcode, operand: Operand::Label(t[1]) },
        ),
        t.len() == 2 && !is_label(t[1]) ==> statement(t) == match signed(t[1]) {
            None => Err::<Insn, Seq<char>>(
                "`"@ + t[1] + "` is neither a label nor a displacement"@,
            ),
            Some(d) => if -0x8000 <= d < 0x8000 {
                Ok::<Insn, Seq<char>>(Insn { opcode, operand: Operand::Displacement(d) })
            } else {
                Err::<Insn, Seq<char>>(
                    "displacement "@ + signed_decimal(d) + " does not fit in i16"@,
                )
            },
        },
{
    lemma_named(t[0], opcode);
}

// ---------------------------------------------------------------------------
// Words and lines
// ---------------------------------------------------------------------------

/// Words are what separators, which are white space and commas, leave between them.
pub proof fn words_stand_between_separators(word: Seq<char>, c: char, rest: Seq<char>)
    ensures
        words(Seq::empty()).len() == 0,
        is_separator(c) ==> words(seq![c] + rest) == words(rest),
        is_separator(c) && word.len() > 0 && (forall|i: int|
            0 <= i < word.len() ==> !is_separator(#[trigger] word[i])) ==> {
            &&& words(word) == seq![word]
            &&& words(word + seq![c] + rest) == seq![word] + words(rest)
        },
{
    assert((seq![c] + rest).drop_first() =~= rest);
    if is_separator(c) && word.len() > 0 && (forall|i: int|
        0 <= i < word.len() ==> !is_separator(#[trigger] word[i])) {
        lemma_first_word(word, Seq::empty());
        assert(word + Seq::<char>::empty() =~= word);
        assert(words(word) =~= seq![word]);
        lemma_first_word(word, seq![c] + rest);
        assert(word + seq![c] + rest =~= word + (seq![c] + rest));
    }
}

/// A source is its lines: each is read into what the lines before it gave, under a
/// number one greater than theirs, and the first mistake ends it. A line is ended by a
/// line feed, before which a carriage return is no part of it; the last needs no ending.
pub proof fn lines_are_read_in_order(
    so_far: Listing,
    number: nat,
    line: Seq<char>,
    ending: Seq<char>,
    rest: Seq<char>,
)
    requires
        forall|i: int| 0 <= i < line.len() ==> #[trigger] line[i] != '\n',
        ending == seq!['\n'] && line.len() > 0 ==> line.last() != '\r',
        ending == seq!['\n'] || ending == seq!['\r', '\n'] || (ending.len() == 0 && rest.len() == 0
            && line.len() > 0),
    ensures
        read_lines(so_far, number, Seq::empty()) == Some(Ok::<Listing, Diagnostic>(so_far)),
        read_lines(so_far, number, line + ending + rest) == match read_line(so_far, number, line) {
            Some(Ok(listing)) => read_lines(listing, number + 1, rest),
            other => other,
        },
        commas_line(so_far, number, Seq::empty()) is None,
        commas_line(so_far, number, line + ending + rest) == match read_line(
            so_far,
            number,
            line,
        ) {
            None => Some(number),
            Some(Err(_)) => None,
            Some(Ok(listing)) => commas_line(listing, number + 1, rest),
        },
{
    let whole = line + ending + rest;
    if ending.len() == 0 {
        assert(whole =~= line);
        lemma_find(whole, '\n', whole.len() as int);
        assert(whole.take(whole.len() as int) =~= whole);
        assert(other_lines(whole) =~= rest);
    } else {
        let n = line.len() + ending.len() - 1;
        assert forall|i: int| 0 <= i < n implies whole[i] != '\n' by {
            if i < line.len() {
                assert(whole[i] == line[i]);
            }
        }
        assert(whole[n] == ending.last());
        lemma_find(whole, '\n', n);
        if ending.len() == 1 {
            assert(n > 0 ==> whole[n - 1] == line.last());
            assert(whole.take(n) =~= line);
        } else {
            assert(whole[n - 1] == '\r');
            assert(whole.take(n - 1) =~= line);
        }
        assert(first_line(whole) == line);
        assert(whole.skip(n + 1) =~= rest);
    }
}

/// What a line says stands before its first semicolon, and white space around it is no
/// part of it.
pub proof fn a_line_ends_at_its_comment(said: Seq<char>, comment: Seq<char>)
    requires
        forall|i: int| 0 <= i < said.len() ==> #[trigger] said[i] != ';',
    ensures
        code(said) == trim(said),
        code(said + seq![';'] + comment) == trim(said),
{
    let n = said.len() as int;
    let raw = said + seq![';'] + comment;
    lemma_find(said, ';', n);
    assert(said.take(n) =~= said);
    assert forall|i: int| 0 <= i < n implies raw[i] != ';' by {
        assert(raw[i] == said[i]);
    }
    lemma_find(raw, ';', n);
    assert(raw.take(n) =~= said);
}

/// A line without a colon is a statement. What stands before the first colon of a line
/// is a label, which has to be a name that no earlier line has defined and points behind
/// the instructions read so far; the statement stands behind the colon.
pub proof fn labels_stand_before_a_colon(
    so_far: Listing,
    line: nat,
    raw: Seq<char>,
    name: Seq<char>,
    behind: Seq<char>,
)
    ensures
        (forall|i: int| 0 <= i < code(raw).len() ==> #[trigger] code(raw)[i] != ':') ==> read_line(
            so_far,
            line,
            raw,
        ) == read_statement(so_far, line, code(raw)),
        code(raw) == name + seq![':'] + behind && (forall|i: int|
            0 <= i < name.len() ==> #[trigger] name[i] != ':') ==> {
            let label = trim(name);
            let known = exists|i: int|
                0 <= i < so_far.labels.len() && (#[trigger] so_far.labels[i]).0 == label;
            read_line(so_far, line, raw) == if !is_label(label) {
                Some(
                    Err::<Listing, Diagnostic>(
                        Diagnostic { line, message: "`"@ + label + "` is not a valid label name"@ },
                    ),
                )
            } else if known {
                Some(
                    Err::<Listing, Diagnostic>(
                        Diagnostic {
                            line,
                            message: "label `"@ + label + "` is defined more than once"@,
                        },
                    ),
                )
            } else {
                read_statement(
                    Listing {
                        labels: so_far.labels.push((label, so_far.size)),
                        insns: so_far.insns,
                        size: so_far.size,
                    },
                    line,
                    trim(behind),
                )
            }
        },
{
    let text = code(raw);
    if forall|i: int| 0 <= i < text.len() ==> #[trigger] text[i] != ':' {
        lemma_find(text, ':', text.len() as int);
    }
    if text == name + seq![':'] + behind && (forall|i: int|
        0 <= i < name.len() ==> #[trigger] name[i] != ':') {
        let n = name.len() as int;
        assert forall|i: int| 0 <= i < n implies text[i] != ':' by {
            assert(text[i] == name[i]);
        }
        lemma_find(text, ':', n);
        assert(text.take(n) =~= name);
        assert(text.skip(n + 1) =~= behind);
    }
}

/// A statement adds its instruction behind those read so far, unless the program would
/// become longer than 255 bytes. A line without one adds nothing.
pub proof fn statements_are_added_in_order(so_far: Listing, line: nat, text: Seq<char>)
    ensures
        text.len() == 0 ==> read_statement(so_far, line, text) == Some(
            Ok::<Listing, Diagnostic>(so_far),
        ),
        text.len() > 0 && words(text).len() == 0 ==> read_statement(so_far, line, text) is None,
        text.len() > 0 && words(text).len() > 0 ==> match statement(words(text)) {
            Err(message) => read_statement(so_far, line, text) == Some(
                Err::<Listing, Diagnostic>(Diagnostic { line, message }),
            ),
            Ok(insn) => {
                let size = so_far.size + 1 + immediate_bytes(insn.opcode);
                if size > 255 {
                    read_statement(so_far, line, text) == Some(
                        Err::<Listing, Diagnostic>(
                            Diagnostic {
                                line,
                                message: "program exceeds the 255-byte limit imposed by the configuration framing"@,
                            },
                        ),
                    )
                } else {
                    &&& read_statement(so_far, line, text) matches Some(Ok(listing))
                    &&& listing.labels == so_far.labels
                    &&& listing.insns == so_far.insns.push(
                        Placed { line, offset: so_far.size, insn },
                    )
                    &&& listing.size == size
                }
            },
        },
{
    if text.len() > 0 && words(text).len() > 0 {
        if let Ok(insn) = statement(words(text)) {
            let t = words(text);
            lemma_push(t[0]);
            if !is_push(t[0]) {
                lemma_named(t[0], insn.opcode);
            }
        }
    }
}

// ---------------------------------------------------------------------------
// Encoding
// ---------------------------------------------------------------------------

/// An instruction without an operand is its opcode, and a pair is the opcode, the key
/// and the count.
pub proof fn plain_instructions_are_encoded(listing: Listing, placed: Placed)
    ensures
        placed.insn.operand is Absent ==> encode(listing, placed) == Ok::<Seq<u8>, Diagnostic>(
            seq![placed.insn.opcode],
        ),
        placed.insn.operand matches Operand::Pair(key, count) ==> {
            &&& encode(listing, placed) matches Ok(bytes)
            &&& bytes.len() == 3
            &&& bytes[0] == placed.insn.opcode
            &&& key < 0x100 ==> bytes[1] == key
            &&& count < 0x100 ==> bytes[2] == count
        },
{
}

/// A number is encoded behind its opcode, least significant byte first, in as many
/// bytes as the instruction has.
pub proof fn numbers_are_encoded_little_endian(listing: Listing, placed: Placed, value: nat)
    requires
        placed.insn.operand == Operand::Number(value),
    ensures
        (placed.insn.opcode == 0x10 || 0x30 <= placed.insn.opcode <= 0x32) && value < 0x100 ==> {
            &&& encode(listing, placed) matches Ok(b)
            &&& b.len() == 2 && b[0] == placed.insn.opcode && b[1] == value
        },
        placed.insn.opcode == 0x11 && value < 0x1_0000 ==> {
            &&& encode(listing, placed) matches Ok(b)
            &&& b.len() == 3 && b[0] == 0x11
            &&& b[1] + 0x100 * b[2] == value
        },
        placed.insn.opcode == 0x12 && value < 0x1_0000_0000 ==> {
            &&& encode(listing, placed) matches Ok(b)
            &&& b.len() == 5 && b[0] == 0x12
            &&& b[1] + 0x100 * b[2] + 0x1_0000 * b[3] + 0x100_0000 * b[4] == value
        },
        placed.insn.opcode == 0x13 && value < 0x1_0000_0000_0000_0000 ==> {
            &&& encode(listing, placed) matches Ok(b)
            &&& b.len() == 9 && b[0] == 0x13
            &&& b[1] + 0x100 * b[2] + 0x1_0000 * b[3] + 0x100_0000 * b[4] + 0x1_0000_0000 * b[5]
                + 0x100_0000_0000 * b[6] + 0x1_0000_0000_0000 * b[7] + 0x100_0000_0000_0000 * b[8]
                == value
        },
{
    lemma_byte_limits();
    let opcode = placed.insn.opcode;
    if (opcode == 0x10 || 0x30 <= opcode <= 0x32) && value < 0x100 {
        lemma_encoded_number(value, 1);
    } else if opcode == 0x11 && value < 0x1_0000 {
        lemma_encoded_number(value, 2);
    } else if opcode == 0x12 && value < 0x1_0000_0000 {
        lemma_encoded_number(value, 4);
    } else if opcode == 0x13 && value < 0x1_0000_0000_0000_0000 {
        lemma_encoded_number(value, 8);
    }
}

proof fn lemma_encoded_number(value: nat, width: nat)
    requires
        width == 1 || width == 2 || width == 4 || width == 8,
        value < crate::encoding::byte_limit(width),
    ensures
        ({
            let b = le_bytes(value, width);
            &&& b.len() == width
            &&& width == 1 ==> b[0] == value
            &&& width == 2 ==> b[0] + 0x100 * b[1] == value
            &&& width == 4 ==> b[0] + 0x100 * b[1] + 0x1_0000 * b[2] + 0x100_0000 * b[3] == value
            &&& width == 8 ==> b[0] + 0x100 * b[1] + 0x1_0000 * b[2] + 0x100_0000 * b[3]
                + 0x1_0000_0000 * b[4] + 0x100_0000_0000 * b[5] + 0x1_0000_0000_0000 * b[6]
                + 0x100_0000_0000_0000 * b[7] == value
        }),
{
    little_endian_of_le_bytes(value, width);
    crate::effects::lemma_unfold(le_bytes(value, width));
}

/// The displacement that two bytes spell, least significant first: a set top bit makes
/// it negative.
pub open spec fn displacement_of(low: u8, high: u8) -> int {
    low + 0x100 * high - (if high >= 0x80 {
        0x1_0000int
    } else {
        0
    })
}

/// The program is as long as `listing` says, and the jump `placed` leads to `target`:
/// inside the program it is encoded as its opcode and the way from the byte behind it to
/// the target, and outside it is refused.
pub open spec fn leads_to(listing: Listing, placed: Placed, target: int) -> bool {
    if 0 <= target < listing.size {
        &&& encode(listing, placed) matches Ok(b)
        &&& b.len() == 3
        &&& b[0] == placed.insn.opcode
        &&& placed.offset + 3 + displacement_of(b[1], b[2]) == target
    } else {
        encode(listing, placed) == Err::<Seq<u8>, Diagnostic>(
            Diagnostic {
                line: placed.line,
                message: "jump destination "@ + signed_decimal(target) + " falls outside the "@
                    + decimal(listing.size) + "-byte program"@,
            },
        )
    }
}

/// A jump by a displacement leads as far behind itself as it says. A jump to a label
/// leads to where the label points, and one to a label that no line defines is refused.
pub proof fn jumps_lead_to_their_targets(listing: Listing, placed: Placed)
    requires
        listing.size <= 255,
        placed.offset <= 255,
    ensures
        placed.insn.operand matches Operand::Displacement(d) ==> (-0x8000 <= d < 0x8000 ==> leads_to(
            listing,
            placed,
            placed.offset + 3 + d,
        )),
        placed.insn.operand matches Operand::Label(name) ==> match label_offset(
            listing.labels,
            name,
        ) {
            Some(target) => target <= 255 ==> leads_to(listing, placed, target as int),
            None => encode(listing, placed) == Err::<Seq<u8>, Diagnostic>(
                Diagnostic { line: placed.line, message: "undefined label `"@ + name + "`"@ },
            ),
        },
{
    lemma_byte_limits();
    if let Operand::Displacement(d) = placed.insn.operand {
        if -0x8000 <= d < 0x8000 {
            lemma_encoded_number(pattern_16(d) as nat, 2);
        }
    }
    if let Operand::Label(name) = placed.insn.operand {
        if let Some(target) = label_offset(listing.labels, name) {
            if target <= 255 {
                lemma_encoded_number(pattern_16(target - (placed.offset + 3)) as nat, 2);
            }
        }
    }
}

/// A label points where the line that defines it says: the first of that name counts,
/// and a name that none has points nowhere.
pub proof fn labels_point_where_they_were_defined(
    labels: Seq<(Seq<char>, nat)>,
    name: Seq<char>,
    i: int,
)
    requires
        forall|j: int| 0 <= j < i && j < labels.len() ==> (#[trigger] labels[j]).0 != name,
        0 <= i <= labels.len(),
    ensures
        i < labels.len() && labels[i].0 == name ==> label_offset(labels, name) == Some(labels[i].1),
        i == labels.len() ==> label_offset(labels, name) is None,
    decreases labels.len(),
{
    if labels.len() > 0 && i > 0 {
        let rest = labels.drop_first();
        assert(labels[0].0 != name);
        assert forall|j: int| 0 <= j < i - 1 && j < rest.len() implies (#[trigger] rest[j]).0
            != name by {
            assert(rest[j] == labels[j + 1]);
        }
        labels_point_where_they_were_defined(rest, name, i - 1);
        if i < labels.len() {
            assert(rest[i - 1] == labels[i]);
        }
    }
}

} // verus!
