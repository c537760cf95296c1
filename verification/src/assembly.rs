//! What assembly source means: the bytecode it stands for, or the diagnostic it
//! earns.
//!
//! Source is read line by line. A line is an optional label, an optional statement
//! and an optional comment. A statement is a mnemonic and its operands.

use vstd::prelude::*;

use crate::encoding::{le_bytes, pattern_16};
use crate::instruction::{description, Imm};
use crate::number::{decimal, number, signed_decimal};
use crate::opcode as op;
use crate::text::{
    find, first_line, is_ascii_digit, is_ascii_letter, other_lines, same_ignoring_case, trim,
    words,
};

verus! {

/// The 255-byte ceiling on a program, imposed by the one-byte length in the framing
/// of a configuration payload rather than by the machine.
pub const MAX_PROGRAM_LEN: usize = 255;

/// Why a source text could not be assembled, and which line is to blame, counted
/// from one.
pub struct Diagnostic {
    pub line: nat,
    pub message: Seq<char>,
}

/// What was written behind a mnemonic.
pub enum Operand {
    Absent,
    Number(nat),
    Pair(nat, nat),
    Label(Seq<char>),
    Displacement(int),
}

/// One instruction of a program.
pub struct Insn {
    pub opcode: u8,
    pub operand: Operand,
}

/// One instruction, its line in the source and its offset in the program.
pub struct Placed {
    pub line: nat,
    pub offset: nat,
    pub insn: Insn,
}

/// What has been read of a source text: where its labels point, its instructions,
/// and how many bytes they take.
#[verifier::ext_equal]
pub struct Listing {
    pub labels: Seq<(Seq<char>, nat)>,
    pub insns: Seq<Placed>,
    pub size: nat,
}

// ---------------------------------------------------------------------------
// Words
// ---------------------------------------------------------------------------

/// A label name: an ASCII letter or an underscore, then letters, digits and
/// underscores.
pub open spec fn is_label(name: Seq<char>) -> bool {
    &&& name.len() > 0
    &&& is_ascii_letter(name[0]) || name[0] == '_'
    &&& forall|i: int|
        1 <= i < name.len() ==> {
            ||| is_ascii_letter(#[trigger] name[i])
            ||| is_ascii_digit(name[i])
            ||| name[i] == '_'
        }
}

/// A decimal number, or a hexadecimal one behind `0x`.
pub open spec fn unsigned(word: Seq<char>) -> Option<nat> {
    if word.len() >= 2 && word[0] == '0' && (word[1] == 'x' || word[1] == 'X') {
        number(word.skip(2), 16, u64::MAX as nat)
    } else {
        number(word, 10, u64::MAX as nat)
    }
}

/// An unsigned number with an optional minus sign before it, within what an `i64`
/// and its negation hold.
pub open spec fn signed(word: Seq<char>) -> Option<int> {
    let negative = word.len() > 0 && word[0] == '-';
    let magnitude = if negative {
        unsigned(word.drop_first())
    } else {
        unsigned(word)
    };
    match magnitude {
        Some(v) => if v > i64::MAX {
            None
        } else if negative {
            Some(-v)
        } else {
            Some(v as int)
        },
        None => None,
    }
}

/// `word` is the mnemonic of `opcode`, in either case.
pub open spec fn names(opcode: u8, word: Seq<char>) -> bool {
    description(opcode) matches Some(info) && same_ignoring_case(info.mnemonic@, word)
}

/// The opcode whose mnemonic `word` is.
pub open spec fn opcode_named(word: Seq<char>) -> Option<u8> {
    if exists|opcode: u8| names(opcode, word) {
        Some(choose|opcode: u8| names(opcode, word))
    } else {
        None
    }
}

/// The narrowest `PUSH_*` instruction that holds `value`.
pub open spec fn narrowest(value: nat) -> u8 {
    if value <= u8::MAX {
        op::PUSH_U8
    } else if value <= u16::MAX {
        op::PUSH_U16
    } else if value <= u32::MAX {
        op::PUSH_U32
    } else {
        op::PUSH_U64
    }
}

// ---------------------------------------------------------------------------
// Statements
// ---------------------------------------------------------------------------

pub open spec fn not_unsigned(word: Seq<char>) -> Seq<char> {
    "`"@ + word + "` is not an unsigned integer"@
}

/// A message about the number `n`, with what comes before and after it.
pub open spec fn about_number(before: &str, n: int, after: &str) -> Seq<char> {
    before@ + signed_decimal(n) + after@
}

/// The opcode of the statement made of the words `t`. `PUSH` without a width is an
/// alias for the narrowest encoding of its operand.
pub open spec fn statement_opcode(t: Seq<Seq<char>>) -> Result<u8, Seq<char>> {
    if same_ignoring_case("PUSH"@, t[0]) {
        if t.len() < 2 {
            Err("PUSH needs an operand"@)
        } else {
            match unsigned(t[1]) {
                Some(value) => Ok(narrowest(value)),
                None => Err(not_unsigned(t[1])),
            }
        }
    } else {
        match opcode_named(t[0]) {
            Some(opcode) => Ok(opcode),
            None => Err("unknown instruction `"@ + t[0] + "`"@),
        }
    }
}

/// The operand of an instruction that takes an immediate of one number.
pub open spec fn number_operand(imm: Imm, t: Seq<Seq<char>>) -> Result<Operand, Seq<char>> {
    if t.len() < 2 {
        Err(t[0] + " needs an operand"@)
    } else {
        match unsigned(t[1]) {
            None => Err(not_unsigned(t[1])),
            Some(value) => if value >= crate::encoding::byte_limit(imm.width()) {
                Err(
                    about_number("operand ", value as int, " does not fit in ")
                        + decimal(imm.width() * 8) + " bits"@,
                )
            } else {
                Ok(Operand::Number(value))
            },
        }
    }
}

/// The operands of an instruction that takes a key and an argument count.
pub open spec fn pair_operand(t: Seq<Seq<char>>) -> Result<Operand, Seq<char>> {
    if t.len() < 2 {
        Err(t[0] + " needs a key and an argument count"@)
    } else if t.len() < 3 {
        Err(t[0] + " needs an argument count after the key"@)
    } else {
        match (unsigned(t[1]), unsigned(t[2])) {
            (None, _) => Err(not_unsigned(t[1])),
            (Some(_), None) => Err(not_unsigned(t[2])),
            (Some(key), Some(count)) => if key > u8::MAX {
                Err(about_number("key ", key as int, " does not fit in 8 bits"))
            } else if count > u8::MAX {
                Err(about_number("argument count ", count as int, " does not fit in 8 bits"))
            } else {
                Ok(Operand::Pair(key, count))
            },
        }
    }
}

/// The operand of a jump.
pub open spec fn jump_operand(t: Seq<Seq<char>>) -> Result<Operand, Seq<char>> {
    if t.len() < 2 {
        Err(t[0] + " needs a label or displacement"@)
    } else if is_label(t[1]) {
        Ok(Operand::Label(t[1]))
    } else {
        match signed(t[1]) {
            None => Err("`"@ + t[1] + "` is neither a label nor a displacement"@),
            Some(d) => if i16::MIN <= d <= i16::MAX {
                Ok(Operand::Displacement(d))
            } else {
                Err(about_number("displacement ", d, " does not fit in i16"))
            },
        }
    }
}

/// The operand that an instruction with the immediate `imm` finds in the words `t`.
pub open spec fn statement_operand(imm: Imm, t: Seq<Seq<char>>) -> Result<Operand, Seq<char>> {
    if imm != Imm::U8Pair && t.len() > 2 {
        Err(t[0] + " takes one operand, found `"@ + t[2] + "`"@)
    } else {
        match imm {
            Imm::Absent => if t.len() > 1 {
                Err(t[0] + " takes no operand, found `"@ + t[1] + "`"@)
            } else {
                Ok(Operand::Absent)
            },
            Imm::U8Pair => pair_operand(t),
            Imm::Rel16 => jump_operand(t),
            _ => number_operand(imm, t),
        }
    }
}

/// The instruction that the words `t` of a statement stand for. There is at least
/// one word.
pub open spec fn statement(t: Seq<Seq<char>>) -> Result<Insn, Seq<char>> {
    if t.len() > 3 {
        Err("unexpected operand `"@ + t[3] + "`"@)
    } else {
        match statement_opcode(t) {
            Err(message) => Err(message),
            Ok(opcode) => match statement_operand(description(opcode)->0.imm, t) {
                Err(message) => Err(message),
                Ok(operand) => Ok(Insn { opcode, operand }),
            },
        }
    }
}

// ---------------------------------------------------------------------------
// Lines
// ---------------------------------------------------------------------------

/// How many bytes the instruction `opcode` takes.
pub open spec fn length(opcode: u8) -> nat {
    1 + description(opcode)->0.imm.width()
}

/// The label `name` is among `labels`.
pub open spec fn defined(labels: Seq<(Seq<char>, nat)>, name: Seq<char>) -> bool {
    exists|i: int| 0 <= i < labels.len() && (#[trigger] labels[i]).0 == name
}

/// Reads the statement `text`, found in line `line`, into `so_far`. `None` for a
/// text made of commas only.
pub open spec fn read_statement(so_far: Listing, line: nat, text: Seq<char>) -> Option<
    Result<Listing, Diagnostic>,
> {
    if text.len() == 0 {
        Some(Ok(so_far))
    } else if words(text).len() == 0 {
        None
    } else {
        match statement(words(text)) {
            Err(message) => Some(Err(Diagnostic { line, message })),
            Ok(insn) => {
                let size = so_far.size + length(insn.opcode);
                if size > MAX_PROGRAM_LEN {
                    Some(
                        Err(
                            Diagnostic {
                                line,
                                message: "program exceeds the 255-byte limit imposed by the configuration framing"@,
                            },
                        ),
                    )
                } else {
                    Some(
                        Ok(
                            Listing {
                                labels: so_far.labels,
                                insns: so_far.insns.push(
                                    Placed { line, offset: so_far.size, insn },
                                ),
                                size,
                            },
                        ),
                    )
                }
            },
        }
    }
}

/// What a line says: everything before its first `;`.
pub open spec fn code(raw: Seq<char>) -> Seq<char> {
    trim(raw.take(find(raw, ';')))
}

/// Reads line `line` of the source into `so_far`. `None` where nothing but commas
/// stands in place of a statement.
pub open spec fn read_line(so_far: Listing, line: nat, raw: Seq<char>) -> Option<
    Result<Listing, Diagnostic>,
> {
    let text = code(raw);
    let colon = find(text, ':');
    if colon < text.len() {
        let name = trim(text.take(colon));
        if !is_label(name) {
            Some(
                Err(
                    Diagnostic { line, message: "`"@ + name + "` is not a valid label name"@ },
                ),
            )
        } else if defined(so_far.labels, name) {
            Some(
                Err(
                    Diagnostic {
                        line,
                        message: "label `"@ + name + "` is defined more than once"@,
                    },
                ),
            )
        } else {
            read_statement(
                Listing { labels: so_far.labels.push((name, so_far.size)), ..so_far },
                line,
                trim(text.skip(colon + 1)),
            )
        }
    } else {
        read_statement(so_far, line, text)
    }
}

pub proof fn lemma_other_lines_shorter(source: Seq<char>)
    ensures
        source.len() > 0 ==> other_lines(source).len() < source.len(),
{
    crate::text::lemma_find(source, '\n', 0);
}

/// Reads the lines of `source`, of which `line` is the number of the first, into
/// `so_far`.
pub open spec fn read_lines(so_far: Listing, line: nat, source: Seq<char>) -> Option<
    Result<Listing, Diagnostic>,
>
    decreases source.len(),
{
    if source.len() == 0 {
        Some(Ok(so_far))
    } else {
        proof {
            lemma_other_lines_shorter(source);
        }
        match read_line(so_far, line, first_line(source)) {
            Some(Ok(listing)) => read_lines(listing, line + 1, other_lines(source)),
            other => other,
        }
    }
}

/// The number of the first line of `source` in which nothing but commas stands in
/// place of a statement, where reading the lines into `so_far` comes to one. `line`
/// is the number of the first.
pub open spec fn commas_line(so_far: Listing, line: nat, source: Seq<char>) -> Option<nat>
    decreases source.len(),
{
    if source.len() == 0 {
        None
    } else {
        proof {
            lemma_other_lines_shorter(source);
        }
        match read_line(so_far, line, first_line(source)) {
            None => Some(line),
            Some(Err(_)) => None,
            Some(Ok(listing)) => commas_line(listing, line + 1, other_lines(source)),
        }
    }
}

/// Nothing read yet.
pub open spec fn blank() -> Listing {
    Listing { labels: Seq::empty(), insns: Seq::empty(), size: 0 }
}

// ---------------------------------------------------------------------------
// Encoding
// ---------------------------------------------------------------------------

/// Where the label `name` points.
pub open spec fn label_offset(labels: Seq<(Seq<char>, nat)>, name: Seq<char>) -> Option<nat>
    decreases labels.len(),
{
    if labels.len() == 0 {
        None
    } else if labels[0].0 == name {
        Some(labels[0].1)
    } else {
        label_offset(labels.drop_first(), name)
    }
}

/// The encoding of a jump by `displacement`, which has to stay inside the program.
pub open spec fn encode_jump(listing: Listing, placed: Placed, displacement: int) -> Result<
    Seq<u8>,
    Diagnostic,
> {
    let destination = placed.offset + 3 + displacement;
    if 0 <= destination < listing.size {
        Ok(seq![placed.insn.opcode] + le_bytes(pattern_16(displacement) as nat, 2))
    } else {
        Err(
            Diagnostic {
                line: placed.line,
                message: about_number("jump destination ", destination, " falls outside the ")
                    + decimal(listing.size) + "-byte program"@,
            },
        )
    }
}

/// The bytes of one instruction.
pub open spec fn encode(listing: Listing, placed: Placed) -> Result<Seq<u8>, Diagnostic> {
    let opcode = placed.insn.opcode;
    match placed.insn.operand {
        Operand::Absent => Ok(seq![opcode]),
        Operand::Number(value) => Ok(
            seq![opcode] + le_bytes(value, description(opcode)->0.imm.width()),
        ),
        Operand::Pair(key, count) => Ok(seq![opcode, key as u8, count as u8]),
        Operand::Displacement(displacement) => encode_jump(listing, placed, displacement),
        Operand::Label(name) => match label_offset(listing.labels, name) {
            Some(target) => encode_jump(listing, placed, target - (placed.offset + 3)),
            None => Err(
                Diagnostic { line: placed.line, message: "undefined label `"@ + name + "`"@ },
            ),
        },
    }
}

/// The bytes of the instructions from number `k` on.
pub open spec fn encode_from(listing: Listing, k: int) -> Result<Seq<u8>, Diagnostic>
    decreases listing.insns.len() - k,
{
    if k >= listing.insns.len() {
        Ok(Seq::empty())
    } else {
        match encode(listing, listing.insns[k]) {
            Err(diagnostic) => Err(diagnostic),
            Ok(bytes) => match encode_from(listing, k + 1) {
                Err(diagnostic) => Err(diagnostic),
                Ok(rest) => Ok(bytes + rest),
            },
        }
    }
}

/// What `source` assembles to: its bytecode, or the diagnostic about the first
/// mistake in it. `None` where reading it comes to a statement made of commas only.
pub open spec fn assembly(source: Seq<char>) -> Option<Result<Seq<u8>, Diagnostic>> {
    match read_lines(blank(), 1, source) {
        None => None,
        Some(Err(diagnostic)) => Some(Err(diagnostic)),
        Some(Ok(listing)) => Some(encode_from(listing, 0)),
    }
}

/// [`assembly`] with a diagnostic for every source that has no bytecode: a statement
/// made of commas only is diagnosed by its line, like any other mistake.
pub open spec fn diagnosed(source: Seq<char>) -> Result<Seq<u8>, Diagnostic> {
    match assembly(source) {
        Some(result) => result,
        None => Err(
            Diagnostic {
                line: commas_line(blank(), 1, source)->0,
                message: "a statement needs a mnemonic"@,
            },
        ),
    }
}

} // verus!
