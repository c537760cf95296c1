//! What bytecode looks like as text: the canonical form.
//!
//! The canonical form is uppercase mnemonics, one instruction per line, a single
//! space before an operand, decimal immediates, explicit `PUSH_*` widths, no
//! comments, labels named `L0`, `L1`, … numbered by ascending target offset and
//! placed on their own lines, a comma and a space between the two operands of a
//! paired immediate, and LF line endings.
//!
//! A jump whose destination does not coincide with a linearly decoded instruction,
//! because it lands mid-instruction or outside the program, is rendered as an
//! explicit signed displacement instead of a label: there is no line to attach a
//! label to.

use vstd::prelude::*;

use crate::encoding::{little_endian, twos_complement_16};
use crate::instruction::{description, Imm};
use crate::number::{decimal, digit_char, signed_decimal};

verus! {

/// Why bytes could not be disassembled, and the offset at which decoding stopped.
pub struct Fault {
    pub offset: nat,
    pub message: Seq<char>,
}

/// The immediate that the instruction at `at` carries.
pub open spec fn imm_at(bytes: Seq<u8>, at: int) -> Imm {
    description(bytes[at])->0.imm
}

/// The offset directly behind the instruction at `at`.
pub open spec fn next_at(bytes: Seq<u8>, at: int) -> int {
    at + 1 + imm_at(bytes, at).width()
}

/// The immediate bytes of the instruction at `at`.
pub open spec fn immediate(bytes: Seq<u8>, at: int) -> Seq<u8> {
    bytes.subrange(at + 1, next_at(bytes, at))
}

pub open spec fn unallocated(byte: u8) -> Seq<char> {
    "0x"@ + seq![digit_char((byte / 16) as nat), digit_char((byte % 16) as nat)]
        + " is not an allocated opcode"@
}

pub open spec fn cut_short(mnemonic: Seq<char>, width: nat) -> Seq<char> {
    mnemonic + " needs a "@ + decimal(width) + "-byte immediate, but the program ends"@
}

/// The offsets of the instructions of `bytes` from offset `at` on, decoded linearly.
///
/// Linear decoding is what the canonical text describes. It is not what the machine
/// does, where a jump may land mid-instruction and decoding simply resumes there.
pub open spec fn starts_from(bytes: Seq<u8>, at: int) -> Result<Seq<int>, Fault>
    decreases bytes.len() - at,
{
    if at >= bytes.len() {
        Ok(Seq::empty())
    } else {
        match description(bytes[at]) {
            None => Err(Fault { offset: at as nat, message: unallocated(bytes[at]) }),
            Some(info) => if next_at(bytes, at) > bytes.len() {
                Err(
                    Fault {
                        offset: at as nat,
                        message: cut_short(info.mnemonic@, info.imm.width()),
                    },
                )
            } else {
                match starts_from(bytes, next_at(bytes, at)) {
                    Err(fault) => Err(fault),
                    Ok(rest) => Ok(seq![at] + rest),
                }
            },
        }
    }
}

/// The displacement of the jump at `at`.
pub open spec fn displacement(bytes: Seq<u8>, at: int) -> int {
    twos_complement_16(little_endian(immediate(bytes, at)) as int)
}

/// Where the jump at `at` leads.
pub open spec fn destination(bytes: Seq<u8>, at: int) -> int {
    at + 3 + displacement(bytes, at)
}

/// Some instruction among `starts` jumps to `target`.
pub open spec fn is_reached(bytes: Seq<u8>, starts: Seq<int>, target: int) -> bool {
    exists|i: int|
        {
            &&& 0 <= i < starts.len()
            &&& imm_at(bytes, #[trigger] starts[i]) is Rel16
            &&& destination(bytes, starts[i]) == target
        }
}

/// A destination earns a label only if it starts a decoded instruction.
pub open spec fn is_labelled(bytes: Seq<u8>, starts: Seq<int>, target: int) -> bool {
    starts.contains(target) && is_reached(bytes, starts, target)
}

/// How many labelled offsets come before `target`.
pub open spec fn label_number(bytes: Seq<u8>, starts: Seq<int>, target: int) -> nat
    decreases target,
{
    if target <= 0 {
        0
    } else if is_labelled(bytes, starts, target - 1) {
        label_number(bytes, starts, target - 1) + 1
    } else {
        label_number(bytes, starts, target - 1)
    }
}

/// The name of the label with number `n`.
pub open spec fn label_name(n: nat) -> Seq<char> {
    "L"@ + decimal(n)
}

/// What stands behind the mnemonic of the instruction at `at`.
pub open spec fn operand_text(bytes: Seq<u8>, starts: Seq<int>, at: int) -> Seq<char> {
    let imm = immediate(bytes, at);
    match imm_at(bytes, at) {
        Imm::Absent => Seq::empty(),
        Imm::U8Pair => " "@ + decimal(imm[0] as nat) + ", "@ + decimal(imm[1] as nat),
        Imm::Rel16 => " "@ + (if starts.contains(destination(bytes, at)) {
            label_name(label_number(bytes, starts, destination(bytes, at)))
        } else {
            signed_decimal(displacement(bytes, at))
        }),
        _ => " "@ + decimal(little_endian(imm)),
    }
}

/// The line that labels the instruction at `at`, where it is labelled.
pub open spec fn label_text(bytes: Seq<u8>, starts: Seq<int>, at: int) -> Seq<char> {
    if is_labelled(bytes, starts, at) {
        label_name(label_number(bytes, starts, at)) + ":\n"@
    } else {
        Seq::empty()
    }
}

/// The line of the instruction at `at`, without its line ending.
pub open spec fn insn_text(bytes: Seq<u8>, starts: Seq<int>, at: int) -> Seq<char> {
    description(bytes[at])->0.mnemonic@ + operand_text(bytes, starts, at)
}

/// The lines of the instructions from number `k` on.
pub open spec fn text_from(bytes: Seq<u8>, starts: Seq<int>, k: int) -> Seq<char>
    decreases starts.len() - k,
{
    if k >= starts.len() {
        Seq::empty()
    } else {
        label_text(bytes, starts, starts[k]) + insn_text(bytes, starts, starts[k]) + "\n"@
            + text_from(bytes, starts, k + 1)
    }
}

/// The canonical text of `bytes`, or why they have none.
pub open spec fn disassembly(bytes: Seq<u8>) -> Result<Seq<char>, Fault> {
    match starts_from(bytes, 0) {
        Err(fault) => Err(fault),
        Ok(starts) => Ok(text_from(bytes, starts, 0)),
    }
}

/// The starts of a decoded program are consecutive instructions that fill it from
/// `at` to its end.
pub open spec fn fills(bytes: Seq<u8>, at: int, starts: Seq<int>) -> bool {
    &&& forall|i: int|
        0 <= i < starts.len() ==> {
            &&& at <= #[trigger] starts[i] < next_at(bytes, starts[i]) <= bytes.len()
            &&& description(bytes[starts[i]]) is Some
        }
    &&& forall|i: int, j: int| 0 <= i < j < starts.len() ==> starts[i] < starts[j]
    &&& forall|i: int, j: int|
        0 <= i && j == i + 1 && j < starts.len() ==> #[trigger] starts[j] == next_at(
            bytes,
            #[trigger] starts[i],
        )
    &&& starts.len() > 0 ==> starts[0] == at && next_at(bytes, starts.last()) == bytes.len()
    &&& starts.len() == 0 ==> at >= bytes.len()
}

pub proof fn lemma_starts_fill(bytes: Seq<u8>, at: int)
    requires
        0 <= at,
    ensures
        starts_from(bytes, at) matches Ok(starts) ==> fills(bytes, at, starts),
    decreases bytes.len() - at,
{
    if let Ok(starts) = starts_from(bytes, at) {
        if at < bytes.len() {
            let next = next_at(bytes, at);
            lemma_starts_fill(bytes, next);
            let rest = starts_from(bytes, next)->Ok_0;
            assert(starts =~= seq![at] + rest);
            assert forall|i: int| 0 <= i < starts.len() implies {
                &&& at <= #[trigger] starts[i] < next_at(bytes, starts[i]) <= bytes.len()
                &&& description(bytes[starts[i]]) is Some
            } by {
                if i > 0 {
                    assert(starts[i] == rest[i - 1]);
                }
            }
            assert forall|i: int, j: int| 0 <= i < j < starts.len() implies starts[i]
                < starts[j] by {
                assert(starts[j] == rest[j - 1]);
                if i > 0 {
                    assert(starts[i] == rest[i - 1]);
                }
            }
            assert forall|i: int, j: int| 0 <= i && j == i + 1 && j < starts.len() implies #[trigger] starts[j]
                == next_at(bytes, #[trigger] starts[i]) by {
                assert(starts[j] == rest[i]);
                if i > 0 {
                    assert(starts[i] == rest[i - 1]);
                }
            }
            if rest.len() > 0 {
                assert(starts.last() == rest.last());
            }
        }
    }
}

/// Offsets without a label between them leave the count as it is.
pub proof fn lemma_label_number_gap(bytes: Seq<u8>, starts: Seq<int>, from: int, to: int)
    requires
        0 <= from <= to,
        forall|t: int| from <= t < to ==> !#[trigger] is_labelled(bytes, starts, t),
    ensures
        label_number(bytes, starts, to) == label_number(bytes, starts, from),
    decreases to - from,
{
    if from < to {
        lemma_label_number_gap(bytes, starts, from, to - 1);
    }
}

/// Labels are numbered by ascending target offset: a later target has a greater
/// number.
pub proof fn labels_ascend(bytes: Seq<u8>, starts: Seq<int>, a: int, b: int)
    requires
        0 <= a < b,
        is_labelled(bytes, starts, a),
    ensures
        label_number(bytes, starts, a) < label_number(bytes, starts, b),
    decreases b - a,
{
    if a < b - 1 {
        labels_ascend(bytes, starts, a, b - 1);
    }
}

} // verus!
