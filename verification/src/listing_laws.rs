//! What canonical text shows of a program, instruction by instruction.
//!
//! The laws here speak of the bytes of a program and of the characters that stand for
//! them.

use vstd::prelude::*;

use crate::disassembly::{
    destination, disassembly, imm_at, immediate, is_labelled, is_reached, label_name, label_number,
    label_text, operand_text, starts_from, text_from, Fault,
};
use crate::effects::{immediate_bytes, is_instruction, lemma_unfold};
use crate::instruction::description;
use crate::number::{decimal, signed_decimal};
use crate::statements::displacement_of;

verus! {

// ---------------------------------------------------------------------------
// Decoding
// ---------------------------------------------------------------------------

/// The lowercase hexadecimal digit of value `d`.
pub open spec fn hex_digit(d: int) -> char {
    if d < 10 {
        (48 + d) as char
    } else {
        (87 + d) as char
    }
}

/// Decoding goes from one instruction to the byte directly behind it, up to the end of
/// the program. It stops at a byte that is no instruction, and at an instruction that
/// reaches past the end.
pub proof fn decoding_goes_from_one_to_the_next(bytes: Seq<u8>, at: int)
    requires
        0 <= at,
    ensures
        at >= bytes.len() ==> starts_from(bytes, at) == Ok::<Seq<int>, Fault>(Seq::empty()),
        at < bytes.len() && !is_instruction(bytes[at]) ==> starts_from(bytes, at) == Err::<
            Seq<int>,
            Fault,
        >(
            Fault {
                offset: at as nat,
                message: "0x"@ + seq![
                    hex_digit(bytes[at] as int / 16),
                    hex_digit(bytes[at] as int % 16),
                ] + " is not an allocated opcode"@,
            },
        ),
        at < bytes.len() && is_instruction(bytes[at]) ==> {
            let width = immediate_bytes(bytes[at]);
            if at + 1 + width > bytes.len() {
                starts_from(bytes, at) == Err::<Seq<int>, Fault>(
                    Fault {
                        offset: at as nat,
                        message: description(bytes[at])->0.mnemonic@ + " needs a "@ + decimal(
                            width as nat,
                        ) + "-byte immediate, but the program ends"@,
                    },
                )
            } else {
                starts_from(bytes, at) == match starts_from(bytes, at + 1 + width) {
                    Ok(rest) => Ok::<Seq<int>, Fault>(seq![at] + rest),
                    Err(fault) => Err::<Seq<int>, Fault>(fault),
                }
            }
        },
{
}

/// A program has a canonical text exactly if all of it decodes: the lines of its
/// instructions, from the first on.
pub proof fn a_text_is_that_of_all_instructions(bytes: Seq<u8>)
    ensures
        match starts_from(bytes, 0) {
            Ok(starts) => disassembly(bytes) == Ok::<Seq<char>, Fault>(text_from(bytes, starts, 0)),
            Err(fault) => disassembly(bytes) == Err::<Seq<char>, Fault>(fault),
        },
{
}

// ---------------------------------------------------------------------------
// Lines
// ---------------------------------------------------------------------------

/// Each instruction has a line of its own, made of its mnemonic and its operand, and
/// before it the line of its label where it has one. Line feeds end both.
pub proof fn instructions_have_a_line_each(bytes: Seq<u8>, starts: Seq<int>, k: int)
    requires
        0 <= k <= starts.len(),
    ensures
        k == starts.len() ==> text_from(bytes, starts, k).len() == 0,
        k < starts.len() ==> {
            let at = starts[k];
            let line = description(bytes[at])->0.mnemonic@ + operand_text(bytes, starts, at)
                + seq!['\n'];
            let rest = text_from(bytes, starts, k + 1);
            text_from(bytes, starts, k) == if is_labelled(bytes, starts, at) {
                seq!['L'] + decimal(label_number(bytes, starts, at)) + seq![':', '\n'] + line + rest
            } else {
                line + rest
            }
        },
{
    reveal_strlit("\n");
    reveal_strlit(":\n");
    reveal_strlit("L");
    if k < starts.len() {
        let at = starts[k];
        let rest = text_from(bytes, starts, k + 1);
        let m = description(bytes[at])->0.mnemonic@;
        let o = operand_text(bytes, starts, at);
        let line = m + o + seq!['\n'];
        let label = seq!['L'] + decimal(label_number(bytes, starts, at)) + seq![':', '\n'];
        if is_labelled(bytes, starts, at) {
            assert(label_text(bytes, starts, at) =~= label);
            assert(text_from(bytes, starts, k) =~= label + line + rest);
        } else {
            assert(text_from(bytes, starts, k) =~= line + rest);
        }
    }
}

/// Where the jump at `at` leads.
pub open spec fn target_of(bytes: Seq<u8>, at: int) -> int {
    at + 3 + displacement_of(bytes[at + 1], bytes[at + 2])
}

/// A number is shown in decimal behind a space, a pair with a comma and a space between
/// its two numbers. A jump to the start of an instruction is shown with the label of that
/// instruction, and any other with its displacement.
pub proof fn operands_are_shown(bytes: Seq<u8>, starts: Seq<int>, at: int)
    requires
        0 <= at < bytes.len(),
        is_instruction(bytes[at]),
        at + 1 + immediate_bytes(bytes[at]) <= bytes.len(),
    ensures
        ({
            let opcode = bytes[at];
            let shown = operand_text(bytes, starts, at);
            &&& immediate_bytes(opcode) == 0 ==> shown.len() == 0
            &&& immediate_bytes(opcode) == 1 ==> shown == seq![' '] + decimal(bytes[at + 1] as nat)
            &&& opcode == 0x11 ==> shown == seq![' '] + decimal(
                (bytes[at + 1] + 0x100 * bytes[at + 2]) as nat,
            )
            &&& opcode == 0x12 ==> shown == seq![' '] + decimal(
                (bytes[at + 1] + 0x100 * bytes[at + 2] + 0x1_0000 * bytes[at + 3] + 0x100_0000
                    * bytes[at + 4]) as nat,
            )
            &&& opcode == 0x13 ==> shown == seq![' '] + decimal(
                (bytes[at + 1] + 0x100 * bytes[at + 2] + 0x1_0000 * bytes[at + 3] + 0x100_0000
                    * bytes[at + 4] + 0x1_0000_0000 * bytes[at + 5] + 0x100_0000_0000 * bytes[at + 6]
                    + 0x1_0000_0000_0000 * bytes[at + 7] + 0x100_0000_0000_0000 * bytes[at + 8]) as nat,
            )
            &&& opcode == 0x70 ==> shown == seq![' '] + decimal(bytes[at + 1] as nat) + seq![
                ',',
                ' ',
            ] + decimal(bytes[at + 2] as nat)
            &&& 0x02 <= opcode <= 0x04 ==> shown == if starts.contains(target_of(bytes, at)) {
                seq![' ', 'L'] + decimal(label_number(bytes, starts, target_of(bytes, at)))
            } else {
                seq![' '] + signed_decimal(displacement_of(bytes[at + 1], bytes[at + 2]))
            }
        }),
{
    reveal_strlit(" ");
    reveal_strlit(", ");
    reveal_strlit("L");
    assert(" "@ =~= seq![' ']);
    assert(", "@ =~= seq![',', ' ']);
    let imm = immediate(bytes, at);
    assert(imm.len() == immediate_bytes(bytes[at]));
    assert forall|i: int| 0 <= i < imm.len() implies #[trigger] imm[i] == bytes[at + 1 + i] by {}
    lemma_unfold(imm);
    if 0x02 <= bytes[at] <= 0x04 && starts.contains(target_of(bytes, at)) {
        let n = label_number(bytes, starts, target_of(bytes, at));
        assert(" "@ + label_name(n) =~= seq![' ', 'L'] + decimal(n));
    }
}

/// An instruction has a label exactly if a jump leads to it.
pub proof fn labels_are_for_jumps(bytes: Seq<u8>, starts: Seq<int>, target: int)
    requires
        forall|i: int|
            0 <= i < starts.len() ==> {
                &&& 0 <= #[trigger] starts[i] < bytes.len()
                &&& is_instruction(bytes[starts[i]])
                &&& starts[i] + 1 + immediate_bytes(bytes[starts[i]]) <= bytes.len()
            },
    ensures
        is_labelled(bytes, starts, target) <==> starts.contains(target) && exists|i: int|
            {
                &&& 0 <= i < starts.len()
                &&& 0x02 <= bytes[#[trigger] starts[i]] <= 0x04
                &&& target_of(bytes, starts[i]) == target
            },
{
    assert forall|i: int| 0 <= i < starts.len() implies {
        &&& imm_at(bytes, #[trigger] starts[i]) is Rel16 <==> 0x02 <= bytes[starts[i]] <= 0x04
        &&& imm_at(bytes, starts[i]) is Rel16 ==> destination(bytes, starts[i]) == target_of(
            bytes,
            starts[i],
        )
    } by {
        let at = starts[i];
        if imm_at(bytes, at) is Rel16 {
            let imm = immediate(bytes, at);
            assert(imm.len() == 2);
            assert(imm[0] == bytes[at + 1] && imm[1] == bytes[at + 2]);
            lemma_unfold(imm);
        }
    }
    if is_reached(bytes, starts, target) {
        let i = choose|i: int|
            {
                &&& 0 <= i < starts.len()
                &&& imm_at(bytes, #[trigger] starts[i]) is Rel16
                &&& destination(bytes, starts[i]) == target
            };
        assert(0x02 <= bytes[starts[i]] <= 0x04);
    }
    if exists|i: int|
        {
            &&& 0 <= i < starts.len()
            &&& 0x02 <= bytes[#[trigger] starts[i]] <= 0x04
            &&& target_of(bytes, starts[i]) == target
        } {
        let i = choose|i: int|
            {
                &&& 0 <= i < starts.len()
                &&& 0x02 <= bytes[#[trigger] starts[i]] <= 0x04
                &&& target_of(bytes, starts[i]) == target
            };
        assert(imm_at(bytes, starts[i]) is Rel16);
        assert(is_reached(bytes, starts, target));
    }
}

/// Labels are counted from zero on, one for each labelled offset.
pub proof fn labels_are_counted(bytes: Seq<u8>, starts: Seq<int>, target: int)
    requires
        0 <= target,
    ensures
        label_number(bytes, starts, 0) == 0,
        label_number(bytes, starts, target + 1) == label_number(bytes, starts, target) + (
        if is_labelled(bytes, starts, target) {
            1nat
        } else {
            0
        }),
{
}

} // verus!
