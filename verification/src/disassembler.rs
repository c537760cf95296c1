//! The disassembler.

use vstd::prelude::*;
use vstd::string::StringExecFns;

use crate::disassembly::{
    cut_short, destination, disassembly, fills, imm_at, immediate, insn_text, is_labelled,
    is_reached, label_name, label_number, label_text, lemma_label_number_gap, lemma_starts_fill,
    next_at, operand_text, starts_from, text_from, unallocated, Fault,
};
use crate::encoding::{read_displacement, read_le};
use crate::instruction::{description, instruction, Imm, InstructionInfo};
use crate::number::{decimal, push_decimal, push_signed_decimal, to_digit_char};

verus! {

/// A diagnostic naming the offset that could not be decoded.
#[derive(Debug, Clone, PartialEq, Eq)]
pub struct DisError {
    /// Byte offset within the program.
    pub offset: usize,
    /// What went wrong.
    pub message: String,
}

impl View for DisError {
    type V = Fault;

    open spec fn view(&self) -> Fault {
        Fault { offset: self.offset as nat, message: self.message@ }
    }
}

impl DisError {
    /// The diagnostic as one line of text.
    pub fn to_string(&self) -> (text: String)
        ensures
            text@ == "offset "@ + decimal(self.offset as nat) + ": "@ + self.message@,
    {
        let mut text: String = "offset ".to_owned();
        push_decimal(&mut text, self.offset as u64);
        text.append(": ");
        text.append(self.message.as_str());
        text
    }
}

fn refuse_opcode(byte: u8) -> (text: String)
    ensures
        text@ == unallocated(byte),
{
    let mut text: String = "0x".to_owned();
    text.push(to_digit_char(byte / 16));
    text.push(to_digit_char(byte % 16));
    assert(text@ =~= "0x"@ + seq![
        crate::number::digit_char((byte / 16) as nat),
        crate::number::digit_char((byte % 16) as nat),
    ]);
    text.append(" is not an allocated opcode");
    text
}

fn refuse_immediate(mnemonic: &str, width: usize) -> (text: String)
    ensures
        text@ == cut_short(mnemonic@, width as nat),
{
    let mut text: String = mnemonic.to_owned();
    text.append(" needs a ");
    push_decimal(&mut text, width as u64);
    text.append("-byte immediate, but the program ends");
    text
}

/// The offsets as mathematical integers.
pub open spec fn offsets(list: Seq<usize>) -> Seq<int> {
    list.map_values(|at: usize| at as int)
}

/// Decodes a program linearly from offset zero: the offsets of its instructions.
pub fn decode(bytes: &[u8]) -> (result: Result<Vec<usize>, DisError>)
    ensures
        match starts_from(bytes@, 0) {
            Ok(starts) => result is Ok && offsets(result->Ok_0@) == starts,
            Err(fault) => result is Err && result->Err_0@ == fault,
        },
        match starts_from(bytes@, 0) {
            Ok(starts) => {
                &&& result->Ok_0@.len() == starts.len()
                &&& forall|i: int|
                    0 <= i < starts.len() ==> #[trigger] result->Ok_0@[i] == starts[i]
            },
            Err(fault) => {
                &&& result->Err_0.offset == fault.offset
                &&& result->Err_0.message@ == fault.message
            },
        },
{
    let mut starts: Vec<usize> = Vec::new();
    let mut at: usize = 0;
    proof {
        if let Ok(rest) = starts_from(bytes@, 0) {
            assert(offsets(starts@) + rest =~= rest);
        }
    }
    while at < bytes.len()
        invariant
            at <= bytes.len(),
            match starts_from(bytes@, at as int) {
                Ok(rest) => starts_from(bytes@, 0) == Ok::<Seq<int>, Fault>(offsets(starts@) + rest),
                Err(fault) => starts_from(bytes@, 0) == Err::<Seq<int>, Fault>(fault),
            },
        decreases bytes.len() - at,
    {
        let info: InstructionInfo = match instruction(bytes[at]) {
            Some(info) => info,
            None => return Err(DisError { offset: at, message: refuse_opcode(bytes[at]) }),
        };
        let width: usize = info.imm.size();
        if width > bytes.len() - at - 1 {
            return Err(DisError { offset: at, message: refuse_immediate(info.mnemonic, width) });
        }
        let ghost before = starts@;
        starts.push(at);
        proof {
            assert(offsets(starts@) =~= offsets(before) + seq![at as int]);
            if let Ok(rest) = starts_from(bytes@, next_at(bytes@, at as int)) {
                assert(offsets(starts@) + rest =~= offsets(before) + (seq![at as int] + rest));
            }
        }
        at = at + 1 + width;
    }
    assert(offsets(starts@) + Seq::<int>::empty() =~= offsets(starts@));
    Ok(starts)
}

/// Where the jump at `at` leads, if that is inside the program.
fn jump_destination(bytes: &[u8], at: usize) -> (target: Option<usize>)
    requires
        at < bytes.len(),
        imm_at(bytes@, at as int) is Rel16,
        next_at(bytes@, at as int) <= bytes.len(),
    ensures
        target matches Some(t) ==> t == destination(bytes@, at as int) && t < bytes.len(),
        target is None ==> !(0 <= destination(bytes@, at as int) < bytes.len()),
{
    let target: i128 = at as i128 + 3 + read_displacement(bytes, at + 1) as i128;
    if target >= 0 && target < bytes.len() as i128 {
        Some(target as usize)
    } else {
        None
    }
}

/// Whether the instruction at `at` is a jump.
fn is_jump(bytes: &[u8], at: usize) -> (yes: bool)
    requires
        at < bytes.len(),
        description(bytes@[at as int]) is Some,
    ensures
        yes == (imm_at(bytes@, at as int) is Rel16),
{
    match instruction(bytes[at]) {
        Some(info) => info.imm == Imm::Rel16,
        None => false,
    }
}

/// Whether one of the instructions at `starts` jumps to `target`.
fn some_jump_reaches(bytes: &[u8], starts: &Vec<usize>, target: usize) -> (yes: bool)
    requires
        fills(bytes@, 0, offsets(starts@)),
        target < bytes.len(),
    ensures
        yes == is_reached(bytes@, offsets(starts@), target as int),
{
    let ghost at = offsets(starts@);
    let mut i: usize = 0;
    while i < starts.len()
        invariant
            i <= starts.len(),
            at == offsets(starts@),
            fills(bytes@, 0, at),
            target < bytes.len(),
            forall|k: int|
                0 <= k < i && imm_at(bytes@, #[trigger] at[k]) is Rel16 ==> destination(bytes@, at[k])
                    != target,
        decreases starts.len() - i,
    {
        assert(at[i as int] == starts@[i as int]);
        if is_jump(bytes, starts[i]) {
            if let Some(t) = jump_destination(bytes, starts[i]) {
                if t == target {
                    return true;
                }
            }
        }
        i += 1;
    }
    false
}

/// `labels` holds the labelled offsets below `limit`, in ascending order.
spec fn lists_labels(labels: Seq<usize>, bytes: Seq<u8>, starts: Seq<int>, limit: int) -> bool {
    &&& labels.len() == label_number(bytes, starts, limit)
    &&& forall|i: int|
        0 <= i < labels.len() ==> {
            &&& #[trigger] labels[i] < limit
            &&& is_labelled(bytes, starts, labels[i] as int)
            &&& label_number(bytes, starts, labels[i] as int) == i
        }
    &&& forall|t: int|
        0 <= t < limit && #[trigger] is_labelled(bytes, starts, t) ==> exists|i: int|
            0 <= i < labels.len() && #[trigger] labels[i] == t
}

/// The labelled offsets, in ascending order.
fn collect_labels(bytes: &[u8], starts: &Vec<usize>) -> (labels: Vec<usize>)
    requires
        fills(bytes@, 0, offsets(starts@)),
    ensures
        lists_labels(labels@, bytes@, offsets(starts@), bytes@.len() as int),
{
    let ghost at = offsets(starts@);
    let mut labels: Vec<usize> = Vec::new();
    let mut k: usize = 0;
    while k < starts.len()
        invariant
            k <= starts.len(),
            at == offsets(starts@),
            fills(bytes@, 0, at),
            lists_labels(
                labels@,
                bytes@,
                at,
                if k < at.len() {
                    at[k as int]
                } else {
                    bytes@.len() as int
                },
            ),
        decreases starts.len() - k,
    {
        let target: usize = starts[k];
        let ghost limit: int = if k + 1 < at.len() {
            at[k + 1]
        } else {
            bytes@.len() as int
        };
        let ghost before = labels@;
        proof {
            assert(at[k as int] == target);
            assert(at.contains(target as int));
            assert forall|t: int| target < t < limit implies !#[trigger] is_labelled(
                bytes@,
                at,
                t,
            ) by {
                if at.contains(t) {
                    let j = choose|j: int| 0 <= j < at.len() && at[j] == t;
                    assert(j > k);
                }
            }
            lemma_label_number_gap(bytes@, at, target + 1, limit);
        }
        if some_jump_reaches(bytes, starts, target) {
            labels.push(target);
        }
        proof {
            assert forall|t: int|
                0 <= t < limit && #[trigger] is_labelled(bytes@, at, t) implies exists|i: int|
                0 <= i < labels@.len() && #[trigger] labels@[i] == t by {
                if t < target {
                    let i = choose|i: int| 0 <= i < before.len() && #[trigger] before[i] == t;
                    assert(labels@[i] == t);
                } else {
                    assert(t == target);
                    assert(labels@[labels@.len() - 1] == t);
                }
            }
            assert forall|i: int| 0 <= i < labels@.len() implies {
                &&& #[trigger] labels@[i] < limit
                &&& is_labelled(bytes@, at, labels@[i] as int)
                &&& label_number(bytes@, at, labels@[i] as int) == i
            } by {
                if i < before.len() {
                    assert(labels@[i] == before[i]);
                }
            }
        }
        k += 1;
    }
    labels
}

/// The position of `target` among the labels.
fn label_of(
    labels: &Vec<usize>,
    target: usize,
    bytes: Ghost<Seq<u8>>,
    starts: Ghost<Seq<int>>,
) -> (number: Option<usize>)
    requires
        lists_labels(labels@, bytes@, starts@, bytes@.len() as int),
        target < bytes@.len(),
    ensures
        number is Some <==> is_labelled(bytes@, starts@, target as int),
        number matches Some(n) ==> n == label_number(bytes@, starts@, target as int),
{
    let mut i: usize = 0;
    while i < labels.len()
        invariant
            i <= labels.len(),
            lists_labels(labels@, bytes@, starts@, bytes@.len() as int),
            target < bytes@.len(),
            forall|k: int| 0 <= k < i ==> labels@[k] != target,
        decreases labels.len() - i,
    {
        if labels[i] == target {
            return Some(i);
        }
        i += 1;
    }
    None
}

fn push_label(out: &mut String, number: usize)
    ensures
        final(out)@ == old(out)@ + label_name(number as nat),
{
    out.append("L");
    push_decimal(out, number as u64);
    assert(out@ =~= old(out)@ + label_name(number as nat));
}

/// Appends what stands behind the mnemonic of the instruction at `at`.
fn push_operand(
    out: &mut String,
    bytes: &[u8],
    starts: Ghost<Seq<int>>,
    labels: &Vec<usize>,
    at: usize,
    imm: Imm,
)
    requires
        fills(bytes@, 0, starts@),
        starts@.contains(at as int),
        lists_labels(labels@, bytes@, starts@, bytes@.len() as int),
        imm == imm_at(bytes@, at as int),
        next_at(bytes@, at as int) <= bytes.len(),
    ensures
        final(out)@ == old(out)@ + operand_text(bytes@, starts@, at as int),
{
    match imm {
        Imm::Absent => {
            assert(out@ =~= old(out)@ + operand_text(bytes@, starts@, at as int));
        },
        Imm::U8Pair => {
            out.append(" ");
            push_decimal(out, bytes[at + 1] as u64);
            out.append(", ");
            push_decimal(out, bytes[at + 2] as u64);
            assert(out@ =~= old(out)@ + operand_text(bytes@, starts@, at as int));
        },
        Imm::Rel16 => {
            out.append(" ");
            let number: Option<usize> = match jump_destination(bytes, at) {
                Some(target) => label_of(labels, target, Ghost(bytes@), starts),
                None => None,
            };
            proof {
                let j = choose|j: int| 0 <= j < starts@.len() && starts@[j] == at as int;
                assert(imm_at(bytes@, starts@[j]) is Rel16);
                assert(is_reached(bytes@, starts@, destination(bytes@, at as int)));
            }
            match number {
                Some(number) => push_label(out, number),
                None => push_signed_decimal(out, read_displacement(bytes, at + 1) as i64),
            }
            assert(out@ =~= old(out)@ + operand_text(bytes@, starts@, at as int));
        },
        _ => {
            out.append(" ");
            push_decimal(out, read_le(bytes, at + 1, imm.size()));
            assert(out@ =~= old(out)@ + operand_text(bytes@, starts@, at as int));
        },
    }
}

/// Renders bytecode as the canonical textual form.
pub fn disassemble(bytes: &[u8]) -> (result: Result<String, DisError>)
    ensures
        match disassembly(bytes@) {
            Ok(text) => result is Ok && result->Ok_0@ == text,
            Err(fault) => {
                &&& result is Err
                &&& result->Err_0@ == fault
                &&& result->Err_0.offset == fault.offset
                &&& result->Err_0.message@ == fault.message
            },
        },
{
    let starts: Vec<usize> = match decode(bytes) {
        Ok(starts) => starts,
        Err(error) => return Err(error),
    };
    let ghost at = offsets(starts@);
    proof {
        lemma_starts_fill(bytes@, 0);
    }
    let labels: Vec<usize> = collect_labels(bytes, &starts);
    let mut out = String::new();
    let mut k: usize = 0;
    assert(out@ + text_from(bytes@, at, 0) =~= text_from(bytes@, at, 0));
    while k < starts.len()
        invariant
            k <= starts.len(),
            at == offsets(starts@),
            fills(bytes@, 0, at),
            lists_labels(labels@, bytes@, at, bytes@.len() as int),
            out@ + text_from(bytes@, at, k as int) == text_from(bytes@, at, 0),
        decreases starts.len() - k,
    {
        let start: usize = starts[k];
        let ghost before = out@;
        assert(at[k as int] == start);
        if let Some(number) = label_of(&labels, start, Ghost(bytes@), Ghost(at)) {
            push_label(&mut out, number);
            out.append(":\n");
        }
        assert(out@ =~= before + label_text(bytes@, at, start as int));
        let ghost labelled = out@;
        if let Some(info) = instruction(bytes[start]) {
            out.append(info.mnemonic);
            push_operand(&mut out, bytes, Ghost(at), &labels, start, info.imm);
        }
        assert(out@ =~= labelled + insn_text(bytes@, at, start as int));
        out.append("\n");
        proof {
            assert(out@ + text_from(bytes@, at, k + 1) =~= before + (label_text(
                bytes@,
                at,
                start as int,
            ) + insn_text(bytes@, at, start as int) + "\n"@ + text_from(bytes@, at, k + 1)));
        }
        k += 1;
    }
    assert(out@ + Seq::<char>::empty() =~= out@);
    Ok(out)
}

/// The canonical mnemonic of an opcode, or `None` if it is unallocated.
pub fn mnemonic(opcode: u8) -> (name: Option<&'static str>)
    ensures
        name == (match description(opcode) {
            Some(info) => Some(info.mnemonic),
            None => None,
        }),
{
    match instruction(opcode) {
        Some(info) => Some(info.mnemonic),
        None => None,
    }
}

} // verus!
