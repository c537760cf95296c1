//! The instruction set: which bytes are instructions, what they are called, what
//! immediate each carries and what it costs.
//!
//! [`description`] is the definition every contract speaks of. The machine, the
//! assembler and the disassembler all read it, so no two of them can disagree on
//! what an opcode byte means.

use vstd::prelude::*;

use crate::opcode as op;

verus! {

/// The immediate operand an opcode carries, if any.
#[derive(Clone, Copy, PartialEq, Eq, Structural, Debug)]
pub enum Imm {
    /// No immediate; the instruction is one byte.
    Absent,
    /// An unsigned 8-bit immediate.
    U8,
    /// Two unsigned 8-bit immediates, in the order written.
    U8Pair,
    /// An unsigned 16-bit immediate, little-endian.
    U16,
    /// An unsigned 32-bit immediate, little-endian.
    U32,
    /// An unsigned 64-bit immediate, little-endian.
    U64,
    /// A jump displacement: two's-complement `i16`, little-endian, relative to
    /// the address of the *following* instruction.
    Rel16,
}

impl Imm {
    /// Width of the immediate in bytes.
    pub open spec fn width(self) -> nat {
        match self {
            Imm::Absent => 0,
            Imm::U8 => 1,
            Imm::U8Pair | Imm::U16 | Imm::Rel16 => 2,
            Imm::U32 => 4,
            Imm::U64 => 8,
        }
    }

    /// Width of the immediate in bytes.
    pub fn size(self) -> (bytes: usize)
        ensures
            bytes == self.width(),
    {
        match self {
            Imm::Absent => 0,
            Imm::U8 => 1,
            Imm::U8Pair | Imm::U16 | Imm::Rel16 => 2,
            Imm::U32 => 4,
            Imm::U64 => 8,
        }
    }
}

/// The static description of one instruction.
#[derive(Clone, Copy, Debug)]
pub struct InstructionInfo {
    /// The opcode byte.
    pub opcode: u8,
    /// The canonical mnemonic, uppercase.
    pub mnemonic: &'static str,
    /// The immediate this opcode carries.
    pub imm: Imm,
    /// Fuel charged for executing this instruction.
    pub cost: u8,
}

/// What each byte means as an opcode: its description, or `None` where the byte
/// is unallocated.
pub open spec fn description(opcode: u8) -> Option<InstructionInfo> {
    match opcode {
        op::RET => Some(InstructionInfo { opcode: op::RET, mnemonic: "RET", imm: Imm::Absent, cost: 1 }),
        op::JMP => Some(InstructionInfo { opcode: op::JMP, mnemonic: "JMP", imm: Imm::Rel16, cost: 1 }),
        op::JMPZ => Some(InstructionInfo { opcode: op::JMPZ, mnemonic: "JMPZ", imm: Imm::Rel16, cost: 1 }),
        op::JMPNZ => Some(InstructionInfo { opcode: op::JMPNZ, mnemonic: "JMPNZ", imm: Imm::Rel16, cost: 1 }),
        op::PUSH_U8 => Some(InstructionInfo { opcode: op::PUSH_U8, mnemonic: "PUSH_U8", imm: Imm::U8, cost: 1 }),
        op::PUSH_U16 => Some(InstructionInfo { opcode: op::PUSH_U16, mnemonic: "PUSH_U16", imm: Imm::U16, cost: 1 }),
        op::PUSH_U32 => Some(InstructionInfo { opcode: op::PUSH_U32, mnemonic: "PUSH_U32", imm: Imm::U32, cost: 1 }),
        op::PUSH_U64 => Some(InstructionInfo { opcode: op::PUSH_U64, mnemonic: "PUSH_U64", imm: Imm::U64, cost: 1 }),
        op::POP => Some(InstructionInfo { opcode: op::POP, mnemonic: "POP", imm: Imm::Absent, cost: 1 }),
        op::DUP => Some(InstructionInfo { opcode: op::DUP, mnemonic: "DUP", imm: Imm::Absent, cost: 1 }),
        op::SWAP => Some(InstructionInfo { opcode: op::SWAP, mnemonic: "SWAP", imm: Imm::Absent, cost: 1 }),
        op::LOAD => Some(InstructionInfo { opcode: op::LOAD, mnemonic: "LOAD", imm: Imm::U8, cost: 1 }),
        op::STORE => Some(InstructionInfo { opcode: op::STORE, mnemonic: "STORE", imm: Imm::U8, cost: 1 }),
        op::ARG => Some(InstructionInfo { opcode: op::ARG, mnemonic: "ARG", imm: Imm::U8, cost: 1 }),
        op::ADD => Some(InstructionInfo { opcode: op::ADD, mnemonic: "ADD", imm: Imm::Absent, cost: 1 }),
        op::SUB => Some(InstructionInfo { opcode: op::SUB, mnemonic: "SUB", imm: Imm::Absent, cost: 1 }),
        op::MUL => Some(InstructionInfo { opcode: op::MUL, mnemonic: "MUL", imm: Imm::Absent, cost: 1 }),
        op::DIV => Some(InstructionInfo { opcode: op::DIV, mnemonic: "DIV", imm: Imm::Absent, cost: 1 }),
        op::MOD => Some(InstructionInfo { opcode: op::MOD, mnemonic: "MOD", imm: Imm::Absent, cost: 1 }),
        op::MIN => Some(InstructionInfo { opcode: op::MIN, mnemonic: "MIN", imm: Imm::Absent, cost: 1 }),
        op::MAX => Some(InstructionInfo { opcode: op::MAX, mnemonic: "MAX", imm: Imm::Absent, cost: 1 }),
        op::AND => Some(InstructionInfo { opcode: op::AND, mnemonic: "AND", imm: Imm::Absent, cost: 1 }),
        op::OR => Some(InstructionInfo { opcode: op::OR, mnemonic: "OR", imm: Imm::Absent, cost: 1 }),
        op::XOR => Some(InstructionInfo { opcode: op::XOR, mnemonic: "XOR", imm: Imm::Absent, cost: 1 }),
        op::NOT => Some(InstructionInfo { opcode: op::NOT, mnemonic: "NOT", imm: Imm::Absent, cost: 1 }),
        op::SHL => Some(InstructionInfo { opcode: op::SHL, mnemonic: "SHL", imm: Imm::Absent, cost: 1 }),
        op::SHR => Some(InstructionInfo { opcode: op::SHR, mnemonic: "SHR", imm: Imm::Absent, cost: 1 }),
        op::EQ => Some(InstructionInfo { opcode: op::EQ, mnemonic: "EQ", imm: Imm::Absent, cost: 1 }),
        op::NE => Some(InstructionInfo { opcode: op::NE, mnemonic: "NE", imm: Imm::Absent, cost: 1 }),
        op::LT => Some(InstructionInfo { opcode: op::LT, mnemonic: "LT", imm: Imm::Absent, cost: 1 }),
        op::LTE => Some(InstructionInfo { opcode: op::LTE, mnemonic: "LTE", imm: Imm::Absent, cost: 1 }),
        op::GT => Some(InstructionInfo { opcode: op::GT, mnemonic: "GT", imm: Imm::Absent, cost: 1 }),
        op::GTE => Some(InstructionInfo { opcode: op::GTE, mnemonic: "GTE", imm: Imm::Absent, cost: 1 }),
        op::GETPARAM => Some(InstructionInfo { opcode: op::GETPARAM, mnemonic: "GETPARAM", imm: Imm::U8Pair, cost: 1 }),
        _ => None,
    }
}

/// Fuel charged for an opcode byte. Zero marks an unallocated byte.
pub open spec fn cost_of(opcode: u8) -> u8 {
    match description(opcode) {
        Some(info) => info.cost,
        None => 0,
    }
}

fn insn(opcode: u8, mnemonic: &'static str, imm: Imm) -> (info: InstructionInfo)
    ensures
        info == (InstructionInfo { opcode, mnemonic, imm, cost: 1 }),
{
    InstructionInfo { opcode, mnemonic, imm, cost: 1 }
}

/// Every allocated instruction, ordered by opcode.
pub fn instructions() -> (table: [InstructionInfo; 34])
    ensures
        forall|i: int|
            0 <= i < table@.len() ==> description((#[trigger] table@[i]).opcode) == Some(table@[i]),
        forall|opcode: u8| #[trigger]
            description(opcode) is Some ==> exists|i: int|
                0 <= i < table@.len() && (#[trigger] table@[i]).opcode == opcode,
        forall|i: int, j: int|
            0 <= i < j < table@.len() ==> (#[trigger] table@[i]).opcode < (#[trigger] table@[j]).opcode,
{
    let table: [InstructionInfo; 34] = [
        insn(op::RET, "RET", Imm::Absent),
        insn(op::JMP, "JMP", Imm::Rel16),
        insn(op::JMPZ, "JMPZ", Imm::Rel16),
        insn(op::JMPNZ, "JMPNZ", Imm::Rel16),
        insn(op::PUSH_U8, "PUSH_U8", Imm::U8),
        insn(op::PUSH_U16, "PUSH_U16", Imm::U16),
        insn(op::PUSH_U32, "PUSH_U32", Imm::U32),
        insn(op::PUSH_U64, "PUSH_U64", Imm::U64),
        insn(op::POP, "POP", Imm::Absent),
        insn(op::DUP, "DUP", Imm::Absent),
        insn(op::SWAP, "SWAP", Imm::Absent),
        insn(op::LOAD, "LOAD", Imm::U8),
        insn(op::STORE, "STORE", Imm::U8),
        insn(op::ARG, "ARG", Imm::U8),
        insn(op::ADD, "ADD", Imm::Absent),
        insn(op::SUB, "SUB", Imm::Absent),
        insn(op::MUL, "MUL", Imm::Absent),
        insn(op::DIV, "DIV", Imm::Absent),
        insn(op::MOD, "MOD", Imm::Absent),
        insn(op::MIN, "MIN", Imm::Absent),
        insn(op::MAX, "MAX", Imm::Absent),
        insn(op::AND, "AND", Imm::Absent),
        insn(op::OR, "OR", Imm::Absent),
        insn(op::XOR, "XOR", Imm::Absent),
        insn(op::NOT, "NOT", Imm::Absent),
        insn(op::SHL, "SHL", Imm::Absent),
        insn(op::SHR, "SHR", Imm::Absent),
        insn(op::EQ, "EQ", Imm::Absent),
        insn(op::NE, "NE", Imm::Absent),
        insn(op::LT, "LT", Imm::Absent),
        insn(op::LTE, "LTE", Imm::Absent),
        insn(op::GT, "GT", Imm::Absent),
        insn(op::GTE, "GTE", Imm::Absent),
        insn(op::GETPARAM, "GETPARAM", Imm::U8Pair),
    ];
    proof {
        assert(description(op::RET) == Some(table@[0]));
        assert(description(op::JMP) == Some(table@[1]));
        assert(description(op::JMPZ) == Some(table@[2]));
        assert(description(op::JMPNZ) == Some(table@[3]));
        assert(description(op::PUSH_U8) == Some(table@[4]));
        assert(description(op::PUSH_U16) == Some(table@[5]));
        assert(description(op::PUSH_U32) == Some(table@[6]));
        assert(description(op::PUSH_U64) == Some(table@[7]));
        assert(description(op::POP) == Some(table@[8]));
        assert(description(op::DUP) == Some(table@[9]));
        assert(description(op::SWAP) == Some(table@[10]));
        assert(description(op::LOAD) == Some(table@[11]));
        assert(description(op::STORE) == Some(table@[12]));
        assert(description(op::ARG) == Some(table@[13]));
        assert(description(op::ADD) == Some(table@[14]));
        assert(description(op::SUB) == Some(table@[15]));
        assert(description(op::MUL) == Some(table@[16]));
        assert(description(op::DIV) == Some(table@[17]));
        assert(description(op::MOD) == Some(table@[18]));
        assert(description(op::MIN) == Some(table@[19]));
        assert(description(op::MAX) == Some(table@[20]));
        assert(description(op::AND) == Some(table@[21]));
        assert(description(op::OR) == Some(table@[22]));
        assert(description(op::XOR) == Some(table@[23]));
        assert(description(op::NOT) == Some(table@[24]));
        assert(description(op::SHL) == Some(table@[25]));
        assert(description(op::SHR) == Some(table@[26]));
        assert(description(op::EQ) == Some(table@[27]));
        assert(description(op::NE) == Some(table@[28]));
        assert(description(op::LT) == Some(table@[29]));
        assert(description(op::LTE) == Some(table@[30]));
        assert(description(op::GT) == Some(table@[31]));
        assert(description(op::GTE) == Some(table@[32]));
        assert(description(op::GETPARAM) == Some(table@[33]));
    }
    table
}

/// The static description of `opcode`, or `None` if it is unallocated.
pub fn instruction(opcode: u8) -> (info: Option<InstructionInfo>)
    ensures
        info == description(opcode),
{
    let table: [InstructionInfo; 34] = instructions();
    let mut i: usize = 0;
    while i < table.len()
        invariant
            i <= table@.len(),
            table@.len() == 34,
            forall|k: int|
                0 <= k < table@.len() ==> description((#[trigger] table@[k]).opcode) == Some(table@[k]),
            forall|b: u8| #[trigger]
                description(b) is Some ==> exists|k: int|
                    0 <= k < table@.len() && (#[trigger] table@[k]).opcode == b,
            forall|k: int| 0 <= k < i ==> (#[trigger] table@[k]).opcode != opcode,
        decreases table@.len() - i,
    {
        if table[i].opcode == opcode {
            return Some(table[i]);
        }
        i += 1;
    }
    None
}

/// Fuel charged per opcode byte, zero for a byte that is not an instruction.
///
/// The indirection is there although every cost is one unit today: a cost change
/// changes which programs exhaust their budget, and so what they return.
pub fn cost(opcode: u8) -> (units: u8)
    ensures
        units == cost_of(opcode),
{
    match opcode {
        op::RET..=op::JMPNZ
        | op::PUSH_U8..=op::PUSH_U64
        | op::POP..=op::SWAP
        | op::LOAD..=op::ARG
        | op::ADD..=op::MAX
        | op::AND..=op::SHR
        | op::EQ..=op::GTE
        | op::GETPARAM => 1,
        _ => 0,
    }
}

/// Exactly the instructions cost fuel.
pub proof fn exactly_the_instructions_cost_fuel(opcode: u8)
    ensures
        description(opcode) is Some <==> cost_of(opcode) != 0,
        description(opcode) matches Some(info) ==> info.opcode == opcode && info.cost == cost_of(
            opcode,
        ),
{
}

/// Zero and the bytes above the host-call group are unallocated.
pub proof fn reserved_bytes_are_unallocated(opcode: u8)
    requires
        opcode == 0 || opcode >= 0x80,
    ensures
        description(opcode) is None,
{
}

/// The bytes are permanent: these are the instructions, their names and their
/// immediates. Each costs one unit.
pub proof fn the_instruction_table(opcode: u8)
    ensures
        description(0x01) == Some(
            InstructionInfo { opcode: 0x01, mnemonic: "RET", imm: Imm::Absent, cost: 1 },
        ),
        description(0x02) == Some(
            InstructionInfo { opcode: 0x02, mnemonic: "JMP", imm: Imm::Rel16, cost: 1 },
        ),
        description(0x03) == Some(
            InstructionInfo { opcode: 0x03, mnemonic: "JMPZ", imm: Imm::Rel16, cost: 1 },
        ),
        description(0x04) == Some(
            InstructionInfo { opcode: 0x04, mnemonic: "JMPNZ", imm: Imm::Rel16, cost: 1 },
        ),
        description(0x10) == Some(
            InstructionInfo { opcode: 0x10, mnemonic: "PUSH_U8", imm: Imm::U8, cost: 1 },
        ),
        description(0x11) == Some(
            InstructionInfo { opcode: 0x11, mnemonic: "PUSH_U16", imm: Imm::U16, cost: 1 },
        ),
        description(0x12) == Some(
            InstructionInfo { opcode: 0x12, mnemonic: "PUSH_U32", imm: Imm::U32, cost: 1 },
        ),
        description(0x13) == Some(
            InstructionInfo { opcode: 0x13, mnemonic: "PUSH_U64", imm: Imm::U64, cost: 1 },
        ),
        description(0x20) == Some(
            InstructionInfo { opcode: 0x20, mnemonic: "POP", imm: Imm::Absent, cost: 1 },
        ),
        description(0x21) == Some(
            InstructionInfo { opcode: 0x21, mnemonic: "DUP", imm: Imm::Absent, cost: 1 },
        ),
        description(0x22) == Some(
            InstructionInfo { opcode: 0x22, mnemonic: "SWAP", imm: Imm::Absent, cost: 1 },
        ),
        description(0x30) == Some(
            InstructionInfo { opcode: 0x30, mnemonic: "LOAD", imm: Imm::U8, cost: 1 },
        ),
        description(0x31) == Some(
            InstructionInfo { opcode: 0x31, mnemonic: "STORE", imm: Imm::U8, cost: 1 },
        ),
        description(0x32) == Some(
            InstructionInfo { opcode: 0x32, mnemonic: "ARG", imm: Imm::U8, cost: 1 },
        ),
        description(0x40) == Some(
            InstructionInfo { opcode: 0x40, mnemonic: "ADD", imm: Imm::Absent, cost: 1 },
        ),
        description(0x41) == Some(
            InstructionInfo { opcode: 0x41, mnemonic: "SUB", imm: Imm::Absent, cost: 1 },
        ),
        description(0x42) == Some(
            InstructionInfo { opcode: 0x42, mnemonic: "MUL", imm: Imm::Absent, cost: 1 },
        ),
        description(0x43) == Some(
            InstructionInfo { opcode: 0x43, mnemonic: "DIV", imm: Imm::Absent, cost: 1 },
        ),
        description(0x44) == Some(
            InstructionInfo { opcode: 0x44, mnemonic: "MOD", imm: Imm::Absent, cost: 1 },
        ),
        description(0x45) == Some(
            InstructionInfo { opcode: 0x45, mnemonic: "MIN", imm: Imm::Absent, cost: 1 },
        ),
        description(0x46) == Some(
            InstructionInfo { opcode: 0x46, mnemonic: "MAX", imm: Imm::Absent, cost: 1 },
        ),
        description(0x50) == Some(
            InstructionInfo { opcode: 0x50, mnemonic: "AND", imm: Imm::Absent, cost: 1 },
        ),
        description(0x51) == Some(
            InstructionInfo { opcode: 0x51, mnemonic: "OR", imm: Imm::Absent, cost: 1 },
        ),
        description(0x52) == Some(
            InstructionInfo { opcode: 0x52, mnemonic: "XOR", imm: Imm::Absent, cost: 1 },
        ),
        description(0x53) == Some(
            InstructionInfo { opcode: 0x53, mnemonic: "NOT", imm: Imm::Absent, cost: 1 },
        ),
        description(0x54) == Some(
            InstructionInfo { opcode: 0x54, mnemonic: "SHL", imm: Imm::Absent, cost: 1 },
        ),
        description(0x55) == Some(
            InstructionInfo { opcode: 0x55, mnemonic: "SHR", imm: Imm::Absent, cost: 1 },
        ),
        description(0x60) == Some(
            InstructionInfo { opcode: 0x60, mnemonic: "EQ", imm: Imm::Absent, cost: 1 },
        ),
        description(0x61) == Some(
            InstructionInfo { opcode: 0x61, mnemonic: "NE", imm: Imm::Absent, cost: 1 },
        ),
        description(0x62) == Some(
            InstructionInfo { opcode: 0x62, mnemonic: "LT", imm: Imm::Absent, cost: 1 },
        ),
        description(0x63) == Some(
            InstructionInfo { opcode: 0x63, mnemonic: "LTE", imm: Imm::Absent, cost: 1 },
        ),
        description(0x64) == Some(
            InstructionInfo { opcode: 0x64, mnemonic: "GT", imm: Imm::Absent, cost: 1 },
        ),
        description(0x65) == Some(
            InstructionInfo { opcode: 0x65, mnemonic: "GTE", imm: Imm::Absent, cost: 1 },
        ),
        description(0x70) == Some(
            InstructionInfo { opcode: 0x70, mnemonic: "GETPARAM", imm: Imm::U8Pair, cost: 1 },
        ),
        description(opcode) is Some ==> {
            ||| 0x01 <= opcode <= 0x04
            ||| 0x10 <= opcode <= 0x13
            ||| 0x20 <= opcode <= 0x22
            ||| 0x30 <= opcode <= 0x32
            ||| 0x40 <= opcode <= 0x46
            ||| 0x50 <= opcode <= 0x55
            ||| 0x60 <= opcode <= 0x65
            ||| opcode == 0x70
        },
{
}

/// How many bytes an immediate takes.
pub proof fn immediates_have_these_widths()
    ensures
        Imm::Absent.width() == 0,
        Imm::U8.width() == 1,
        Imm::U8Pair.width() == 2,
        Imm::U16.width() == 2,
        Imm::U32.width() == 4,
        Imm::U64.width() == 8,
        Imm::Rel16.width() == 2,
{
}

} // verus!
