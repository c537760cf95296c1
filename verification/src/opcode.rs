//! The opcode byte of every instruction.
//!
//! Bytecode is permanent: once a chain exists, a program's bytes cannot be
//! reinterpreted. The space is therefore partitioned up front in aligned 16-byte
//! groups, with the room current instructions do not need left explicitly
//! reserved, so that later additions extend the encoding rather than filling in
//! whatever bytes happened to be free.
//!
//! | Range | Group |
//! |---|---|
//! | `0x00` | permanently unallocated |
//! | `0x01`–`0x0F` | control and return |
//! | `0x10`–`0x1F` | constants |
//! | `0x20`–`0x2F` | stack |
//! | `0x30`–`0x3F` | locals and arguments |
//! | `0x40`–`0x4F` | arithmetic |
//! | `0x50`–`0x5F` | bitwise |
//! | `0x60`–`0x6F` | comparison |
//! | `0x70`–`0x7F` | host calls |
//! | `0x80`–`0xBF` | reserved for future groups |
//! | `0xC0`–`0xFF` | reserved, unassigned |
//!
//! `0x00` is permanently unallocated on purpose. Zero is what a truncated,
//! padded or zero-initialised buffer is made of, and the most likely accidental
//! "program" is a run of zero bytes; keeping `0x00` undefined means such a buffer
//! traps on its first instruction instead of executing something.

use vstd::prelude::*;

verus! {

// Control and return.
/// Ends execution; the top of the stack is the program's result.
pub const RET: u8 = 0x01;
/// Unconditional branch.
pub const JMP: u8 = 0x02;
/// Branch if the top of the stack is zero.
pub const JMPZ: u8 = 0x03;
/// Branch if the top of the stack is non-zero.
pub const JMPNZ: u8 = 0x04;

// Constants.
/// Push a `u8` immediate, zero-extended.
pub const PUSH_U8: u8 = 0x10;
/// Push a `u16` immediate, zero-extended.
pub const PUSH_U16: u8 = 0x11;
/// Push a `u32` immediate, zero-extended.
pub const PUSH_U32: u8 = 0x12;
/// Push a `u64` immediate.
pub const PUSH_U64: u8 = 0x13;

// Stack.
/// Discard the top of the stack.
pub const POP: u8 = 0x20;
/// Duplicate the top of the stack.
pub const DUP: u8 = 0x21;
/// Exchange the top two operands.
pub const SWAP: u8 = 0x22;

// Locals and arguments.
/// Push a local slot.
pub const LOAD: u8 = 0x30;
/// Pop into a local slot.
pub const STORE: u8 = 0x31;
/// Push an argument of the invocation.
pub const ARG: u8 = 0x32;

// Arithmetic.
/// Saturating addition.
pub const ADD: u8 = 0x40;
/// Saturating subtraction, floored at zero.
pub const SUB: u8 = 0x41;
/// Saturating multiplication.
pub const MUL: u8 = 0x42;
/// Division; zero when the divisor is zero.
pub const DIV: u8 = 0x43;
/// Remainder; zero when the divisor is zero.
pub const MOD: u8 = 0x44;
/// The smaller of two operands.
pub const MIN: u8 = 0x45;
/// The larger of two operands.
pub const MAX: u8 = 0x46;

// Bitwise.
/// Bitwise conjunction.
pub const AND: u8 = 0x50;
/// Bitwise disjunction.
pub const OR: u8 = 0x51;
/// Bitwise exclusive disjunction.
pub const XOR: u8 = 0x52;
/// Bitwise complement.
pub const NOT: u8 = 0x53;
/// Left shift; zero when the shift is 64 or more.
pub const SHL: u8 = 0x54;
/// Right shift; zero when the shift is 64 or more.
pub const SHR: u8 = 0x55;

// Comparison.
/// Equality.
pub const EQ: u8 = 0x60;
/// Inequality.
pub const NE: u8 = 0x61;
/// Less than.
pub const LT: u8 = 0x62;
/// Less than or equal.
pub const LTE: u8 = 0x63;
/// Greater than.
pub const GT: u8 = 0x64;
/// Greater than or equal.
pub const GTE: u8 = 0x65;

// Host calls.
/// Resolve another configuration parameter through the host, consuming the
/// number of operands the instruction itself declares.
pub const GETPARAM: u8 = 0x70;

} // verus!
