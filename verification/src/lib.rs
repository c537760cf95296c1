//! Bytecode execution engine for configuration parameters of a chain, with its
//! assembler and disassembler.
//!
//! A configurable parameter may be a plain literal or a small program that
//! *computes* its value: a registration price that grows with the size of the
//! network, for example. [`Vm`] executes those programs. It receives a program, its
//! arguments, a fuel budget and a host handle, and returns a typed outcome. What a
//! parameter *is*, what the fuel limit should be, and what to do when a program
//! fails are the caller's concern.
//!
//! # Determinism is the correctness property
//!
//! Every value computed here feeds a consensus decision: two nodes running the same
//! program over the same arguments have to reach the same answer. [`semantics`] says
//! what a program means, [`machine`] is proved to do it, [`effects`] states what each
//! instruction does, and [`laws`] what follows for every execution:
//!
//! - **Initial state is fully defined.** Local slots are zero-initialised and no
//!   instruction can read machine state that was never written.
//! - **Every arithmetic instruction is total.** Division and modulo by zero yield
//!   `0`, shifts of 64 or more yield `0`, subtraction saturates at `0`, and addition
//!   and multiplication saturate at [`u64::MAX`]. What remains able to fail is
//!   structural (fuel, stack depth, nesting), never arithmetic.
//! - **Nothing node-local is reachable.** There is no clock, no randomness, and no
//!   instruction that reads the remaining fuel: an outcome is a function of the
//!   program, the arguments, the budget and the host's answers.
//!
//! # There is no load-time verifier
//!
//! Fuel, stack depth and nesting are not decidable ahead of a run once the
//! instruction set has backward jumps, so the machine is total regardless: whatever
//! the bytes, an execution ends in one of the outcomes of [`VmOutcome`]. Structural
//! diagnostics belong in the assembler, where they can name the offending line.
//!
//! # Text and bytes
//!
//! [`assemble`] turns source text into bytecode, [`disassemble`] renders bytecode as
//! canonical text. [`assembly`] and [`disassembly`] say what they return. [`numerals`]
//! and [`statements`] state what source text stands for, and [`listing_laws`] what
//! canonical text shows. [`roundtrip`] and [`assembled`] state that each undoes the
//! other, and [`notation`] which changes to a source make no difference.
//!
//! # Example
//!
//! ```
//! use moonblokz_vm::{Fuel, Vm, VmHost, VmOutcome};
//! # struct NoHost;
//! # impl VmHost for NoHost {
//! #     fn call(&self, _: u16, _: &[u64], _: &mut Fuel) -> Option<u64> { None }
//! # }
//! // registration_price(n) = min(1000 + 5 * n, 50000)
//! let program = [
//!     0x32, 0x00,             // ARG 0
//!     0x10, 0x05,             // PUSH_U8 5
//!     0x42,                   // MUL
//!     0x11, 0xE8, 0x03,       // PUSH_U16 1000
//!     0x40,                   // ADD
//!     0x11, 0x50, 0xC3,       // PUSH_U16 50000
//!     0x45,                   // MIN
//!     0x01,                   // RET
//! ];
//! let mut fuel = Fuel::new(1000);
//! let outcome = Vm::<16, 8, 4>::execute(&program, &[200], &mut fuel, &NoHost);
//! assert_eq!(outcome, VmOutcome::Completed(2000));
//! ```

use vstd::prelude::*;

pub mod assembled;
pub mod assembler;
pub mod assembly;
pub mod canonical;
pub mod disassembler;
pub mod disassembly;
pub mod effects;
pub mod encoding;
pub mod fuel;
pub mod hex;
pub mod host;
pub mod instruction;
pub mod laws;
pub mod listing_laws;
pub mod machine;
pub mod mnemonic;
pub mod notation;
pub mod number;
pub mod numerals;
pub mod opcode;
pub mod outcome;
pub mod roundtrip;
pub mod semantics;
pub mod source_laws;
pub mod stack;
pub mod statements;
pub mod text;

pub use crate::assembler::{assemble, try_assemble, AsmError};
pub use crate::assembly::MAX_PROGRAM_LEN;
pub use crate::disassembler::{disassemble, mnemonic, DisError};
pub use crate::fuel::Fuel;
pub use crate::hex::{hexdump, parse_hex, try_parse_hex};
pub use crate::host::{VmHost, HOST_RESOLVE_PARAMETER};
pub use crate::instruction::{cost, instruction, instructions, Imm, InstructionInfo};
pub use crate::machine::Vm;
pub use crate::outcome::{TrapReason, VmOutcome};
