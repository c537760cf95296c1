//! What an execution produces.

use vstd::prelude::*;

verus! {

/// Why a program terminated without producing a result.
#[derive(Clone, Copy, PartialEq, Eq, Structural, Debug)]
pub enum TrapReason {
    /// The operand stack exceeded its maximum depth.
    StackOverflow,
    /// An instruction consumed an absent operand.
    StackUnderflow,
    /// `GETPARAM` recursion passed the fixed maximum.
    NestingDepthExceeded,
    /// A reserved or unassigned opcode byte was decoded.
    UndefinedOpcode,
    /// An immediate, or the opcode itself, extended past the end of the program.
    TruncatedInstruction,
    /// A jump destination fell outside the program's byte range.
    ControlFlowOutOfRange,
    /// An `ARG` index at or above the invocation's arity, or a `LOAD` / `STORE`
    /// slot outside the local-slot array.
    OperandIndexOutOfRange,
    /// The host declined a parameter named by `GETPARAM`.
    HostCallUnresolved,
}

/// What an execution produced.
///
/// The machine reports; it does not decide. Mapping a failure onto a fallback is
/// the caller's policy.
#[derive(Clone, Copy, PartialEq, Eq, Structural, Debug)]
pub enum VmOutcome {
    /// The program reached `RET`; this is its result.
    Completed(u64),
    /// The program hit one of the structural failure conditions.
    Trapped(TrapReason),
    /// The budget ran out.
    OutOfFuel,
}

} // verus!
