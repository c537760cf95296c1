//! What a program means: a state, one step of the machine, and a whole run.
//!
//! A run is a function of the program, its arguments, the budget and the host's
//! answers, and of nothing else.

use vstd::prelude::*;

use crate::encoding::{little_endian, twos_complement_16};
use crate::fuel::Fuel;
use crate::host::{Exchange, HOST_RESOLVE_PARAMETER};
use crate::instruction::{cost_of, description};
use crate::opcode as op;
use crate::outcome::{TrapReason, VmOutcome};

verus! {

/// What stays fixed over one execution: the bounds of the machine, the program and
/// the arguments.
pub struct Invocation {
    /// Maximum operand-stack depth.
    pub stack_depth: nat,
    /// Number of local slots.
    pub local_slots: nat,
    /// Maximum depth of host-call recursion.
    pub max_nesting: nat,
    /// The bytes being executed.
    pub program: Seq<u8>,
    /// The arguments that `ARG` reads.
    pub args: Seq<u64>,
}

/// What changes from one instruction to the next.
#[verifier::ext_equal]
pub struct MachineState {
    /// Offset of the next instruction.
    pub pc: int,
    /// The operands, the top of the stack last.
    pub stack: Seq<u64>,
    /// The local slots.
    pub locals: Seq<u64>,
    /// The budget.
    pub fuel: Fuel,
}

/// What one step leads to.
pub enum Step {
    /// Execution goes on from this state.
    Continue(MachineState),
    /// Execution ends, with this much of the budget left.
    Halt(VmOutcome, Fuel),
    /// The host is to be asked over these arguments, and execution to be resumed
    /// from this state.
    Resolve(Seq<u64>, MachineState),
}

impl Invocation {
    /// The state before the first instruction: nothing on the stack, every local
    /// slot zero.
    pub open spec fn start(self, fuel: Fuel) -> MachineState {
        MachineState {
            pc: 0,
            stack: Seq::empty(),
            locals: Seq::new(self.local_slots, |slot: int| 0u64),
            fuel,
        }
    }

    /// The states that executions of this invocation go through: the stack is
    /// within its bound, every local slot exists, and the offset is inside the
    /// program or directly behind it.
    pub open spec fn admits(self, state: MachineState) -> bool {
        &&& state.stack.len() <= self.stack_depth
        &&& state.locals.len() == self.local_slots
        &&& 0 <= state.pc <= self.program.len()
    }
}

impl MachineState {
    pub open spec fn trap(self, reason: TrapReason) -> Step {
        Step::Halt(VmOutcome::Trapped(reason), self.fuel)
    }

    /// Goes on at `next` with `stack` as the operands.
    pub open spec fn proceed(self, next: int, stack: Seq<u64>) -> Step {
        Step::Continue(MachineState { pc: next, stack, ..self })
    }

    /// Goes on at `next` with `value` on top of the stack.
    pub open spec fn push(self, inv: Invocation, next: int, value: u64) -> Step {
        if self.stack.len() >= inv.stack_depth {
            self.trap(TrapReason::StackOverflow)
        } else {
            self.proceed(next, self.stack.push(value))
        }
    }

    /// Goes on at `target` with `stack` as the operands, if `target` is inside the
    /// program.
    pub open spec fn jump(self, inv: Invocation, target: int, stack: Seq<u64>) -> Step {
        if 0 <= target < inv.program.len() {
            self.proceed(target, stack)
        } else {
            self.trap(TrapReason::ControlFlowOutOfRange)
        }
    }
}

/// The instructions that replace their two operands by one result.
pub open spec fn is_binary(opcode: u8) -> bool {
    ||| op::ADD <= opcode <= op::MAX
    ||| op::AND <= opcode <= op::XOR
    ||| op::SHL <= opcode <= op::SHR
    ||| op::EQ <= opcode <= op::GTE
}

pub open spec fn truth(b: bool) -> u64 {
    if b {
        1
    } else {
        0
    }
}

/// The result of a binary instruction over `a`, pushed first, and `b`. Defined for
/// every pair of operands.
pub open spec fn binary_result(opcode: u8, a: u64, b: u64) -> u64 {
    match opcode {
        op::ADD => if a + b > u64::MAX {
            u64::MAX
        } else {
            (a + b) as u64
        },
        op::SUB => if a < b {
            0
        } else {
            (a - b) as u64
        },
        op::MUL => if a * b > u64::MAX {
            u64::MAX
        } else {
            (a * b) as u64
        },
        op::DIV => if b == 0 {
            0
        } else {
            a / b
        },
        op::MOD => if b == 0 {
            0
        } else {
            a % b
        },
        op::MIN => if a <= b {
            a
        } else {
            b
        },
        op::MAX => if a <= b {
            b
        } else {
            a
        },
        op::AND => a & b,
        op::OR => a | b,
        op::XOR => a ^ b,
        op::SHL => if b >= 64 {
            0
        } else {
            a << b
        },
        op::SHR => if b >= 64 {
            0
        } else {
            a >> b
        },
        op::EQ => truth(a == b),
        op::NE => truth(a != b),
        op::LT => truth(a < b),
        op::LTE => truth(a <= b),
        op::GT => truth(a > b),
        _ => truth(a >= b),
    }
}

/// Executes the allocated instruction `opcode`, found at `s.pc` and already paid
/// for.
pub open spec fn perform(inv: Invocation, s: MachineState, opcode: u8) -> Step {
    let width = description(opcode)->0.imm.width();
    let at = s.pc + 1;
    let next = at + width;
    if next > inv.program.len() {
        s.trap(TrapReason::TruncatedInstruction)
    } else {
        let bytes = inv.program.subrange(at, next);
        let operand = little_endian(bytes);
        let target = next + twos_complement_16(operand as int);
        let size = s.stack.len() as int;
        match opcode {
            op::RET => if size == 0 {
                s.trap(TrapReason::StackUnderflow)
            } else {
                Step::Halt(VmOutcome::Completed(s.stack.last()), s.fuel)
            },
            op::JMP => s.jump(inv, target, s.stack),
            op::JMPZ | op::JMPNZ => if size == 0 {
                s.trap(TrapReason::StackUnderflow)
            } else if (s.stack.last() == 0) == (opcode == op::JMPZ) {
                s.jump(inv, target, s.stack.drop_last())
            } else {
                s.proceed(next, s.stack.drop_last())
            },
            op::PUSH_U8 | op::PUSH_U16 | op::PUSH_U32 | op::PUSH_U64 => s.push(
                inv,
                next,
                operand as u64,
            ),
            op::POP => if size == 0 {
                s.trap(TrapReason::StackUnderflow)
            } else {
                s.proceed(next, s.stack.drop_last())
            },
            op::DUP => if size == 0 {
                s.trap(TrapReason::StackUnderflow)
            } else {
                s.push(inv, next, s.stack.last())
            },
            op::SWAP => if size < 2 {
                s.trap(TrapReason::StackUnderflow)
            } else {
                s.proceed(
                    next,
                    s.stack.take(size - 2).push(s.stack[size - 1]).push(s.stack[size - 2]),
                )
            },
            op::LOAD => if operand >= inv.local_slots {
                s.trap(TrapReason::OperandIndexOutOfRange)
            } else {
                s.push(inv, next, s.locals[operand as int])
            },
            op::STORE => if operand >= inv.local_slots {
                s.trap(TrapReason::OperandIndexOutOfRange)
            } else if size == 0 {
                s.trap(TrapReason::StackUnderflow)
            } else {
                Step::Continue(
                    MachineState {
                        pc: next,
                        stack: s.stack.drop_last(),
                        locals: s.locals.update(operand as int, s.stack.last()),
                        fuel: s.fuel,
                    },
                )
            },
            op::ARG => if operand >= inv.args.len() {
                s.trap(TrapReason::OperandIndexOutOfRange)
            } else {
                s.push(inv, next, inv.args[operand as int])
            },
            op::NOT => if size == 0 {
                s.trap(TrapReason::StackUnderflow)
            } else {
                s.proceed(next, s.stack.drop_last().push(!s.stack.last()))
            },
            op::GETPARAM => if bytes[1] > size {
                s.trap(TrapReason::StackUnderflow)
            } else if s.fuel.depth >= inv.max_nesting {
                s.trap(TrapReason::NestingDepthExceeded)
            } else if size >= inv.stack_depth {
                s.trap(TrapReason::StackOverflow)
            } else {
                Step::Resolve(
                    seq![bytes[0] as u64] + s.stack.skip(size - bytes[1]),
                    MachineState { pc: next, stack: s.stack.take(size - bytes[1]), ..s },
                )
            },
            _ => if size < 2 {
                s.trap(TrapReason::StackUnderflow)
            } else {
                s.proceed(
                    next,
                    s.stack.take(size - 2).push(
                        binary_result(opcode, s.stack[size - 2], s.stack[size - 1]),
                    ),
                )
            },
        }
    }
}

/// One step: decode the byte at `s.pc`, pay for it, execute it. An unallocated
/// byte traps before it can exhaust the budget.
pub open spec fn step(inv: Invocation, s: MachineState) -> Step {
    if s.pc >= inv.program.len() {
        s.trap(TrapReason::TruncatedInstruction)
    } else {
        let opcode = inv.program[s.pc];
        let cost = cost_of(opcode);
        if cost == 0 {
            s.trap(TrapReason::UndefinedOpcode)
        } else if s.fuel.remaining < cost {
            Step::Halt(VmOutcome::OutOfFuel, s.fuel)
        } else {
            perform(inv, MachineState { fuel: s.fuel.spent(cost as int), ..s }, opcode)
        }
    }
}

/// What follows a host call from `waiting`: the answer is pushed, or the program
/// traps where there is none. The budget is what the host left of it.
pub open spec fn resume(waiting: MachineState, after: Fuel, reply: Option<u64>) -> Step {
    let left = MachineState {
        fuel: Fuel { remaining: after.remaining, depth: waiting.fuel.depth },
        ..waiting
    };
    match reply {
        Some(value) => left.proceed(left.pc, left.stack.push(value)),
        None => left.trap(TrapReason::HostCallUnresolved),
    }
}

/// `e` records a host call over `args` made from `waiting`.
pub open spec fn records(e: Exchange, args: Seq<u64>, waiting: MachineState) -> bool {
    &&& e.func_id == HOST_RESOLVE_PARAMETER
    &&& e.args == args
    &&& e.before == waiting.fuel.nested()
    &&& e.within_budget()
}

/// The run from `s` in which the host calls are those of `trace`, in order: the
/// outcome and the budget left. `None` where `trace` does not record the calls
/// that this run makes.
pub open spec fn run(inv: Invocation, s: MachineState, trace: Seq<Exchange>) -> Option<
    (VmOutcome, Fuel),
>
    decreases s.fuel.remaining,
{
    match step(inv, s) {
        Step::Halt(outcome, fuel) => if trace.len() == 0 {
            Some((outcome, fuel))
        } else {
            None
        },
        Step::Continue(next) => run(inv, next, trace),
        Step::Resolve(args, waiting) => if trace.len() > 0 && records(trace[0], args, waiting) {
            match resume(waiting, trace[0].after, trace[0].reply) {
                Step::Continue(next) => run(inv, next, trace.drop_first()),
                Step::Halt(outcome, fuel) => if trace.len() == 1 {
                    Some((outcome, fuel))
                } else {
                    None
                },
                Step::Resolve(..) => None,
            }
        } else {
            None
        },
    }
}

} // verus!
