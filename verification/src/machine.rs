//! The stack machine.

use vstd::prelude::*;

use crate::encoding::{lemma_byte_limits, read_displacement, read_le};
use crate::fuel::Fuel;
use crate::host::{all_given_by, Exchange, VmHost, HOST_RESOLVE_PARAMETER};
use crate::instruction::cost;
use crate::laws::executions_agree;
use crate::opcode as op;
use crate::outcome::{TrapReason, VmOutcome};
use crate::semantics::{
    binary_result, is_binary, perform, records, resume, run, step, Invocation, MachineState, Step,
};
use crate::stack::OperandStack;

verus! {

/// What a step asks of whoever drives the machine.
pub enum Event {
    /// Take the next step.
    Continue,
    /// Execution has ended.
    Halt(VmOutcome),
    /// Ask the host over the operands from position `base` up, then resume.
    Resolve {
        /// Position of the parameter identifier on the stack.
        base: usize,
    },
}

/// The result of a binary instruction over `a`, pushed first, and `b`.
pub fn binary(opcode: u8, a: u64, b: u64) -> (result: u64)
    requires
        is_binary(opcode),
    ensures
        result == binary_result(opcode, a, b),
{
    match opcode {
        op::ADD => a.saturating_add(b),
        op::SUB => a.saturating_sub(b),
        op::MUL => match a.checked_mul(b) {
            Some(product) => product,
            None => u64::MAX,
        },
        op::DIV => if b == 0 {
            0
        } else {
            a / b
        },
        op::MOD => if b == 0 {
            0
        } else {
            a % b
        },
        op::MIN => if a <= b {
            a
        } else {
            b
        },
        op::MAX => if a <= b {
            b
        } else {
            a
        },
        op::AND => a & b,
        op::OR => a | b,
        op::XOR => a ^ b,
        op::SHL => if b >= 64 {
            0
        } else {
            a << b
        },
        op::SHR => if b >= 64 {
            0
        } else {
            a >> b
        },
        op::EQ => (a == b) as u64,
        op::NE => (a != b) as u64,
        op::LT => (a < b) as u64,
        op::LTE => (a <= b) as u64,
        op::GT => (a > b) as u64,
        _ => (a >= b) as u64,
    }
}

/// A stack machine over `u64` in the middle of an execution. It holds everything
/// but the budget, which its driver owns.
pub struct Machine<const STACK_DEPTH: usize, const LOCAL_SLOTS: usize, const MAX_NESTING: usize> {
    pc: usize,
    stack: OperandStack<STACK_DEPTH>,
    locals: [u64; LOCAL_SLOTS],
}

impl<const STACK_DEPTH: usize, const LOCAL_SLOTS: usize, const MAX_NESTING: usize> Machine<
    STACK_DEPTH,
    LOCAL_SLOTS,
    MAX_NESTING,
> {
    /// The execution of `program` over `args` on a machine of these bounds.
    pub open spec fn invocation(program: Seq<u8>, args: Seq<u64>) -> Invocation {
        Invocation {
            stack_depth: STACK_DEPTH as nat,
            local_slots: LOCAL_SLOTS as nat,
            max_nesting: MAX_NESTING as nat,
            program,
            args,
        }
    }

    /// Offset of the next instruction.
    pub closed spec fn offset(&self) -> int {
        self.pc as int
    }

    /// The operands, the top of the stack last.
    pub closed spec fn stacked(&self) -> Seq<u64> {
        self.stack@
    }

    /// The local slots.
    pub closed spec fn slots(&self) -> Seq<u64> {
        self.locals@
    }

    /// The machine's state, given the budget.
    pub open spec fn state(&self, fuel: Fuel) -> MachineState {
        MachineState { pc: self.offset(), stack: self.stacked(), locals: self.slots(), fuel }
    }

    pub closed spec fn wf(&self) -> bool {
        self.stack.wf()
    }

    /// The machine and its budget are where `expected` says, and `event` says so.
    pub open spec fn follows(&self, fuel: Fuel, event: Event, expected: Step) -> bool {
        match expected {
            Step::Continue(next) => {
                &&& event is Continue
                &&& self.wf()
                &&& self.state(fuel) == next
            },
            Step::Halt(outcome, left) => {
                &&& event == Event::Halt(outcome)
                &&& fuel == left
            },
            Step::Resolve(args, waiting) => {
                &&& event == (Event::Resolve { base: waiting.stack.len() as usize })
                &&& self.wf()
                &&& self.state(fuel) == (MachineState { stack: waiting.stack + args, ..waiting })
            },
        }
    }

    /// A machine at the first byte of a program, its stack empty and its local
    /// slots zero.
    pub fn new() -> (machine: Self)
        ensures
            machine.wf(),
            forall|program: Seq<u8>, args: Seq<u64>, fuel: Fuel| #[trigger]
                machine.state(fuel) == #[trigger] Self::invocation(program, args).start(fuel),
    {
        let machine: Self = Machine { pc: 0, stack: OperandStack::new(), locals: [0u64; LOCAL_SLOTS] };
        assert forall|program: Seq<u8>, args: Seq<u64>, fuel: Fuel| #[trigger]
            machine.state(fuel) == #[trigger] Self::invocation(program, args).start(fuel) by {
            assert(machine.locals@ =~= Self::invocation(program, args).start(fuel).locals);
        }
        machine
    }

    /// The `width` bytes behind the opcode at `self.pc` are all there.
    fn has_immediate(&self, program: &[u8], width: usize) -> (there: bool)
        requires
            self.pc < program.len(),
        ensures
            there <==> self.pc + 1 + width <= program.len(),
    {
        width <= program.len() - self.pc - 1
    }

    /// Puts `value` on the stack and goes on at `next`.
    fn push_and_proceed(&mut self, next: usize, value: u64, fuel: &Fuel, inv: Ghost<Invocation>) -> (event: Event)
        requires
            old(self).wf(),
            inv@.stack_depth == STACK_DEPTH,
        ensures
            final(self).follows(*fuel, event, old(self).state(*fuel).push(inv@, next as int, value)),
    {
        if !self.stack.push(value) {
            return Event::Halt(VmOutcome::Trapped(TrapReason::StackOverflow));
        }
        self.pc = next;
        Event::Continue
    }

    /// `JMP`, `JMPZ` and `JMPNZ`.
    fn branch(&mut self, opcode: u8, program: &[u8], args: &[u64], fuel: &Fuel) -> (event: Event)
        requires
            old(self).wf(),
            old(self).state(*fuel).pc < program.len(),
            op::JMP <= opcode <= op::JMPNZ,
        ensures
            final(self).follows(
                *fuel,
                event,
                perform(Self::invocation(program@, args@), old(self).state(*fuel), opcode),
            ),
    {
        if !self.has_immediate(program, 2) {
            return Event::Halt(VmOutcome::Trapped(TrapReason::TruncatedInstruction));
        }
        let displacement: i16 = read_displacement(program, self.pc + 1);
        let next: usize = self.pc + 3;
        let take: bool = if opcode == op::JMP {
            true
        } else {
            match self.stack.pop() {
                Some(condition) => (condition == 0) == (opcode == op::JMPZ),
                None => return Event::Halt(VmOutcome::Trapped(TrapReason::StackUnderflow)),
            }
        };
        if take {
            // Displacements are relative to the address of the following
            // instruction. A destination inside the program is always meaningful,
            // including one landing mid-instruction: decoding resumes there.
            let target: i128 = next as i128 + displacement as i128;
            if target < 0 || target >= program.len() as i128 {
                return Event::Halt(VmOutcome::Trapped(TrapReason::ControlFlowOutOfRange));
            }
            self.pc = target as usize;
        } else {
            self.pc = next;
        }
        Event::Continue
    }

    /// `PUSH_U8`, `PUSH_U16`, `PUSH_U32` and `PUSH_U64`.
    fn push_constant(&mut self, opcode: u8, program: &[u8], args: &[u64], fuel: &Fuel) -> (event: Event)
        requires
            old(self).wf(),
            old(self).state(*fuel).pc < program.len(),
            op::PUSH_U8 <= opcode <= op::PUSH_U64,
        ensures
            final(self).follows(
                *fuel,
                event,
                perform(Self::invocation(program@, args@), old(self).state(*fuel), opcode),
            ),
    {
        let width: usize = match opcode {
            op::PUSH_U8 => 1,
            op::PUSH_U16 => 2,
            op::PUSH_U32 => 4,
            _ => 8,
        };
        if !self.has_immediate(program, width) {
            return Event::Halt(VmOutcome::Trapped(TrapReason::TruncatedInstruction));
        }
        let value: u64 = read_le(program, self.pc + 1, width);
        let next: usize = self.pc + 1 + width;
        self.push_and_proceed(next, value, fuel, Ghost(Self::invocation(program@, args@)))
    }

    /// `POP`, `DUP`, `SWAP` and `NOT`.
    fn rearrange(&mut self, opcode: u8, program: &[u8], args: &[u64], fuel: &Fuel) -> (event: Event)
        requires
            old(self).wf(),
            old(self).state(*fuel).pc < program.len(),
            op::POP <= opcode <= op::SWAP || opcode == op::NOT,
        ensures
            final(self).follows(
                *fuel,
                event,
                perform(Self::invocation(program@, args@), old(self).state(*fuel), opcode),
            ),
    {
        let next: usize = self.pc + 1;
        if opcode == op::DUP {
            return match self.stack.top() {
                Some(top) => self.push_and_proceed(
                    next,
                    top,
                    fuel,
                    Ghost(Self::invocation(program@, args@)),
                ),
                None => Event::Halt(VmOutcome::Trapped(TrapReason::StackUnderflow)),
            };
        }
        let top: u64 = match self.stack.pop() {
            Some(top) => top,
            None => return Event::Halt(VmOutcome::Trapped(TrapReason::StackUnderflow)),
        };
        if opcode == op::NOT {
            self.stack.push(!top);
        } else if opcode == op::SWAP {
            match self.stack.pop() {
                Some(second) => {
                    self.stack.push(top);
                    self.stack.push(second);
                    assert(old(self).stack@.drop_last().drop_last() =~= old(self).stack@.take(
                        old(self).stack@.len() - 2,
                    ));
                },
                None => return Event::Halt(VmOutcome::Trapped(TrapReason::StackUnderflow)),
            }
        }
        self.pc = next;
        Event::Continue
    }

    /// `LOAD`, `STORE` and `ARG`.
    fn access(&mut self, opcode: u8, program: &[u8], args: &[u64], fuel: &Fuel) -> (event: Event)
        requires
            old(self).wf(),
            old(self).state(*fuel).pc < program.len(),
            op::LOAD <= opcode <= op::ARG,
        ensures
            final(self).follows(
                *fuel,
                event,
                perform(Self::invocation(program@, args@), old(self).state(*fuel), opcode),
            ),
    {
        if !self.has_immediate(program, 1) {
            return Event::Halt(VmOutcome::Trapped(TrapReason::TruncatedInstruction));
        }
        let index: usize = read_le(program, self.pc + 1, 1) as usize;
        proof {
            lemma_byte_limits();
        }
        let next: usize = self.pc + 2;
        let bound: usize = if opcode == op::ARG {
            args.len()
        } else {
            LOCAL_SLOTS
        };
        if index >= bound {
            return Event::Halt(VmOutcome::Trapped(TrapReason::OperandIndexOutOfRange));
        }
        if opcode == op::STORE {
            match self.stack.pop() {
                Some(value) => {
                    self.locals[index] = value;
                    self.pc = next;
                    Event::Continue
                },
                None => Event::Halt(VmOutcome::Trapped(TrapReason::StackUnderflow)),
            }
        } else {
            let value: u64 = if opcode == op::ARG {
                args[index]
            } else {
                self.locals[index]
            };
            self.push_and_proceed(next, value, fuel, Ghost(Self::invocation(program@, args@)))
        }
    }

    /// The instructions that replace two operands by one result.
    fn combine(&mut self, opcode: u8, program: &[u8], args: &[u64], fuel: &Fuel) -> (event: Event)
        requires
            old(self).wf(),
            old(self).state(*fuel).pc < program.len(),
            is_binary(opcode),
        ensures
            final(self).follows(
                *fuel,
                event,
                perform(Self::invocation(program@, args@), old(self).state(*fuel), opcode),
            ),
    {
        let b: u64 = match self.stack.pop() {
            Some(b) => b,
            None => return Event::Halt(VmOutcome::Trapped(TrapReason::StackUnderflow)),
        };
        let a: u64 = match self.stack.pop() {
            Some(a) => a,
            None => return Event::Halt(VmOutcome::Trapped(TrapReason::StackUnderflow)),
        };
        self.stack.push(binary(opcode, a, b));
        assert(old(self).stack@.drop_last().drop_last() =~= old(self).stack@.take(
            old(self).stack@.len() - 2,
        ));
        self.pc += 1;
        Event::Continue
    }

    /// `GETPARAM`, up to the host call.
    ///
    /// The host wants the parameter identifier and the arguments contiguously, and
    /// the arguments already are, argument 0 deepest. Writing the identifier
    /// beneath them turns the stack itself into the argument buffer.
    fn prepare_call(&mut self, program: &[u8], args: &[u64], fuel: &Fuel) -> (event: Event)
        requires
            old(self).wf(),
            old(self).state(*fuel).pc < program.len(),
        ensures
            final(self).follows(
                *fuel,
                event,
                perform(Self::invocation(program@, args@), old(self).state(*fuel), op::GETPARAM),
            ),
    {
        if !self.has_immediate(program, 2) {
            return Event::Halt(VmOutcome::Trapped(TrapReason::TruncatedInstruction));
        }
        let key: u8 = program[self.pc + 1];
        let argc: usize = program[self.pc + 2] as usize;
        let size: usize = self.stack.len();
        if argc > size {
            return Event::Halt(VmOutcome::Trapped(TrapReason::StackUnderflow));
        }
        if fuel.depth as usize >= MAX_NESTING {
            return Event::Halt(VmOutcome::Trapped(TrapReason::NestingDepthExceeded));
        }
        if !self.stack.insert_beneath(argc, key as u64) {
            return Event::Halt(VmOutcome::Trapped(TrapReason::StackOverflow));
        }
        self.pc += 3;
        let base: usize = size - argc;
        assert(self.stack@ =~= old(self).stack@.take(base as int) + (seq![key as u64]
            + old(self).stack@.skip(base as int)));
        Event::Resolve { base }
    }

    /// Takes one step, charging `fuel` for it.
    pub fn step(&mut self, program: &[u8], args: &[u64], fuel: &mut Fuel) -> (event: Event)
        requires
            old(self).wf(),
        ensures
            final(self).follows(
                *final(fuel),
                event,
                step(Self::invocation(program@, args@), old(self).state(*old(fuel))),
            ),
    {
        if self.pc >= program.len() {
            return Event::Halt(VmOutcome::Trapped(TrapReason::TruncatedInstruction));
        }
        let opcode: u8 = program[self.pc];
        // A cost of zero marks an unallocated opcode. Charging only defined
        // instructions keeps the order fixed: an undefined byte traps before it
        // can exhaust the budget.
        let units: u8 = cost(opcode);
        if units == 0 {
            return Event::Halt(VmOutcome::Trapped(TrapReason::UndefinedOpcode));
        }
        if !fuel.charge(units) {
            return Event::Halt(VmOutcome::OutOfFuel);
        }
        match opcode {
            op::RET => match self.stack.pop() {
                Some(result) => Event::Halt(VmOutcome::Completed(result)),
                None => Event::Halt(VmOutcome::Trapped(TrapReason::StackUnderflow)),
            },
            op::JMP | op::JMPZ | op::JMPNZ => self.branch(opcode, program, args, fuel),
            op::PUSH_U8 | op::PUSH_U16 | op::PUSH_U32 | op::PUSH_U64 => self.push_constant(
                opcode,
                program,
                args,
                fuel,
            ),
            op::POP | op::DUP | op::SWAP | op::NOT => self.rearrange(opcode, program, args, fuel),
            op::LOAD | op::STORE | op::ARG => self.access(opcode, program, args, fuel),
            op::GETPARAM => self.prepare_call(program, args, fuel),
            _ => self.combine(opcode, program, args, fuel),
        }
    }

    /// The operands from position `base` up.
    pub fn operands(&self, base: usize) -> (operands: &[u64])
        requires
            self.wf(),
            base <= self.stacked().len(),
        ensures
            operands@ == self.stacked().skip(base as int),
    {
        self.stack.from(base)
    }

    /// Takes the host's answer to a call over the operands from position `base` up,
    /// `fuel` being what the host left of the budget. An outcome ends execution;
    /// without one it goes on.
    pub fn resume(&mut self, base: usize, fuel: &Fuel, reply: Option<u64>) -> (ended: Option<VmOutcome>)
        requires
            old(self).wf(),
            base < old(self).stacked().len(),
        ensures
            reply matches Some(value) ==> {
                &&& ended is None
                &&& final(self).stacked() == old(self).stacked().take(base as int).push(value)
                &&& final(self).offset() == old(self).offset()
                &&& final(self).slots() == old(self).slots()
            },
            reply is None ==> ended == Some(VmOutcome::Trapped(TrapReason::HostCallUnresolved)),
            ({
                let called = old(self).state(*fuel);
                let waiting = MachineState { stack: called.stack.take(base as int), ..called };
                match resume(waiting, *fuel, reply) {
                    Step::Continue(next) => {
                        &&& ended is None
                        &&& final(self).wf()
                        &&& final(self).state(*fuel) == next
                    },
                    Step::Halt(outcome, left) => ended == Some(outcome) && *fuel == left,
                    Step::Resolve(..) => false,
                }
            }),
    {
        self.stack.truncate(base);
        match reply {
            Some(value) => {
                self.stack.push(value);
                None
            },
            None => Some(VmOutcome::Trapped(TrapReason::HostCallUnresolved)),
        }
    }
}

/// The run from `start` has got to `s` by way of the exchanges of `trace`.
spec fn reached(inv: Invocation, start: MachineState, trace: Seq<Exchange>, s: MachineState) -> bool {
    forall|rest: Seq<Exchange>| run(inv, start, #[trigger] (trace + rest)) == run(inv, s, rest)
}

proof fn lemma_reached_by_call(
    inv: Invocation,
    start: MachineState,
    trace: Seq<Exchange>,
    s: MachineState,
    e: Exchange,
)
    requires
        reached(inv, start, trace, s),
        step(inv, s) matches Step::Resolve(args, waiting) && records(e, args, waiting),
    ensures
        ({
            let waiting = step(inv, s)->Resolve_1;
            match resume(waiting, e.after, e.reply) {
                Step::Continue(next) => reached(inv, start, trace.push(e), next),
                Step::Halt(outcome, fuel) => run(inv, start, trace.push(e)) == Some(
                    (outcome, fuel),
                ),
                Step::Resolve(..) => false,
            }
        }),
{
    let waiting = step(inv, s)->Resolve_1;
    match resume(waiting, e.after, e.reply) {
        Step::Continue(next) => {
            assert forall|rest: Seq<Exchange>|
                run(inv, start, #[trigger] (trace.push(e) + rest)) == run(inv, next, rest) by {
                assert(trace.push(e) + rest =~= trace + (seq![e] + rest));
                assert((seq![e] + rest).drop_first() =~= rest);
            }
        },
        _ => {
            assert(trace.push(e) =~= trace + seq![e]);
        },
    }
}

/// A run that asks the host nothing is the only one.
proof fn lemma_without_the_host(inv: Invocation, start: MachineState, trace: Seq<Exchange>)
    requires
        run(inv, start, trace) is Some,
    ensures
        run(inv, start, Seq::empty()) is Some ==> run(inv, start, Seq::empty()) == run(
            inv,
            start,
            trace,
        ),
{
    if run(inv, start, Seq::empty()) is Some {
        executions_agree(inv, start, Seq::empty(), trace);
    }
}

/// A stack machine over `u64`, sized by its const generics.
///
/// The three bounds are the caller's: they follow from the memory budget of
/// whoever hosts the machine.
///
/// - `STACK_DEPTH`: maximum operand-stack depth.
/// - `LOCAL_SLOTS`: number of local slots, zero-initialised before execution.
/// - `MAX_NESTING`: maximum depth of `GETPARAM` recursion. A cyclic reference
///   between parameters is caught here, and failing that by fuel.
pub struct Vm<const STACK_DEPTH: usize, const LOCAL_SLOTS: usize, const MAX_NESTING: usize>;

impl<const STACK_DEPTH: usize, const LOCAL_SLOTS: usize, const MAX_NESTING: usize> Vm<
    STACK_DEPTH,
    LOCAL_SLOTS,
    MAX_NESTING,
> {
    /// The execution of `program` over `args` on a machine of these bounds.
    pub open spec fn invocation(program: Seq<u8>, args: Seq<u64>) -> Invocation {
        Machine::<STACK_DEPTH, LOCAL_SLOTS, MAX_NESTING>::invocation(program, args)
    }

    /// Runs `program` over `args`, charging `fuel` and resolving host calls
    /// through `host`.
    ///
    /// Execution starts at offset 0 and ends at `RET`. Nothing requires `RET` to
    /// be the final byte and nothing scans ahead for it: a program whose control
    /// flow leaves the byte range simply traps.
    ///
    /// The outcome and the budget left are those of the [`run`] in which the host
    /// gave the answers it gave. A program that asks the host is not accepted at a
    /// depth that its call could not raise without overflowing.
    pub fn execute<H: VmHost + ?Sized>(
        program: &[u8],
        args: &[u64],
        fuel: &mut Fuel,
        host: &H,
    ) -> (outcome: VmOutcome)
        requires
            old(fuel).depth < u16::MAX || MAX_NESTING <= u16::MAX || run(
                Self::invocation(program@, args@),
                Self::invocation(program@, args@).start(*old(fuel)),
                Seq::empty(),
            ) is Some,
        ensures
            exists|trace: Seq<Exchange>|
                {
                    &&& all_given_by(trace, host)
                    &&& #[trigger] run(
                        Self::invocation(program@, args@),
                        Self::invocation(program@, args@).start(*old(fuel)),
                        trace,
                    ) == Some((outcome, *final(fuel)))
                },
            run(
                Self::invocation(program@, args@),
                Self::invocation(program@, args@).start(*old(fuel)),
                Seq::empty(),
            ) matches Some(result) ==> result == (outcome, *final(fuel)),
            final(fuel).remaining <= old(fuel).remaining,
            final(fuel).depth == old(fuel).depth,
    {
        let mut machine: Machine<STACK_DEPTH, LOCAL_SLOTS, MAX_NESTING> = Machine::new();
        let ghost inv = Self::invocation(program@, args@);
        let ghost start = inv.start(*fuel);
        let ghost mut trace: Seq<Exchange> = Seq::empty();
        proof {
            assert(machine.state(*fuel) == start);
            assert forall|rest: Seq<Exchange>| run(inv, start, #[trigger] (trace + rest)) == run(
                inv,
                start,
                rest,
            ) by {
                assert(trace + rest =~= rest);
            }
        }
        loop
            invariant
                old(fuel).depth < u16::MAX || MAX_NESTING <= u16::MAX || (trace.len() == 0 && run(
                    inv,
                    start,
                    Seq::empty(),
                ) is Some),
                inv == Self::invocation(program@, args@),
                start == inv.start(*old(fuel)),
                machine.wf(),
                fuel.depth == old(fuel).depth,
                fuel.remaining <= old(fuel).remaining,
                all_given_by(trace, host),
                reached(inv, start, trace, machine.state(*fuel)),
            decreases fuel.remaining,
        {
            let ghost s = machine.state(*fuel);
            match machine.step(program, args, fuel) {
                Event::Continue => {},
                Event::Halt(outcome) => {
                    proof {
                        assert(trace + Seq::<Exchange>::empty() =~= trace);
                        lemma_without_the_host(inv, start, trace);
                    }
                    return outcome;
                },
                Event::Resolve { base } => {
                    let ghost waiting = step(inv, s)->Resolve_1;
                    let operands = machine.operands(base);
                    proof {
                        // A run that asks the host nothing does not get here.
                        if trace.len() == 0 {
                            assert(trace + Seq::<Exchange>::empty() =~= Seq::empty());
                            assert(run(inv, start, Seq::empty()) is None);
                        }
                    }
                    fuel.depth += 1;
                    let ghost before = *fuel;
                    let reply: Option<u64> = host.call(HOST_RESOLVE_PARAMETER, operands, fuel);
                    let ghost e = Exchange {
                        func_id: HOST_RESOLVE_PARAMETER,
                        args: operands@,
                        before,
                        after: *fuel,
                        reply,
                    };
                    fuel.depth -= 1;
                    proof {
                        assert(operands@ =~= step(inv, s)->Resolve_0);
                        assert((waiting.stack + operands@).take(base as int) =~= waiting.stack);
                        lemma_reached_by_call(inv, start, trace, s, e);
                        trace = trace.push(e);
                        if run(inv, start, trace) is Some {
                            lemma_without_the_host(inv, start, trace);
                        }
                    }
                    match machine.resume(base, fuel, reply) {
                        Some(outcome) => return outcome,
                        None => {},
                    }
                },
            }
        }
    }
}

/// An invocation has the bounds of the machine, and the program and the arguments that
/// were handed over, in full.
pub proof fn an_invocation_is_what_was_asked_for<
    const STACK_DEPTH: usize,
    const LOCAL_SLOTS: usize,
    const MAX_NESTING: usize,
>(program: Seq<u8>, args: Seq<u64>)
    ensures
        ({
            let inv = Vm::<STACK_DEPTH, LOCAL_SLOTS, MAX_NESTING>::invocation(program, args);
            &&& inv.stack_depth == STACK_DEPTH
            &&& inv.local_slots == LOCAL_SLOTS
            &&& inv.max_nesting == MAX_NESTING
            &&& inv.program == program
            &&& inv.args == args
        }),
{
}

} // verus!
