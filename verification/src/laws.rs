//! What holds of every execution.

use vstd::prelude::*;

use crate::encoding::{little_endian, twos_complement_16};
use crate::fuel::Fuel;
use crate::host::{all_given_by, Exchange, VmHost};
use crate::instruction::{cost_of, description};
use crate::opcode as op;
use crate::outcome::{TrapReason, VmOutcome};
use crate::semantics::{
    binary_result, is_binary, records, resume, run, step, Invocation, MachineState, Step,
};

verus! {

/// An arithmetic, bitwise or comparison instruction that is paid for and finds its
/// two operands never fails, whatever the operands are: it replaces them by its
/// result and goes on behind itself.
pub proof fn binary_instructions_are_total(inv: Invocation, s: MachineState)
    requires
        inv.admits(s),
        s.pc < inv.program.len(),
        is_binary(inv.program[s.pc]),
        s.stack.len() >= 2,
        s.fuel.remaining >= cost_of(inv.program[s.pc]),
    ensures
        ({
            let opcode = inv.program[s.pc];
            let n = s.stack.len() as int;
            step(inv, s) == Step::Continue(
                MachineState {
                    pc: s.pc + 1,
                    stack: s.stack.take(n - 2).push(
                        binary_result(opcode, s.stack[n - 2], s.stack[n - 1]),
                    ),
                    locals: s.locals,
                    fuel: s.fuel.spent(cost_of(opcode) as int),
                },
            )
        }),
{
}

/// The complement of the top operand never fails either.
pub proof fn complement_is_total(inv: Invocation, s: MachineState)
    requires
        inv.admits(s),
        s.pc < inv.program.len(),
        inv.program[s.pc] == op::NOT,
        s.stack.len() >= 1,
        s.fuel.remaining >= cost_of(op::NOT),
    ensures
        step(inv, s) == Step::Continue(
            MachineState {
                pc: s.pc + 1,
                stack: s.stack.drop_last().push(!s.stack.last()),
                locals: s.locals,
                fuel: s.fuel.spent(cost_of(op::NOT) as int),
            },
        ),
{
}

/// Division and remainder by zero yield zero, shifts of 64 or more yield zero,
/// subtraction is floored at zero, addition and multiplication stop at the largest
/// value, and a comparison yields one or zero.
pub proof fn totality_rules(a: u64, b: u64)
    ensures
        binary_result(op::DIV, a, 0) == 0,
        binary_result(op::MOD, a, 0) == 0,
        b >= 64 ==> binary_result(op::SHL, a, b) == 0 && binary_result(op::SHR, a, b) == 0,
        a <= b ==> binary_result(op::SUB, a, b) == 0,
        a + b >= u64::MAX ==> binary_result(op::ADD, a, b) == u64::MAX,
        a * b >= u64::MAX ==> binary_result(op::MUL, a, b) == u64::MAX,
        forall|opcode: u8|
            op::EQ <= opcode <= op::GTE ==> #[trigger] binary_result(opcode, a, b) <= 1,
{
}

/// An unallocated byte traps, and is not charged for.
pub proof fn unallocated_opcodes_trap(inv: Invocation, s: MachineState)
    requires
        inv.admits(s),
        s.pc < inv.program.len(),
        description(inv.program[s.pc]) is None,
    ensures
        step(inv, s) == Step::Halt(VmOutcome::Trapped(TrapReason::UndefinedOpcode), s.fuel),
{
}

/// A zero-filled buffer executes nothing, whatever its budget.
pub proof fn a_zero_filled_buffer_traps(inv: Invocation, fuel: Fuel)
    requires
        inv.program.len() > 0,
        inv.program[0] == 0,
    ensures
        run(inv, inv.start(fuel), Seq::empty()) == Some(
            (VmOutcome::Trapped(TrapReason::UndefinedOpcode), fuel),
        ),
{
}

/// The state before the first instruction is admitted, and every local slot in it
/// is zero.
pub proof fn the_initial_state_is_defined(inv: Invocation, fuel: Fuel)
    ensures
        inv.admits(inv.start(fuel)),
        forall|slot: int|
            0 <= slot < inv.local_slots ==> #[trigger] inv.start(fuel).locals[slot] == 0,
{
}

/// Every state that an execution goes through is admitted: the stack stays within
/// its bound, the local slots keep their number, and the offset stays inside the
/// program or directly behind it. Where the host is asked, there is room on the
/// stack for its answer.
pub proof fn states_stay_admitted(inv: Invocation, s: MachineState, after: Fuel, reply: Option<u64>)
    requires
        inv.admits(s),
    ensures
        step(inv, s) matches Step::Continue(next) ==> inv.admits(next),
        step(inv, s) matches Step::Resolve(_, waiting) ==> {
            &&& inv.admits(waiting)
            &&& waiting.stack.len() < inv.stack_depth
            &&& resume(waiting, after, reply) matches Step::Continue(next) ==> inv.admits(next)
        },
{
}

/// Only `STORE` writes a local slot.
pub proof fn only_store_writes_locals(inv: Invocation, s: MachineState)
    requires
        inv.admits(s),
        s.pc < inv.program.len(),
        inv.program[s.pc] != op::STORE,
    ensures
        step(inv, s) matches Step::Continue(next) ==> next.locals == s.locals,
        step(inv, s) matches Step::Resolve(_, waiting) ==> waiting.locals == s.locals,
{
}

/// Leaving the program sequentially is a truncated instruction, whatever is on
/// the stack and in the budget.
pub proof fn falling_off_the_end_is_a_truncation(inv: Invocation, s: MachineState)
    requires
        inv.admits(s),
        s.pc == inv.program.len(),
    ensures
        step(inv, s) == Step::Halt(VmOutcome::Trapped(TrapReason::TruncatedInstruction), s.fuel),
{
}

/// A jump never leaves the program: taken, it goes on inside the byte range or
/// traps; not taken, it goes on behind itself.
pub proof fn jumps_stay_in_range(inv: Invocation, s: MachineState)
    requires
        inv.admits(s),
        s.pc < inv.program.len(),
        op::JMP <= inv.program[s.pc] <= op::JMPNZ,
    ensures
        match step(inv, s) {
            Step::Continue(next) => 0 <= next.pc < inv.program.len() || (next.pc == s.pc + 3
                && inv.program[s.pc] != op::JMP),
            Step::Halt(outcome, _) => !(outcome is Completed),
            Step::Resolve(..) => false,
        },
{
}

/// Every way of leaving the program is one of two traps: an instruction that
/// reaches past the end of the program is truncated, and a complete jump whose
/// destination lies outside is out of range.
pub proof fn ways_of_leaving_the_program(inv: Invocation, s: MachineState)
    requires
        inv.admits(s),
    ensures
        step(inv, s) matches Step::Halt(VmOutcome::Trapped(TrapReason::TruncatedInstruction), _)
            <==> s.pc == inv.program.len() || {
            let opcode = inv.program[s.pc];
            &&& description(opcode) matches Some(info)
            &&& s.pc + 1 + info.imm.width() > inv.program.len()
            &&& s.fuel.remaining >= info.cost
        },
        step(inv, s) matches Step::Halt(VmOutcome::Trapped(TrapReason::ControlFlowOutOfRange), _)
            ==> {
            &&& s.pc + 3 <= inv.program.len()
            &&& op::JMP <= inv.program[s.pc] <= op::JMPNZ
            &&& {
                let target = s.pc + 3 + twos_complement_16(
                    little_endian(inv.program.subrange(s.pc + 1, s.pc + 3)) as int,
                );
                target < 0 || target >= inv.program.len()
            }
        },
{
}

/// Every instruction that is executed costs exactly what the cost table says, and
/// no step changes the nesting depth.
pub proof fn fuel_is_charged_per_instruction(inv: Invocation, s: MachineState)
    requires
        inv.admits(s),
        s.pc < inv.program.len(),
    ensures
        ({
            let paid = s.fuel.spent(cost_of(inv.program[s.pc]) as int);
            match step(inv, s) {
                Step::Continue(next) => next.fuel == paid,
                Step::Resolve(_, waiting) => waiting.fuel == paid,
                Step::Halt(outcome, left) => if outcome == VmOutcome::OutOfFuel {
                    left == s.fuel && left.remaining < cost_of(inv.program[s.pc])
                } else {
                    left == paid
                },
            }
        }),
{
}

/// `GETPARAM` hands the host the parameter identifier and exactly as many operands
/// as it declares, deepest first; what lies beneath them stays where it is. It
/// does so below the nesting limit only.
pub proof fn host_calls_take_the_declared_operands(inv: Invocation, s: MachineState)
    requires
        inv.admits(s),
    ensures
        step(inv, s) matches Step::Resolve(args, waiting) ==> {
            &&& inv.program[s.pc] == op::GETPARAM
            &&& args[0] == inv.program[s.pc + 1]
            &&& args.len() == 1 + inv.program[s.pc + 2]
            &&& waiting.stack + args.skip(1) == s.stack
            &&& waiting.pc == s.pc + 3
            &&& s.fuel.depth < inv.max_nesting
        },
{
    if let Step::Resolve(args, waiting) = step(inv, s) {
        assert(waiting.stack + args.skip(1) =~= s.stack);
    }
}

/// A run spends fuel and never gains any, makes no more host calls than it spends
/// units, and ends at the nesting depth at which it began.
pub proof fn runs_only_spend(inv: Invocation, s: MachineState, trace: Seq<Exchange>)
    ensures
        run(inv, s, trace) matches Some((_, left)) ==> {
            &&& left.remaining + trace.len() <= s.fuel.remaining
            &&& left.depth == s.fuel.depth
        },
    decreases s.fuel.remaining,
{
    match step(inv, s) {
        Step::Halt(..) => {},
        Step::Continue(next) => runs_only_spend(inv, next, trace),
        Step::Resolve(args, waiting) => if trace.len() > 0 && records(trace[0], args, waiting) {
            if let Step::Continue(next) = resume(waiting, trace[0].after, trace[0].reply) {
                runs_only_spend(inv, next, trace.drop_first());
            }
        },
    }
}

/// A run that exhausts its budget leaves nothing of it.
pub proof fn exhaustion_leaves_nothing(inv: Invocation, s: MachineState, trace: Seq<Exchange>)
    ensures
        run(inv, s, trace) matches Some((VmOutcome::OutOfFuel, left)) ==> left.remaining == 0,
    decreases s.fuel.remaining,
{
    match step(inv, s) {
        Step::Halt(..) => {},
        Step::Continue(next) => exhaustion_leaves_nothing(inv, next, trace),
        Step::Resolve(args, waiting) => if trace.len() > 0 && records(trace[0], args, waiting) {
            if let Step::Continue(next) = resume(waiting, trace[0].after, trace[0].reply) {
                exhaustion_leaves_nothing(inv, next, trace.drop_first());
            }
        },
    }
}

/// The budget is one for the whole invocation: a host call that leaves nothing of
/// it is the last, and the run does not complete, whatever the host answered.
pub proof fn an_exhausted_call_ends_the_run(
    inv: Invocation,
    s: MachineState,
    trace: Seq<Exchange>,
    i: int,
)
    requires
        0 <= i < trace.len(),
        trace[i].after.remaining == 0,
    ensures
        run(inv, s, trace) matches Some((outcome, left)) ==> {
            &&& i == trace.len() - 1
            &&& !(outcome is Completed)
            &&& left.remaining == 0
        },
    decreases s.fuel.remaining,
{
    match step(inv, s) {
        Step::Halt(..) => {},
        Step::Continue(next) => an_exhausted_call_ends_the_run(inv, next, trace, i),
        Step::Resolve(args, waiting) => if trace.len() > 0 && records(trace[0], args, waiting) {
            if let Step::Continue(next) = resume(waiting, trace[0].after, trace[0].reply) {
                if i > 0 {
                    an_exhausted_call_ends_the_run(inv, next, trace.drop_first(), i - 1);
                }
            }
        },
    }
}

/// Wherever the two records hold the same question, asked with the same budget,
/// they hold the same answer.
pub open spec fn answered_alike(one: Seq<Exchange>, other: Seq<Exchange>) -> bool {
    forall|i: int, j: int|
        {
            &&& 0 <= i < one.len()
            &&& 0 <= j < other.len()
            &&& (#[trigger] one[i]).func_id == (#[trigger] other[j]).func_id
            &&& one[i].args == other[j].args
            &&& one[i].before == other[j].before
        } ==> one[i].after == other[j].after && one[i].reply == other[j].reply
}

/// Two executions of the same program over the same arguments with the same
/// budget, whose hosts answer alike, make the same host calls and come to the same
/// outcome with the same budget left. In particular a program that asks the host
/// nothing has one outcome, whatever the host.
pub proof fn executions_agree(
    inv: Invocation,
    s: MachineState,
    one: Seq<Exchange>,
    other: Seq<Exchange>,
)
    requires
        answered_alike(one, other),
        run(inv, s, one) is Some,
        run(inv, s, other) is Some,
    ensures
        one == other,
        run(inv, s, one) == run(inv, s, other),
    decreases s.fuel.remaining,
{
    match step(inv, s) {
        Step::Halt(..) => {
            assert(one =~= other);
        },
        Step::Continue(next) => executions_agree(inv, next, one, other),
        Step::Resolve(args, waiting) => {
            assert(one[0].func_id == other[0].func_id);
            assert(one[0] == other[0]);
            match resume(waiting, one[0].after, one[0].reply) {
                Step::Continue(next) => {
                    assert(answered_alike(one.drop_first(), other.drop_first())) by {
                        assert(forall|i: int|
                            0 <= i < one.len() - 1 ==> one.drop_first()[i] == one[i + 1]);
                        assert(forall|i: int|
                            0 <= i < other.len() - 1 ==> other.drop_first()[i] == other[i + 1]);
                    }
                    executions_agree(inv, next, one.drop_first(), other.drop_first());
                    assert(one =~= seq![one[0]] + one.drop_first());
                    assert(other =~= seq![other[0]] + other.drop_first());
                },
                _ => {
                    assert(one =~= other);
                },
            }
        },
    }
}

/// `host` has one answer to each question, given the budget.
pub open spec fn decides<H: VmHost + ?Sized>(host: &H) -> bool {
    forall|one: Exchange, other: Exchange|
        {
            &&& #[trigger] one.given_by(host)
            &&& #[trigger] other.given_by(host)
            &&& one.func_id == other.func_id
            &&& one.args == other.args
            &&& one.before == other.before
        } ==> one == other
}

/// Over a host that decides, the same program over the same arguments with the
/// same budget has one outcome.
pub proof fn a_deciding_host_fixes_the_outcome<H: VmHost + ?Sized>(
    inv: Invocation,
    s: MachineState,
    host: &H,
    one: Seq<Exchange>,
    other: Seq<Exchange>,
)
    requires
        decides(host),
        all_given_by(one, host),
        all_given_by(other, host),
        run(inv, s, one) is Some,
        run(inv, s, other) is Some,
    ensures
        run(inv, s, one) == run(inv, s, other),
{
    executions_agree(inv, s, one, other);
}

/// A budget with `by` more units in it, or fewer where `by` is negative.
pub open spec fn shifted(fuel: Fuel, by: int) -> Fuel {
    Fuel { remaining: (fuel.remaining + by) as u32, ..fuel }
}

/// The same exchanges under a budget with `by` more units in it.
pub open spec fn shifted_trace(trace: Seq<Exchange>, by: int) -> Seq<Exchange> {
    trace.map_values(
        |e: Exchange| Exchange { before: shifted(e.before, by), after: shifted(e.after, by), ..e },
    )
}

/// No program can observe its budget: with more fuel, or with less that still
/// suffices, it makes the same host calls and comes to the same outcome, and the
/// difference is in what is left over.
pub proof fn fuel_is_unobservable(
    inv: Invocation,
    s: MachineState,
    trace: Seq<Exchange>,
    by: int,
)
    requires
        s.fuel.remaining + by <= u32::MAX,
        run(inv, s, trace) matches Some((outcome, left)) && outcome != VmOutcome::OutOfFuel
            && left.remaining + by >= 0,
    ensures
        ({
            let (outcome, left) = run(inv, s, trace)->0;
            run(
                inv,
                MachineState { fuel: shifted(s.fuel, by), ..s },
                shifted_trace(trace, by),
            ) == Some((outcome, shifted(left, by)))
        }),
    decreases s.fuel.remaining,
{
    let other = MachineState { fuel: shifted(s.fuel, by), ..s };
    runs_only_spend(inv, s, trace);
    match step(inv, s) {
        Step::Halt(..) => {},
        Step::Continue(next) => {
            runs_only_spend(inv, next, trace);
            fuel_is_unobservable(inv, next, trace, by);
            assert(step(inv, other) == Step::Continue(
                MachineState { fuel: shifted(next.fuel, by), ..next },
            ));
        },
        Step::Resolve(args, waiting) => {
            let e = trace[0];
            let moved = shifted_trace(trace, by);
            let (_, left) = run(inv, s, trace)->0;
            if let Step::Continue(next) = resume(waiting, e.after, e.reply) {
                runs_only_spend(inv, next, trace.drop_first());
            }
            assert(left.remaining <= e.after.remaining <= waiting.fuel.remaining);
            assert(step(inv, other) == Step::Resolve(
                args,
                MachineState { fuel: shifted(waiting.fuel, by), ..waiting },
            ));
            if let Step::Continue(next) = resume(waiting, e.after, e.reply) {
                fuel_is_unobservable(inv, next, trace.drop_first(), by);
                assert(moved.drop_first() =~= shifted_trace(trace.drop_first(), by));
            }
        },
    }
}

/// A program that needs more fuel than it is given exhausts what it is given: with
/// any `less` that a run which asks the host nothing did not leave over, it runs
/// out.
pub proof fn too_little_fuel_is_exhausted(inv: Invocation, s: MachineState, less: nat)
    requires
        less <= s.fuel.remaining,
        run(inv, s, Seq::empty()) matches Some((outcome, left)) && outcome != VmOutcome::OutOfFuel
            && left.remaining < less,
    ensures
        run(inv, MachineState { fuel: s.fuel.spent(less as int), ..s }, Seq::empty()) == Some(
            (VmOutcome::OutOfFuel, Fuel { remaining: 0, depth: s.fuel.depth }),
        ),
    decreases s.fuel.remaining,
{
    let poorer = MachineState { fuel: s.fuel.spent(less as int), ..s };
    if poorer.fuel.remaining > 0 {
        if let Step::Continue(next) = step(inv, s) {
            too_little_fuel_is_exhausted(inv, next, less);
            assert(step(inv, poorer) == Step::Continue(
                MachineState { fuel: next.fuel.spent(less as int), ..next },
            ));
        }
    }
}

/// A program that asks the host nothing needs a fixed amount of fuel, if it comes to
/// an outcome at all: with that much or more, `units` in all, the outcome is the same
/// and the rest is left over; with less it runs out and leaves nothing.
pub proof fn an_outcome_needs_a_fixed_amount_of_fuel(inv: Invocation, s: MachineState, units: u32)
    requires
        run(inv, s, Seq::empty()) matches Some((outcome, _)) && outcome != VmOutcome::OutOfFuel,
    ensures
        ({
            let (outcome, left) = run(inv, s, Seq::empty())->0;
            let needed = s.fuel.remaining - left.remaining;
            let other = MachineState { fuel: Fuel { remaining: units, ..s.fuel }, ..s };
            run(inv, other, Seq::empty()) == if units >= needed {
                Some((outcome, Fuel { remaining: (units - needed) as u32, ..s.fuel }))
            } else {
                Some((VmOutcome::OutOfFuel, Fuel { remaining: 0, ..s.fuel }))
            }
        }),
{
    let (outcome, left) = run(inv, s, Seq::empty())->0;
    let by = units - s.fuel.remaining;
    runs_only_spend(inv, s, Seq::empty());
    if left.remaining + by >= 0 {
        fuel_is_unobservable(inv, s, Seq::empty(), by);
        assert(shifted_trace(Seq::empty(), by) =~= Seq::empty());
    } else {
        too_little_fuel_is_exhausted(inv, s, (-by) as nat);
    }
}

} // verus!
