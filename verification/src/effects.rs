//! What each instruction does, byte by byte.
//!
//! The laws here speak of the bytes of a program, the operands on the stack and the
//! integers they are, and of nothing in between.

use vstd::prelude::*;

use crate::encoding::{lemma_byte_limits, lemma_little_endian_bound, little_endian};
use crate::fuel::Fuel;
use crate::host::Exchange;
use crate::outcome::{TrapReason, VmOutcome};
use crate::semantics::{binary_result, resume, run, step, Invocation, MachineState, Step};

verus! {

// ---------------------------------------------------------------------------
// Where an instruction stands
// ---------------------------------------------------------------------------

/// The byte `opcode` is next, the `width` bytes behind it are there, and there is fuel
/// for it.
pub open spec fn is_next(inv: Invocation, s: MachineState, opcode: u8, width: int) -> bool {
    &&& 0 <= s.pc
    &&& s.pc + 1 + width <= inv.program.len()
    &&& inv.program[s.pc] == opcode
    &&& s.fuel.remaining >= 1
}

/// The budget with one unit less in it.
pub open spec fn one_unit_less(fuel: Fuel) -> Fuel {
    Fuel { remaining: (fuel.remaining - 1) as u32, depth: fuel.depth }
}

/// The next step costs one unit and goes on at `pc` with the operands `stack`. The
/// local slots stay as they are.
pub open spec fn goes_on(inv: Invocation, s: MachineState, pc: int, stack: Seq<u64>) -> bool {
    step(inv, s) == Step::Continue(
        MachineState { pc, stack, locals: s.locals, fuel: one_unit_less(s.fuel) },
    )
}

/// The next step costs one unit and traps.
pub open spec fn traps(inv: Invocation, s: MachineState, reason: TrapReason) -> bool {
    step(inv, s) == Step::Halt(VmOutcome::Trapped(reason), one_unit_less(s.fuel))
}

/// The next step puts `value` on top of the stack and goes on at `pc`, or traps where
/// the stack is full.
pub open spec fn pushes(inv: Invocation, s: MachineState, pc: int, value: int) -> bool {
    if s.stack.len() < inv.stack_depth {
        &&& 0 <= value <= u64::MAX
        &&& goes_on(inv, s, pc, s.stack.push(value as u64))
    } else {
        traps(inv, s, TrapReason::StackOverflow)
    }
}

/// The byte `n` behind the next opcode.
pub open spec fn byte_behind(inv: Invocation, s: MachineState, n: int) -> int {
    inv.program[s.pc + n] as int
}

/// The numbers that one, two, four and eight bytes spell.
pub proof fn lemma_unfold(bytes: Seq<u8>)
    requires
        bytes.len() <= 8,
    ensures
        little_endian(bytes) <= u64::MAX,
        bytes.len() == 1 ==> little_endian(bytes) == bytes[0],
        bytes.len() == 2 ==> little_endian(bytes) == bytes[0] + 0x100 * bytes[1],
        bytes.len() == 4 ==> little_endian(bytes) == bytes[0] + 0x100 * bytes[1] + 0x1_0000
            * bytes[2] + 0x100_0000 * bytes[3],
        bytes.len() == 8 ==> little_endian(bytes) == bytes[0] + 0x100 * bytes[1] + 0x1_0000
            * bytes[2] + 0x100_0000 * bytes[3] + 0x1_0000_0000 * bytes[4] + 0x100_0000_0000
            * bytes[5] + 0x1_0000_0000_0000 * bytes[6] + 0x100_0000_0000_0000 * bytes[7],
{
    reveal_with_fuel(little_endian, 9);
    lemma_little_endian_bound(bytes);
    lemma_byte_limits();
    crate::encoding::lemma_byte_limit_grows(bytes.len(), 8);
}

// ---------------------------------------------------------------------------
// Bytes, fuel and immediates
// ---------------------------------------------------------------------------

/// How many immediate bytes stand behind an opcode: none for bytes that are no opcode.
pub open spec fn immediate_bytes(opcode: u8) -> int {
    if 0x02 <= opcode <= 0x04 || opcode == 0x11 || opcode == 0x70 {
        2
    } else if opcode == 0x10 || 0x30 <= opcode <= 0x32 {
        1
    } else if opcode == 0x12 {
        4
    } else if opcode == 0x13 {
        8
    } else {
        0
    }
}

/// The bytes that are instructions.
pub open spec fn is_instruction(opcode: u8) -> bool {
    ||| 0x01 <= opcode <= 0x04
    ||| 0x10 <= opcode <= 0x13
    ||| 0x20 <= opcode <= 0x22
    ||| 0x30 <= opcode <= 0x32
    ||| 0x40 <= opcode <= 0x46
    ||| 0x50 <= opcode <= 0x55
    ||| 0x60 <= opcode <= 0x65
    ||| opcode == 0x70
}

/// Behind the last byte a program is truncated, a byte that is no instruction traps,
/// an instruction without fuel for it runs out, and one that reaches past the end is
/// truncated. The first three cost nothing.
pub proof fn what_stops_before_it_starts(inv: Invocation, s: MachineState)
    requires
        0 <= s.pc,
    ensures
        s.pc >= inv.program.len() ==> step(inv, s) == Step::Halt(
            VmOutcome::Trapped(TrapReason::TruncatedInstruction),
            s.fuel,
        ),
        s.pc < inv.program.len() && !is_instruction(inv.program[s.pc]) ==> step(inv, s)
            == Step::Halt(VmOutcome::Trapped(TrapReason::UndefinedOpcode), s.fuel),
        s.pc < inv.program.len() && is_instruction(inv.program[s.pc]) && s.fuel.remaining == 0
            ==> step(inv, s) == Step::Halt(VmOutcome::OutOfFuel, s.fuel),
        s.pc < inv.program.len() && is_instruction(inv.program[s.pc]) && s.fuel.remaining >= 1
            && s.pc + 1 + immediate_bytes(inv.program[s.pc]) > inv.program.len() ==> traps(
            inv,
            s,
            TrapReason::TruncatedInstruction,
        ),
{
}

/// No step but for these four ends in a truncation, an undefined opcode or an empty
/// budget.
pub proof fn what_has_started_is_no_truncation(inv: Invocation, s: MachineState, opcode: u8)
    requires
        is_instruction(opcode),
        is_next(inv, s, opcode, immediate_bytes(opcode)),
    ensures
        match step(inv, s) {
            Step::Halt(VmOutcome::Trapped(reason), left) => {
                &&& reason != TrapReason::TruncatedInstruction
                &&& reason != TrapReason::UndefinedOpcode
                &&& left == one_unit_less(s.fuel)
            },
            Step::Halt(VmOutcome::OutOfFuel, _) => false,
            Step::Halt(VmOutcome::Completed(_), left) => opcode == 0x01 && left == one_unit_less(
                s.fuel,
            ),
            Step::Continue(next) => next.fuel == one_unit_less(s.fuel),
            Step::Resolve(_, waiting) => opcode == 0x70 && waiting.fuel == one_unit_less(s.fuel),
        },
{
}

// ---------------------------------------------------------------------------
// Control flow
// ---------------------------------------------------------------------------

/// `RET` ends execution with the top operand as its result, whatever lies beneath it.
pub proof fn ret_returns_the_top(inv: Invocation, s: MachineState)
    requires
        is_next(inv, s, 0x01, 0),
    ensures
        s.stack.len() == 0 ==> traps(inv, s, TrapReason::StackUnderflow),
        s.stack.len() > 0 ==> step(inv, s) == Step::Halt(
            VmOutcome::Completed(s.stack[s.stack.len() - 1]),
            one_unit_less(s.fuel),
        ),
{
}

/// Where a jump leads: its two immediate bytes, least significant first, are a
/// displacement from the byte behind the jump, and a set top bit makes it negative.
pub open spec fn jump_target(inv: Invocation, s: MachineState) -> int {
    let low = byte_behind(inv, s, 1);
    let high = byte_behind(inv, s, 2);
    s.pc + 3 + low + 0x100 * high - (if high >= 0x80 {
        0x1_0000int
    } else {
        0
    })
}

/// The next step goes where the jump leads, with the operands `stack`, or traps where
/// that is outside the program.
pub open spec fn jumps(inv: Invocation, s: MachineState, stack: Seq<u64>) -> bool {
    if 0 <= jump_target(inv, s) < inv.program.len() {
        goes_on(inv, s, jump_target(inv, s), stack)
    } else {
        traps(inv, s, TrapReason::ControlFlowOutOfRange)
    }
}

/// `JMP` always jumps and leaves the stack as it is.
pub proof fn jmp_always_jumps(inv: Invocation, s: MachineState)
    requires
        is_next(inv, s, 0x02, 2),
    ensures
        jumps(inv, s, s.stack),
{
    lemma_unfold(inv.program.subrange(s.pc + 1, s.pc + 3));
}

/// `JMPZ` takes the top operand off the stack and jumps exactly if it is zero;
/// `JMPNZ` exactly if it is not. The one that does not jump goes on behind itself.
pub proof fn conditional_jumps_look_at_zero(inv: Invocation, s: MachineState, zero: bool)
    requires
        is_next(
            inv,
            s,
            if zero {
                0x03
            } else {
                0x04
            },
            2,
        ),
    ensures
        s.stack.len() == 0 ==> traps(inv, s, TrapReason::StackUnderflow),
        s.stack.len() > 0 && (s.stack.last() == 0) == zero ==> jumps(inv, s, s.stack.drop_last()),
        s.stack.len() > 0 && (s.stack.last() == 0) != zero ==> goes_on(
            inv,
            s,
            s.pc + 3,
            s.stack.drop_last(),
        ),
{
    lemma_unfold(inv.program.subrange(s.pc + 1, s.pc + 3));
}

// ---------------------------------------------------------------------------
// Constants, the stack, slots and arguments
// ---------------------------------------------------------------------------

/// The four `PUSH` instructions push the number that their one, two, four or eight
/// immediate bytes spell, least significant first.
pub proof fn constants_are_little_endian(inv: Invocation, s: MachineState)
    ensures
        is_next(inv, s, 0x10, 1) ==> pushes(inv, s, s.pc + 2, byte_behind(inv, s, 1)),
        is_next(inv, s, 0x11, 2) ==> pushes(
            inv,
            s,
            s.pc + 3,
            byte_behind(inv, s, 1) + 0x100 * byte_behind(inv, s, 2),
        ),
        is_next(inv, s, 0x12, 4) ==> pushes(
            inv,
            s,
            s.pc + 5,
            byte_behind(inv, s, 1) + 0x100 * byte_behind(inv, s, 2) + 0x1_0000 * byte_behind(
                inv,
                s,
                3,
            ) + 0x100_0000 * byte_behind(inv, s, 4),
        ),
        is_next(inv, s, 0x13, 8) ==> pushes(
            inv,
            s,
            s.pc + 9,
            byte_behind(inv, s, 1) + 0x100 * byte_behind(inv, s, 2) + 0x1_0000 * byte_behind(
                inv,
                s,
                3,
            ) + 0x100_0000 * byte_behind(inv, s, 4) + 0x1_0000_0000 * byte_behind(inv, s, 5)
                + 0x100_0000_0000 * byte_behind(inv, s, 6) + 0x1_0000_0000_0000 * byte_behind(
                inv,
                s,
                7,
            ) + 0x100_0000_0000_0000 * byte_behind(inv, s, 8),
        ),
{
    if is_next(inv, s, 0x10, 1) {
        lemma_unfold(inv.program.subrange(s.pc + 1, s.pc + 2));
    } else if is_next(inv, s, 0x11, 2) {
        lemma_unfold(inv.program.subrange(s.pc + 1, s.pc + 3));
    } else if is_next(inv, s, 0x12, 4) {
        lemma_unfold(inv.program.subrange(s.pc + 1, s.pc + 5));
    } else if is_next(inv, s, 0x13, 8) {
        lemma_unfold(inv.program.subrange(s.pc + 1, s.pc + 9));
    }
}

/// `POP` drops the top operand and no other.
pub proof fn pop_drops_the_top(inv: Invocation, s: MachineState)
    requires
        is_next(inv, s, 0x20, 0),
    ensures
        s.stack.len() == 0 ==> traps(inv, s, TrapReason::StackUnderflow),
        s.stack.len() > 0 ==> goes_on(inv, s, s.pc + 1, s.stack.drop_last()),
{
}

/// `DUP` pushes the top operand once more.
pub proof fn dup_repeats_the_top(inv: Invocation, s: MachineState)
    requires
        is_next(inv, s, 0x21, 0),
    ensures
        s.stack.len() == 0 ==> traps(inv, s, TrapReason::StackUnderflow),
        s.stack.len() > 0 ==> pushes(inv, s, s.pc + 1, s.stack.last() as int),
{
}

/// `SWAP` exchanges the two topmost operands and leaves those beneath where they are.
pub proof fn swap_exchanges_the_top_two(inv: Invocation, s: MachineState)
    requires
        is_next(inv, s, 0x22, 0),
    ensures
        s.stack.len() < 2 ==> traps(inv, s, TrapReason::StackUnderflow),
        s.stack.len() >= 2 ==> {
            let n = s.stack.len() as int;
            goes_on(
                inv,
                s,
                s.pc + 1,
                s.stack.update(n - 2, s.stack[n - 1]).update(n - 1, s.stack[n - 2]),
            )
        },
{
    if s.stack.len() >= 2 {
        let n = s.stack.len() as int;
        assert(s.stack.take(n - 2).push(s.stack[n - 1]).push(s.stack[n - 2]) =~= s.stack.update(
            n - 2,
            s.stack[n - 1],
        ).update(n - 1, s.stack[n - 2]));
    }
}

/// `LOAD i` pushes what is in slot `i`.
pub proof fn load_reads_its_slot(inv: Invocation, s: MachineState)
    requires
        is_next(inv, s, 0x30, 1),
    ensures
        ({
            let slot = byte_behind(inv, s, 1);
            if slot < inv.local_slots {
                pushes(inv, s, s.pc + 2, s.locals[slot] as int)
            } else {
                traps(inv, s, TrapReason::OperandIndexOutOfRange)
            }
        }),
{
    lemma_unfold(inv.program.subrange(s.pc + 1, s.pc + 2));
}

/// `STORE i` takes the top operand off the stack, writes it to slot `i`, and leaves
/// every other slot as it was.
pub proof fn store_writes_its_slot_only(inv: Invocation, s: MachineState)
    requires
        is_next(inv, s, 0x31, 1),
        s.locals.len() == inv.local_slots,
    ensures
        ({
            let slot = byte_behind(inv, s, 1);
            if slot >= inv.local_slots {
                traps(inv, s, TrapReason::OperandIndexOutOfRange)
            } else if s.stack.len() == 0 {
                traps(inv, s, TrapReason::StackUnderflow)
            } else {
                &&& step(inv, s) matches Step::Continue(next)
                &&& next.pc == s.pc + 2
                &&& next.stack == s.stack.drop_last()
                &&& next.fuel == one_unit_less(s.fuel)
                &&& next.locals.len() == s.locals.len()
                &&& next.locals[slot] == s.stack.last()
                &&& forall|other: int|
                    0 <= other < s.locals.len() && other != slot ==> #[trigger] next.locals[other]
                        == s.locals[other]
            }
        }),
{
    lemma_unfold(inv.program.subrange(s.pc + 1, s.pc + 2));
}

/// `ARG i` pushes argument `i`.
pub proof fn arg_reads_its_argument(inv: Invocation, s: MachineState)
    requires
        is_next(inv, s, 0x32, 1),
    ensures
        ({
            let index = byte_behind(inv, s, 1);
            if index < inv.args.len() {
                pushes(inv, s, s.pc + 2, inv.args[index] as int)
            } else {
                traps(inv, s, TrapReason::OperandIndexOutOfRange)
            }
        }),
{
    lemma_unfold(inv.program.subrange(s.pc + 1, s.pc + 2));
}

/// Execution gets from `before` to `after` in one step, or by a host call that left
/// `left` and was answered `reply`.
pub open spec fn follows_directly(
    inv: Invocation,
    before: MachineState,
    after: MachineState,
    left: Fuel,
    reply: Option<u64>,
) -> bool {
    match step(inv, before) {
        Step::Continue(next) => next == after,
        Step::Resolve(_, waiting) => resume(waiting, left, reply) == Step::Continue(after),
        Step::Halt(..) => false,
    }
}

/// The next instruction stores into `slot`.
pub open spec fn stores_into(inv: Invocation, s: MachineState, slot: int) -> bool {
    &&& 0 <= s.pc < inv.program.len() - 1
    &&& inv.program[s.pc] == 0x31
    &&& inv.program[s.pc + 1] == slot
}

/// A slot keeps its value over everything that does not store into it: along any
/// stretch `path` of an execution, with whatever host calls, none of whose instructions
/// stores into `slot`, the slot holds at the end what it held at the beginning.
pub proof fn slots_keep_what_they_hold(
    inv: Invocation,
    path: Seq<MachineState>,
    left: Seq<Fuel>,
    replies: Seq<Option<u64>>,
    slot: int,
)
    requires
        path.len() > 0,
        left.len() == path.len() - 1,
        replies.len() == path.len() - 1,
        0 <= slot < inv.local_slots,
        forall|i: int| 0 <= i < path.len() ==> (#[trigger] path[i]).locals.len() == inv.local_slots,
        forall|i: int| 0 <= i < path.len() ==> 0 <= (#[trigger] path[i]).pc,
        forall|i: int, j: int|
            0 <= i && j == i + 1 && j < path.len() ==> follows_directly(
                inv,
                #[trigger] path[i],
                #[trigger] path[j],
                left[i],
                replies[i],
            ),
        forall|i: int| 0 <= i < path.len() - 1 ==> !stores_into(inv, #[trigger] path[i], slot),
    ensures
        path.last().locals[slot] == path[0].locals[slot],
    decreases path.len(),
{
    if path.len() > 1 {
        let n = path.len() as int;
        let shorter = path.drop_last();
        assert forall|i: int| 0 <= i < shorter.len() implies (#[trigger] shorter[i]).locals.len()
            == inv.local_slots && 0 <= shorter[i].pc by {
            assert(shorter[i] == path[i]);
        }
        assert forall|i: int, j: int| 0 <= i && j == i + 1 && j < shorter.len() implies follows_directly(
            inv,
            #[trigger] shorter[i],
            #[trigger] shorter[j],
            left.drop_last()[i],
            replies.drop_last()[i],
        ) by {
            assert(shorter[i] == path[i] && shorter[j] == path[j]);
        }
        assert forall|i: int| 0 <= i < shorter.len() - 1 implies !stores_into(
            inv,
            #[trigger] shorter[i],
            slot,
        ) by {
            assert(shorter[i] == path[i]);
        }
        slots_keep_what_they_hold(inv, shorter, left.drop_last(), replies.drop_last(), slot);
        let s = path[n - 2];
        assert(shorter.last() == s && shorter[0] == path[0]);
        assert(follows_directly(inv, path[n - 2], path[n - 1], left[n - 2], replies[n - 2]));
        assert(!stores_into(inv, path[n - 2], slot));
        if s.pc < inv.program.len() && inv.program[s.pc] == 0x31 && s.fuel.remaining >= 1 && s.pc
            + 2 <= inv.program.len() {
            store_writes_its_slot_only(inv, s);
        }
    }
}

/// A slot gives back what was stored in it last: where a stretch of an execution begins
/// with a `STORE` into `slot`, stores into that slot nowhere else, and comes to a `LOAD`
/// of it, what was stored is pushed, whatever went into other slots in between.
pub proof fn load_gives_back_what_was_stored(
    inv: Invocation,
    path: Seq<MachineState>,
    left: Seq<Fuel>,
    replies: Seq<Option<u64>>,
    slot: int,
)
    requires
        path.len() > 1,
        left.len() == path.len() - 1,
        replies.len() == path.len() - 1,
        0 <= slot < inv.local_slots,
        forall|i: int| 0 <= i < path.len() ==> (#[trigger] path[i]).locals.len() == inv.local_slots,
        forall|i: int| 0 <= i < path.len() ==> 0 <= (#[trigger] path[i]).pc,
        forall|i: int, j: int|
            0 <= i && j == i + 1 && j < path.len() ==> follows_directly(
                inv,
                #[trigger] path[i],
                #[trigger] path[j],
                left[i],
                replies[i],
            ),
        forall|i: int| 1 <= i < path.len() - 1 ==> !stores_into(inv, #[trigger] path[i], slot),
        is_next(inv, path[0], 0x31, 1),
        byte_behind(inv, path[0], 1) == slot,
        is_next(inv, path.last(), 0x30, 1),
        byte_behind(inv, path.last(), 1) == slot,
    ensures
        path[0].stack.len() > 0,
        pushes(inv, path.last(), path.last().pc + 2, path[0].stack.last() as int),
{
    let behind = path.drop_first();
    assert(follows_directly(inv, path[0], path[1], left[0], replies[0]));
    store_writes_its_slot_only(inv, path[0]);
    assert(behind[0] == path[1]);
    assert forall|i: int| 0 <= i < behind.len() implies (#[trigger] behind[i]).locals.len()
        == inv.local_slots && 0 <= behind[i].pc by {
        assert(behind[i] == path[i + 1]);
    }
    assert forall|i: int, j: int| 0 <= i && j == i + 1 && j < behind.len() implies follows_directly(
        inv,
        #[trigger] behind[i],
        #[trigger] behind[j],
        left.drop_first()[i],
        replies.drop_first()[i],
    ) by {
        assert(behind[i] == path[i + 1] && behind[j] == path[j + 1]);
    }
    assert forall|i: int| 0 <= i < behind.len() - 1 implies !stores_into(
        inv,
        #[trigger] behind[i],
        slot,
    ) by {
        assert(behind[i] == path[i + 1]);
    }
    slots_keep_what_they_hold(inv, behind, left.drop_first(), replies.drop_first(), slot);
    load_reads_its_slot(inv, path.last());
}

// ---------------------------------------------------------------------------
// Arithmetic
// ---------------------------------------------------------------------------

/// The instructions with two operands take them off the stack, the second pushed on
/// top, and push what they compute of them.
pub proof fn two_operands_make_one(inv: Invocation, s: MachineState, opcode: u8)
    requires
        0x40 <= opcode <= 0x46 || 0x50 <= opcode <= 0x52 || 0x54 <= opcode <= 0x55 || 0x60 <= opcode
            <= 0x65,
        is_next(inv, s, opcode, 0),
    ensures
        s.stack.len() < 2 ==> traps(inv, s, TrapReason::StackUnderflow),
        s.stack.len() >= 2 ==> {
            let n = s.stack.len() as int;
            goes_on(
                inv,
                s,
                s.pc + 1,
                s.stack.take(n - 2).push(
                    binary_result(opcode, s.stack[n - 2], s.stack[n - 1]),
                ),
            )
        },
{
}

/// Addition, subtraction and multiplication are those of the integers, cut off at zero
/// and at the largest value.
pub proof fn sums_differences_and_products(a: u64, b: u64)
    ensures
        a + b <= u64::MAX ==> binary_result(0x40, a, b) == a + b,
        a + b > u64::MAX ==> binary_result(0x40, a, b) == u64::MAX,
        a >= b ==> binary_result(0x41, a, b) + b == a,
        a < b ==> binary_result(0x41, a, b) == 0,
        a * b <= u64::MAX ==> binary_result(0x42, a, b) == a * b,
        a * b > u64::MAX ==> binary_result(0x42, a, b) == u64::MAX,
{
}

/// Quotient and remainder belong together: the quotient times the divisor and the
/// remainder, which is less than the divisor, make the dividend. By zero both are zero.
pub proof fn quotients_and_remainders(a: u64, b: u64)
    ensures
        b != 0 ==> binary_result(0x43, a, b) * b + binary_result(0x44, a, b) == a,
        b != 0 ==> binary_result(0x44, a, b) < b,
        b == 0 ==> binary_result(0x43, a, b) == 0 && binary_result(0x44, a, b) == 0,
{
    if b != 0 {
        vstd::arithmetic::div_mod::lemma_fundamental_div_mod(a as int, b as int);
        vstd::arithmetic::mul::lemma_mul_is_commutative(b as int, a as int / b as int);
        vstd::arithmetic::div_mod::lemma_mod_bound(a as int, b as int);
    }
}

/// The smaller and the larger of two operands are the two operands, in order.
pub proof fn minimum_and_maximum(a: u64, b: u64)
    ensures
        binary_result(0x45, a, b) <= a,
        binary_result(0x45, a, b) <= b,
        binary_result(0x46, a, b) >= a,
        binary_result(0x46, a, b) >= b,
        binary_result(0x45, a, b) + binary_result(0x46, a, b) == a + b,
        binary_result(0x45, a, b) == a || binary_result(0x45, a, b) == b,
{
}

/// Bit `i` of `a`, counted from the least significant.
pub open spec fn bit(a: u64, i: u64) -> bool {
    (a >> i) & 1 == 1
}

/// `AND`, `OR` and `XOR` combine the operands bit by bit.
pub proof fn bits_are_combined(a: u64, b: u64, i: u64)
    requires
        i < 64,
    ensures
        bit(binary_result(0x50, a, b), i) == (bit(a, i) && bit(b, i)),
        bit(binary_result(0x51, a, b), i) == (bit(a, i) || bit(b, i)),
        bit(binary_result(0x52, a, b), i) == (bit(a, i) != bit(b, i)),
{
    assert((((a & b) >> i) & 1 == 1) == (((a >> i) & 1 == 1) && ((b >> i) & 1 == 1)))
        by (bit_vector);
    assert((((a | b) >> i) & 1 == 1) == (((a >> i) & 1 == 1) || ((b >> i) & 1 == 1)))
        by (bit_vector);
    assert((((a ^ b) >> i) & 1 == 1) == (((a >> i) & 1 == 1) != ((b >> i) & 1 == 1)))
        by (bit_vector);
}

/// A shift moves every bit by as many places as it says, and fills up with zeros. By 64
/// places or more nothing is left.
pub proof fn bits_are_shifted(a: u64, b: u64, i: u64)
    requires
        i < 64,
    ensures
        bit(binary_result(0x54, a, b), i) == (b <= i && bit(a, (i - b) as u64)),
        bit(binary_result(0x55, a, b), i) == (i + b < 64 && bit(a, (i + b) as u64)),
{
    assert(((0u64 >> i) & 1) == 0) by (bit_vector);
    if b < 64 {
        if b <= i {
            let j = (i - b) as u64;
            assert((((a << b) >> i) & 1) == ((a >> j) & 1)) by (bit_vector)
                requires
                    i < 64,
                    b <= i,
                    j == i - b,
            ;
        } else {
            assert((((a << b) >> i) & 1) == 0) by (bit_vector)
                requires
                    i < b,
                    b < 64,
            ;
        }
        if i + b < 64 {
            let j = (i + b) as u64;
            assert((((a >> b) >> i) & 1) == ((a >> j) & 1)) by (bit_vector)
                requires
                    i + b < 64,
                    j == i + b,
            ;
        } else {
            assert((((a >> b) >> i) & 1) == 0) by (bit_vector)
                requires
                    i < 64,
                    b < 64,
                    i + b >= 64,
            ;
        }
    }
}

/// The bits of a value are all there is to it: values with the same bits are the same.
pub proof fn bits_fix_the_value(a: u64, b: u64)
    requires
        forall|i: u64| i < 64 ==> #[trigger] bit(a, i) == bit(b, i),
    ensures
        a == b,
{
    if a != b {
        let c = a ^ b;
        assert(c != 0) by (bit_vector)
            requires
                c == a ^ b,
                a != b,
        ;
        lemma_some_bit(c, 64);
        let i = choose|i: u64| i < 64 && #[trigger] bit(c, i);
        assert(bit(a, i) == bit(b, i));
        assert((((a ^ b) >> i) & 1 == 1) == (((a >> i) & 1 == 1) != ((b >> i) & 1 == 1)))
            by (bit_vector);
    }
}

proof fn lemma_some_bit(c: u64, n: u64)
    requires
        n <= 64,
        c != 0,
        n < 64 ==> c >> n == 0,
    ensures
        exists|i: u64| i < n && #[trigger] bit(c, i),
    decreases n,
{
    if n == 0 {
        assert(c >> 0u64 == c) by (bit_vector);
    } else {
        let m = (n - 1) as u64;
        if !bit(c, m) {
            assert(c >> m == 0) by (bit_vector)
                requires
                    m < 64,
                    m < 63 ==> c >> ((m + 1) as u64) == 0,
                    (c >> m) & 1 != 1,
            ;
            lemma_some_bit(c, m);
            let i = choose|i: u64| i < m && #[trigger] bit(c, i);
            assert(bit(c, i));
        }
    }
}

/// `NOT` turns every bit of the top operand over: the operand and its complement add
/// up to all ones.
pub proof fn not_turns_every_bit(inv: Invocation, s: MachineState)
    requires
        is_next(inv, s, 0x53, 0),
    ensures
        s.stack.len() == 0 ==> traps(inv, s, TrapReason::StackUnderflow),
        s.stack.len() > 0 ==> goes_on(
            inv,
            s,
            s.pc + 1,
            s.stack.drop_last().push((u64::MAX - s.stack.last()) as u64),
        ),
{
    if s.stack.len() > 0 {
        let a = s.stack.last();
        assert(!a == 0xFFFF_FFFF_FFFF_FFFFu64 - a) by (bit_vector);
    }
}

/// A comparison is the one of the integers, and yields one or zero: exactly one of
/// less, equal and greater holds, exchanging the operands exchanges less and greater,
/// and the other three comparisons are their opposites.
pub proof fn comparisons_order_the_integers(a: u64, b: u64)
    ensures
        binary_result(0x62, a, b) == 1 <==> a < b,
        binary_result(0x62, a, b) + binary_result(0x60, a, b) + binary_result(0x64, a, b) == 1,
        binary_result(0x60, a, b) == 1 <==> a == b,
        binary_result(0x64, a, b) == 1 <==> a > b,
        binary_result(0x62, a, b) == binary_result(0x64, b, a),
        binary_result(0x61, a, b) == 1 - binary_result(0x60, a, b),
        binary_result(0x63, a, b) == 1 - binary_result(0x64, a, b),
        binary_result(0x65, a, b) == 1 - binary_result(0x62, a, b),
{
}

// ---------------------------------------------------------------------------
// Host calls
// ---------------------------------------------------------------------------

/// How many operands the `GETPARAM` that is next passes on.
pub open spec fn passed_on(inv: Invocation, s: MachineState) -> int {
    byte_behind(inv, s, 2)
}

/// `GETPARAM` finds its operands, is below the nesting limit, and finds room for the
/// parameter identifier.
pub open spec fn may_call(inv: Invocation, s: MachineState) -> bool {
    &&& passed_on(inv, s) <= s.stack.len()
    &&& s.fuel.depth < inv.max_nesting
    &&& s.stack.len() < inv.stack_depth
}

/// `e` is the call that the `GETPARAM` which is next makes: function zero over the
/// parameter identifier and the topmost operands, the deepest first, with what is left
/// of the one budget and one level deeper. The host hands the budget back at that level
/// and has added nothing to it.
pub open spec fn is_call_of(inv: Invocation, s: MachineState, e: Exchange) -> bool {
    let count = passed_on(inv, s);
    &&& e.func_id == 0
    &&& e.args.len() == 1 + count
    &&& e.args[0] == byte_behind(inv, s, 1)
    &&& forall|i: int|
        0 <= i < count ==> #[trigger] e.args[1 + i] == s.stack[s.stack.len() - count + i]
    &&& e.before.remaining == s.fuel.remaining - 1
    &&& e.before.depth == s.fuel.depth + 1
    &&& e.after.remaining <= e.before.remaining
    &&& e.after.depth == e.before.depth
}

/// `GETPARAM` traps where it lacks operands, is nested too deep or finds no room, in
/// this order, and asks the host everywhere else.
pub proof fn getparam_asks_the_host(inv: Invocation, s: MachineState)
    requires
        is_next(inv, s, 0x70, 2),
    ensures
        passed_on(inv, s) > s.stack.len() ==> traps(inv, s, TrapReason::StackUnderflow),
        passed_on(inv, s) <= s.stack.len() && s.fuel.depth >= inv.max_nesting ==> traps(
            inv,
            s,
            TrapReason::NestingDepthExceeded,
        ),
        passed_on(inv, s) <= s.stack.len() && s.fuel.depth < inv.max_nesting && s.stack.len()
            >= inv.stack_depth ==> traps(inv, s, TrapReason::StackOverflow),
        step(inv, s) is Resolve <==> may_call(inv, s),
{
}

/// A run that comes to a host call goes by what the host answered. An answer lies on
/// the stack in place of the operands that were passed on, whatever its value, what lay
/// beneath them stays, and execution goes on behind the call with what the host left of
/// the budget. Without an answer the run ends there. A run that does not record this
/// call is none.
pub proof fn the_answer_takes_the_place_of_the_operands(
    inv: Invocation,
    s: MachineState,
    trace: Seq<Exchange>,
)
    requires
        is_next(inv, s, 0x70, 2),
        may_call(inv, s),
        s.fuel.depth < u16::MAX,
    ensures
        trace.len() == 0 || !is_call_of(inv, s, trace[0]) ==> run(inv, s, trace) is None,
        trace.len() > 0 && is_call_of(inv, s, trace[0]) ==> {
            let left = Fuel { remaining: trace[0].after.remaining, depth: s.fuel.depth };
            match trace[0].reply {
                Some(value) => run(inv, s, trace) == run(
                    inv,
                    MachineState {
                        pc: s.pc + 3,
                        stack: s.stack.take(s.stack.len() - passed_on(inv, s)).push(value),
                        locals: s.locals,
                        fuel: left,
                    },
                    trace.drop_first(),
                ),
                None => run(inv, s, trace) == if trace.len() == 1 {
                    Some((VmOutcome::Trapped(TrapReason::HostCallUnresolved), left))
                } else {
                    None
                },
            }
        },
{
    if trace.len() > 0 {
        let e = trace[0];
        let n = s.stack.len() as int;
        let count = passed_on(inv, s);
        let args = step(inv, s)->Resolve_0;
        assert(args =~= seq![inv.program[s.pc + 1] as u64] + s.stack.skip(n - count));
        if is_call_of(inv, s, e) {
            assert(e.args =~= args) by {
                assert forall|i: int| 0 <= i < args.len() implies e.args[i] == args[i] by {
                    if i > 0 {
                        assert(e.args[1 + (i - 1)] == s.stack[n - count + (i - 1)]);
                    }
                }
            }
        } else if e.args == args {
            assert forall|i: int| 0 <= i < count implies #[trigger] e.args[1 + i] == s.stack[n - count
                + i] by {}
        }
    }
}

/// A program made of one `GETPARAM` without operands and a `RET` completes with the
/// answer, whichever it is, where the host leaves a unit for the `RET`.
pub proof fn a_parameter_is_what_the_host_says(inv: Invocation, fuel: Fuel, e: Exchange)
    requires
        inv.program.len() == 4,
        inv.program[0] == 0x70,
        inv.program[2] == 0,
        inv.program[3] == 0x01,
        inv.stack_depth > 0,
        fuel.depth < inv.max_nesting,
        fuel.depth < u16::MAX,
        fuel.remaining >= 1,
        e.func_id == 0,
        e.args == seq![inv.program[1] as u64],
        e.before == (Fuel { remaining: (fuel.remaining - 1) as u32, depth: (fuel.depth + 1) as u16 }),
        e.after.remaining <= e.before.remaining,
        e.after.depth == e.before.depth,
        e.after.remaining >= 1,
    ensures
        e.reply matches Some(value) ==> run(inv, inv.start(fuel), seq![e]) == Some(
            (
                VmOutcome::Completed(value),
                Fuel { remaining: (e.after.remaining - 1) as u32, depth: fuel.depth },
            ),
        ),
        e.reply is None ==> run(inv, inv.start(fuel), seq![e]) == Some(
            (
                VmOutcome::Trapped(TrapReason::HostCallUnresolved),
                Fuel { remaining: e.after.remaining, depth: fuel.depth },
            ),
        ),
{
    let s = inv.start(fuel);
    let trace = seq![e];
    the_answer_takes_the_place_of_the_operands(inv, s, trace);
    if let Some(value) = e.reply {
        let next = MachineState {
            pc: 3,
            stack: s.stack.take(0).push(value),
            locals: s.locals,
            fuel: Fuel { remaining: e.after.remaining, depth: fuel.depth },
        };
        assert(trace.drop_first() =~= Seq::empty());
        ret_returns_the_top(inv, next);
    }
}

// ---------------------------------------------------------------------------
// Runs
// ---------------------------------------------------------------------------

/// A run starts at the first byte, with an empty stack, as many local slots as there
/// are, all of them zero, and the budget it is given.
pub proof fn a_run_starts_empty(inv: Invocation, fuel: Fuel)
    ensures
        ({
            let s = inv.start(fuel);
            &&& s.pc == 0
            &&& s.stack.len() == 0
            &&& s.locals.len() == inv.local_slots
            &&& forall|slot: int| 0 <= slot < inv.local_slots ==> #[trigger] s.locals[slot] == 0
            &&& s.fuel == fuel
        }),
{
}

/// A run is its steps, one after the other, and ends with the step that ends it. A
/// host call that is recorded and not made is no part of it.
pub proof fn a_run_is_its_steps(inv: Invocation, s: MachineState, trace: Seq<Exchange>)
    ensures
        step(inv, s) matches Step::Continue(next) ==> run(inv, s, trace) == run(inv, next, trace),
        step(inv, s) matches Step::Halt(outcome, left) ==> run(inv, s, trace) == if trace.len()
            == 0 {
            Some((outcome, left))
        } else {
            None
        },
{
}

} // verus!
