//! The machine one step at a time, and its laws on concrete values.

use moonblokz_vm::machine::{binary, Event, Machine};
use moonblokz_vm::opcode::{
    ADD, AND, ARG, DIV, DUP, EQ, GETPARAM, GTE, JMP, JMPZ, LOAD, MAX, MIN, MOD, MUL, NOT, OR, POP, PUSH_U16, PUSH_U32,
    PUSH_U64, PUSH_U8, RET, SHL, SHR, STORE, SUB, SWAP, XOR,
};
use moonblokz_vm::stack::OperandStack;
use moonblokz_vm::{Fuel, TrapReason, Vm, VmHost, VmOutcome};

type SmallVm = Vm<4, 2, 2>;

/// A host that spends `price` units, where it can, and answers with what it was
/// asked: the number of arguments times 1000, plus the identifier.
struct Echo {
    price: u32,
}

impl VmHost for Echo {
    fn call(&self, _func_id: u16, args: &[u64], fuel: &mut Fuel) -> Option<u64> {
        if fuel.remaining < self.price {
            fuel.remaining = 0;
            return None;
        }
        fuel.remaining -= self.price;
        Some(args.len() as u64 * 1000 + args[0])
    }
}

fn run(program: &[u8], args: &[u64], limit: u32) -> (VmOutcome, u32) {
    let mut fuel = Fuel::new(limit);
    let outcome = SmallVm::execute(program, args, &mut fuel, &Echo { price: 3 });
    assert_eq!(fuel.depth, 0);
    (outcome, fuel.remaining)
}

fn trapped(program: &[u8], reason: TrapReason) {
    assert_eq!(run(program, &[], 100).0, VmOutcome::Trapped(reason), "{program:?}");
}

#[test]
fn the_stack_holds_what_was_pushed() {
    let mut stack: OperandStack<3> = OperandStack::new();
    assert_eq!(stack.len(), 0);
    assert_eq!(stack.top(), None);
    assert_eq!(stack.pop(), None);
    assert!(stack.push(1) && stack.push(2));
    assert_eq!(stack.top(), Some(2));
    assert!(stack.insert_beneath(1, 9));
    assert_eq!(stack.from(0), &[1, 9, 2]);
    assert_eq!(stack.from(1), &[9, 2]);
    assert!(!stack.push(7));
    assert!(!stack.insert_beneath(0, 7));
    assert_eq!(stack.len(), 3);
    stack.truncate(1);
    assert_eq!(stack.pop(), Some(1));
    assert_eq!(stack.len(), 0);
}

#[test]
fn binary_instructions_compute_their_results() {
    let cases = [
        (ADD, u64::MAX, 1, u64::MAX),
        (SUB, 3, 5, 0),
        (MUL, 1 << 40, 1 << 40, u64::MAX),
        (MUL, 6, 7, 42),
        (DIV, 22, 7, 3),
        (DIV, 22, 0, 0),
        (MOD, 22, 7, 1),
        (MOD, 22, 0, 0),
        (MIN, 4, 9, 4),
        (MAX, 4, 9, 9),
        (AND, 12, 10, 8),
        (OR, 12, 10, 14),
        (XOR, 12, 10, 6),
        (SHL, 3, 63, 1 << 63),
        (SHL, 3, 64, 0),
        (SHR, u64::MAX, 63, 1),
        (SHR, u64::MAX, 64, 0),
        (EQ, 5, 5, 1),
        (GTE, 4, 5, 0),
    ];
    for (opcode, a, b, result) in cases {
        assert_eq!(binary(opcode, a, b), result, "{opcode:#04x} over {a} and {b}");
    }
}

#[test]
fn a_machine_is_driven_step_by_step() {
    let mut machine: Machine<4, 2, 2> = Machine::new();
    let mut fuel = Fuel::new(10);
    let program = [PUSH_U8, 7, PUSH_U8, 8, GETPARAM, 24, 1, RET];
    assert!(matches!(machine.step(&program, &[], &mut fuel), Event::Continue));
    assert!(matches!(machine.step(&program, &[], &mut fuel), Event::Continue));
    match machine.step(&program, &[], &mut fuel) {
        Event::Resolve { base } => {
            assert_eq!(base, 1);
            assert_eq!(machine.operands(base), &[24, 8]);
            assert_eq!(machine.resume(base, &fuel, Some(99)), None);
            assert_eq!(machine.operands(0), &[7, 99]);
        }
        _ => panic!("the host was to be asked"),
    }
    assert!(matches!(machine.step(&program, &[], &mut fuel), Event::Halt(VmOutcome::Completed(99))));
    assert_eq!(fuel.remaining, 6);
}

#[test]
fn a_declined_call_ends_execution() {
    let mut machine: Machine<4, 2, 2> = Machine::new();
    let mut fuel = Fuel::new(10);
    match machine.step(&[GETPARAM, 24, 0], &[], &mut fuel) {
        Event::Resolve { base } => assert_eq!(
            machine.resume(base, &fuel, None),
            Some(VmOutcome::Trapped(TrapReason::HostCallUnresolved))
        ),
        _ => panic!("the host was to be asked"),
    }
}

#[test]
fn a_budget_is_charged_or_left_alone() {
    let mut fuel = Fuel::new(5);
    assert!(fuel.charge(3));
    assert_eq!(fuel.remaining, 2);
    assert!(!fuel.charge(3));
    assert_eq!(fuel.remaining, 2);
    assert!(fuel.charge(2));
    assert!(!fuel.charge(1));
    assert!(fuel.charge(0));
}

#[test]
fn the_host_draws_from_the_same_budget() {
    let program = [GETPARAM, 7, 0, RET];
    assert_eq!(run(&program, &[], 10), (VmOutcome::Completed(1007), 5));
    assert_eq!(run(&program, &[], 5), (VmOutcome::Completed(1007), 0));
    // One short: the host spends its part, and the final RET cannot be charged.
    assert_eq!(run(&program, &[], 4), (VmOutcome::OutOfFuel, 0));
    assert_eq!(run(&program, &[], 3), (VmOutcome::Trapped(TrapReason::HostCallUnresolved), 0));
}

#[test]
fn more_fuel_than_needed_changes_nothing_but_what_is_left() {
    let program = [PUSH_U8, 3, DUP, JMPZ, 6, 0, PUSH_U8, 1, SUB, JMP, 0xF6, 0xFF, ARG, 0, RET];
    let (outcome, left) = run(&program, &[77], 1000);
    let spent = 1000 - left;
    assert_eq!(outcome, VmOutcome::Completed(77));
    for limit in 0..spent {
        assert_eq!(run(&program, &[77], limit), (VmOutcome::OutOfFuel, 0));
    }
    for extra in 0..20 {
        assert_eq!(run(&program, &[77], spent + extra), (outcome, extra));
    }
}

#[test]
fn executions_of_the_same_program_agree() {
    let program = [ARG, 0, GETPARAM, 5, 1, STORE, 1, LOAD, 1, DUP, MUL, RET];
    assert_eq!(run(&program, &[9], 50), run(&program, &[9], 50));
    assert_eq!(run(&program, &[9], 50).0, VmOutcome::Completed(2005 * 2005));
}

#[test]
fn undefined_bytes_trap_without_being_charged() {
    assert_eq!(run(&[0x00], &[], 7), (VmOutcome::Trapped(TrapReason::UndefinedOpcode), 7));
    assert_eq!(run(&[0x00], &[], 0), (VmOutcome::Trapped(TrapReason::UndefinedOpcode), 0));
    assert_eq!(run(&[], &[], 0), (VmOutcome::Trapped(TrapReason::TruncatedInstruction), 0));
}

#[test]
fn checks_come_in_a_fixed_order() {
    // The immediate is looked for before the operands.
    trapped(&[JMPZ, 0], TrapReason::TruncatedInstruction);
    trapped(&[STORE], TrapReason::TruncatedInstruction);
    trapped(&[GETPARAM, 1], TrapReason::TruncatedInstruction);
    trapped(&[PUSH_U16, 1], TrapReason::TruncatedInstruction);
    trapped(&[PUSH_U32, 1, 2, 3], TrapReason::TruncatedInstruction);
    trapped(&[PUSH_U64, 1, 2, 3, 4, 5, 6, 7], TrapReason::TruncatedInstruction);
    // The operand before the jump destination, the slot before the operand.
    trapped(&[JMPZ, 0xFF, 0x7F], TrapReason::StackUnderflow);
    trapped(&[STORE, 2], TrapReason::OperandIndexOutOfRange);
    trapped(&[STORE, 1], TrapReason::StackUnderflow);
    trapped(&[NOT], TrapReason::StackUnderflow);
    trapped(&[PUSH_U8, 1, ADD], TrapReason::StackUnderflow);
    // A full stack.
    let full = [PUSH_U8, 1, PUSH_U8, 1, PUSH_U8, 1, PUSH_U8, 1];
    for extra in [&[DUP][..], &[LOAD, 0], &[PUSH_U8, 1], &[GETPARAM, 1, 1]] {
        let program: Vec<u8> = full.iter().chain(extra).copied().collect();
        trapped(&program, TrapReason::StackOverflow);
    }
    let too_many: Vec<u8> = full.iter().chain(&[GETPARAM, 1, 5]).copied().collect();
    trapped(&too_many, TrapReason::StackUnderflow);
    let swapped: Vec<u8> = full.iter().chain(&[POP, NOT, SWAP, RET]).copied().collect();
    assert_eq!(run(&swapped, &[], 100).0, VmOutcome::Completed(1));
}

#[test]
fn nesting_is_checked_against_the_depth_of_the_budget() {
    let program = [GETPARAM, 1, 0, RET];
    let mut fuel = Fuel { remaining: 100, depth: 1 };
    assert_eq!(SmallVm::execute(&program, &[], &mut fuel, &Echo { price: 0 }), VmOutcome::Completed(1001));
    assert_eq!(fuel.depth, 1);
    fuel.depth = 2;
    let outcome = SmallVm::execute(&program, &[], &mut fuel, &Echo { price: 0 });
    assert_eq!(outcome, VmOutcome::Trapped(TrapReason::NestingDepthExceeded));
}

#[test]
fn a_jump_to_the_last_byte_is_inside() {
    assert_eq!(run(&[PUSH_U8, 5, JMP, 1, 0, NOT, RET], &[], 100).0, VmOutcome::Completed(5));
    trapped(&[PUSH_U8, 5, JMP, 2, 0, NOT, RET], TrapReason::ControlFlowOutOfRange);
    trapped(&[JMP, 0xFC, 0xFF], TrapReason::ControlFlowOutOfRange);
}

#[test]
fn a_machine_without_stack_or_slots_still_runs() {
    let mut fuel = Fuel::new(10);
    let outcome = Vm::<0, 0, 0>::execute(&[PUSH_U8, 1, RET], &[], &mut fuel, &Echo { price: 0 });
    assert_eq!(outcome, VmOutcome::Trapped(TrapReason::StackOverflow));
    let outcome = Vm::<1, 0, 0>::execute(&[LOAD, 0, RET], &[], &mut fuel, &Echo { price: 0 });
    assert_eq!(outcome, VmOutcome::Trapped(TrapReason::OperandIndexOutOfRange));
    let outcome = Vm::<1, 0, 0>::execute(&[GETPARAM, 0, 0], &[], &mut fuel, &Echo { price: 0 });
    assert_eq!(outcome, VmOutcome::Trapped(TrapReason::NestingDepthExceeded));
}

#[test]
fn an_unsized_host_serves_too() {
    let host: &dyn VmHost = &Echo { price: 0 };
    let mut fuel = Fuel::new(10);
    assert_eq!(SmallVm::execute(&[GETPARAM, 3, 0, RET], &[], &mut fuel, host), VmOutcome::Completed(1003));
}

#[test]
fn a_call_that_leaves_nothing_ends_the_invocation() {
    // The host answers, and spends the last unit doing so.
    let program = [GETPARAM, 7, 0, PUSH_U8, 1, RET];
    assert_eq!(run(&program, &[], 4), (VmOutcome::OutOfFuel, 0));
    // Without anything behind the call the program falls off its end instead.
    assert_eq!(run(&program[..3], &[], 4), (VmOutcome::Trapped(TrapReason::TruncatedInstruction), 0));
}

#[test]
fn leaving_the_program_is_told_apart() {
    trapped(&[PUSH_U8, 1], TrapReason::TruncatedInstruction);
    trapped(&[JMP, 0, 0], TrapReason::ControlFlowOutOfRange);
    trapped(&[PUSH_U8, 0, JMPZ, 0, 0], TrapReason::ControlFlowOutOfRange);
    // A jump that is not taken goes on behind itself, off the end.
    trapped(&[PUSH_U8, 1, JMPZ, 0, 0], TrapReason::TruncatedInstruction);
    trapped(&[JMP, 0], TrapReason::TruncatedInstruction);
    // The budget is looked at before the immediate.
    assert_eq!(run(&[JMP, 0], &[], 0), (VmOutcome::OutOfFuel, 0));
}

#[test]
fn a_budget_at_the_deepest_level_still_runs_what_asks_nothing() {
    let mut fuel = Fuel { remaining: 10, depth: u16::MAX };
    let outcome = Vm::<4, 2, 70_000>::execute(&[PUSH_U8, 5, RET], &[], &mut fuel, &Echo { price: 0 });
    assert_eq!(outcome, VmOutcome::Completed(5));
    assert_eq!((fuel.remaining, fuel.depth), (8, u16::MAX));
}

#[test]
fn less_fuel_that_still_suffices_changes_nothing_but_what_is_left() {
    // The host spends three units of the eight that this takes.
    let program = [ARG, 0, GETPARAM, 5, 1, DUP, ADD, RET];
    let (outcome, left) = run(&program, &[9], 100);
    assert_eq!((outcome, left), (VmOutcome::Completed(4010), 92));
    for units in 8..100 {
        assert_eq!(run(&program, &[9], units), (outcome, units - 8));
    }
}
