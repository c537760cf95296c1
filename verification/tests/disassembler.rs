//! Tests of the disassembler and of the round trip through both tools.

use moonblokz_vm::opcode;
use moonblokz_vm::{assemble, disassemble, hexdump, instructions, mnemonic, parse_hex, Imm};

/// The property that makes the round trip a conformance test for the ISA.
fn round_trips(bytes: &[u8]) {
    let text = disassemble(bytes).unwrap_or_else(|e| panic!("disassembly failed: {}", e.to_string()));
    let reassembled = assemble(&text).unwrap_or_else(|e| panic!("reassembly of\n{text}\nfailed: {}", e.to_string()));
    assert_eq!(reassembled, bytes, "round trip differs for {}\n{text}", hexdump(bytes));
}

#[test]
fn canonical_form_of_the_derived_parameter_example() {
    let text = disassemble(&[0x70, 0x01, 0x00, 0x10, 0x02, 0x43, 0x01]).unwrap();
    assert_eq!(text, "GETPARAM 1, 0\nPUSH_U8 2\nDIV\nRET\n");
}

#[test]
fn canonical_form_uses_explicit_push_widths_and_decimal_immediates() {
    let text = disassemble(&[0x11, 0xE8, 0x03, 0x01]).unwrap();
    assert_eq!(text, "PUSH_U16 1000\nRET\n");
}

#[test]
fn labels_are_numbered_by_ascending_target_offset() {
    // Two backward jumps, the later one reaching the earlier target, so the
    // numbering cannot come from the order the jumps appear in.
    let source = "\
first:  RET
second: RET
    JMP second
    JMP first
";
    let bytes = assemble(source).unwrap();
    let text = disassemble(&bytes).unwrap();
    assert_eq!(text, "L0:\nRET\nL1:\nRET\nJMP L1\nJMP L0\n");
}

#[test]
fn a_destination_inside_an_instruction_is_rendered_as_a_displacement() {
    // Offset 3 is PUSH_U16; the jump lands on its first immediate byte, so
    // there is no line to label and the displacement is emitted instead.
    let bytes = [0x02, 0x01, 0x00, 0x11, 0x10, 0x05, 0x01];
    let text = disassemble(&bytes).unwrap();
    assert_eq!(text, "JMP 1\nPUSH_U16 1296\nRET\n");
    round_trips(&bytes);
}

#[test]
fn the_specification_examples_round_trip() {
    round_trips(&[0x70, 0x01, 0x00, 0x10, 0x02, 0x43, 0x01]);
    round_trips(&[
        0x32, 0x00, 0x10, 0x05, 0x42, 0x11, 0xE8, 0x03, 0x40, 0x11, 0x50, 0xC3, 0x45, 0x01,
    ]);
    round_trips(&[
        0x11, 0xE8, 0x03, 0x32, 0x00, 0x10, 0x64, 0x43, 0x21, 0x03, 0x0D, 0x00, 0x10, 0x01, 0x41, 0x22, 0x21, 0x10, 0x0A, 0x43,
        0x40, 0x22, 0x02, 0xEF, 0xFF, 0x20, 0x01,
    ]);
}

#[test]
fn every_opcode_round_trips() {
    // A corpus covering each instruction at least once. Jumps get a trailing
    // RET so their destination stays inside the program.
    for info in instructions() {
        let mut bytes = vec![info.opcode];
        match info.imm {
            Imm::Absent => {}
            Imm::Rel16 => bytes.extend_from_slice(&0i16.to_le_bytes()),
            width => bytes.extend(std::iter::repeat_n(0x7Au8, width.size())),
        }
        if info.imm == Imm::Rel16 {
            bytes.push(opcode::RET);
        }
        round_trips(&bytes);
    }
}

#[test]
fn immediates_round_trip_at_their_boundaries() {
    for (op, width) in [
        (opcode::PUSH_U8, 1usize),
        (opcode::PUSH_U16, 2),
        (opcode::PUSH_U32, 4),
        (opcode::PUSH_U64, 8),
    ] {
        for fill in [0x00u8, 0x01, 0xFF] {
            let mut bytes = vec![op];
            bytes.extend(std::iter::repeat_n(fill, width));
            bytes.push(opcode::RET);
            round_trips(&bytes);
        }
    }
}

#[test]
fn displacements_round_trip_in_both_directions() {
    // Forward, zero, and backward, each landing on an instruction boundary.
    round_trips(&assemble("JMP 0\nRET\n").unwrap());
    round_trips(&assemble("a:\nRET\nJMP a\n").unwrap());
    round_trips(&assemble("JMPZ 1\nRET\nRET\n").unwrap());
    round_trips(&assemble("JMPNZ 1\nRET\nRET\n").unwrap());
}

#[test]
fn an_unallocated_opcode_is_refused() {
    let error = disassemble(&[0x00]).unwrap_err();
    assert_eq!(error.offset, 0);
    assert!(error.message.contains("0x00"), "{}", error.message);

    let later = disassemble(&[opcode::RET, 0xC0]).unwrap_err();
    assert_eq!(later.offset, 1);
}

#[test]
fn a_truncated_immediate_is_refused() {
    let error = disassemble(&[opcode::PUSH_U16, 0x01]).unwrap_err();
    assert_eq!(error.offset, 0);
    assert!(error.message.contains("immediate"), "{}", error.message);
}

#[test]
fn hex_helpers_round_trip() {
    let bytes = [0x70u8, 0x01, 0x10, 0x02, 0x43, 0x01];
    assert_eq!(hexdump(&bytes), "70 01 10 02 43 01");
    assert_eq!(parse_hex("70 01 10 02 43 01").unwrap(), bytes);
    assert_eq!(parse_hex("700110024301").unwrap(), bytes);
    assert!(parse_hex("70 0").is_err());
    assert!(parse_hex("ZZ").is_err());
}

#[test]
fn mnemonic_lookup_matches_the_instruction_table() {
    assert_eq!(mnemonic(opcode::DIV), Some("DIV"));
    assert_eq!(mnemonic(0x00), None);
}
