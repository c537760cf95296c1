//! Tests of the assembler.

use moonblokz_vm::{assemble, instructions, Imm};

#[test]
fn lib_specification_example_derived_parameter() {
    let source = "GETPARAM 1, 0        ; inter_block_interval_ms\nPUSH 2\nDIV\nRET\n";
    assert_eq!(assemble(source).unwrap(), vec![0x70, 0x01, 0x00, 0x10, 0x02, 0x43, 0x01]);
}

#[test]
fn getparam_declares_its_argument_count() {
    // The comma is optional, and the count is a second immediate byte.
    assert_eq!(assemble("GETPARAM 24, 1\nRET\n").unwrap(), vec![0x70, 0x18, 0x01, 0x01]);
    assert_eq!(assemble("GETPARAM 24 1\nRET\n").unwrap(), vec![0x70, 0x18, 0x01, 0x01]);
    assert_eq!(assemble("getparam 0x18,0x01\nret\n").unwrap(), vec![0x70, 0x18, 0x01, 0x01]);

    let missing = assemble("GETPARAM 24\n").unwrap_err();
    assert!(missing.message.contains("argument count"), "{}", missing.message);

    let too_wide = assemble("GETPARAM 24, 256\n").unwrap_err();
    assert!(too_wide.message.contains("argument count"), "{}", too_wide.message);

    // An instruction with a single immediate still refuses a second operand.
    let spurious = assemble("PUSH_U8 1, 2\n").unwrap_err();
    assert!(spurious.message.contains("one operand"), "{}", spurious.message);
}

#[test]
fn lib_specification_example_argument_taking_parameter() {
    let source = "\
; registration_price(registered_nodes) = min(1000 + 5 * n, 50000)
ARG 0
PUSH 5
MUL
PUSH 1000
ADD
PUSH 50000
MIN
RET
";
    let expected = vec![
        0x32, 0x00, // ARG 0
        0x10, 0x05, // PUSH_U8 5
        0x42, // MUL
        0x11, 0xE8, 0x03, // PUSH_U16 1000
        0x40, // ADD
        0x11, 0x50, 0xC3, // PUSH_U16 50000
        0x45, // MIN
        0x01, // RET
    ];
    assert_eq!(assemble(source).unwrap(), expected);
}

#[test]
fn lib_specification_example_loop() {
    let source = "\
    PUSH 1000          ; price
    ARG 0
    PUSH 100
    DIV                ; [price tiers]
loop:   DUP
    JMPZ done
    PUSH 1
    SUB                ; tiers -= 1
    SWAP               ; [tiers price]
    DUP
    PUSH 10
    DIV
    ADD                ; price += price / 10
    SWAP               ; [price tiers]
    JMP loop
done:   POP
    RET
";
    let bytes = assemble(source).unwrap();
    assert_eq!(bytes.len(), 27);
    // JMPZ at offset 9 reaches `done` at 25 from a following instruction at 12.
    assert_eq!(&bytes[9..12], &[0x03, 0x0D, 0x00]);
    // JMP at offset 22 reaches `loop` at 8 from a following instruction at 25.
    assert_eq!(&bytes[22..25], &[0x02, 0xEF, 0xFF]);
}

#[test]
fn push_selects_the_narrowest_encoding() {
    assert_eq!(assemble("PUSH 255\nRET\n").unwrap(), vec![0x10, 0xFF, 0x01]);
    assert_eq!(assemble("PUSH 256\nRET\n").unwrap(), vec![0x11, 0x00, 0x01, 0x01]);
    assert_eq!(assemble("PUSH 65536\nRET\n").unwrap(), vec![0x12, 0x00, 0x00, 0x01, 0x00, 0x01]);
    let wide = assemble("PUSH 4294967296\nRET\n").unwrap();
    assert_eq!(wide[0], 0x13);
    assert_eq!(wide.len(), 10);
}

#[test]
fn explicit_widths_are_never_narrowed() {
    assert_eq!(assemble("PUSH_U64 1\nRET\n").unwrap().len(), 10);
    assert_eq!(assemble("PUSH_U16 1\nRET\n").unwrap(), vec![0x11, 0x01, 0x00, 0x01]);
}

#[test]
fn mnemonics_are_case_insensitive_and_hex_operands_are_accepted() {
    assert_eq!(assemble("push_u8 0x0A\nret\n").unwrap(), vec![0x10, 0x0A, 0x01]);
    assert_eq!(assemble("Push 0xFF\nRet\n").unwrap(), vec![0x10, 0xFF, 0x01]);
}

#[test]
fn comments_blank_lines_and_lone_labels_are_ignored() {
    let source = "\n; a comment\n\nstart:\n   RET   ; trailing\n";
    assert_eq!(assemble(source).unwrap(), vec![0x01]);
}

#[test]
fn an_explicit_displacement_is_accepted() {
    // JMP +0 falls through to the RET that follows it.
    assert_eq!(assemble("JMP 0\nRET\n").unwrap(), vec![0x02, 0x00, 0x00, 0x01]);
}

#[test]
fn diagnostics_name_the_offending_line() {
    let unknown = assemble("RET\nFROBNICATE\n").unwrap_err();
    assert_eq!(unknown.line, 2);
    assert!(unknown.message.contains("FROBNICATE"), "{}", unknown.message);

    let undefined = assemble("JMP nowhere\nRET\n").unwrap_err();
    assert_eq!(undefined.line, 1);
    assert!(undefined.message.contains("nowhere"), "{}", undefined.message);

    let too_wide = assemble("PUSH_U8 256\nRET\n").unwrap_err();
    assert_eq!(too_wide.line, 1);
    assert!(too_wide.message.contains("8 bits"), "{}", too_wide.message);

    let spurious = assemble("ADD 1\n").unwrap_err();
    assert_eq!(spurious.line, 1);

    let missing = assemble("PUSH_U8\n").unwrap_err();
    assert_eq!(missing.line, 1);

    let duplicate = assemble("a:\nRET\na:\nRET\n").unwrap_err();
    assert_eq!(duplicate.line, 3);
}

#[test]
fn a_jump_outside_the_program_is_refused() {
    let out_of_range = assemble("JMP 100\nRET\n").unwrap_err();
    assert!(out_of_range.message.contains("outside"), "{}", out_of_range.message);

    let backwards = assemble("JMP -100\nRET\n").unwrap_err();
    assert!(backwards.message.contains("outside"), "{}", backwards.message);
}

#[test]
fn the_program_length_limit_is_enforced() {
    // Each RET is one byte, so 256 of them is one past the ceiling.
    let source = "RET\n".repeat(256);
    let too_long = assemble(&source).unwrap_err();
    assert!(too_long.message.contains("255-byte"), "{}", too_long.message);

    assert!(assemble(&"RET\n".repeat(255)).is_ok());
}

#[test]
fn every_instruction_assembles() {
    for info in instructions() {
        let source = match info.imm {
            Imm::Absent => format!("{}\n", info.mnemonic),
            // A jump needs somewhere to land, so give it a following RET.
            Imm::Rel16 => format!("{} 0\nRET\n", info.mnemonic),
            Imm::U8Pair => format!("{} 1, 0\n", info.mnemonic),
            _ => format!("{} 1\n", info.mnemonic),
        };
        let bytes = assemble(&source).unwrap_or_else(|e| panic!("{} failed: {}", info.mnemonic, e.to_string()));
        assert_eq!(bytes[0], info.opcode, "{}", info.mnemonic);
    }
}
