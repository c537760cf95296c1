//! Edge cases of the text tools, and the laws on concrete values.

use moonblokz_vm::assembler::{is_label_name, lookup, narrowest_push, parse_signed, parse_unsigned};
use moonblokz_vm::disassembler::decode;
use moonblokz_vm::encoding::{read_displacement, read_le};
use moonblokz_vm::number::{read_number, to_digit, to_digit_char};
use moonblokz_vm::opcode;
use moonblokz_vm::text::{
    characters, eq_ignore_ascii_case, position, separator, split_words, to_upper, trimmed, white_space,
};
use moonblokz_vm::{
    assemble, cost, disassemble, hexdump, instruction, instructions, mnemonic, parse_hex, try_assemble, try_parse_hex,
    AsmError, DisError, Imm, MAX_PROGRAM_LEN,
};

fn chars(text: &str) -> Vec<char> {
    text.chars().collect()
}

fn refusal(source: &str) -> (usize, String) {
    let error = assemble(source).unwrap_err();
    (error.line, error.message)
}

fn refused(source: &str, line: usize, message: &str) {
    assert_eq!(refusal(source), (line, message.to_string()), "{source:?}");
}

/// A small deterministic generator, enough to vary programs.
fn next(seed: &mut u64) -> u64 {
    *seed = seed.wrapping_mul(6364136223846793005).wrapping_add(1442695040888963407);
    *seed >> 33
}

// ---------------------------------------------------------------------------
// Characters, words and numbers
// ---------------------------------------------------------------------------

#[test]
fn white_space_is_what_unicode_says() {
    for code in 0..=0x10FFFFu32 {
        if let Some(c) = char::from_u32(code) {
            assert_eq!(white_space(c), c.is_whitespace(), "U+{code:04X}");
            assert_eq!(separator(c), c.is_whitespace() || c == ',', "U+{code:04X}");
            assert_eq!(to_upper(c), c.to_ascii_uppercase(), "U+{code:04X}");
        }
    }
}

#[test]
fn digits_have_their_values() {
    for code in 0..=0x10FFFFu32 {
        if let Some(c) = char::from_u32(code) {
            assert_eq!(to_digit(c), c.to_digit(36).map_or(36, u64::from), "U+{code:04X}");
        }
    }
    for d in 0..16u8 {
        assert_eq!(to_digit_char(d), char::from_digit(u32::from(d), 16).unwrap());
    }
}

#[test]
fn text_is_cut_as_lines_of_source_need_it() {
    assert_eq!(characters("a\u{E9}\u{1F600}"), vec!['a', '\u{E9}', '\u{1F600}']);
    assert_eq!(trimmed(&chars(" \t a b\u{3000}\r\n")), &chars("a b")[..]);
    assert_eq!(trimmed(&chars(" \t ")), &chars("")[..]);
    assert_eq!(position(&chars("ab;c;"), ';'), 2);
    assert_eq!(position(&chars("abc"), ';'), 3);
    let line = chars(" GETPARAM  24 ,, 1, ");
    let words: Vec<String> = split_words(&line).iter().map(|w| w.iter().collect()).collect();
    assert_eq!(words, vec!["GETPARAM", "24", "1"]);
    assert!(eq_ignore_ascii_case(&chars("rEt"), &chars("RET")));
    assert!(!eq_ignore_ascii_case(&chars("RET"), &chars("RETURN")));
    assert!(!eq_ignore_ascii_case(&chars("\u{E9}"), &chars("\u{C9}")));
}

#[test]
fn numbers_read_as_std_reads_them() {
    let decimal = [
        "", "+", "-", "0", "00", "7", "+7", "++7", "+-7", "-7", "-0", "1_0", " 1", "1 ", "0x1", "a",
        "18446744073709551615", "18446744073709551616", "000000000000000000000000000000001", "99999999999999999999",
    ];
    for text in decimal {
        assert_eq!(read_number(&chars(text), 10, u64::MAX), text.parse::<u64>().ok(), "{text:?}");
    }
    let hexadecimal = ["", "+", "F", "f", "+F", "0x1", "G", "FFFFFFFFFFFFFFFF", "10000000000000000", "-1"];
    for text in hexadecimal {
        assert_eq!(read_number(&chars(text), 16, u64::MAX), u64::from_str_radix(text, 16).ok(), "{text:?}");
    }
    for text in ["FF", "100", "+F", "0FF"] {
        assert_eq!(read_number(&chars(text), 16, 255).map(|v| v as u8), u8::from_str_radix(text, 16).ok(), "{text:?}");
    }
}

#[test]
fn operands_are_decimal_or_prefixed_hexadecimal() {
    assert_eq!(parse_unsigned(&chars("42")), Some(42));
    assert_eq!(parse_unsigned(&chars("0x2A")), Some(42));
    assert_eq!(parse_unsigned(&chars("0X2a")), Some(42));
    assert_eq!(parse_unsigned(&chars("0x+2a")), Some(42));
    assert_eq!(parse_unsigned(&chars("0x")), None);
    assert_eq!(parse_unsigned(&chars("x2A")), None);
    assert_eq!(parse_unsigned(&chars("-1")), None);
    assert_eq!(parse_signed(&chars("-0x10")), Some(-16));
    assert_eq!(parse_signed(&chars("-+3")), Some(-3));
    assert_eq!(parse_signed(&chars("--3")), None);
    assert_eq!(parse_signed(&chars("-")), None);
    assert_eq!(parse_signed(&chars("")), None);
    assert_eq!(parse_signed(&chars("9223372036854775807")), Some(i64::MAX));
    assert_eq!(parse_signed(&chars("-9223372036854775807")), Some(-i64::MAX));
    assert_eq!(parse_signed(&chars("9223372036854775808")), None);
    assert_eq!(parse_signed(&chars("-9223372036854775808")), None);
}

#[test]
fn label_names_are_ascii_identifiers() {
    for name in ["a", "_", "Loop_2", "_9", "L0"] {
        assert!(is_label_name(&chars(name)), "{name}");
    }
    for name in ["", "9a", "a-b", "a b", "\u{E9}", "a\u{E9}", "-"] {
        assert!(!is_label_name(&chars(name)), "{name}");
    }
}

#[test]
fn the_narrowest_push_holds_its_value() {
    assert_eq!(narrowest_push(0), (opcode::PUSH_U8, Imm::U8));
    assert_eq!(narrowest_push(255), (opcode::PUSH_U8, Imm::U8));
    assert_eq!(narrowest_push(256), (opcode::PUSH_U16, Imm::U16));
    assert_eq!(narrowest_push(65_535), (opcode::PUSH_U16, Imm::U16));
    assert_eq!(narrowest_push(65_536), (opcode::PUSH_U32, Imm::U32));
    assert_eq!(narrowest_push(4_294_967_295), (opcode::PUSH_U32, Imm::U32));
    assert_eq!(narrowest_push(4_294_967_296), (opcode::PUSH_U64, Imm::U64));
    assert_eq!(narrowest_push(u64::MAX), (opcode::PUSH_U64, Imm::U64));
}

#[test]
fn immediates_are_little_endian() {
    let bytes = [0xFF, 0x01, 0x02, 0x03, 0x04, 0x05, 0x06, 0x07, 0x88];
    assert_eq!(read_le(&bytes, 3, 0), 0);
    assert_eq!(read_le(&bytes, 0, 1), 0xFF);
    assert_eq!(read_le(&bytes, 1, 2), 0x0201);
    assert_eq!(read_le(&bytes, 1, 4), 0x0403_0201);
    assert_eq!(read_le(&bytes, 1, 8), 0x8807_0605_0403_0201);
    assert_eq!(read_displacement(&[0x00, 0x80], 0), i16::MIN);
    assert_eq!(read_displacement(&[0xFF, 0x7F], 0), i16::MAX);
    assert_eq!(read_displacement(&[0x00, 0xFF, 0xFF], 1), -1);
}

// ---------------------------------------------------------------------------
// The instruction table
// ---------------------------------------------------------------------------

#[test]
fn immediates_have_their_widths() {
    let widths = [
        (Imm::Absent, 0), (Imm::U8, 1), (Imm::U8Pair, 2), (Imm::U16, 2), (Imm::U32, 4), (Imm::U64, 8), (Imm::Rel16, 2),
    ];
    for (imm, width) in widths {
        assert_eq!(imm.size(), width);
    }
}

#[test]
fn the_table_is_ordered_and_complete() {
    let table = instructions();
    for pair in table.windows(2) {
        assert!(pair[0].opcode < pair[1].opcode);
    }
    for byte in 0..=u8::MAX {
        let entry = table.iter().find(|info| info.opcode == byte);
        assert_eq!(instruction(byte).map(|info| info.mnemonic), entry.map(|info| info.mnemonic));
        assert_eq!(instruction(byte).map(|info| info.imm), entry.map(|info| info.imm));
        assert_eq!(mnemonic(byte), entry.map(|info| info.mnemonic));
        assert_eq!(cost(byte), entry.map_or(0, |info| info.cost));
        if byte == 0 || byte >= 0x80 {
            assert!(entry.is_none());
        }
    }
}

#[test]
fn mnemonics_are_looked_up_in_any_case() {
    for info in instructions() {
        for word in [info.mnemonic.to_string(), info.mnemonic.to_lowercase()] {
            let found = lookup(&chars(&word)).unwrap();
            assert_eq!((found.opcode, found.imm), (info.opcode, info.imm), "{word}");
        }
    }
    for word in ["", "PUSH", "push", "RETURN", "RE", "JMP ", "\u{17F}HL"] {
        assert!(lookup(&chars(word)).is_none(), "{word:?}");
    }
}

// ---------------------------------------------------------------------------
// Assembler diagnostics
// ---------------------------------------------------------------------------

#[test]
fn every_diagnostic_of_a_line() {
    refused("RET\n9a: RET", 2, "`9a` is not a valid label name");
    refused(": RET", 1, "`` is not a valid label name");
    refused("a: RET\n\na: RET", 3, "label `a` is defined more than once");
    refused("GETPARAM 1, 2, 3", 1, "unexpected operand `3`");
    refused("GETPARAM 1, 2, 3, 4", 1, "unexpected operand `3`");
    refused("PUSH", 1, "PUSH needs an operand");
    refused("push", 1, "PUSH needs an operand");
    refused("PUSH x", 1, "`x` is not an unsigned integer");
    refused("PUSH -1", 1, "`-1` is not an unsigned integer");
    refused("PUSH 1 2", 1, "PUSH takes one operand, found `2`");
    refused("frobnicate", 1, "unknown instruction `frobnicate`");
    refused("add 1", 1, "add takes no operand, found `1`");
    refused("ADD 1 2", 1, "ADD takes one operand, found `2`");
    refused("LOAD", 1, "LOAD needs an operand");
    refused("LOAD a", 1, "`a` is not an unsigned integer");
    refused("LOAD 256", 1, "operand 256 does not fit in 8 bits");
    refused("PUSH_U16 65536", 1, "operand 65536 does not fit in 16 bits");
    refused("PUSH_U32 4294967296", 1, "operand 4294967296 does not fit in 32 bits");
    refused("PUSH_U64 18446744073709551616", 1, "`18446744073709551616` is not an unsigned integer");
    refused("GETPARAM", 1, "GETPARAM needs a key and an argument count");
    refused("GETPARAM 1", 1, "GETPARAM needs an argument count after the key");
    refused("GETPARAM k, n", 1, "`k` is not an unsigned integer");
    refused("GETPARAM 1, n", 1, "`n` is not an unsigned integer");
    refused("GETPARAM 256, 256", 1, "key 256 does not fit in 8 bits");
    refused("GETPARAM 255, 256", 1, "argument count 256 does not fit in 8 bits");
    refused("JMP", 1, "JMP needs a label or displacement");
    refused("JMP 1x", 1, "`1x` is neither a label nor a displacement");
    refused("JMP 32768", 1, "displacement 32768 does not fit in i16");
    refused("JMP -32769", 1, "displacement -32769 does not fit in i16");
}

#[test]
fn every_diagnostic_of_a_program() {
    refused("RET\nJMP nowhere\n", 2, "undefined label `nowhere`");
    refused("JMP 1\nRET\n", 1, "jump destination 4 falls outside the 4-byte program");
    refused("RET\nJMP -5\n", 2, "jump destination -1 falls outside the 4-byte program");
    refused("JMP end\nend:\n", 1, "jump destination 3 falls outside the 3-byte program");
    refused("JMP 32767\n", 1, "jump destination 32770 falls outside the 3-byte program");
    refused("JMP -32768\n", 1, "jump destination -32765 falls outside the 3-byte program");
    let long = "RET\n".repeat(MAX_PROGRAM_LEN - 1) + "PUSH 1\n";
    refused(&long, MAX_PROGRAM_LEN, "program exceeds the 255-byte limit imposed by the configuration framing");
}

#[test]
fn the_first_mistake_is_the_one_reported() {
    refused("JMP nowhere\nFROB\n", 2, "unknown instruction `FROB`");
    refused("JMP a\nJMP b\n", 1, "undefined label `a`");
    refused("9: FROB\n", 1, "`9` is not a valid label name");
}

#[test]
fn a_statement_of_commas_is_no_statement() {
    assert_eq!(try_assemble(","), None);
    assert_eq!(try_assemble("RET\na: , ,; nothing\n"), None);
    // A mistake on an earlier line is reported all the same.
    assert!(matches!(try_assemble("FROB\n,"), Some(Err(AsmError { line: 1, .. }))));
    assert_eq!(try_assemble("RET\n; ,\n"), Some(Ok(vec![opcode::RET])));
}

#[test]
fn a_statement_of_commas_is_diagnosed_by_its_line() {
    refused(",\n", 1, "a statement needs a mnemonic");
    refused("RET\n\na: , ,; nothing\nRET\n", 3, "a statement needs a mnemonic");
    refused("FROB\n,", 1, "unknown instruction `FROB`");
    // A later mistake, or one that only the encoding would find, comes second.
    refused(",\nFROB", 1, "a statement needs a mnemonic");
    refused("JMP nowhere\n,", 2, "a statement needs a mnemonic");
}

#[test]
fn sources_that_are_alike_assemble_alike() {
    let plain = "start: GETPARAM 24, 1\nPUSH 300\nJMP start\n";
    let bytes = assemble(plain).unwrap();
    assert_eq!(bytes, vec![0x70, 0x18, 0x01, 0x11, 0x2C, 0x01, 0x02, 0xF7, 0xFF]);
    for source in [
        // The case of mnemonics.
        "start: getparam 24, 1\npUsH 300\njmp start\n",
        // Comments, with anything in them.
        "start: GETPARAM 24, 1; the key: and the count\nPUSH 300;\nJMP start ; , back\n",
        // Blank and comment-only lines, at the ends and between.
        "\n; program\nstart: GETPARAM 24, 1\n\n  \t\n;\nPUSH 300\nJMP start\n\n; end",
        // White space around lines and labels.
        "  start  :   GETPARAM 24, 1  \n\tPUSH 300\t\r\n  JMP start",
        // A space in place of a comma, and commas where there were none.
        "start: GETPARAM 24  1\nPUSH,300\nJMP start,\n",
        // A label on a line of its own says the same, although its line is not alike.
        "start:\nGETPARAM 24, 1\nPUSH 300\nJMP start\n",
    ] {
        assert_eq!(assemble(source).unwrap(), bytes, "{source:?}");
    }
}

#[test]
fn diagnostics_read_as_one_line() {
    let error = AsmError { line: 12, message: "what".to_string() };
    assert_eq!(error.to_string(), "line 12: what");
    let whole = AsmError { line: 0, message: "what".to_string() };
    assert_eq!(whole.to_string(), "what");
    let fault = DisError { offset: 7, message: "what".to_string() };
    assert_eq!(fault.to_string(), "offset 7: what");
}

#[test]
fn line_endings_comments_and_separators_make_no_difference() {
    let plain = assemble("start: GETPARAM 24, 1\nJMP start\n").unwrap();
    assert_eq!(plain, vec![0x70, 0x18, 0x01, 0x02, 0xFA, 0xFF]);
    for source in [
        "start: GETPARAM 24, 1\r\nJMP start\r\n",
        "start: GETPARAM 24, 1\nJMP start",
        "start: GETPARAM 24 1 ; twice; over\nJMP start;\n",
        "start:\n\n  ;\n\tgetparam ,24,,1,\njmp\u{A0}start\n",
        " start : GetParam 0x18,0x01\nJmp start\n",
    ] {
        assert_eq!(assemble(source).unwrap(), plain, "{source:?}");
    }
    // Labels keep their case.
    refused("A: JMP a\n", 1, "undefined label `a`");
    assert_eq!(assemble("").unwrap(), Vec::<u8>::new());
}

// ---------------------------------------------------------------------------
// Disassembler
// ---------------------------------------------------------------------------

#[test]
fn every_fault_of_decoding() {
    let cases: [(&[u8], usize, &str); 5] = [
        (&[0x00], 0, "0x00 is not an allocated opcode"),
        (&[0x01, 0xC0], 1, "0xc0 is not an allocated opcode"),
        (&[0x10], 0, "PUSH_U8 needs a 1-byte immediate, but the program ends"),
        (&[0x01, 0x13, 1, 2, 3], 1, "PUSH_U64 needs a 8-byte immediate, but the program ends"),
        (&[0x70, 0x01], 0, "GETPARAM needs a 2-byte immediate, but the program ends"),
    ];
    for (bytes, offset, message) in cases {
        assert_eq!(disassemble(bytes), Err(DisError { offset, message: message.to_string() }));
        assert!(decode(bytes).is_err());
    }
    assert_eq!(decode(&[0x01, 0x10, 0x05, 0x02, 0x00, 0x00]), Ok(vec![0, 1, 3]));
    assert_eq!(disassemble(&[]), Ok(String::new()));
}

#[test]
fn several_jumps_share_a_label() {
    let text = disassemble(&assemble("RET\nb: RET\na: JMP b\nJMPZ b\nJMPNZ a\n").unwrap()).unwrap();
    assert_eq!(text, "RET\nL0:\nRET\nL1:\nJMP L0\nJMPZ L0\nJMPNZ L1\n");
}

#[test]
fn more_than_ten_labels_are_numbered_in_order() {
    // Twelve jumps, each to itself.
    let bytes: Vec<u8> = [0x02, 0xFD, 0xFF].repeat(12);
    let text = disassemble(&bytes).unwrap();
    for n in 0..12 {
        assert!(text.contains(&format!("L{n}:\nJMP L{n}\n")), "{text}");
    }
    assert_eq!(assemble(&text).unwrap(), bytes);
}

#[test]
fn a_jump_outside_the_program_is_shown_and_not_assembled() {
    let text = disassemble(&[0x02, 0x64, 0x00]).unwrap();
    assert_eq!(text, "JMP 100\n");
    refused(&text, 1, "jump destination 103 falls outside the 3-byte program");
    let text = disassemble(&[0x02, 0x00, 0x80, 0x01]).unwrap();
    assert_eq!(text, "JMP -32768\nRET\n");
}

#[test]
fn a_program_over_the_limit_is_shown_and_not_assembled() {
    let text = disassemble(&[opcode::RET; 256]).unwrap();
    assert_eq!(text, "RET\n".repeat(256));
    assert_eq!(refusal(&text).0, 256);
    let text = disassemble(&[opcode::RET; 255]).unwrap();
    assert_eq!(assemble(&text).unwrap(), vec![opcode::RET; 255]);
}

#[test]
fn varied_programs_round_trip() {
    let table = instructions();
    let mut seed = 1;
    for _ in 0..300 {
        // Instructions with random immediates, then jumps bent to stay inside.
        let mut bytes = Vec::new();
        let mut jumps = Vec::new();
        while bytes.len() < 200 {
            let info = table[next(&mut seed) as usize % table.len()];
            if info.imm == Imm::Rel16 {
                jumps.push(bytes.len());
            }
            bytes.push(info.opcode);
            for _ in 0..info.imm.size() {
                bytes.push(next(&mut seed) as u8);
            }
        }
        for at in jumps {
            let target = (next(&mut seed) as usize % bytes.len()) as i64;
            let displacement = (target - (at as i64 + 3)) as i16;
            bytes[at + 1..at + 3].copy_from_slice(&displacement.to_le_bytes());
        }
        let text = disassemble(&bytes).unwrap();
        assert_eq!(assemble(&text).unwrap(), bytes, "{text}");
        // What was assembled comes back a second time.
        assert_eq!(disassemble(&assemble(&text).unwrap()).unwrap(), text);
    }
}

// ---------------------------------------------------------------------------
// Hexadecimal
// ---------------------------------------------------------------------------

#[test]
fn hexdumps_parse_back() {
    let bytes: Vec<u8> = (0..=u8::MAX).collect();
    let text = hexdump(&bytes);
    assert!(text.starts_with("00 01 02") && text.ends_with("FE FF"));
    assert_eq!(text.len(), 3 * 256 - 1);
    assert_eq!(parse_hex(&text), Ok(bytes));
    assert_eq!(hexdump(&[]), "");
    assert_eq!(parse_hex(" \n"), Ok(vec![]));
    assert_eq!(hexdump(&[0xA5]), "A5");
}

#[test]
fn hexadecimal_text_is_read_pair_by_pair() {
    assert_eq!(parse_hex("7 0\t01\n1002 4\u{3000}301"), Ok(vec![0x70, 0x01, 0x10, 0x02, 0x43, 0x01]));
    assert_eq!(parse_hex("aBcD"), Ok(vec![0xAB, 0xCD]));
    assert_eq!(parse_hex("+5"), Ok(vec![5]));
    assert_eq!(parse_hex("70 0"), Err("a hexadecimal program needs an even number of digits".to_string()));
    assert_eq!(parse_hex("70 ZZ"), Err("`ZZ` is not a hexadecimal byte".to_string()));
    assert_eq!(parse_hex("-5"), Err("`-5` is not a hexadecimal byte".to_string()));
    assert_eq!(parse_hex("++"), Err("`++` is not a hexadecimal byte".to_string()));
    // A two-byte character is a pair of its own.
    assert_eq!(parse_hex("\u{E9}"), Err("`\u{E9}` is not a hexadecimal byte".to_string()));
    assert_eq!(parse_hex("1\u{E9}"), Err("a hexadecimal program needs an even number of digits".to_string()));
}

#[test]
fn a_pair_that_ends_inside_a_character_is_no_pair() {
    assert_eq!(try_parse_hex("1\u{E9}1"), None);
    assert_eq!(try_parse_hex("\u{20AC}1"), None);
    assert_eq!(try_parse_hex("\u{1F600}"), None);
    // An earlier piece that is not a byte is reported all the same.
    assert_eq!(try_parse_hex("ZZ1\u{E9}1"), Some(Err("`ZZ` is not a hexadecimal byte".to_string())));
    assert_eq!(try_parse_hex("0F"), Some(Ok(vec![15])));
    // Parsing refuses it with a message.
    let message = "a pair of hexadecimal digits ends inside a character".to_string();
    assert_eq!(parse_hex("\u{20AC}a"), Err(message.clone()));
    assert_eq!(parse_hex("1\u{E9}1"), Err(message.clone()));
    assert_eq!(parse_hex("\u{1F600}"), Err(message));
    assert_eq!(parse_hex("ZZ1\u{E9}1"), Err("`ZZ` is not a hexadecimal byte".to_string()));
}

// ---------------------------------------------------------------------------
// Canonical text
// ---------------------------------------------------------------------------

#[test]
fn canonical_text_uses_its_alphabet_only() {
    for info in instructions() {
        let mut bytes = vec![info.opcode];
        for _ in 0..info.imm.size() {
            bytes.push(0xF7);
        }
        bytes.push(opcode::RET);
        let text = disassemble(&bytes).unwrap();
        assert!(text.ends_with("\nRET\n"));
        assert!(text.starts_with(info.mnemonic));
        for c in text.chars() {
            let known = c.is_ascii_uppercase() || c.is_ascii_digit() || "_ ,-:\n".contains(c);
            assert!(known, "{c:?} in {text:?}");
        }
    }
}

#[test]
fn different_programs_have_different_texts() {
    // Every two-instruction program out of a varied list, jumps outside among them.
    let pieces: [&[u8]; 9] = [
        &[opcode::RET],
        &[opcode::JMP, 0, 0],
        &[opcode::JMP, 0xFD, 0xFF],
        &[opcode::JMP, 0xFE, 0xFF],
        &[opcode::JMP, 0x00, 0x80],
        &[opcode::JMPZ, 0x64, 0x00],
        &[opcode::PUSH_U8, 7],
        &[opcode::PUSH_U16, 7, 0],
        &[opcode::GETPARAM, 1, 2],
    ];
    let mut seen: Vec<(String, Vec<u8>)> = Vec::new();
    for first in pieces {
        for second in pieces {
            let bytes = [first, second].concat();
            let text = disassemble(&bytes).unwrap();
            for (other_text, other_bytes) in &seen {
                assert!(*other_text != text, "{other_bytes:?} and {bytes:?}");
            }
            seen.push((text, bytes));
        }
    }
    // Programs too long to be assembled, too.
    let long = disassemble(&[opcode::RET; 300]).unwrap();
    let longer = disassemble(&[opcode::RET; 301]).unwrap();
    assert!(long != longer);
}
