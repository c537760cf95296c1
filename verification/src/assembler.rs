//! The assembler.
//!
//! This is the only place where structural mistakes in a program are diagnosed.
//! The machine carries no verifier: on it an out-of-range jump merely traps. Here a
//! mistake costs no device code size, and the message names the offending line.

use vstd::prelude::*;
use vstd::slice::slice_subrange;
use vstd::string::StringExecFns;

use crate::assembly::{
    about_number, assembly, blank, commas_line, defined, diagnosed, encode, encode_from,
    encode_jump, is_label, jump_operand, label_offset, names, narrowest, not_unsigned,
    number_operand, opcode_named, pair_operand, read_line, read_lines, read_statement, signed,
    statement, statement_opcode, statement_operand, unsigned, Diagnostic, Insn, Listing, Operand,
    Placed, MAX_PROGRAM_LEN,
};
use crate::encoding::{le_bytes, lemma_byte_limits, pattern_16};
use crate::instruction::{description, instruction, instructions, Imm, InstructionInfo};
use crate::mnemonic::mnemonics_are_distinct;
use crate::number::{decimal, push_decimal, push_signed_decimal, read_number};
use crate::opcode as op;
use crate::text::{
    characters, eq_ignore_ascii_case, first_line, is_ascii_digit, is_ascii_letter, message,
    other_lines, position, push_all, same, same_ignoring_case, split_words, texts, trimmed,
};

verus! {

/// A diagnostic naming the line that could not be assembled.
#[derive(Debug, Clone, PartialEq, Eq)]
pub struct AsmError {
    /// One-based line number, or zero for a whole-program diagnostic.
    pub line: usize,
    /// What went wrong.
    pub message: String,
}

impl View for AsmError {
    type V = Diagnostic;

    open spec fn view(&self) -> Diagnostic {
        Diagnostic { line: self.line as nat, message: self.message@ }
    }
}

impl AsmError {
    /// The diagnostic as one line of text.
    pub fn to_string(&self) -> (text: String)
        ensures
            text@ == (if self.line == 0 {
                self.message@
            } else {
                "line "@ + decimal(self.line as nat) + ": "@ + self.message@
            }),
    {
        if self.line == 0 {
            return self.message.clone();
        }
        let mut text: String = "line ".to_owned();
        push_decimal(&mut text, self.line as u64);
        text.append(": ");
        text.append(self.message.as_str());
        text
    }
}

fn err(line: usize, message: String) -> (error: AsmError)
    ensures
        error@ == (Diagnostic { line: line as nat, message: message@ }),
{
    AsmError { line, message }
}

/// What was written behind a mnemonic.
enum ParsedOperand {
    Absent,
    Number(u64),
    Pair(u8, u8),
    /// A label name, resolved once every line has been read.
    Label(Vec<char>),
    /// An explicit displacement, relative to the following instruction.
    Displacement(i16),
}

impl ParsedOperand {
    spec fn model(&self) -> Operand {
        match self {
            ParsedOperand::Absent => Operand::Absent,
            ParsedOperand::Number(value) => Operand::Number(*value as nat),
            ParsedOperand::Pair(key, count) => Operand::Pair(*key as nat, *count as nat),
            ParsedOperand::Label(name) => Operand::Label(name@),
            ParsedOperand::Displacement(d) => Operand::Displacement(*d as int),
        }
    }
}

/// One parsed instruction, with its offset and pending operand.
struct Parsed {
    line: usize,
    offset: usize,
    opcode: u8,
    imm: Imm,
    operand: ParsedOperand,
}

impl Parsed {
    /// The offset is within the longest program, and the immediate is that of the
    /// opcode.
    spec fn wf(&self) -> bool {
        &&& self.offset <= MAX_PROGRAM_LEN
        &&& description(self.opcode) matches Some(info) && info.imm == self.imm
    }

    spec fn model(&self) -> Placed {
        Placed {
            line: self.line as nat,
            offset: self.offset as nat,
            insn: Insn { opcode: self.opcode, operand: self.operand.model() },
        }
    }
}

// ---------------------------------------------------------------------------
// Words
// ---------------------------------------------------------------------------

/// Parses a decimal or `0x`-prefixed hexadecimal unsigned operand.
pub fn parse_unsigned(token: &[char]) -> (value: Option<u64>)
    ensures
        value is Some <==> unsigned(token@) is Some,
        value matches Some(v) ==> unsigned(token@) == Some(v as nat),
{
    if token.len() >= 2 && token[0] == '0' && (token[1] == 'x' || token[1] == 'X') {
        assert(token@.skip(2) =~= token@.subrange(2, token@.len() as int));
        read_number(slice_subrange(token, 2, token.len()), 16, u64::MAX)
    } else {
        read_number(token, 10, u64::MAX)
    }
}

/// Parses a signed jump displacement, decimal or `0x`-prefixed.
pub fn parse_signed(token: &[char]) -> (value: Option<i64>)
    ensures
        value is Some <==> signed(token@) is Some,
        value matches Some(v) ==> signed(token@) == Some(v as int),
        value matches Some(v) ==> v > i64::MIN,
{
    let negative: bool = token.len() > 0 && token[0] == '-';
    let magnitude: Option<u64> = if negative {
        assert(token@.drop_first() =~= token@.subrange(1, token@.len() as int));
        parse_unsigned(slice_subrange(token, 1, token.len()))
    } else {
        parse_unsigned(token)
    };
    match magnitude {
        Some(v) => if v > i64::MAX as u64 {
            None
        } else if negative {
            Some(-(v as i64))
        } else {
            Some(v as i64)
        },
        None => None,
    }
}

/// Whether `token` is a label name: an ASCII letter or an underscore, then letters,
/// digits and underscores.
pub fn is_label_name(token: &[char]) -> (yes: bool)
    ensures
        yes == is_label(token@),
{
    if token.len() == 0 {
        return false;
    }
    if !letter(token[0]) && token[0] != '_' {
        return false;
    }
    let mut i: usize = 1;
    while i < token.len()
        invariant
            1 <= i <= token.len(),
            is_ascii_letter(token@[0]) || token@[0] == '_',
            forall|k: int|
                1 <= k < i ==> is_ascii_letter(#[trigger] token@[k]) || is_ascii_digit(token@[k])
                    || token@[k] == '_',
        decreases token.len() - i,
    {
        let c: char = token[i];
        if !letter(c) && !('0' <= c && c <= '9') && c != '_' {
            return false;
        }
        i += 1;
    }
    true
}

fn letter(c: char) -> (yes: bool)
    ensures
        yes == is_ascii_letter(c),
{
    ('A' <= c && c <= 'Z') || ('a' <= c && c <= 'z')
}

/// Looks up a mnemonic, case-insensitively.
pub fn lookup(mnemonic: &[char]) -> (found: Option<InstructionInfo>)
    ensures
        found matches Some(info) ==> {
            &&& opcode_named(mnemonic@) == Some(info.opcode)
            &&& description(info.opcode) == Some(info)
        },
        found is None ==> opcode_named(mnemonic@) is None,
{
    let table: [InstructionInfo; 34] = instructions();
    let mut i: usize = 0;
    while i < table.len()
        invariant
            i <= table@.len(),
            table@.len() == 34,
            forall|k: int|
                0 <= k < table@.len() ==> description((#[trigger] table@[k]).opcode) == Some(table@[k]),
            forall|b: u8| #[trigger]
                description(b) is Some ==> exists|k: int|
                    0 <= k < table@.len() && (#[trigger] table@[k]).opcode == b,
            forall|k: int|
                0 <= k < i ==> !same_ignoring_case((#[trigger] table@[k]).mnemonic@, mnemonic@),
        decreases table@.len() - i,
    {
        let info: InstructionInfo = table[i];
        let written: Vec<char> = characters(info.mnemonic);
        if eq_ignore_ascii_case(written.as_slice(), mnemonic) {
            proof {
                assert(names(info.opcode, mnemonic@));
                let chosen = choose|opcode: u8| names(opcode, mnemonic@);
                mnemonics_are_distinct(chosen, info.opcode, mnemonic@);
            }
            return Some(info);
        }
        i += 1;
    }
    assert forall|b: u8| !names(b, mnemonic@) by {
        if description(b) is Some {
            let k = choose|k: int| 0 <= k < table@.len() && (#[trigger] table@[k]).opcode == b;
            assert(description(table@[k].opcode) == Some(table@[k]));
        }
    }
    None
}

/// The narrowest `PUSH_*` encoding that holds `value`.
///
/// Programs live in a 255-byte budget, and an author who reaches for `PUSH_U64` out
/// of habit spends nine bytes where two would do. The rule is deterministic, so the
/// alias never makes a program's encoding a matter of taste.
pub fn narrowest_push(value: u64) -> (choice: (u8, Imm))
    ensures
        choice.0 == narrowest(value as nat),
        description(choice.0) matches Some(info) && info.imm == choice.1,
{
    if value <= u8::MAX as u64 {
        (op::PUSH_U8, Imm::U8)
    } else if value <= u16::MAX as u64 {
        (op::PUSH_U16, Imm::U16)
    } else if value <= u32::MAX as u64 {
        (op::PUSH_U32, Imm::U32)
    } else {
        (op::PUSH_U64, Imm::U64)
    }
}

// ---------------------------------------------------------------------------
// Messages
// ---------------------------------------------------------------------------

/// `n` between two fixed texts.
fn about(before: &str, n: i64, after: &str) -> (text: String)
    requires
        n > i64::MIN,
    ensures
        text@ == about_number(before, n as int, after),
{
    let mut text: String = before.to_owned();
    push_signed_decimal(&mut text, n);
    text.append(after);
    text
}

/// `n` between two fixed texts.
fn about_unsigned(before: &str, n: u64, after: &str) -> (text: String)
    ensures
        text@ == about_number(before, n as int, after),
{
    let mut text: String = before.to_owned();
    push_decimal(&mut text, n);
    text.append(after);
    text
}

/// `word` with a fixed text behind it.
fn word_then(word: &[char], after: &str) -> (text: String)
    ensures
        text@ == word@ + after@,
{
    let mut text = String::new();
    push_all(&mut text, word);
    text.append(after);
    assert(text@ =~= word@ + after@);
    text
}

/// `word`, a fixed text, `extra` and a closing quote.
fn word_found(word: &[char], between: &str, extra: &[char]) -> (text: String)
    ensures
        text@ == word@ + between@ + extra@ + "`"@,
{
    let mut text: String = word_then(word, between);
    push_all(&mut text, extra);
    text.append("`");
    text
}

fn refuse_unsigned(word: &[char]) -> (text: String)
    ensures
        text@ == not_unsigned(word@),
{
    message("`", word, "` is not an unsigned integer")
}

// ---------------------------------------------------------------------------
// Statements
// ---------------------------------------------------------------------------

/// `result` is the operand or the message that `expected` says.
spec fn is_operand_result(
    result: Result<ParsedOperand, String>,
    expected: Result<Operand, Seq<char>>,
) -> bool {
    match expected {
        Ok(operand) => result is Ok && result->Ok_0.model() == operand,
        Err(message) => result is Err && result->Err_0@ == message,
    }
}

/// The opcode and the immediate of the statement made of the words `t`.
fn parse_opcode(t: &Vec<&[char]>) -> (result: Result<(u8, Imm), String>)
    requires
        t@.len() > 0,
    ensures
        match statement_opcode(texts(t@)) {
            Ok(opcode) => {
                &&& result is Ok
                &&& result->Ok_0.0 == opcode
                &&& description(opcode) matches Some(info) && info.imm == result->Ok_0.1
            },
            Err(message) => result is Err && result->Err_0@ == message,
        },
{
    let alias: Vec<char> = characters("PUSH");
    if eq_ignore_ascii_case(alias.as_slice(), t[0]) {
        if t.len() < 2 {
            return Err("PUSH needs an operand".to_owned());
        }
        match parse_unsigned(t[1]) {
            Some(value) => Ok(narrowest_push(value)),
            None => Err(refuse_unsigned(t[1])),
        }
    } else {
        match lookup(t[0]) {
            Some(info) => Ok((info.opcode, info.imm)),
            None => Err(message("unknown instruction `", t[0], "`")),
        }
    }
}

fn parse_number(imm: Imm, t: &Vec<&[char]>) -> (result: Result<ParsedOperand, String>)
    requires
        t@.len() > 0,
        imm is U8 || imm is U16 || imm is U32 || imm is U64,
    ensures
        is_operand_result(result, number_operand(imm, texts(t@))),
{
    if t.len() < 2 {
        return Err(word_then(t[0], " needs an operand"));
    }
    proof {
        lemma_byte_limits();
    }
    match parse_unsigned(t[1]) {
        Some(value) => {
            let fits: bool = match imm {
                Imm::U8 => value <= u8::MAX as u64,
                Imm::U16 => value <= u16::MAX as u64,
                Imm::U32 => value <= u32::MAX as u64,
                _ => true,
            };
            if !fits {
                let mut text: String = about_unsigned("operand ", value, " does not fit in ");
                push_decimal(&mut text, imm.size() as u64 * 8);
                text.append(" bits");
                return Err(text);
            }
            Ok(ParsedOperand::Number(value))
        },
        None => Err(refuse_unsigned(t[1])),
    }
}

fn parse_pair(t: &Vec<&[char]>) -> (result: Result<ParsedOperand, String>)
    requires
        t@.len() > 0,
    ensures
        is_operand_result(result, pair_operand(texts(t@))),
{
    if t.len() < 2 {
        return Err(word_then(t[0], " needs a key and an argument count"));
    }
    if t.len() < 3 {
        return Err(word_then(t[0], " needs an argument count after the key"));
    }
    let key: u64 = match parse_unsigned(t[1]) {
        Some(key) => key,
        None => return Err(refuse_unsigned(t[1])),
    };
    let count: u64 = match parse_unsigned(t[2]) {
        Some(count) => count,
        None => return Err(refuse_unsigned(t[2])),
    };
    if key > u8::MAX as u64 {
        return Err(about_unsigned("key ", key, " does not fit in 8 bits"));
    }
    if count > u8::MAX as u64 {
        return Err(about_unsigned("argument count ", count, " does not fit in 8 bits"));
    }
    Ok(ParsedOperand::Pair(key as u8, count as u8))
}

fn parse_jump(t: &Vec<&[char]>) -> (result: Result<ParsedOperand, String>)
    requires
        t@.len() > 0,
    ensures
        is_operand_result(result, jump_operand(texts(t@))),
{
    if t.len() < 2 {
        return Err(word_then(t[0], " needs a label or displacement"));
    }
    if is_label_name(t[1]) {
        let mut name: Vec<char> = Vec::new();
        name.extend_from_slice(t[1]);
        assert(name@ =~= t@[1]@);
        return Ok(ParsedOperand::Label(name));
    }
    match parse_signed(t[1]) {
        Some(d) => if i16::MIN as i64 <= d && d <= i16::MAX as i64 {
            Ok(ParsedOperand::Displacement(d as i16))
        } else {
            Err(about("displacement ", d, " does not fit in i16"))
        },
        None => Err(message("`", t[1], "` is neither a label nor a displacement")),
    }
}

fn parse_operand(imm: Imm, t: &Vec<&[char]>) -> (result: Result<ParsedOperand, String>)
    requires
        t@.len() > 0,
    ensures
        is_operand_result(result, statement_operand(imm, texts(t@))),
{
    if imm != Imm::U8Pair && t.len() > 2 {
        return Err(word_found(t[0], " takes one operand, found `", t[2]));
    }
    match imm {
        Imm::Absent => if t.len() > 1 {
            Err(word_found(t[0], " takes no operand, found `", t[1]))
        } else {
            Ok(ParsedOperand::Absent)
        },
        Imm::U8Pair => parse_pair(t),
        Imm::Rel16 => parse_jump(t),
        _ => parse_number(imm, t),
    }
}

/// The instruction that the words `t` of a statement stand for, with its immediate.
fn parse_statement(t: &Vec<&[char]>) -> (result: Result<(u8, Imm, ParsedOperand), String>)
    requires
        t@.len() > 0,
    ensures
        match statement(texts(t@)) {
            Ok(insn) => {
                &&& result matches Ok((opcode, imm, operand))
                &&& insn == (Insn { opcode, operand: operand.model() })
                &&& description(opcode) matches Some(info) && info.imm == imm
            },
            Err(message) => result is Err && result->Err_0@ == message,
        },
{
    if t.len() > 3 {
        return Err(message("unexpected operand `", t[3], "`"));
    }
    let (opcode, imm): (u8, Imm) = match parse_opcode(t) {
        Ok(found) => found,
        Err(text) => return Err(text),
    };
    match parse_operand(imm, t) {
        Ok(operand) => Ok((opcode, imm, operand)),
        Err(text) => Err(text),
    }
}

// ---------------------------------------------------------------------------
// Lines
// ---------------------------------------------------------------------------

/// What has been read of a source text.
struct Draft {
    labels: Vec<(Vec<char>, usize)>,
    insns: Vec<Parsed>,
    size: usize,
}

impl Draft {
    spec fn label_models(&self) -> Seq<(Seq<char>, nat)> {
        self.labels@.map_values(|label: (Vec<char>, usize)| (label.0@, label.1 as nat))
    }

    spec fn insn_models(&self) -> Seq<Placed> {
        self.insns@.map_values(|parsed: Parsed| parsed.model())
    }

    spec fn model(&self) -> Listing {
        Listing {
            labels: self.label_models(),
            insns: self.insn_models(),
            size: self.size as nat,
        }
    }

    /// Every offset is within the longest program, and every immediate is that of
    /// its opcode.
    spec fn wf(&self) -> bool {
        &&& self.size <= MAX_PROGRAM_LEN
        &&& forall|i: int|
            0 <= i < self.labels@.len() ==> (#[trigger] self.labels@[i]).1 <= MAX_PROGRAM_LEN
        &&& forall|i: int|
            0 <= i < self.insns@.len() ==> (#[trigger] self.insns@[i]).wf()
    }

    fn new() -> (draft: Self)
        ensures
            draft.wf(),
            draft.model() == blank(),
    {
        let draft = Draft { labels: Vec::new(), insns: Vec::new(), size: 0 };
        assert(draft.model() =~= blank());
        draft
    }

    /// Where the label `name` points.
    fn find_label(&self, name: &[char]) -> (offset: Option<usize>)
        requires
            self.wf(),
        ensures
            offset is Some <==> label_offset(self.label_models(), name@) is Some,
            offset matches Some(at) ==> {
                &&& label_offset(self.label_models(), name@) == Some(at as nat)
                &&& at <= MAX_PROGRAM_LEN
            },
            offset is Some <==> defined(self.label_models(), name@),
    {
        let ghost models = self.label_models();
        let mut i: usize = 0;
        assert(models.skip(0) =~= models);
        while i < self.labels.len()
            invariant
                self.wf(),
                i <= self.labels.len(),
                models == self.label_models(),
                label_offset(models, name@) == label_offset(models.skip(i as int), name@),
                forall|k: int| 0 <= k < i ==> (#[trigger] models[k]).0 != name@,
            decreases self.labels.len() - i,
        {
            assert(models[i as int].0 == self.labels@[i as int].0@);
            assert(models.skip(i as int).drop_first() =~= models.skip(i + 1));
            if same(self.labels[i].0.as_slice(), name) {
                return Some(self.labels[i].1);
            }
            i += 1;
        }
        None
    }

    /// Reads the statement `text`, found in line `line`.
    fn read_statement(&mut self, line: usize, text: &[char]) -> (result: Option<
        Result<(), AsmError>,
    >)
        requires
            old(self).wf(),
        ensures
            match read_statement(old(self).model(), line as nat, text@) {
                None => result is None,
                Some(Ok(listing)) => {
                    &&& result == Some(Ok::<(), AsmError>(()))
                    &&& final(self).wf()
                    &&& final(self).model() == listing
                },
                Some(Err(diagnostic)) => {
                    &&& result matches Some(Err(error))
                    &&& error@ == diagnostic
                },
            },
    {
        if text.len() == 0 {
            return Some(Ok(()));
        }
        let t: Vec<&[char]> = split_words(text);
        assert(texts(t@).len() == t@.len());
        if t.len() == 0 {
            return None;
        }
        let (opcode, imm, operand): (u8, Imm, ParsedOperand) = match parse_statement(&t) {
            Ok(parsed) => parsed,
            Err(text) => return Some(Err(err(line, text))),
        };
        let size: usize = self.size + 1 + imm.size();
        if size > MAX_PROGRAM_LEN {
            return Some(
                Err(
                    err(
                        line,
                        "program exceeds the 255-byte limit imposed by the configuration framing".to_owned(),
                    ),
                ),
            );
        }
        let parsed = Parsed { line, offset: self.size, opcode, imm, operand };
        self.insns.push(parsed);
        self.size = size;
        assert(self.insn_models() =~= old(self).insn_models().push(parsed.model()));
        Some(Ok(()))
    }

    /// Reads line `line` of the source.
    fn read_line(&mut self, line: usize, raw: &[char]) -> (result: Option<Result<(), AsmError>>)
        requires
            old(self).wf(),
        ensures
            match read_line(old(self).model(), line as nat, raw@) {
                None => result is None,
                Some(Ok(listing)) => {
                    &&& result == Some(Ok::<(), AsmError>(()))
                    &&& final(self).wf()
                    &&& final(self).model() == listing
                },
                Some(Err(diagnostic)) => {
                    &&& result matches Some(Err(error))
                    &&& error@ == diagnostic
                },
            },
    {
        // Everything from a `;` to the end of the line is a comment.
        let semicolon: usize = position(raw, ';');
        assert(raw@.take(semicolon as int) =~= raw@.subrange(0, semicolon as int));
        let text: &[char] = trimmed(slice_subrange(raw, 0, semicolon));
        // A label is `name:`, either alone or preceding an instruction.
        let colon: usize = position(text, ':');
        if colon < text.len() {
            assert(text@.take(colon as int) =~= text@.subrange(0, colon as int));
            let name: &[char] = trimmed(slice_subrange(text, 0, colon));
            if !is_label_name(name) {
                return Some(Err(err(line, message("`", name, "` is not a valid label name"))));
            }
            if self.find_label(name).is_some() {
                return Some(
                    Err(err(line, message("label `", name, "` is defined more than once"))),
                );
            }
            let mut owned: Vec<char> = Vec::new();
            owned.extend_from_slice(name);
            assert(owned@ =~= name@);
            let at: usize = self.size;
            self.labels.push((owned, at));
            assert(self.label_models() =~= old(self).label_models().push((name@, at as nat)));
            assert(text@.skip(colon + 1) =~= text@.subrange(colon + 1, text@.len() as int));
            self.read_statement(line, trimmed(slice_subrange(text, colon + 1, text.len())))
        } else {
            self.read_statement(line, text)
        }
    }

    /// Appends the bytes of a jump by `displacement`.
    fn encode_jump(&self, parsed: &Parsed, displacement: i64, bytes: &mut Vec<u8>) -> (result: Result<
        (),
        AsmError,
    >)
        requires
            self.wf(),
            parsed.offset <= MAX_PROGRAM_LEN,
            i16::MIN <= displacement <= i16::MAX,
        ensures
            match encode_jump(self.model(), parsed.model(), displacement as int) {
                Ok(encoded) => {
                    &&& result is Ok
                    &&& final(bytes)@ == old(bytes)@ + encoded
                },
                Err(diagnostic) => result is Err && result->Err_0@ == diagnostic,
            },
    {
        let destination: i64 = parsed.offset as i64 + 3 + displacement;
        if destination < 0 || destination >= self.size as i64 {
            let mut text: String = about(
                "jump destination ",
                destination,
                " falls outside the ",
            );
            push_decimal(&mut text, self.size as u64);
            text.append("-byte program");
            return Err(err(parsed.line, text));
        }
        bytes.push(parsed.opcode);
        let pattern: u64 = if displacement >= 0 {
            displacement as u64
        } else {
            (displacement + 0x1_0000) as u64
        };
        push_le(bytes, pattern, 2);
        assert(bytes@ =~= old(bytes)@ + (seq![parsed.opcode] + le_bytes(
            pattern_16(displacement as int) as nat,
            2,
        )));
        Ok(())
    }

    /// Appends the bytes of one instruction.
    fn encode(&self, parsed: &Parsed, bytes: &mut Vec<u8>) -> (result: Result<(), AsmError>)
        requires
            self.wf(),
            parsed.wf(),
        ensures
            match encode(self.model(), parsed.model()) {
                Ok(encoded) => {
                    &&& result is Ok
                    &&& final(bytes)@ == old(bytes)@ + encoded
                },
                Err(diagnostic) => result is Err && result->Err_0@ == diagnostic,
            },
    {
        match &parsed.operand {
            ParsedOperand::Absent => {
                bytes.push(parsed.opcode);
                assert(bytes@ =~= old(bytes)@ + seq![parsed.opcode]);
                Ok(())
            },
            ParsedOperand::Number(value) => {
                let width: usize = parsed.imm.size();
                bytes.push(parsed.opcode);
                push_le(bytes, *value, width);
                assert(bytes@ =~= old(bytes)@ + (seq![parsed.opcode] + le_bytes(
                    *value as nat,
                    width as nat,
                )));
                Ok(())
            },
            ParsedOperand::Pair(key, count) => {
                bytes.push(parsed.opcode);
                bytes.push(*key);
                bytes.push(*count);
                assert(bytes@ =~= old(bytes)@ + seq![parsed.opcode, *key, *count]);
                Ok(())
            },
            ParsedOperand::Displacement(displacement) => self.encode_jump(
                parsed,
                *displacement as i64,
                bytes,
            ),
            ParsedOperand::Label(name) => match self.find_label(name.as_slice()) {
                Some(target) => {
                    // Displacements are relative to the address of the following
                    // instruction.
                    let displacement: i64 = target as i64 - (parsed.offset as i64 + 3);
                    self.encode_jump(parsed, displacement, bytes)
                },
                None => Err(err(parsed.line, message("undefined label `", name.as_slice(), "`"))),
            },
        }
    }

    /// The bytes of the whole program.
    fn finish(&self) -> (result: Result<Vec<u8>, AsmError>)
        requires
            self.wf(),
        ensures
            match encode_from(self.model(), 0) {
                Ok(bytes) => result is Ok && result->Ok_0@ == bytes,
                Err(diagnostic) => result is Err && result->Err_0@ == diagnostic,
            },
    {
        let ghost listing = self.model();
        let mut bytes: Vec<u8> = Vec::new();
        let mut k: usize = 0;
        proof {
            if let Ok(rest) = encode_from(listing, 0) {
                assert(bytes@ + rest =~= rest);
            }
        }
        while k < self.insns.len()
            invariant
                self.wf(),
                listing == self.model(),
                k <= self.insns.len(),
                match encode_from(listing, k as int) {
                    Ok(rest) => encode_from(listing, 0) == Ok::<Seq<u8>, Diagnostic>(bytes@ + rest),
                    Err(diagnostic) => encode_from(listing, 0) == Err::<Seq<u8>, Diagnostic>(
                        diagnostic,
                    ),
                },
            decreases self.insns.len() - k,
        {
            let ghost before = bytes@;
            assert(listing.insns[k as int] == self.insns@[k as int].model());
            match self.encode(&self.insns[k], &mut bytes) {
                Ok(()) => {
                    proof {
                        let encoded = encode(listing, listing.insns[k as int])->Ok_0;
                        if let Ok(rest) = encode_from(listing, k + 1) {
                            assert(bytes@ + rest =~= before + (encoded + rest));
                        }
                    }
                },
                Err(error) => return Err(error),
            }
            k += 1;
        }
        assert(bytes@ + Seq::<u8>::empty() =~= bytes@);
        Ok(bytes)
    }
}

/// Appends the `width` low bytes of `value`, least significant byte first.
fn push_le(bytes: &mut Vec<u8>, value: u64, width: usize)
    ensures
        final(bytes)@ == old(bytes)@ + le_bytes(value as nat, width as nat),
    decreases width,
{
    if width == 0 {
        assert(bytes@ =~= old(bytes)@ + le_bytes(value as nat, 0));
        return;
    }
    bytes.push((value % 256) as u8);
    push_le(bytes, value / 256, width - 1);
    assert(bytes@ =~= old(bytes)@ + le_bytes(value as nat, width as nat));
}

/// `result` is the bytecode or the diagnostic that `expected` says.
pub open spec fn is_assembly_result(
    result: Result<Vec<u8>, AsmError>,
    expected: Result<Seq<u8>, Diagnostic>,
) -> bool {
    match expected {
        Ok(bytes) => result is Ok && result->Ok_0@ == bytes,
        Err(diagnostic) => result is Err && result->Err_0@ == diagnostic,
    }
}

/// Assembles source text into bytecode. `Err` of a line number where a statement
/// made of commas only comes before any mistake: that of its line.
fn assemble_lines(source: &str) -> (result: Result<Result<Vec<u8>, AsmError>, usize>)
    ensures
        match assembly(source@) {
            Some(expected) => result is Ok && is_assembly_result(result->Ok_0, expected),
            None => {
                &&& result matches Err(line)
                &&& commas_line(blank(), 1, source@) == Some(line as nat)
            },
        },
{
    let text: Vec<char> = characters(source);
    let mut draft = Draft::new();
    let mut at: usize = 0;
    let mut index: usize = 0;
    assert(text@.skip(0) =~= text@);
    while at < text.len()
        invariant
            draft.wf(),
            index <= at <= text.len(),
            read_lines(blank(), 1, text@) == read_lines(
                draft.model(),
                (index + 1) as nat,
                text@.skip(at as int),
            ),
            commas_line(blank(), 1, text@) == commas_line(
                draft.model(),
                (index + 1) as nat,
                text@.skip(at as int),
            ),
            text@ == source@,
        decreases text.len() - at,
    {
        let line: usize = index + 1;
        let rest: &[char] = slice_subrange(text.as_slice(), at, text.len());
        assert(rest@ =~= text@.skip(at as int));
        let end: usize = position(rest, '\n');
        let ended: bool = end < rest.len();
        let stop: usize = if ended && end > 0 && rest[end - 1] == '\r' {
            end - 1
        } else {
            end
        };
        let raw: &[char] = slice_subrange(rest, 0, stop);
        assert(raw@ =~= first_line(rest@));
        match draft.read_line(line, raw) {
            Some(Ok(())) => {},
            Some(Err(error)) => return Ok(Err(error)),
            None => return Err(line),
        }
        index += 1;
        at = if ended {
            at + end + 1
        } else {
            text.len()
        };
        assert(other_lines(rest@) =~= text@.skip(at as int));
    }
    assert(text@.skip(at as int) =~= Seq::empty());
    Ok(draft.finish())
}

/// Assembles source text into bytecode. `None` for a source in which a statement
/// made of commas only comes before any mistake.
pub fn try_assemble(source: &str) -> (result: Option<Result<Vec<u8>, AsmError>>)
    ensures
        result is Some <==> assembly(source@) is Some,
        result matches Some(r) ==> is_assembly_result(r, assembly(source@)->0),
        assembly(source@) matches Some(expected) ==> match expected {
            Ok(bytes) => result->0 is Ok && result->0->Ok_0@ == bytes,
            Err(diagnostic) => {
                &&& result->0 matches Err(error)
                &&& error.line == diagnostic.line
                &&& error.message@ == diagnostic.message
            },
        },
{
    match assemble_lines(source) {
        Ok(result) => Some(result),
        Err(_) => None,
    }
}

/// Assembles source text into bytecode. The first mistake in it earns a diagnostic
/// that names its line.
pub fn assemble(source: &str) -> (result: Result<Vec<u8>, AsmError>)
    ensures
        is_assembly_result(result, diagnosed(source@)),
        match diagnosed(source@) {
            Ok(bytes) => result is Ok && result->Ok_0@ == bytes,
            Err(diagnostic) => {
                &&& result matches Err(error)
                &&& error.line == diagnostic.line
                &&& error.message@ == diagnostic.message
            },
        },
        assembly(source@) matches Some(expected) ==> is_assembly_result(result, expected),
        assembly(source@) is None ==> {
            &&& result matches Err(error)
            &&& commas_line(blank(), 1, source@) == Some(error.line as nat)
        },
{
    match assemble_lines(source) {
        Ok(result) => result,
        Err(line) => Err(err(line, "a statement needs a mnemonic".to_owned())),
    }
}

} // verus!
