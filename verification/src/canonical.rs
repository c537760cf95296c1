//! What canonical text is made of.

use vstd::prelude::*;

use crate::disassembly::{
    destination, disassembly, displacement, fills, imm_at, immediate, insn_text, label_name,
    label_number, label_text, lemma_starts_fill, operand_text, starts_from, text_from,
};
use crate::encoding::little_endian;
use crate::instruction::{description, Imm};
use crate::mnemonic::{is_mnemonic_char, mnemonics_are_words};
use crate::number::{decimal, decimal_reads_back, signed_decimal};

verus! {

/// The characters of canonical text: uppercase letters, digits, the underscore, a
/// space or a comma between operands, the minus sign of a displacement, the colon
/// of a label, and the line feed. No lowercase letter, no semicolon that would
/// begin a comment, no carriage return.
pub open spec fn is_canonical_char(c: char) -> bool {
    is_mnemonic_char(c) || c == ' ' || c == ',' || c == '-' || c == ':' || c == '\n'
}

pub open spec fn all_canonical(text: Seq<char>) -> bool {
    forall|i: int| 0 <= i < text.len() ==> is_canonical_char(#[trigger] text[i])
}

proof fn lemma_joined(a: Seq<char>, b: Seq<char>)
    requires
        all_canonical(a),
        all_canonical(b),
    ensures
        all_canonical(a + b),
{
}

proof fn lemma_numbers(n: nat, d: int)
    ensures
        all_canonical(decimal(n)),
        all_canonical(signed_decimal(d)),
        all_canonical(label_name(n)),
{
    reveal_strlit("L");
    decimal_reads_back(n);
    if d < 0 {
        decimal_reads_back((-d) as nat);
    } else {
        decimal_reads_back(d as nat);
    }
}

proof fn lemma_operand_text(bytes: Seq<u8>, starts: Seq<int>, at: int)
    ensures
        all_canonical(operand_text(bytes, starts, at)),
{
    reveal_strlit(" ");
    reveal_strlit(", ");
    let imm = immediate(bytes, at);
    let target = destination(bytes, at);
    match imm_at(bytes, at) {
        Imm::Absent => {},
        Imm::U8Pair => {
            let key = decimal(imm[0] as nat);
            lemma_numbers(imm[0] as nat, 0);
            lemma_numbers(imm[1] as nat, 0);
            lemma_joined(" "@, key);
            lemma_joined(" "@ + key, ", "@);
            lemma_joined(" "@ + key + ", "@, decimal(imm[1] as nat));
        },
        Imm::Rel16 => {
            lemma_numbers(label_number(bytes, starts, target), displacement(bytes, at));
        },
        _ => {
            lemma_numbers(little_endian(imm), 0);
        },
    }
}

/// The lines from instruction number `k` on are made of these characters, and the
/// last of them is ended by a line feed.
proof fn lemma_text_from(bytes: Seq<u8>, starts: Seq<int>, k: int)
    requires
        fills(bytes, 0, starts),
        0 <= k,
    ensures
        all_canonical(text_from(bytes, starts, k)),
        k < starts.len() ==> text_from(bytes, starts, k).len() > 0 && text_from(
            bytes,
            starts,
            k,
        ).last() == '\n',
    decreases starts.len() - k,
{
    if k < starts.len() {
        reveal_strlit("\n");
        reveal_strlit(":\n");
        let at = starts[k];
        let label = label_text(bytes, starts, at);
        let line = insn_text(bytes, starts, at);
        lemma_text_from(bytes, starts, k + 1);
        mnemonics_are_words(bytes[at]);
        lemma_operand_text(bytes, starts, at);
        lemma_joined(description(bytes[at])->0.mnemonic@, operand_text(bytes, starts, at));
        lemma_numbers(label_number(bytes, starts, at), 0);
        lemma_joined(label, line);
        lemma_joined(label + line, "\n"@);
        lemma_joined(label + line + "\n"@, text_from(bytes, starts, k + 1));
    }
}

/// Canonical text is made of canonical characters only, and every line of it is
/// ended by a line feed. Only an empty program has an empty text.
pub proof fn canonical_text_is_plain(bytes: Seq<u8>)
    ensures
        disassembly(bytes) matches Ok(text) ==> {
            &&& all_canonical(text)
            &&& text.len() == 0 <==> bytes.len() == 0
            &&& text.len() > 0 ==> text.last() == '\n'
        },
{
    if let Ok(starts) = starts_from(bytes, 0) {
        lemma_starts_fill(bytes, 0);
        lemma_text_from(bytes, starts, 0);
    }
}

} // verus!
