//! Facts about the mnemonics as text.

use vstd::prelude::*;

use crate::instruction::description;

use crate::text::{same_ignoring_case, upper};

verus! {

/// An uppercase ASCII letter, a digit or an underscore.
pub open spec fn is_mnemonic_char(c: char) -> bool {
    'A' <= c <= 'Z' || '0' <= c <= '9' || c == '_'
}

/// A mnemonic begins with an uppercase letter and goes on with uppercase letters,
/// digits and underscores. None of them is `PUSH`.
pub proof fn mnemonics_are_words(opcode: u8)
    requires
        description(opcode) is Some,
    ensures
        ({
            let m = description(opcode)->0.mnemonic@;
            &&& 2 <= m.len() <= 8
            &&& 'A' <= m[0] <= 'Z'
            &&& forall|i: int| 0 <= i < m.len() ==> is_mnemonic_char(#[trigger] m[i])
            &&& !same_ignoring_case("PUSH"@, m)
        }),
{
    reveal_strlit("PUSH");
    reveal_strlit("RET");
    reveal_strlit("JMP");
    reveal_strlit("JMPZ");
    reveal_strlit("JMPNZ");
    reveal_strlit("PUSH_U8");
    reveal_strlit("PUSH_U16");
    reveal_strlit("PUSH_U32");
    reveal_strlit("PUSH_U64");
    reveal_strlit("POP");
    reveal_strlit("DUP");
    reveal_strlit("SWAP");
    reveal_strlit("LOAD");
    reveal_strlit("STORE");
    reveal_strlit("ARG");
    reveal_strlit("ADD");
    reveal_strlit("SUB");
    reveal_strlit("MUL");
    reveal_strlit("DIV");
    reveal_strlit("MOD");
    reveal_strlit("MIN");
    reveal_strlit("MAX");
    reveal_strlit("AND");
    reveal_strlit("OR");
    reveal_strlit("XOR");
    reveal_strlit("NOT");
    reveal_strlit("SHL");
    reveal_strlit("SHR");
    reveal_strlit("EQ");
    reveal_strlit("NE");
    reveal_strlit("LT");
    reveal_strlit("LTE");
    reveal_strlit("GT");
    reveal_strlit("GTE");
    reveal_strlit("GETPARAM");
    let m = description(opcode)->0.mnemonic@;
    if m.len() == 4 {
        assert(upper("PUSH"@[3]) != upper(m[3]) || upper("PUSH"@[0]) != upper(m[0]));
    }
}

/// No two opcodes have the same mnemonic, in whatever case it is written.
pub proof fn mnemonics_are_distinct(a: u8, b: u8, word: Seq<char>)
    requires
        description(a) is Some,
        description(b) is Some,
        same_ignoring_case(description(a)->0.mnemonic@, word),
        same_ignoring_case(description(b)->0.mnemonic@, word),
    ensures
        a == b,
{
    reveal_strlit("RET");
    reveal_strlit("JMP");
    reveal_strlit("JMPZ");
    reveal_strlit("JMPNZ");
    reveal_strlit("PUSH_U8");
    reveal_strlit("PUSH_U16");
    reveal_strlit("PUSH_U32");
    reveal_strlit("PUSH_U64");
    reveal_strlit("POP");
    reveal_strlit("DUP");
    reveal_strlit("SWAP");
    reveal_strlit("LOAD");
    reveal_strlit("STORE");
    reveal_strlit("ARG");
    reveal_strlit("ADD");
    reveal_strlit("SUB");
    reveal_strlit("MUL");
    reveal_strlit("DIV");
    reveal_strlit("MOD");
    reveal_strlit("MIN");
    reveal_strlit("MAX");
    reveal_strlit("AND");
    reveal_strlit("OR");
    reveal_strlit("XOR");
    reveal_strlit("NOT");
    reveal_strlit("SHL");
    reveal_strlit("SHR");
    reveal_strlit("EQ");
    reveal_strlit("NE");
    reveal_strlit("LT");
    reveal_strlit("LTE");
    reveal_strlit("GT");
    reveal_strlit("GTE");
    reveal_strlit("GETPARAM");
    let m = description(a)->0.mnemonic@;
    let n = description(b)->0.mnemonic@;
    assert forall|i: int| 0 <= i < m.len() implies upper(#[trigger] m[i]) == upper(n[i]) by {
        assert(upper(n[i]) == upper(word[i]));
    }
    assert(forall|c: char| is_mnemonic_char(c) ==> #[trigger] upper(c) == c);
    mnemonics_are_words(a);
    mnemonics_are_words(b);
    assert(m =~= n);
    assert(m.len() == n.len());
    assert(m[0] == n[0] && m[1] == n[1] && m[2] == n[2] && m[3] == n[3]);
    assert(m[4] == n[4] && m[5] == n[5] && m[6] == n[6] && m[7] == n[7]);
}

} // verus!
