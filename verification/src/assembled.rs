//! What holds of every program that the assembler makes.

use vstd::prelude::*;

use crate::assembly::{
    assembly, blank, code, commas_line, diagnosed, encode, encode_from, label_offset, length,
    lemma_other_lines_shorter, names, read_line, read_lines, read_statement, statement, Diagnostic,
    Insn, Listing, Operand, Placed, MAX_PROGRAM_LEN,
};
use crate::disassembly::{destination, disassembly, imm_at, immediate, next_at, starts_from, Fault};
use crate::effects::immediate_bytes;
use crate::encoding::{
    byte_limit, le_bytes, lemma_byte_limits, little_endian, little_endian_of_le_bytes, pattern_16,
    twos_complement_16,
};
use crate::instruction::description;
use crate::roundtrip::{assembling_a_disassembly_gives_the_bytes_back, jumps_stay_inside};
use crate::text::{find, first_line, other_lines, trim, words};

verus! {

/// The opcode is allocated, and the operand is of its kind and fits.
spec fn is_sound_insn(insn: Insn) -> bool {
    description(insn.opcode) matches Some(info) && match insn.operand {
        Operand::Absent => info.imm is Absent,
        Operand::Number(value) => {
            &&& info.imm is U8 || info.imm is U16 || info.imm is U32 || info.imm is U64
            &&& value < byte_limit(info.imm.width())
        },
        Operand::Pair(key, count) => info.imm is U8Pair && key <= u8::MAX && count <= u8::MAX,
        Operand::Label(_) => info.imm is Rel16,
        Operand::Displacement(d) => info.imm is Rel16 && i16::MIN <= d <= i16::MAX,
    }
}

/// Offset of instruction number `k`, or the size of the program behind the last.
spec fn offset_of(listing: Listing, k: int) -> nat {
    if k < listing.insns.len() {
        listing.insns[k].offset
    } else {
        listing.size
    }
}

/// The instructions are sound and lie one behind the other, and no label points
/// behind them.
spec fn is_sound(listing: Listing) -> bool {
    &&& listing.size <= MAX_PROGRAM_LEN
    &&& offset_of(listing, 0) == 0
    &&& forall|i: int|
        0 <= i < listing.insns.len() ==> {
            &&& is_sound_insn((#[trigger] listing.insns[i]).insn)
            &&& end_of(listing.insns[i]) <= listing.size
        }
    &&& forall|i: int, j: int|
        0 <= i && j == i + 1 && j < listing.insns.len() ==> (#[trigger] listing.insns[j]).offset
            == end_of(#[trigger] listing.insns[i])
    &&& listing.insns.len() > 0 ==> end_of(listing.insns.last()) == listing.size
    &&& forall|i: int|
        0 <= i < listing.labels.len() ==> (#[trigger] listing.labels[i]).1 <= MAX_PROGRAM_LEN
}

/// The offset directly behind an instruction.
spec fn end_of(placed: Placed) -> nat {
    placed.offset + length(placed.insn.opcode)
}

proof fn lemma_next_offset(listing: Listing, k: int)
    requires
        is_sound(listing),
        0 <= k < listing.insns.len(),
    ensures
        offset_of(listing, k + 1) == end_of(listing.insns[k]) <= listing.size,
        is_sound_insn(listing.insns[k].insn),
{
    if k + 1 < listing.insns.len() {
        assert(listing.insns[k + 1].offset == end_of(listing.insns[k]));
    } else {
        assert(listing.insns.last() == listing.insns[k]);
    }
}

proof fn lemma_statement_is_sound(t: Seq<Seq<char>>)
    ensures
        statement(t) matches Ok(insn) ==> is_sound_insn(insn),
{
    lemma_byte_limits();
    if let Ok(insn) = statement(t) {
        let opcode = insn.opcode;
        assert(description(opcode) is Some) by {
            if !crate::text::same_ignoring_case("PUSH"@, t[0]) {
                assert(names(opcode, t[0]));
            }
        }
    }
}

proof fn lemma_read_statement_is_sound(so_far: Listing, line: nat, text: Seq<char>)
    requires
        is_sound(so_far),
    ensures
        read_statement(so_far, line, text) matches Some(Ok(listing)) ==> is_sound(listing),
{
    lemma_statement_is_sound(words(text));
    if let Some(Ok(listing)) = read_statement(so_far, line, text) {
        if text.len() > 0 {
            let n = so_far.insns.len() as int;
            assert forall|i: int| 0 <= i < listing.insns.len() implies {
                &&& is_sound_insn((#[trigger] listing.insns[i]).insn)
                &&& end_of(listing.insns[i]) <= listing.size
            } by {
                if i < n {
                    assert(listing.insns[i] == so_far.insns[i]);
                }
            }
            assert forall|i: int, j: int|
                0 <= i && j == i + 1 && j < listing.insns.len() implies (#[trigger] listing.insns[j]).offset
                == end_of(#[trigger] listing.insns[i]) by {
                assert(listing.insns[i] == so_far.insns[i]);
                if j < n {
                    assert(listing.insns[j] == so_far.insns[j]);
                } else {
                    assert(so_far.insns.last() == so_far.insns[i]);
                }
            }
            if n > 0 {
                assert(listing.insns[0] == so_far.insns[0]);
            }
        }
    }
}

proof fn lemma_read_line_is_sound(so_far: Listing, line: nat, raw: Seq<char>)
    requires
        is_sound(so_far),
    ensures
        read_line(so_far, line, raw) matches Some(Ok(listing)) ==> is_sound(listing),
{
    let text = code(raw);
    let colon = find(text, ':');
    lemma_read_statement_is_sound(so_far, line, text);
    let name = trim(text.take(colon));
    let with_label = Listing { labels: so_far.labels.push((name, so_far.size)), ..so_far };
    assert(is_sound(with_label));
    lemma_read_statement_is_sound(with_label, line, trim(text.skip(colon + 1)));
}

proof fn lemma_read_lines_is_sound(so_far: Listing, line: nat, source: Seq<char>)
    requires
        is_sound(so_far),
    ensures
        read_lines(so_far, line, source) matches Some(Ok(listing)) ==> is_sound(listing),
    decreases source.len(),
{
    if source.len() > 0 {
        lemma_other_lines_shorter(source);
        lemma_read_line_is_sound(so_far, line, first_line(source));
        if let Some(Ok(listing)) = read_line(so_far, line, first_line(source)) {
            lemma_read_lines_is_sound(listing, line + 1, other_lines(source));
        }
    }
}

proof fn lemma_label_offset_bound(labels: Seq<(Seq<char>, nat)>, name: Seq<char>)
    requires
        forall|i: int| 0 <= i < labels.len() ==> (#[trigger] labels[i]).1 <= MAX_PROGRAM_LEN,
    ensures
        label_offset(labels, name) matches Some(at) ==> at <= MAX_PROGRAM_LEN,
    decreases labels.len(),
{
    if labels.len() > 0 {
        lemma_label_offset_bound(labels.drop_first(), name);
    }
}

/// The displacement with which the jump `placed` is encoded.
spec fn encoded_displacement(listing: Listing, placed: Placed) -> int {
    match placed.insn.operand {
        Operand::Displacement(d) => d,
        Operand::Label(name) => label_offset(listing.labels, name)->0 - (placed.offset + 3),
        _ => 0,
    }
}

/// The encoding of a sound instruction has its length and begins with its opcode,
/// and a jump reads back as leading into the program.
proof fn lemma_encoding(listing: Listing, k: int)
    requires
        is_sound(listing),
        0 <= k < listing.insns.len(),
    ensures
        encode(listing, listing.insns[k]) matches Ok(bytes) ==> {
            let placed = listing.insns[k];
            &&& bytes.len() == length(placed.insn.opcode)
            &&& bytes[0] == placed.insn.opcode
            &&& description(placed.insn.opcode)->0.imm is Rel16 ==> {
                let d = twos_complement_16(little_endian(bytes.subrange(1, 3)) as int);
                0 <= placed.offset + 3 + d < listing.size
            }
        },
{
    let placed = listing.insns[k];
    lemma_byte_limits();
    if let Ok(bytes) = encode(listing, placed) {
        match placed.insn.operand {
            Operand::Number(value) => {
                little_endian_of_le_bytes(value, description(placed.insn.opcode)->0.imm.width());
            },
            Operand::Displacement(_) | Operand::Label(_) => {
                if let Operand::Label(name) = placed.insn.operand {
                    lemma_label_offset_bound(listing.labels, name);
                }
                let d = encoded_displacement(listing, placed);
                assert(i16::MIN <= d <= i16::MAX);
                let pattern = pattern_16(d) as nat;
                little_endian_of_le_bytes(pattern, 2);
                assert(bytes.subrange(1, 3) =~= le_bytes(pattern, 2));
                assert(twos_complement_16(pattern as int) == d);
            },
            _ => {},
        }
    }
}

/// The bytes from instruction number `k` on reach to the end of the program.
proof fn lemma_tail_length(listing: Listing, k: int)
    requires
        is_sound(listing),
        0 <= k <= listing.insns.len(),
    ensures
        encode_from(listing, k) matches Ok(tail) ==> tail.len() == listing.size - offset_of(
            listing,
            k,
        ),
    decreases listing.insns.len() - k,
{
    if k < listing.insns.len() {
        lemma_encoding(listing, k);
        lemma_tail_length(listing, k + 1);
        lemma_next_offset(listing, k);
    }
}

/// Each instruction is found at its offset.
proof fn lemma_tails(listing: Listing, k: int)
    requires
        is_sound(listing),
        encode_from(listing, 0) is Ok,
        0 <= k <= listing.insns.len(),
    ensures
        encode_from(listing, k) == Ok::<Seq<u8>, Diagnostic>(
            encode_from(listing, 0)->Ok_0.skip(offset_of(listing, k) as int),
        ),
        offset_of(listing, k) <= listing.size,
    decreases k,
{
    let bytes = encode_from(listing, 0)->Ok_0;
    lemma_tail_length(listing, 0);
    if k == 0 {
        assert(bytes.skip(0) =~= bytes);
    } else {
        lemma_tails(listing, k - 1);
        lemma_tail_length(listing, k - 1);
        lemma_tail_length(listing, k);
        lemma_encoding(listing, k - 1);
        lemma_next_offset(listing, k - 1);
        let at = offset_of(listing, k - 1) as int;
        assert(listing.insns[k - 1].offset == at);
        let next = offset_of(listing, k) as int;
        let first = encode(listing, listing.insns[k - 1])->Ok_0;
        let tail = encode_from(listing, k)->Ok_0;
        assert(bytes.skip(at) == first + tail);
        assert(next == at + first.len());
        assert(bytes.skip(next) =~= bytes.skip(at).skip(first.len() as int));
        assert((first + tail).skip(first.len() as int) =~= tail);
    }
}

/// The offsets of the instructions from number `k` on.
spec fn offsets_from(listing: Listing, k: int) -> Seq<int> {
    Seq::new(
        (listing.insns.len() - k) as nat,
        |i: int| listing.insns[k + i].offset as int,
    )
}

/// The instruction at its offset in the assembled program.
proof fn lemma_insn_in_place(listing: Listing, k: int)
    requires
        is_sound(listing),
        encode_from(listing, 0) is Ok,
        0 <= k < listing.insns.len(),
    ensures
        ({
            let bytes = encode_from(listing, 0)->Ok_0;
            let at = listing.insns[k].offset as int;
            &&& 0 <= at < bytes.len()
            &&& bytes.len() == listing.size
            &&& bytes[at] == listing.insns[k].insn.opcode
            &&& description(bytes[at]) is Some
            &&& next_at(bytes, at) == offset_of(listing, k + 1) <= bytes.len()
            &&& imm_at(bytes, at) is Rel16 ==> 0 <= destination(bytes, at) < bytes.len()
        }),
{
    let bytes = encode_from(listing, 0)->Ok_0;
    let at = listing.insns[k].offset as int;
    lemma_tail_length(listing, 0);
    lemma_tails(listing, k);
    lemma_tails(listing, k + 1);
    lemma_tail_length(listing, k + 1);
    lemma_encoding(listing, k);
    lemma_next_offset(listing, k);
    let first = encode(listing, listing.insns[k])->Ok_0;
    let tail = encode_from(listing, k + 1)->Ok_0;
    assert(bytes.skip(at) == first + tail);
    assert(bytes[at] == bytes.skip(at)[0]);
    assert((first + tail)[0] == first[0]);
    if imm_at(bytes, at) is Rel16 {
        assert(immediate(bytes, at) =~= bytes.skip(at).subrange(1, 3));
        assert(bytes.skip(at).subrange(1, 3) =~= first.subrange(1, 3));
    }
}

proof fn lemma_decodes(listing: Listing, k: int)
    requires
        is_sound(listing),
        encode_from(listing, 0) is Ok,
        0 <= k <= listing.insns.len(),
    ensures
        starts_from(encode_from(listing, 0)->Ok_0, offset_of(listing, k) as int) == Ok::<
            Seq<int>,
            Fault,
        >(offsets_from(listing, k)),
    decreases listing.insns.len() - k,
{
    let bytes = encode_from(listing, 0)->Ok_0;
    lemma_tail_length(listing, 0);
    if k < listing.insns.len() {
        lemma_insn_in_place(listing, k);
        lemma_decodes(listing, k + 1);
        assert(offsets_from(listing, k) =~= seq![listing.insns[k].offset as int] + offsets_from(
            listing,
            k + 1,
        ));
    } else {
        assert(offsets_from(listing, k) =~= Seq::empty());
    }
}

/// Every program that the assembler makes is within the length limit, decodes, and
/// jumps inside itself only. So it comes back unchanged from a disassembly and a
/// second assembly.
pub proof fn assembled_programs_are_sound(source: Seq<char>)
    ensures
        assembly(source) matches Some(Ok(bytes)) ==> {
            &&& bytes.len() <= MAX_PROGRAM_LEN
            &&& disassembly(bytes) is Ok
            &&& jumps_stay_inside(bytes)
            &&& assembly(disassembly(bytes)->Ok_0) == Some(Ok::<Seq<u8>, Diagnostic>(bytes))
        },
{
    if let Some(Ok(bytes)) = assembly(source) {
        let listing = read_lines(blank(), 1, source)->0->Ok_0;
        lemma_read_lines_is_sound(blank(), 1, source);
        lemma_tail_length(listing, 0);
        lemma_decodes(listing, 0);
        let starts = offsets_from(listing, 0);
        assert forall|i: int|
            0 <= i < starts.len() && imm_at(bytes, #[trigger] starts[i]) is Rel16 implies 0
            <= destination(bytes, starts[i]) < bytes.len() by {
            lemma_insn_in_place(listing, i);
        }
        assembling_a_disassembly_gives_the_bytes_back(bytes);
    }
}

/// The round trip is exact for the programs that fit and that jump inside
/// themselves, and for no others.
pub proof fn exactly_these_programs_round_trip(bytes: Seq<u8>)
    requires
        disassembly(bytes) is Ok,
    ensures
        assembly(disassembly(bytes)->Ok_0) == Some(Ok::<Seq<u8>, Diagnostic>(bytes))
            <==> bytes.len() <= MAX_PROGRAM_LEN && jumps_stay_inside(bytes),
{
    assembled_programs_are_sound(disassembly(bytes)->Ok_0);
    if bytes.len() <= MAX_PROGRAM_LEN && jumps_stay_inside(bytes) {
        assembling_a_disassembly_gives_the_bytes_back(bytes);
    }
}

/// An assembled program is its instructions, in the order in which they were read and
/// one directly behind the other, each with the bytes it is encoded to.
pub proof fn each_instruction_is_in_its_place(source: Seq<char>, k: int)
    requires
        assembly(source) matches Some(Ok(_)),
    ensures
        ({
            let bytes = assembly(source)->0->Ok_0;
            let listing = read_lines(blank(), 1, source)->0->Ok_0;
            let insns = listing.insns;
            &&& read_lines(blank(), 1, source) matches Some(Ok(_))
            &&& bytes.len() == listing.size
            &&& insns.len() == 0 ==> bytes.len() == 0
            &&& 0 <= k < insns.len() ==> {
                let at = insns[k].offset as int;
                let end = at + 1 + immediate_bytes(insns[k].insn.opcode);
                &&& k == 0 ==> at == 0
                &&& end == if k + 1 < insns.len() {
                    insns[k + 1].offset
                } else {
                    bytes.len()
                }
                &&& end <= bytes.len()
                &&& encode(listing, insns[k]) == Ok::<Seq<u8>, Diagnostic>(bytes.subrange(at, end))
            }
        }),
{
    let bytes = assembly(source)->0->Ok_0;
    let listing = read_lines(blank(), 1, source)->0->Ok_0;
    lemma_read_lines_is_sound(blank(), 1, source);
    lemma_tail_length(listing, 0);
    if 0 <= k < listing.insns.len() {
        let at = listing.insns[k].offset as int;
        lemma_insn_in_place(listing, k);
        lemma_next_offset(listing, k);
        lemma_encoding(listing, k);
        lemma_tails(listing, k);
        let first = encode(listing, listing.insns[k])->Ok_0;
        let tail = encode_from(listing, k + 1)->Ok_0;
        assert(bytes.skip(at) == first + tail);
        assert(bytes.subrange(at, at + first.len()) =~= bytes.skip(at).take(first.len() as int));
        assert((first + tail).take(first.len() as int) =~= first);
    }
}

/// Once every line has been read, the first instruction that cannot be encoded is the
/// one that is reported.
pub proof fn the_first_instruction_at_fault_is_reported(listing: Listing, k: int, bad: int)
    requires
        0 <= k <= bad < listing.insns.len(),
        forall|i: int| k <= i < bad ==> encode(listing, #[trigger] listing.insns[i]) is Ok,
        encode(listing, listing.insns[bad]) is Err,
    ensures
        encode_from(listing, k) is Err,
        encode_from(listing, k)->Err_0 == encode(listing, listing.insns[bad])->Err_0,
    decreases bad - k,
{
    if k < bad {
        assert(encode(listing, listing.insns[k]) is Ok);
        the_first_instruction_at_fault_is_reported(listing, k + 1, bad);
    }
}

/// What the lines of a source come to: the mistake that reading them meets, or what
/// encoding all of them gives.
pub proof fn reading_comes_before_encoding(source: Seq<char>)
    ensures
        match read_lines(blank(), 1, source) {
            None => assembly(source) is None,
            Some(Err(diagnostic)) => assembly(source) == Some(
                Err::<Seq<u8>, Diagnostic>(diagnostic),
            ),
            Some(Ok(listing)) => assembly(source) == Some(encode_from(listing, 0)),
        },
        blank().labels.len() == 0 && blank().insns.len() == 0 && blank().size == 0,
{
}

/// Instructions are encoded one after the other, and all of them if each can be.
pub proof fn instructions_are_encoded_in_order(listing: Listing, k: int)
    ensures
        k >= listing.insns.len() ==> encode_from(listing, k) == Ok::<Seq<u8>, Diagnostic>(
            Seq::empty(),
        ),
        0 <= k < listing.insns.len() ==> encode_from(listing, k) == match (
            encode(listing, listing.insns[k]),
            encode_from(listing, k + 1),
        ) {
            (Ok(bytes), Ok(rest)) => Ok::<Seq<u8>, Diagnostic>(bytes + rest),
            (Err(diagnostic), _) => Err::<Seq<u8>, Diagnostic>(diagnostic),
            (_, Err(diagnostic)) => Err::<Seq<u8>, Diagnostic>(diagnostic),
        },
{
}

/// A source either assembles, or earns a diagnostic that names a line: a statement of
/// commas only that of its own line.
pub proof fn every_source_has_a_result(source: Seq<char>)
    ensures
        assembly(source) matches Some(result) ==> diagnosed(source) == result,
        assembly(source) is None ==> {
            &&& diagnosed(source) matches Err(diagnostic)
            &&& diagnostic.message == "a statement needs a mnemonic"@
            &&& commas_line(blank(), 1, source) == Some(diagnostic.line)
        },
{
    crate::source_laws::lemma_stopped_line(blank(), 1, source);
}

} // verus!
