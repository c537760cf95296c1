//! Programs as hexadecimal text.

use vstd::prelude::*;
use vstd::slice::slice_subrange;

use crate::number::{digit, digit_char, number, read_number, spelled, to_digit_char};
use crate::text::{is_space, to_upper, upper, white_space};

verus! {

/// A byte as two uppercase hexadecimal digits.
pub open spec fn hex_byte(byte: u8) -> Seq<char> {
    seq![upper(digit_char((byte / 16) as nat)), upper(digit_char((byte % 16) as nat))]
}

/// Each byte as a space and two uppercase hexadecimal digits.
pub open spec fn spaced_hex(bytes: Seq<u8>) -> Seq<char>
    decreases bytes.len(),
{
    if bytes.len() == 0 {
        Seq::empty()
    } else {
        seq![' '] + hex_byte(bytes[0]) + spaced_hex(bytes.drop_first())
    }
}

/// The bytes as pairs of uppercase hexadecimal digits with a space between them.
pub open spec fn hex_text(bytes: Seq<u8>) -> Seq<char> {
    if bytes.len() == 0 {
        Seq::empty()
    } else {
        hex_byte(bytes[0]) + spaced_hex(bytes.drop_first())
    }
}

/// `text` without its white space.
pub open spec fn squeezed(text: Seq<char>) -> Seq<char> {
    text.filter(|c: char| !is_space(c))
}

/// How many bytes `c` takes in UTF-8.
pub open spec fn utf8_width(c: char) -> nat {
    if c <= '\u{7F}' {
        1
    } else if c <= '\u{7FF}' {
        2
    } else if c <= '\u{FFFF}' {
        3
    } else {
        4
    }
}

/// How many bytes `s` takes in UTF-8.
pub open spec fn utf8_len(s: Seq<char>) -> nat
    decreases s.len(),
{
    if s.len() == 0 {
        0
    } else {
        utf8_len(s.drop_last()) + utf8_width(s.last())
    }
}

pub open spec fn not_a_hex_byte(piece: Seq<char>) -> Seq<char> {
    "`"@ + piece + "` is not a hexadecimal byte"@
}

/// The bytes that `s` spells, two UTF-8 bytes of text to a byte: the bytes, or the
/// message about the first piece that is not a hexadecimal byte. `None` where a
/// piece would end inside a character.
pub open spec fn hex_pairs(s: Seq<char>) -> Option<Result<Seq<u8>, Seq<char>>>
    decreases s.len(),
{
    if s.len() == 0 {
        Some(Ok(Seq::empty()))
    } else if utf8_width(s[0]) == 2 {
        Some(Err(not_a_hex_byte(s.take(1))))
    } else if utf8_width(s[0]) > 2 || s.len() == 1 || utf8_width(s[1]) > 1 {
        None
    } else {
        match number(s.take(2), 16, 255) {
            None => Some(Err(not_a_hex_byte(s.take(2)))),
            Some(byte) => match hex_pairs(s.skip(2)) {
                Some(Ok(rest)) => Some(Ok(seq![byte as u8] + rest)),
                other => other,
            },
        }
    }
}

/// The program that `text` spells in hexadecimal: its bytes, or a message. `None`
/// where a pair of digits would end inside a character.
pub open spec fn hex_program(text: Seq<char>) -> Option<Result<Seq<u8>, Seq<char>>> {
    let digits = squeezed(text);
    if utf8_len(digits) % 2 != 0 {
        Some(Err("a hexadecimal program needs an even number of digits"@))
    } else {
        hex_pairs(digits)
    }
}

/// [`hex_program`] with a message for every text that spells no program.
pub open spec fn hex_result(text: Seq<char>) -> Result<Seq<u8>, Seq<char>> {
    match hex_program(text) {
        Some(result) => result,
        None => Err("a pair of hexadecimal digits ends inside a character"@),
    }
}

/// `result` is what `expected` says.
pub open spec fn is_hex_result(
    result: Result<Vec<u8>, String>,
    expected: Result<Seq<u8>, Seq<char>>,
) -> bool {
    match expected {
        Ok(bytes) => result is Ok && result->Ok_0@ == bytes,
        Err(message) => result is Err && result->Err_0@ == message,
    }
}

/// Renders a program as a space-separated uppercase hexdump.
pub fn hexdump(bytes: &[u8]) -> (text: String)
    ensures
        text@ == hex_text(bytes@),
{
    let mut text = String::new();
    let mut i: usize = 0;
    assert(bytes@.skip(0) =~= bytes@);
    while i < bytes.len()
        invariant
            i <= bytes.len(),
            i == 0 ==> text@ =~= Seq::<char>::empty(),
            i > 0 ==> text@ + spaced_hex(bytes@.skip(i as int)) == hex_text(bytes@),
        decreases bytes.len() - i,
    {
        let ghost before = text@;
        if i > 0 {
            text.push(' ');
        }
        text.push(to_upper(to_digit_char(bytes[i] / 16)));
        text.push(to_upper(to_digit_char(bytes[i] % 16)));
        proof {
            let rest = bytes@.skip(i as int);
            assert(rest.drop_first() =~= bytes@.skip(i + 1));
            if i == 0 {
                assert(rest =~= bytes@);
                assert(text@ =~= hex_byte(bytes@[0]));
            } else {
                assert(text@ + spaced_hex(bytes@.skip(i + 1)) =~= before + (seq![' '] + hex_byte(
                    bytes@[i as int],
                ) + spaced_hex(bytes@.skip(i + 1))));
            }
        }
        i += 1;
    }
    proof {
        if i > 0 {
            assert(bytes@.skip(i as int) =~= Seq::empty());
            assert(text@ + spaced_hex(bytes@.skip(i as int)) =~= text@);
        }
    }
    text
}

fn width_of(c: char) -> (w: u8)
    ensures
        w == utf8_width(c),
{
    if c <= '\u{7F}' {
        1
    } else if c <= '\u{7FF}' {
        2
    } else if c <= '\u{FFFF}' {
        3
    } else {
        4
    }
}

/// The message about a piece of text that is not a hexadecimal byte.
fn refuse_piece(piece: &[char]) -> (message: String)
    ensures
        message@ == not_a_hex_byte(piece@),
{
    crate::text::message("`", piece, "` is not a hexadecimal byte")
}

/// Parses a hexadecimal string, ignoring white space. `None` where a pair of digits
/// would end inside a character.
pub fn try_parse_hex(text: &str) -> (result: Option<Result<Vec<u8>, String>>)
    ensures
        result is Some <==> hex_program(text@) is Some,
        result matches Some(r) ==> is_hex_result(r, hex_program(text@)->0),
        hex_program(text@) matches Some(expected) ==> match expected {
            Ok(bytes) => result->0 is Ok && result->0->Ok_0@ == bytes,
            Err(message) => result->0 is Err && result->0->Err_0@ == message,
        },
{
    let ghost pred = |c: char| !is_space(c);
    let all: Vec<char> = crate::text::characters(text);
    let mut digits: Vec<char> = Vec::new();
    let mut even: bool = true;
    let mut i: usize = 0;
    while i < all.len()
        invariant
            i <= all.len(),
            pred == (|c: char| !is_space(c)),
            digits@ == all@.take(i as int).filter(pred),
            even == (utf8_len(digits@) % 2 == 0),
        decreases all.len() - i,
    {
        let c: char = all[i];
        proof {
            reveal(Seq::filter);
            assert(all@.take(i + 1).drop_last() =~= all@.take(i as int));
        }
        if !white_space(c) {
            let ghost before = digits@;
            digits.push(c);
            if width_of(c) % 2 == 1 {
                even = !even;
            }
            assert(digits@.drop_last() =~= before);
        }
        i += 1;
    }
    assert(all@.take(i as int) =~= text@);
    if !even {
        return Some(Err("a hexadecimal program needs an even number of digits".to_owned()));
    }
    let mut bytes: Vec<u8> = Vec::new();
    let mut at: usize = 0;
    assert(digits@.skip(0) =~= digits@);
    while at < digits.len()
        invariant
            at <= digits.len(),
            hex_program(text@) == hex_pairs(digits@),
            match hex_pairs(digits@.skip(at as int)) {
                Some(Ok(rest)) => hex_pairs(digits@) == Some(
                    Ok::<Seq<u8>, Seq<char>>(bytes@ + rest),
                ),
                other => hex_pairs(digits@) == other,
            },
        decreases digits.len() - at,
    {
        let ghost here = digits@.skip(at as int);
        let width: u8 = width_of(digits[at]);
        if width == 2 {
            let piece: &[char] = slice_subrange(digits.as_slice(), at, at + 1);
            assert(piece@ =~= here.take(1));
            return Some(Err(refuse_piece(piece)));
        }
        if width > 2 || digits.len() - at == 1 {
            return None;
        }
        if width_of(digits[at + 1]) > 1 {
            return None;
        }
        let piece: &[char] = slice_subrange(digits.as_slice(), at, at + 2);
        assert(piece@ =~= here.take(2));
        match read_number(piece, 16, 255) {
            Some(byte) => {
                let ghost before = bytes@;
                bytes.push(byte as u8);
                proof {
                    assert(here.skip(2) =~= digits@.skip(at + 2));
                    if let Some(Ok(rest)) = hex_pairs(here.skip(2)) {
                        assert(bytes@ + rest =~= before + (seq![byte as u8] + rest));
                    }
                }
            },
            None => return Some(Err(refuse_piece(piece))),
        }
        at += 2;
    }
    assert(digits@.skip(at as int) =~= Seq::empty());
    assert(bytes@ + Seq::<u8>::empty() =~= bytes@);
    Some(Ok(bytes))
}

/// Parses a hexadecimal string, ignoring white space. Text that spells no program is
/// refused with a message. A pair may also be a plus sign and a digit.
pub fn parse_hex(text: &str) -> (result: Result<Vec<u8>, String>)
    ensures
        is_hex_result(result, hex_result(text@)),
        match hex_result(text@) {
            Ok(bytes) => result is Ok && result->Ok_0@ == bytes,
            Err(message) => result is Err && result->Err_0@ == message,
        },
        hex_program(text@) matches Some(expected) ==> is_hex_result(result, expected),
        hex_program(text@) is None ==> result is Err,
{
    match try_parse_hex(text) {
        Some(result) => result,
        None => Err("a pair of hexadecimal digits ends inside a character".to_owned()),
    }
}

/// The bytes as pairs of uppercase hexadecimal digits with nothing between them.
spec fn dense_hex(bytes: Seq<u8>) -> Seq<char>
    decreases bytes.len(),
{
    if bytes.len() == 0 {
        Seq::empty()
    } else {
        hex_byte(bytes[0]) + dense_hex(bytes.drop_first())
    }
}

proof fn lemma_squeezed_concat(a: Seq<char>, b: Seq<char>)
    ensures
        squeezed(a + b) == squeezed(a) + squeezed(b),
{
    Seq::filter_distributes_over_add(a, b, |c: char| !is_space(c));
}

proof fn lemma_squeezed_solid(s: Seq<char>)
    requires
        forall|i: int| 0 <= i < s.len() ==> !is_space(#[trigger] s[i]),
    ensures
        squeezed(s) == s,
    decreases s.len(),
{
    reveal(Seq::filter);
    if s.len() > 0 {
        lemma_squeezed_solid(s.drop_last());
        assert(s.drop_last().push(s.last()) =~= s);
    } else {
        assert(squeezed(s) =~= s);
    }
}

proof fn lemma_squeezed_space(c: char)
    requires
        is_space(c),
    ensures
        squeezed(seq![c]) == Seq::<char>::empty(),
{
    reveal(Seq::filter);
    assert(seq![c].drop_last() =~= Seq::empty());
    assert(seq![c].drop_last().filter(|d: char| !is_space(d)) =~= Seq::empty());
}

/// A byte written as two hexadecimal digits reads back as the byte.
proof fn lemma_hex_byte(byte: u8)
    ensures
        hex_byte(byte).len() == 2,
        utf8_width(hex_byte(byte)[0]) == 1,
        utf8_width(hex_byte(byte)[1]) == 1,
        squeezed(hex_byte(byte)) == hex_byte(byte),
        number(hex_byte(byte), 16, 255) == Some(byte as nat),
{
    let s = hex_byte(byte);
    lemma_squeezed_solid(s);
    assert(s.drop_last() =~= seq![s[0]]);
    assert(s.drop_last().drop_last() =~= Seq::empty());
    assert(spelled(s.drop_last().drop_last(), 16) == 0);
    assert(digit(s[0]) == byte / 16);
    assert(digit(s[1]) == byte % 16);
    assert(spelled(s.drop_last(), 16) == byte / 16);
    assert(spelled(s, 16) == byte);
    assert(s[0] != '+');
}

proof fn lemma_squeezed_spaced_hex(bytes: Seq<u8>)
    ensures
        squeezed(spaced_hex(bytes)) == dense_hex(bytes),
    decreases bytes.len(),
{
    if bytes.len() == 0 {
        lemma_squeezed_solid(spaced_hex(bytes));
    } else {
        let head = seq![' '] + hex_byte(bytes[0]);
        lemma_squeezed_concat(head, spaced_hex(bytes.drop_first()));
        lemma_squeezed_concat(seq![' '], hex_byte(bytes[0]));
        lemma_squeezed_space(' ');
        lemma_hex_byte(bytes[0]);
        lemma_squeezed_spaced_hex(bytes.drop_first());
        assert(squeezed(head) =~= hex_byte(bytes[0]));
    }
}

proof fn lemma_dense_hex_reads_back(bytes: Seq<u8>)
    ensures
        hex_pairs(dense_hex(bytes)) == Some(Ok::<Seq<u8>, Seq<char>>(bytes)),
    decreases bytes.len(),
{
    if bytes.len() == 0 {
        assert(bytes =~= Seq::empty());
    } else {
        let s = dense_hex(bytes);
        lemma_hex_byte(bytes[0]);
        lemma_dense_hex_reads_back(bytes.drop_first());
        assert(s.take(2) =~= hex_byte(bytes[0]));
        assert(s.skip(2) =~= dense_hex(bytes.drop_first()));
        assert(seq![bytes[0]] + bytes.drop_first() =~= bytes);
    }
}

proof fn lemma_utf8_len_concat(a: Seq<char>, b: Seq<char>)
    ensures
        utf8_len(a + b) == utf8_len(a) + utf8_len(b),
    decreases b.len(),
{
    if b.len() == 0 {
        assert(a + b =~= a);
    } else {
        assert((a + b).drop_last() =~= a + b.drop_last());
        lemma_utf8_len_concat(a, b.drop_last());
    }
}

proof fn lemma_dense_hex_len(bytes: Seq<u8>)
    ensures
        utf8_len(dense_hex(bytes)) == 2 * bytes.len(),
    decreases bytes.len(),
{
    if bytes.len() > 0 {
        let s = hex_byte(bytes[0]);
        lemma_hex_byte(bytes[0]);
        lemma_utf8_len_concat(s, dense_hex(bytes.drop_first()));
        lemma_dense_hex_len(bytes.drop_first());
        assert(s.drop_last() =~= seq![s[0]]);
        assert(s.drop_last().drop_last() =~= Seq::empty());
        assert(utf8_len(s.drop_last().drop_last()) == 0);
        assert(utf8_len(s.drop_last()) == 1);
    }
}

/// A hexdump parses back to the bytes it was made from.
pub proof fn a_hexdump_parses_back(bytes: Seq<u8>)
    ensures
        hex_program(hex_text(bytes)) == Some(Ok::<Seq<u8>, Seq<char>>(bytes)),
{
    assert(squeezed(hex_text(bytes)) == dense_hex(bytes)) by {
        if bytes.len() == 0 {
            lemma_squeezed_solid(hex_text(bytes));
        } else {
            lemma_squeezed_concat(hex_byte(bytes[0]), spaced_hex(bytes.drop_first()));
            lemma_hex_byte(bytes[0]);
            lemma_squeezed_spaced_hex(bytes.drop_first());
        }
    }
    lemma_dense_hex_len(bytes);
    assert(utf8_len(dense_hex(bytes)) % 2 == 0);
    lemma_dense_hex_reads_back(bytes);
}

/// White space anywhere in the text makes no difference to what it parses to.
pub proof fn white_space_is_ignored(before: Seq<char>, space: char, after: Seq<char>)
    requires
        is_space(space),
    ensures
        hex_program(before + seq![space] + after) == hex_program(before + after),
        hex_result(before + seq![space] + after) == hex_result(before + after),
{
    lemma_squeezed_concat(before + seq![space], after);
    lemma_squeezed_concat(before, seq![space]);
    lemma_squeezed_concat(before, after);
    lemma_squeezed_space(space);
    assert(squeezed(before) + Seq::<char>::empty() =~= squeezed(before));
}

/// The uppercase hexadecimal digit of value `d`.
pub open spec fn upper_hex_digit(d: int) -> char {
    if d < 10 {
        (48 + d) as char
    } else {
        (55 + d) as char
    }
}

proof fn lemma_spaced_hex_at(bytes: Seq<u8>, i: int)
    requires
        0 <= i < bytes.len(),
    ensures
        spaced_hex(bytes).len() == 3 * bytes.len(),
        spaced_hex(bytes)[3 * i] == ' ',
        spaced_hex(bytes)[3 * i + 1] == upper_hex_digit(bytes[i] as int / 16),
        spaced_hex(bytes)[3 * i + 2] == upper_hex_digit(bytes[i] as int % 16),
    decreases bytes.len(),
{
    let rest = bytes.drop_first();
    let head = seq![' '] + hex_byte(bytes[0]);
    let s = spaced_hex(bytes);
    assert(s == head + spaced_hex(rest));
    assert(head.len() == 3);
    if i > 0 {
        lemma_spaced_hex_at(rest, i - 1);
        assert(s[3 * i] == spaced_hex(rest)[3 * (i - 1)]);
        assert(s[3 * i + 1] == spaced_hex(rest)[3 * (i - 1) + 1]);
        assert(s[3 * i + 2] == spaced_hex(rest)[3 * (i - 1) + 2]);
    } else if rest.len() > 0 {
        lemma_spaced_hex_at(rest, 0);
    }
}

/// A hexdump shows every byte at its place: byte `i` as two uppercase digits, the higher
/// first, from character `3 * i` on, with a space before the next byte.
pub proof fn hexdumps_show_every_byte(bytes: Seq<u8>, i: int)
    requires
        0 <= i < bytes.len(),
    ensures
        hex_text(bytes).len() == 3 * bytes.len() - 1,
        hex_text(bytes)[3 * i] == upper_hex_digit(bytes[i] as int / 16),
        hex_text(bytes)[3 * i + 1] == upper_hex_digit(bytes[i] as int % 16),
        i + 1 < bytes.len() ==> hex_text(bytes)[3 * i + 2] == ' ',
        hex_text(Seq::empty()).len() == 0,
{
    let rest = bytes.drop_first();
    let s = hex_text(bytes);
    assert(s == hex_byte(bytes[0]) + spaced_hex(rest));
    if rest.len() > 0 {
        lemma_spaced_hex_at(rest, 0);
    }
    if i > 0 {
        lemma_spaced_hex_at(rest, i - 1);
        assert(s[3 * i] == spaced_hex(rest)[3 * (i - 1) + 1]);
        assert(s[3 * i + 1] == spaced_hex(rest)[3 * (i - 1) + 2]);
    }
    if i + 1 < bytes.len() {
        lemma_spaced_hex_at(rest, i);
        assert(s[3 * i + 2] == spaced_hex(rest)[3 * i]);
    }
}

/// A text without white space is read pair by pair, from its beginning on. It needs an
/// even number of bytes.
pub proof fn solid_text_is_read_in_pairs(s: Seq<char>)
    requires
        forall|i: int| 0 <= i < s.len() ==> !is_space(#[trigger] s[i]),
    ensures
        utf8_len(s) % 2 == 1 ==> hex_result(s) == Err::<Seq<u8>, Seq<char>>(
            "a hexadecimal program needs an even number of digits"@,
        ),
        utf8_len(s) % 2 == 0 ==> hex_program(s) == hex_pairs(s),
{
    lemma_squeezed_solid(s);
}

/// Two hexadecimal digits are a byte, the first worth sixteen times as much, and so is a
/// plus sign before a digit. What follows is read in the same way. Two other ASCII
/// characters are refused.
pub proof fn a_pair_is_a_byte(a: char, b: char, rest: Seq<char>)
    requires
        a <= '\u{7F}',
        b <= '\u{7F}',
    ensures
        ({
            let whole = seq![a, b] + rest;
            let value: int = if digit(a) < 16 && digit(b) < 16 {
                (16 * digit(a) + digit(b)) as int
            } else if a == '+' && digit(b) < 16 {
                digit(b) as int
            } else {
                -1
            };
            if value < 0 {
                hex_pairs(whole) == Some(
                    Err::<Seq<u8>, Seq<char>>(
                        "`"@ + seq![a, b] + "` is not a hexadecimal byte"@,
                    ),
                )
            } else {
                hex_pairs(whole) == match hex_pairs(rest) {
                    Some(Ok(bytes)) => Some(
                        Ok::<Seq<u8>, Seq<char>>(seq![value as u8] + bytes),
                    ),
                    other => other,
                }
            }
        }),
        hex_pairs(Seq::empty()) == Some(Ok::<Seq<u8>, Seq<char>>(Seq::empty())),
{
    let whole = seq![a, b] + rest;
    let pair = seq![a, b];
    assert(whole.take(2) =~= pair);
    assert(whole.skip(2) =~= rest);
    assert(pair.drop_first() =~= seq![b]);
    assert(pair.drop_last() =~= seq![a]);
    assert(seq![a].drop_last() =~= Seq::empty());
    assert(seq![b].drop_last() =~= Seq::empty());
    assert(spelled(Seq::empty(), 16) == 0);
    assert(spelled(seq![a], 16) == digit(a));
    assert(spelled(seq![b], 16) == digit(b));
    assert(spelled(pair, 16) == digit(a) * 16 + digit(b));
    assert(crate::number::all_digits(pair, 16) <==> digit(a) < 16 && digit(b) < 16) by {
        assert(pair[0] == a && pair[1] == b);
    }
    assert(crate::number::all_digits(seq![b], 16) <==> digit(b) < 16) by {
        assert(seq![b][0] == b);
    }
}

/// A character of two bytes is refused like any other pair that is no byte. A pair that
/// would end inside a character is none.
pub proof fn other_characters_are_refused(a: char, b: char, rest: Seq<char>)
    ensures
        '\u{80}' <= a <= '\u{7FF}' ==> hex_pairs(seq![a] + rest) == Some(
            Err::<Seq<u8>, Seq<char>>("`"@ + seq![a] + "` is not a hexadecimal byte"@),
        ),
        a >= '\u{800}' ==> hex_pairs(seq![a] + rest) is None,
        a <= '\u{7F}' && b >= '\u{80}' ==> hex_pairs(seq![a, b] + rest) is None,
{
    assert((seq![a] + rest).take(1) =~= seq![a]);
}

/// How many bytes a text takes: one to four for each character, by its code point.
pub proof fn characters_take_one_to_four_bytes(s: Seq<char>, c: char)
    ensures
        utf8_len(Seq::empty()) == 0,
        utf8_len(s.push(c)) == utf8_len(s) + if c <= '\u{7F}' {
            1nat
        } else if c <= '\u{7FF}' {
            2
        } else if c <= '\u{FFFF}' {
            3
        } else {
            4
        },
{
    assert(s.push(c).drop_last() =~= s);
}

/// A text either spells a program or is refused with a message, and one in which a pair
/// would end inside a character with a message of its own.
pub proof fn every_text_has_a_result(text: Seq<char>)
    ensures
        hex_program(text) matches Some(result) ==> hex_result(text) == result,
        hex_program(text) is None ==> hex_result(text) == Err::<Seq<u8>, Seq<char>>(
            "a pair of hexadecimal digits ends inside a character"@,
        ),
{
}

} // verus!
