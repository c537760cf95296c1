//! What numerals and names stand for: one character at a time.

use vstd::prelude::*;

use crate::assembly::{is_label, signed, statement, unsigned};
use crate::number::{
    all_digits, decimal, decimal_reads_back, digit, digit_char, number, signed_decimal, spelled,
};
use crate::text::{same_ignoring_case, upper};

verus! {

// ---------------------------------------------------------------------------
// Digits
// ---------------------------------------------------------------------------

/// The decimal digits are worth zero to nine, the letters from `a` on ten and more, in
/// either case. No other character is worth less than 36.
pub proof fn digits_count_up(c: char)
    ensures
        '0' <= c <= '9' ==> digit(c) == c as int - 48,
        'a' <= c <= 'z' ==> digit(c) == c as int - 87,
        'A' <= c <= 'Z' ==> digit(c) == c as int - 55,
        !('0' <= c <= '9') && !('a' <= c <= 'z') && !('A' <= c <= 'Z') ==> digit(c) >= 36,
{
}

/// The sixteen digits that numbers are written with.
pub proof fn digits_are_written(d: nat)
    requires
        d < 16,
    ensures
        d < 10 ==> digit_char(d) == (48 + d) as char,
        d >= 10 ==> digit_char(d) == (87 + d) as char,
        digit(digit_char(d)) == d,
        digit(upper(digit_char(d))) == d,
{
}

/// Nothing is no number, and a single character is the number it is worth.
pub proof fn one_digit_is_its_worth(c: char, radix: nat, max: nat)
    requires
        1 <= radix <= 36,
    ensures
        number(Seq::empty(), radix, max) is None,
        number(seq![c], radix, max) == if digit(c) < radix && digit(c) <= max {
            Some(digit(c))
        } else {
            None
        },
{
    assert(seq![c].drop_last() =~= Seq::empty());
    assert(spelled(seq![c].drop_last(), radix) == 0);
    assert(spelled(seq![c], radix) == digit(c)) by {
        assert(0 * radix == 0) by (nonlinear_arith);
    }
    assert(seq![c][0] == c);
}

/// One digit more makes a number `radix` times as large, and as much larger as the
/// digit is worth. Too large a number, or a character that is no digit, makes none,
/// whatever follows.
pub proof fn one_digit_more(w: Seq<char>, c: char, radix: nat, max: nat)
    requires
        1 <= radix <= 36,
        w.len() > 0,
        w != seq!['+'],
    ensures
        number(w.push(c), radix, max) == match number(w, radix, max) {
            Some(v) => if digit(c) < radix && v * radix + digit(c) <= max {
                Some(v * radix + digit(c))
            } else {
                None
            },
            None => None,
        },
{
    let longer = w.push(c);
    let signed = w[0] == '+' && w.len() > 1;
    if w[0] == '+' && w.len() == 1 {
        assert(w =~= seq!['+']);
    }
    let d = if signed {
        w.drop_first()
    } else {
        w
    };
    let e = if signed {
        longer.drop_first()
    } else {
        longer
    };
    assert(e =~= d.push(c));
    assert(e.drop_last() =~= d);
    assert(all_digits(e, radix) <==> all_digits(d, radix) && digit(c) < radix) by {
        if all_digits(e, radix) {
            assert forall|i: int| 0 <= i < d.len() implies digit(#[trigger] d[i]) < radix by {
                assert(e[i] == d[i]);
            }
            assert(e[d.len() as int] == c);
        }
    }
    let v = spelled(d, radix);
    assert(v <= v * radix) by (nonlinear_arith)
        requires
            radix >= 1,
    ;
}

/// One plus sign may stand before a number, and no more than one.
pub proof fn a_plus_sign_may_stand_before(w: Seq<char>, radix: nat, max: nat)
    requires
        1 <= radix <= 36,
        w.len() > 0,
    ensures
        number(seq!['+'] + w, radix, max) == if w[0] == '+' {
            None
        } else {
            number(w, radix, max)
        },
{
    let s = seq!['+'] + w;
    assert(s.drop_first() =~= w);
    if w[0] == '+' {
        assert(digit(w[0]) >= 36);
    }
}

/// A number in decimal is its last digit behind the rest of it.
pub proof fn decimal_is_digit_by_digit(n: nat)
    ensures
        n < 10 ==> decimal(n) == seq![(48 + n) as char],
        n >= 10 ==> decimal(n) == decimal(n / 10).push((48 + n % 10) as char),
{
}

/// A negative number is written as a minus sign and its magnitude.
pub proof fn a_minus_sign_stands_before(n: int)
    ensures
        n >= 0 ==> signed_decimal(n) == decimal(n as nat),
        n < 0 ==> signed_decimal(n) == seq!['-'] + decimal((-n) as nat),
{
}

/// `n` in hexadecimal, without leading zeros.
pub open spec fn hexadecimal(n: nat) -> Seq<char>
    decreases n,
{
    if n < 10 {
        seq![(48 + n) as char]
    } else if n < 16 {
        seq![(87 + n) as char]
    } else {
        hexadecimal(n / 16) + hexadecimal(n % 16)
    }
}

/// What is written in hexadecimal, in whatever case, reads back as the same number.
pub proof fn hexadecimal_reads_back(n: nat, w: Seq<char>, max: nat)
    requires
        n <= max,
        same_ignoring_case(hexadecimal(n), w),
    ensures
        w.len() > 0,
        w[0] != '+',
        number(w, 16, max) == Some(n),
    decreases n,
{
    let h = hexadecimal(n);
    if n < 16 {
        assert(h.len() == 1);
        assert(upper(h[0]) == upper(w[0]));
        assert(w =~= seq![w[0]]);
        one_digit_is_its_worth(w[0], 16, max);
    } else {
        let c = w.last();
        let rest = w.drop_last();
        let low = hexadecimal(n % 16);
        assert(low.len() == 1);
        assert(h.drop_last() =~= hexadecimal(n / 16));
        assert(h.last() == low[0]);
        assert(upper(h[h.len() - 1]) == upper(w[h.len() - 1]));
        assert forall|i: int| 0 <= i < rest.len() implies upper(#[trigger] hexadecimal(n / 16)[i])
            == upper(rest[i]) by {
            assert(h[i] == hexadecimal(n / 16)[i]);
            assert(upper(h[i]) == upper(w[i]));
        }
        hexadecimal_reads_back(n / 16, rest, max);
        assert(rest[0] == w[0]);
        assert(rest.push(c) =~= w);
        assert(digit(c) == n % 16);
        one_digit_more(rest, c, 16, max);
    }
}

// ---------------------------------------------------------------------------
// Operands
// ---------------------------------------------------------------------------

/// A word of decimal digits stands for the number it spells, and so does `0x` or `0X`
/// before hexadecimal digits in whatever case.
pub proof fn operands_are_their_numbers(n: nat, x: char, digits: Seq<char>)
    requires
        n <= u64::MAX,
        x == 'x' || x == 'X',
        same_ignoring_case(hexadecimal(n), digits),
    ensures
        unsigned(decimal(n)) == Some(n),
        unsigned(seq!['0', x] + digits) == Some(n),
{
    decimal_reads_back(n);
    hexadecimal_reads_back(n, digits, u64::MAX as nat);
    let w = seq!['0', x] + digits;
    assert(w.skip(2) =~= digits);
    let d = decimal(n);
    if d.len() >= 2 {
        assert('0' <= d[1] <= '9');
    }
}

/// A hexadecimal operand counts all of its digits: one digit more behind `0x` makes the
/// operand sixteen times as large, and as much larger as the digit is worth, or none.
pub proof fn a_hexadecimal_operand_grows(x: char, w: Seq<char>, c: char)
    requires
        x == 'x' || x == 'X',
        w.len() > 0,
        w != seq!['+'],
    ensures
        unsigned(seq!['0', x] + w.push(c)) == match unsigned(seq!['0', x] + w) {
            Some(v) => if digit(c) < 16 && v * 16 + digit(c) <= u64::MAX {
                Some(v * 16 + digit(c))
            } else {
                None
            },
            None => None,
        },
        unsigned(seq!['0', x] + seq![c]) == if digit(c) < 16 {
            Some(digit(c))
        } else {
            None
        },
        unsigned(seq!['0', x]) is None,
{
    assert((seq!['0', x] + w).skip(2) =~= w);
    assert((seq!['0', x] + w.push(c)).skip(2) =~= w.push(c));
    assert((seq!['0', x] + seq![c]).skip(2) =~= seq![c]);
    assert(seq!['0', x].skip(2) =~= Seq::empty());
    one_digit_more(w, c, 16, u64::MAX as nat);
    one_digit_is_its_worth(c, 16, u64::MAX as nat);
}

/// A decimal operand counts all of its digits.
pub proof fn a_decimal_operand_grows(w: Seq<char>, c: char)
    requires
        w.len() > 0,
        w != seq!['+'],
        !(w[0] == '0' && (w.push(c)[1] == 'x' || w.push(c)[1] == 'X')),
    ensures
        unsigned(w.push(c)) == match unsigned(w) {
            Some(v) => if digit(c) < 10 && v * 10 + digit(c) <= u64::MAX {
                Some(v * 10 + digit(c))
            } else {
                None
            },
            None => None,
        },
        unsigned(seq![c]) == if digit(c) < 10 {
            Some(digit(c))
        } else {
            None
        },
{
    assert(w.len() >= 2 ==> w.push(c)[1] == w[1]);
    one_digit_more(w, c, 10, u64::MAX as nat);
    one_digit_is_its_worth(c, 10, u64::MAX as nat);
}

/// A displacement is an operand that an `i64` holds, and a minus sign before it makes
/// it negative.
pub proof fn displacements_have_a_sign(w: Seq<char>)
    ensures
        w.len() == 0 || w[0] != '-' ==> signed(w) == match unsigned(w) {
            Some(v) => if v <= 0x7FFF_FFFF_FFFF_FFFF {
                Some(v as int)
            } else {
                None
            },
            None => None,
        },
        signed(seq!['-'] + w) == match unsigned(w) {
            Some(v) => if v <= 0x7FFF_FFFF_FFFF_FFFF {
                Some(0 - v)
            } else {
                None
            },
            None => None,
        },
{
    assert((seq!['-'] + w).drop_first() =~= w);
}

/// A statement that takes a number takes it in decimal or in hexadecimal alike: with
/// one spelling in place of the other it stands for the same instruction.
pub proof fn hexadecimal_and_decimal_operands_mean_the_same(
    t: Seq<Seq<char>>,
    i: int,
    n: nat,
    x: char,
    digits: Seq<char>,
)
    requires
        1 <= i < t.len(),
        n <= u64::MAX,
        t[i] == decimal(n),
        x == 'x' || x == 'X',
        same_ignoring_case(hexadecimal(n), digits),
    ensures
        statement(t) is Ok <==> statement(t.update(i, seq!['0', x] + digits)) is Ok,
        statement(t) is Ok ==> statement(t) == statement(t.update(i, seq!['0', x] + digits)),
{
    let w = seq!['0', x] + digits;
    let u = t.update(i, w);
    operands_are_their_numbers(n, x, digits);
    decimal_reads_back(n);
    assert(w[0] == '0');
    assert(!is_label(w));
    assert('0' <= decimal(n)[0] <= '9');
    assert(!is_label(decimal(n)));
    assert(signed(w) == signed(decimal(n)));
    assert(forall|k: int| 0 <= k < t.len() && k != i ==> u[k] == t[k]);
    assert(crate::assembly::statement_opcode(t) is Ok ==> crate::assembly::statement_opcode(t)
        == crate::assembly::statement_opcode(u));
}

// ---------------------------------------------------------------------------
// Names
// ---------------------------------------------------------------------------

/// A label name begins with an ASCII letter or an underscore and goes on with ASCII
/// letters, digits and underscores.
pub proof fn label_names_are_letter_by_letter(name: Seq<char>, c: char)
    ensures
        !is_label(Seq::empty()),
        is_label(seq![c]) <==> 'A' <= c <= 'Z' || 'a' <= c <= 'z' || c == '_',
        name.len() > 0 ==> (is_label(name.push(c)) <==> is_label(name) && ('A' <= c <= 'Z' || 'a' <= c
            <= 'z' || '0' <= c <= '9' || c == '_')),
{
    if name.len() > 0 {
        let longer = name.push(c);
        if is_label(longer) {
            assert(longer[name.len() as int] == c);
            assert forall|i: int| 1 <= i < name.len() implies (#[trigger] name[i] == '_'
                || crate::text::is_ascii_letter(name[i]) || crate::text::is_ascii_digit(name[i])) by {
                assert(longer[i] == name[i]);
            }
        }
    }
}

/// An ASCII letter has another case, and no other character has: the lowercase letters
/// are 32 places behind the uppercase ones.
pub proof fn letters_have_two_cases(c: char)
    ensures
        'a' <= c <= 'z' ==> upper(c) as int == c as int - 32,
        !('a' <= c <= 'z') ==> upper(c) == c,
{
}

} // verus!
