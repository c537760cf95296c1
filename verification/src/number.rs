//! Numbers as text: reading them in decimal or hexadecimal, writing them.

use vstd::prelude::*;
use vstd::slice::slice_subrange;

verus! {

// ---------------------------------------------------------------------------
// Reading
// ---------------------------------------------------------------------------

/// The value of `c` as a digit of some radix up to 36, or 36 where it is none.
pub open spec fn digit(c: char) -> nat {
    if '0' <= c <= '9' {
        (c as u32 - '0' as u32) as nat
    } else if 'a' <= c <= 'z' {
        (c as u32 - 'a' as u32 + 10) as nat
    } else if 'A' <= c <= 'Z' {
        (c as u32 - 'A' as u32 + 10) as nat
    } else {
        36
    }
}

/// The value of `c` as a digit of some radix up to 36, or 36 where it is none.
pub fn to_digit(c: char) -> (d: u64)
    ensures
        d == digit(c),
        d <= 36,
{
    if '0' <= c && c <= '9' {
        c as u64 - '0' as u64
    } else if 'a' <= c && c <= 'z' {
        c as u64 - 'a' as u64 + 10
    } else if 'A' <= c && c <= 'Z' {
        c as u64 - 'A' as u64 + 10
    } else {
        36
    }
}

/// The number that `s` spells in `radix`, most significant digit first.
pub open spec fn spelled(s: Seq<char>, radix: nat) -> nat
    decreases s.len(),
{
    if s.len() == 0 {
        0
    } else {
        spelled(s.drop_last(), radix) * radix + digit(s.last())
    }
}

pub open spec fn all_digits(s: Seq<char>, radix: nat) -> bool {
    forall|i: int| 0 <= i < s.len() ==> digit(#[trigger] s[i]) < radix
}

/// `s` read as a number in `radix` of at most `max`: an optional `+`, then digits
/// only, of which there is at least one.
pub open spec fn number(s: Seq<char>, radix: nat, max: nat) -> Option<nat> {
    let digits = if s.len() > 1 && s[0] == '+' {
        s.drop_first()
    } else {
        s
    };
    if digits.len() > 0 && all_digits(digits, radix) && spelled(digits, radix) <= max {
        Some(spelled(digits, radix))
    } else {
        None
    }
}

proof fn lemma_spelled_grows(s: Seq<char>, radix: nat, k: int)
    requires
        radix >= 1,
        0 <= k <= s.len(),
    ensures
        spelled(s.take(k), radix) <= spelled(s, radix),
    decreases s.len() - k,
{
    if k == s.len() {
        assert(s.take(k) =~= s);
    } else {
        assert(s.take(k + 1).drop_last() =~= s.take(k));
        let v = spelled(s.take(k), radix);
        assert(v <= v * radix) by (nonlinear_arith)
            requires
                radix >= 1,
        ;
        lemma_spelled_grows(s, radix, k + 1);
    }
}

/// `s` read as a number in `radix` of at most `max`.
pub fn read_number(s: &[char], radix: u64, max: u64) -> (value: Option<u64>)
    requires
        1 <= radix <= 36,
    ensures
        value is Some <==> number(s@, radix as nat, max as nat) is Some,
        value matches Some(v) ==> number(s@, radix as nat, max as nat) == Some(v as nat),
{
    let digits: &[char] = if s.len() > 1 && s[0] == '+' {
        assert(s@.drop_first() =~= s@.subrange(1, s@.len() as int));
        slice_subrange(s, 1, s.len())
    } else {
        s
    };
    if digits.len() == 0 {
        return None;
    }
    let mut value: u64 = 0;
    let mut i: usize = 0;
    while i < digits.len()
        invariant
            1 <= radix <= 36,
            i <= digits.len(),
            digits.len() > 0,
            digits@ == (if s@.len() > 1 && s@[0] == '+' {
                s@.drop_first()
            } else {
                s@
            }),
            forall|k: int| 0 <= k < i ==> digit(#[trigger] digits@[k]) < radix,
            value == spelled(digits@.take(i as int), radix as nat),
            value <= max,
        decreases digits.len() - i,
    {
        let d: u64 = to_digit(digits[i]);
        if d >= radix {
            return None;
        }
        proof {
            assert(digits@.take(i + 1).drop_last() =~= digits@.take(i as int));
            lemma_spelled_grows(digits@, radix as nat, i + 1);
        }
        let raised: u64 = match value.checked_mul(radix) {
            Some(raised) => raised,
            None => return None,
        };
        value = match raised.checked_add(d) {
            Some(sum) => sum,
            None => return None,
        };
        if value > max {
            return None;
        }
        i += 1;
    }
    assert(digits@.take(i as int) =~= digits@);
    Some(value)
}

// ---------------------------------------------------------------------------
// Writing
// ---------------------------------------------------------------------------

/// The lowercase hexadecimal digit of value `d`.
pub open spec fn digit_char(d: nat) -> char {
    if d < 10 {
        ('0' as u32 + d) as char
    } else {
        ('a' as u32 + d - 10) as char
    }
}

/// The lowercase hexadecimal digit of value `d`.
pub fn to_digit_char(d: u8) -> (c: char)
    requires
        d < 16,
    ensures
        c == digit_char(d as nat),
{
    if d < 10 {
        ('0' as u8 + d) as char
    } else {
        ('a' as u8 + d - 10) as char
    }
}

/// `n` in decimal, without leading zeros.
pub open spec fn decimal(n: nat) -> Seq<char>
    decreases n,
{
    if n < 10 {
        seq![digit_char(n)]
    } else {
        decimal(n / 10).push(digit_char(n % 10))
    }
}

/// `n` in decimal, with a minus sign where it is negative.
pub open spec fn signed_decimal(n: int) -> Seq<char> {
    if n < 0 {
        seq!['-'] + decimal((-n) as nat)
    } else {
        decimal(n as nat)
    }
}

/// Appends `n` in decimal.
pub fn push_decimal(out: &mut String, n: u64)
    ensures
        final(out)@ == old(out)@ + decimal(n as nat),
    decreases n,
{
    if n >= 10 {
        push_decimal(out, n / 10);
    }
    out.push(to_digit_char((n % 10) as u8));
    assert(out@ =~= old(out)@ + decimal(n as nat));
}

/// Appends `n` in decimal, with a minus sign where it is negative.
pub fn push_signed_decimal(out: &mut String, n: i64)
    requires
        n > i64::MIN,
    ensures
        final(out)@ == old(out)@ + signed_decimal(n as int),
{
    if n < 0 {
        out.push('-');
        push_decimal(out, (-n) as u64);
        assert(out@ =~= old(out)@ + signed_decimal(n as int));
    } else {
        push_decimal(out, n as u64);
    }
}

/// What is written in decimal reads back as the same number, and is made of decimal
/// digits only.
pub proof fn decimal_reads_back(n: nat)
    ensures
        decimal(n).len() > 0,
        forall|i: int| 0 <= i < decimal(n).len() ==> '0' <= #[trigger] decimal(n)[i] <= '9',
        spelled(decimal(n), 10) == n,
        all_digits(decimal(n), 10),
        forall|max: nat| n <= max ==> #[trigger] number(decimal(n), 10, max) == Some(n),
    decreases n,
{
    if n < 10 {
        assert(decimal(n).drop_last() =~= Seq::empty());
        assert(spelled(decimal(n).drop_last(), 10) == 0);
    } else {
        decimal_reads_back(n / 10);
        assert(decimal(n).drop_last() =~= decimal(n / 10));
    }
}

} // verus!
