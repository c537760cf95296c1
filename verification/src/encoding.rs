//! Little-endian immediates.

use vstd::prelude::*;

verus! {

/// The unsigned number that `bytes` spells, least significant byte first.
pub open spec fn little_endian(bytes: Seq<u8>) -> nat
    decreases bytes.len(),
{
    if bytes.len() == 0 {
        0
    } else {
        bytes[0] as nat + 256 * little_endian(bytes.drop_first())
    }
}

/// The `n` low bytes of `value`, least significant byte first.
pub open spec fn le_bytes(value: nat, n: nat) -> Seq<u8>
    decreases n,
{
    if n == 0 {
        Seq::empty()
    } else {
        seq![(value % 256) as u8] + le_bytes(value / 256, (n - 1) as nat)
    }
}

/// The first value that no longer fits in `n` bytes.
pub open spec fn byte_limit(n: nat) -> nat
    decreases n,
{
    if n == 0 {
        1
    } else {
        256 * byte_limit((n - 1) as nat)
    }
}

/// A 16-bit pattern read as a two's-complement number.
pub open spec fn twos_complement_16(pattern: int) -> int {
    if pattern < 0x8000 {
        pattern
    } else {
        pattern - 0x1_0000
    }
}

/// The 16-bit pattern of a two's-complement number.
pub open spec fn pattern_16(value: int) -> int {
    if value >= 0 {
        value
    } else {
        value + 0x1_0000
    }
}

pub proof fn lemma_byte_limits()
    ensures
        byte_limit(0) == 1,
        byte_limit(1) == 0x100,
        byte_limit(2) == 0x1_0000,
        byte_limit(4) == 0x1_0000_0000,
        byte_limit(8) == 0x1_0000_0000_0000_0000,
{
    reveal_with_fuel(byte_limit, 9);
}

pub proof fn lemma_byte_limit_grows(m: nat, n: nat)
    requires
        m <= n,
    ensures
        0 < byte_limit(m) <= byte_limit(n),
    decreases n,
{
    if m < n {
        lemma_byte_limit_grows(m, (n - 1) as nat);
    } else if n > 0 {
        lemma_byte_limit_grows((m - 1) as nat, (n - 1) as nat);
    }
}

pub proof fn lemma_little_endian_bound(bytes: Seq<u8>)
    ensures
        little_endian(bytes) < byte_limit(bytes.len()),
    decreases bytes.len(),
{
    if bytes.len() > 0 {
        lemma_little_endian_bound(bytes.drop_first());
    }
}

/// Writing a number that was read gives back the bytes it was read from.
pub proof fn le_bytes_of_little_endian(bytes: Seq<u8>)
    ensures
        le_bytes(little_endian(bytes), bytes.len()) == bytes,
    decreases bytes.len(),
{
    if bytes.len() > 0 {
        le_bytes_of_little_endian(bytes.drop_first());
        assert(little_endian(bytes) / 256 == little_endian(bytes.drop_first()));
        assert(little_endian(bytes) % 256 == bytes[0]);
        assert(seq![bytes[0]] + bytes.drop_first() =~= bytes);
    } else {
        assert(bytes =~= Seq::empty());
    }
}

/// Reading a number that was written gives back the number, where it fits.
pub proof fn little_endian_of_le_bytes(value: nat, n: nat)
    requires
        value < byte_limit(n),
    ensures
        le_bytes(value, n).len() == n,
        little_endian(le_bytes(value, n)) == value,
    decreases n,
{
    if n > 0 {
        little_endian_of_le_bytes(value / 256, (n - 1) as nat);
        assert(le_bytes(value, n).drop_first() =~= le_bytes(value / 256, (n - 1) as nat));
    }
}

/// Reads the `n` bytes of `program` at `at` as a little-endian number.
pub fn read_le(program: &[u8], at: usize, n: usize) -> (value: u64)
    requires
        n <= 8,
        at + n <= program@.len(),
    ensures
        value == little_endian(program@.subrange(at as int, at + n)),
        value < byte_limit(n as nat),
{
    let mut value: u64 = 0;
    let mut k: usize = n;
    while k > 0
        invariant
            k <= n <= 8,
            at + n <= program.len(),
            value == little_endian(program@.subrange(at + k, at + n)),
            value < byte_limit((n - k) as nat),
        decreases k,
    {
        k -= 1;
        let byte: u8 = program[at + k];
        proof {
            lemma_byte_limit_grows((n - k) as nat, 8);
            lemma_byte_limits();
            let s = program@.subrange(at + k, at + n);
            assert(s.drop_first() =~= program@.subrange(at + k + 1, at + n));
            lemma_little_endian_bound(s);
        }
        value = value * 256 + byte as u64;
    }
    value
}

/// Reads the two bytes of `program` at `at` as a little-endian two's-complement
/// displacement.
pub fn read_displacement(program: &[u8], at: usize) -> (displacement: i16)
    requires
        at + 2 <= program@.len(),
    ensures
        displacement == twos_complement_16(little_endian(program@.subrange(at as int, at + 2)) as int),
{
    let pattern: u64 = read_le(program, at, 2);
    proof {
        lemma_byte_limits();
    }
    if pattern < 0x8000 {
        pattern as i16
    } else {
        (pattern as i32 - 0x1_0000) as i16
    }
}

/// A pattern and the number it stands for are the same but for 65536, which makes the
/// upper half of the patterns negative. The one gives back the other.
pub proof fn patterns_stand_for_signed_numbers(pattern: int)
    requires
        0 <= pattern < 0x1_0000,
    ensures
        pattern < 0x8000 ==> twos_complement_16(pattern) == pattern,
        pattern >= 0x8000 ==> twos_complement_16(pattern) == pattern - 0x1_0000,
        pattern_16(twos_complement_16(pattern)) == pattern,
{
}

/// The first byte of a number is its remainder by 256, and the others spell the
/// quotient.
pub proof fn bytes_are_quotients_and_remainders(bytes: Seq<u8>, value: nat, n: nat)
    ensures
        little_endian(Seq::empty()) == 0,
        bytes.len() > 0 ==> little_endian(bytes) == bytes[0] + 256 * little_endian(
            bytes.drop_first(),
        ),
        le_bytes(value, 0).len() == 0,
        le_bytes(value, n + 1) == seq![(value % 256) as u8] + le_bytes(value / 256, n),
{
}

} // verus!
