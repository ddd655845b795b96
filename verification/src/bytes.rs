//! Little-endian packing of bytes into integers and back.
use vstd::prelude::*;

verus! {

/// The number that `bytes` stand for when the first byte is the least
/// significant one.
pub open spec fn le_value(bytes: Seq<u8>) -> nat
    decreases bytes.len(),
{
    if bytes.len() == 0 {
        0
    } else {
        bytes[0] as nat + 0x100 * le_value(bytes.drop_first())
    }
}

/// Byte `index` of a number, counted from the least significant.
pub open spec fn le_byte(value: nat, index: nat) -> u8
    decreases index,
{
    if index == 0 {
        (value % 0x100) as u8
    } else {
        le_byte(value / 0x100, (index - 1) as nat)
    }
}

/// `256` to the power of `exponent`.
pub open spec fn pow256(exponent: int) -> nat
    decreases exponent,
{
    if exponent <= 0 {
        1
    } else {
        0x100 * pow256(exponent - 1)
    }
}

/// The powers of `256` up to the sixteenth are what they are.
proof fn lemma_pow256_values()
    ensures
        pow256(0) == 1,
        pow256(1) == 0x100,
        pow256(2) == 0x1_0000,
        pow256(3) == 0x100_0000,
        pow256(4) == 0x1_0000_0000,
        pow256(5) == 0x100_0000_0000,
        pow256(6) == 0x1_0000_0000_0000,
        pow256(7) == 0x100_0000_0000_0000,
        pow256(8) == 0x1_0000_0000_0000_0000,
        pow256(9) == 0x100_0000_0000_0000_0000,
        pow256(10) == 0x1_0000_0000_0000_0000_0000,
        pow256(11) == 0x100_0000_0000_0000_0000_0000,
        pow256(12) == 0x1_0000_0000_0000_0000_0000_0000,
        pow256(13) == 0x100_0000_0000_0000_0000_0000_0000,
        pow256(14) == 0x1_0000_0000_0000_0000_0000_0000_0000,
        pow256(15) == 0x100_0000_0000_0000_0000_0000_0000_0000,
        pow256(16) == 0x1_0000_0000_0000_0000_0000_0000_0000_0000int,
{
    reveal_with_fuel(pow256, 18);
}

/// The first `count` bytes of a number, least significant first.
pub open spec fn le_bytes(value: nat, count: nat) -> Seq<u8> {
    Seq::new(count, |i: int| le_byte(value, i as nat))
}

/// A byte sequence read as little-endian 32-bit words, four bytes to a word.
pub open spec fn seq_le_words(bytes: Seq<u8>) -> Seq<u32> {
    Seq::new(bytes.len() / 4, |k: int| le_value(bytes.subrange(4 * k, 4 * k + 4)) as u32)
}

/// A word sequence written out as bytes, least significant byte first.
pub open spec fn seq_le_bytes(words: Seq<u32>) -> Seq<u8> {
    Seq::new(words.len() * 4, |i: int| le_byte(words[i / 4] as nat, (i % 4) as nat))
}

/// The value of four bytes, written out.
pub proof fn lemma_le_value_4(bytes: Seq<u8>)
    requires
        bytes.len() == 4,
    ensures
        le_value(bytes) == bytes[0] + 0x100 * bytes[1] + 0x1_0000 * bytes[2] + 0x100_0000
            * bytes[3],
{
    reveal_with_fuel(le_value, 5);
    let a = bytes.drop_first();
    let b = a.drop_first();
    let c = b.drop_first();
    assert(c.drop_first().len() == 0);
}

/// The value of eight bytes, written out.
pub proof fn lemma_le_value_8(bytes: Seq<u8>)
    requires
        bytes.len() == 8,
    ensures
        le_value(bytes) == le_value(bytes.subrange(0, 4)) + 0x1_0000_0000 * le_value(
            bytes.subrange(4, 8),
        ),
{
    reveal_with_fuel(le_value, 5);
    let low = bytes.subrange(0, 4);
    let high = bytes.subrange(4, 8);
    lemma_le_value_4(low);
    lemma_le_value_4(high);
    let a = bytes.drop_first();
    let b = a.drop_first();
    let c = b.drop_first();
    let d = c.drop_first();
    assert(d =~= high);
}

/// Writing a number out as `count` bytes and reading the bytes back gives
/// what of the number fits into `count` bytes.
pub proof fn lemma_le_round_trip(value: nat, count: nat)
    ensures
        le_value(le_bytes(value, count)) == value % pow256(count as int),
    decreases count,
{
    let bytes = le_bytes(value, count);
    if count > 0 {
        let rest = le_bytes(value / 0x100, (count - 1) as nat);
        assert(bytes.drop_first() =~= rest);
        lemma_le_round_trip(value / 0x100, (count - 1) as nat);
        lemma_pow256_positive(count - 1);
        vstd::arithmetic::div_mod::lemma_mod_breakdown(
            value as int,
            0x100,
            pow256(count - 1) as int,
        );
    }
}

/// Writing a number below `2^64` out as eight bytes and reading the bytes
/// back gives the number.
pub proof fn lemma_u64_le_round_trip(value: u64)
    ensures
        le_value(le_bytes(value as nat, 8)) == value,
{
    lemma_le_round_trip(value as nat, 8);
    lemma_pow256_values();
}

/// Packs four bytes into a word, least significant byte first.
pub fn pack_into_u32(input: &[u8]) -> (word: u32)
    requires
        input@.len() == 4,
    ensures
        word == le_value(input@),
{
    let (b0, b1, b2, b3) = (input[0], input[1], input[2], input[3]);
    proof {
        lemma_le_value_4(input@);
    }
    assert((b0 as u32) | ((b1 as u32) << 8) | ((b2 as u32) << 16) | ((b3 as u32) << 24) == (
    b0 as u32) + 0x100 * (b1 as u32) + 0x1_0000 * (b2 as u32) + 0x100_0000 * (b3 as u32))
        by (bit_vector);
    (b0 as u32) | ((b1 as u32) << 8) | ((b2 as u32) << 16) | ((b3 as u32) << 24)
}

/// Reads two bytes as a 16-bit value, least significant byte first.
pub fn u16_from_le_bytes(bytes: [u8; 2]) -> (value: u16)
    ensures
        value == le_value(bytes@),
{
    let (b0, b1) = (bytes[0], bytes[1]);
    proof {
        reveal_with_fuel(le_value, 3);
        assert(bytes@.drop_first().drop_first().len() == 0);
    }
    assert((b0 as u16) | ((b1 as u16) << 8) == (b0 as u16) + 0x100 * (b1 as u16)) by (bit_vector);
    (b0 as u16) | ((b1 as u16) << 8)
}

/// Reads four bytes as a 32-bit value, least significant byte first.
pub fn u32_from_le_bytes(bytes: [u8; 4]) -> (value: u32)
    ensures
        value == le_value(bytes@),
{
    pack_into_u32(bytes.as_slice())
}

/// Reads eight bytes as a 64-bit value, least significant byte first.
pub fn u64_from_le_bytes(bytes: [u8; 8]) -> (value: u64)
    ensures
        value == le_value(bytes@),
{
    let low = pack_into_u32(vstd::slice::slice_subrange(bytes.as_slice(), 0, 4));
    let high = pack_into_u32(vstd::slice::slice_subrange(bytes.as_slice(), 4, 8));
    proof {
        lemma_le_value_8(bytes@);
    }
    (low as u64) + 0x1_0000_0000 * (high as u64)
}

/// Reads sixteen bytes as a 128-bit value, least significant byte first.
pub fn u128_from_le_bytes(bytes: [u8; 16]) -> (value: u128)
    ensures
        value == le_value(bytes@),
{
    let mut value: u128 = 0;
    let mut i: usize = 16;
    proof {
        assert(bytes@.subrange(16, 16).len() == 0);
    }
    while i > 0
        invariant
            i <= 16,
            value == le_value(bytes@.subrange(i as int, 16)),
            value < pow256(16 - i),
        decreases i,
    {
        i -= 1;
        proof {
            let rest = bytes@.subrange(i as int, 16);
            assert(rest.drop_first() =~= bytes@.subrange(i + 1, 16));
            lemma_pow256_values();
        }
        value = bytes[i] as u128 + 0x100 * value;
    }
    assert(bytes@.subrange(0, 16) =~= bytes@);
    value
}

/// A power of `256` is positive.
proof fn lemma_pow256_positive(exponent: int)
    ensures
        pow256(exponent) > 0,
    decreases exponent,
{
    if exponent > 0 {
        lemma_pow256_positive(exponent - 1);
    }
}

/// Byte `index` of a number is what is left of the number, divided by `256`
/// to the power of `index`, after taking away the multiples of `256`.
pub proof fn lemma_le_byte_is_digit(value: nat, index: nat)
    ensures
        le_byte(value, index) == ((value as int / pow256(index as int) as int) % 0x100) as u8,
    decreases index,
{
    if index == 0 {
        assert(pow256(0) == 1);
    } else {
        let rest = pow256(index - 1) as int;
        let whole = pow256(index as int) as int;
        lemma_le_byte_is_digit(value / 0x100, (index - 1) as nat);
        lemma_pow256_positive(index - 1);
        vstd::arithmetic::div_mod::lemma_div_denominator(value as int, 0x100, rest);
        assert(whole == 0x100 * rest);
        assert((value as int / 0x100) / rest == value as int / whole);
        assert((value / 0x100) as int == value as int / 0x100);
    }
}

/// Byte `index` of a word, counted from the least significant.
pub fn byte_of_word(word: u32, index: usize) -> (byte: u8)
    requires
        index < 4,
    ensures
        byte == le_byte(word as nat, index as nat),
{
    proof {
        lemma_le_byte_is_digit(word as nat, index as nat);
        lemma_pow256_values();
    }
    if index == 0 {
        (word % 0x100) as u8
    } else if index == 1 {
        ((word / 0x100) % 0x100) as u8
    } else if index == 2 {
        ((word / 0x1_0000) % 0x100) as u8
    } else {
        ((word / 0x100_0000) % 0x100) as u8
    }
}

/// Writes a 64-bit value out as eight bytes, least significant first.
pub fn u64_to_le_bytes(value: u64) -> (bytes: [u8; 8])
    ensures
        bytes@ == le_bytes(value as nat, 8),
{
    let bytes = [
        (value % 0x100) as u8,
        ((value / 0x100) % 0x100) as u8,
        ((value / 0x1_0000) % 0x100) as u8,
        ((value / 0x100_0000) % 0x100) as u8,
        ((value / 0x1_0000_0000) % 0x100) as u8,
        ((value / 0x100_0000_0000) % 0x100) as u8,
        ((value / 0x1_0000_0000_0000) % 0x100) as u8,
        ((value / 0x100_0000_0000_0000) % 0x100) as u8,
    ];
    proof {
        lemma_pow256_values();
        assert forall|i: int| 0 <= i < 8 implies bytes@[i] == le_byte(value as nat, i as nat) by {
            lemma_le_byte_is_digit(value as nat, i as nat);
        }
        assert(bytes@ =~= le_bytes(value as nat, 8));
    }
    bytes
}

} // verus!
