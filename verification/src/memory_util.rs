//! Big-endian integer fields and zero padding.

use vstd::prelude::*;

verus! {

/// The number that three bytes spell, most significant byte first.
pub open spec fn be24(b0: u8, b1: u8, b2: u8) -> int {
    b0 as int * 65536 + b1 as int * 256 + b2 as int
}

/// The number that four bytes spell, most significant byte first.
pub open spec fn be32(b0: u8, b1: u8, b2: u8, b3: u8) -> int {
    b0 as int * 16777216 + b1 as int * 65536 + b2 as int * 256 + b3 as int
}

/// The number that the first three bytes of a sequence spell.
pub open spec fn be24_of(s: Seq<u8>) -> int
    recommends
        s.len() >= 3,
{
    be24(s[0], s[1], s[2])
}

/// The number that the first four bytes of a sequence spell.
pub open spec fn be32_of(s: Seq<u8>) -> int
    recommends
        s.len() >= 4,
{
    be32(s[0], s[1], s[2], s[3])
}

/// The four bytes that spell `value`, most significant byte first.
pub open spec fn be32_bytes(value: int) -> Seq<u8> {
    seq![
        ((value / 16777216) % 256) as u8,
        ((value / 65536) % 256) as u8,
        ((value / 256) % 256) as u8,
        (value % 256) as u8,
    ]
}

/// The three bytes that spell `value`, most significant byte first.
pub open spec fn be24_bytes(value: int) -> Seq<u8> {
    seq![((value / 65536) % 256) as u8, ((value / 256) % 256) as u8, (value % 256) as u8]
}

/// How many bytes must follow `number` bytes to reach a multiple of `alignment`.
pub open spec fn padding_len(number: int, alignment: int) -> int
    recommends
        alignment > 0,
{
    (alignment - number % alignment) % alignment
}

/// A run of `n` zero bytes.
pub open spec fn zeros(n: int) -> Seq<u8> {
    Seq::new(n as nat, |i: int| 0u8)
}

/// Reading back the four bytes of a 32-bit value gives the value.
pub proof fn lemma_be32_round_trip(value: u32)
    ensures
        be32_bytes(value as int).len() == 4,
        be32_of(be32_bytes(value as int)) == value,
{
}

/// Reading back the three bytes of a 24-bit value gives the value.
pub proof fn lemma_be24_round_trip(value: u32)
    requires
        value < 0x100_0000,
    ensures
        be24_bytes(value as int).len() == 3,
        be24_of(be24_bytes(value as int)) == value,
{
}

/// The padding after `number` bytes is shorter than `alignment` and completes a
/// multiple of it.
pub proof fn lemma_padding_completes(number: int, alignment: int)
    requires
        number >= 0,
        alignment > 0,
    ensures
        0 <= padding_len(number, alignment) < alignment,
        (number + padding_len(number, alignment)) % alignment == 0,
        number % alignment == 0 ==> padding_len(number, alignment) == 0,
{
    let r = number % alignment;
    let q = number / alignment;
    assert(number == alignment * q + r) by {
        vstd::arithmetic::div_mod::lemma_fundamental_div_mod(number, alignment);
    }
    if r == 0 {
        assert(alignment % alignment == 0) by {
            vstd::arithmetic::div_mod::lemma_mod_self_0(alignment);
        }
    } else {
        assert(0 < alignment - r < alignment);
        assert((alignment - r) % alignment == alignment - r) by {
            vstd::arithmetic::div_mod::lemma_small_mod((alignment - r) as nat, alignment as nat);
        }
        assert(number + (alignment - r) == alignment * (q + 1)) by (nonlinear_arith)
            requires
                number == alignment * q + r,
        ;
        assert((alignment * (q + 1)) % alignment == 0) by {
            vstd::arithmetic::div_mod::lemma_mod_multiples_basic(q + 1, alignment);
            assert(alignment * (q + 1) == (q + 1) * alignment) by (nonlinear_arith);
        }
    }
}

/// Zero bytes that bring `number` bytes up to the next multiple of `alignment`.
pub fn get_alignment_vector(number: usize, alignment: usize) -> (padding: Vec<u8>)
    requires
        alignment > 0,
    ensures
        padding@ == zeros(padding_len(number as int, alignment as int)),
{
    let rest: usize = number % alignment;
    let count: usize = (alignment - rest) % alignment;
    let mut padding: Vec<u8> = Vec::new();
    let mut i: usize = 0;
    while i < count
        invariant
            i <= count,
            padding@ == zeros(i as int),
        decreases count - i,
    {
        padding.push(0u8);
        i = i + 1;
        assert(padding@ =~= zeros(i as int));
    }
    padding
}

/// Reads a 24-bit big-endian number from the first three bytes of `data`.
pub fn u8x3_to_u32(data: &[u8]) -> (value: u32)
    requires
        data@.len() >= 3,
    ensures
        value == be24_of(data@),
        value < 0x100_0000,
{
    let b0: u8 = data[0];
    let b1: u8 = data[1];
    let b2: u8 = data[2];
    assert((((b0 as u32) << 16) | ((b1 as u32) << 8) | (b2 as u32)) == (b0 as u32) * 65536 + (b1
        as u32) * 256 + (b2 as u32)) by (bit_vector);
    ((b0 as u32) << 16) | ((b1 as u32) << 8) | (b2 as u32)
}

/// Reads a 32-bit big-endian number from the first four bytes of `data`.
pub fn u8x4_to_u32(data: &[u8]) -> (value: u32)
    requires
        data@.len() >= 4,
    ensures
        value == be32_of(data@),
{
    let b0: u8 = data[0];
    let b1: u8 = data[1];
    let b2: u8 = data[2];
    let b3: u8 = data[3];
    assert((((b0 as u32) << 24) | ((b1 as u32) << 16) | ((b2 as u32) << 8) | (b3 as u32)) == (b0
        as u32) * 16777216 + (b1 as u32) * 65536 + (b2 as u32) * 256 + (b3 as u32))
        by (bit_vector);
    ((b0 as u32) << 24) | ((b1 as u32) << 16) | ((b2 as u32) << 8) | (b3 as u32)
}

/// Spells a 32-bit number as four bytes, most significant first.
pub fn u32_to_u8x4(value: u32) -> (bytes: [u8; 4])
    ensures
        bytes@ == be32_bytes(value as int),
{
    let b0: u8 = (value >> 24) as u8;
    let b1: u8 = ((value >> 16) & 0xff) as u8;
    let b2: u8 = ((value >> 8) & 0xff) as u8;
    let b3: u8 = (value & 0xff) as u8;
    assert((value >> 24) == (value / 16777216) % 256) by (bit_vector);
    assert(((value >> 16) & 0xff) == (value / 65536) % 256) by (bit_vector);
    assert(((value >> 8) & 0xff) == (value / 256) % 256) by (bit_vector);
    assert((value & 0xff) == value % 256) by (bit_vector);
    let bytes: [u8; 4] = [b0, b1, b2, b3];
    assert(bytes@ =~= be32_bytes(value as int));
    bytes
}

/// Spells a number below 2^24 as three bytes, most significant first.
pub fn u32_to_u8x3(value: u32) -> (bytes: [u8; 3])
    requires
        value < 0x100_0000,
    ensures
        bytes@ == be24_bytes(value as int),
{
    let b0: u8 = ((value >> 16) & 0xff) as u8;
    let b1: u8 = ((value >> 8) & 0xff) as u8;
    let b2: u8 = (value & 0xff) as u8;
    assert(((value >> 16) & 0xff) == (value / 65536) % 256) by (bit_vector);
    assert(((value >> 8) & 0xff) == (value / 256) % 256) by (bit_vector);
    assert((value & 0xff) == value % 256) by (bit_vector);
    let bytes: [u8; 3] = [b0, b1, b2];
    assert(bytes@ =~= be24_bytes(value as int));
    bytes
}

} // verus!
