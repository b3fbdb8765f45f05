//! Bit-level building blocks of the bitshuffle filter: 8x8 bit-matrix transposition of a
//! 64-bit word, and the byte/word conversions around it.
use vstd::prelude::*;

verus! {

/// The 64-bit word whose bytes, least significant first, are `b0 .. b7`.
pub open spec fn word_of(b0: u8, b1: u8, b2: u8, b3: u8, b4: u8, b5: u8, b6: u8, b7: u8) -> u64 {
    (b0 as u64) | ((b1 as u64) << 8u64) | ((b2 as u64) << 16u64) | ((b3 as u64) << 24u64)
        | ((b4 as u64) << 32u64) | ((b5 as u64) << 40u64) | ((b6 as u64) << 48u64)
        | ((b7 as u64) << 56u64)
}

/// Byte `k` (0 is the least significant) of `x`.
pub open spec fn byte_of(x: u64, k: int) -> u8 {
    ((x >> ((8 * k) as u64)) & 0xffu64) as u8
}

/// The 8x8 bit matrix held in `x` (bit `8 r + c` is row `r`, column `c`), transposed by
/// three rounds of exchanging off-diagonal blocks.
pub open spec fn trans_bit_8x8_spec(x: u64) -> u64 {
    let t1 = (x ^ (x >> 7u64)) & 0x00AA00AA00AA00AAu64;
    let x1 = x ^ t1 ^ (t1 << 7u64);
    let t2 = (x1 ^ (x1 >> 14u64)) & 0x0000CCCC0000CCCCu64;
    let x2 = x1 ^ t2 ^ (t2 << 14u64);
    let t3 = (x2 ^ (x2 >> 28u64)) & 0x00000000F0F0F0F0u64;
    x2 ^ t3 ^ (t3 << 28u64)
}

/// Bit `8 r + c` of the transposed word is bit `8 c + r` of the word.
pub proof fn lemma_trans_bit_8x8_transposes(x: u64, r: u64, c: u64)
    requires
        r < 8,
        c < 8,
    ensures
        (trans_bit_8x8_spec(x) >> (8 * r + c)) & 1u64 == (x >> (8 * c + r)) & 1u64,
{
    assert(r < 8 && c < 8 ==> (trans_bit_8x8_spec(x) >> (8 * r + c)) & 1u64 == (x >> (8 * c + r)) & 1u64)
        by (bit_vector);
}

/// Transposing twice gives the word back.
pub proof fn lemma_trans_bit_8x8_involution(x: u64)
    ensures
        trans_bit_8x8_spec(trans_bit_8x8_spec(x)) == x,
{
    assert(trans_bit_8x8_spec(trans_bit_8x8_spec(x)) == x) by (bit_vector);
}

/// Splitting a word into bytes and joining them again gives the word back.
pub proof fn lemma_word_of_bytes(x: u64)
    ensures
        word_of(byte_of(x, 0), byte_of(x, 1), byte_of(x, 2), byte_of(x, 3), byte_of(x, 4),
            byte_of(x, 5), byte_of(x, 6), byte_of(x, 7)) == x,
{
    assert(word_of(((x >> 0u64) & 0xffu64) as u8, ((x >> 8u64) & 0xffu64) as u8,
        ((x >> 16u64) & 0xffu64) as u8, ((x >> 24u64) & 0xffu64) as u8,
        ((x >> 32u64) & 0xffu64) as u8, ((x >> 40u64) & 0xffu64) as u8,
        ((x >> 48u64) & 0xffu64) as u8, ((x >> 56u64) & 0xffu64) as u8) == x) by (bit_vector);
}

/// The bytes of a joined word are the bytes it was joined from.
pub proof fn lemma_bytes_of_word(b0: u8, b1: u8, b2: u8, b3: u8, b4: u8, b5: u8, b6: u8, b7: u8)
    ensures
        byte_of(word_of(b0, b1, b2, b3, b4, b5, b6, b7), 0) == b0,
        byte_of(word_of(b0, b1, b2, b3, b4, b5, b6, b7), 1) == b1,
        byte_of(word_of(b0, b1, b2, b3, b4, b5, b6, b7), 2) == b2,
        byte_of(word_of(b0, b1, b2, b3, b4, b5, b6, b7), 3) == b3,
        byte_of(word_of(b0, b1, b2, b3, b4, b5, b6, b7), 4) == b4,
        byte_of(word_of(b0, b1, b2, b3, b4, b5, b6, b7), 5) == b5,
        byte_of(word_of(b0, b1, b2, b3, b4, b5, b6, b7), 6) == b6,
        byte_of(word_of(b0, b1, b2, b3, b4, b5, b6, b7), 7) == b7,
{
    let w = word_of(b0, b1, b2, b3, b4, b5, b6, b7);
    assert(((w >> 0u64) & 0xffu64) as u8 == b0) by (bit_vector)
        requires w == word_of(b0, b1, b2, b3, b4, b5, b6, b7);
    assert(((w >> 8u64) & 0xffu64) as u8 == b1) by (bit_vector)
        requires w == word_of(b0, b1, b2, b3, b4, b5, b6, b7);
    assert(((w >> 16u64) & 0xffu64) as u8 == b2) by (bit_vector)
        requires w == word_of(b0, b1, b2, b3, b4, b5, b6, b7);
    assert(((w >> 24u64) & 0xffu64) as u8 == b3) by (bit_vector)
        requires w == word_of(b0, b1, b2, b3, b4, b5, b6, b7);
    assert(((w >> 32u64) & 0xffu64) as u8 == b4) by (bit_vector)
        requires w == word_of(b0, b1, b2, b3, b4, b5, b6, b7);
    assert(((w >> 40u64) & 0xffu64) as u8 == b5) by (bit_vector)
        requires w == word_of(b0, b1, b2, b3, b4, b5, b6, b7);
    assert(((w >> 48u64) & 0xffu64) as u8 == b6) by (bit_vector)
        requires w == word_of(b0, b1, b2, b3, b4, b5, b6, b7);
    assert(((w >> 56u64) & 0xffu64) as u8 == b7) by (bit_vector)
        requires w == word_of(b0, b1, b2, b3, b4, b5, b6, b7);
}

/// Transposes the 8x8 bit matrix packed into `x`.
pub fn trans_bit_8x8(x: u64) -> (r: u64)
    ensures
        r == trans_bit_8x8_spec(x),
{
    let mut x = x;
    let mut t: u64;
    t = (x ^ (x >> 7u64)) & 0x00AA00AA00AA00AAu64;
    x = x ^ t ^ (t << 7u64);
    t = (x ^ (x >> 14u64)) & 0x0000CCCC0000CCCCu64;
    x = x ^ t ^ (t << 14u64);
    t = (x ^ (x >> 28u64)) & 0x00000000F0F0F0F0u64;
    x = x ^ t ^ (t << 28u64);
    x
}

/// The transpose along the other diagonal, which a big-endian machine applies to a word it
/// read in its own byte order.
pub open spec fn trans_bit_8x8_be_spec(x: u64) -> u64 {
    let t1 = (x ^ (x >> 9u64)) & 0x0055005500550055u64;
    let x1 = x ^ t1 ^ (t1 << 9u64);
    let t2 = (x1 ^ (x1 >> 18u64)) & 0x0000333300003333u64;
    let x2 = x1 ^ t2 ^ (t2 << 18u64);
    let t3 = (x2 ^ (x2 >> 36u64)) & 0x000000000F0F0F0Fu64;
    x2 ^ t3 ^ (t3 << 36u64)
}

/// The 64-bit word with the bytes of `x` in reverse order.
pub open spec fn swap64(x: u64) -> u64 {
    ((x & 0xffu64) << 56u64) | (((x >> 8u64) & 0xffu64) << 48u64) | (((x >> 16u64) & 0xffu64) << 40u64)
        | (((x >> 24u64) & 0xffu64) << 32u64) | (((x >> 32u64) & 0xffu64) << 24u64)
        | (((x >> 40u64) & 0xffu64) << 16u64) | (((x >> 48u64) & 0xffu64) << 8u64) | ((x >> 56u64) & 0xffu64)
}

/// A big-endian machine reads the eight bytes as the byte-swapped word and transposes it along
/// the other diagonal: the result is the byte-swapped little-endian transpose. Its byte `k` is
/// byte `7 - k` of the little-endian result, which that machine writes to bit row `7 - k`, so
/// both machines lay out the bit rows alike.
pub proof fn lemma_trans_bit_8x8_be_swap(x: u64)
    ensures
        trans_bit_8x8_be_spec(swap64(x)) == swap64(trans_bit_8x8_spec(x)),
{
    assert(trans_bit_8x8_be_spec(swap64(x)) == swap64(trans_bit_8x8_spec(x))) by (bit_vector);
}

} // verus!
