//! Facts about shifts, masks and truncation, each proved by the bit-vector
//! solver once and used wherever the code splits or joins bytes.

use vstd::prelude::*;

verus! {

/// The fields of a byte that tags and varints are made of.
pub(crate) proof fn lemma_byte_bits(b: u8)
    by (bit_vector)
    ensures
        b & 0x7F == b % 128,
        (b & 0x80 == 0) == (b < 0x80),
        b & 3 == b % 4,
        b & 7 == b % 8,
        b >> 2u8 == b / 4,
        (b >> 2u8) & 7 == (b / 4) % 8,
        b >> 5u8 == b / 32,
        b / 32 < 8,
        0x61u64 ^ ((0x61u8 ^ b) as u64) == b as u64,
{
}

/// Shifts and masks of a word as arithmetic.
pub(crate) proof fn lemma_word_bits(v: u64)
    by (bit_vector)
    ensures
        v >> 0u64 == v,
        v >> 1u64 == v / 2,
        v >> 1u64 <= 0x7fff_ffff_ffff_ffff,
        v >> 7u64 == v / 128,
        v & 1 == v % 2,
        v & 7 == v % 8,
        (v | 1) >> 1u64 == v >> 1u64,
        v | 1 >= 1,
        v < 2 ==> v | 1 == 1,
        v >= 0x80 ==> ((v as u8) | 0x80) == ((v % 128) + 128) as u8,
        v < 0x1_0000_0000 ==> v << 3u64 == v * 8,
        0u64 & v == 0,
{
}

/// One byte lane of a word.
pub(crate) proof fn lemma_lane_bits(v: u64, shift: u64)
    by (bit_vector)
    ensures
        (v >> shift) & 0xff < 256,
        ((v >> shift) & 0xff) as u8 as u64 == (v >> shift) & 0xff,
{
}

/// A tag joins a field number and a wire type.
pub(crate) proof fn lemma_tag_bits(number: u64, wire_type: u64)
    by (bit_vector)
    requires
        number < 0x1_0000_0000,
        wire_type < 8,
    ensures
        (number << 3u64) | wire_type == number * 8 + wire_type,
        number << 3u64 == number * 8,
{
}

/// ZigZag's sign fold.
pub(crate) proof fn lemma_signed_bits(value: i64)
    by (bit_vector)
    ensures
        value ^ 0i64 == value,
        value ^ -1i64 == !value,
        !value == -1i64 - value,
        value >= 0 ==> ((value << 1i64) ^ (value >> 63i64)) as u64 == (2 * value) as u64,
        value < 0 ==> ((value << 1i64) ^ (value >> 63i64)) as u64 == (-2 * value - 1) as u64,
{
}

/// Two bytes joined little-endian, as Snappy's copy offsets are.
pub(crate) proof fn lemma_pair_bits(low: usize, high: usize)
    by (bit_vector)
    requires
        low < 256,
        high < 256,
    ensures
        (high << 8usize) | low == high * 256 + low,
        low | (high << 8usize) == low + 256 * high,
{
}

/// A length below 2^32 split into its little-endian bytes.
pub(crate) proof fn lemma_split_bits(length: usize)
    by (bit_vector)
    requires
        length < 0x1_0000_0000,
    ensures
        length < 60 ==> ((length as u8) << 2u8) == length * 4,
        length < 256 ==> length as u8 == length,
        length < 65536 ==> length as u8 as int + 256 * ((length >> 8usize) as u8 as int) == length,
        length < 16777216 ==> length as u8 as int + 256 * ((length >> 8usize) as u8 as int) + 65536 * ((
        length >> 16usize) as u8 as int) == length,
        length as u8 as int + 256 * ((length >> 8usize) as u8 as int) + 65536 * ((length
            >> 16usize) as u8 as int) + 16777216 * ((length >> 24usize) as u8 as int) == length,
{
}

/// The fields of Snappy's copy tags, and a two-byte offset split in bytes.
pub(crate) proof fn lemma_copy_tag_bits(a: u8, h: u8, p: u8, offset: usize)
    by (bit_vector)
    requires
        a < 8,
        h < 8,
        p < 64,
        offset < 65536,
    ensures
        (1u8 | (a << 2u8) | (h << 5u8)) % 4 == 1,
        ((1u8 | (a << 2u8) | (h << 5u8)) / 4) % 8 == a,
        (1u8 | (a << 2u8) | (h << 5u8)) / 32 == h,
        (2u8 | (p << 2u8)) % 4 == 2,
        (2u8 | (p << 2u8)) / 4 == p,
        offset as u8 as int + 256 * ((offset >> 8usize) as u8 as int) == offset,
        offset < 2048 ==> (offset >> 8usize) < 8,
{
}

/// The top fourteen bits of a 32-bit word index the match table.
pub(crate) proof fn lemma_hash_bits(word: u32)
    by (bit_vector)
    ensures
        word >> 18u32 < 16384,
{
}

/// A 32-bit word as two sixteen-bit halves, and two halves joined.
pub(crate) proof fn lemma_half_word_bits(word: u32, low: u32, high: u32)
    by (bit_vector)
    ensures
        word & 0xffff == word % 0x10000,
        word >> 16u32 == word / 0x10000,
        ((word >> 16u32) << 16u32) | (word & 0xffff) == word,
        low < 0x10000 && high < 0x10000 ==> (high << 16u32) | low == high * 0x10000 + low,
{
}

/// The sixteen-bit lanes of a word.
pub(crate) proof fn lemma_sixteen_bits(x: u64)
    by (bit_vector)
    ensures
        x & 0xffff == x % 0x10000,
        (x >> 16u64) & 0xffff == (x / 0x10000) % 0x10000,
        (x >> 32u64) & 0xffff == (x / 0x1_0000_0000) % 0x10000,
        x >> 48u64 == x / 0x1_0000_0000_0000,
{
}

/// The even and the odd bytes of a word, each spread over sixteen-bit
/// lanes.
pub(crate) proof fn lemma_adler_lanes_bits(word: u64)
    by (bit_vector)
    ensures
        word & 0x00ff_00ff_00ff_00ff == ((word >> 0u64) & 0xff) + ((word >> 16u64) & 0xff) * 0x10000 + ((
        word >> 32u64) & 0xff) * 0x1_0000_0000 + ((word >> 48u64) & 0xff) * 0x1_0000_0000_0000,
        (word >> 8u64) & 0x00ff_00ff_00ff_00ff == ((word >> 8u64) & 0xff) + ((word >> 24u64) & 0xff)
            * 0x10000 + ((word >> 40u64) & 0xff) * 0x1_0000_0000 + ((word >> 56u64) & 0xff)
            * 0x1_0000_0000_0000,
{
}

} // verus!
