//! Byte scanning eight bytes at a time without SIMD intrinsics.
//!
//! Every finder loads a `u64` per step and uses the classic bit tricks for
//! "does any byte in this word equal `c`" and "is any byte below `n`". The
//! tricks can mis-flag bytes *after* the first real match because of borrow
//! propagation, so only the lowest flagged byte is trusted. That is exactly
//! the byte we want, and the contracts below say so.

use vstd::prelude::*;
use vstd::bytes::{spec_u64_from_le_bytes, u64_from_le_bytes};
use crate::bits::{lemma_byte_bits, lemma_lane_bits, lemma_word_bits};

verus! {

const LOW_BITS: u64 = 0x0101_0101_0101_0101;
const HIGH_BITS: u64 = 0x8080_8080_8080_8080;

// ----- what the finders find -----

/// `result` is the index of the first byte of `bytes` that `wanted` holds
/// of, or `None` when there is none.
pub open spec fn finds(result: Option<usize>, bytes: Seq<u8>, wanted: spec_fn(u64) -> bool) -> bool {
    match result {
        Some(index) => index < bytes.len() && wanted(bytes[index as int] as u64) && forall|j: int|
            0 <= j < index ==> !wanted(#[trigger] bytes[j] as u64),
        None => forall|j: int| 0 <= j < bytes.len() ==> !wanted(#[trigger] bytes[j] as u64),
    }
}

/// `,`, `"`, `\n`, `\r`.
pub open spec fn csv_special() -> spec_fn(u64) -> bool {
    |byte: u64| byte == 0x2c || byte == 0x22 || byte == 0x0a || byte == 0x0d
}

/// `"`, `\`, and the control bytes below 0x20.
pub open spec fn json_special() -> spec_fn(u64) -> bool {
    |byte: u64| byte == 0x22 || byte == 0x5c || byte < 0x20
}

/// `&`, `<`, `>`, `"`.
pub open spec fn html_special() -> spec_fn(u64) -> bool {
    |byte: u64| byte == 0x26 || byte == 0x3c || byte == 0x3e || byte == 0x22
}

/// `\n`, `\r`.
pub open spec fn line_ending() -> spec_fn(u64) -> bool {
    |byte: u64| byte == 0x0a || byte == 0x0d
}

/// One of three given bytes.
pub open spec fn any_of3(first: u8, second: u8, third: u8) -> spec_fn(u64) -> bool {
    |byte: u64| byte == first || byte == second || byte == third
}

/// One given byte.
pub open spec fn equal_to(value: u64) -> spec_fn(u64) -> bool {
    |byte: u64| byte == value
}

/// Byte `j` of a little-endian word.
pub open spec fn lane(word: u64, j: nat) -> u64 {
    (word >> ((8 * j) as u64)) & 0xff
}

/// The low `k` bytes of a word.
pub open spec fn low_bytes(k: nat) -> u64 {
    if k == 0 {
        0
    } else if k == 1 {
        0xff
    } else if k == 2 {
        0xffff
    } else if k == 3 {
        0xff_ffff
    } else if k == 4 {
        0xffff_ffff
    } else if k == 5 {
        0xff_ffff_ffff
    } else if k == 6 {
        0xffff_ffff_ffff
    } else if k == 7 {
        0xff_ffff_ffff_ffff
    } else {
        0xffff_ffff_ffff_ffff
    }
}

/// None of the low `k` bytes of `word` is wanted.
pub open spec fn none_below(word: u64, k: nat, wanted: spec_fn(u64) -> bool) -> bool
    decreases k,
{
    if k == 0 {
        true
    } else {
        none_below(word, (k - 1) as nat, wanted) && !wanted(lane(word, (k - 1) as nat))
    }
}

/// `hits` flags the wanted bytes of `word` exactly up to the first one:
/// its low `k` bytes are clear just when none of the low `k` bytes of
/// `word` is wanted. Bytes past the first wanted one may be flagged either
/// way.
pub open spec fn flags_exact(hits: u64, word: u64, wanted: spec_fn(u64) -> bool) -> bool {
    forall|k: nat| k <= 8 ==> ((hits & #[trigger] low_bytes(k)) == 0 <==> none_below(word, k, wanted))
}

// ----- facts about the bit tricks -----

proof fn lemma_lane_small(word: u64)
    ensures
        forall|j: nat| j < 8 ==> #[trigger] lane(word, j) < 256,
{
    assert forall|j: nat| j < 8 implies #[trigger] lane(word, j) < 256 by {
        lemma_lane_bits(word, (8 * j) as u64);
    }
}

/// `none_below` for a concrete `k`, spelled out.
pub(crate) proof fn lemma_none_below_unfold(word: u64, wanted: spec_fn(u64) -> bool)
    ensures
        none_below(word, 0, wanted),
        none_below(word, 1, wanted) == !wanted(lane(word, 0)),
        none_below(word, 2, wanted) == (none_below(word, 1, wanted) && !wanted(lane(word, 1))),
        none_below(word, 3, wanted) == (none_below(word, 2, wanted) && !wanted(lane(word, 2))),
        none_below(word, 4, wanted) == (none_below(word, 3, wanted) && !wanted(lane(word, 3))),
        none_below(word, 5, wanted) == (none_below(word, 4, wanted) && !wanted(lane(word, 4))),
        none_below(word, 6, wanted) == (none_below(word, 5, wanted) && !wanted(lane(word, 5))),
        none_below(word, 7, wanted) == (none_below(word, 6, wanted) && !wanted(lane(word, 6))),
        none_below(word, 8, wanted) == (none_below(word, 7, wanted) && !wanted(lane(word, 7))),
{
    reveal_with_fuel(none_below, 2);
}

/// The lanes as the shifts the bit-level lemmas speak of.
pub(crate) proof fn lemma_lanes(word: u64)
    ensures
        lane(word, 0) == (word >> 0u64) & 0xff,
        lane(word, 1) == (word >> 8u64) & 0xff,
        lane(word, 2) == (word >> 16u64) & 0xff,
        lane(word, 3) == (word >> 24u64) & 0xff,
        lane(word, 4) == (word >> 32u64) & 0xff,
        lane(word, 5) == (word >> 40u64) & 0xff,
        lane(word, 6) == (word >> 48u64) & 0xff,
        lane(word, 7) == (word >> 56u64) & 0xff,
{
}

/// The union of two flag words flags the union of what they flag.
proof fn lemma_flags_or(
    h1: u64,
    h2: u64,
    word: u64,
    p1: spec_fn(u64) -> bool,
    p2: spec_fn(u64) -> bool,
    q: spec_fn(u64) -> bool,
)
    requires
        flags_exact(h1, word, p1),
        flags_exact(h2, word, p2),
        forall|b: u64| #[trigger] q(b) == (p1(b) || p2(b)),
    ensures
        flags_exact(h1 | h2, word, q),
{
    assert forall|k: nat| k <= 8 implies ((h1 | h2) & #[trigger] low_bytes(k)) == 0 <==> none_below(
        word,
        k,
        q,
    ) by {
        let m = low_bytes(k);
        assert(((h1 | h2) & m == 0) == ((h1 & m == 0) && (h2 & m == 0))) by (bit_vector);
        lemma_none_below_or(word, k, p1, p2, q);
    }
}

proof fn lemma_none_below_or(
    word: u64,
    k: nat,
    p1: spec_fn(u64) -> bool,
    p2: spec_fn(u64) -> bool,
    q: spec_fn(u64) -> bool,
)
    requires
        forall|b: u64| #[trigger] q(b) == (p1(b) || p2(b)),
    ensures
        none_below(word, k, q) == (none_below(word, k, p1) && none_below(word, k, p2)),
    decreases k,
{
    if k > 0 {
        lemma_none_below_or(word, (k - 1) as nat, p1, p2, q);
    }
}

/// Nothing flagged means nothing wanted in the word.
proof fn lemma_no_hits(hits: u64, word: u64, wanted: spec_fn(u64) -> bool)
    requires
        flags_exact(hits, word, wanted),
        hits == 0,
    ensures
        none_below(word, 8, wanted),
{
    lemma_word_bits(low_bytes(8));
}

/// The byte of the lowest flagged bit is the first wanted byte.
proof fn lemma_first_hit(hits: u64, word: u64, wanted: spec_fn(u64) -> bool)
    requires
        flags_exact(hits, word, wanted),
        hits != 0,
    ensures
        ({
            let first = (vstd::std_specs::bits::u64_trailing_zeros(hits) / 8) as nat;
            &&& first < 8
            &&& none_below(word, first, wanted)
            &&& wanted(lane(word, first))
        }),
{
    broadcast use vstd::std_specs::bits::axiom_u64_trailing_zeros;

    let t = vstd::std_specs::bits::u64_trailing_zeros(hits) as u64;
    assert(hits << ((64 - t) as u64) == 0);
    lemma_lowest_bit_bits(hits, t);
    let first = (t / 8) as nat;
    assert((hits & low_bytes(first)) == 0);
    assert((hits & low_bytes(first + 1)) != 0);
    lemma_none_below_unfold(word, wanted);
}

/// The subtract-and-mask trick flags exactly the bytes that are zero, as
/// far as the lowest flagged byte goes.
proof fn lemma_zero_bytes_bits(x: u64, d: u64, h: u64)
    by (bit_vector)
    requires
        x >= 0x0101_0101_0101_0101 ==> d == x - 0x0101_0101_0101_0101,
        x < 0x0101_0101_0101_0101 ==> d == x - 0x0101_0101_0101_0101 + 0x1_0000_0000_0000_0000,
        h == d & !x & 0x8080_8080_8080_8080,
    ensures
        (h & 0x0) == 0 <==> (true),
        (h & 0xff) == 0 <==> (((x >> 0u64) & 0xff) != 0),
        (h & 0xffff) == 0 <==> (((x >> 0u64) & 0xff) != 0 && ((x >> 8u64) & 0xff) != 0),
        (h & 0xff_ffff) == 0 <==> (((x >> 0u64) & 0xff) != 0 && ((x >> 8u64) & 0xff) != 0 && ((x >> 16u64) & 0xff) != 0),
        (h & 0xffff_ffff) == 0 <==> (((x >> 0u64) & 0xff) != 0 && ((x >> 8u64) & 0xff) != 0 && ((x >> 16u64) & 0xff) != 0 && ((x >> 24u64) & 0xff) != 0),
        (h & 0xff_ffff_ffff) == 0 <==> (((x >> 0u64) & 0xff) != 0 && ((x >> 8u64) & 0xff) != 0 && ((x >> 16u64) & 0xff) != 0 && ((x >> 24u64) & 0xff) != 0 && ((x >> 32u64) & 0xff) != 0),
        (h & 0xffff_ffff_ffff) == 0 <==> (((x >> 0u64) & 0xff) != 0 && ((x >> 8u64) & 0xff) != 0 && ((x >> 16u64) & 0xff) != 0 && ((x >> 24u64) & 0xff) != 0 && ((x >> 32u64) & 0xff) != 0 && ((x >> 40u64) & 0xff) != 0),
        (h & 0xff_ffff_ffff_ffff) == 0 <==> (((x >> 0u64) & 0xff) != 0 && ((x >> 8u64) & 0xff) != 0 && ((x >> 16u64) & 0xff) != 0 && ((x >> 24u64) & 0xff) != 0 && ((x >> 32u64) & 0xff) != 0 && ((x >> 40u64) & 0xff) != 0 && ((x >> 48u64) & 0xff) != 0),
        (h & 0xffff_ffff_ffff_ffff) == 0 <==> (((x >> 0u64) & 0xff) != 0 && ((x >> 8u64) & 0xff) != 0 && ((x >> 16u64) & 0xff) != 0 && ((x >> 24u64) & 0xff) != 0 && ((x >> 32u64) & 0xff) != 0 && ((x >> 40u64) & 0xff) != 0 && ((x >> 48u64) & 0xff) != 0 && ((x >> 56u64) & 0xff) != 0),
{
}

/// XOR with the spread needle zeroes exactly the bytes equal to it.
proof fn lemma_spread_bits(w: u64, v: u64, s: u64)
    by (bit_vector)
    requires
        v < 256,
        s == 0x0101_0101_0101_0101 * v,
    ensures
        (((w ^ s) >> 0u64) & 0xff) == 0 <==> ((w >> 0u64) & 0xff) == v,
        (((w ^ s) >> 8u64) & 0xff) == 0 <==> ((w >> 8u64) & 0xff) == v,
        (((w ^ s) >> 16u64) & 0xff) == 0 <==> ((w >> 16u64) & 0xff) == v,
        (((w ^ s) >> 24u64) & 0xff) == 0 <==> ((w >> 24u64) & 0xff) == v,
        (((w ^ s) >> 32u64) & 0xff) == 0 <==> ((w >> 32u64) & 0xff) == v,
        (((w ^ s) >> 40u64) & 0xff) == 0 <==> ((w >> 40u64) & 0xff) == v,
        (((w ^ s) >> 48u64) & 0xff) == 0 <==> ((w >> 48u64) & 0xff) == v,
        (((w ^ s) >> 56u64) & 0xff) == 0 <==> ((w >> 56u64) & 0xff) == v,
{
}

/// Subtracting the spread limit flags exactly the bytes below it, as far as
/// the lowest flagged byte goes, for limits up to 128.
proof fn lemma_below_bits(w: u64, limit: u64, s: u64, d: u64, h: u64)
    by (bit_vector)
    requires
        limit <= 128,
        s == 0x0101_0101_0101_0101 * limit,
        w >= s ==> d == w - s,
        w < s ==> d == w - s + 0x1_0000_0000_0000_0000,
        h == d & !w & 0x8080_8080_8080_8080,
    ensures
        (h & 0x0) == 0 <==> (true),
        (h & 0xff) == 0 <==> (((w >> 0u64) & 0xff) >= limit),
        (h & 0xffff) == 0 <==> (((w >> 0u64) & 0xff) >= limit && ((w >> 8u64) & 0xff) >= limit),
        (h & 0xff_ffff) == 0 <==> (((w >> 0u64) & 0xff) >= limit && ((w >> 8u64) & 0xff) >= limit && ((w >> 16u64) & 0xff) >= limit),
        (h & 0xffff_ffff) == 0 <==> (((w >> 0u64) & 0xff) >= limit && ((w >> 8u64) & 0xff) >= limit && ((w >> 16u64) & 0xff) >= limit && ((w >> 24u64) & 0xff) >= limit),
        (h & 0xff_ffff_ffff) == 0 <==> (((w >> 0u64) & 0xff) >= limit && ((w >> 8u64) & 0xff) >= limit && ((w >> 16u64) & 0xff) >= limit && ((w >> 24u64) & 0xff) >= limit && ((w >> 32u64) & 0xff) >= limit),
        (h & 0xffff_ffff_ffff) == 0 <==> (((w >> 0u64) & 0xff) >= limit && ((w >> 8u64) & 0xff) >= limit && ((w >> 16u64) & 0xff) >= limit && ((w >> 24u64) & 0xff) >= limit && ((w >> 32u64) & 0xff) >= limit && ((w >> 40u64) & 0xff) >= limit),
        (h & 0xff_ffff_ffff_ffff) == 0 <==> (((w >> 0u64) & 0xff) >= limit && ((w >> 8u64) & 0xff) >= limit && ((w >> 16u64) & 0xff) >= limit && ((w >> 24u64) & 0xff) >= limit && ((w >> 32u64) & 0xff) >= limit && ((w >> 40u64) & 0xff) >= limit && ((w >> 48u64) & 0xff) >= limit),
        (h & 0xffff_ffff_ffff_ffff) == 0 <==> (((w >> 0u64) & 0xff) >= limit && ((w >> 8u64) & 0xff) >= limit && ((w >> 16u64) & 0xff) >= limit && ((w >> 24u64) & 0xff) >= limit && ((w >> 32u64) & 0xff) >= limit && ((w >> 40u64) & 0xff) >= limit && ((w >> 48u64) & 0xff) >= limit && ((w >> 56u64) & 0xff) >= limit),
{
}

/// The lowest set bit of `hits` lies in byte `t / 8`: nothing is flagged
/// below that byte, something is within it.
pub(crate) proof fn lemma_lowest_bit_bits(hits: u64, t: u64)
    by (bit_vector)
    requires
        t < 64,
        (hits >> t) & 1 == 1,
        hits << ((64 - t) as u64) == 0,
    ensures
        t / 8 == 0 ==> (hits & 0x0) == 0 && (hits & 0xff) != 0,
        t / 8 == 1 ==> (hits & 0xff) == 0 && (hits & 0xffff) != 0,
        t / 8 == 2 ==> (hits & 0xffff) == 0 && (hits & 0xff_ffff) != 0,
        t / 8 == 3 ==> (hits & 0xff_ffff) == 0 && (hits & 0xffff_ffff) != 0,
        t / 8 == 4 ==> (hits & 0xffff_ffff) == 0 && (hits & 0xff_ffff_ffff) != 0,
        t / 8 == 5 ==> (hits & 0xff_ffff_ffff) == 0 && (hits & 0xffff_ffff_ffff) != 0,
        t / 8 == 6 ==> (hits & 0xffff_ffff_ffff) == 0 && (hits & 0xff_ffff_ffff_ffff) != 0,
        t / 8 == 7 ==> (hits & 0xff_ffff_ffff_ffff) == 0 && (hits & 0xffff_ffff_ffff_ffff) != 0,
{
}

/// The low `k` bytes of a word are clear just when each of them is zero.
pub(crate) proof fn lemma_zero_lanes_bits(x: u64)
    by (bit_vector)
    ensures
        (x & 0x0) == 0 <==> (true),
        (x & 0xff) == 0 <==> (((x >> 0u64) & 0xff) == 0),
        (x & 0xffff) == 0 <==> (((x >> 0u64) & 0xff) == 0 && ((x >> 8u64) & 0xff) == 0),
        (x & 0xff_ffff) == 0 <==> (((x >> 0u64) & 0xff) == 0 && ((x >> 8u64) & 0xff) == 0 && ((x >> 16u64) & 0xff) == 0),
        (x & 0xffff_ffff) == 0 <==> (((x >> 0u64) & 0xff) == 0 && ((x >> 8u64) & 0xff) == 0 && ((x >> 16u64) & 0xff) == 0 && ((x >> 24u64) & 0xff) == 0),
        (x & 0xff_ffff_ffff) == 0 <==> (((x >> 0u64) & 0xff) == 0 && ((x >> 8u64) & 0xff) == 0 && ((x >> 16u64) & 0xff) == 0 && ((x >> 24u64) & 0xff) == 0 && ((x >> 32u64) & 0xff) == 0),
        (x & 0xffff_ffff_ffff) == 0 <==> (((x >> 0u64) & 0xff) == 0 && ((x >> 8u64) & 0xff) == 0 && ((x >> 16u64) & 0xff) == 0 && ((x >> 24u64) & 0xff) == 0 && ((x >> 32u64) & 0xff) == 0 && ((x >> 40u64) & 0xff) == 0),
        (x & 0xff_ffff_ffff_ffff) == 0 <==> (((x >> 0u64) & 0xff) == 0 && ((x >> 8u64) & 0xff) == 0 && ((x >> 16u64) & 0xff) == 0 && ((x >> 24u64) & 0xff) == 0 && ((x >> 32u64) & 0xff) == 0 && ((x >> 40u64) & 0xff) == 0 && ((x >> 48u64) & 0xff) == 0),
        (x & 0xffff_ffff_ffff_ffff) == 0 <==> (((x >> 0u64) & 0xff) == 0 && ((x >> 8u64) & 0xff) == 0 && ((x >> 16u64) & 0xff) == 0 && ((x >> 24u64) & 0xff) == 0 && ((x >> 32u64) & 0xff) == 0 && ((x >> 40u64) & 0xff) == 0 && ((x >> 48u64) & 0xff) == 0 && ((x >> 56u64) & 0xff) == 0),
{
}

/// The bytes where two words agree are the zero bytes of their XOR.
pub(crate) proof fn lemma_xor_lanes_bits(l: u64, r: u64)
    by (bit_vector)
    ensures
        (((l ^ r) >> 0u64) & 0xff) == 0 <==> ((l >> 0u64) & 0xff) == ((r >> 0u64) & 0xff),
        (((l ^ r) >> 8u64) & 0xff) == 0 <==> ((l >> 8u64) & 0xff) == ((r >> 8u64) & 0xff),
        (((l ^ r) >> 16u64) & 0xff) == 0 <==> ((l >> 16u64) & 0xff) == ((r >> 16u64) & 0xff),
        (((l ^ r) >> 24u64) & 0xff) == 0 <==> ((l >> 24u64) & 0xff) == ((r >> 24u64) & 0xff),
        (((l ^ r) >> 32u64) & 0xff) == 0 <==> ((l >> 32u64) & 0xff) == ((r >> 32u64) & 0xff),
        (((l ^ r) >> 40u64) & 0xff) == 0 <==> ((l >> 40u64) & 0xff) == ((r >> 40u64) & 0xff),
        (((l ^ r) >> 48u64) & 0xff) == 0 <==> ((l >> 48u64) & 0xff) == ((r >> 48u64) & 0xff),
        (((l ^ r) >> 56u64) & 0xff) == 0 <==> ((l >> 56u64) & 0xff) == ((r >> 56u64) & 0xff),
        (l ^ r == 0) == (l == r),
{
}

/// Every lane below `k` of a word with none wanted below `k` is unwanted.
proof fn lemma_none_below_lanes(word: u64, k: nat, wanted: spec_fn(u64) -> bool)
    requires
        none_below(word, k, wanted),
    ensures
        forall|j: nat| j < k ==> !wanted(#[trigger] lane(word, j)),
    decreases k,
{
    if k > 0 {
        lemma_none_below_lanes(word, (k - 1) as nat, wanted);
    }
}

/// Two words loaded from `bytes` at `a` and `b`: equal words hold eight
/// equal bytes; otherwise the lowest set bit of their XOR lies in the
/// first byte where they differ.
pub(crate) proof fn lemma_first_difference(bytes: Seq<u8>, a: int, b: int, left: u64, right: u64)
    requires
        0 <= a,
        0 <= b,
        a + 8 <= bytes.len(),
        b + 8 <= bytes.len(),
        left == spec_u64_from_le_bytes(bytes.subrange(a, a + 8)),
        right == spec_u64_from_le_bytes(bytes.subrange(b, b + 8)),
    ensures
        left == right ==> forall|j: int| 0 <= j < 8 ==> #[trigger] bytes[a + j] == bytes[b + j],
        left != right ==> ({
            let first = (vstd::std_specs::bits::u64_trailing_zeros(left ^ right) / 8) as int;
            &&& first < 8
            &&& forall|j: int| 0 <= j < first ==> #[trigger] bytes[a + j] == bytes[b + j]
            &&& bytes[a + first] != bytes[b + first]
        }),
{
    let nonzero = |v: u64| v != 0;
    let x = left ^ right;
    lemma_window(bytes, a, left, nonzero);
    lemma_window(bytes, b, right, nonzero);
    lemma_lanes(left);
    lemma_lanes(right);
    lemma_lanes(x);
    lemma_xor_lanes_bits(left, right);
    if left == right {
        assert forall|j: int| 0 <= j < 8 implies #[trigger] bytes[a + j] == bytes[b + j] by {
            assert(lane(left, j as nat) == bytes[a + j] as u64);
            assert(lane(right, j as nat) == bytes[b + j] as u64);
        }
    } else {
        lemma_zero_lanes_bits(x);
        lemma_none_below_unfold(x, nonzero);
        assert forall|k: nat| k <= 8 implies ((x & #[trigger] low_bytes(k)) == 0 <==> none_below(
            x,
            k,
            nonzero,
        )) by {
            assert(k == 0 || k == 1 || k == 2 || k == 3 || k == 4 || k == 5 || k == 6 || k == 7 || k == 8);
        }
        lemma_first_hit(x, x, nonzero);
        let first = (vstd::std_specs::bits::u64_trailing_zeros(x) / 8) as nat;
        lemma_none_below_lanes(x, first, nonzero);
        assert forall|j: int| 0 <= j < first implies #[trigger] bytes[a + j] == bytes[b + j] by {
            assert(lane(x, j as nat) == 0);
            assert(j == 0 || j == 1 || j == 2 || j == 3 || j == 4 || j == 5 || j == 6);
            assert(lane(left, j as nat) == bytes[a + j] as u64);
            assert(lane(right, j as nat) == bytes[b + j] as u64);
        }
        assert(first == 0 || first == 1 || first == 2 || first == 3 || first == 4 || first == 5 || first == 6
            || first == 7);
        assert(lane(left, first) == bytes[a + first] as u64);
        assert(lane(right, first) == bytes[b + first] as u64);
    }
}


// ----- the word tricks -----

/// High bit set in every byte of `word` that is zero (lowest match exact).
fn has_zero_byte(word: u64) -> (hits: u64)
    ensures
        flags_exact(hits, word, equal_to(0)),
{
    let hits = word.wrapping_sub(LOW_BITS) & !word & HIGH_BITS;
    proof {
        lemma_zero_bytes_bits(word, word.wrapping_sub(LOW_BITS), hits);
        lemma_lanes(word);
        lemma_none_below_unfold(word, equal_to(0));
        assert forall|k: nat| k <= 8 implies ((hits & #[trigger] low_bytes(k)) == 0 <==> none_below(
            word,
            k,
            equal_to(0),
        )) by {
            if k == 0 {
            } else if k == 1 {
            } else if k == 2 {
            } else if k == 3 {
            } else if k == 4 {
            } else if k == 5 {
            } else if k == 6 {
            } else if k == 7 {
            } else {
            }
        }
    }
    hits
}

/// High bit set in every byte of `word` equal to `value` (lowest match exact).
fn has_byte(word: u64, value: u8) -> (hits: u64)
    ensures
        flags_exact(hits, word, equal_to(value as u64)),
{
    let spread = LOW_BITS * (value as u64);
    let flipped = word ^ spread;
    let hits = has_zero_byte(flipped);
    proof {
        lemma_spread_bits(word, value as u64, spread);
        lemma_lanes(word);
        lemma_lanes(flipped);
        lemma_none_below_unfold(word, equal_to(value as u64));
        lemma_none_below_unfold(flipped, equal_to(0));
        assert forall|k: nat| k <= 8 implies ((hits & #[trigger] low_bytes(k)) == 0 <==> none_below(
            word,
            k,
            equal_to(value as u64),
        )) by {
            assert(none_below(flipped, k, equal_to(0)) == none_below(word, k, equal_to(value as u64)))
                by {
                if k == 0 {
                } else if k == 1 {
                } else if k == 2 {
                } else if k == 3 {
                } else if k == 4 {
                } else if k == 5 {
                } else if k == 6 {
                } else if k == 7 {
                } else {
                }
            }
        }
    }
    hits
}

/// High bit set in every byte of `word` below `limit` (lowest match exact).
/// `limit` must be at most 128.
fn has_byte_below(word: u64, limit: u8) -> (hits: u64)
    requires
        limit <= 128,
    ensures
        flags_exact(hits, word, |byte: u64| byte < limit),
{
    let spread = LOW_BITS * (limit as u64);
    let hits = word.wrapping_sub(spread) & !word & HIGH_BITS;
    proof {
        let wanted = |byte: u64| byte < limit;
        lemma_below_bits(word, limit as u64, spread, word.wrapping_sub(spread), hits);
        lemma_lanes(word);
        lemma_none_below_unfold(word, wanted);
        assert forall|k: nat| k <= 8 implies ((hits & #[trigger] low_bytes(k)) == 0 <==> none_below(
            word,
            k,
            wanted,
        )) by {
            if k == 0 {
            } else if k == 1 {
            } else if k == 2 {
            } else if k == 3 {
            } else if k == 4 {
            } else if k == 5 {
            } else if k == 6 {
            } else if k == 7 {
            } else {
            }
        }
    }
    hits
}

/// Byte index (0 = lowest address) of the lowest flagged byte.
fn first_flagged_byte(hits: u64) -> (index: usize)
    requires
        hits != 0,
    ensures
        index == vstd::std_specs::bits::u64_trailing_zeros(hits) / 8,
        index < 8,
{
    proof {
        broadcast use vstd::std_specs::bits::axiom_u64_trailing_zeros;

    }
    let bit = hits.trailing_zeros() as usize;
    bit / 8
}

// ----- loading words -----

/// The lanes of a word loaded from `bytes[offset..offset + 8]` are those
/// bytes, and the wanted ones among the first `k` are the wanted bytes.
pub(crate) proof fn lemma_window(bytes: Seq<u8>, offset: int, word: u64, wanted: spec_fn(u64) -> bool)
    requires
        0 <= offset,
        offset + 8 <= bytes.len(),
        word == spec_u64_from_le_bytes(bytes.subrange(offset, offset + 8)),
    ensures
        forall|j: nat| j < 8 ==> #[trigger] lane(word, j) == bytes[offset + j] as u64,
        forall|k: nat|
            k <= 8 ==> (#[trigger] none_below(word, k, wanted) <==> forall|j: int|
                offset <= j < offset + k ==> !wanted(#[trigger] bytes[j] as u64)),
{
    let window = bytes.subrange(offset, offset + 8);
    vstd::bytes::lemma_auto_spec_u64_to_from_le_bytes();
    vstd::bytes::spec_u64_to_le_bytes_to_open(word);
    assert(vstd::bytes::spec_u64_to_le_bytes(spec_u64_from_le_bytes(window)) == window);
    lemma_lanes(word);
    lemma_lane_small(word);
    lemma_word_bits(word);
    assert forall|j: nat| j < 8 implies #[trigger] lane(word, j) == bytes[offset + j] as u64 by {
        assert(window[j as int] == bytes[offset + j]);
        lemma_lane_bits(word, 0u64);
        lemma_lane_bits(word, 8u64);
        lemma_lane_bits(word, 16u64);
        lemma_lane_bits(word, 24u64);
        lemma_lane_bits(word, 32u64);
        lemma_lane_bits(word, 40u64);
        lemma_lane_bits(word, 48u64);
        lemma_lane_bits(word, 56u64);
    }
    assert forall|k: nat| k <= 8 implies (#[trigger] none_below(word, k, wanted) <==> forall|j: int|
        offset <= j < offset + k ==> !wanted(#[trigger] bytes[j] as u64)) by {
        lemma_none_below_bytes(bytes, offset, word, k, wanted);
    }
}

/// `none_below` read off the bytes a word was loaded from.
proof fn lemma_none_below_bytes(bytes: Seq<u8>, offset: int, word: u64, k: nat, wanted: spec_fn(u64) -> bool)
    requires
        k <= 8,
        0 <= offset,
        offset + k <= bytes.len(),
        forall|j: nat| j < k ==> #[trigger] lane(word, j) == bytes[offset + j] as u64,
    ensures
        none_below(word, k, wanted) <==> forall|j: int|
            offset <= j < offset + k ==> !wanted(#[trigger] bytes[j] as u64),
    decreases k,
{
    if k > 0 {
        lemma_none_below_bytes(bytes, offset, word, (k - 1) as nat, wanted);
        assert(lane(word, (k - 1) as nat) == bytes[offset + k - 1] as u64);
    }
}

/// Replacing one lane of a word by XOR leaves the others alone; the
/// padding word has `a` in every lane.
proof fn lemma_patch_lane_bits(before: u64, x: u64, i: u64, jj: u64)
    by (bit_vector)
    requires
        x < 256,
        i < 8,
        jj < 8,
    ensures
        ((before ^ (x << (8 * i))) >> (8 * jj)) & 0xff == if i == jj {
            ((before >> (8 * jj)) & 0xff) ^ x
        } else {
            (before >> (8 * jj)) & 0xff
        },
        (0x6161_6161_6161_6161u64 >> (8 * jj)) & 0xff == 0x61,
{
}

pub(crate) fn load_word(bytes: &[u8], offset: usize) -> (word: u64)
    requires
        offset + 8 <= bytes.len(),
    ensures
        word == spec_u64_from_le_bytes(bytes@.subrange(offset as int, offset + 8)),
{
    u64_from_le_bytes(&bytes[offset..offset + 8])
}

/// Loads a tail shorter than eight bytes, padding with `a`. The word is
/// built with shifts rather than through a stack buffer: reloading a
/// buffer as one word right after filling it byte by byte stalls the CPU.
/// A padding byte can still be flagged by the bit tricks after a real hit
/// (or when a finder looks for `a`), which is why `scan` checks the index
/// against the slice length.
fn load_padded_word(tail: &[u8]) -> (word: u64)
    requires
        tail@.len() < 8,
    ensures
        forall|j: nat| j < tail@.len() ==> #[trigger] lane(word, j) == tail@[j as int] as u64,
        forall|j: nat| tail@.len() <= j < 8 ==> #[trigger] lane(word, j) == 0x61,
{
    let padding: u8 = 0x61;
    let mut word = LOW_BITS * (padding as u64);
    let mut index = 0usize;
    proof {
        lemma_lanes(word);
        assert forall|j: nat| j < 8 implies #[trigger] lane(word, j) == 0x61 by {
            lemma_patch_lane_bits(0, 0, 0, j as u64);
        }
    }
    while index < tail.len()
        invariant
            index <= tail@.len(),
            tail@.len() < 8,
            padding == 0x61,
            forall|j: nat| j < index ==> #[trigger] lane(word, j) == tail@[j as int] as u64,
            forall|j: nat| index <= j < 8 ==> #[trigger] lane(word, j) == 0x61,
        decreases tail@.len() - index,
    {
        let byte = tail[index];
        let shift = index * 8;
        let ghost before = word;
        word ^= ((padding ^ byte) as u64) << shift;
        proof {
            let x = (padding ^ byte) as u64;
            let i = index as u64;
            assert forall|j: nat| j < 8 implies #[trigger] lane(word, j) == if j == index {
                lane(before, j) ^ x
            } else {
                lane(before, j)
            } by {
                lemma_patch_lane_bits(before, x, i, j as u64);
            }
            lemma_byte_bits(byte);
        }
        index += 1;
    }
    word
}

// ----- the scan -----

/// Runs `flag` over `bytes` a word at a time and returns the index of the
/// lowest flagged byte. `flag` sets the high bit of every byte it matches.
fn scan<F: Fn(u64) -> u64>(bytes: &[u8], flag: F, Ghost(wanted): Ghost<spec_fn(u64) -> bool>) -> (result: Option<usize>)
    requires
        forall|word: u64| #[trigger] flag.requires((word,)),
        forall|word: u64, hits: u64| #[trigger] flag.ensures((word,), hits) ==> flags_exact(hits, word, wanted),
    ensures
        finds(result, bytes@, wanted),
{
    let mut offset = 0usize;
    while bytes.len() - offset >= 8
        invariant
            offset <= bytes@.len(),
            forall|j: int| 0 <= j < offset ==> !wanted(#[trigger] bytes@[j] as u64),
            forall|word: u64| #[trigger] flag.requires((word,)),
            forall|word: u64, hits: u64| #[trigger] flag.ensures((word,), hits) ==> flags_exact(hits, word, wanted),
        decreases bytes@.len() - offset,
    {
        let word = load_word(bytes, offset);
        let hits = flag(word);
        proof {
            lemma_window(bytes@, offset as int, word, wanted);
        }
        if hits != 0 {
            let first = first_flagged_byte(hits);
            proof {
                lemma_first_hit(hits, word, wanted);
            }
            return Some(offset + first);
        }
        proof {
            lemma_no_hits(hits, word, wanted);
        }
        offset += 8;
    }
    if offset == bytes.len() {
        return None;
    }
    // The tail. A slice of eight bytes or more reloads its last eight: they
    // overlap the previous word, which held no hit, so any hit found is in
    // the tail. A shorter slice is padded with a byte no finder flags.
    if bytes.len() >= 8 {
        let start = bytes.len() - 8;
        let word = load_word(bytes, start);
        let hits = flag(word);
        proof {
            lemma_window(bytes@, start as int, word, wanted);
        }
        if hits == 0 {
            proof {
                lemma_no_hits(hits, word, wanted);
            }
            return None;
        }
        let first = first_flagged_byte(hits);
        proof {
            lemma_first_hit(hits, word, wanted);
        }
        return Some(start + first);
    }
    let word = load_padded_word(bytes);
    let hits = flag(word);
    if hits == 0 {
        proof {
            lemma_no_hits(hits, word, wanted);
            lemma_none_below_bytes(bytes@, 0, word, bytes@.len(), wanted);
            lemma_none_below_prefix(word, bytes@.len(), 8, wanted);
        }
        return None;
    }
    let first = first_flagged_byte(hits);
    proof {
        lemma_first_hit(hits, word, wanted);
    }
    if first >= bytes.len() {
        proof {
            lemma_none_below_prefix(word, bytes@.len(), first as nat, wanted);
            lemma_none_below_bytes(bytes@, 0, word, bytes@.len(), wanted);
        }
        return None;
    }
    proof {
        lemma_none_below_bytes(bytes@, 0, word, first as nat, wanted);
    }
    Some(first)
}

/// Fewer bytes hold no more wanted ones.
proof fn lemma_none_below_prefix(word: u64, k: nat, m: nat, wanted: spec_fn(u64) -> bool)
    requires
        k <= m,
        none_below(word, m, wanted),
    ensures
        none_below(word, k, wanted),
    decreases m,
{
    if k < m {
        lemma_none_below_prefix(word, k, (m - 1) as nat, wanted);
    }
}

// ----- the finders -----

/// Index of the first `,`, `"`, `\n`, or `\r` in `bytes`.
pub fn find_csv_delimiter(bytes: &[u8]) -> (index: Option<usize>)
    ensures
        finds(index, bytes@, csv_special()),
{
    scan(
        bytes,
        (|word: u64| -> (hits: u64)
            ensures
                flags_exact(hits, word, csv_special()),
            {
                let comma = has_byte(word, 0x2c);
                let quote = has_byte(word, 0x22);
                let newline = has_byte(word, 0x0a);
                let carriage = has_byte(word, 0x0d);
                proof {
                    let two = |byte: u64| byte == 0x2c || byte == 0x22;
                    let three = |byte: u64| byte == 0x2c || byte == 0x22 || byte == 0x0a;
                    lemma_flags_or(comma, quote, word, equal_to(0x2c), equal_to(0x22), two);
                    lemma_flags_or(comma | quote, newline, word, two, equal_to(0x0a), three);
                    lemma_flags_or(comma | quote | newline, carriage, word, three, equal_to(0x0d), csv_special());
                }
                comma | quote | newline | carriage
            }),
        Ghost(csv_special()),
    )
}

/// Index of the first `"`, `\`, or control byte below 0x20 in `bytes`.
pub fn find_json_escape(bytes: &[u8]) -> (index: Option<usize>)
    ensures
        finds(index, bytes@, json_special()),
{
    scan(
        bytes,
        (|word: u64| -> (hits: u64)
            ensures
                flags_exact(hits, word, json_special()),
            {
                let quote = has_byte(word, 0x22);
                let backslash = has_byte(word, 0x5c);
                let control = has_byte_below(word, 0x20);
                proof {
                    let two = |byte: u64| byte == 0x22 || byte == 0x5c;
                    lemma_flags_or(quote, backslash, word, equal_to(0x22), equal_to(0x5c), two);
                    lemma_flags_or(quote | backslash, control, word, two, |byte: u64| byte < 0x20u8, json_special());
                }
                quote | backslash | control
            }),
        Ghost(json_special()),
    )
}

/// Index of the first `&`, `<`, `>`, or `"` in `bytes`.
pub fn find_html_special(bytes: &[u8]) -> (index: Option<usize>)
    ensures
        finds(index, bytes@, html_special()),
{
    scan(
        bytes,
        (|word: u64| -> (hits: u64)
            ensures
                flags_exact(hits, word, html_special()),
            {
                let ampersand = has_byte(word, 0x26);
                let less = has_byte(word, 0x3c);
                let greater = has_byte(word, 0x3e);
                let quote = has_byte(word, 0x22);
                proof {
                    let two = |byte: u64| byte == 0x26 || byte == 0x3c;
                    let three = |byte: u64| byte == 0x26 || byte == 0x3c || byte == 0x3e;
                    lemma_flags_or(ampersand, less, word, equal_to(0x26), equal_to(0x3c), two);
                    lemma_flags_or(ampersand | less, greater, word, two, equal_to(0x3e), three);
                    lemma_flags_or(ampersand | less | greater, quote, word, three, equal_to(0x22), html_special());
                }
                ampersand | less | greater | quote
            }),
        Ghost(html_special()),
    )
}

/// Index of the first `\n` or `\r` in `bytes`.
pub fn find_line_ending(bytes: &[u8]) -> (index: Option<usize>)
    ensures
        finds(index, bytes@, line_ending()),
{
    scan(
        bytes,
        (|word: u64| -> (hits: u64)
            ensures
                flags_exact(hits, word, line_ending()),
            {
                let newline = has_byte(word, 0x0a);
                let carriage = has_byte(word, 0x0d);
                proof {
                    lemma_flags_or(newline, carriage, word, equal_to(0x0a), equal_to(0x0d), line_ending());
                }
                newline | carriage
            }),
        Ghost(line_ending()),
    )
}

/// Index of the first byte equal to any of the three needles.
pub fn find_any_of3(bytes: &[u8], first: u8, second: u8, third: u8) -> (index: Option<usize>)
    ensures
        finds(index, bytes@, any_of3(first, second, third)),
{
    scan(
        bytes,
        (|word: u64| -> (hits: u64)
            ensures
                flags_exact(hits, word, any_of3(first, second, third)),
            {
                let one = has_byte(word, first);
                let two = has_byte(word, second);
                let three = has_byte(word, third);
                proof {
                    let both = |byte: u64| byte == first || byte == second;
                    lemma_flags_or(one, two, word, equal_to(first as u64), equal_to(second as u64), both);
                    lemma_flags_or(one | two, three, word, both, equal_to(third as u64), any_of3(first, second, third));
                }
                one | two | three
            }),
        Ghost(any_of3(first, second, third)),
    )
}

/// Index of the first `needle` in `bytes`.
pub fn find_byte(bytes: &[u8], needle: u8) -> (index: Option<usize>)
    ensures
        finds(index, bytes@, equal_to(needle as u64)),
{
    scan(
        bytes,
        (|word: u64| -> (hits: u64)
            ensures
                flags_exact(hits, word, equal_to(needle as u64)),
            { has_byte(word, needle) }),
        Ghost(equal_to(needle as u64)),
    )
}

} // verus!
