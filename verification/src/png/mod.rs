//! PNG: decoding and encoding filtered rows, and the Adler-32 sum of the
//! zlib stream around them.

pub mod chunks;
pub mod reader;
pub mod writer;

use vstd::prelude::*;
use vstd::bytes::spec_u64_from_le_bytes;
use crate::bits::{lemma_adler_lanes_bits, lemma_half_word_bits, lemma_sixteen_bits};
use crate::scan::{lane, lemma_lanes, lemma_window, load_word};

verus! {

/// Adler-32's modulus, the largest prime below 2^16.
pub open spec fn modulus() -> int {
    65521
}

/// The sum of the bytes.
pub open spec fn bytes_total(bytes: Seq<u8>) -> int
    decreases bytes.len(),
{
    if bytes.len() == 0 {
        0
    } else {
        bytes_total(bytes.drop_last()) + bytes.last()
    }
}

/// The sum of the running totals after each byte: what the second Adler
/// sum adds up, before any reduction.
pub open spec fn bytes_weighted(bytes: Seq<u8>) -> int
    decreases bytes.len(),
{
    if bytes.len() == 0 {
        0
    } else {
        bytes_weighted(bytes.drop_last()) + bytes_total(bytes)
    }
}

/// Adler-32 carried from `previous` over `bytes`: the low half of
/// `previous` grows by each byte, the high half by each new low half,
/// both modulo 65521. Over no bytes `previous` comes back as it is.
pub open spec fn spec_adler32_update(previous: u32, bytes: Seq<u8>) -> u32 {
    if bytes.len() == 0 {
        previous
    } else {
        let a = previous % 65536;
        let b = previous / 65536;
        let low = (a + bytes_total(bytes)) % modulus();
        let high = (b + bytes.len() * a + bytes_weighted(bytes)) % modulus();
        (high * 65536 + low) as u32
    }
}

/// The loop Adler-32 is defined by: both sums reduced after every byte.
pub open spec fn adler_byte_loop(a: int, b: int, bytes: Seq<u8>) -> (int, int)
    decreases bytes.len(),
{
    if bytes.len() == 0 {
        (a, b)
    } else {
        let (x, y) = adler_byte_loop(a, b, bytes.drop_last());
        let next = (x + bytes.last()) % modulus();
        (next, (y + next) % modulus())
    }
}

proof fn lemma_total_append(front: Seq<u8>, back: Seq<u8>)
    ensures
        bytes_total(front + back) == bytes_total(front) + bytes_total(back),
        bytes_weighted(front + back) == bytes_weighted(front) + back.len() * bytes_total(front)
            + bytes_weighted(back),
    decreases back.len(),
{
    if back.len() == 0 {
        assert(front + back =~= front);
    } else {
        lemma_total_append(front, back.drop_last());
        assert((front + back).drop_last() =~= front + back.drop_last());
        assert((front + back).last() == back.last());
        assert(back.len() * bytes_total(front) == (back.len() - 1) * bytes_total(front) + bytes_total(
            front,
        )) by (nonlinear_arith);
    }
}

proof fn lemma_total_bounds(bytes: Seq<u8>)
    ensures
        0 <= bytes_total(bytes) <= 255 * bytes.len(),
        0 <= bytes_weighted(bytes),
        2 * bytes_weighted(bytes) <= 255 * bytes.len() * (bytes.len() + 1),
    decreases bytes.len(),
{
    if bytes.len() > 0 {
        let n = bytes.len() as int;
        let rest = bytes.drop_last();
        lemma_total_bounds(rest);
        assert(2 * bytes_weighted(bytes) == 2 * bytes_weighted(rest) + 2 * bytes_total(bytes));
        assert(2 * bytes_weighted(bytes) <= 255 * n * (n + 1)) by (nonlinear_arith)
            requires
                2 * bytes_weighted(bytes) == 2 * bytes_weighted(rest) + 2 * bytes_total(bytes),
                2 * bytes_weighted(rest) <= 255 * (n - 1) * ((n - 1) + 1),
                bytes_total(bytes) <= 255 * n,
        ;
    }
}

/// The running sums of eight bytes, spelled out.
proof fn lemma_word_sums(bytes: Seq<u8>)
    requires
        bytes.len() == 8,
    ensures
        bytes_total(bytes) == bytes[0] + bytes[1] + bytes[2] + bytes[3] + bytes[4] + bytes[5] + bytes[6]
            + bytes[7],
        bytes_weighted(bytes) == 8 * bytes[0] + 7 * bytes[1] + 6 * bytes[2] + 5 * bytes[3] + 4 * bytes[4]
            + 3 * bytes[5] + 2 * bytes[6] + bytes[7],
{
    assert(bytes.subrange(0, 1).drop_last() =~= bytes.subrange(0, 0));
    assert(bytes.subrange(0, 2).drop_last() =~= bytes.subrange(0, 1));
    assert(bytes.subrange(0, 3).drop_last() =~= bytes.subrange(0, 2));
    assert(bytes.subrange(0, 4).drop_last() =~= bytes.subrange(0, 3));
    assert(bytes.subrange(0, 5).drop_last() =~= bytes.subrange(0, 4));
    assert(bytes.subrange(0, 6).drop_last() =~= bytes.subrange(0, 5));
    assert(bytes.subrange(0, 7).drop_last() =~= bytes.subrange(0, 6));
    assert(bytes.subrange(0, 8).drop_last() =~= bytes.subrange(0, 7));
    assert(bytes.subrange(0, 0) =~= Seq::<u8>::empty());
    assert(bytes.subrange(0, 8) =~= bytes);
    assert(bytes_total(bytes.subrange(0, 1)) == bytes_total(bytes.subrange(0, 0)) + bytes[0]);
    assert(bytes_total(bytes.subrange(0, 2)) == bytes_total(bytes.subrange(0, 1)) + bytes[1]);
    assert(bytes_total(bytes.subrange(0, 3)) == bytes_total(bytes.subrange(0, 2)) + bytes[2]);
    assert(bytes_total(bytes.subrange(0, 4)) == bytes_total(bytes.subrange(0, 3)) + bytes[3]);
    assert(bytes_total(bytes.subrange(0, 5)) == bytes_total(bytes.subrange(0, 4)) + bytes[4]);
    assert(bytes_total(bytes.subrange(0, 6)) == bytes_total(bytes.subrange(0, 5)) + bytes[5]);
    assert(bytes_total(bytes.subrange(0, 7)) == bytes_total(bytes.subrange(0, 6)) + bytes[6]);
    assert(bytes_total(bytes.subrange(0, 8)) == bytes_total(bytes.subrange(0, 7)) + bytes[7]);
    assert(bytes_weighted(bytes.subrange(0, 1)) == bytes_weighted(bytes.subrange(0, 0)) + bytes_total(
        bytes.subrange(0, 1),
    ));
    assert(bytes_weighted(bytes.subrange(0, 2)) == bytes_weighted(bytes.subrange(0, 1)) + bytes_total(
        bytes.subrange(0, 2),
    ));
    assert(bytes_weighted(bytes.subrange(0, 3)) == bytes_weighted(bytes.subrange(0, 2)) + bytes_total(
        bytes.subrange(0, 3),
    ));
    assert(bytes_weighted(bytes.subrange(0, 4)) == bytes_weighted(bytes.subrange(0, 3)) + bytes_total(
        bytes.subrange(0, 4),
    ));
    assert(bytes_weighted(bytes.subrange(0, 5)) == bytes_weighted(bytes.subrange(0, 4)) + bytes_total(
        bytes.subrange(0, 5),
    ));
    assert(bytes_weighted(bytes.subrange(0, 6)) == bytes_weighted(bytes.subrange(0, 5)) + bytes_total(
        bytes.subrange(0, 6),
    ));
    assert(bytes_weighted(bytes.subrange(0, 7)) == bytes_weighted(bytes.subrange(0, 6)) + bytes_total(
        bytes.subrange(0, 7),
    ));
    assert(bytes_weighted(bytes.subrange(0, 8)) == bytes_weighted(bytes.subrange(0, 7)) + bytes_total(
        bytes.subrange(0, 8),
    ));
}

/// `x` as four sixteen-bit lanes.
pub open spec fn lanes16(x0: int, x1: int, x2: int, x3: int) -> int {
    x0 + x1 * 0x10000 + x2 * 0x1_0000_0000 + x3 * 0x1_0000_0000_0000
}

/// A sum of lanes below 2^64 reduced modulo 2^64 and taken from bit 48:
/// the top lane, when the lanes below it hold less than 2^48.
proof fn lemma_top_lane(low: int, high: int, top: int)
    requires
        0 <= low < 0x1_0000_0000_0000,
        0 <= top < 0x10000,
        0 <= high,
    ensures
        ((low + top * 0x1_0000_0000_0000 + high * 0x1_0000_0000_0000_0000) % 0x1_0000_0000_0000_0000)
            / 0x1_0000_0000_0000 == top,
{
    let v = low + top * 0x1_0000_0000_0000;
    vstd::arithmetic::div_mod::lemma_mod_multiples_vanish(high, v, 0x1_0000_0000_0000_0000);
    vstd::arithmetic::div_mod::lemma_small_mod(v as nat, 0x1_0000_0000_0000_0000);
    vstd::arithmetic::div_mod::lemma_fundamental_div_mod_converse(v, 0x1_0000_0000_0000, top, low);
}

/// Multiplying by one in every lane puts the sum of the lanes in the
/// top lane.
proof fn lemma_dot_ones(x: u64, x0: int, x1: int, x2: int, x3: int)
    requires
        0 <= x0 && 0 <= x1 && 0 <= x2 && 0 <= x3,
        x0 + x1 + x2 + x3 < 0x10000,
        x == lanes16(x0, x1, x2, x3),
    ensures
        ((x as int * 0x0001_0001_0001_0001) % 0x1_0000_0000_0000_0000) / 0x1_0000_0000_0000 == x0 + x1 + x2
            + x3,
{
    let low = x0 + (x0 + x1) * 0x10000 + (x0 + x1 + x2) * 0x1_0000_0000;
    let high = x1 + x2 + x3 + (x2 + x3) * 0x10000 + x3 * 0x1_0000_0000;
    assert(x as int * 0x0001_0001_0001_0001 == low + (x0 + x1 + x2 + x3) * 0x1_0000_0000_0000 + high
        * 0x1_0000_0000_0000_0000);
    lemma_top_lane(low, high, x0 + x1 + x2 + x3);
}

/// The even bytes' weights 0, 2, 4, 6, laid out so the top lane of the
/// product is the weighted sum.
proof fn lemma_dot_even(x: u64, x0: int, x1: int, x2: int, x3: int)
    requires
        0 <= x0 && 0 <= x1 && 0 <= x2 && 0 <= x3,
        x0 <= 4000 && x1 <= 4000 && x2 <= 4000 && x3 <= 4000,
        x == lanes16(x0, x1, x2, x3),
    ensures
        ((x as int * 0x0000_0002_0004_0006) % 0x1_0000_0000_0000_0000) / 0x1_0000_0000_0000 == 2 * x1 + 4
            * x2 + 6 * x3,
{
    let low = 6 * x0 + (4 * x0 + 6 * x1) * 0x10000 + (2 * x0 + 4 * x1 + 6 * x2) * 0x1_0000_0000;
    let high = 2 * x2 + 4 * x3 + (2 * x3) * 0x10000;
    assert(x as int * 0x0000_0002_0004_0006 == low + (2 * x1 + 4 * x2 + 6 * x3) * 0x1_0000_0000_0000 + high
        * 0x1_0000_0000_0000_0000);
    lemma_top_lane(low, high, 2 * x1 + 4 * x2 + 6 * x3);
}

/// The odd bytes' weights 1, 3, 5, 7, laid out the same way.
proof fn lemma_dot_odd(x: u64, x0: int, x1: int, x2: int, x3: int)
    requires
        0 <= x0 && 0 <= x1 && 0 <= x2 && 0 <= x3,
        x0 <= 4000 && x1 <= 4000 && x2 <= 4000 && x3 <= 4000,
        x == lanes16(x0, x1, x2, x3),
    ensures
        ((x as int * 0x0001_0003_0005_0007) % 0x1_0000_0000_0000_0000) / 0x1_0000_0000_0000 == x0 + 3 * x1
            + 5 * x2 + 7 * x3,
{
    let low = 7 * x0 + (5 * x0 + 7 * x1) * 0x10000 + (3 * x0 + 5 * x1 + 7 * x2) * 0x1_0000_0000;
    let high = x1 + 3 * x2 + 5 * x3 + (x2 + 3 * x3) * 0x10000 + x3 * 0x1_0000_0000;
    assert(x as int * 0x0001_0003_0005_0007 == low + (x0 + 3 * x1 + 5 * x2 + 7 * x3) * 0x1_0000_0000_0000
        + high * 0x1_0000_0000_0000_0000);
    lemma_top_lane(low, high, x0 + 3 * x1 + 5 * x2 + 7 * x3);
}

/// Adler-32 carried from `previous` over `bytes`; pass `1` to start.
/// Sixty-four bytes at a time the sums come from lane arithmetic: the
/// even and odd bytes of each word add up in sixteen-bit lanes, a second
/// set of lanes weighs them by the words still to come, and three
/// multiplies take the dot products.
#[verifier::rlimit(60)]
pub fn adler32_update(previous: u32, bytes: &[u8]) -> (sum: u32)
    ensures
        sum == spec_adler32_update(previous, bytes@),
{
    let length = bytes.len();
    let mut a = previous & 0xffff;
    let mut b = previous >> 16;
    proof {
        lemma_half_word_bits(previous, 0, 0);
    }
    if length == 0 {
        return (b << 16) | a;
    }
    let ghost a0 = a as int;
    let ghost b0 = b as int;
    let mut run_start = 0usize;
    proof {
        assert(bytes@.subrange(0, 0) =~= Seq::<u8>::empty());
    }
    while run_start < length
        invariant
            length == bytes@.len(),
            0 < length,
            run_start <= length,
            a0 < 65536,
            b0 < 65536,
            a < 65536,
            b < 65536,
            run_start == 0 ==> a == a0 && b == b0,
            run_start > 0 ==> a < modulus() && b < modulus(),
            (a as int) % modulus() == (a0 + bytes_total(bytes@.subrange(0, run_start as int))) % modulus(),
            (b as int) % modulus() == (b0 + run_start * a0 + bytes_weighted(bytes@.subrange(0, run_start as int)))
                % modulus(),
        decreases length - run_start,
    {
        let run_end = if length - run_start > 5552 {
            run_start + 5552
        } else {
            length
        };
        let ghost ra = a as int;
        let ghost rb = b as int;
        let mut position = run_start;
        proof {
            assert(bytes@.subrange(run_start as int, run_start as int) =~= Seq::<u8>::empty());
        }
        while run_end - position >= 64
            invariant
                length == bytes@.len(),
                run_start <= position <= run_end <= length,
                run_end - run_start <= 5552,
                0 <= ra < 65536,
                0 <= rb < 65536,
                a == ra + bytes_total(bytes@.subrange(run_start as int, position as int)),
                b == rb + (position - run_start) * ra + bytes_weighted(
                    bytes@.subrange(run_start as int, position as int),
                ),
            decreases run_end - position,
        {
            let (sum, weighted) = adler_block(bytes, position);
            let ghost block = bytes@.subrange(position as int, position + 64);
            let ghost done = bytes@.subrange(run_start as int, position as int);
            proof {
                lemma_total_append(done, block);
                assert(done + block =~= bytes@.subrange(run_start as int, position + 64));
                lemma_run_bound(done + block, ra, rb);
                assert((position - run_start + 64) * ra == (position - run_start) * ra + 64 * ra)
                    by (nonlinear_arith);
                lemma_total_bounds(done);
                assert(64 * a == 64 * ra + 64 * bytes_total(done));
            }
            b += 64 * a + weighted;
            a += sum;
            position += 64;
        }
        while position < run_end
            invariant
                length == bytes@.len(),
                run_start <= position <= run_end <= length,
                run_end - run_start <= 5552,
                0 <= ra < 65536,
                0 <= rb < 65536,
                a == ra + bytes_total(bytes@.subrange(run_start as int, position as int)),
                b == rb + (position - run_start) * ra + bytes_weighted(
                    bytes@.subrange(run_start as int, position as int),
                ),
            decreases run_end - position,
        {
            let ghost done = bytes@.subrange(run_start as int, position as int);
            let ghost next = bytes@.subrange(run_start as int, position + 1);
            proof {
                assert(next.drop_last() =~= done);
                lemma_run_bound(next, ra, rb);
                assert((position - run_start + 1) * ra == (position - run_start) * ra + ra)
                    by (nonlinear_arith);
            }
            a += bytes[position] as u32;
            b += a;
            position += 1;
        }
        proof {
            let run = bytes@.subrange(run_start as int, run_end as int);
            let before = bytes@.subrange(0, run_start as int);
            lemma_total_append(before, run);
            assert(before + run =~= bytes@.subrange(0, run_end as int));
            lemma_mod_sums(a0, b0, ra, rb, run_start as int, bytes_total(before), bytes_weighted(before),
                bytes_total(run), bytes_weighted(run), run.len() as int);
        }
        a = a % 65521;
        b = b % 65521;
        run_start = run_end;
    }
    proof {
        assert(bytes@.subrange(0, length as int) =~= bytes@);
        lemma_half_word_bits(0, a, b);
    }
    (b << 16) | a
}

/// One run stays within 32 bits: 5552 is the longest run for which the
/// second sum cannot overflow, as zlib derives it.
proof fn lemma_run_bound(done: Seq<u8>, ra: int, rb: int)
    requires
        done.len() <= 5552,
        0 <= ra < 65536,
        0 <= rb < 65536,
    ensures
        rb + done.len() * ra + bytes_weighted(done) + 0x10000 < 0x1_0000_0000,
        ra + bytes_total(done) < 0x1_0000_0000,
{
    lemma_total_bounds(done);
    let n = done.len() as int;
    assert(rb + n * ra + bytes_weighted(done) + 0x10000 < 0x1_0000_0000) by (nonlinear_arith)
        requires
            0 <= n <= 5552,
            0 <= ra < 65536,
            0 <= rb < 65536,
            2 * bytes_weighted(done) <= 255 * n * (n + 1),
    ;
}

/// Reducing at the end of a run keeps both sums congruent to the whole.
proof fn lemma_mod_sums(
    a0: int,
    b0: int,
    ra: int,
    rb: int,
    start: int,
    total_before: int,
    weighted_before: int,
    total_run: int,
    weighted_run: int,
    run_length: int,
)
    requires
        ra % modulus() == (a0 + total_before) % modulus(),
        rb % modulus() == (b0 + start * a0 + weighted_before) % modulus(),
        0 <= run_length,
    ensures
        (ra + total_run) % modulus() == (a0 + (total_before + total_run)) % modulus(),
        (rb + run_length * ra + weighted_run) % modulus() == (b0 + (start + run_length) * a0 + (
        weighted_before + run_length * total_before + weighted_run)) % modulus(),
{
    let m = modulus();
    vstd::arithmetic::div_mod::lemma_add_mod_noop(ra, total_run, m);
    vstd::arithmetic::div_mod::lemma_add_mod_noop(a0 + total_before, total_run, m);
    assert(a0 + (total_before + total_run) == (a0 + total_before) + total_run);
    let x = a0 + total_before;
    vstd::arithmetic::div_mod::lemma_mul_mod_noop_right(run_length, ra, m);
    vstd::arithmetic::div_mod::lemma_mul_mod_noop_right(run_length, x, m);
    vstd::arithmetic::div_mod::lemma_add_mod_noop(rb, run_length * ra + weighted_run, m);
    vstd::arithmetic::div_mod::lemma_add_mod_noop(run_length * ra, weighted_run, m);
    vstd::arithmetic::div_mod::lemma_add_mod_noop(run_length * x, weighted_run, m);
    vstd::arithmetic::div_mod::lemma_add_mod_noop(b0 + start * a0 + weighted_before, run_length * x
        + weighted_run, m);
    assert(b0 + (start + run_length) * a0 + (weighted_before + run_length * total_before + weighted_run)
        == (b0 + start * a0 + weighted_before) + (run_length * x + weighted_run)) by (nonlinear_arith)
        requires
            x == a0 + total_before,
    ;
}

/// The contribution of the 64 bytes at `position`: their sum, and the sum
/// of their running totals.
#[verifier::rlimit(80)]
fn adler_block(bytes: &[u8], position: usize) -> (sums: (u32, u32))
    requires
        position + 64 <= bytes.len(),
    ensures
        sums.0 == bytes_total(bytes@.subrange(position as int, position + 64)),
        sums.1 == bytes_weighted(bytes@.subrange(position as int, position + 64)),
{
    let mut even_lanes: u64 = 0;
    let mut odd_lanes: u64 = 0;
    let mut weighted_lanes: u64 = 0;
    let ghost mut e: Seq<int> = seq![0int, 0, 0, 0];
    let ghost mut o: Seq<int> = seq![0int, 0, 0, 0];
    let ghost mut w: Seq<int> = seq![0int, 0, 0, 0];
    let mut index = 0usize;
    proof {
        assert(bytes@.subrange(position as int, position as int) =~= Seq::<u8>::empty());
    }
    while index < 8
        invariant
            position + 64 <= bytes.len(),
            index <= 8,
            e.len() == 4,
            o.len() == 4,
            w.len() == 4,
            forall|l: int| 0 <= l < 4 ==> 0 <= #[trigger] e[l] <= 255 * index,
            forall|l: int| 0 <= l < 4 ==> 0 <= #[trigger] o[l] <= 255 * index,
            forall|l: int| 0 <= l < 4 ==> 0 <= #[trigger] w[l] <= 510 * (36 - (8 - index) * (9 - index) / 2),
            even_lanes == lanes16(e[0], e[1], e[2], e[3]),
            odd_lanes == lanes16(o[0], o[1], o[2], o[3]),
            weighted_lanes == lanes16(w[0], w[1], w[2], w[3]),
            e[0] + e[1] + e[2] + e[3] + o[0] + o[1] + o[2] + o[3] == bytes_total(
                bytes@.subrange(position as int, position + 8 * index),
            ),
            bytes_weighted(bytes@.subrange(position as int, position + 8 * index)) == 8 * (w[0] + w[1] + w[2]
                + w[3]) - 8 * (8 - index) * bytes_total(bytes@.subrange(position as int, position + 8 * index))
                - (2 * e[1] + 4 * e[2] + 6 * e[3] + o[0] + 3 * o[1] + 5 * o[2] + 7 * o[3]),
        decreases 8 - index,
    {
        let at = position + 8 * index;
        let word = load_word(bytes, at);
        let even = word & 0x00ff_00ff_00ff_00ff;
        let odd = (word >> 8) & 0x00ff_00ff_00ff_00ff;
        let factor = 8 - index as u64;
        let ghost t = bytes@.subrange(at as int, at + 8);
        let ghost done = bytes@.subrange(position as int, at as int);
        let ghost k = factor as int;
        let ghost p0 = (t[0] + t[1]) * k;
        let ghost p1 = (t[2] + t[3]) * k;
        let ghost p2 = (t[4] + t[5]) * k;
        let ghost p3 = (t[6] + t[7]) * k;
        proof {
            lemma_window(bytes@, at as int, word, |v: u64| false);
            lemma_lanes(word);
            lemma_adler_lanes_bits(word);
            lemma_word_sums(t);
            lemma_total_append(done, t);
            assert(done + t =~= bytes@.subrange(position as int, at + 8));
            assert(t[0] == lane(word, 0));
            assert(t[1] == lane(word, 1));
            assert(t[2] == lane(word, 2));
            assert(t[3] == lane(word, 3));
            assert(t[4] == lane(word, 4));
            assert(t[5] == lane(word, 5));
            assert(t[6] == lane(word, 6));
            assert(t[7] == lane(word, 7));
            assert(even == lanes16(t[0] as int, t[2] as int, t[4] as int, t[6] as int));
            assert(odd == lanes16(t[1] as int, t[3] as int, t[5] as int, t[7] as int));
            assert(0 <= p0 <= 510 * k && 0 <= p1 <= 510 * k && 0 <= p2 <= 510 * k && 0 <= p3 <= 510 * k)
                by (nonlinear_arith)
                requires
                    p0 == (t[0] + t[1]) * k,
                    p1 == (t[2] + t[3]) * k,
                    p2 == (t[4] + t[5]) * k,
                    p3 == (t[6] + t[7]) * k,
                    0 <= k,
                    t[0] <= 255 && t[1] <= 255 && t[2] <= 255 && t[3] <= 255,
                    t[4] <= 255 && t[5] <= 255 && t[6] <= 255 && t[7] <= 255,
            ;
            assert((even + odd) * factor == lanes16(p0, p1, p2, p3)) by (nonlinear_arith)
                requires
                    even == lanes16(t[0] as int, t[2] as int, t[4] as int, t[6] as int),
                    odd == lanes16(t[1] as int, t[3] as int, t[5] as int, t[7] as int),
                    k == factor,
                    p0 == (t[0] + t[1]) * k,
                    p1 == (t[2] + t[3]) * k,
                    p2 == (t[4] + t[5]) * k,
                    p3 == (t[6] + t[7]) * k,
            ;
            assert(p0 + p1 + p2 + p3 == k * bytes_total(t)) by (nonlinear_arith)
                requires
                    bytes_total(t) == t[0] + t[1] + t[2] + t[3] + t[4] + t[5] + t[6] + t[7],
                    p0 == (t[0] + t[1]) * k,
                    p1 == (t[2] + t[3]) * k,
                    p2 == (t[4] + t[5]) * k,
                    p3 == (t[6] + t[7]) * k,
            ;
            let before = bytes_total(done);
            assert((k - 1) * before == k * before - before) by (nonlinear_arith);
            assert((k - 1) * bytes_total(t) == k * bytes_total(t) - bytes_total(t)) by (nonlinear_arith);
            assert((k - 1) * (before + bytes_total(t)) == (k - 1) * before + (k - 1) * bytes_total(t))
                by (nonlinear_arith);
            assert(8 * (8 - (index + 1)) * (before + bytes_total(t)) == 8 * ((k - 1) * (before + bytes_total(
                t,
            )))) by (nonlinear_arith)
                requires
                    k == 8 - index,
            ;
            assert(8 * (8 - index) * before == 8 * (k * before)) by (nonlinear_arith)
                requires
                    k == 8 - index,
            ;
            // The weighted lanes stay below 2^16: a lane gains at most
            // 510 times the words still to come.
            let bound = 510 * (36 - (8 - (index + 1)) * (9 - (index + 1)) / 2);
            assert(w[0] + p0 <= bound && w[1] + p1 <= bound && w[2] + p2 <= bound && w[3] + p3 <= bound
                && bound <= 18360) by (nonlinear_arith)
                requires
                    0 <= w[0] <= 510 * (36 - (8 - index) * (9 - index) / 2),
                    0 <= w[1] <= 510 * (36 - (8 - index) * (9 - index) / 2),
                    0 <= w[2] <= 510 * (36 - (8 - index) * (9 - index) / 2),
                    0 <= w[3] <= 510 * (36 - (8 - index) * (9 - index) / 2),
                    p0 <= 510 * k && p1 <= 510 * k && p2 <= 510 * k && p3 <= 510 * k,
                    k == 8 - index,
                    index < 8,
                    bound == 510 * (36 - (8 - (index + 1)) * (9 - (index + 1)) / 2),
            ;
        }
        even_lanes += even;
        odd_lanes += odd;
        weighted_lanes += (even + odd) * factor;
        proof {
            e = seq![e[0] + t[0], e[1] + t[2], e[2] + t[4], e[3] + t[6]];
            o = seq![o[0] + t[1], o[1] + t[3], o[2] + t[5], o[3] + t[7]];
            w = seq![w[0] + p0, w[1] + p1, w[2] + p2, w[3] + p3];
        }
        index += 1;
    }
    let total_lanes = even_lanes + odd_lanes;
    let ghost block = bytes@.subrange(position as int, position + 64);
    let ghost weights = w[0] + w[1] + w[2] + w[3];
    let ghost in_lanes = 2 * e[1] + 4 * e[2] + 6 * e[3] + o[0] + 3 * o[1] + 5 * o[2] + 7 * o[3];
    let product_total = total_lanes.wrapping_mul(0x0001_0001_0001_0001);
    let product_even = even_lanes.wrapping_mul(0x0000_0002_0004_0006);
    let product_odd = odd_lanes.wrapping_mul(0x0001_0003_0005_0007);
    proof {
        assert(block =~= bytes@.subrange(position as int, position + 8 * 8));
        lemma_total_bounds(block);
        assert(forall|l: int| 0 <= l < 4 ==> #[trigger] e[l] <= 2040 && o[l] <= 2040 && w[l] <= 18360);
        lemma_dot_ones(total_lanes, e[0] + o[0], e[1] + o[1], e[2] + o[2], e[3] + o[3]);
        lemma_dot_even(even_lanes, e[0], e[1], e[2], e[3]);
        lemma_dot_odd(odd_lanes, o[0], o[1], o[2], o[3]);
        lemma_sixteen_bits(product_total);
        lemma_sixteen_bits(product_even);
        lemma_sixteen_bits(product_odd);
        lemma_sixteen_bits(weighted_lanes);
        lemma_lanes16_split(w[0], w[1], w[2], w[3]);
        assert(8 * (8 - index) * bytes_total(block) == 0) by (nonlinear_arith)
            requires
                index == 8,
        ;
        assert(bytes_weighted(block) == 8 * weights - in_lanes);
    }
    let sum = (product_total >> 48) as u32;
    // The weighted lanes are added lane by lane rather than through a
    // multiply, since their sum can pass sixteen bits.
    let by_word = (weighted_lanes & 0xffff) as u32 + ((weighted_lanes >> 16) & 0xffff) as u32 + ((
    weighted_lanes >> 32) & 0xffff) as u32 + (weighted_lanes >> 48) as u32;
    let in_word = (product_even >> 48) as u32 + (product_odd >> 48) as u32;
    (sum, 8 * by_word - in_word)
}

/// The lanes of a lane sum, each below 2^16, read back by division.
proof fn lemma_lanes16_split(x0: int, x1: int, x2: int, x3: int)
    requires
        0 <= x0 < 0x10000,
        0 <= x1 < 0x10000,
        0 <= x2 < 0x10000,
        0 <= x3 < 0x10000,
    ensures
        lanes16(x0, x1, x2, x3) % 0x10000 == x0,
        (lanes16(x0, x1, x2, x3) / 0x10000) % 0x10000 == x1,
        (lanes16(x0, x1, x2, x3) / 0x1_0000_0000) % 0x10000 == x2,
        lanes16(x0, x1, x2, x3) / 0x1_0000_0000_0000 == x3,
{
    let x = lanes16(x0, x1, x2, x3);
    vstd::arithmetic::div_mod::lemma_fundamental_div_mod_converse(x, 0x10000, x1 + x2 * 0x10000 + x3
        * 0x1_0000_0000, x0);
    vstd::arithmetic::div_mod::lemma_fundamental_div_mod_converse(x, 0x1_0000_0000, x2 + x3 * 0x10000, x0
        + x1 * 0x10000);
    vstd::arithmetic::div_mod::lemma_fundamental_div_mod_converse(x, 0x1_0000_0000_0000, x3, x0 + x1
        * 0x10000 + x2 * 0x1_0000_0000);
    vstd::arithmetic::div_mod::lemma_fundamental_div_mod_converse(x1 + x2 * 0x10000 + x3 * 0x1_0000_0000,
        0x10000, x2 + x3 * 0x10000, x1);
    vstd::arithmetic::div_mod::lemma_fundamental_div_mod_converse(x2 + x3 * 0x10000, 0x10000, x3, x2);
}

/// Adler-32 of `bytes`.
pub fn adler32(bytes: &[u8]) -> (sum: u32)
    ensures
        sum == spec_adler32_update(1, bytes@),
{
    adler32_update(1, bytes)
}

/// Carrying a sum across two pieces gives the sum of the whole: Adler-32
/// can be computed piece by piece, from any starting value.
pub proof fn lemma_adler_split(previous: u32, front: Seq<u8>, back: Seq<u8>)
    ensures
        spec_adler32_update(spec_adler32_update(previous, front), back) == spec_adler32_update(
            previous,
            front + back,
        ),
{
    if front.len() == 0 {
        assert(front + back =~= back);
    } else if back.len() == 0 {
        assert(front + back =~= front);
    } else {
        let m = modulus();
        let a = previous % 65536;
        let b = previous / 65536;
        let low = (a + bytes_total(front)) % m;
        let high = (b + front.len() * a + bytes_weighted(front)) % m;
        let carried = spec_adler32_update(previous, front);
        assert(carried == high * 65536 + low);
        vstd::arithmetic::div_mod::lemma_fundamental_div_mod_converse(carried as int, 65536, high, low);
        lemma_total_append(front, back);
        vstd::arithmetic::div_mod::lemma_mod_twice(a + bytes_total(front), m);
        vstd::arithmetic::div_mod::lemma_mod_twice(b + front.len() * a + bytes_weighted(front), m);
        lemma_mod_sums(
            a as int,
            b as int,
            low,
            high,
            front.len() as int,
            bytes_total(front),
            bytes_weighted(front),
            bytes_total(back),
            bytes_weighted(back),
            back.len() as int,
        );
        assert((front + back).len() * a == front.len() * a + back.len() * a) by (nonlinear_arith);
    }
}

/// Adler-32 is the byte loop that defines it: both sums start at one and
/// zero and are reduced modulo 65521 after every byte.
pub proof fn lemma_adler_byte_loop(bytes: Seq<u8>)
    ensures
        spec_adler32_update(1, bytes) == adler_byte_loop(1, 0, bytes).1 * 65536 + adler_byte_loop(
            1,
            0,
            bytes,
        ).0,
{
    lemma_byte_loop_sums(bytes);
    if bytes.len() > 0 {
        assert(1u32 % 65536 == 1 && 1u32 / 65536 == 0);
    }
}

proof fn lemma_byte_loop_sums(bytes: Seq<u8>)
    ensures
        bytes.len() > 0 ==> adler_byte_loop(1, 0, bytes) == ((1 + bytes_total(bytes)) % modulus(), (bytes.len()
            + bytes_weighted(bytes)) % modulus()),
        bytes.len() == 0 ==> adler_byte_loop(1, 0, bytes) == (1int, 0int),
    decreases bytes.len(),
{
    if bytes.len() > 0 {
        let m = modulus();
        let rest = bytes.drop_last();
        let n = bytes.len() as int;
        lemma_byte_loop_sums(rest);
        let (x, y) = adler_byte_loop(1, 0, rest);
        let next = (x + bytes.last()) % m;
        if rest.len() == 0 {
            assert(bytes_total(rest) == 0);
            assert(bytes_weighted(rest) == 0);
            assert(bytes_total(bytes) == bytes.last());
            assert(bytes_weighted(bytes) == bytes.last());
            vstd::arithmetic::div_mod::lemma_mod_twice(1 + bytes.last(), m);
        } else {
            vstd::arithmetic::div_mod::lemma_add_mod_noop(1 + bytes_total(rest), bytes.last() as int, m);
            vstd::arithmetic::div_mod::lemma_mod_twice(1 + bytes_total(rest), m);
            vstd::arithmetic::div_mod::lemma_add_mod_noop(bytes.last() as int, 0, m);
            assert(next == (1 + bytes_total(bytes)) % m) by {
                vstd::arithmetic::div_mod::lemma_add_mod_noop(1 + bytes_total(rest), bytes.last() as int, m);
                vstd::arithmetic::div_mod::lemma_mod_twice(bytes.last() as int, m);
                vstd::arithmetic::div_mod::lemma_small_mod(bytes.last() as nat, m as nat);
            }
            vstd::arithmetic::div_mod::lemma_add_mod_noop((n - 1) + bytes_weighted(rest), 1 + bytes_total(
                bytes,
            ), m);
            vstd::arithmetic::div_mod::lemma_mod_twice((n - 1) + bytes_weighted(rest), m);
            vstd::arithmetic::div_mod::lemma_mod_twice(1 + bytes_total(bytes), m);
        }
    }
}

} // verus!
