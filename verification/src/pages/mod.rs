//! Pieces of writing a Pages document that stand on their own: the SHA-1
//! digest Pages stores for a data reference, the pixel size of an
//! embedded image, and the run-length tables of text attributes. Reading
//! the tables back is in `document`.

pub mod document;

use vstd::prelude::*;
use vstd::bytes::{spec_u32_to_le_bytes, u32_to_le_bytes};
use crate::message::chars_of;

verus! {

// ----- SHA-1 -----

/// `x` rotated left by `n` bits.
pub open spec fn rotl(x: u32, n: u32) -> u32 {
    (x << n) | (x >> ((32 - n) as u32))
}

fn rotate_left(x: u32, n: u32) -> (rotated: u32)
    requires
        1 <= n < 32,
    ensures
        rotated == rotl(x, n),
{
    (x << n) | (x >> (32 - n))
}

/// A message padded as SHA-1 does: a one bit, zeros up to 56 bytes past
/// a multiple of 64, and the length in bits as a big-endian 64-bit word.
pub open spec fn padded(data: Seq<u8>) -> Seq<u8> {
    let zeros = ((120 - (data.len() + 1) % 64) % 64) as nat;
    data + seq![0x80u8] + Seq::new(zeros, |i: int| 0u8) + be64((data.len() as u64).wrapping_mul(8))
}

/// The eight bytes of `value`, most significant first.
pub open spec fn be64(value: u64) -> Seq<u8> {
    Seq::new(8, |i: int| ((value as nat / pow_256(7 - i)) % 256) as u8)
}

/// `256^n` for the byte positions of a word.
pub open spec fn pow_256(n: int) -> nat
    decreases n,
{
    if n <= 0 {
        1
    } else {
        256 * pow_256(n - 1)
    }
}

/// The big-endian word at byte `at`.
pub open spec fn be32(bytes: Seq<u8>, at: int) -> u32 {
    (bytes[at] * 16777216 + bytes[at + 1] * 65536 + bytes[at + 2] * 256 + bytes[at + 3]) as u32
}

/// Word `t` of the message schedule of a 64-byte block.
pub open spec fn schedule(block: Seq<u8>, t: int) -> u32
    decreases t,
{
    if t < 16 {
        be32(block, 4 * t)
    } else {
        rotl(schedule(block, t - 3) ^ schedule(block, t - 8) ^ schedule(block, t - 14) ^ schedule(block, t - 16), 1)
    }
}

/// The working state after round `t` on `state`.
pub open spec fn round(state: (u32, u32, u32, u32, u32), t: int, word: u32) -> (u32, u32, u32, u32, u32) {
    let (a, b, c, d, e) = state;
    let (f, k) = if t < 20 {
        ((b & c) | (!b & d), 0x5A82_7999u32)
    } else if t < 40 {
        (b ^ c ^ d, 0x6ED9_EBA1u32)
    } else if t < 60 {
        ((b & c) | (b & d) | (c & d), 0x8F1B_BCDCu32)
    } else {
        (b ^ c ^ d, 0xCA62_C1D6u32)
    };
    let temp = rotl(a, 5).wrapping_add(f).wrapping_add(e).wrapping_add(k).wrapping_add(word);
    (temp, a, rotl(b, 30), c, d)
}

/// The working state after the first `n` rounds over `block`.
pub open spec fn rounds(state: (u32, u32, u32, u32, u32), block: Seq<u8>, n: int) -> (u32, u32, u32, u32, u32)
    decreases n,
{
    if n <= 0 {
        state
    } else {
        round(rounds(state, block, n - 1), n - 1, schedule(block, n - 1))
    }
}

/// The hash state after one more block.
pub open spec fn compress(h: (u32, u32, u32, u32, u32), block: Seq<u8>) -> (u32, u32, u32, u32, u32) {
    let (a, b, c, d, e) = rounds(h, block, 80);
    (h.0.wrapping_add(a), h.1.wrapping_add(b), h.2.wrapping_add(c), h.3.wrapping_add(d), h.4.wrapping_add(e))
}

pub open spec fn initial_state() -> (u32, u32, u32, u32, u32) {
    (0x6745_2301u32, 0xEFCD_AB89u32, 0x98BA_DCFEu32, 0x1032_5476u32, 0xC3D2_E1F0u32)
}

/// The hash state after the first `n` blocks of `message`.
pub open spec fn hash_blocks(message: Seq<u8>, n: int) -> (u32, u32, u32, u32, u32)
    decreases n,
{
    if n <= 0 {
        initial_state()
    } else {
        compress(hash_blocks(message, n - 1), message.subrange(64 * (n - 1), 64 * n))
    }
}

/// The four bytes of a word, most significant first.
pub open spec fn word_bytes(word: u32) -> Seq<u8> {
    seq![(word / 16777216) as u8, ((word / 65536) % 256) as u8, ((word / 256) % 256) as u8, (word % 256) as u8]
}

/// The SHA-1 digest of `data`.
pub open spec fn spec_sha1(data: Seq<u8>) -> Seq<u8> {
    let message = padded(data);
    let (a, b, c, d, e) = hash_blocks(message, message.len() as int / 64);
    word_bytes(a) + word_bytes(b) + word_bytes(c) + word_bytes(d) + word_bytes(e)
}

proof fn lemma_padded_length(data: Seq<u8>)
    ensures
        padded(data).len() % 64 == 0,
        padded(data).len() == data.len() + 9 + (120 - (data.len() + 1) % 64) % 64,
{
    let n = data.len() + 1;
    let zeros = (120 - n % 64) % 64;
    assert((n + zeros + 8) % 64 == 0) by (nonlinear_arith)
        requires
            zeros == (120 - n % 64) % 64,
            n >= 1,
    ;
}

/// Only the right number of zeros brings the padded length to 56 past a
/// multiple of 64.
proof fn lemma_zero_count(n: int, k: int)
    requires
        n >= 1,
        0 <= k <= (120 - n % 64) % 64,
    ensures
        (n + k) % 64 == 56 <==> k == (120 - n % 64) % 64,
{
    let zeros = (120 - n % 64) % 64;
    assert((n + zeros) % 64 == 56) by (nonlinear_arith)
        requires
            zeros == (120 - n % 64) % 64,
    ;
    if (n + k) % 64 == 56 && k != zeros {
        assert(false) by (nonlinear_arith)
            requires
                (n + k) % 64 == 56,
                (n + zeros) % 64 == 56,
                0 <= k < zeros,
                zeros < 64,
        ;
    }
}

/// The big-endian bytes of the message length in bits.
fn length_bytes(value: u64) -> (bytes: Vec<u8>)
    ensures
        bytes@ == be64(value),
{
    let mut bytes: Vec<u8> = Vec::new();
    let mut shift: u32 = 0;
    let mut divisor: u64 = 72057594037927936;
    let mut index: usize = 0;
    proof {
        reveal_with_fuel(pow_256, 8);
    }
    while index < 8
        invariant
            index <= 8,
            bytes@.len() == index,
            divisor == pow_256(7 - index as int),
            index < 8 ==> divisor >= 1,
            forall|j: int| 0 <= j < index ==> bytes@[j] == ((value as nat / pow_256(7 - j)) % 256) as u8,
        decreases 8 - index,
    {
        proof {
            reveal_with_fuel(pow_256, 8);
        }
        bytes.push(((value / divisor) % 256) as u8);
        if index < 7 {
            divisor = divisor / 256;
        }
        index += 1;
        proof {
            reveal_with_fuel(pow_256, 8);
        }
    }
    assert(bytes@ =~= be64(value));
    bytes
}

/// Reads the 16 words of a block, then extends them to 80.
fn message_schedule(message: &[u8], start: usize) -> (words: Vec<u32>)
    requires
        start + 64 <= message.len(),
    ensures
        words@.len() == 80,
        forall|t: int| 0 <= t < 80 ==> #[trigger] words@[t] == schedule(message@.subrange(start as int, start + 64), t),
{
    let ghost block = message@.subrange(start as int, start + 64);
    let mut words: Vec<u32> = Vec::new();
    let mut index: usize = 0;
    while index < 16
        invariant
            start + 64 <= message.len(),
            block == message@.subrange(start as int, start + 64),
            index <= 16,
            words@.len() == index,
            forall|t: int| 0 <= t < index ==> #[trigger] words@[t] == schedule(block, t),
        decreases 16 - index,
    {
        let at = start + index * 4;
        let word = (message[at] as u32) * 16777216 + (message[at + 1] as u32) * 65536 + (message[at + 2] as u32)
            * 256 + message[at + 3] as u32;
        proof {
            assert(block[4 * index] == message@[at as int]);
            assert(block[4 * index + 1] == message@[at + 1]);
            assert(block[4 * index + 2] == message@[at + 2]);
            assert(block[4 * index + 3] == message@[at + 3]);
        }
        words.push(word);
        index += 1;
    }
    while index < 80
        invariant
            16 <= index <= 80,
            words@.len() == index,
            forall|t: int| 0 <= t < index ==> #[trigger] words@[t] == schedule(block, t),
        decreases 80 - index,
    {
        let mixed = words[index - 3] ^ words[index - 8] ^ words[index - 14] ^ words[index - 16];
        words.push(rotate_left(mixed, 1));
        index += 1;
    }
    words
}

/// One block's 80 rounds added into the hash state.
fn compress_block(h: (u32, u32, u32, u32, u32), message: &[u8], start: usize) -> (next: (u32, u32, u32, u32, u32))
    requires
        start + 64 <= message.len(),
    ensures
        next == compress(h, message@.subrange(start as int, start + 64)),
{
    let ghost block = message@.subrange(start as int, start + 64);
    let words = message_schedule(message, start);
    let (mut a, mut b, mut c, mut d, mut e) = h;
    let mut index: usize = 0;
    while index < 80
        invariant
            index <= 80,
            words@.len() == 80,
            forall|t: int| 0 <= t < 80 ==> #[trigger] words@[t] == schedule(block, t),
            (a, b, c, d, e) == rounds(h, block, index as int),
        decreases 80 - index,
    {
        let (f, k) = if index < 20 {
            ((b & c) | (!b & d), 0x5A82_7999u32)
        } else if index < 40 {
            (b ^ c ^ d, 0x6ED9_EBA1u32)
        } else if index < 60 {
            ((b & c) | (b & d) | (c & d), 0x8F1B_BCDCu32)
        } else {
            (b ^ c ^ d, 0xCA62_C1D6u32)
        };
        let temp = rotate_left(a, 5).wrapping_add(f).wrapping_add(e).wrapping_add(k).wrapping_add(words[index]);
        e = d;
        d = c;
        c = rotate_left(b, 30);
        b = a;
        a = temp;
        index += 1;
    }
    (h.0.wrapping_add(a), h.1.wrapping_add(b), h.2.wrapping_add(c), h.3.wrapping_add(d), h.4.wrapping_add(e))
}

fn push_word(out: &mut Vec<u8>, word: u32)
    ensures
        final(out)@ == old(out)@ + word_bytes(word),
{
    out.push((word / 16777216) as u8);
    out.push(((word / 65536) % 256) as u8);
    out.push(((word / 256) % 256) as u8);
    out.push((word % 256) as u8);
    assert(out@ =~= old(out)@ + word_bytes(word));
}

/// The SHA-1 digest of `data`, as Pages stores it for a data reference.
pub fn sha1(data: &[u8]) -> (digest: Vec<u8>)
    ensures
        digest@ == spec_sha1(data@),
{
    let bit_length = (data.len() as u64).wrapping_mul(8);
    let mut message: Vec<u8> = Vec::new();
    message.extend_from_slice(data);
    message.push(0x80);
    let ghost front = message@;
    let ghost zeros = (120 - (data@.len() + 1) % 64) % 64;
    proof {
        assert(message@ =~= front + Seq::new(0, |i: int| 0u8));
    }
    while message.len() % 64 != 56
        invariant
            front == data@ + seq![0x80u8],
            zeros == (120 - (data@.len() + 1) % 64) % 64,
            front.len() <= message@.len() <= front.len() + zeros,
            message@ == front + Seq::new((message@.len() - front.len()) as nat, |i: int| 0u8),
        decreases front.len() + zeros - message@.len(),
    {
        proof {
            lemma_zero_count(front.len() as int, message@.len() - front.len());
        }
        message.push(0);
        proof {
            assert(message@ =~= front + Seq::new((message@.len() - front.len()) as nat, |i: int| 0u8));
        }
    }
    proof {
        lemma_zero_count(front.len() as int, message@.len() - front.len());
    }
    let tail = length_bytes(bit_length);
    message.extend_from_slice(tail.as_slice());
    proof {
        lemma_padded_length(data@);
    }
    let mut h = (0x6745_2301u32, 0xEFCD_AB89u32, 0x98BA_DCFEu32, 0x1032_5476u32, 0xC3D2_E1F0u32);
    let mut start: usize = 0;
    while start < message.len()
        invariant
            message@ == padded(data@),
            message@.len() % 64 == 0,
            start % 64 == 0,
            start <= message@.len(),
            h == hash_blocks(message@, start as int / 64),
        decreases message@.len() - start,
    {
        h = compress_block(h, message.as_slice(), start);
        start += 64;
    }
    let mut digest: Vec<u8> = Vec::new();
    push_word(&mut digest, h.0);
    push_word(&mut digest, h.1);
    push_word(&mut digest, h.2);
    push_word(&mut digest, h.3);
    push_word(&mut digest, h.4);
    digest
}


// ----- image sizes -----

/// The big-endian 16-bit number at `at`.
pub open spec fn be16(bytes: Seq<u8>, at: int) -> u32 {
    (bytes[at] * 256 + bytes[at + 1]) as u32
}

/// Start-of-frame markers, which carry the image size.
pub open spec fn is_frame_marker(marker: u8) -> bool {
    (0xC0 <= marker <= 0xC3) || (0xC5 <= marker <= 0xC7) || (0xC9 <= marker <= 0xCB) || (0xCD <= marker <= 0xCF)
}

/// Markers that stand alone, without a length word.
pub open spec fn is_standalone_marker(marker: u8) -> bool {
    (0xD0 <= marker <= 0xD9) || marker == 0x01
}

/// The size of a JPEG from its first start-of-frame marker at or after
/// `index`, stepping over other segments by their length words.
pub open spec fn jpeg_scan(bytes: Seq<u8>, index: int) -> Option<(u32, u32)>
    decreases bytes.len() + 65537 - index,
{
    if index < 0 || index + 9 >= bytes.len() {
        None
    } else if bytes[index] != 0xFF {
        jpeg_scan(bytes, index + 1)
    } else if is_frame_marker(bytes[index + 1]) {
        Some((be16(bytes, index + 7), be16(bytes, index + 5)))
    } else if is_standalone_marker(bytes[index + 1]) {
        jpeg_scan(bytes, index + 2)
    } else {
        jpeg_scan(bytes, index + 2 + be16(bytes, index + 2))
    }
}

/// The scan from a position reads only the bytes from there on.
proof fn lemma_jpeg_scan_suffix(a: Seq<u8>, i: int, b: Seq<u8>, j: int)
    requires
        0 <= i <= a.len(),
        0 <= j <= b.len(),
        a.subrange(i, a.len() as int) == b.subrange(j, b.len() as int),
    ensures
        jpeg_scan(a, i) == jpeg_scan(b, j),
    decreases a.len() + 65537 - i,
{
    let sa = a.subrange(i, a.len() as int);
    let sb = b.subrange(j, b.len() as int);
    let n = sa.len();
    assert(b.len() - j == n);
    if i + 9 < a.len() {
        assert(a[i] == sa[0] && b[j] == sb[0]);
        assert(a[i + 1] == sa[1] && b[j + 1] == sb[1]);
        assert(a[i + 2] == sa[2] && b[j + 2] == sb[2]);
        assert(a[i + 3] == sa[3] && b[j + 3] == sb[3]);
        assert(a[i + 5] == sa[5] && b[j + 5] == sb[5]);
        assert(a[i + 6] == sa[6] && b[j + 6] == sb[6]);
        assert(a[i + 7] == sa[7] && b[j + 7] == sb[7]);
        assert(a[i + 8] == sa[8] && b[j + 8] == sb[8]);
        let step: int = if a[i] != 0xFF {
            1
        } else if is_frame_marker(a[i + 1]) {
            0
        } else if is_standalone_marker(a[i + 1]) {
            2
        } else {
            2 + be16(a, i + 2)
        };
        if step > 0 && i + step <= a.len() {
            assert(a.subrange(i + step, a.len() as int) =~= sa.subrange(step, n as int));
            assert(b.subrange(j + step, b.len() as int) =~= sb.subrange(step, n as int));
            lemma_jpeg_scan_suffix(a, i + step, b, j + step);
        } else if step > 0 {
            lemma_jpeg_scan_past_end(a, i + step);
            lemma_jpeg_scan_past_end(b, j + step);
        }
    }
}

/// Past the end there is no frame.
proof fn lemma_jpeg_scan_past_end(bytes: Seq<u8>, index: int)
    requires
        index > bytes.len(),
    ensures
        jpeg_scan(bytes, index) is None,
{
}

/// A segment with a length word is skipped whole: a JPEG's size is the
/// same with or without a segment of any other marker placed right after
/// its start, whatever the segment holds, so no marker inside a segment's
/// payload is ever taken for a frame.
pub proof fn lemma_jpeg_skips_segments(marker: u8, payload: Seq<u8>, rest: Seq<u8>)
    requires
        !((0xC0 <= marker <= 0xC3) || (0xC5 <= marker <= 0xC7) || (0xC9 <= marker <= 0xCB) || (0xCD <= marker
            <= 0xCF)),
        !((0xD0 <= marker <= 0xD9) || marker == 0x01),
        payload.len() + 2 <= 0xFFFF,
    ensures
        ({
            let length = payload.len() + 2;
            let segment = seq![0xFFu8, marker, (length / 256) as u8, (length % 256) as u8] + payload;
            spec_image_dimensions(seq![0xFFu8, 0xD8u8] + segment + rest) == spec_image_dimensions(
                seq![0xFFu8, 0xD8u8] + rest,
            )
        }),
{
    let length: int = payload.len() + 2int;
    let segment = seq![0xFFu8, marker, (length / 256) as u8, (length % 256) as u8] + payload;
    let with = seq![0xFFu8, 0xD8u8] + segment + rest;
    let without = seq![0xFFu8, 0xD8u8] + rest;
    assert(with[0] == 0xFF && with[1] == 0xD8 && without[0] == 0xFF && without[1] == 0xD8);
    assert(with[2] == 0xFF && with[3] == marker);
    assert(with[4] == (length / 256) as u8 && with[5] == (length % 256) as u8);
    assert(be16(with, 4) == length);
    if 2 + 9 < with.len() {
        assert(with.subrange(2 + 2 + length, with.len() as int) =~= without.subrange(2, without.len() as int));
        lemma_jpeg_scan_suffix(with, 2 + 2 + length, without, 2);
    } else {
        assert(2 + 9 >= without.len());
    }
}

/// A start-of-frame segment gives the size: width from its bytes seven and
/// eight, height from five and six, big-endian (the scan wants a byte past
/// them).
pub proof fn lemma_jpeg_frame_gives_size(marker: u8, frame: Seq<u8>, rest: Seq<u8>)
    requires
        (0xC0 <= marker <= 0xC3) || (0xC5 <= marker <= 0xC7) || (0xC9 <= marker <= 0xCB) || (0xCD <= marker <= 0xCF),
        frame.len() == 7,
        rest.len() > 0,
    ensures
        ({
            let bytes = seq![0xFFu8, 0xD8u8, 0xFFu8, marker] + frame + rest;
            spec_image_dimensions(bytes) == Some(
                ((frame[5] * 256 + frame[6]) as u32, (frame[3] * 256 + frame[4]) as u32),
            )
        }),
{
    let bytes = seq![0xFFu8, 0xD8u8, 0xFFu8, marker] + frame + rest;
    assert(bytes[2] == 0xFF && bytes[3] == marker);
    assert(bytes[7] == frame[3] && bytes[8] == frame[4] && bytes[9] == frame[5] && bytes[10] == frame[6]);
}

/// Bytes that are not a marker, and markers that stand alone, are stepped
/// over: the size is the same without them.
pub proof fn lemma_jpeg_skips_fill_and_standalone(prefix: Seq<u8>, rest: Seq<u8>)
    requires
        (prefix.len() == 1 && prefix[0] != 0xFF) || (prefix.len() == 2 && prefix[0] == 0xFF && ((0xD0 <= prefix[1]
            <= 0xD9) || prefix[1] == 0x01)),
    ensures
        spec_image_dimensions(seq![0xFFu8, 0xD8u8] + prefix + rest) == spec_image_dimensions(
            seq![0xFFu8, 0xD8u8] + rest,
        ),
{
    let with = seq![0xFFu8, 0xD8u8] + prefix + rest;
    let without = seq![0xFFu8, 0xD8u8] + rest;
    assert(with[0] == 0xFF && with[1] == 0xD8 && without[0] == 0xFF && without[1] == 0xD8);
    assert(with[2] == prefix[0]);
    if prefix.len() == 2 {
        assert(with[3] == prefix[1]);
    }
    if 2 + 9 < with.len() {
        let skip = 2 + prefix.len();
        assert(with.subrange(skip as int, with.len() as int) =~= without.subrange(2, without.len() as int));
        lemma_jpeg_scan_suffix(with, skip as int, without, 2);
    }
}

/// The pixel size of a JPEG, from its first start-of-frame marker.
pub fn jpeg_dimensions(bytes: &[u8]) -> (size: Option<(u32, u32)>)
    requires
        bytes.len() + 65537 <= usize::MAX,
    ensures
        size == jpeg_scan(bytes@, 2),
{
    let mut index: usize = 2;
    while index < bytes.len() && bytes.len() - index > 9
        invariant
            bytes.len() + 65537 <= usize::MAX,
            2 <= index,
            jpeg_scan(bytes@, 2) == jpeg_scan(bytes@, index as int),
        decreases bytes@.len() + 65537 - index,
    {
        if bytes[index] != 0xFF {
            index += 1;
        } else {
            let marker = bytes[index + 1];
            if (0xC0 <= marker && marker <= 0xC3) || (0xC5 <= marker && marker <= 0xC7) || (0xC9 <= marker && marker
                <= 0xCB) || (0xCD <= marker && marker <= 0xCF) {
                let height = bytes[index + 5] as u32 * 256 + bytes[index + 6] as u32;
                let width = bytes[index + 7] as u32 * 256 + bytes[index + 8] as u32;
                return Some((width, height));
            }
            if (0xD0 <= marker && marker <= 0xD9) || marker == 0x01 {
                index += 2;
            } else {
                let length = bytes[index + 2] as usize * 256 + bytes[index + 3] as usize;
                index += 2 + length;
            }
        }
    }
    None
}

/// The size a PNG's header or a JPEG's frame declares.
pub open spec fn spec_image_dimensions(bytes: Seq<u8>) -> Option<(u32, u32)> {
    if bytes.len() >= 24 && bytes[0] == 0x89 && bytes[1] == 0x50 && bytes[2] == 0x4E && bytes[3] == 0x47 {
        Some((be32(bytes, 16), be32(bytes, 20)))
    } else if bytes.len() >= 2 && bytes[0] == 0xFF && bytes[1] == 0xD8 {
        jpeg_scan(bytes, 2)
    } else {
        None
    }
}

/// The pixel width and height of a PNG or JPEG, read from its header.
pub fn image_dimensions(bytes: &[u8]) -> (size: Option<(u32, u32)>)
    requires
        bytes.len() + 65537 <= usize::MAX,
    ensures
        size == spec_image_dimensions(bytes@),
{
    if bytes.len() >= 24 && bytes[0] == 0x89 && bytes[1] == 0x50 && bytes[2] == 0x4E && bytes[3] == 0x47 {
        let width = (bytes[16] as u32) * 16777216 + (bytes[17] as u32) * 65536 + (bytes[18] as u32) * 256
            + bytes[19] as u32;
        let height = (bytes[20] as u32) * 16777216 + (bytes[21] as u32) * 65536 + (bytes[22] as u32) * 256
            + bytes[23] as u32;
        return Some((width, height));
    }
    if bytes.len() >= 2 && bytes[0] == 0xFF && bytes[1] == 0xD8 {
        return jpeg_dimensions(bytes);
    }
    None
}

// ----- attribute tables -----

/// Consecutive entries with the same reference collapsed to the first.
pub open spec fn spec_dedup(entries: Seq<(u32, Option<u64>)>) -> Seq<(u32, Option<u64>)>
    decreases entries.len(),
{
    if entries.len() == 0 {
        Seq::empty()
    } else {
        let kept = spec_dedup(entries.drop_last());
        if kept.len() > 0 && kept.last().1 == entries.last().1 {
            kept
        } else {
            kept.push(entries.last())
        }
    }
}

/// Collapses consecutive entries with the same reference, keeping the first
/// (so the table still begins at offset 0 and each run is one entry).
pub fn dedup(entries: Vec<(u32, Option<u64>)>) -> (out: Vec<(u32, Option<u64>)>)
    ensures
        out@ == spec_dedup(entries@),
{
    let mut out: Vec<(u32, Option<u64>)> = Vec::new();
    let mut index: usize = 0;
    while index < entries.len()
        invariant
            index <= entries@.len(),
            out@ == spec_dedup(entries@.subrange(0, index as int)),
        decreases entries@.len() - index,
    {
        let entry = entries[index];
        proof {
            assert(entries@.subrange(0, index + 1).drop_last() =~= entries@.subrange(0, index as int));
        }
        let same = if out.len() > 0 {
            let last = out[out.len() - 1];
            match (last.1, entry.1) {
                (Some(a), Some(b)) => a == b,
                (None, None) => true,
                _ => false,
            }
        } else {
            false
        };
        if !same {
            out.push(entry);
        }
        index += 1;
    }
    assert(entries@.subrange(0, index as int) =~= entries@);
    out
}

/// Consecutive entries with the same values collapsed to the first.
pub open spec fn spec_dedup_data(entries: Seq<(u32, u64, u64)>) -> Seq<(u32, u64, u64)>
    decreases entries.len(),
{
    if entries.len() == 0 {
        Seq::empty()
    } else {
        let kept = spec_dedup_data(entries.drop_last());
        if kept.len() > 0 && kept.last().1 == entries.last().1 && kept.last().2 == entries.last().2 {
            kept
        } else {
            kept.push(entries.last())
        }
    }
}

/// Collapses consecutive `(offset, first, second)` entries with equal values.
pub fn dedup_data(entries: Vec<(u32, u64, u64)>) -> (out: Vec<(u32, u64, u64)>)
    ensures
        out@ == spec_dedup_data(entries@),
{
    let mut out: Vec<(u32, u64, u64)> = Vec::new();
    let mut index: usize = 0;
    while index < entries.len()
        invariant
            index <= entries@.len(),
            out@ == spec_dedup_data(entries@.subrange(0, index as int)),
        decreases entries@.len() - index,
    {
        let entry = entries[index];
        proof {
            assert(entries@.subrange(0, index + 1).drop_last() =~= entries@.subrange(0, index as int));
        }
        let same = out.len() > 0 && out[out.len() - 1].1 == entry.1 && out[out.len() - 1].2 == entry.2;
        if !same {
            out.push(entry);
        }
        index += 1;
    }
    assert(entries@.subrange(0, index as int) =~= entries@);
    out
}

// ----- style names -----

/// The Pages built-in style a model paragraph-style name maps to: the
/// title, subtitle, caption and footnote styles keep their names, the
/// headings fold into Pages' three, and anything else is Body.
pub open spec fn spec_pages_style_name(name: Seq<char>) -> Seq<char> {
    if name == "Title"@ {
        "Title"@
    } else if name == "Subtitle"@ {
        "Subtitle"@
    } else if name == "Heading 1"@ || name == "Heading"@ {
        "Heading"@
    } else if name == "Heading 2"@ {
        "Heading 2"@
    } else if name == "Heading 3"@ || name == "Heading 4"@ || name == "Heading 5"@ || name == "Heading 6"@ {
        "Heading 3"@
    } else if name == "Caption"@ {
        "Caption"@
    } else if name == "Footnote"@ {
        "Footnote"@
    } else {
        "Body"@
    }
}

/// Whether two strings hold the same characters.
fn same_text(a: &str, b: &str) -> (same: bool)
    ensures
        same == (a@ == b@),
{
    a.to_owned() == b.to_owned()
}

/// The Pages built-in style name for a model paragraph-style name.
pub fn pages_style_name(name: &str) -> (pages: &'static str)
    ensures
        pages@ == spec_pages_style_name(name@),
{
    if same_text(name, "Title") {
        "Title"
    } else if same_text(name, "Subtitle") {
        "Subtitle"
    } else if same_text(name, "Heading 1") || same_text(name, "Heading") {
        "Heading"
    } else if same_text(name, "Heading 2") {
        "Heading 2"
    } else if same_text(name, "Heading 3") || same_text(name, "Heading 4") || same_text(name, "Heading 5")
        || same_text(name, "Heading 6") {
        "Heading 3"
    } else if same_text(name, "Caption") {
        "Caption"
    } else if same_text(name, "Footnote") {
        "Footnote"
    } else {
        "Body"
    }
}

/// The cell record of a plain-text cell whose text is stringTable key
/// `key`: version 5, cell type 3 (text), six zero bytes, the flag word
/// announcing a string (0x8), then the key; both words little-endian.
pub open spec fn text_cell_bytes(key: u32) -> Seq<u8> {
    seq![5u8, 3, 0, 0, 0, 0, 0, 0] + spec_u32_to_le_bytes(8) + spec_u32_to_le_bytes(key)
}

/// A 16-byte storage-version-5 cell record for a plain-text cell whose text
/// is stringTable key `key`.
pub fn cell_record_bytes(key: u32) -> (bytes: [u8; 16])
    ensures
        bytes@ == text_cell_bytes(key),
{
    let flags = u32_to_le_bytes(0x08);
    let le = u32_to_le_bytes(key);
    let bytes = [5, 3, 0, 0, 0, 0, 0, 0, flags[0], flags[1], flags[2], flags[3], le[0], le[1], le[2], le[3]];
    assert(bytes@ =~= text_cell_bytes(key));
    bytes
}

/// UTF-16 code units of each character: two above the Basic
/// Multilingual Plane, one below.
pub open spec fn utf16_units(chars: Seq<char>) -> nat
    decreases chars.len(),
{
    if chars.len() == 0 {
        0
    } else {
        utf16_units(chars.drop_last()) + if chars.last() as u32 >= 0x10000 {
            2nat
        } else {
            1nat
        }
    }
}

/// The length of `text` in UTF-16 code units, as Pages counts text.
pub fn utf16_len(text: &str) -> (length: u32)
    requires
        utf16_units(text@) <= u32::MAX,
    ensures
        length == utf16_units(text@),
{
    let chars = chars_of(text);
    let mut length: u32 = 0;
    let mut index: usize = 0;
    while index < chars.len()
        invariant
            chars@ == text@,
            index <= chars@.len(),
            utf16_units(text@) <= u32::MAX,
            length == utf16_units(chars@.subrange(0, index as int)),
        decreases chars@.len() - index,
    {
        proof {
            assert(chars@.subrange(0, index + 1).drop_last() =~= chars@.subrange(0, index as int));
            lemma_utf16_prefix(chars@, index + 1);
        }
        length += if chars[index] as u32 >= 0x10000 {
            2
        } else {
            1
        };
        index += 1;
    }
    assert(chars@.subrange(0, index as int) =~= chars@);
    length
}

proof fn lemma_utf16_prefix(chars: Seq<char>, n: int)
    requires
        0 <= n <= chars.len(),
    ensures
        utf16_units(chars.subrange(0, n)) <= utf16_units(chars),
    decreases chars.len() - n,
{
    if n < chars.len() {
        lemma_utf16_prefix(chars, n + 1);
        assert(chars.subrange(0, n + 1).drop_last() =~= chars.subrange(0, n));
    } else {
        assert(chars.subrange(0, n) =~= chars);
    }
}

} // verus!
