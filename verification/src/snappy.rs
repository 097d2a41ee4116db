//! Snappy blocks: one raw block is a varint length, then literal and copy
//! tags. Stream and file framings are the callers' business.

use vstd::prelude::*;
use vstd::bytes::{spec_u32_from_le_bytes, u32_from_le_bytes};
use crate::bits::{lemma_byte_bits, lemma_copy_tag_bits, lemma_hash_bits, lemma_pair_bits, lemma_split_bits};
use crate::scan::{lemma_first_difference, load_word};
use crate::protobuf::{
    lemma_read_varint_len, lemma_varint_round_trip, read_varint, spec_read_varint, spec_varint_bytes,
    write_varint,
};

verus! {

#[derive(Debug, Clone, Copy, PartialEq, Eq, Structural)]
pub enum SnappyError {
    /// The block ended in the middle of a tag or its payload.
    Truncated { offset: usize },
    /// A copy reached before the start of the output.
    BadOffset { offset: usize },
    /// The declared length does not match what the tags produced.
    LengthMismatch { declared: usize, actual: usize },
    /// Longer than the caller allows.
    TooLarge { declared: u64 },
}

// ----- the format -----

/// What one tag does to the output.
pub enum Element {
    /// Append these bytes.
    Literal(Seq<u8>),
    /// Append `length` bytes, each a copy of the byte `offset` back.
    Copy { offset: nat, length: nat },
}

/// Little-endian value of a few bytes.
pub open spec fn little_endian(bytes: Seq<u8>) -> nat
    decreases bytes.len(),
{
    if bytes.len() == 0 {
        0
    } else {
        bytes[0] as nat + 256 * little_endian(bytes.drop_first())
    }
}

/// The tag at `pos` (which is inside `block`): what it does, and where the
/// next tag starts; `Truncated` when its payload runs past the end.
#[verifier::opaque]
pub open spec fn parse_tag(block: Seq<u8>, pos: int) -> Result<(Element, int), SnappyError> {
    let tag = block[pos];
    let p = pos + 1;
    let truncated = SnappyError::Truncated { offset: pos as usize };
    if tag % 4 == 0 {
        let short = tag / 4 + 1;
        if short <= 60 {
            if p + short > block.len() {
                Err(truncated)
            } else {
                Ok((Element::Literal(block.subrange(p, p + short)), p + short))
            }
        } else {
            let extra = short - 60;
            if p + extra > block.len() {
                Err(truncated)
            } else {
                let length = little_endian(block.subrange(p, p + extra)) + 1;
                let q = p + extra;
                if q + length > block.len() {
                    Err(truncated)
                } else {
                    Ok((Element::Literal(block.subrange(q, q + length)), q + length))
                }
            }
        }
    } else if tag % 4 == 1 {
        if p >= block.len() {
            Err(truncated)
        } else {
            Ok(
                (
                    Element::Copy {
                        offset: (tag / 32) as nat * 256 + block[p] as nat,
                        length: 4 + (tag / 4) as nat % 8,
                    },
                    p + 1,
                ),
            )
        }
    } else if tag % 4 == 2 {
        if p + 2 > block.len() {
            Err(truncated)
        } else {
            Ok(
                (
                    Element::Copy {
                        offset: block[p] as nat + 256 * block[p + 1] as nat,
                        length: (tag / 4) as nat + 1,
                    },
                    p + 2,
                ),
            )
        }
    } else {
        if p + 4 > block.len() {
            Err(truncated)
        } else {
            Ok(
                (
                    Element::Copy {
                        offset: spec_u32_from_le_bytes(block.subrange(p, p + 4)) as nat,
                        length: (tag / 4) as nat + 1,
                    },
                    p + 4,
                ),
            )
        }
    }
}

/// `produced` followed by `length` bytes copied from `offset` back; the
/// copy may overlap what it writes, repeating the last `offset` bytes.
pub open spec fn copied(produced: Seq<u8>, offset: nat, length: nat) -> Seq<u8> {
    produced + Seq::new(length, |i: int| produced[produced.len() - offset + i % (offset as int)])
}

/// The output of the tags from `pos` to the end of `block`, appended to
/// `produced`.
#[verifier::opaque]
pub open spec fn decode_tags(block: Seq<u8>, pos: int, produced: Seq<u8>) -> Result<Seq<u8>, SnappyError>
    decreases block.len() - pos,
{
    if pos >= block.len() {
        Ok(produced)
    } else {
        proof {
            lemma_parse_tag_advances(block, pos);
        }
        match parse_tag(block, pos) {
            Err(error) => Err(error),
            Ok((Element::Literal(bytes), next)) => decode_tags(block, next, produced + bytes),
            Ok((Element::Copy { offset, length }, next)) => if offset == 0 || offset > produced.len() {
                Err(SnappyError::BadOffset { offset: pos as usize })
            } else {
                decode_tags(block, next, copied(produced, offset, length))
            },
        }
    }
}

/// What decompressing `block` produces: the declared length first, then
/// the tags, whose output must have exactly that length.
pub open spec fn spec_decompress_block(block: Seq<u8>, limit: usize) -> Result<Seq<u8>, SnappyError> {
    match spec_read_varint(block, 0) {
        Err(_) => Err(SnappyError::Truncated { offset: 0 }),
        Ok((declared, header_length)) => if declared > limit {
            Err(SnappyError::TooLarge { declared })
        } else {
            match decode_tags(block, header_length as int, Seq::empty()) {
                Err(error) => Err(error),
                Ok(output) => if output.len() != declared {
                    Err(SnappyError::LengthMismatch { declared: declared as usize, actual: output.len() as usize })
                } else {
                    Ok(output)
                },
            }
        },
    }
}

/// A tag that parses ends after its first byte and within the block.
pub proof fn lemma_parse_tag_advances(block: Seq<u8>, pos: int)
    requires
        pos < block.len(),
    ensures
        parse_tag(block, pos) matches Ok((_, next)) ==> pos < next <= block.len(),
{
    reveal(parse_tag);
}

/// Decoding from `pos` is the tag there, then decoding from the next.
pub proof fn lemma_decode_step(block: Seq<u8>, pos: int, produced: Seq<u8>)
    ensures
        pos >= block.len() ==> decode_tags(block, pos, produced) == Ok::<Seq<u8>, SnappyError>(produced),
        pos < block.len() ==> decode_tags(block, pos, produced) == match parse_tag(block, pos) {
            Err(error) => Err(error),
            Ok((Element::Literal(bytes), next)) => decode_tags(block, next, produced + bytes),
            Ok((Element::Copy { offset, length }, next)) => if offset == 0 || offset > produced.len() {
                Err(SnappyError::BadOffset { offset: pos as usize })
            } else {
                decode_tags(block, next, copied(produced, offset, length))
            },
        },
{
    reveal(decode_tags);
}

// ----- decoding -----

/// `bytes[start..end]`.
fn slice_range<'a>(bytes: &'a [u8], start: usize, end: usize) -> (out: &'a [u8])
    requires
        start <= end <= bytes@.len(),
    ensures
        out@ == bytes@.subrange(start as int, end as int),
{
    &bytes[start..end]
}

/// Appends `out[from..from + count]` to `out`.
#[verifier::external_body]
fn extend_from_within(out: &mut Vec<u8>, from: usize, count: usize)
    requires
        from + count <= old(out)@.len(),
        old(out)@.len() + count <= isize::MAX,
    ensures
        final(out)@ == old(out)@ + old(out)@.subrange(from as int, from + count),
{
    out.extend_from_within(from..from + count)
}

/// The uncompressed length a block declares, and the bytes it takes.
pub fn uncompressed_length(block: &[u8]) -> (result: Result<(u64, usize), SnappyError>)
    ensures
        match spec_read_varint(block@, 0) {
            Ok(pair) => result == Ok::<(u64, usize), SnappyError>(pair),
            Err(_) => result == Err::<(u64, usize), SnappyError>(SnappyError::Truncated { offset: 0 }),
        },
{
    match read_varint(block, 0) {
        Ok(pair) => Ok(pair),
        Err(_) => Err(SnappyError::Truncated { offset: 0 }),
    }
}


/// A copy reads only the last `offset` bytes of what came before it.
proof fn lemma_copied_after(base: Seq<u8>, produced: Seq<u8>, offset: nat, length: nat)
    requires
        1 <= offset <= produced.len(),
    ensures
        copied(base + produced, offset, length) == base + copied(produced, offset, length),
{
    let whole = base + produced;
    let left = copied(whole, offset, length);
    let right = base + copied(produced, offset, length);
    assert forall|k: int| 0 <= k < left.len() implies #[trigger] left[k] == right[k] by {
        if k >= whole.len() {
            let i = k - whole.len();
            assert(0 <= i % (offset as int) < offset) by (nonlinear_arith)
                requires
                    offset >= 1,
                    i >= 0,
            ;
        }
    }
    assert(left =~= right);
}

/// A copy no longer than its offset is a plain slice of what came before.
proof fn lemma_copied_short(produced: Seq<u8>, offset: nat, length: nat)
    requires
        1 <= offset <= produced.len(),
        length <= offset,
    ensures
        copied(produced, offset, length) == produced + produced.subrange(
            produced.len() - offset,
            produced.len() - offset + length,
        ),
{
    let left = copied(produced, offset, length);
    let right = produced + produced.subrange(produced.len() - offset, produced.len() - offset + length);
    assert forall|k: int| 0 <= k < left.len() implies #[trigger] left[k] == right[k] by {
        if k >= produced.len() {
            vstd::arithmetic::div_mod::lemma_small_mod((k - produced.len()) as nat, offset);
        }
    }
    assert(left =~= right);
}

/// One more chunk of an overlapping copy: with whole periods copied so
/// far, the next chunk repeats the start of the copied region.
proof fn lemma_copied_chunk(produced: Seq<u8>, offset: nat, done: nat, chunk: nat)
    requires
        1 <= offset <= produced.len(),
        done % offset == 0,
        chunk <= offset + done,
    ensures
        copied(produced, offset, done + chunk) == copied(produced, offset, done) + copied(
            produced,
            offset,
            done,
        ).subrange(produced.len() - offset, produced.len() - offset + chunk),
{
    let so_far = copied(produced, offset, done);
    let start = produced.len() - offset;
    let m = (done / offset) as int;
    assert(done == m * offset) by {
        vstd::arithmetic::div_mod::lemma_fundamental_div_mod(done as int, offset as int);
    }
    let left = copied(produced, offset, done + chunk);
    let right = so_far + so_far.subrange(start, start + chunk);
    assert forall|k: int| 0 <= k < left.len() implies #[trigger] left[k] == right[k] by {
        if k >= produced.len() + done {
            let j = k - produced.len() - done;
            vstd::arithmetic::div_mod::lemma_mod_multiples_vanish(m, j, offset as int);
            assert((offset * m + j) == done + j) by (nonlinear_arith)
                requires
                    done == m * offset,
            ;
            if j < offset {
                vstd::arithmetic::div_mod::lemma_small_mod(j as nat, offset);
            } else {
                vstd::arithmetic::div_mod::lemma_mod_multiples_vanish(1, j - offset, offset as int);
                assert(so_far[start + j] == produced[start + (j - offset) % (offset as int)]);
            }
        }
    }
    assert(left =~= right);
}

/// Appends `length` bytes copied from `offset` bytes back. The regions may
/// overlap (a run): each chunk copied makes the next one up to twice as
/// long, so a run of any length takes a few bulk copies.
fn copy(out: &mut Vec<u8>, start: usize, offset: usize, length: usize, tag_offset: usize) -> (result:
    Result<(), SnappyError>)
    requires
        start <= old(out)@.len(),
        old(out)@.len() + length <= isize::MAX,
    ensures
        offset == 0 || offset > old(out)@.len() - start ==> result == Err::<(), SnappyError>(
            SnappyError::BadOffset { offset: tag_offset },
        ) && final(out)@ == old(out)@,
        !(offset == 0 || offset > old(out)@.len() - start) ==> result is Ok && final(out)@ == copied(
            old(out)@,
            offset as nat,
            length as nat,
        ),
{
    let produced = out.len() - start;
    if offset == 0 || offset > produced {
        return Err(SnappyError::BadOffset { offset: tag_offset });
    }
    let from = out.len() - offset;
    if offset >= length {
        proof {
            lemma_copied_short(out@, offset as nat, length as nat);
        }
        extend_from_within(out, from, length);
        return Ok(());
    }
    let ghost initial = out@;
    let mut remaining = length;
    while remaining > 0
        invariant
            remaining <= length,
            from == initial.len() - offset,
            1 <= offset <= initial.len(),
            initial.len() + length <= isize::MAX,
            out@ == copied(initial, offset as nat, (length - remaining) as nat),
            remaining > 0 ==> (length - remaining) % (offset as int) == 0,
        decreases remaining,
    {
        let available = out.len() - from;
        let chunk = if remaining < available {
            remaining
        } else {
            available
        };
        proof {
            lemma_copied_chunk(initial, offset as nat, (length - remaining) as nat, chunk as nat);
        }
        extend_from_within(out, from, chunk);
        remaining -= chunk;
        proof {
            if remaining > 0 {
                let done = length - remaining;
                let before = (done - chunk) as int;
                let m = before / (offset as int);
                vstd::arithmetic::div_mod::lemma_fundamental_div_mod(before, offset as int);
                assert(done == (2 * m + 1) * offset) by (nonlinear_arith)
                    requires
                        chunk == offset + before,
                        before == offset * m + before % (offset as int),
                        before % (offset as int) == 0,
                        done == before + chunk,
                ;
                vstd::arithmetic::div_mod::lemma_mod_multiples_basic(2 * m + 1, offset as int);
            }
        }
    }
    Ok(())
}

/// The literal length held in `extra` bytes after the tag.
proof fn lemma_literal_length_step(value: usize, byte: u8, index: usize)
    by (bit_vector)
    requires
        index < 4,
        index == 0 ==> value < 1,
        index == 1 ==> value < 0x100,
        index == 2 ==> value < 0x1_0000,
        index == 3 ==> value < 0x100_0000,
    ensures
        index == 0 ==> value | ((byte as usize) << 0usize) == value + byte,
        index == 1 ==> value | ((byte as usize) << 8usize) == value + byte * 0x100,
        index == 2 ==> value | ((byte as usize) << 16usize) == value + byte * 0x1_0000,
        index == 3 ==> value | ((byte as usize) << 24usize) == value + byte * 0x100_0000,
{
}

/// Little-endian value with one more byte at the top.
proof fn lemma_little_endian_push(bytes: Seq<u8>, byte: u8)
    ensures
        little_endian(bytes.push(byte)) == little_endian(bytes) + byte * pow256(bytes.len()),
        little_endian(bytes) < pow256(bytes.len()),
    decreases bytes.len(),
{
    if bytes.len() == 0 {
        assert(bytes.push(byte).drop_first() =~= Seq::<u8>::empty());
        assert(bytes.push(byte)[0] == byte);
        assert(little_endian(bytes.push(byte)) == byte as nat + 256 * little_endian(
            bytes.push(byte).drop_first(),
        ));
        assert(little_endian(Seq::<u8>::empty()) == 0);
        assert(pow256(0) == 1);
    } else {
        assert(bytes.push(byte).drop_first() =~= bytes.drop_first().push(byte));
        lemma_little_endian_push(bytes.drop_first(), byte);
        let w = pow256((bytes.len() - 1) as nat);
        let rest = little_endian(bytes.drop_first());
        let first = bytes[0] as nat;
        assert(bytes.push(byte)[0] == bytes[0]);
        assert(little_endian(bytes.push(byte)) == first + 256 * little_endian(
            bytes.push(byte).drop_first(),
        ));
        assert(little_endian(bytes) == first + 256 * rest);
        assert(pow256(bytes.len()) == 256 * w);
        assert(first + 256 * (rest + byte * w) == (first + 256 * rest) + byte * (256 * w))
            by (nonlinear_arith);
        assert(first + 256 * rest < 256 * w) by (nonlinear_arith)
            requires
                first < 256,
                rest < w,
        ;
    }
}

/// `256^n`.
pub open spec fn pow256(n: nat) -> nat
    decreases n,
{
    if n == 0 {
        1
    } else {
        256 * pow256((n - 1) as nat)
    }
}

/// Decompresses one block, appending to `out`. `limit` caps the declared
/// length, so a corrupt header cannot ask for arbitrary memory. A block
/// writes at most 22 bytes for each of its bytes (a three-byte copy tag
/// writes up to 64), and `out` must have room for that.
#[verifier::rlimit(50)]
pub fn decompress_block(block: &[u8], out: &mut Vec<u8>, limit: usize) -> (result: Result<(), SnappyError>)
    requires
        old(out)@.len() + 22 * block@.len() <= isize::MAX,
    ensures
        match spec_decompress_block(block@, limit) {
            Ok(output) => result is Ok && final(out)@ == old(out)@ + output,
            Err(error) => result == Err::<(), SnappyError>(error),
        },
        final(out)@.len() >= old(out)@.len(),
        final(out)@.subrange(0, old(out)@.len() as int) == old(out)@,
        spec_read_varint(block@, 0) matches Ok((declared, _)) && declared <= limit || final(out)@ == old(out)@,
{
    let (declared, header_length) = match uncompressed_length(block) {
        Ok(pair) => pair,
        Err(error) => return Err(error),
    };
    if declared > limit as u64 {
        return Err(SnappyError::TooLarge { declared });
    }
    proof {
        lemma_read_varint_len(block@, 0);
    }
    let ghost declared_value = declared;
    let declared = declared as usize;
    let start = out.len();
    out.reserve(declared);
    let mut position = header_length;
    let ghost mut produced: Seq<u8> = Seq::empty();
    let ghost initial = out@;
    assert(initial + produced =~= initial);
    while position < block.len()
        invariant
            header_length <= position <= block@.len(),
            spec_read_varint(block@, 0) == Ok::<(u64, usize), crate::protobuf::ProtobufError>((declared_value, header_length)),
            declared_value <= limit,
            declared == declared_value,
            start == initial.len(),
            initial == old(out)@,
            out@ == initial + produced,
            produced.len() <= 22 * position,
            initial.len() + 22 * block@.len() <= isize::MAX,
            decode_tags(block@, header_length as int, Seq::empty()) == decode_tags(
                block@,
                position as int,
                produced,
            ),
        decreases block@.len() - position,
    {
        let tag = block[position];
        let tag_offset = position;
        position += 1;
        proof {
            lemma_byte_bits(tag);
            lemma_parse_tag_advances(block@, tag_offset as int);
            lemma_decode_step(block@, tag_offset as int, produced);
        }
        match tag & 0b11 {
            0 => {
                proof {
                    reveal(parse_tag);
                }
                let mut length = (tag >> 2) as usize + 1;
                if length > 60 {
                    let extra = length - 60;
                    let mut value = 0usize;
                    let mut index = 0usize;
                    #[verifier::loop_isolation(false)]
                    while index < extra
                        invariant
                            extra <= 4,
                            index <= extra,
                            position <= block@.len(),
                            position + index <= block@.len(),
                            value == little_endian(
                                block@.subrange(position as int, position + index),
                            ),
                            value < pow256(index as nat),
                        decreases extra - index,
                    {
                        if index >= block.len() - position {
                            proof {
                            reveal(parse_tag);
                            assert(parse_tag(block@, tag_offset as int) == Err::<(Element, int), SnappyError>(
                                SnappyError::Truncated { offset: tag_offset },
                            ));
                        }
                        return Err(SnappyError::Truncated { offset: tag_offset });
                        }
                        let byte = block[position + index];
                        proof {
                            let before = block@.subrange(position as int, position + index);
                            assert(block@.subrange(position as int, position + index + 1)
                                =~= before.push(byte));
                            lemma_little_endian_push(before, byte);
                            reveal_with_fuel(pow256, 5);
                            lemma_literal_length_step(value, byte, index);
                            assert(value + byte * pow256(index as nat) < pow256((index + 1) as nat))
                                by (nonlinear_arith)
                                requires
                                    value < pow256(index as nat),
                                    byte < 256,
                                    pow256((index + 1) as nat) == 256 * pow256(index as nat),
                            ;
                        }
                        value |= (byte as usize) << (8 * index);
                        index += 1;
                    }
                    position += extra;
                    if value >= block.len() - position {
                        proof {
                            reveal(parse_tag);
                            assert(parse_tag(block@, tag_offset as int) == Err::<(Element, int), SnappyError>(
                                SnappyError::Truncated { offset: tag_offset },
                            ));
                        }
                        return Err(SnappyError::Truncated { offset: tag_offset });
                    }
                    length = value + 1;
                } else if length > block.len() - position {
                    proof {
                            reveal(parse_tag);
                            assert(parse_tag(block@, tag_offset as int) == Err::<(Element, int), SnappyError>(
                                SnappyError::Truncated { offset: tag_offset },
                            ));
                        }
                        return Err(SnappyError::Truncated { offset: tag_offset });
                }
                let end = position + length;
                out.extend_from_slice(slice_range(block, position, end));
                proof {
                    produced = produced + block@.subrange(position as int, end as int);
                    assert(out@ =~= initial + produced);
                }
                position = end;
            },
            1 => {
                proof {
                    reveal(parse_tag);
                }
                let length = 4 + ((tag >> 2) & 0b111) as usize;
                let high = (tag >> 5) as usize;
                if position >= block.len() {
                    proof {
                            reveal(parse_tag);
                            assert(parse_tag(block@, tag_offset as int) == Err::<(Element, int), SnappyError>(
                                SnappyError::Truncated { offset: tag_offset },
                            ));
                        }
                        return Err(SnappyError::Truncated { offset: tag_offset });
                }
                let low = block[position] as usize;
                position += 1;
                let offset = (high << 8) | low;
                proof {
                    lemma_pair_bits(low, high);
                }
                match copy(out, start, offset, length, tag_offset) {
                    Ok(()) => {},
                    Err(error) => return Err(error),
                }
                proof {
                    lemma_copied_after(initial, produced, offset as nat, length as nat);
                    produced = copied(produced, offset as nat, length as nat);
                }
            },
            2 => {
                proof {
                    reveal(parse_tag);
                }
                let length = (tag >> 2) as usize + 1;
                if block.len() - position < 2 {
                    proof {
                            reveal(parse_tag);
                            assert(parse_tag(block@, tag_offset as int) == Err::<(Element, int), SnappyError>(
                                SnappyError::Truncated { offset: tag_offset },
                            ));
                        }
                        return Err(SnappyError::Truncated { offset: tag_offset });
                }
                let low = block[position] as usize;
                let high = block[position + 1] as usize;
                position += 2;
                let offset = low | (high << 8);
                proof {
                    lemma_pair_bits(low, high);
                }
                match copy(out, start, offset, length, tag_offset) {
                    Ok(()) => {},
                    Err(error) => return Err(error),
                }
                proof {
                    lemma_copied_after(initial, produced, offset as nat, length as nat);
                    produced = copied(produced, offset as nat, length as nat);
                }
            },
            _ => {
                proof {
                    reveal(parse_tag);
                }
                let length = (tag >> 2) as usize + 1;
                if block.len() - position < 4 {
                    proof {
                            reveal(parse_tag);
                            assert(parse_tag(block@, tag_offset as int) == Err::<(Element, int), SnappyError>(
                                SnappyError::Truncated { offset: tag_offset },
                            ));
                        }
                        return Err(SnappyError::Truncated { offset: tag_offset });
                }
                let offset = u32_from_le_bytes(slice_range(block, position, position + 4)) as usize;
                position += 4;
                match copy(out, start, offset, length, tag_offset) {
                    Ok(()) => {},
                    Err(error) => return Err(error),
                }
                proof {
                    lemma_copied_after(initial, produced, offset as nat, length as nat);
                    produced = copied(produced, offset as nat, length as nat);
                }
            },
        }
    }
    let actual = out.len() - start;
    proof {
        assert(out@.len() - start == produced.len());
        lemma_decode_step(block@, position as int, produced);
    }
    if actual != declared {
        return Err(SnappyError::LengthMismatch { declared, actual });
    }
    Ok(())
}


// ----- tags in a longer block -----

/// A whole tag reads the same when more bytes follow the block.
proof fn lemma_parse_tag_extend(block: Seq<u8>, more: Seq<u8>, pos: int)
    requires
        0 <= pos < block.len(),
        parse_tag(block, pos) is Ok,
    ensures
        parse_tag(block + more, pos) == parse_tag(block, pos),
{
    reveal(parse_tag);
    let whole = block + more;
    let tag = block[pos];
    let p = pos + 1;
    assert(whole[pos] == tag);
    if tag % 4 == 0 {
        let short = tag / 4 + 1;
        if short <= 60 {
            assert(whole.subrange(p, p + short) =~= block.subrange(p, p + short));
        } else {
            let extra = short - 60;
            assert(whole.subrange(p, p + extra) =~= block.subrange(p, p + extra));
            let length = little_endian(block.subrange(p, p + extra)) + 1;
            let q = p + extra;
            assert(whole.subrange(q, q + length) =~= block.subrange(q, q + length));
        }
    } else if tag % 4 == 1 {
        assert(whole[p] == block[p]);
    } else if tag % 4 == 2 {
        assert(whole[p] == block[p]);
        assert(whole[p + 1] == block[p + 1]);
    } else {
        assert(whole.subrange(p, p + 4) =~= block.subrange(p, p + 4));
    }
}

/// Tags that decode to the end of a block decode the same way when more
/// bytes follow, and the decoding then carries on from the old end.
proof fn lemma_decode_extend(block: Seq<u8>, more: Seq<u8>, pos: int, produced: Seq<u8>)
    requires
        0 <= pos <= block.len(),
        decode_tags(block, pos, produced) is Ok,
    ensures
        decode_tags(block + more, pos, produced) == decode_tags(
            block + more,
            block.len() as int,
            decode_tags(block, pos, produced)->Ok_0,
        ),
    decreases block.len() - pos,
{
    lemma_decode_step(block, pos, produced);
    lemma_decode_step(block + more, pos, produced);
    if pos < block.len() {
        lemma_parse_tag_advances(block, pos);
        lemma_parse_tag_extend(block, more, pos);
        match parse_tag(block, pos) {
            Ok((Element::Literal(bytes), next)) => {
                lemma_decode_extend(block, more, next, produced + bytes);
            },
            Ok((Element::Copy { offset, length }, next)) => {
                lemma_decode_extend(block, more, next, copied(produced, offset, length));
            },
            Err(_) => {},
        }
    }
}

/// A tag reads the same after bytes are put in front of it.
proof fn lemma_parse_tag_shift(front: Seq<u8>, tags: Seq<u8>, pos: int)
    requires
        0 <= pos < tags.len(),
        parse_tag(tags, pos) is Ok,
    ensures
        parse_tag(front + tags, front.len() + pos) matches Ok((element, next)) && parse_tag(tags, pos)
            matches Ok((element2, next2)) && element == element2 && next == front.len() + next2,
{
    reveal(parse_tag);
    let whole = front + tags;
    let f = front.len() as int;
    let tag = tags[pos];
    let p = pos + 1;
    assert(whole[f + pos] == tag);
    if tag % 4 == 0 {
        let short = tag / 4 + 1;
        if short <= 60 {
            assert(whole.subrange(f + p, f + p + short) =~= tags.subrange(p, p + short));
        } else {
            let extra = short - 60;
            assert(whole.subrange(f + p, f + p + extra) =~= tags.subrange(p, p + extra));
            let length = little_endian(tags.subrange(p, p + extra)) + 1;
            let q = p + extra;
            assert(whole.subrange(f + q, f + q + length) =~= tags.subrange(q, q + length));
        }
    } else if tag % 4 == 1 {
        assert(whole[f + p] == tags[p]);
    } else if tag % 4 == 2 {
        assert(whole[f + p] == tags[p]);
        assert(whole[f + p + 1] == tags[p + 1]);
    } else {
        assert(whole.subrange(f + p, f + p + 4) =~= tags.subrange(p, p + 4));
    }
}

/// Tags that decode on their own decode the same after bytes put in front.
proof fn lemma_decode_shift(front: Seq<u8>, tags: Seq<u8>, pos: int, produced: Seq<u8>)
    requires
        0 <= pos <= tags.len(),
        decode_tags(tags, pos, produced) is Ok,
    ensures
        decode_tags(front + tags, front.len() + pos, produced) == decode_tags(tags, pos, produced),
    decreases tags.len() - pos,
{
    lemma_decode_step(tags, pos, produced);
    lemma_decode_step(front + tags, front.len() + pos, produced);
    if pos < tags.len() {
        lemma_parse_tag_advances(tags, pos);
        lemma_parse_tag_shift(front, tags, pos);
        match parse_tag(tags, pos) {
            Ok((Element::Literal(bytes), next)) => {
                lemma_decode_shift(front, tags, next, produced + bytes);
            },
            Ok((Element::Copy { offset, length }, next)) => {
                lemma_decode_shift(front, tags, next, copied(produced, offset, length));
            },
            Err(_) => {},
        }
    }
}

/// Appending tags that turn `so_far`'s output into `after` continues the
/// decoding of a block.
proof fn lemma_decode_append(
    block: Seq<u8>,
    tags: Seq<u8>,
    start: int,
    before: Seq<u8>,
    so_far: Seq<u8>,
    after: Seq<u8>,
)
    requires
        0 <= start <= block.len(),
        decode_tags(block, start, before) == Ok::<Seq<u8>, SnappyError>(so_far),
        decode_tags(tags, 0, so_far) == Ok::<Seq<u8>, SnappyError>(after),
    ensures
        decode_tags(block + tags, start, before) == Ok::<Seq<u8>, SnappyError>(after),
{
    lemma_decode_extend(block, tags, start, before);
    lemma_decode_shift(block, tags, 0, so_far);
}

/// Copying `a` then `b` bytes at one offset is copying `a + b`.
proof fn lemma_copied_twice(produced: Seq<u8>, offset: nat, a: nat, b: nat)
    requires
        1 <= offset <= produced.len(),
    ensures
        copied(copied(produced, offset, a), offset, b) == copied(produced, offset, a + b),
{
    let first = copied(produced, offset, a);
    let left = copied(first, offset, b);
    let right = copied(produced, offset, a + b);
    let o = offset as int;
    let n = produced.len() as int;
    assert forall|k: int| 0 <= k < left.len() implies #[trigger] left[k] == right[k] by {
        if k >= first.len() {
            let i = k - first.len();
            let r = i % o;
            assert(0 <= r < o) by (nonlinear_arith)
                requires
                    o >= 1,
                    r == i % o,
                    i >= 0,
            ;
            vstd::arithmetic::div_mod::lemma_add_mod_noop(a as int, i, o);
            vstd::arithmetic::div_mod::lemma_add_mod_noop(a as int, r, o);
            vstd::arithmetic::div_mod::lemma_mod_twice(i, o);
            if a + r >= o {
                let j = a + r - o;
                vstd::arithmetic::div_mod::lemma_mod_multiples_vanish(1, j, o);
                vstd::arithmetic::div_mod::lemma_mod_twice(j, o);
                assert(first[n + j] == produced[n - o + j % o]);
            } else {
                vstd::arithmetic::div_mod::lemma_small_mod((a + r) as nat, offset);
            }
        }
    }
    assert(left =~= right);
}

// ----- encoding -----

/// Hash table entries; a power of two.
const TABLE_SIZE: usize = 16384;
/// Copies reach back at most this far (the two-byte offset form).
const MAX_OFFSET: usize = 65535;
/// Shortest match worth a copy.
const MIN_MATCH: usize = 4;

/// The tag that opens a literal of `length + 1` bytes: the length in the
/// tag byte when it is under 60, else in the one to four little-endian
/// bytes that follow.
pub open spec fn literal_tag(length: usize) -> Seq<u8> {
    if length < 60 {
        seq![(length * 4) as u8]
    } else if length < 256 {
        seq![240u8, length as u8]
    } else if length < 65536 {
        seq![244u8, length as u8, (length >> 8usize) as u8]
    } else if length < 16777216 {
        seq![248u8, length as u8, (length >> 8usize) as u8, (length >> 16usize) as u8]
    } else {
        seq![252u8, length as u8, (length >> 8usize) as u8, (length >> 16usize) as u8, (length >> 24usize) as u8]
    }
}

/// One literal holding `bytes` (at least one).
pub open spec fn literal_bytes(bytes: Seq<u8>) -> Seq<u8> {
    literal_tag((bytes.len() - 1) as usize) + bytes
}

/// The copy tags for a match of `length` bytes `offset` back: one short
/// tag (one-byte offset) for 4 to 11 bytes within 2 KiB, else tags with a
/// two-byte offset of up to 64 bytes each, never leaving a remainder
/// under four.
pub open spec fn copy_tags(offset: usize, length: usize) -> Seq<u8>
    decreases length,
{
    if length == 0 {
        Seq::empty()
    } else if 4 <= length <= 11 && offset < 2048 {
        seq![1u8 | (((length - 4) as u8) << 2u8) | (((offset >> 8usize) as u8) << 5u8), offset as u8]
    } else {
        let largest: int = if length < 64 {
            length as int
        } else {
            64
        };
        let piece: int = if length - largest > 0 && length - largest < 4 {
            length - 4
        } else {
            largest
        };
        seq![2u8 | (((piece - 1) as u8) << 2u8), offset as u8, (offset >> 8usize) as u8] + copy_tags(
            offset,
            (length - piece) as usize,
        )
    }
}

/// The match table slot of the four bytes at `position`: their
/// little-endian word times 0x1E35A7BD (mod 2^32), top fourteen bits.
pub open spec fn slot_of(data: Seq<u8>, position: int) -> int {
    (spec_u32_from_le_bytes(data.subrange(position, position + 4)).wrapping_mul(0x1E35_A7BD) >> 18u32) as int
}

/// How far the bytes from `candidate` and from `position` go on agreeing,
/// given that they agree on the first `length`.
pub open spec fn match_run(data: Seq<u8>, candidate: int, position: int, length: int) -> int
    decreases data.len() - position - length,
{
    if position + length < data.len() && data[candidate + length] == data[position + length] {
        match_run(data, candidate, position, length + 1)
    } else {
        length
    }
}

/// A run is at least what it starts from, and ends by the end of the data.
pub proof fn lemma_match_run_bounds(data: Seq<u8>, candidate: int, position: int, length: int)
    requires
        position + length <= data.len(),
    ensures
        length <= match_run(data, candidate, position, length) <= data.len() - position,
    decreases data.len() - position - length,
{
    if position + length < data.len() && data[candidate + length] == data[position + length] {
        lemma_match_run_bounds(data, candidate, position, length + 1);
    }
}

/// The run is the first place where the bytes differ, or the end.
proof fn lemma_match_run_is(data: Seq<u8>, candidate: int, position: int, length: int, end: int)
    requires
        0 <= length <= end <= data.len() - position,
        forall|i: int| length <= i < end ==> #[trigger] data[candidate + i] == data[position + i],
        end < data.len() - position ==> data[candidate + end] != data[position + end],
    ensures
        match_run(data, candidate, position, length) == end,
    decreases end - length,
{
    if length < end {
        lemma_match_run_is(data, candidate, position, length + 1, end);
    }
}

/// The tags the matcher writes from `position` on. `table` holds, for each
/// slot, the last position hashed there plus one (zero when none), and the
/// bytes from `literal_start` to `position` are waiting to be written as a
/// literal. A position whose slot held an earlier position with the same
/// four bytes, at most 65535 back, starts a match: the waiting literal, then
/// the copy of the whole run, and the search goes on after it.
pub open spec fn matcher_tags(data: Seq<u8>, table: Seq<u32>, literal_start: int, position: int) -> Seq<u8>
    decreases data.len() - position,
{
    if position + 4 > data.len() {
        if literal_start < data.len() {
            literal_bytes(data.subrange(literal_start, data.len() as int))
        } else {
            Seq::empty()
        }
    } else {
        let slot = slot_of(data, position);
        let candidate = table[slot] as int;
        let marked = table.update(slot, (position + 1) as u32);
        let offset = position - (candidate - 1);
        let start = position - offset;
        if candidate > 0 && 0 < offset <= 65535 && data.subrange(start, start + 4) == data.subrange(
            position,
            position + 4,
        ) {
            let length = match_run(data, start, position, 4);
            proof {
                lemma_match_run_bounds(data, start, position, 4);
            }
            let next = position + length;
            let remembered = if next >= 1 && next + 4 <= data.len() {
                marked.update(slot_of(data, next - 1), next as u32)
            } else {
                marked
            };
            let waiting = if literal_start < position {
                literal_bytes(data.subrange(literal_start, position))
            } else {
                Seq::empty()
            };
            waiting + copy_tags(offset as usize, length as usize) + matcher_tags(data, remembered, next, next)
        } else {
            matcher_tags(data, marked, literal_start, position + 1)
        }
    }
}

/// The block `compress_block` writes for `data`: the length, then a single
/// literal for under five bytes, the matcher's tags otherwise.
pub open spec fn compressed(data: Seq<u8>) -> Seq<u8> {
    spec_varint_bytes(data.len()) + if data.len() < 5 {
        if data.len() > 0 {
            literal_bytes(data)
        } else {
            Seq::empty()
        }
    } else {
        matcher_tags(data, Seq::new(16384, |i: int| 0u32), 0, 0)
    }
}

/// Writes `data` as one literal tag: its length less one in the tag or in
/// one to four bytes after it, then the bytes.
#[verifier::spinoff_prover]
#[verifier::rlimit(40)]
fn emit_literal(data: &[u8], out: &mut Vec<u8>)
    requires
        1 <= data@.len(),
    ensures
        final(out)@.len() >= old(out)@.len(),
        final(out)@.subrange(0, old(out)@.len() as int) == old(out)@,
        final(out)@ == old(out)@ + literal_bytes(data@),
        data@.len() <= 0x1_0000_0000 ==> forall|produced: Seq<u8>|
            #[trigger] decode_tags(final(out)@.subrange(old(out)@.len() as int, final(out)@.len() as int), 0, produced)
                == Ok::<Seq<u8>, SnappyError>(produced + data@),
{
    let ghost base = out@;
    let length = data.len() - 1;
    proof {
        if length < 60 {
            lemma_split_bits(length);
        }
    }
    if length < 60 {
        out.push((length as u8) << 2);
    } else if length < 256 {
        out.push(240);
        out.push(length as u8);
    } else if length < 65536 {
        out.push(244);
        out.push(length as u8);
        out.push((length >> 8) as u8);
    } else if length < 16777216 {
        out.push(248);
        out.push(length as u8);
        out.push((length >> 8) as u8);
        out.push((length >> 16) as u8);
    } else {
        out.push(252);
        out.push(length as u8);
        out.push((length >> 8) as u8);
        out.push((length >> 16) as u8);
        out.push((length >> 24) as u8);
    }
    let ghost header = out@.subrange(base.len() as int, out@.len() as int);
    assert(header =~= literal_tag(length));
    out.extend_from_slice(data);
    proof {
        let tags = out@.subrange(base.len() as int, out@.len() as int);
        assert(tags =~= header + data@);
        assert(out@ =~= base + literal_bytes(data@));
        assert(out@.subrange(0, base.len() as int) =~= base);
        let h = header.len() as int;
        assert(tags.subrange(h, h + data@.len()) =~= data@);
        if data@.len() <= 0x1_0000_0000 {
        reveal(parse_tag);
        lemma_split_bits(length);
        if length < 60 {
        } else if length < 256 {
            assert(tags.subrange(1, 2) =~= seq![length as u8]);
            reveal_with_fuel(little_endian, 2);
            assert(length as u8 == length);
        } else if length < 65536 {
            assert(tags.subrange(1, 3) =~= seq![length as u8, (length >> 8) as u8]);
            reveal_with_fuel(little_endian, 3);
        } else if length < 16777216 {
            assert(tags.subrange(1, 4) =~= seq![length as u8, (length >> 8) as u8, (length >> 16) as u8]);
            reveal_with_fuel(little_endian, 4);
        } else {
            assert(tags.subrange(1, 5) =~= seq![
                length as u8,
                (length >> 8) as u8,
                (length >> 16) as u8,
                (length >> 24) as u8,
            ]);
            reveal_with_fuel(little_endian, 5);
        }
        assert(parse_tag(tags, 0) == Ok::<(Element, int), SnappyError>(
            (Element::Literal(data@), tags.len() as int),
        ));
        assert forall|produced: Seq<u8>|
            #[trigger] decode_tags(tags, 0, produced) == Ok::<Seq<u8>, SnappyError>(produced + data@) by {
            lemma_decode_step(tags, 0, produced);
            lemma_decode_step(tags, tags.len() as int, produced + data@);
        }
        }
    }
}

/// Writes a match as one or more copy tags: the one-byte-offset form for
/// short, near matches, the two-byte form otherwise, 64 bytes at a time.
#[verifier::spinoff_prover]
fn emit_copies(offset: usize, length: usize, out: &mut Vec<u8>)
    requires
        1 <= offset <= MAX_OFFSET,
    ensures
        final(out)@.len() >= old(out)@.len(),
        final(out)@.subrange(0, old(out)@.len() as int) == old(out)@,
        final(out)@ == old(out)@ + copy_tags(offset, length),
        forall|produced: Seq<u8>|
            offset <= produced.len() ==> #[trigger] decode_tags(
                final(out)@.subrange(old(out)@.len() as int, final(out)@.len() as int),
                0,
                produced,
            ) == Ok::<Seq<u8>, SnappyError>(copied(produced, offset as nat, length as nat)),
{
    let ghost base = out@;
    let ghost total = length;
    let mut length = length;
    proof {
        lemma_copy_tag_bits(0, 0, 0, offset);
        assert(out@.subrange(base.len() as int, out@.len() as int) =~= Seq::<u8>::empty());
        assert forall|produced: Seq<u8>|
            offset <= produced.len() implies #[trigger] decode_tags(
                out@.subrange(base.len() as int, out@.len() as int),
                0,
                produced,
            ) == Ok::<Seq<u8>, SnappyError>(copied(produced, offset as nat, 0)) by {
            lemma_decode_step(Seq::<u8>::empty(), 0, produced);
            assert(copied(produced, offset as nat, 0) =~= produced);
        }
    }
    while length > 0
        invariant
            1 <= offset <= MAX_OFFSET,
            length <= total,
            out@.len() >= base.len(),
            out@.subrange(0, base.len() as int) == base,
            out@ + copy_tags(offset, length) == base + copy_tags(offset, total),
            forall|produced: Seq<u8>|
                offset <= produced.len() ==> #[trigger] decode_tags(
                    out@.subrange(base.len() as int, out@.len() as int),
                    0,
                    produced,
                ) == Ok::<Seq<u8>, SnappyError>(copied(produced, offset as nat, (total - length) as nat)),
        decreases length,
    {
        let ghost before = out@;
        let ghost remaining = length;
        let ghost done = (total - length) as nat;
        let ghost piece_tags: Seq<u8>;
        let ghost piece: nat;
        if 4 <= length && length <= 11 && offset < 2048 {
            let a = (length - 4) as u8;
            proof {
                lemma_copy_tag_bits(0, 0, 0, offset);
            }
            let h = (offset >> 8) as u8;
            proof {
                lemma_copy_tag_bits(a, h, 0, offset);
            }
            out.push(1u8 | (a << 2u8) | (h << 5u8));
            out.push(offset as u8);
            proof {
                piece_tags = seq![1u8 | (a << 2u8) | (h << 5u8), offset as u8];
                piece = length as nat;
            }
            length = 0;
        } else {
            let largest = if length < 64 {
                length
            } else {
                64
            };
            // Never leave a remainder shorter than a one-byte copy can hold.
            let chunk = if length - largest > 0 && length - largest < 4 {
                length - 4
            } else {
                largest
            };
            let p = (chunk - 1) as u8;
            proof {
                lemma_copy_tag_bits(0, 0, p, offset);
            }
            out.push(2u8 | (p << 2u8));
            out.push(offset as u8);
            out.push((offset >> 8) as u8);
            proof {
                piece_tags = seq![2u8 | (p << 2u8), offset as u8, (offset >> 8) as u8];
                piece = chunk as nat;
            }
            length -= chunk;
        }
        proof {
            let old_tags = before.subrange(base.len() as int, before.len() as int);
            let new_tags = out@.subrange(base.len() as int, out@.len() as int);
            assert(out@ =~= before + piece_tags);
            assert(copy_tags(offset, remaining) =~= piece_tags + copy_tags(offset, length));
            assert(out@ + copy_tags(offset, length) =~= before + copy_tags(offset, remaining));
            assert(new_tags =~= old_tags + piece_tags);
            assert(out@.subrange(0, base.len() as int) =~= before.subrange(0, base.len() as int));
            reveal(parse_tag);
            assert(parse_tag(piece_tags, 0) == Ok::<(Element, int), SnappyError>(
                (Element::Copy { offset: offset as nat, length: piece }, piece_tags.len() as int),
            ));
            assert forall|produced: Seq<u8>|
                offset <= produced.len() implies #[trigger] decode_tags(new_tags, 0, produced)
                    == Ok::<Seq<u8>, SnappyError>(copied(produced, offset as nat, (total - length) as nat)) by {
                let so_far = copied(produced, offset as nat, done);
                let after = copied(so_far, offset as nat, piece);
                lemma_decode_step(piece_tags, 0, so_far);
                lemma_decode_step(piece_tags, piece_tags.len() as int, after);
                assert(decode_tags(old_tags, 0, produced) == Ok::<Seq<u8>, SnappyError>(so_far));
                lemma_decode_append(old_tags, piece_tags, 0, produced, so_far, after);
                lemma_copied_twice(produced, offset as nat, done, piece);
            }
        }
    }
}

/// The table slot of the four bytes at `position`.
fn hash_at(data: &[u8], position: usize) -> (hash: usize)
    requires
        position + 4 <= data.len(),
    ensures
        hash < TABLE_SIZE,
        hash == slot_of(data@, position as int),
{
    let word = u32_from_le_bytes(slice_range(data, position, position + 4));
    let hash = word.wrapping_mul(0x1E35_A7BD) >> 18u32;
    proof {
        lemma_hash_bits(word.wrapping_mul(0x1E35_A7BD));
    }
    hash as usize
}

/// Length of the match between `candidate` and `position`, at least
/// `MIN_MATCH`, compared eight bytes at a time.
fn match_length(data: &[u8], candidate: usize, position: usize) -> (length: usize)
    requires
        candidate < position,
        position + MIN_MATCH <= data@.len(),
        forall|i: int| 0 <= i < MIN_MATCH ==> #[trigger] data@[candidate + i] == data@[position + i],
    ensures
        MIN_MATCH <= length <= data@.len() - position,
        forall|i: int| 0 <= i < length ==> #[trigger] data@[candidate + i] == data@[position + i],
        length < data@.len() - position ==> data@[candidate + length] != data@[position + length],
{
    let limit = data.len() - position;
    let mut length = MIN_MATCH;
    while limit - length >= 8
        invariant
            candidate < position,
            limit == data@.len() - position,
            data@.len() <= usize::MAX,
            MIN_MATCH <= length <= limit,
            forall|i: int| 0 <= i < length ==> #[trigger] data@[candidate + i] == data@[position + i],
        decreases limit - length,
    {
        let left = load_word(data, candidate + length);
        let right = load_word(data, position + length);
        proof {
            lemma_first_difference(data@, candidate + length, position + length, left, right);
        }
        if left != right {
            let first = ((left ^ right).trailing_zeros() / 8) as usize;
            proof {
                assert forall|i: int| 0 <= i < length + first implies #[trigger] data@[candidate + i]
                    == data@[position + i] by {
                    if i >= length {
                        let j = i - length;
                        assert(data@[candidate + length + j] == data@[position + length + j]);
                    }
                }
            }
            return length + first;
        }
        proof {
            assert forall|i: int| 0 <= i < length + 8 implies #[trigger] data@[candidate + i]
                == data@[position + i] by {
                if i >= length {
                    let j = i - length;
                    assert(data@[candidate + length + j] == data@[position + length + j]);
                }
            }
        }
        length += 8;
    }
    while length < limit && data[candidate + length] == data[position + length]
        invariant
            candidate < position,
            limit == data@.len() - position,
            data@.len() <= usize::MAX,
            MIN_MATCH <= length <= limit,
            forall|i: int| 0 <= i < length ==> #[trigger] data@[candidate + i] == data@[position + i],
        decreases limit - length,
    {
        length += 1;
    }
    length
}

/// A match repeats with period `offset`: each byte equals the one at the
/// same place within the first period.
proof fn lemma_match_period(data: Seq<u8>, candidate: int, position: int, length: int, i: int)
    requires
        0 <= candidate < position,
        position + length <= data.len(),
        forall|k: int| 0 <= k < length ==> #[trigger] data[candidate + k] == data[position + k],
        0 <= i < length,
    ensures
        data[candidate + i % (position - candidate)] == data[position + i],
    decreases i,
{
    let offset = position - candidate;
    if i < offset {
        vstd::arithmetic::div_mod::lemma_small_mod(i as nat, offset as nat);
    } else {
        lemma_match_period(data, candidate, position, length, i - offset);
        vstd::arithmetic::div_mod::lemma_mod_sub_multiples_vanish(i, offset);
        assert(data[candidate + i] == data[position + i]);
        assert(candidate + i == position + (i - offset));
    }
}

/// Copying a match from `candidate` rebuilds the data after `position`.
proof fn lemma_match_copy(data: Seq<u8>, candidate: int, position: int, length: int)
    requires
        0 <= candidate < position,
        position + length <= data.len(),
        length >= 0,
        forall|k: int| 0 <= k < length ==> #[trigger] data[candidate + k] == data[position + k],
    ensures
        copied(data.subrange(0, position), (position - candidate) as nat, length as nat) == data.subrange(
            0,
            position + length,
        ),
{
    let produced = data.subrange(0, position);
    let offset = position - candidate;
    let left = copied(produced, offset as nat, length as nat);
    let right = data.subrange(0, position + length);
    assert forall|k: int| 0 <= k < left.len() implies #[trigger] left[k] == right[k] by {
        if k >= position {
            let i = k - position;
            lemma_match_period(data, candidate, position, length, i);
            assert(0 <= i % offset < offset) by (nonlinear_arith)
                requires
                    offset >= 1,
                    i >= 0,
            ;
        }
    }
    assert(left =~= right);
}

/// The block that declares `length` and holds `tags` decodes to `data`.
proof fn lemma_block_decodes(data: Seq<u8>, tags: Seq<u8>, limit: usize)
    requires
        data.len() <= u64::MAX,
        data.len() <= limit,
        decode_tags(tags, 0, Seq::empty()) == Ok::<Seq<u8>, SnappyError>(data),
    ensures
        spec_decompress_block(spec_varint_bytes(data.len()) + tags, limit) == Ok::<Seq<u8>, SnappyError>(
            data,
        ),
{
    let header = spec_varint_bytes(data.len());
    lemma_varint_round_trip(data.len() as u64, tags);
    lemma_decode_shift(header, tags, 0, Seq::empty());
}

/// Compresses `data` into one block, appending to `out`.
#[verifier::spinoff_prover]
#[verifier::rlimit(50)]
pub fn compress_block(data: &[u8], out: &mut Vec<u8>)
    requires
        data@.len() <= u32::MAX,
    ensures
        final(out)@.len() >= old(out)@.len(),
        final(out)@.subrange(0, old(out)@.len() as int) == old(out)@,
        final(out)@ == old(out)@ + compressed(data@),
        forall|limit: usize|
            data@.len() <= limit ==> #[trigger] spec_decompress_block(
                final(out)@.subrange(old(out)@.len() as int, final(out)@.len() as int),
                limit,
            ) == Ok::<Seq<u8>, SnappyError>(data@),
{
    let ghost base = out@;
    write_varint(out, data.len() as u64);
    let ghost header = out@;
    assert(header =~= base + spec_varint_bytes(data@.len()));
    proof {
        assert(header.subrange(0, base.len() as int) =~= base);
    }
    if data.len() < MIN_MATCH + 1 {
        if data.len() > 0 {
            emit_literal(data, out);
        }
        proof {
            let tags = out@.subrange(header.len() as int, out@.len() as int);
            if data.len() == 0 {
                assert(tags =~= Seq::<u8>::empty());
                lemma_decode_step(tags, 0, Seq::empty());
            }
            assert(Seq::<u8>::empty() + data@ =~= data@);
            assert(out@ =~= out@.subrange(0, header.len() as int) + tags);
            assert(out@.subrange(base.len() as int, out@.len() as int) =~= spec_varint_bytes(
                data@.len(),
            ) + tags);
            assert(out@.subrange(0, base.len() as int) =~= base);
            assert(out@ =~= base + compressed(data@));
            assert forall|limit: usize| data@.len() <= limit implies #[trigger] spec_decompress_block(
                out@.subrange(base.len() as int, out@.len() as int),
                limit,
            ) == Ok::<Seq<u8>, SnappyError>(data@) by {
                lemma_block_decodes(data@, tags, limit);
            }
        }
        return;
    }
    // Positions plus one, so zero means empty.
    let mut table = vec![0u32; TABLE_SIZE];
    let ghost zeros = Seq::new(16384, |i: int| 0u32);
    let mut literal_start = 0usize;
    let mut position = 0usize;
    let last_start = data.len() - MIN_MATCH;
    proof {
        assert(table@ =~= zeros);
        let tags = out@.subrange(header.len() as int, out@.len() as int);
        assert(tags =~= Seq::<u8>::empty());
        lemma_decode_step(tags, 0, Seq::empty());
        assert(data@.subrange(0, 0) =~= Seq::<u8>::empty());
    }
    while position <= last_start
        invariant
            data@.len() <= u32::MAX,
            last_start == data@.len() - MIN_MATCH,
            literal_start <= position <= data@.len(),
            table@.len() == TABLE_SIZE,
            forall|h: int| 0 <= h < TABLE_SIZE ==> #[trigger] table@[h] <= position,
            out@.len() >= header.len(),
            out@.subrange(0, header.len() as int) == header,
            decode_tags(out@.subrange(header.len() as int, out@.len() as int), 0, Seq::empty())
                == Ok::<Seq<u8>, SnappyError>(data@.subrange(0, literal_start as int)),
            out@ + matcher_tags(data@, table@, literal_start as int, position as int) == header
                + matcher_tags(data@, zeros, 0, 0),
        decreases data@.len() - position,
    {
        let ghost seen = table@;
        let ghost waiting_from = literal_start as int;
        let ghost at = position as int;
        let ghost written = out@;
        let hash = hash_at(data, position);
        let candidate = table[hash] as usize;
        table[hash] = position as u32 + 1;
        let mut found = false;
        let mut offset = 0usize;
        if candidate > 0 {
            offset = position - (candidate - 1);
            if offset > 0 && offset <= MAX_OFFSET {
                let start = position - offset;
                found = data[start] == data[position] && data[start + 1] == data[position + 1]
                    && data[start + 2] == data[position + 2] && data[start + 3] == data[position + 3];
            }
        }
        proof {
            let candidate = seen[hash as int] as int;
            let back = at - (candidate - 1);
            let from = at - back;
            if candidate > 0 && 0 < back <= 65535 {
                assert(offset == back);
                if found {
                    assert(data@.subrange(from, from + 4) =~= data@.subrange(at, at + 4));
                } else if data@.subrange(from, from + 4) == data@.subrange(at, at + 4) {
                    assert(data@.subrange(from, from + 4)[0] == data@.subrange(at, at + 4)[0]);
                    assert(data@.subrange(from, from + 4)[1] == data@.subrange(at, at + 4)[1]);
                    assert(data@.subrange(from, from + 4)[2] == data@.subrange(at, at + 4)[2]);
                    assert(data@.subrange(from, from + 4)[3] == data@.subrange(at, at + 4)[3]);
                }
            }
            assert(table@ == seen.update(hash as int, (at + 1) as u32));
        }
        if !found {
            position += 1;
            proof {
                assert(matcher_tags(data@, seen, waiting_from, at) == matcher_tags(
                    data@,
                    table@,
                    waiting_from,
                    at + 1,
                ));
            }
        } else {
            let start = position - offset;
            proof {
                assert forall|i: int| 0 <= i < MIN_MATCH implies #[trigger] data@[start + i]
                    == data@[position + i] by {
                    assert(i == 0 || i == 1 || i == 2 || i == 3);
                }
            }
            let length = match_length(data, start, position);
            proof {
                lemma_match_run_is(data@, start as int, at, 4, length as int);
            }
            let ghost before_literal = out@;
            if literal_start < position {
                emit_literal(slice_range(data, literal_start, position), out);
            }
            let ghost before_copy = out@;
            proof {
                let old_tags = before_literal.subrange(header.len() as int, before_literal.len() as int);
                let mid_tags = before_copy.subrange(header.len() as int, before_copy.len() as int);
                let head = data@.subrange(0, literal_start as int);
                if literal_start < position {
                    let literal = data@.subrange(literal_start as int, position as int);
                    let lit_tags = before_copy.subrange(before_literal.len() as int, before_copy.len() as int);
                    assert(mid_tags =~= old_tags + lit_tags);
                    assert(decode_tags(lit_tags, 0, head) == Ok::<Seq<u8>, SnappyError>(head + literal));
                    lemma_decode_append(old_tags, lit_tags, 0, Seq::empty(), head, head + literal);
                    assert(head + literal =~= data@.subrange(0, position as int));
                } else {
                    assert(mid_tags =~= old_tags);
                }
                assert(before_copy.subrange(0, header.len() as int) =~= header);
            }
            emit_copies(offset, length, out);
            proof {
                let mid_tags = before_copy.subrange(header.len() as int, before_copy.len() as int);
                let copy_tags = out@.subrange(before_copy.len() as int, out@.len() as int);
                let new_tags = out@.subrange(header.len() as int, out@.len() as int);
                let so_far = data@.subrange(0, position as int);
                assert(new_tags =~= mid_tags + copy_tags);
                lemma_match_copy(data@, start as int, position as int, length as int);
                assert(decode_tags(copy_tags, 0, so_far) == Ok::<Seq<u8>, SnappyError>(
                    data@.subrange(0, position + length),
                ));
                lemma_decode_append(
                    mid_tags,
                    copy_tags,
                    0,
                    Seq::empty(),
                    so_far,
                    data@.subrange(0, position + length),
                );
                assert(out@.subrange(0, header.len() as int) =~= header);
            }
            position += length;
            literal_start = position;
            // Remember the position just before the new literal so the next
            // match can reach across what was copied.
            if position >= 1 && position <= last_start {
                let hash = hash_at(data, position - 1);
                table[hash] = position as u32;
            }
            proof {
                let waiting = if waiting_from < at {
                    literal_bytes(data@.subrange(waiting_from, at))
                } else {
                    Seq::empty()
                };
                assert(before_copy == written + waiting);
                assert(matcher_tags(data@, seen, waiting_from, at) == waiting + copy_tags(offset, length)
                    + matcher_tags(data@, table@, position as int, position as int));
                assert(out@ + matcher_tags(data@, table@, position as int, position as int) =~= written
                    + matcher_tags(data@, seen, waiting_from, at));
            }
        }
    }
    let ghost before_tail = out@;
    if literal_start < data.len() {
        emit_literal(slice_range(data, literal_start, data.len()), out);
    }
    proof {
        let old_tags = before_tail.subrange(header.len() as int, before_tail.len() as int);
        let tags = out@.subrange(header.len() as int, out@.len() as int);
        assert(out@.subrange(0, header.len() as int) =~= before_tail.subrange(0, header.len() as int));
        let head = data@.subrange(0, literal_start as int);
        if literal_start < data.len() {
            let literal = data@.subrange(literal_start as int, data@.len() as int);
            let lit_tags = out@.subrange(before_tail.len() as int, out@.len() as int);
            assert(tags =~= old_tags + lit_tags);
            assert(decode_tags(lit_tags, 0, head) == Ok::<Seq<u8>, SnappyError>(head + literal));
            lemma_decode_append(old_tags, lit_tags, 0, Seq::empty(), head, head + literal);
            assert(head + literal =~= data@);
        } else {
            assert(tags =~= old_tags);
            assert(head =~= data@);
        }
        assert(out@ =~= out@.subrange(0, header.len() as int) + tags);
        assert(out@.subrange(base.len() as int, out@.len() as int) =~= spec_varint_bytes(data@.len())
            + tags);
        assert(out@.subrange(0, base.len() as int) =~= base);
        assert(out@ =~= base + compressed(data@));
        assert forall|limit: usize| data@.len() <= limit implies #[trigger] spec_decompress_block(
            out@.subrange(base.len() as int, out@.len() as int),
            limit,
        ) == Ok::<Seq<u8>, SnappyError>(data@) by {
            lemma_block_decodes(data@, tags, limit);
        }
    }
}

/// Encodes `data` as one block holding a single literal. Every decoder
/// accepts it; used where speed of writing matters more than size. A
/// literal's length field holds 32 bits, so the block decodes back to
/// `data` for inputs of up to 4 GiB.
pub fn encode_literal_block(data: &[u8], out: &mut Vec<u8>)
    ensures
        final(out)@.len() >= old(out)@.len(),
        final(out)@.subrange(0, old(out)@.len() as int) == old(out)@,
        final(out)@ == old(out)@ + spec_varint_bytes(data@.len()) + if data@.len() > 0 {
            literal_bytes(data@)
        } else {
            Seq::empty()
        },
        data@.len() <= 0x1_0000_0000 ==> forall|limit: usize|
            data@.len() <= limit ==> #[trigger] spec_decompress_block(
                final(out)@.subrange(old(out)@.len() as int, final(out)@.len() as int),
                limit,
            ) == Ok::<Seq<u8>, SnappyError>(data@),
{
    let ghost base = out@;
    write_varint(out, data.len() as u64);
    let ghost header = out@;
    assert(header =~= base + spec_varint_bytes(data@.len()));
    if data.len() > 0 {
        emit_literal(data, out);
    }
    proof {
        lemma_varint_round_trip(data@.len() as u64, Seq::empty());
        let tags = out@.subrange(header.len() as int, out@.len() as int);
        assert(out@ =~= out@.subrange(0, header.len() as int) + tags);
        assert(out@.subrange(base.len() as int, out@.len() as int) =~= spec_varint_bytes(data@.len())
            + tags);
        assert(out@.subrange(0, base.len() as int) =~= base);
        if data.len() == 0 {
            assert(out@ =~= base + spec_varint_bytes(data@.len()) + Seq::<u8>::empty());
        } else {
            assert(out@ =~= base + spec_varint_bytes(data@.len()) + literal_bytes(data@));
        }
        if data@.len() <= 0x1_0000_0000 {
            if data.len() == 0 {
                assert(tags =~= Seq::<u8>::empty());
                lemma_decode_step(tags, 0, Seq::empty());
            }
            assert(Seq::<u8>::empty() + data@ =~= data@);
            assert forall|limit: usize| data@.len() <= limit implies #[trigger] spec_decompress_block(
                out@.subrange(base.len() as int, out@.len() as int),
                limit,
            ) == Ok::<Seq<u8>, SnappyError>(data@) by {
                lemma_block_decodes(data@, tags, limit);
            }
        }
    }
}

} // verus!
