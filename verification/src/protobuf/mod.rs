//! Protocol Buffers wire format, without schemas. A message is a sequence
//! of fields, each a number plus a value of one of the wire types. The
//! reader yields them as they are; what a field means is the caller's
//! business. The writing half holds the varint and tag encoders.

pub mod schema;
pub mod tree;

use vstd::prelude::*;
use vstd::bytes::{spec_u32_from_le_bytes, spec_u64_from_le_bytes, u32_from_le_bytes, u64_from_le_bytes};
use crate::bits::{lemma_byte_bits, lemma_signed_bits, lemma_tag_bits, lemma_word_bits};

verus! {

#[derive(Debug, Clone, Copy, PartialEq, Eq, Structural)]
pub enum ProtobufError {
    /// The bytes ended in the middle of a field.
    Truncated { offset: usize },
    /// A tag with a wire type that does not exist (6 or 7).
    BadWireType { offset: usize, wire_type: u8 },
    /// A varint longer than ten bytes.
    VarintTooLong { offset: usize },
    /// An end-group tag with no matching start.
    UnexpectedGroupEnd { offset: usize },
}

// ----- varints -----

/// `128^n`: the weight of the `n`th seven-bit group of a varint.
pub open spec fn weight(n: nat) -> nat
    decreases n,
{
    if n == 0 {
        1
    } else {
        128 * weight((n - 1) as nat)
    }
}

/// The number the seven-bit payloads of `s` spell, low group first.
pub open spec fn varint_payload(s: Seq<u8>) -> nat
    decreases s.len(),
{
    if s.len() == 0 {
        0
    } else {
        (s[0] % 128) as nat + 128 * varint_payload(s.drop_first())
    }
}

/// `2^64`: decoded varints keep their low 64 bits.
pub open spec fn two_to_64() -> nat {
    0x1_0000_0000_0000_0000
}

/// What `read_varint(bytes, offset)` returns, having looked at `k` bytes
/// without finding the last one.
pub open spec fn spec_read_varint_from(bytes: Seq<u8>, offset: int, k: nat) -> Result<(u64, usize), ProtobufError>
    decreases 11 - k,
{
    if offset + k >= bytes.len() {
        Err(ProtobufError::Truncated { offset: offset as usize })
    } else if k >= 10 {
        Err(ProtobufError::VarintTooLong { offset: offset as usize })
    } else if bytes[offset + k] < 0x80 {
        Ok(((varint_payload(bytes.subrange(offset, offset + k + 1)) % two_to_64()) as u64, (k + 1) as usize))
    } else {
        spec_read_varint_from(bytes, offset, k + 1)
    }
}

/// A varint at `offset`: its value (the low 64 bits of the payloads) and
/// its length; the first byte under 0x80 ends it, within ten bytes.
pub open spec fn spec_read_varint(bytes: Seq<u8>, offset: int) -> Result<(u64, usize), ProtobufError> {
    spec_read_varint_from(bytes, offset, 0)
}

/// Number of bytes the varint encoding of `value` takes.
pub open spec fn spec_varint_size(value: nat) -> nat
    decreases value,
{
    if value < 0x80 {
        1
    } else {
        1 + spec_varint_size(value / 128)
    }
}

/// The varint encoding of `value`: seven bits per byte, low bits first,
/// the high bit set on every byte but the last.
pub open spec fn spec_varint_bytes(value: nat) -> Seq<u8>
    decreases value,
{
    if value < 0x80 {
        seq![value as u8]
    } else {
        seq![((value % 128) + 128) as u8] + spec_varint_bytes(value / 128)
    }
}

proof fn lemma_weight_positive(n: nat)
    ensures
        weight(n) >= 1,
    decreases n,
{
    if n > 0 {
        lemma_weight_positive((n - 1) as nat);
    }
}

/// The payload of `s` with one more byte at the end.
proof fn lemma_payload_push(s: Seq<u8>, b: u8)
    ensures
        varint_payload(s.push(b)) == varint_payload(s) + (b % 128) as nat * weight(s.len()),
        varint_payload(s) < weight(s.len()),
    decreases s.len(),
{
    if s.len() == 0 {
        assert(s.push(b).drop_first() =~= Seq::<u8>::empty());
        assert(s.push(b)[0] == b);
        assert(varint_payload(s.push(b).drop_first()) == 0);
        assert(weight(0) == 1);
    } else {
        assert(s.push(b).drop_first() =~= s.drop_first().push(b));
        lemma_payload_push(s.drop_first(), b);
        let w = weight((s.len() - 1) as nat);
        let rest = varint_payload(s.drop_first());
        let x = (b % 128) as nat;
        let first = (s[0] % 128) as nat;
        assert(s.push(b)[0] == s[0]);
        assert(weight(s.len()) == 128 * w);
        assert(varint_payload(s.push(b)) == first + 128 * varint_payload(s.push(b).drop_first()));
        assert(varint_payload(s) == first + 128 * rest);
        assert(first + 128 * (rest + x * w) == (first + 128 * rest) + x * (128 * w)) by (nonlinear_arith);
        assert(first + 128 * rest < 128 * w) by (nonlinear_arith)
            requires
                first < 128,
                rest < w;
    }
}

proof fn lemma_read_varint_from_len(bytes: Seq<u8>, offset: int, k: nat)
    ensures
        spec_read_varint_from(bytes, offset, k) matches Ok((_, l)) ==> k + 1 <= l <= 10
            && bytes[offset + l - 1] < 0x80 && offset + l <= bytes.len(),
    decreases 11 - k,
{
    if offset + k < bytes.len() && k < 10 && bytes[offset + k] >= 0x80 {
        lemma_read_varint_from_len(bytes, offset, k + 1);
    }
}

/// A varint that decodes takes one to ten bytes, all within `bytes`.
pub proof fn lemma_read_varint_len(bytes: Seq<u8>, offset: int)
    ensures
        spec_read_varint(bytes, offset) matches Ok((_, l)) ==> 1 <= l <= 10 && offset + l
            <= bytes.len() && bytes[offset + l - 1] < 0x80,
{
    lemma_read_varint_from_len(bytes, offset, 0);
}

/// The weights of the ten groups a varint may hold.
proof fn lemma_weights()
    ensures
        weight(0) == 1,
        weight(1) == 0x80,
        weight(2) == 0x4000,
        weight(3) == 0x20_0000,
        weight(4) == 0x1000_0000,
        weight(5) == 0x8_0000_0000,
        weight(6) == 0x400_0000_0000,
        weight(7) == 0x2_0000_0000_0000,
        weight(8) == 0x100_0000_0000_0000,
        weight(9) == 0x8000_0000_0000_0000,
{
    reveal_with_fuel(weight, 10);
}

/// One step of the decoder: the payload byte `byte & 0x7f` shifted into
/// place is the byte's weight, and adds without carrying.
proof fn lemma_shift_in(value: u64, x: u64, shift: u32, k: nat)
    requires
        x < 128,
        k <= 9,
        shift == 7 * k,
        value < weight(k),
    ensures
        (value | (x << shift)) as int == (value as int + x * weight(k)) % (two_to_64() as int),
        k <= 8 ==> weight(k + 1) <= two_to_64(),
{
    lemma_weights();
    lemma_shift_in_bits(value, x, shift as u64);
    if k == 9 {
        let w: int = 0x8000_0000_0000_0000;
        assert((value as int + x * w) % 0x1_0000_0000_0000_0000 == value as int + (x % 2) * w)
            by (nonlinear_arith)
            requires
                0 <= value < w,
                0 <= x < 128,
                w == 0x8000_0000_0000_0000;
    } else {
        assert(value as int + x * weight(k) < two_to_64()) by (nonlinear_arith)
            requires
                value < weight(k),
                x < 128,
                weight(k) <= 0x100_0000_0000_0000;
    }
}

proof fn lemma_shift_in_bits(value: u64, x: u64, shift: u64)
    by (bit_vector)
    requires
        x < 128,
        shift == 0 ==> value < 1,
        shift == 7 ==> value < 0x80,
        shift == 14 ==> value < 0x4000,
        shift == 21 ==> value < 0x20_0000,
        shift == 28 ==> value < 0x1000_0000,
        shift == 35 ==> value < 0x8_0000_0000,
        shift == 42 ==> value < 0x400_0000_0000,
        shift == 49 ==> value < 0x2_0000_0000_0000,
        shift == 56 ==> value < 0x100_0000_0000_0000,
        shift == 63 ==> value < 0x8000_0000_0000_0000,
    ensures
        shift == 0 ==> (value | (x << shift)) == value + x * 1,
        shift == 7 ==> (value | (x << shift)) == value + x * 0x80,
        shift == 14 ==> (value | (x << shift)) == value + x * 0x4000,
        shift == 21 ==> (value | (x << shift)) == value + x * 0x20_0000,
        shift == 28 ==> (value | (x << shift)) == value + x * 0x1000_0000,
        shift == 35 ==> (value | (x << shift)) == value + x * 0x8_0000_0000,
        shift == 42 ==> (value | (x << shift)) == value + x * 0x400_0000_0000,
        shift == 49 ==> (value | (x << shift)) == value + x * 0x2_0000_0000_0000,
        shift == 56 ==> (value | (x << shift)) == value + x * 0x100_0000_0000_0000,
        shift == 63 ==> (value | (x << shift)) == value + (x % 2) * 0x8000_0000_0000_0000,
{
}

/// Reads `(value, bytes consumed)` of the varint at `offset`.
pub fn read_varint(bytes: &[u8], offset: usize) -> (result: Result<(u64, usize), ProtobufError>)
    ensures
        result == spec_read_varint(bytes@, offset as int),
{
    let mut value = 0u64;
    let mut shift = 0u32;
    let mut index = offset;
    let ghost mut k: nat = 0;
    proof {
        if offset <= bytes.len() {
            assert(bytes@.subrange(offset as int, offset as int) =~= Seq::<u8>::empty());
        }
    }
    loop
        invariant
            index == offset + k,
            k <= 10,
            shift == 7 * k,
            k <= 9 && index <= bytes.len() ==> value == varint_payload(
                bytes@.subrange(offset as int, index as int),
            ),
            k <= 9 ==> value < weight(k),
            spec_read_varint(bytes@, offset as int) == spec_read_varint_from(bytes@, offset as int, k),
        decreases 11 - k,
    {
        if index >= bytes.len() {
            return Err(ProtobufError::Truncated { offset });
        }
        let byte = bytes[index];
        index += 1;
        if shift >= 64 {
            return Err(ProtobufError::VarintTooLong { offset });
        }
        let ghost prefix = bytes@.subrange(offset as int, index - 1);
        proof {
            assert(bytes@.subrange(offset as int, index as int) =~= prefix.push(byte));
            lemma_payload_push(prefix, byte);
            lemma_byte_bits(byte);
            lemma_shift_in(value, (byte & 0x7F) as u64, shift, k);
            lemma_weight_positive(k);
        }
        value |= ((byte & 0x7F) as u64) << shift;
        if byte & 0x80 == 0 {
            proof {
                lemma_byte_bits(byte);
            }
            return Ok((value, index - offset));
        }
        proof {
            lemma_byte_bits(byte);
            if k == 9 {
                // The tenth byte continues: the next step reports the length.
                assert(spec_read_varint_from(bytes@, offset as int, 10) matches Err(_));
            }
        }
        shift += 7;
        proof {
            k = k + 1;
            if k <= 9 {
                assert(varint_payload(prefix) + (byte % 128) as nat * weight((k - 1) as nat)
                    < weight(k)) by (nonlinear_arith)
                    requires
                        varint_payload(prefix) < weight((k - 1) as nat),
                        (byte % 128) < 128,
                        weight(k) == 128 * weight((k - 1) as nat);
            }
        }
    }
}


/// The varint encoding spelled by the spec: its length, its payload, and
/// where its continuation bits sit.
proof fn lemma_varint_bytes(value: nat)
    ensures
        spec_varint_bytes(value).len() == spec_varint_size(value),
        varint_payload(spec_varint_bytes(value)) == value,
        spec_varint_bytes(value).last() < 0x80,
        forall|i: int|
            0 <= i < spec_varint_bytes(value).len() - 1 ==> #[trigger] spec_varint_bytes(value)[i]
                >= 0x80,
    decreases value,
{
    let e = spec_varint_bytes(value);
    if value < 0x80 {
        assert(e.drop_first() =~= Seq::<u8>::empty());
        assert(e[0] == value);
        assert(varint_payload(e) == (e[0] % 128) as nat + 128 * varint_payload(e.drop_first()));
    } else {
        lemma_varint_bytes(value / 128);
        let tail = spec_varint_bytes(value / 128);
        assert(e.drop_first() =~= tail);
        assert(e[0] % 128 == value % 128);
        assert(varint_payload(e) == (e[0] % 128) as nat + 128 * varint_payload(e.drop_first()));
        assert(value == value % 128 + 128 * (value / 128));
        assert forall|i: int| 0 <= i < e.len() - 1 implies #[trigger] e[i] >= 0x80 by {
            if i > 0 {
                assert(e[i] == tail[i - 1]);
            }
        }
    }
}

/// A value under `128^k` takes at most `k` bytes.
proof fn lemma_varint_size_bound(value: nat, k: nat)
    requires
        k >= 1,
        value < weight(k),
    ensures
        spec_varint_size(value) <= k,
    decreases k,
{
    if value >= 0x80 {
        if k == 1 {
            assert(weight(1) == 128) by {
                reveal_with_fuel(weight, 2);
            }
        } else {
            assert(value / 128 < weight((k - 1) as nat)) by (nonlinear_arith)
                requires
                    value < weight(k),
                    weight(k) == 128 * weight((k - 1) as nat),
            ;
            lemma_varint_size_bound(value / 128, (k - 1) as nat);
        }
    }
}

/// Decoding `k` bytes into an encoding finds the same end as decoding from
/// its start.
proof fn lemma_read_encoding_from(value: u64, rest: Seq<u8>, k: nat)
    requires
        k < spec_varint_size(value as nat),
        spec_varint_size(value as nat) <= 10,
    ensures
        spec_read_varint_from(spec_varint_bytes(value as nat) + rest, 0, k) == Ok::<
            (u64, usize),
            ProtobufError,
        >((value, spec_varint_size(value as nat) as usize)),
    decreases spec_varint_size(value as nat) - k,
{
    lemma_varint_bytes(value as nat);
    let e = spec_varint_bytes(value as nat);
    let bytes = e + rest;
    assert(bytes[k as int] == e[k as int]);
    if k + 1 == e.len() {
        assert(bytes.subrange(0, k + 1 as int) =~= e);
        assert(varint_payload(e) < two_to_64());
    } else {
        lemma_read_encoding_from(value, rest, k + 1);
    }
}

/// Decoding what `write_varint` writes gives the value back, and reads
/// exactly the bytes written, whatever follows them.
pub proof fn lemma_varint_round_trip(value: u64, rest: Seq<u8>)
    ensures
        spec_read_varint(spec_varint_bytes(value as nat) + rest, 0) == Ok::<
            (u64, usize),
            ProtobufError,
        >((value, spec_varint_size(value as nat) as usize)),
        spec_varint_bytes(value as nat).len() == spec_varint_size(value as nat),
        1 <= spec_varint_size(value as nat) <= 10,
{
    lemma_weights();
    reveal_with_fuel(weight, 11);
    lemma_varint_size_bound(value as nat, 10);
    lemma_varint_bytes(value as nat);
    lemma_read_encoding_from(value, rest, 0);
}

/// Appends the varint encoding of `value` to `out`.
pub fn write_varint(out: &mut Vec<u8>, value: u64)
    ensures
        final(out)@ == old(out)@ + spec_varint_bytes(value as nat),
{
    let mut value = value;
    let ghost before = out@;
    let ghost initial = value;
    while value >= 0x80
        invariant
            before + spec_varint_bytes(initial as nat) == out@ + spec_varint_bytes(value as nat),
        decreases value,
    {
        proof {
            lemma_varint_byte(value);
        }
        out.push((value as u8) | 0x80);
        value >>= 7;
    }
    out.push(value as u8);
    assert(spec_varint_bytes(value as nat) == seq![value as u8]);
}

/// The byte written for a value that continues, and what is left of it.
proof fn lemma_varint_byte(value: u64)
    requires
        value >= 0x80,
    ensures
        ((value as u8) | 0x80) == ((value % 128) + 128) as u8,
        value >> 7 == value / 128,
{
    lemma_word_bits(value);
}

/// Number of significant bits of `value`.
pub open spec fn bit_length(value: nat) -> nat
    decreases value,
{
    if value == 0 {
        0
    } else {
        1 + bit_length(value / 2)
    }
}

proof fn lemma_leading_zeros(value: u64)
    ensures
        vstd::std_specs::bits::u64_leading_zeros(value) == 64 - bit_length(value as nat),
    decreases value,
{
    reveal(vstd::std_specs::bits::u64_leading_zeros);
    if value != 0 {
        lemma_leading_zeros(value / 2);
    }
}

/// Halving seven times is dividing by 128, and takes seven bits off.
proof fn lemma_bit_length_seven(value: nat)
    requires
        value >= 0x80,
    ensures
        bit_length(value) == 7 + bit_length(value / 128),
{
    let v1 = value / 2;
    let v2 = v1 / 2;
    let v3 = v2 / 2;
    let v4 = v3 / 2;
    let v5 = v4 / 2;
    let v6 = v5 / 2;
    let v7 = v6 / 2;
    assert(v7 == value / 128);
    assert(v6 >= 1);
    assert(bit_length(v6) == 1 + bit_length(v7));
    assert(bit_length(v5) == 1 + bit_length(v6));
    assert(bit_length(v4) == 1 + bit_length(v5));
    assert(bit_length(v3) == 1 + bit_length(v4));
    assert(bit_length(v2) == 1 + bit_length(v3));
    assert(bit_length(v1) == 1 + bit_length(v2));
    assert(bit_length(value) == 1 + bit_length(v1));
}

/// Seven bits more of length are one byte more of varint.
proof fn lemma_varint_size_bits(value: nat)
    requires
        value >= 1,
    ensures
        spec_varint_size(value) == (bit_length(value) + 6) / 7,
    decreases value,
{
    if value >= 0x80 {
        lemma_varint_size_bits(value / 128);
        lemma_bit_length_seven(value);
    } else {
        assert(1 <= bit_length(value) <= 7) by {
            reveal_with_fuel(bit_length, 8);
        }
    }
}

/// Number of bytes the varint encoding of `value` takes.
pub fn varint_size(value: u64) -> (size: usize)
    ensures
        size == spec_varint_size(value as nat),
{
    proof {
        lemma_leading_zeros(value | 1);
        lemma_word_bits(value);
        lemma_word_bits(value | 1);
        if value >= 2 {
            assert(bit_length((value | 1) as nat) == bit_length(value as nat));
            lemma_varint_size_bits(value as nat);
        } else {
            reveal_with_fuel(bit_length, 2);
        }
    }
    let bits = 64 - (value | 1).leading_zeros() as usize;
    (bits + 6) / 7
}


// ----- fields -----

/// A field's value, by wire type. Length-delimited values are returned as
/// the raw bytes; they may be a string, a nested message, a packed
/// repeated field, or bytes, and only a schema can say which.
#[derive(Debug, Clone, PartialEq, Eq)]
pub enum Value<'a> {
    Varint(u64),
    Fixed64(u64),
    Bytes(&'a [u8]),
    Fixed32(u32),
    /// A deprecated group: its fields, still encoded, between the start and
    /// end tags.
    Group(&'a [u8]),
}

/// What a field holds, with its bytes as a sequence.
pub enum ValueView {
    Varint(u64),
    Fixed64(u64),
    Bytes(Seq<u8>),
    Fixed32(u32),
    Group(Seq<u8>),
}

impl<'a> View for Value<'a> {
    type V = ValueView;

    open spec fn view(&self) -> ValueView {
        match self {
            Value::Varint(value) => ValueView::Varint(*value),
            Value::Fixed64(value) => ValueView::Fixed64(*value),
            Value::Bytes(bytes) => ValueView::Bytes(bytes@),
            Value::Fixed32(value) => ValueView::Fixed32(*value),
            Value::Group(bytes) => ValueView::Group(bytes@),
        }
    }
}

#[derive(Debug, Clone, PartialEq, Eq)]
pub struct Field<'a> {
    pub number: u32,
    pub value: Value<'a>,
}

/// The field that starts at `pos`: `None` at the end of the message, else
/// its number, its value, and where the next field starts.
pub open spec fn spec_read_field(bytes: Seq<u8>, pos: int) -> Result<
    Option<(u32, ValueView, int)>,
    ProtobufError,
>
    decreases bytes.len() - pos, 0int,
{
    if pos >= bytes.len() {
        Ok(None)
    } else {
        match spec_read_varint(bytes, pos) {
            Err(error) => Err(error),
            Ok((tag, tag_length)) => {
                let p = pos + tag_length;
                let number = (tag >> 3) as u32;
                let start = ProtobufError::Truncated { offset: pos as usize };
                proof {
                    lemma_read_varint_len(bytes, pos);
                }
                if tag % 8 == 0 {
                    match spec_read_varint(bytes, p) {
                        Err(error) => Err(error),
                        Ok((value, length)) => Ok(Some((number, ValueView::Varint(value), p + length))),
                    }
                } else if tag % 8 == 1 {
                    if p + 8 > bytes.len() {
                        Err(start)
                    } else {
                        Ok(
                            Some(
                                (
                                    number,
                                    ValueView::Fixed64(spec_u64_from_le_bytes(bytes.subrange(p, p + 8))),
                                    p + 8,
                                ),
                            ),
                        )
                    }
                } else if tag % 8 == 2 {
                    match spec_read_varint(bytes, p) {
                        Err(error) => Err(error),
                        Ok((length, length_length)) => {
                            let q = p + length_length;
                            if q + length > bytes.len() {
                                Err(start)
                            } else {
                                Ok(Some((number, ValueView::Bytes(bytes.subrange(q, q + length)), q + length)))
                            }
                        },
                    }
                } else if tag % 8 == 3 {
                    match spec_skip_group(bytes, p, number, pos) {
                        Err(error) => Err(error),
                        Ok((end, next)) => Ok(Some((number, ValueView::Group(bytes.subrange(p, end)), next))),
                    }
                } else if tag % 8 == 4 {
                    Err(ProtobufError::UnexpectedGroupEnd { offset: pos as usize })
                } else if tag % 8 == 5 {
                    if p + 4 > bytes.len() {
                        Err(start)
                    } else {
                        Ok(
                            Some(
                                (
                                    number,
                                    ValueView::Fixed32(spec_u32_from_le_bytes(bytes.subrange(p, p + 4))),
                                    p + 4,
                                ),
                            ),
                        )
                    }
                } else {
                    Err(ProtobufError::BadWireType { offset: pos as usize, wire_type: (tag % 8) as u8 })
                }
            },
        }
    }
}

/// The rest of a group from `pos` on: where its content ends (the start of
/// the end-group tag numbered `number`) and where the field after it
/// starts. Groups nest; other end-group tags are passed over.
pub open spec fn spec_skip_group(bytes: Seq<u8>, pos: int, number: u32, field_start: int) -> Result<
    (int, int),
    ProtobufError,
>
    decreases bytes.len() - pos, 1int,
{
    if pos >= bytes.len() {
        Err(ProtobufError::Truncated { offset: field_start as usize })
    } else {
        match spec_read_varint(bytes, pos) {
            Err(error) => Err(error),
            Ok((tag, tag_length)) => {
                proof {
                    lemma_read_varint_len(bytes, pos);
                }
                if tag % 8 == 4 {
                    if (tag >> 3) as u32 == number {
                        Ok((pos, pos + tag_length))
                    } else {
                        spec_skip_group(bytes, pos + tag_length, number, field_start)
                    }
                } else {
                    match spec_read_field(bytes, pos) {
                        Err(error) => Err(error),
                        Ok(None) => Err(ProtobufError::Truncated { offset: field_start as usize }),
                        Ok(Some((_, _, next))) => if pos < next <= bytes.len() {
                            spec_skip_group(bytes, next, number, field_start)
                        } else {
                            Err(ProtobufError::Truncated { offset: field_start as usize })
                        },
                    }
                }
            },
        }
    }
}

/// One step of skipping a group: an end tag, or a whole field.
proof fn lemma_skip_group_step(bytes: Seq<u8>, pos: int, number: u32, field_start: int)
    requires
        0 <= pos < bytes.len(),
        spec_read_varint(bytes, pos) is Ok,
    ensures
        ({
            let (tag, tag_length) = spec_read_varint(bytes, pos)->Ok_0;
            if tag % 8 == 4 {
                if (tag >> 3) as u32 == number {
                    spec_skip_group(bytes, pos, number, field_start) == Ok::<(int, int), ProtobufError>(
                        (pos, pos + tag_length),
                    )
                } else {
                    spec_skip_group(bytes, pos, number, field_start) == spec_skip_group(
                        bytes,
                        pos + tag_length,
                        number,
                        field_start,
                    )
                }
            } else {
                match spec_read_field(bytes, pos) {
                    Err(error) => spec_skip_group(bytes, pos, number, field_start) == Err::<
                        (int, int),
                        ProtobufError,
                    >(error),
                    Ok(None) => false,
                    Ok(Some((_, _, next))) => pos < next <= bytes.len() && spec_skip_group(
                        bytes,
                        pos,
                        number,
                        field_start,
                    ) == spec_skip_group(bytes, next, number, field_start),
                }
            }
        }),
{
    lemma_field_advances(bytes, pos);
}

/// A field that reads moves forward, and stays within the message.
pub proof fn lemma_field_advances(bytes: Seq<u8>, pos: int)
    ensures
        spec_read_field(bytes, pos) matches Ok(Some((_, _, next))) ==> pos < next <= bytes.len(),
    decreases bytes.len() - pos, 0int,
{
    if pos < bytes.len() {
        lemma_read_varint_len(bytes, pos);
        if let Ok((tag, tag_length)) = spec_read_varint(bytes, pos) {
            lemma_read_varint_len(bytes, pos + tag_length);
            if tag % 8 == 3 {
                lemma_group_advances(bytes, pos + tag_length, (tag >> 3) as u32, pos);
            }
        }
    }
}

/// A group that ends does so within the message, after its content.
pub proof fn lemma_group_advances(bytes: Seq<u8>, pos: int, number: u32, field_start: int)
    ensures
        spec_skip_group(bytes, pos, number, field_start) matches Ok((end, next)) ==> pos <= end
            < next <= bytes.len(),
    decreases bytes.len() - pos, 1int,
{
    if pos < bytes.len() {
        lemma_read_varint_len(bytes, pos);
        if let Ok((tag, tag_length)) = spec_read_varint(bytes, pos) {
            if tag % 8 == 4 {
                if (tag >> 3) as u32 != number {
                    lemma_group_advances(bytes, pos + tag_length, number, field_start);
                }
            } else {
                lemma_field_advances(bytes, pos);
                if let Ok(Some((_, _, next))) = spec_read_field(bytes, pos) {
                    if pos < next <= bytes.len() {
                        lemma_group_advances(bytes, next, number, field_start);
                    }
                }
            }
        }
    }
}

/// Iterates the fields of one message.
pub struct FieldReader<'a> {
    bytes: &'a [u8],
    position: usize,
}

impl<'a> FieldReader<'a> {
    /// The message being read.
    pub closed spec fn message(&self) -> Seq<u8> {
        self.bytes@
    }

    /// Where the next field starts.
    pub closed spec fn at(&self) -> int {
        self.position as int
    }

    pub fn new(bytes: &'a [u8]) -> (reader: FieldReader<'a>)
        ensures
            reader.message() == bytes@,
            reader.at() == 0,
    {
        FieldReader { bytes, position: 0 }
    }

    pub fn position(&self) -> (position: usize)
        ensures
            position == self.at(),
    {
        self.position
    }

    fn read_field(&mut self) -> (result: Result<Option<Field<'a>>, ProtobufError>)
        requires
            old(self).position <= old(self).bytes@.len(),
        ensures
            final(self).bytes@ == old(self).bytes@,
            final(self).position <= final(self).bytes@.len(),
            match (result, spec_read_field(old(self).bytes@, old(self).position as int)) {
                (Ok(None), Ok(None)) => final(self).position == old(self).position,
                (Ok(Some(field)), Ok(Some((number, value, next)))) => field.number == number
                    && field.value@ == value && final(self).position == next,
                (Err(error), Err(expected)) => error == expected,
                _ => false,
            },
        decreases old(self).bytes@.len() - old(self).position, 0int,
    {
        if self.position >= self.bytes.len() {
            return Ok(None);
        }
        let start = self.position;
        let (tag, tag_length) = match read_varint(self.bytes, self.position) {
            Ok(pair) => pair,
            Err(error) => return Err(error),
        };
        proof {
            lemma_read_varint_len(self.bytes@, start as int);
            lemma_word_bits(tag);
        }
        self.position += tag_length;
        let number = (tag >> 3) as u32;
        let wire_type = (tag & 7) as u8;
        let value = match wire_type {
            0 => {
                let (value, length) = match read_varint(self.bytes, self.position) {
                    Ok(pair) => pair,
                    Err(error) => return Err(error),
                };
                proof {
                    lemma_read_varint_len(self.bytes@, self.position as int);
                }
                self.position += length;
                Value::Varint(value)
            },
            1 => {
                let bytes = match self.take(8, start) {
                    Ok(bytes) => bytes,
                    Err(error) => return Err(error),
                };
                Value::Fixed64(u64_from_le_bytes(bytes))
            },
            2 => {
                let (length, length_length) = match read_varint(self.bytes, self.position) {
                    Ok(pair) => pair,
                    Err(error) => return Err(error),
                };
                proof {
                    lemma_read_varint_len(self.bytes@, self.position as int);
                }
                self.position += length_length;
                if length > (self.bytes.len() - self.position) as u64 {
                    return Err(ProtobufError::Truncated { offset: start });
                }
                let end = self.position + length as usize;
                let slice = slice_range(self.bytes, self.position, end);
                self.position = end;
                Value::Bytes(slice)
            },
            3 => {
                let group_start = self.position;
                proof {
                    lemma_group_advances(self.bytes@, group_start as int, number, start as int);
                }
                let group_end = match self.skip_group(number, start) {
                    Ok(end) => end,
                    Err(error) => return Err(error),
                };
                Value::Group(slice_range(self.bytes, group_start, group_end))
            },
            4 => return Err(ProtobufError::UnexpectedGroupEnd { offset: start }),
            5 => {
                let bytes = match self.take(4, start) {
                    Ok(bytes) => bytes,
                    Err(error) => return Err(error),
                };
                Value::Fixed32(u32_from_le_bytes(bytes))
            },
            other => {
                return Err(ProtobufError::BadWireType { offset: start, wire_type: other });
            },
        };
        Ok(Some(Field { number, value }))
    }

    /// The next `count` bytes, or `Truncated` at `field_start`.
    fn take(&mut self, count: usize, field_start: usize) -> (result: Result<&'a [u8], ProtobufError>)
        requires
            old(self).position <= old(self).bytes@.len(),
            count <= 8,
        ensures
            final(self).bytes@ == old(self).bytes@,
            final(self).position <= final(self).bytes@.len(),
            old(self).position + count > old(self).bytes@.len() ==> result == Err::<&[u8], ProtobufError>(
                ProtobufError::Truncated { offset: field_start },
            ),
            old(self).position + count <= old(self).bytes@.len() ==> result is Ok
                && result->Ok_0@ == old(self).bytes@.subrange(
                old(self).position as int,
                old(self).position + count,
            ) && final(self).position == old(self).position + count,
    {
        if count > self.bytes.len() - self.position {
            return Err(ProtobufError::Truncated { offset: field_start });
        }
        let end = self.position + count;
        let out = slice_range(self.bytes, self.position, end);
        self.position = end;
        Ok(out)
    }

    /// Skips to the end-group tag matching `number`, nesting allowed, and
    /// returns the offset where the group's content ends.
    fn skip_group(&mut self, number: u32, field_start: usize) -> (result: Result<usize, ProtobufError>)
        requires
            old(self).position <= old(self).bytes@.len(),
        ensures
            final(self).bytes@ == old(self).bytes@,
            final(self).position <= final(self).bytes@.len(),
            match (
                result,
                spec_skip_group(old(self).bytes@, old(self).position as int, number, field_start as int),
            ) {
                (Ok(end), Ok((expected_end, next))) => end == expected_end && final(self).position
                    == next,
                (Err(error), Err(expected)) => error == expected,
                _ => false,
            },
        decreases old(self).bytes@.len() - old(self).position, 1int,
    {
        let ghost bytes = self.bytes@;
        loop
            invariant
                self.bytes@ == bytes,
                bytes == old(self).bytes@,
                old(self).position <= self.position <= bytes.len(),
                spec_skip_group(bytes, old(self).position as int, number, field_start as int)
                    == spec_skip_group(bytes, self.position as int, number, field_start as int),
            decreases bytes.len() - self.position,
        {
            if self.position >= self.bytes.len() {
                return Err(ProtobufError::Truncated { offset: field_start });
            }
            let content_end = self.position;
            let (tag, tag_length) = match read_varint(self.bytes, self.position) {
                Ok(pair) => pair,
                Err(error) => return Err(error),
            };
            proof {
                lemma_read_varint_len(bytes, content_end as int);
                lemma_word_bits(tag);
            }
            proof {
                lemma_skip_group_step(bytes, content_end as int, number, field_start as int);
            }
            if tag & 7 == 4 {
                self.position += tag_length;
                if (tag >> 3) as u32 == number {
                    return Ok(content_end);
                }
                continue;
            }
            proof {
                lemma_field_advances(bytes, content_end as int);
            }
            match self.read_field() {
                Ok(Some(_)) => {},
                Ok(None) => {
                    return Err(ProtobufError::Truncated { offset: field_start });
                },
                Err(error) => return Err(error),
            }
        }
    }

    /// The next field, or `None` at the end. After an error the reader is
    /// at the end, so the error comes once.
    pub fn next(&mut self) -> (item: Option<Result<Field<'a>, ProtobufError>>)
        ensures
            final(self).message() == old(self).message(),
            old(self).at() <= old(self).message().len() ==> match (
                item,
                spec_read_field(old(self).message(), old(self).at()),
            ) {
                (None, Ok(None)) => final(self).at() == old(self).at(),
                (Some(Ok(field)), Ok(Some((number, value, next)))) => field.number == number
                    && field.value@ == value && final(self).at() == next,
                (Some(Err(error)), Err(expected)) => error == expected && final(self).at()
                    == old(self).message().len(),
                _ => false,
            },
            old(self).at() > old(self).message().len() ==> item is None,
    {
        if self.position > self.bytes.len() {
            return None;
        }
        match self.read_field() {
            Ok(Some(field)) => Some(Ok(field)),
            Ok(None) => None,
            Err(error) => {
                self.position = self.bytes.len();
                Some(Err(error))
            },
        }
    }
}

/// `bytes[start..end]`.
fn slice_range<'a>(bytes: &'a [u8], start: usize, end: usize) -> (out: &'a [u8])
    requires
        start <= end <= bytes@.len(),
    ensures
        out@ == bytes@.subrange(start as int, end as int),
{
    &bytes[start..end]
}

/// The varints packed back to back from `offset` to the end.
pub open spec fn spec_packed_varints(bytes: Seq<u8>, offset: int) -> Result<Seq<u64>, ProtobufError>
    decreases bytes.len() - offset,
{
    if offset >= bytes.len() {
        Ok(Seq::empty())
    } else {
        match spec_read_varint(bytes, offset) {
            Err(error) => Err(error),
            Ok((value, length)) => {
                proof {
                    lemma_read_varint_len(bytes, offset);
                }
                match spec_packed_varints(bytes, offset + length) {
                    Ok(rest) => Ok(seq![value] + rest),
                    Err(error) => Err(error),
                }
            },
        }
    }
}

/// Reads packed varints from a length-delimited value.
pub fn packed_varints(bytes: &[u8]) -> (result: Result<Vec<u64>, ProtobufError>)
    ensures
        match (result, spec_packed_varints(bytes@, 0)) {
            (Ok(values), Ok(expected)) => values@ == expected,
            (Err(error), Err(expected)) => error == expected,
            _ => false,
        },
{
    let mut values: Vec<u64> = Vec::new();
    let mut offset = 0usize;
    while offset < bytes.len()
        invariant
            offset <= bytes@.len(),
            match spec_packed_varints(bytes@, 0) {
                Ok(all) => spec_packed_varints(bytes@, offset as int) matches Ok(rest) && all
                    == values@ + rest,
                Err(error) => spec_packed_varints(bytes@, offset as int) == Err::<Seq<u64>, ProtobufError>(error),
            },
        decreases bytes@.len() - offset,
    {
        let ghost before = values@;
        let (value, length) = match read_varint(bytes, offset) {
            Ok(pair) => pair,
            Err(error) => return Err(error),
        };
        proof {
            lemma_read_varint_len(bytes@, offset as int);
        }
        values.push(value);
        offset += length;
        proof {
            if let Ok(all) = spec_packed_varints(bytes@, 0) {
                let rest = spec_packed_varints(bytes@, offset as int)->Ok_0;
                assert(all == before + (seq![value] + rest));
                assert(values@ + rest =~= before + (seq![value] + rest));
            }
        }
    }
    proof {
        assert(values@ + Seq::<u64>::empty() =~= values@);
    }
    Ok(values)
}


// ----- writing -----

/// "No entry": the end of a chain, or an empty message.
pub const NONE: u32 = 0xffff_ffff;

/// A range of a tree's byte buffer.
#[derive(Debug, Clone, Copy, PartialEq, Eq, Structural)]
pub struct Span {
    pub start: u32,
    pub length: u32,
}

/// Where a chain being built starts and currently ends.
#[derive(Debug, Clone, Copy)]
pub struct Chain {
    pub first: u32,
    pub last: u32,
}

impl Chain {
    /// An empty chain.
    pub fn new() -> (chain: Chain)
        ensures
            chain.first == NONE,
            chain.last == NONE,
    {
        Chain { first: NONE, last: NONE }
    }
}

/// The tag of field `number` with `wire_type`.
pub open spec fn spec_tag(number: u32, wire_type: u8) -> nat {
    number as nat * 8 + wire_type as nat
}

/// Appends the tag of field `number` with `wire_type`.
pub fn write_tag(out: &mut Vec<u8>, number: u32, wire_type: u8)
    requires
        wire_type < 8,
    ensures
        final(out)@ == old(out)@ + spec_varint_bytes(spec_tag(number, wire_type)),
{
    proof {
        lemma_tag_bits(number as u64, wire_type as u64);
    }
    write_varint(out, ((number as u64) << 3) | (wire_type as u64));
}

/// Encoded size of the tag of field `number`.
pub fn tag_size(number: u32) -> (size: usize)
    ensures
        size == spec_varint_size(spec_tag(number, 0)),
{
    proof {
        lemma_tag_bits(number as u64, 0);
    }
    varint_size((number as u64) << 3)
}

/// ZigZag: small magnitudes of either sign take few varint bytes.
pub open spec fn spec_zigzag(value: int) -> int {
    if value >= 0 {
        2 * value
    } else {
        -2 * value - 1
    }
}

/// The signed value a ZigZag varint holds.
pub fn zigzag_decode(value: u64) -> (decoded: i64)
    ensures
        spec_zigzag(decoded as int) == value,
{
    proof {
        lemma_word_bits(value);
        let half = (value >> 1u64) as i64;
        let mask = (-((value & 1) as int)) as i64;
        lemma_signed_bits(half);
        assert(value % 2 == 0 ==> mask == 0);
        assert(value % 2 == 1 ==> mask == -1);
    }
    ((value >> 1) as i64) ^ -((value & 1) as i64)
}

/// The ZigZag varint payload of a signed value.
pub fn zigzag_encode(value: i64) -> (encoded: u64)
    ensures
        encoded == spec_zigzag(value as int),
{
    proof {
        lemma_signed_bits(value);
    }
    ((value << 1) ^ (value >> 63)) as u64
}

/// ZigZag decoding undoes ZigZag encoding.
pub proof fn lemma_zigzag_round_trip(value: i64, encoded: u64, decoded: i64)
    requires
        encoded == spec_zigzag(value as int),
        spec_zigzag(decoded as int) == encoded,
    ensures
        decoded == value,
{
}

/// `TSP.Reference` is `{ required uint64 identifier = 1 }`: the bytes are
/// that one field and nothing else.
pub open spec fn spec_reference_identifier(bytes: Seq<u8>) -> Option<u64> {
    if bytes.len() == 0 || bytes[0] != 0x08 {
        None
    } else {
        match spec_read_varint(bytes, 1) {
            Ok((identifier, length)) => if 1 + length == bytes.len() {
                Some(identifier)
            } else {
                None
            },
            Err(_) => None,
        }
    }
}

/// Only the exact shape of a reference becomes one; anything else in it
/// would be lost.
pub fn reference_identifier(bytes: &[u8]) -> (identifier: Option<u64>)
    ensures
        identifier == spec_reference_identifier(bytes@),
{
    if bytes.len() == 0 || bytes[0] != 0x08 {
        return None;
    }
    let (identifier, length) = match read_varint(bytes, 1) {
        Ok(pair) => pair,
        Err(_) => return None,
    };
    proof {
        lemma_read_varint_len(bytes@, 1);
    }
    if 1 + length != bytes.len() {
        return None;
    }
    Some(identifier)
}

} // verus!
