//! Decoding of messages into an arena of values, and encoding back. Fields
//! the schema does not name are kept with their wire type, so a message
//! read without a schema from canonical bytes re-encodes to the bytes it
//! came from.
//!
//! A tree holds every entry of a stream in one vector: a message's fields
//! are a chain of entries linked by `next`, and a nested message is an
//! entry whose value points at the first entry of its own chain. Strings
//! and bytes are ranges into one byte buffer.

use vstd::prelude::*;
use vstd::string::StringSliceAdditionalSpecFns;
use vstd::utf8::valid_utf8;
use vstd::bytes::{spec_u32_from_le_bytes, spec_u64_from_le_bytes, spec_u32_to_le_bytes, spec_u64_to_le_bytes, u32_from_le_bytes, u32_to_le_bytes, u64_from_le_bytes, u64_to_le_bytes};
use crate::markdown::block::text_of;
use crate::protobuf::schema::{Field, Kind, Message};
use crate::protobuf::{
    spec_packed_varints,
    spec_reference_identifier,
    lemma_field_advances, lemma_group_advances, lemma_read_varint_len, spec_read_field, spec_read_varint, Chain, ValueView, ProtobufError, FieldReader, Value, packed_varints, reference_identifier, zigzag_decode,
    lemma_varint_round_trip, spec_tag, spec_varint_bytes, spec_varint_size, spec_zigzag, tag_size, varint_size,
    write_tag, write_varint, zigzag_encode, Span, NONE,
};

verus! {

/// A value of a tree. Floating-point values are held as their bits.
#[derive(Debug, Clone, Copy, PartialEq, Eq, Structural)]
pub enum Node {
    Int(i64),
    Uint(u64),
    Bool(bool),
    Fixed32(u32),
    Fixed64(u64),
    /// The bits of an `f32`.
    Float(u32),
    /// The bits of an `f64`.
    Double(u64),
    Str(Span),
    Bytes(Span),
    Reference(u64),
    /// First entry of the nested message's chain, or `NONE` when empty.
    Message(u32),
    /// Values of fields the schema does not describe, by wire type.
    RawVarint(u64),
    RawFixed32(u32),
    RawFixed64(u64),
    RawBytes(Span),
}

/// Schema message index of an entry the schema does not describe.
pub const NO_SCHEMA: u16 = 0xffff;

/// A packed repeated scalar.
pub const FLAG_PACKED: u8 = 1;

/// A ZigZag varint.
pub const FLAG_SINT: u8 = 2;

/// One field occurrence. A repeated field is several entries in a row.
#[derive(Debug, Clone, Copy, PartialEq, Eq, Structural)]
pub struct Entry {
    pub number: u32,
    /// Schema message index and field slot, or `NO_SCHEMA` when unknown.
    pub message: u16,
    pub slot: u16,
    /// Next field of the same message, or `NONE`.
    pub next: u32,
    /// Bit 0: a packed repeated scalar; bit 1: a ZigZag varint.
    pub flags: u8,
    pub value: Node,
}

#[derive(Debug, Clone, Copy, PartialEq, Eq, Structural)]
pub enum TreeError {
    Wire(crate::protobuf::ProtobufError),
    /// A value that its field cannot represent.
    KindMismatch { number: u32 },
    /// More entries or bytes than the 32-bit ranges can address.
    TooLarge,
}

// ----- the encoding -----

/// The varint bytes of a tag.
pub open spec fn tag_bytes(number: u32, wire_type: u8) -> Seq<u8> {
    spec_varint_bytes(spec_tag(number, wire_type))
}

/// One scalar without a tag, as a packed field holds it; `None` for values
/// that are not scalars.
pub open spec fn scalar_bytes(entry: Entry) -> Option<Seq<u8>> {
    match entry.value {
        Node::Int(value) => if entry.flags & FLAG_SINT != 0 {
            Some(spec_varint_bytes(spec_zigzag(value as int) as nat))
        } else {
            Some(spec_varint_bytes((value as u64) as nat))
        },
        Node::Uint(value) => Some(spec_varint_bytes(value as nat)),
        Node::RawVarint(value) => Some(spec_varint_bytes(value as nat)),
        Node::Bool(value) => Some(spec_varint_bytes(if value { 1 } else { 0 })),
        Node::Fixed32(value) => Some(spec_u32_to_le_bytes(value)),
        Node::Float(value) => Some(spec_u32_to_le_bytes(value)),
        Node::RawFixed32(value) => Some(spec_u32_to_le_bytes(value)),
        Node::Fixed64(value) => Some(spec_u64_to_le_bytes(value)),
        Node::Double(value) => Some(spec_u64_to_le_bytes(value)),
        Node::RawFixed64(value) => Some(spec_u64_to_le_bytes(value)),
        _ => None,
    }
}

/// The payload of the run of entries numbered `number` from `cursor`, and
/// the entry after the run.
pub open spec fn packed_run(entries: Seq<Entry>, cursor: int, number: u32) -> Option<(Seq<u8>, int)>
    decreases entries.len() - cursor,
{
    if cursor < 0 || cursor >= entries.len() || entries[cursor].number != number {
        Some((Seq::empty(), cursor))
    } else {
        let next = entries[cursor].next as int;
        match scalar_bytes(entries[cursor]) {
            None => None,
            Some(bytes) => if cursor < next < entries.len() {
                match packed_run(entries, next, number) {
                    None => None,
                    Some((rest, end)) => Some((bytes + rest, end)),
                }
            } else {
                Some((bytes, next))
            },
        }
    }
}

/// One field that is not packed, as a tagged value: a range of the text
/// as a length-delimited value, a reference as a length-delimited message
/// holding its identifier, a nested message as a length-delimited value
/// holding `nested` (the encoding of its chain), and a scalar with the
/// wire type of its kind.
pub open spec fn field_bytes(entry: Entry, text: Seq<u8>, nested: Option<Seq<u8>>) -> Option<Seq<u8>> {
    let number = entry.number;
    match entry.value {
        Node::Str(span) => Some(span_field(number, span, text)),
        Node::Bytes(span) => Some(span_field(number, span, text)),
        Node::RawBytes(span) => Some(span_field(number, span, text)),
        Node::Reference(identifier) => Some(
            tag_bytes(number, 2) + spec_varint_bytes(1 + spec_varint_size(identifier as nat))
                + tag_bytes(1, 0) + spec_varint_bytes(identifier as nat),
        ),
        Node::Message(_) => match nested {
            None => None,
            Some(inner) => Some(tag_bytes(number, 2) + spec_varint_bytes(inner.len()) + inner),
        },
        Node::Fixed32(_) => Some(tag_bytes(number, 5) + scalar_bytes(entry)->Some_0),
        Node::Float(_) => Some(tag_bytes(number, 5) + scalar_bytes(entry)->Some_0),
        Node::RawFixed32(_) => Some(tag_bytes(number, 5) + scalar_bytes(entry)->Some_0),
        Node::Fixed64(_) => Some(tag_bytes(number, 1) + scalar_bytes(entry)->Some_0),
        Node::Double(_) => Some(tag_bytes(number, 1) + scalar_bytes(entry)->Some_0),
        Node::RawFixed64(_) => Some(tag_bytes(number, 1) + scalar_bytes(entry)->Some_0),
        _ => Some(tag_bytes(number, 0) + scalar_bytes(entry)->Some_0),
    }
}

/// The encoding of the chain an entry at `cursor` holds as its nested
/// message; empty for other values.
pub open spec fn nested_of(entries: Seq<Entry>, text: Seq<u8>, cursor: int) -> Option<Seq<u8>> {
    match entries[cursor].value {
        Node::Message(first) => if cursor < first < entries.len() {
            encoding(entries, text, first as int)
        } else {
            Some(Seq::empty())
        },
        _ => Some(Seq::empty()),
    }
}

/// The bytes of a chain from `cursor` with the tree's `text`: each entry
/// as a tagged field, a packed entry with the entries of its number that
/// follow as one length-delimited value, and a nested message as a
/// length-delimited value holding its chain. `None` when a value cannot
/// be written as its field's wire type.
pub open spec fn encoding(entries: Seq<Entry>, text: Seq<u8>, cursor: int) -> Option<Seq<u8>>
    decreases entries.len() - cursor,
{
    if cursor < 0 || cursor >= entries.len() {
        Some(Seq::empty())
    } else {
        let entry = entries[cursor];
        let number = entry.number;
        let here: Option<(Seq<u8>, int)> = if entry.flags & FLAG_PACKED != 0 {
            match packed_run(entries, cursor, number) {
                None => None,
                Some((payload, end)) => Some(
                    (tag_bytes(number, 2) + spec_varint_bytes(payload.len()) + payload, end),
                ),
            }
        } else {
            let nested: Option<Seq<u8>> = match entry.value {
                Node::Message(first) => if cursor < first < entries.len() {
                    encoding(entries, text, first as int)
                } else {
                    Some(Seq::empty())
                },
                _ => Some(Seq::empty()),
            };
            match field_bytes(entry, text, nested) {
                None => None,
                Some(bytes) => Some((bytes, entry.next as int)),
            }
        };
        match here {
            None => None,
            Some((bytes, after)) => if cursor < after < entries.len() {
                match encoding(entries, text, after) {
                    None => None,
                    Some(rest) => Some(bytes + rest),
                }
            } else {
                Some(bytes)
            },
        }
    }
}

/// A length-delimited field holding a range of the text.
pub open spec fn span_field(number: u32, span: Span, text: Seq<u8>) -> Seq<u8> {
    tag_bytes(number, 2) + spec_varint_bytes(span.length as nat) + text.subrange(
        span.start as int,
        span.start + span.length,
    )
}

/// Every link of the arena points forward and stays inside it, and every
/// range lies within the text: a chain then ends, and encoding it reads
/// only what is there.
pub open spec fn well_formed(entries: Seq<Entry>, text: Seq<u8>) -> bool {
    &&& entries.len() <= NONE
    &&& forall|i: int|
        #![trigger entries[i]]
        0 <= i < entries.len() ==> {
            &&& (entries[i].next == NONE || i < entries[i].next < entries.len())
            &&& (entries[i].value matches Node::Message(first) ==> first == NONE || i < first < entries.len())
            &&& (entries[i].value matches Node::Str(span) ==> span.start + span.length <= text.len())
            &&& (entries[i].value matches Node::Bytes(span) ==> span.start + span.length <= text.len())
            &&& (entries[i].value matches Node::RawBytes(span) ==> span.start + span.length <= text.len())
        }
}

// ----- sizes -----

/// The size of one scalar without a tag; zero for values that are not
/// scalars.
pub open spec fn scalar_size(entry: Entry) -> nat {
    match scalar_bytes(entry) {
        Some(bytes) => bytes.len(),
        None => 0,
    }
}

/// The payload size of the run of entries numbered `number` from `cursor`,
/// and the entry after the run.
pub open spec fn packed_size(entries: Seq<Entry>, cursor: int, number: u32) -> (nat, int)
    decreases entries.len() - cursor,
{
    if cursor < 0 || cursor >= entries.len() || entries[cursor].number != number {
        (0, cursor)
    } else {
        let next = entries[cursor].next as int;
        if cursor < next < entries.len() {
            let (rest, end) = packed_size(entries, next, number);
            (scalar_size(entries[cursor]) + rest, end)
        } else {
            (scalar_size(entries[cursor]), next)
        }
    }
}

/// The size of a chain as `Tree::size` counts it: the length of its
/// encoding, when it has one.
pub open spec fn chain_size(entries: Seq<Entry>, text: Seq<u8>, cursor: int) -> nat
    decreases entries.len() - cursor,
{
    if cursor < 0 || cursor >= entries.len() {
        0
    } else {
        let entry = entries[cursor];
        let number = entry.number;
        let tag = spec_varint_size(spec_tag(number, 0));
        let (here, after): (nat, int) = if entry.flags & FLAG_PACKED != 0 {
            let (payload, end) = packed_size(entries, cursor, number);
            (tag + spec_varint_size(payload) + payload, end)
        } else {
            let value: nat = match entry.value {
                Node::Str(span) => spec_varint_size(span.length as nat) + span.length as nat,
                Node::Bytes(span) => spec_varint_size(span.length as nat) + span.length as nat,
                Node::RawBytes(span) => spec_varint_size(span.length as nat) + span.length as nat,
                Node::Reference(identifier) => {
                    let nested = 1 + spec_varint_size(identifier as nat);
                    spec_varint_size(nested) + nested
                },
                Node::Message(first) => {
                    let nested = if cursor < first < entries.len() {
                        chain_size(entries, text, first as int)
                    } else {
                        0
                    };
                    spec_varint_size(nested) + nested
                },
                _ => scalar_size(entry),
            };
            (tag + value, entry.next as int)
        };
        if cursor < after < entries.len() {
            here + chain_size(entries, text, after)
        } else {
            here
        }
    }
}

/// A packed run ends at `NONE` or further along the arena.
proof fn lemma_packed_end(entries: Seq<Entry>, text: Seq<u8>, cursor: int, number: u32)
    requires
        well_formed(entries, text),
        0 <= cursor < entries.len(),
        entries[cursor].number == number,
    ensures
        packed_size(entries, cursor, number).1 == NONE || cursor < packed_size(entries, cursor, number).1 < entries.len(),
    decreases entries.len() - cursor,
{
    let next = entries[cursor].next as int;
    assert(entries[cursor].next == NONE || cursor < next < entries.len());
    if cursor < next < entries.len() && entries[next].number == number {
        lemma_packed_end(entries, text, next, number);
    }
}


/// The chain after an entry that is not packed is no longer than the
/// chain from it, and neither is a nested message it holds.
proof fn lemma_chain_size_entry(entries: Seq<Entry>, text: Seq<u8>, cursor: int)
    requires
        well_formed(entries, text),
        0 <= cursor < entries.len(),
        entries[cursor].flags & FLAG_PACKED == 0,
    ensures
        entries[cursor].next != NONE ==> chain_size(entries, text, entries[cursor].next as int) <= chain_size(
            entries,
            text,
            cursor,
        ),
        entries[cursor].value matches Node::Message(first) ==> (first != NONE ==> chain_size(
            entries,
            text,
            first as int,
        ) <= chain_size(entries, text, cursor)),
{
}

/// The chain after a packed run, and the run's payload, are no longer
/// than the chain from the run.
proof fn lemma_chain_size_packed(entries: Seq<Entry>, text: Seq<u8>, cursor: int)
    requires
        well_formed(entries, text),
        0 <= cursor < entries.len(),
        entries[cursor].flags & FLAG_PACKED != 0,
    ensures
        packed_size(entries, cursor, entries[cursor].number).0 <= chain_size(entries, text, cursor),
        packed_size(entries, cursor, entries[cursor].number).1 != NONE ==> chain_size(
            entries,
            text,
            packed_size(entries, cursor, entries[cursor].number).1,
        ) <= chain_size(entries, text, cursor),
{
    lemma_packed_end(entries, text, cursor, entries[cursor].number);
}

// ----- building -----

/// `b` begins with `a`.
pub open spec fn extends<T>(a: Seq<T>, b: Seq<T>) -> bool {
    &&& a.len() <= b.len()
    &&& forall|i: int| 0 <= i < a.len() ==> #[trigger] b[i] == a[i]
}

/// A range a value holds lies within the text.
pub open spec fn spans_within(value: Node, text: Seq<u8>) -> bool {
    match value {
        Node::Str(span) => span.start + span.length <= text.len(),
        Node::Bytes(span) => span.start + span.length <= text.len(),
        Node::RawBytes(span) => span.start + span.length <= text.len(),
        _ => true,
    }
}

/// An entry that can be appended to a chain: it ends the chain, its range
/// lies within the text, and a nested message it holds is still empty.
pub open spec fn fits(entry: Entry, text: Seq<u8>) -> bool {
    &&& entry.next == NONE
    &&& (entry.value matches Node::Message(first) ==> first == NONE)
    &&& spans_within(entry.value, text)
}

/// A chain under construction whose entries lie at or after `base`: empty,
/// or its last entry ends it.
pub open spec fn chain_ok(chain: Chain, entries: Seq<Entry>, base: int) -> bool {
    &&& (chain.first == NONE <==> chain.last == NONE)
    &&& chain.first != NONE ==> {
        &&& base <= chain.first <= chain.last < entries.len()
        &&& entries[chain.last as int].next == NONE
    }
}

/// `entry` with its link set to `next`.
pub open spec fn linked(entry: Entry, next: u32) -> Entry {
    Entry { number: entry.number, message: entry.message, slot: entry.slot, next, flags: entry.flags, value: entry.value }
}

/// The arena after `entry` is appended to `chain`.
pub open spec fn appended(entries: Seq<Entry>, chain: Chain, entry: Entry) -> Seq<Entry> {
    if chain.first == NONE {
        entries.push(entry)
    } else {
        entries.update(chain.last as int, linked(entries[chain.last as int], entries.len() as u32)).push(entry)
    }
}

/// The flags a schema field gives its entries.
pub open spec fn field_flags(field: Field) -> u8 {
    if field.packed && field.repeated {
        if field.kind == Kind::Sint { 3 } else { 1 }
    } else {
        if field.kind == Kind::Sint { 2 } else { 0 }
    }
}

/// The bytes a value holds; empty for numbers.
pub open spec fn value_bytes(value: ValueView) -> Seq<u8> {
    match value {
        ValueView::Bytes(bytes) => bytes,
        ValueView::Group(bytes) => bytes,
        _ => Seq::empty(),
    }
}

/// How long the bytes a value holds are; zero for numbers.
pub open spec fn value_len(value: ValueView) -> nat {
    match value {
        ValueView::Bytes(bytes) => bytes.len(),
        ValueView::Group(bytes) => bytes.len(),
        _ => 0,
    }
}

/// A field's value is shorter than the message it was read from.
proof fn lemma_value_shorter(bytes: Seq<u8>, pos: int)
    requires
        0 <= pos,
    ensures
        spec_read_field(bytes, pos) matches Ok(Some((_, value, next))) ==> value_len(value) < next - pos
            && next <= bytes.len(),
{
    lemma_field_advances(bytes, pos);
    if pos < bytes.len() {
        lemma_read_varint_len(bytes, pos);
        if let Ok((tag, tag_length)) = spec_read_varint(bytes, pos) {
            lemma_read_varint_len(bytes, pos + tag_length);
            if tag % 8 == 3 {
                lemma_group_advances(bytes, pos + tag_length, (tag >> 3) as u32, pos);
            }
        }
    }
}

/// A longer text keeps every range within it.
proof fn lemma_longer_text(entries: Seq<Entry>, text: Seq<u8>, longer: Seq<u8>)
    requires
        well_formed(entries, text),
        text.len() <= longer.len(),
    ensures
        well_formed(entries, longer),
{
}

// ----- fields kept raw -----

/// One field as its shortest encoding with the wire type it was read with;
/// a group becomes a length-delimited value holding its fields.
pub open spec fn raw_field(number: u32, value: ValueView) -> Seq<u8> {
    match value {
        ValueView::Varint(value) => tag_bytes(number, 0) + spec_varint_bytes(value as nat),
        ValueView::Fixed64(value) => tag_bytes(number, 1) + spec_u64_to_le_bytes(value),
        ValueView::Fixed32(value) => tag_bytes(number, 5) + spec_u32_to_le_bytes(value),
        ValueView::Bytes(bytes) => tag_bytes(number, 2) + spec_varint_bytes(bytes.len()) + bytes,
        ValueView::Group(bytes) => tag_bytes(number, 2) + spec_varint_bytes(bytes.len()) + bytes,
    }
}

/// The fields of a message from `pos`, each as `raw_field` writes it, or
/// the error that reading them meets. Bytes are canonical when this gives
/// them back.
pub open spec fn raw_fields(bytes: Seq<u8>, pos: int) -> Result<Seq<u8>, ProtobufError>
    decreases bytes.len() - pos,
{
    match spec_read_field(bytes, pos) {
        Err(error) => Err(error),
        Ok(None) => Ok(Seq::empty()),
        Ok(Some((number, value, next))) => if pos < next <= bytes.len() {
            match raw_fields(bytes, next) {
                Ok(rest) => Ok(raw_field(number, value) + rest),
                Err(error) => Err(error),
            }
        } else {
            Ok(Seq::empty())
        },
    }
}

/// A value that a field the schema does not describe holds.
pub open spec fn is_raw(value: Node) -> bool {
    value is RawVarint || value is RawFixed32 || value is RawFixed64 || value is RawBytes
}

/// An entry as one field, outside any nested message.
pub open spec fn entry_field(entry: Entry, text: Seq<u8>) -> Seq<u8> {
    match field_bytes(entry, text, Some(Seq::empty())) {
        Some(bytes) => bytes,
        None => Seq::empty(),
    }
}

/// The fields of entries `from` up to `to`, one after the other.
pub open spec fn flat(entries: Seq<Entry>, text: Seq<u8>, from: int, to: int) -> Seq<u8>
    decreases to - from,
{
    if from >= to {
        Seq::empty()
    } else {
        flat(entries, text, from, to - 1) + entry_field(entries[to - 1], text)
    }
}

/// Entries `base` up to the end of the arena form one chain, in order, of
/// raw values.
pub open spec fn raw_run(entries: Seq<Entry>, base: int) -> bool {
    forall|j: int|
        #![trigger entries[j]]
        base <= j < entries.len() ==> {
            &&& entries[j].flags == 0
            &&& is_raw(entries[j].value)
            &&& entries[j].next == if j + 1 < entries.len() { (j + 1) as u32 } else { NONE }
        }
}

/// A run of raw entries encodes as its fields one after the other.
proof fn lemma_raw_run_encoding(entries: Seq<Entry>, text: Seq<u8>, base: int, cursor: int)
    requires
        well_formed(entries, text),
        raw_run(entries, base),
        0 <= base <= cursor <= entries.len(),
    ensures
        encoding(entries, text, cursor) == Some(flat_from(entries, text, cursor)),
    decreases entries.len() - cursor,
{
    if cursor < entries.len() {
        let entry = entries[cursor];
        let flags = entry.flags;
        assert(flags & FLAG_PACKED == 0) by (bit_vector)
            requires
                flags == 0,
        ;
        let bytes = entry_field(entry, text);
        assert(field_bytes(entry, text, Some(Seq::empty())) == Some(bytes));
        if cursor + 1 < entries.len() {
            lemma_raw_run_encoding(entries, text, base, cursor + 1);
        } else {
            assert(flat_from(entries, text, cursor + 1) == Seq::<u8>::empty());
            assert(bytes + Seq::<u8>::empty() =~= bytes);
        }
    }
}

/// The fields of entries `cursor` up to the end, front first.
pub open spec fn flat_from(entries: Seq<Entry>, text: Seq<u8>, cursor: int) -> Seq<u8>
    decreases entries.len() - cursor,
{
    if cursor < 0 || cursor >= entries.len() {
        Seq::empty()
    } else {
        entry_field(entries[cursor], text) + flat_from(entries, text, cursor + 1)
    }
}

/// Both ways of laying out the fields of a run agree.
proof fn lemma_flat_from(entries: Seq<Entry>, text: Seq<u8>, from: int)
    requires
        0 <= from <= entries.len(),
    ensures
        flat_from(entries, text, from) == flat(entries, text, from, entries.len() as int),
    decreases entries.len() - from,
{
    if from < entries.len() {
        lemma_flat_from(entries, text, from + 1);
        lemma_flat_split(entries, text, from, entries.len() as int);
    }
}

/// Taking the first field off the front of a run.
proof fn lemma_flat_split(entries: Seq<Entry>, text: Seq<u8>, from: int, to: int)
    requires
        from < to,
    ensures
        flat(entries, text, from, to) == entry_field(entries[from], text) + flat(
            entries,
            text,
            from + 1,
            to,
        ),
    decreases to - from,
{
    if from + 1 < to {
        lemma_flat_split(entries, text, from, to - 1);
        assert(flat(entries, text, from, to) =~= entry_field(entries[from], text) + flat(
            entries,
            text,
            from + 1,
            to,
        ));
    } else {
        assert(flat(entries, text, from, from) == Seq::<u8>::empty());
        assert(flat(entries, text, from + 1, to) == Seq::<u8>::empty());
        assert(flat(entries, text, from, to) =~= entry_field(entries[from], text) + flat(
            entries,
            text,
            from + 1,
            to,
        ));
    }
}

/// The fields of a run do not depend on the links between its entries, nor
/// on text past the ranges they hold.
proof fn lemma_flat_frame(a: Seq<Entry>, ta: Seq<u8>, b: Seq<Entry>, tb: Seq<u8>, from: int, to: int)
    requires
        0 <= from,
        to <= a.len(),
        to <= b.len(),
        extends(ta, tb),
        forall|j: int|
            from <= j < to ==> (#[trigger] b[j]).value == a[j].value && b[j].number == a[j].number
                && b[j].flags == a[j].flags && spans_within(a[j].value, ta),
    ensures
        flat(b, tb, from, to) == flat(a, ta, from, to),
    decreases to - from,
{
    if from < to {
        lemma_flat_frame(a, ta, b, tb, from, to - 1);
        let j = to - 1;
        assert(b[j].value == a[j].value);
        if let Node::RawBytes(span) = a[j].value {
            assert(tb.subrange(span.start as int, span.start + span.length) =~= ta.subrange(
                span.start as int,
                span.start + span.length,
            ));
        }
        if let Node::Str(span) = a[j].value {
            assert(tb.subrange(span.start as int, span.start + span.length) =~= ta.subrange(
                span.start as int,
                span.start + span.length,
            ));
        }
        if let Node::Bytes(span) = a[j].value {
            assert(tb.subrange(span.start as int, span.start + span.length) =~= ta.subrange(
                span.start as int,
                span.start + span.length,
            ));
        }
    }
}

/// What `raw` gives for a value: the number as it is, or the bytes added to
/// the text and their range.
pub open spec fn raw_value(value: ValueView, r: Result<Node, TreeError>, before: Seq<u8>, after: Seq<u8>) -> bool {
    match value {
        ValueView::Varint(v) => r == Ok::<Node, TreeError>(Node::RawVarint(v)) && after == before,
        ValueView::Fixed32(v) => r == Ok::<Node, TreeError>(Node::RawFixed32(v)) && after == before,
        ValueView::Fixed64(v) => r == Ok::<Node, TreeError>(Node::RawFixed64(v)) && after == before,
        ValueView::Bytes(bytes) => raw_bytes_value(bytes, r, before, after),
        ValueView::Group(bytes) => raw_bytes_value(bytes, r, before, after),
    }
}

/// Bytes kept raw: appended to the text, or refused when a range could not
/// address them.
pub open spec fn raw_bytes_value(bytes: Seq<u8>, r: Result<Node, TreeError>, before: Seq<u8>, after: Seq<u8>) -> bool {
    match r {
        Ok(node) => node == Node::RawBytes(Span { start: before.len() as u32, length: bytes.len() as u32 })
            && before.len() <= u32::MAX && bytes.len() <= u32::MAX && after == before + bytes,
        Err(error) => error == TreeError::TooLarge && (before.len() > u32::MAX || bytes.len() > u32::MAX)
            && after == before,
    }
}

/// An entry that holds a value raw writes the field as `raw_field` does.
proof fn lemma_raw_entry(number: u32, value: ValueView, node: Node, before: Seq<u8>, after: Seq<u8>)
    requires
        raw_value(value, Ok(node), before, after),
    ensures
        entry_field(
            Entry { number, message: NO_SCHEMA, slot: 0, next: NONE, flags: 0, value: node },
            after,
        ) == raw_field(number, value),
{
    match value {
        ValueView::Bytes(bytes) => {
            assert(after.subrange(before.len() as int, (before.len() + bytes.len()) as int) =~= bytes);
        },
        ValueView::Group(bytes) => {
            assert(after.subrange(before.len() as int, (before.len() + bytes.len()) as int) =~= bytes);
        },
        _ => {},
    }
}

/// The schema describes message `message`.
pub open spec fn describes(schema: Seq<Message>, message: Option<u16>) -> bool {
    message matches Some(index) && index < schema.len()
}

// ----- scalars a schema describes -----

/// The signed value a ZigZag varint holds.
pub open spec fn unzigzag(value: u64) -> i64 {
    if value % 2 == 0 {
        (value / 2) as i64
    } else {
        (-((value / 2) as int) - 1) as i64
    }
}

/// ZigZag decoding gives the one value that encodes to the varint.
proof fn lemma_unzigzag(value: u64, decoded: i64)
    requires
        spec_zigzag(decoded as int) == value,
    ensures
        decoded == unzigzag(value),
{
}

/// The value an entry of a scalar field of kind `kind` holds when its
/// wire value is `value`; `None` when the field is not a plain scalar of
/// that wire type.
pub open spec fn scalar_node(kind: Kind, value: ValueView) -> Option<Node> {
    match (kind, value) {
        (Kind::Int, ValueView::Varint(v)) => Some(Node::Int(v as i64)),
        (Kind::Enum, ValueView::Varint(v)) => Some(Node::Int(v as i64)),
        (Kind::Uint, ValueView::Varint(v)) => Some(Node::Uint(v)),
        (Kind::Sint, ValueView::Varint(v)) => Some(Node::Int(unzigzag(v))),
        (Kind::Bool, ValueView::Varint(v)) => Some(Node::Bool(v != 0)),
        (Kind::Fixed32, ValueView::Fixed32(v)) => Some(Node::Fixed32(v)),
        (Kind::Fixed64, ValueView::Fixed64(v)) => Some(Node::Fixed64(v)),
        (Kind::Float, ValueView::Fixed32(v)) => Some(Node::Float(v)),
        (Kind::Double, ValueView::Fixed64(v)) => Some(Node::Double(v)),
        _ => None,
    }
}

/// Every scalar a schema describes keeps its value: the entry decoding
/// makes of it re-encodes as the field was written in shortest form (a
/// boolean as 0 or 1), whatever the number.
pub proof fn lemma_scalar_keeps_value(number: u32, field: Field, value: ValueView, text: Seq<u8>)
    requires
        !(field.packed && field.repeated),
        scalar_node(field.kind, value) is Some,
    ensures
        entry_field(
            Entry {
                number,
                message: 0,
                slot: 0,
                next: NONE,
                flags: field_flags(field),
                value: scalar_node(field.kind, value)->Some_0,
            },
            text,
        ) == raw_field(
            number,
            match (field.kind, value) {
                (Kind::Bool, ValueView::Varint(v)) => ValueView::Varint(if v != 0 { 1 } else { 0 }),
                _ => value,
            },
        ),
{
    let flags = field_flags(field);
    assert(flags == 0 || flags == 2);
    assert(flags & FLAG_SINT == 0 <==> flags == 0) by (bit_vector)
        requires
            flags == 0 || flags == 2,
    ;
    assert(flags & FLAG_PACKED == 0) by (bit_vector)
        requires
            flags == 0 || flags == 2,
    ;
    if let ValueView::Varint(v) = value {
        assert((v as i64) as u64 == v) by (bit_vector);
        if field.kind == Kind::Sint {
            assert(spec_zigzag(unzigzag(v) as int) == v);
        }
    }
}

/// Bytes kept in the text for one new entry of a chain: the text grows by
/// them and the arena by the entry.
pub open spec fn kept_bytes(
    entries: Seq<Entry>,
    text: Seq<u8>,
    final_entries: Seq<Entry>,
    final_text: Seq<u8>,
    chain: Chain,
    entry: Entry,
    bytes: Seq<u8>,
) -> bool {
    &&& final_text == text + bytes
    &&& final_entries == appended(entries, chain, entry)
}

/// A string, bytes or a reference a schema describes keeps its bytes: the
/// entry decoding makes of it re-encodes as the length-delimited field it
/// was, a reference when its bytes are the shortest form of one.
pub proof fn lemma_bytes_keep_value(number: u32, field: Field, node: Node, before: Seq<u8>, bytes: Seq<u8>)
    requires
        !(field.packed && field.repeated),
        before.len() <= u32::MAX,
        bytes.len() <= u32::MAX,
        ({
            let span = Span { start: before.len() as u32, length: bytes.len() as u32 };
            ||| node == Node::Bytes(span)
            ||| node == Node::Str(span)
            ||| node == Node::RawBytes(span)
            ||| (node matches Node::Reference(identifier) && bytes == seq![0x08u8] + spec_varint_bytes(identifier as nat))
        }),
    ensures
        entry_field(
            Entry { number, message: 0, slot: 0, next: NONE, flags: field_flags(field), value: node },
            before + bytes,
        ) == raw_field(number, ValueView::Bytes(bytes)),
{
    let flags = field_flags(field);
    assert(flags & FLAG_PACKED == 0) by (bit_vector)
        requires
            flags == 0 || flags == 2,
    ;
    let text = before + bytes;
    assert(text.subrange(before.len() as int, (before.len() + bytes.len()) as int) =~= bytes);
    if let Node::Reference(identifier) = node {
        lemma_varint_len(identifier as nat);
        assert(spec_varint_bytes(8) =~= seq![0x08u8]);
        assert(tag_bytes(1, 0) == seq![0x08u8]);
        assert(bytes.len() == 1 + spec_varint_size(identifier as nat));
        assert(tag_bytes(1, 0) + spec_varint_bytes(identifier as nat) =~= bytes);
        assert(raw_field(number, ValueView::Bytes(bytes)) =~= tag_bytes(number, 2) + spec_varint_bytes(
            1 + spec_varint_size(identifier as nat),
        ) + tag_bytes(1, 0) + spec_varint_bytes(identifier as nat));
    }
}

/// A kind read from varints.
pub open spec fn varint_kind(kind: Kind) -> bool {
    kind == Kind::Int || kind == Kind::Uint || kind == Kind::Sint || kind == Kind::Bool || kind == Kind::Enum
}

/// A chain after `count` entries were appended to it from index `start`.
pub open spec fn chain_after(chain: Chain, start: int, count: nat) -> Chain {
    if count == 0 {
        chain
    } else {
        Chain { first: if chain.first == NONE { start as u32 } else { chain.first }, last: (start + count - 1) as u32 }
    }
}

/// The arena after `items` were appended to `chain` one after another.
pub open spec fn appended_all(entries: Seq<Entry>, chain: Chain, items: Seq<Entry>) -> Seq<Entry>
    decreases items.len(),
{
    if items.len() == 0 {
        entries
    } else {
        appended(
            appended_all(entries, chain, items.drop_last()),
            chain_after(chain, entries.len() as int, (items.len() - 1) as nat),
            items.last(),
        )
    }
}

/// The entries a packed run of varints of a schema field becomes: one per
/// value, each holding what the value is as that field's kind.
pub open spec fn packed_entries(number: u32, message: u16, slot: u16, field: Field, values: Seq<u64>) -> Seq<Entry> {
    Seq::new(
        values.len(),
        |i: int|
            Entry {
                number,
                message,
                slot,
                next: NONE,
                flags: field_flags(field),
                value: scalar_node(field.kind, ValueView::Varint(values[i]))->Some_0,
            },
    )
}

/// Every element of a packed field a schema describes keeps its value: it
/// is written back into the packed payload as its varint in shortest form
/// (a boolean as 0 or 1).
pub proof fn lemma_packed_element_keeps_value(field: Field, v: u64)
    requires
        varint_kind(field.kind),
        field.packed && field.repeated,
    ensures
        scalar_bytes(
            Entry {
                number: 0,
                message: 0,
                slot: 0,
                next: NONE,
                flags: field_flags(field),
                value: scalar_node(field.kind, ValueView::Varint(v))->Some_0,
            },
        ) == Some(spec_varint_bytes((if field.kind == Kind::Bool { if v != 0 { 1u64 } else { 0u64 } } else { v }) as nat)),
{
    let flags = field_flags(field);
    assert(flags == 1 || flags == 3);
    assert(flags & FLAG_SINT == 0 <==> flags == 1) by (bit_vector)
        requires
            flags == 1 || flags == 3,
    ;
    assert((v as i64) as u64 == v) by (bit_vector);
    if field.kind == Kind::Sint {
        assert(spec_zigzag(unzigzag(v) as int) == v);
    }
}

/// The value of one fixed-width element of a packed field: four bytes a
/// float's bits or a word, eight bytes a double's bits or a word.
pub open spec fn fixed_node(width: nat, float: bool, chunk: Seq<u8>) -> Node {
    if width == 4 {
        if float { Node::Float(spec_u32_from_le_bytes(chunk)) } else { Node::Fixed32(spec_u32_from_le_bytes(chunk)) }
    } else {
        if float { Node::Double(spec_u64_from_le_bytes(chunk)) } else { Node::Fixed64(spec_u64_from_le_bytes(chunk)) }
    }
}

/// The entries a packed run of fixed-width values becomes: one per
/// `width` bytes, in order.
pub open spec fn packed_fixed_entries(
    number: u32,
    message: u16,
    slot: u16,
    field: Field,
    bytes: Seq<u8>,
    width: nat,
    float: bool,
) -> Seq<Entry> {
    Seq::new(
        bytes.len() / width,
        |i: int|
            Entry {
                number,
                message,
                slot,
                next: NONE,
                flags: field_flags(field),
                value: fixed_node(width, float, bytes.subrange(width * i, width * i + width)),
            },
    )
}

/// Every element of a packed fixed-width field keeps its bytes: it is
/// written back into the packed payload as the bytes it was read from.
pub proof fn lemma_packed_fixed_keeps_bytes(field: Field, width: nat, float: bool, chunk: Seq<u8>)
    requires
        width == 4 || width == 8,
        chunk.len() == width,
    ensures
        scalar_bytes(
            Entry { number: 0, message: 0, slot: 0, next: NONE, flags: field_flags(field), value: fixed_node(width, float, chunk) },
        ) == Some(chunk),
{
    vstd::bytes::lemma_auto_spec_u32_to_from_le_bytes();
    vstd::bytes::lemma_auto_spec_u64_to_from_le_bytes();
}

pub struct Tree {
    pub schema: &'static [Message],
    pub entries: Vec<Entry>,
    pub text: Vec<u8>,
}

impl Tree {
    /// One scalar's size without a tag.
    fn scalar_size(entry: &Entry) -> (size: usize)
        ensures
            size == scalar_size(*entry),
    {
        proof {
            vstd::bytes::lemma_auto_spec_u32_to_from_le_bytes();
            vstd::bytes::lemma_auto_spec_u64_to_from_le_bytes();
        }
        match entry.value {
            Node::Int(value) => if entry.flags & FLAG_SINT != 0 {
                let encoded = zigzag_encode(value);
                proof {
                    lemma_varint_round_trip(encoded, Seq::empty());
                }
                varint_size(encoded)
            } else {
                proof {
                    lemma_varint_round_trip(value as u64, Seq::empty());
                }
                varint_size(value as u64)
            },
            Node::Uint(value) => {
                proof {
                    lemma_varint_round_trip(value, Seq::empty());
                }
                varint_size(value)
            },
            Node::RawVarint(value) => {
                proof {
                    lemma_varint_round_trip(value, Seq::empty());
                }
                varint_size(value)
            },
            Node::Bool(value) => {
                proof {
                    lemma_varint_round_trip(if value { 1u64 } else { 0u64 }, Seq::empty());
                }
                1
            },
            Node::Fixed32(_) => 4,
            Node::Float(_) => 4,
            Node::RawFixed32(_) => 4,
            Node::Fixed64(_) => 8,
            Node::Double(_) => 8,
            Node::RawFixed64(_) => 8,
            _ => 0,
        }
    }

    /// Size of the packed payload of the run starting at `first`, and the
    /// entry after the run.
    fn packed_size(&self, first: u32) -> (sized: (usize, u32))
        requires
            well_formed(self.entries@, self.text@),
            first < self.entries@.len(),
            packed_size(self.entries@, first as int, self.entries@[first as int].number).0 <= usize::MAX,
        ensures
            sized.0 == packed_size(self.entries@, first as int, self.entries@[first as int].number).0,
            sized.1 == packed_size(self.entries@, first as int, self.entries@[first as int].number).1,
    {
        let number = self.entries[first as usize].number;
        let ghost whole = packed_size(self.entries@, first as int, number).0;
        let mut payload: usize = 0;
        let mut cursor = first;
        while cursor != NONE && self.entries[cursor as usize].number == number
            invariant
                well_formed(self.entries@, self.text@),
                cursor == NONE || cursor < self.entries@.len(),
                whole <= usize::MAX,
                payload + packed_size(self.entries@, cursor as int, number).0 == whole,
                packed_size(self.entries@, cursor as int, number).1 == packed_size(
                    self.entries@,
                    first as int,
                    number,
                ).1,
            decreases if cursor == NONE { 0 } else { self.entries@.len() + 1 - cursor },
        {
            let entry = &self.entries[cursor as usize];
            assert(self.entries@[cursor as int] == *entry);
            payload += Self::scalar_size(entry);
            cursor = entry.next;
        }
        (payload, cursor)
    }

    /// The size of an entry's value without its tag.
    fn value_size(&self, cursor: u32) -> (size: usize)
        requires
            well_formed(self.entries@, self.text@),
            cursor < self.entries@.len(),
            self.entries@[cursor as int].flags & FLAG_PACKED == 0,
            chain_size(self.entries@, self.text@, cursor as int) <= usize::MAX,
        ensures
            size + spec_varint_size(spec_tag(self.entries@[cursor as int].number, 0)) <= chain_size(
                self.entries@,
                self.text@,
                cursor as int,
            ),
            self.entries@[cursor as int].next == NONE ==> size + spec_varint_size(
                spec_tag(self.entries@[cursor as int].number, 0),
            ) == chain_size(self.entries@, self.text@, cursor as int),
            self.entries@[cursor as int].next != NONE ==> size + spec_varint_size(
                spec_tag(self.entries@[cursor as int].number, 0),
            ) + chain_size(self.entries@, self.text@, self.entries@[cursor as int].next as int) == chain_size(
                self.entries@,
                self.text@,
                cursor as int,
            ),
        decreases self.entries@.len() - cursor, 0int,
    {
        let entry = &self.entries[cursor as usize];
        assert(self.entries@[cursor as int] == *entry);
        match entry.value {
            Node::Str(span) => varint_size(span.length as u64) + span.length as usize,
            Node::Bytes(span) => varint_size(span.length as u64) + span.length as usize,
            Node::RawBytes(span) => varint_size(span.length as u64) + span.length as usize,
            Node::Reference(identifier) => {
                let nested = 1 + varint_size(identifier);
                varint_size(nested as u64) + nested
            },
            Node::Message(first) => {
                let nested = if first != NONE {
                    self.size_from(first)
                } else {
                    0
                };
                varint_size(nested as u64) + nested
            },
            _ => Self::scalar_size(entry),
        }
    }

    fn size_from(&self, first: u32) -> (size: usize)
        requires
            well_formed(self.entries@, self.text@),
            first < self.entries@.len(),
            chain_size(self.entries@, self.text@, first as int) <= usize::MAX,
        ensures
            size == chain_size(self.entries@, self.text@, first as int),
        decreases self.entries@.len() - first, 1int,
    {
        let mut total: usize = 0;
        let mut cursor = first;
        while cursor != NONE
            invariant
                well_formed(self.entries@, self.text@),
                cursor == NONE || (first <= cursor < self.entries@.len()),
                first < self.entries@.len(),
                chain_size(self.entries@, self.text@, first as int) <= usize::MAX,
                total + (if cursor == NONE { 0 } else { chain_size(self.entries@, self.text@, cursor as int) })
                    == chain_size(self.entries@, self.text@, first as int),
            decreases if cursor == NONE { 0 } else { self.entries@.len() + 1 - cursor },
        {
            let entry = &self.entries[cursor as usize];
            assert(self.entries@[cursor as int] == *entry);
            let number = entry.number;
            if entry.flags & FLAG_PACKED != 0 {
                proof {
                    lemma_packed_end(self.entries@, self.text@, cursor as int, number);
                }
                let (payload, run_end) = self.packed_size(cursor);
                total = total + tag_size(number) + varint_size(payload as u64) + payload;
                cursor = run_end;
            } else {
                let value = self.value_size(cursor);
                total = total + tag_size(number) + value;
                cursor = entry.next;
            }
        }
        total
    }

    /// One scalar without a tag (also an element of a packed field).
    fn encode_scalar(entry: &Entry, out: &mut Vec<u8>) -> (r: Result<(), TreeError>)
        ensures
            match scalar_bytes(*entry) {
                Some(bytes) => r is Ok && final(out)@ == old(out)@ + bytes,
                None => r == Err::<(), TreeError>(TreeError::KindMismatch { number: entry.number }),
            },
    {
        match entry.value {
            Node::Int(value) => if entry.flags & FLAG_SINT != 0 {
                write_varint(out, zigzag_encode(value));
            } else {
                write_varint(out, value as u64);
            },
            Node::Uint(value) => write_varint(out, value),
            Node::RawVarint(value) => write_varint(out, value),
            Node::Bool(value) => write_varint(out, if value { 1 } else { 0 }),
            Node::Fixed32(value) => {
                let mut bytes = u32_to_le_bytes(value);
                out.append(&mut bytes);
            },
            Node::Float(value) => {
                let mut bytes = u32_to_le_bytes(value);
                out.append(&mut bytes);
            },
            Node::RawFixed32(value) => {
                let mut bytes = u32_to_le_bytes(value);
                out.append(&mut bytes);
            },
            Node::Fixed64(value) => {
                let mut bytes = u64_to_le_bytes(value);
                out.append(&mut bytes);
            },
            Node::Double(value) => {
                let mut bytes = u64_to_le_bytes(value);
                out.append(&mut bytes);
            },
            Node::RawFixed64(value) => {
                let mut bytes = u64_to_le_bytes(value);
                out.append(&mut bytes);
            },
            _ => {
                return Err(TreeError::KindMismatch { number: entry.number });
            },
        }
        Ok(())
    }

    /// Encodes the entry at `cursor`, which is not packed, as one field.
    fn encode_entry(&self, cursor: u32, out: &mut Vec<u8>) -> (r: Result<(), TreeError>)
        requires
            well_formed(self.entries@, self.text@),
            cursor < self.entries@.len(),
            self.entries@[cursor as int].flags & FLAG_PACKED == 0,
            chain_size(self.entries@, self.text@, cursor as int) <= usize::MAX,
        ensures
            match field_bytes(
                self.entries@[cursor as int],
                self.text@,
                nested_of(self.entries@, self.text@, cursor as int),
            ) {
                Some(bytes) => r is Ok && final(out)@ == old(out)@ + bytes,
                None => r matches Err(TreeError::KindMismatch { .. }),
            },
        decreases self.entries@.len() - cursor, 0int,
    {
        let entry = &self.entries[cursor as usize];
        assert(self.entries@[cursor as int] == *entry);
        let number = entry.number;
        match entry.value {
            Node::Str(span) => self.encode_span(number, span, out),
            Node::Bytes(span) => self.encode_span(number, span, out),
            Node::RawBytes(span) => self.encode_span(number, span, out),
            Node::Reference(identifier) => {
                write_tag(out, number, 2);
                proof {
                    lemma_varint_round_trip(identifier, Seq::empty());
                    lemma_varint_len(identifier as nat);
                }
                let size = varint_size(identifier);
                assert(size < 11);
                write_varint(out, (1 + size) as u64);
                write_tag(out, 1, 0);
                write_varint(out, identifier);
                Ok(())
            },
            Node::Message(first) => {
                proof {
                    lemma_chain_size_entry(self.entries@, self.text@, cursor as int);
                }
                let nested = if first != NONE {
                    self.size_from(first)
                } else {
                    0
                };
                write_tag(out, number, 2);
                write_varint(out, nested as u64);
                if first != NONE {
                    proof {
                        lemma_encoding_size(self.entries@, self.text@, first as int);
                    }
                    self.encode_from(first, out)
                } else {
                    proof {
                        lemma_varint_len(0);
                    }
                    Ok(())
                }
            },
            Node::Fixed32(_) => {
                write_tag(out, number, 5);
                Self::encode_scalar(entry, out)
            },
            Node::Float(_) => {
                write_tag(out, number, 5);
                Self::encode_scalar(entry, out)
            },
            Node::RawFixed32(_) => {
                write_tag(out, number, 5);
                Self::encode_scalar(entry, out)
            },
            Node::Fixed64(_) => {
                write_tag(out, number, 1);
                Self::encode_scalar(entry, out)
            },
            Node::Double(_) => {
                write_tag(out, number, 1);
                Self::encode_scalar(entry, out)
            },
            Node::RawFixed64(_) => {
                write_tag(out, number, 1);
                Self::encode_scalar(entry, out)
            },
            _ => {
                write_tag(out, number, 0);
                Self::encode_scalar(entry, out)
            },
        }
    }

    /// A length-delimited field holding a range of the text.
    fn encode_span(&self, number: u32, span: Span, out: &mut Vec<u8>) -> (r: Result<(), TreeError>)
        requires
            span.start + span.length <= self.text@.len(),
        ensures
            r is Ok,
            final(out)@ == old(out)@ + span_field(number, span, self.text@),
    {
        write_tag(out, number, 2);
        write_varint(out, span.length as u64);
        let total = self.text.len();
        let start = span.start as usize;
        let end = start + span.length as usize;
        let ghost before = out@;
        let slice: &[u8] = &self.text.as_slice()[start..end];
        out.extend_from_slice(slice);
        assert(out@ =~= before + self.text@.subrange(start as int, end as int));
        Ok(())
    }

    /// Encodes the chain from `first`, which is an entry.
    fn encode_from(&self, first: u32, out: &mut Vec<u8>) -> (r: Result<(), TreeError>)
        requires
            well_formed(self.entries@, self.text@),
            first < self.entries@.len(),
            chain_size(self.entries@, self.text@, first as int) <= usize::MAX,
        ensures
            match encoding(self.entries@, self.text@, first as int) {
                Some(bytes) => r is Ok && final(out)@ == old(out)@ + bytes,
                None => r matches Err(TreeError::KindMismatch { .. }),
            },
        decreases self.entries@.len() - first, 1int,
    {
        let ghost before = out@;
        let ghost whole = encoding(self.entries@, self.text@, first as int);
        let mut cursor = first;
        while cursor != NONE
            invariant
                well_formed(self.entries@, self.text@),
                cursor == NONE || (first <= cursor < self.entries@.len()),
                first < self.entries@.len(),
                cursor != NONE ==> chain_size(self.entries@, self.text@, cursor as int) <= usize::MAX,
                whole == encoding(self.entries@, self.text@, first as int),
                whole is None ==> encoding(self.entries@, self.text@, cursor as int) is None,
                whole is Some ==> encoding(self.entries@, self.text@, cursor as int) is Some
                    && out@ + encoding(self.entries@, self.text@, cursor as int)->Some_0 == before + whole->Some_0,
            decreases if cursor == NONE { 0 } else { self.entries@.len() + 1 - cursor },
        {
            let entry = &self.entries[cursor as usize];
            assert(self.entries@[cursor as int] == *entry);
            let number = entry.number;
            if entry.flags & FLAG_PACKED != 0 {
                proof {
                    lemma_packed_end(self.entries@, self.text@, cursor as int, number);
                    lemma_packed_run_size(self.entries@, cursor as int, number);
                    lemma_chain_size_packed(self.entries@, self.text@, cursor as int);
                }
                let (payload, run_end) = self.packed_size(cursor);
                write_tag(out, number, 2);
                write_varint(out, payload as u64);
                let r = self.encode_run(cursor, run_end, out);
                if r.is_err() {
                    return r;
                }
                cursor = run_end;
            } else {
                proof {
                    lemma_chain_size_entry(self.entries@, self.text@, cursor as int);
                }
                let r = self.encode_entry(cursor, out);
                if r.is_err() {
                    return r;
                }
                cursor = entry.next;
            }
        }
        assert(out@ + Seq::<u8>::empty() =~= out@);
        Ok(())
    }

    /// Writes the elements of the packed run from `first` up to `run_end`.
    fn encode_run(&self, first: u32, run_end: u32, out: &mut Vec<u8>) -> (r: Result<(), TreeError>)
        requires
            well_formed(self.entries@, self.text@),
            first < self.entries@.len(),
            run_end == packed_size(self.entries@, first as int, self.entries@[first as int].number).1,
        ensures
            match packed_run(self.entries@, first as int, self.entries@[first as int].number) {
                Some((payload, _)) => r is Ok && final(out)@ == old(out)@ + payload,
                None => r matches Err(TreeError::KindMismatch { .. }),
            },
    {
        let number = self.entries[first as usize].number;
        let ghost before = out@;
        let ghost whole = packed_run(self.entries@, first as int, number);
        let mut element = first;
        proof {
            lemma_packed_run_size(self.entries@, first as int, number);
        }
        while element != run_end
            invariant
                well_formed(self.entries@, self.text@),
                element == NONE || element < self.entries@.len(),
                run_end == packed_size(self.entries@, element as int, number).1,
                whole == packed_run(self.entries@, first as int, number),
                whole is None ==> packed_run(self.entries@, element as int, number) is None,
                whole is Some ==> packed_run(self.entries@, element as int, number) is Some
                    && out@ + packed_run(self.entries@, element as int, number)->Some_0.0 == before + whole->Some_0.0,
            decreases if element == NONE { 0 } else { self.entries@.len() + 1 - element },
        {
            proof {
                if element != NONE && self.entries@[element as int].number == number {
                    lemma_packed_end(self.entries@, self.text@, element as int, number);
                }
            }
            let entry = &self.entries[element as usize];
            assert(self.entries@[element as int] == *entry);
            let r = Self::encode_scalar(entry, out);
            if r.is_err() {
                return r;
            }
            element = entry.next;
        }
        proof {
            if element != NONE && self.entries@[element as int].number == number {
                lemma_packed_end(self.entries@, self.text@, element as int, number);
            }
        }
        assert(out@ + Seq::<u8>::empty() =~= out@);
        Ok(())
    }

    /// Encodes a chain. Consecutive entries of a packed field are written
    /// as one packed value, as they were read.
    pub fn encode(&self, first: u32, out: &mut Vec<u8>) -> (r: Result<(), TreeError>)
        requires
            well_formed(self.entries@, self.text@),
            first == NONE || first < self.entries@.len(),
            chain_size(self.entries@, self.text@, first as int) <= usize::MAX,
        ensures
            match encoding(self.entries@, self.text@, first as int) {
                Some(bytes) => r is Ok && final(out)@ == old(out)@ + bytes,
                None => r matches Err(TreeError::KindMismatch { .. }),
            },
    {
        if first == NONE {
            assert(old(out)@ =~= old(out)@ + Seq::<u8>::empty());
            Ok(())
        } else {
            self.encode_from(first, out)
        }
    }

    /// Encoded size of a chain, without any enclosing tag.
    pub fn size(&self, first: u32) -> (size: usize)
        requires
            well_formed(self.entries@, self.text@),
            first == NONE || first < self.entries@.len(),
            chain_size(self.entries@, self.text@, first as int) <= usize::MAX,
        ensures
            size == chain_size(self.entries@, self.text@, first as int),
    {
        if first == NONE {
            0
        } else {
            self.size_from(first)
        }
    }
}

impl Entry {
    /// An entry of a field the schema does not describe.
    pub fn unknown(number: u32, value: Node) -> (entry: Entry)
        ensures
            entry == (Entry { number, message: NO_SCHEMA, slot: 0, next: NONE, flags: 0, value }),
    {
        Entry { number, message: NO_SCHEMA, slot: 0, next: NONE, flags: 0, value }
    }

    /// An entry of a schema field, with the flags that field gives it.
    pub fn known(number: u32, message: u16, slot: u16, field: Field, value: Node) -> (entry: Entry)
        ensures
            entry == (Entry { number, message, slot, next: NONE, flags: field_flags(field), value }),
    {
        let sint = match field.kind {
            Kind::Sint => true,
            _ => false,
        };
        let flags: u8 = if field.packed && field.repeated {
            if sint { 3 } else { 1 }
        } else {
            if sint { 2 } else { 0 }
        };
        Entry { number, message, slot, next: NONE, flags, value }
    }
}

impl Tree {
    /// An empty tree over `schema`.
    pub fn new(schema: &'static [Message]) -> (tree: Tree)
        ensures
            tree.schema == schema,
            tree.entries@ == Seq::<Entry>::empty(),
            tree.text@ == Seq::<u8>::empty(),
            well_formed(tree.entries@, tree.text@),
    {
        Tree { schema, entries: Vec::new(), text: Vec::new() }
    }

    /// Drops every entry and byte.
    pub fn clear(&mut self)
        ensures
            final(self).schema == old(self).schema,
            final(self).entries@ == Seq::<Entry>::empty(),
            final(self).text@ == Seq::<u8>::empty(),
    {
        self.entries.clear();
        self.text.clear();
    }

    /// Appends an entry to a chain and returns its index.
    pub fn push(&mut self, chain: &mut Chain, entry: Entry) -> (r: Result<u32, TreeError>)
        requires
            well_formed(old(self).entries@, old(self).text@),
            chain_ok(*old(chain), old(self).entries@, 0),
            fits(entry, old(self).text@),
        ensures
            final(self).schema == old(self).schema,
            final(self).text@ == old(self).text@,
            well_formed(final(self).entries@, final(self).text@),
            match r {
                Ok(index) => {
                    &&& index == old(self).entries@.len()
                    &&& final(self).entries@ == appended(old(self).entries@, *old(chain), entry)
                    &&& final(chain).first == if old(chain).first == NONE { index } else { old(chain).first }
                    &&& final(chain).last == index
                },
                Err(error) => {
                    &&& error == TreeError::TooLarge
                    &&& old(self).entries@.len() == NONE
                    &&& final(self).entries@ == old(self).entries@
                    &&& *final(chain) == *old(chain)
                },
            },
    {
        let length = self.entries.len();
        if length >= 0xffff_ffff {
            return Err(TreeError::TooLarge);
        }
        let index = length as u32;
        self.entries.push(entry);
        if chain.first == NONE {
            chain.first = index;
        } else {
            let last = chain.last as usize;
            let mut previous = self.entries[last];
            previous.next = index;
            self.entries.set(last, previous);
        }
        chain.last = index;
        Ok(index)
    }

    /// Appends bytes to the text and returns their range.
    pub fn push_bytes(&mut self, bytes: &[u8]) -> (r: Result<Span, TreeError>)
        requires
            well_formed(old(self).entries@, old(self).text@),
        ensures
            final(self).schema == old(self).schema,
            final(self).entries@ == old(self).entries@,
            well_formed(final(self).entries@, final(self).text@),
            match r {
                Ok(span) => {
                    &&& old(self).text@.len() <= u32::MAX && bytes@.len() <= u32::MAX
                    &&& span.start == old(self).text@.len() && span.length == bytes@.len()
                    &&& final(self).text@ == old(self).text@ + bytes@
                },
                Err(error) => {
                    &&& error == TreeError::TooLarge
                    &&& old(self).text@.len() > u32::MAX || bytes@.len() > u32::MAX
                    &&& final(self).text@ == old(self).text@
                },
            },
    {
        let length = self.text.len();
        if length > 0xffff_ffff || bytes.len() > 0xffff_ffff {
            return Err(TreeError::TooLarge);
        }
        let ghost before = self.text@;
        self.text.extend_from_slice(bytes);
        assert(self.text@ =~= before + bytes@);
        proof {
            lemma_longer_text(self.entries@, before, self.text@);
        }
        Ok(Span { start: length as u32, length: bytes.len() as u32 })
    }

    /// Appends an entry of a field the schema does not describe.
    pub fn push_unknown(&mut self, chain: &mut Chain, number: u32, value: Node) -> (r: Result<u32, TreeError>)
        requires
            well_formed(old(self).entries@, old(self).text@),
            chain_ok(*old(chain), old(self).entries@, 0),
            !(value is Message),
            spans_within(value, old(self).text@),
        ensures
            final(self).schema == old(self).schema,
            final(self).text@ == old(self).text@,
            well_formed(final(self).entries@, final(self).text@),
            match r {
                Ok(index) => {
                    &&& index == old(self).entries@.len()
                    &&& final(self).entries@ == appended(
                        old(self).entries@,
                        *old(chain),
                        Entry { number, message: NO_SCHEMA, slot: 0, next: NONE, flags: 0, value },
                    )
                    &&& final(chain).first == if old(chain).first == NONE { index } else { old(chain).first }
                    &&& final(chain).last == index
                },
                Err(error) => error == TreeError::TooLarge && old(self).entries@.len() == NONE
                    && final(self).entries@ == old(self).entries@,
            },
    {
        self.push(chain, Entry::unknown(number, value))
    }

    /// Appends an entry of the field at `slot` of message `message`.
    pub fn push_known(
        &mut self,
        chain: &mut Chain,
        message: u16,
        slot: u16,
        field: Field,
        number: u32,
        value: Node,
    ) -> (r: Result<u32, TreeError>)
        requires
            well_formed(old(self).entries@, old(self).text@),
            chain_ok(*old(chain), old(self).entries@, 0),
            !(value is Message),
            spans_within(value, old(self).text@),
        ensures
            final(self).schema == old(self).schema,
            final(self).text@ == old(self).text@,
            well_formed(final(self).entries@, final(self).text@),
            match r {
                Ok(index) => {
                    &&& index == old(self).entries@.len()
                    &&& final(self).entries@ == appended(
                        old(self).entries@,
                        *old(chain),
                        Entry { number, message, slot, next: NONE, flags: field_flags(field), value },
                    )
                    &&& final(chain).first == if old(chain).first == NONE { index } else { old(chain).first }
                    &&& final(chain).last == index
                },
                Err(error) => error == TreeError::TooLarge && old(self).entries@.len() == NONE
                    && final(self).entries@ == old(self).entries@,
            },
    {
        self.push(chain, Entry::known(number, message, slot, field, value))
    }
}

impl Tree {
    /// Appends an entry to a chain whose entries lie at or after `base`.
    fn append(&mut self, chain: &mut Chain, Ghost(base): Ghost<int>, entry: Entry) -> (r: Result<(), TreeError>)
        requires
            well_formed(old(self).entries@, old(self).text@),
            chain_ok(*old(chain), old(self).entries@, base),
            0 <= base <= old(self).entries@.len(),
            fits(entry, old(self).text@),
        ensures
            final(self).schema == old(self).schema,
            final(self).text@ == old(self).text@,
            well_formed(final(self).entries@, final(self).text@),
            forall|i: int| 0 <= i < base ==> final(self).entries@[i] == old(self).entries@[i],
            final(self).entries@.len() >= old(self).entries@.len(),
            chain_ok(*final(chain), final(self).entries@, base),
            old(chain).first != NONE ==> final(chain).first == old(chain).first,
            r is Ok ==> final(chain).first == (if old(chain).first == NONE {
                old(self).entries@.len() as u32
            } else {
                old(chain).first
            }),
            r is Ok ==> final(chain).first != NONE && final(chain).last == old(self).entries@.len()
                && final(self).entries@.len() == old(self).entries@.len() + 1
                && final(self).entries@[final(chain).last as int] == entry
                && final(self).entries@ == appended(old(self).entries@, *old(chain), entry),
            r is Err ==> r == Err::<(), TreeError>(TreeError::TooLarge) && old(self).entries@.len() == NONE,
    {
        match self.push(chain, entry) {
            Ok(_) => Ok(()),
            Err(error) => Err(error),
        }
    }

    /// The value of a field the schema does not describe, by wire type; a
    /// group keeps its encoded fields as bytes.
    fn raw(&mut self, value: Value<'_>) -> (r: Result<Node, TreeError>)
        requires
            well_formed(old(self).entries@, old(self).text@),
        ensures
            final(self).schema == old(self).schema,
            final(self).entries@ == old(self).entries@,
            well_formed(final(self).entries@, final(self).text@),
            extends(old(self).text@, final(self).text@),
            r matches Ok(node) ==> is_raw(node) && spans_within(node, final(self).text@),
            raw_value(value@, r, old(self).text@, final(self).text@),
            r is Err ==> r == Err::<Node, TreeError>(TreeError::TooLarge),
    {
        match value {
            Value::Varint(value) => Ok(Node::RawVarint(value)),
            Value::Fixed32(value) => Ok(Node::RawFixed32(value)),
            Value::Fixed64(value) => Ok(Node::RawFixed64(value)),
            Value::Bytes(bytes) => match self.push_bytes(bytes) {
                Ok(span) => Ok(Node::RawBytes(span)),
                Err(error) => Err(error),
            },
            Value::Group(bytes) => match self.push_bytes(bytes) {
                Ok(span) => Ok(Node::RawBytes(span)),
                Err(error) => Err(error),
            },
        }
    }

    /// Decodes `bytes` as the schema's message `message` (or as a message
    /// no schema describes) and returns the first entry of the resulting
    /// chain, or `NONE` for an empty message. What was in the tree stays.
    /// A wire error comes exactly when the message's fields cannot be read;
    /// a nested message that does not decode is kept raw. Without a schema
    /// every field is kept raw, the chain re-encodes to the fields in their
    /// shortest form (so canonical bytes come back unchanged), and running
    /// out of 32-bit ranges is the only other failure.
    #[verifier::rlimit(60)]
    pub fn decode(&mut self, bytes: &[u8], message: Option<u16>) -> (r: Result<u32, TreeError>)
        requires
            well_formed(old(self).entries@, old(self).text@),
        ensures
            final(self).schema == old(self).schema,
            well_formed(final(self).entries@, final(self).text@),
            extends(old(self).entries@, final(self).entries@),
            extends(old(self).text@, final(self).text@),
            r matches Ok(root) ==> root == NONE || old(self).entries@.len() <= root < final(self).entries@.len(),
            r matches Err(error) ==> match error {
                TreeError::Wire(wire) => raw_fields(bytes@, 0) == Err::<Seq<u8>, ProtobufError>(wire),
                TreeError::TooLarge => true,
                TreeError::KindMismatch { .. } => false,
            },
            r is Ok ==> raw_fields(bytes@, 0) is Ok,
            !describes(old(self).schema@, message) ==> match r {
                Ok(root) => raw_fields(bytes@, 0) is Ok && encoding(final(self).entries@, final(self).text@, root as int)
                    == Some(raw_fields(bytes@, 0)->Ok_0),
                Err(TreeError::Wire(error)) => raw_fields(bytes@, 0) == Err::<Seq<u8>, ProtobufError>(error),
                Err(TreeError::TooLarge) => old(self).entries@.len() + bytes@.len() >= NONE
                    || old(self).text@.len() + bytes@.len() > u32::MAX,
                Err(TreeError::KindMismatch { .. }) => false,
            },
        decreases bytes@.len(), 0int,
    {
        let ghost base = self.entries@.len() as int;
        let ghost old_entries = self.entries@;
        let ghost old_text = self.text@;
        let ghost mut acc: Seq<u8> = Seq::empty();
        let ghost mut finished = false;
        let described: Option<&Message> = match message {
            Some(index) => if (index as usize) < self.schema.len() {
                Some(&self.schema[index as usize])
            } else {
                None
            },
            None => None,
        };
        let mut chain = Chain::new();
        let mut reader = FieldReader::new(bytes);
        loop
            invariant_except_break
                !finished,
            invariant
                self.schema == old(self).schema,
                well_formed(self.entries@, self.text@),
                old_entries == old(self).entries@,
                old_text == old(self).text@,
                base == old_entries.len(),
                extends(old_entries, self.entries@),
                extends(old_text, self.text@),
                chain_ok(chain, self.entries@, base),
                reader.message() == bytes@,
                0 <= reader.at() <= bytes@.len(),
                described is None <==> !describes(self.schema@, message),
                match raw_fields(bytes@, 0) {
                    Ok(all) => raw_fields(bytes@, reader.at()) is Ok && all == acc + raw_fields(
                        bytes@,
                        reader.at(),
                    )->Ok_0,
                    Err(error) => raw_fields(bytes@, reader.at()) == Err::<Seq<u8>, ProtobufError>(error),
                },
                described is None ==> {
                    &&& raw_run(self.entries@, base)
                    &&& (chain.first == NONE <==> self.entries@.len() == base)
                    &&& chain.first != NONE ==> chain.first == base
                    &&& flat(self.entries@, self.text@, base, self.entries@.len() as int) == acc
                    &&& self.entries@.len() - base <= reader.at()
                    &&& self.text@.len() - old_text.len() <= reader.at()
                },
            ensures
                finished,
                raw_fields(bytes@, 0) is Ok,
                described is None ==> {
                    &&& raw_run(self.entries@, base)
                    &&& (chain.first == NONE <==> self.entries@.len() == base)
                    &&& chain.first != NONE ==> chain.first == base
                    &&& raw_fields(bytes@, 0) == Ok::<Seq<u8>, ProtobufError>(flat(self.entries@, self.text@, base, self.entries@.len() as int))
                },
            decreases bytes@.len() - reader.at(),
        {
            let ghost at = reader.at();
            proof {
                lemma_field_advances(bytes@, at);
                lemma_value_shorter(bytes@, at);
            }
            let field = match reader.next() {
                None => {
                    proof {
                        finished = true;
                        assert(acc + Seq::<u8>::empty() =~= acc);
                    }
                    break;
                },
                Some(Ok(field)) => field,
                Some(Err(error)) => return Err(TreeError::Wire(error)),
            };
            let ghost next = reader.at();
            let ghost entries_before = self.entries@;
            let ghost text_before = self.text@;
            let number = field.number;
            let slot: Option<(u16, usize)> = match (message, described) {
                (Some(index), Some(described)) => match described.slot(number) {
                    Some(slot) => if slot <= 0xffff {
                        Some((index, slot))
                    } else {
                        None
                    },
                    None => None,
                },
                _ => None,
            };
            match slot {
                Some((index, slot)) => {
                    let known = described.unwrap().fields[slot];
                    match self.decode_known(&mut chain, Ghost(base), index, slot as u16, known, number, field.value) {
                        Ok(()) => {},
                        Err(error) => return Err(error),
                    }
                    proof {
                        let rest = raw_fields(bytes@, next);
                        acc = acc + raw_field(number, field.value@);
                        if let Ok(all) = raw_fields(bytes@, 0) {
                            assert(all =~= acc + rest->Ok_0);
                        }
                    }
                },
                None => {
                    let value = match self.raw(field.value) {
                        Ok(value) => value,
                        Err(error) => return Err(error),
                    };
                    let ghost text_raw = self.text@;
                    match self.append(&mut chain, Ghost(base), Entry::unknown(number, value)) {
                        Ok(()) => {},
                        Err(error) => return Err(error),
                    }
                    proof {
                        if described is None {
                            let length = entries_before.len() as int;
                            lemma_flat_frame(entries_before, text_before, self.entries@, self.text@, base, length);
                            lemma_raw_entry(number, field.value@, value, text_before, text_raw);
                            assert(self.entries@[length] == (Entry { number, message: NO_SCHEMA, slot: 0, next: NONE, flags: 0, value }));
                            assert(flat(self.entries@, self.text@, base, length + 1) == flat(
                                self.entries@,
                                self.text@,
                                base,
                                length,
                            ) + entry_field(self.entries@[length], self.text@));
                        }
                        let rest = raw_fields(bytes@, next);
                        acc = acc + raw_field(number, field.value@);
                        if let Ok(all) = raw_fields(bytes@, 0) {
                            assert(all =~= acc + rest->Ok_0);
                        }
                    }
                },
            }
        }
        proof {
            if described is None {
                if chain.first != NONE {
                    lemma_raw_run_encoding(self.entries@, self.text@, base, base);
                    lemma_flat_from(self.entries@, self.text@, base);
                }
            }
        }
        Ok(chain.first)
    }
    /// Appends the entries of one field the schema describes: a nested
    /// message as its own chain (kept raw when it does not decode), a
    /// packed repeated scalar as one entry per element, and a value of the
    /// wrong wire type raw.
    #[verifier::rlimit(100)]
    #[verifier::spinoff_prover]
    fn decode_known(
        &mut self,
        chain: &mut Chain,
        Ghost(base): Ghost<int>,
        message: u16,
        slot: u16,
        known: Field,
        number: u32,
        value: Value<'_>,
    ) -> (r: Result<(), TreeError>)
        requires
            well_formed(old(self).entries@, old(self).text@),
            chain_ok(*old(chain), old(self).entries@, base),
            0 <= base <= old(self).entries@.len(),
        ensures
            final(self).schema == old(self).schema,
            well_formed(final(self).entries@, final(self).text@),
            forall|i: int| 0 <= i < base ==> final(self).entries@[i] == old(self).entries@[i],
            final(self).entries@.len() >= old(self).entries@.len(),
            extends(old(self).text@, final(self).text@),
            chain_ok(*final(chain), final(self).entries@, base),
            old(chain).first != NONE ==> final(chain).first == old(chain).first,
            r is Err ==> r == Err::<(), TreeError>(TreeError::TooLarge),
            scalar_node(known.kind, value@) matches Some(node) ==> final(self).text@ == old(self).text@ && (r is Ok
                ==> final(self).entries@ == appended(
                old(self).entries@,
                *old(chain),
                Entry { number, message, slot, next: NONE, flags: field_flags(known), value: node },
            )),
            value@ matches ValueView::Bytes(bytes) ==> (r is Ok ==> match known.kind {
                Kind::Bytes => kept_bytes(
                    old(self).entries@, old(self).text@, final(self).entries@, final(self).text@, *old(chain),
                    Entry { number, message, slot, next: NONE, flags: field_flags(known), value: Node::Bytes(Span { start: old(self).text@.len() as u32, length: bytes.len() as u32 }) },
                    bytes,
                ),
                Kind::String => kept_bytes(
                    old(self).entries@, old(self).text@, final(self).entries@, final(self).text@, *old(chain),
                    Entry { number, message, slot, next: NONE, flags: field_flags(known), value: if valid_utf8(bytes) {
                        Node::Str(Span { start: old(self).text@.len() as u32, length: bytes.len() as u32 })
                    } else {
                        Node::RawBytes(Span { start: old(self).text@.len() as u32, length: bytes.len() as u32 })
                    } },
                    bytes,
                ),
                Kind::Reference => match spec_reference_identifier(bytes) {
                    Some(identifier) => final(self).text@ == old(self).text@ && final(self).entries@ == appended(
                        old(self).entries@,
                        *old(chain),
                        Entry { number, message, slot, next: NONE, flags: field_flags(known), value: Node::Reference(identifier) },
                    ),
                    None => kept_bytes(
                        old(self).entries@, old(self).text@, final(self).entries@, final(self).text@, *old(chain),
                        Entry { number, message, slot, next: NONE, flags: field_flags(known), value: Node::RawBytes(Span { start: old(self).text@.len() as u32, length: bytes.len() as u32 }) },
                        bytes,
                    ),
                },
                _ => true,
            }),
            ({
                &&& varint_kind(known.kind)
                &&& known.repeated
                &&& value@ matches ValueView::Bytes(bytes)
                &&& spec_packed_varints(bytes, 0) is Ok
            }) ==> final(self).text@ == old(self).text@ && (r is Ok ==> final(self).entries@ == appended_all(
                old(self).entries@,
                *old(chain),
                packed_entries(number, message, slot, known, spec_packed_varints(value_bytes(value@), 0)->Ok_0),
            )),
            ({
                &&& (known.kind == Kind::Float || known.kind == Kind::Fixed32)
                &&& known.repeated
                &&& value@ matches ValueView::Bytes(bytes)
                &&& bytes.len() % 4 == 0
            }) ==> final(self).text@ == old(self).text@ && (r is Ok ==> final(self).entries@ == appended_all(
                old(self).entries@,
                *old(chain),
                packed_fixed_entries(number, message, slot, known, value_bytes(value@), 4, known.kind == Kind::Float),
            )),
            ({
                &&& (known.kind == Kind::Double || known.kind == Kind::Fixed64)
                &&& known.repeated
                &&& value@ matches ValueView::Bytes(bytes)
                &&& bytes.len() % 8 == 0
            }) ==> final(self).text@ == old(self).text@ && (r is Ok ==> final(self).entries@ == appended_all(
                old(self).entries@,
                *old(chain),
                packed_fixed_entries(number, message, slot, known, value_bytes(value@), 8, known.kind == Kind::Double),
            )),
        decreases value_len(value@), 1int,
    {
        let node = match (known.kind, value) {
            (Kind::Int, Value::Varint(value)) => Node::Int(value as i64),
            (Kind::Enum, Value::Varint(value)) => Node::Int(value as i64),
            (Kind::Uint, Value::Varint(value)) => Node::Uint(value),
            (Kind::Sint, Value::Varint(value)) => {
                let decoded = zigzag_decode(value);
                proof {
                    lemma_unzigzag(value, decoded);
                }
                Node::Int(decoded)
            },
            (Kind::Bool, Value::Varint(value)) => Node::Bool(value != 0),
            (Kind::Fixed32, Value::Fixed32(value)) => Node::Fixed32(value),
            (Kind::Fixed64, Value::Fixed64(value)) => Node::Fixed64(value),
            (Kind::Float, Value::Fixed32(value)) => Node::Float(value),
            (Kind::Double, Value::Fixed64(value)) => Node::Double(value),
            (Kind::String, Value::Bytes(bytes)) => {
                let valid = text_of(bytes).is_some();
                match self.push_bytes(bytes) {
                    Ok(span) => if valid {
                        Node::Str(span)
                    } else {
                        Node::RawBytes(span)
                    },
                    Err(error) => return Err(error),
                }
            },
            (Kind::Bytes, Value::Bytes(bytes)) => match self.push_bytes(bytes) {
                Ok(span) => Node::Bytes(span),
                Err(error) => return Err(error),
            },
            (Kind::Reference, Value::Bytes(bytes)) => match reference_identifier(bytes) {
                Some(identifier) => Node::Reference(identifier),
                None => match self.push_bytes(bytes) {
                    Ok(span) => Node::RawBytes(span),
                    Err(error) => return Err(error),
                },
            },
            (Kind::Message(nested), Value::Bytes(bytes)) => {
                // The entry goes first so that the nested chain follows it;
                // on a failed nested decode, what was added is dropped and
                // the bytes are kept raw.
                match self.append(chain, Ghost(base), Entry::known(number, message, slot, known, Node::Message(NONE))) {
                    Ok(()) => {},
                    Err(error) => return Err(error),
                }
                let entry_index = chain.last as usize;
                let entries_mark = self.entries.len();
                let text_mark = self.text.len();
                let ghost marked_entries = self.entries@;
                let ghost marked_text = self.text@;
                match self.decode(bytes, Some(nested)) {
                    Ok(first) => {
                        let mut entry = self.entries[entry_index];
                        entry.value = Node::Message(first);
                        self.entries.set(entry_index, entry);
                    },
                    Err(_) => {
                        self.entries.truncate(entries_mark);
                        self.text.truncate(text_mark);
                        assert(self.entries@ =~= marked_entries);
                        assert(self.text@ =~= marked_text);
                        let span = match self.push_bytes(bytes) {
                            Ok(span) => span,
                            Err(error) => return Err(error),
                        };
                        let mut entry = self.entries[entry_index];
                        entry.value = Node::RawBytes(span);
                        self.entries.set(entry_index, entry);
                    },
                }
                return Ok(());
            },
            (Kind::Float, Value::Bytes(bytes)) => if known.repeated && bytes.len() % 4 == 0 {
                return self.append_fixed32(chain, Ghost(base), message, slot, known, number, bytes, true);
            } else {
                return self.append_raw(chain, Ghost(base), number, Value::Bytes(bytes));
            },
            (Kind::Fixed32, Value::Bytes(bytes)) => if known.repeated && bytes.len() % 4 == 0 {
                return self.append_fixed32(chain, Ghost(base), message, slot, known, number, bytes, false);
            } else {
                return self.append_raw(chain, Ghost(base), number, Value::Bytes(bytes));
            },
            (Kind::Double, Value::Bytes(bytes)) => if known.repeated && bytes.len() % 8 == 0 {
                return self.append_fixed64(chain, Ghost(base), message, slot, known, number, bytes, true);
            } else {
                return self.append_raw(chain, Ghost(base), number, Value::Bytes(bytes));
            },
            (Kind::Fixed64, Value::Bytes(bytes)) => if known.repeated && bytes.len() % 8 == 0 {
                return self.append_fixed64(chain, Ghost(base), message, slot, known, number, bytes, false);
            } else {
                return self.append_raw(chain, Ghost(base), number, Value::Bytes(bytes));
            },
            (kind, Value::Bytes(bytes)) => {
                let varint_kind = match kind {
                    Kind::Int | Kind::Uint | Kind::Sint | Kind::Bool | Kind::Enum => true,
                    _ => false,
                };
                if varint_kind && known.repeated {
                    match packed_varints(bytes) {
                        Ok(values) => return self.append_varints(chain, Ghost(base), message, slot, known, number, &values),
                        Err(_) => match self.push_bytes(bytes) {
                            Ok(span) => Node::RawBytes(span),
                            Err(error) => return Err(error),
                        },
                    }
                } else {
                    return self.append_raw(chain, Ghost(base), number, Value::Bytes(bytes));
                }
            },
            (_, value) => {
                return self.append_raw(chain, Ghost(base), number, value);
            },
        };
        self.append(chain, Ghost(base), Entry::known(number, message, slot, known, node))
    }

    /// Appends a value raw, as an entry of a field the schema does not describe.
    fn append_raw(&mut self, chain: &mut Chain, Ghost(base): Ghost<int>, number: u32, value: Value<'_>) -> (r: Result<(), TreeError>)
        requires
            well_formed(old(self).entries@, old(self).text@),
            chain_ok(*old(chain), old(self).entries@, base),
            0 <= base <= old(self).entries@.len(),
        ensures
            final(self).schema == old(self).schema,
            well_formed(final(self).entries@, final(self).text@),
            forall|i: int| 0 <= i < base ==> final(self).entries@[i] == old(self).entries@[i],
            final(self).entries@.len() >= old(self).entries@.len(),
            extends(old(self).text@, final(self).text@),
            chain_ok(*final(chain), final(self).entries@, base),
            old(chain).first != NONE ==> final(chain).first == old(chain).first,
            r is Err ==> r == Err::<(), TreeError>(TreeError::TooLarge),
    {
        let node = match self.raw(value) {
            Ok(node) => node,
            Err(error) => return Err(error),
        };
        self.append(chain, Ghost(base), Entry::unknown(number, node))
    }

    /// Appends one entry per packed varint.
    fn append_varints(
        &mut self,
        chain: &mut Chain,
        Ghost(base): Ghost<int>,
        message: u16,
        slot: u16,
        known: Field,
        number: u32,
        values: &Vec<u64>,
    ) -> (r: Result<(), TreeError>)
        requires
            well_formed(old(self).entries@, old(self).text@),
            chain_ok(*old(chain), old(self).entries@, base),
            0 <= base <= old(self).entries@.len(),
        ensures
            final(self).schema == old(self).schema,
            well_formed(final(self).entries@, final(self).text@),
            forall|i: int| 0 <= i < base ==> final(self).entries@[i] == old(self).entries@[i],
            final(self).entries@.len() >= old(self).entries@.len(),
            final(self).text@ == old(self).text@,
            chain_ok(*final(chain), final(self).entries@, base),
            old(chain).first != NONE ==> final(chain).first == old(chain).first,
            r is Err ==> r == Err::<(), TreeError>(TreeError::TooLarge),
            varint_kind(known.kind) ==> (r is Ok ==> final(self).entries@ == appended_all(
                old(self).entries@,
                *old(chain),
                packed_entries(number, message, slot, known, values@),
            )),
    {
        let ghost start = self.entries@.len() as int;
        let mut index: usize = 0;
        while index < values.len()
            invariant
                self.schema == old(self).schema,
                well_formed(self.entries@, self.text@),
                forall|i: int| 0 <= i < base ==> self.entries@[i] == old(self).entries@[i],
                self.entries@.len() >= old(self).entries@.len(),
                self.text@ == old(self).text@,
                chain_ok(*chain, self.entries@, base),
                0 <= base <= old(self).entries@.len(),
                old(chain).first != NONE ==> chain.first == old(chain).first,
                index <= values@.len(),
                start == old(self).entries@.len(),
                self.entries@.len() == start + index,
                *chain == chain_after(*old(chain), start, index as nat),
                varint_kind(known.kind) ==> self.entries@ == appended_all(
                    old(self).entries@,
                    *old(chain),
                    packed_entries(number, message, slot, known, values@.subrange(0, index as int)),
                ),
            decreases values@.len() - index,
        {
            let value = values[index];
            let node = match known.kind {
                Kind::Uint => Node::Uint(value),
                Kind::Sint => {
                    let decoded = zigzag_decode(value);
                    proof {
                        lemma_unzigzag(value, decoded);
                    }
                    Node::Int(decoded)
                },
                Kind::Bool => Node::Bool(value != 0),
                _ => Node::Int(value as i64),
            };
            let ghost items = packed_entries(number, message, slot, known, values@.subrange(0, index as int));
            let ghost more = packed_entries(number, message, slot, known, values@.subrange(0, index + 1));
            let ghost before = self.entries@;
            let ghost chain_before = *chain;
            match self.append(chain, Ghost(base), Entry::known(number, message, slot, known, node)) {
                Ok(()) => {},
                Err(error) => return Err(error),
            }
            proof {
                if varint_kind(known.kind) {
                    assert(more.drop_last() =~= items);
                    assert(more.last() == (Entry { number, message, slot, next: NONE, flags: field_flags(known), value: node }));
                }
            }
            index += 1;
        }
        proof {
            assert(values@.subrange(0, index as int) =~= values@);
        }
        Ok(())
    }

    /// Appends one entry per four bytes, as floats or as fixed-width words.
    fn append_fixed32(
        &mut self,
        chain: &mut Chain,
        Ghost(base): Ghost<int>,
        message: u16,
        slot: u16,
        known: Field,
        number: u32,
        bytes: &[u8],
        float: bool,
    ) -> (r: Result<(), TreeError>)
        requires
            well_formed(old(self).entries@, old(self).text@),
            chain_ok(*old(chain), old(self).entries@, base),
            0 <= base <= old(self).entries@.len(),
            bytes@.len() % 4 == 0,
        ensures
            final(self).schema == old(self).schema,
            well_formed(final(self).entries@, final(self).text@),
            forall|i: int| 0 <= i < base ==> final(self).entries@[i] == old(self).entries@[i],
            final(self).entries@.len() >= old(self).entries@.len(),
            final(self).text@ == old(self).text@,
            chain_ok(*final(chain), final(self).entries@, base),
            old(chain).first != NONE ==> final(chain).first == old(chain).first,
            r is Err ==> r == Err::<(), TreeError>(TreeError::TooLarge),
            r is Ok ==> final(self).entries@ == appended_all(
                old(self).entries@,
                *old(chain),
                packed_fixed_entries(number, message, slot, known, bytes@, 4, float),
            ),
    {
        let ghost start = self.entries@.len() as int;
        let mut offset: usize = 0;
        while offset < bytes.len()
            invariant
                start == old(self).entries@.len(),
                self.entries@.len() == start + offset / 4,
                *chain == chain_after(*old(chain), start, (offset / 4) as nat),
                self.entries@ == appended_all(
                    old(self).entries@,
                    *old(chain),
                    packed_fixed_entries(number, message, slot, known, bytes@.subrange(0, offset as int), 4, float),
                ),
                self.schema == old(self).schema,
                well_formed(self.entries@, self.text@),
                forall|i: int| 0 <= i < base ==> self.entries@[i] == old(self).entries@[i],
                self.entries@.len() >= old(self).entries@.len(),
                self.text@ == old(self).text@,
                chain_ok(*chain, self.entries@, base),
                0 <= base <= old(self).entries@.len(),
                old(chain).first != NONE ==> chain.first == old(chain).first,
                offset <= bytes@.len(),
                offset % 4 == 0,
                bytes@.len() % 4 == 0,
            decreases bytes@.len() - offset,
        {
            let bits = u32_from_le_bytes(slice_of(bytes, offset, offset + 4));
            let node = if float {
                Node::Float(bits)
            } else {
                Node::Fixed32(bits)
            };
            let ghost items = packed_fixed_entries(number, message, slot, known, bytes@.subrange(0, offset as int), 4, float);
            let ghost more = packed_fixed_entries(number, message, slot, known, bytes@.subrange(0, offset + 4), 4, float);
            match self.append(chain, Ghost(base), Entry::known(number, message, slot, known, node)) {
                Ok(()) => {},
                Err(error) => return Err(error),
            }
            proof {
                let n = offset as int / 4;
                assert(offset as int == 4 * n);
                assert((offset + 4) as int / 4 == n + 1);
                assert forall|i: int| 0 <= i < n implies #[trigger] more[i] == items[i] by {
                    assert(bytes@.subrange(0, offset + 4).subrange(4 * i, 4 * i + 4) =~= bytes@.subrange(0, offset as int).subrange(4 * i, 4 * i + 4));
                }
                assert(more.drop_last() =~= items);
                assert(bytes@.subrange(0, offset + 4).subrange(offset as int, offset + 4) =~= bytes@.subrange(offset as int, offset + 4));
                assert(more.last() == (Entry { number, message, slot, next: NONE, flags: field_flags(known), value: node }));
            }
            offset += 4;
        }
        assert(bytes@.subrange(0, offset as int) =~= bytes@);
        Ok(())
    }

    /// Appends one entry per eight bytes, as doubles or as fixed-width words.
    fn append_fixed64(
        &mut self,
        chain: &mut Chain,
        Ghost(base): Ghost<int>,
        message: u16,
        slot: u16,
        known: Field,
        number: u32,
        bytes: &[u8],
        double: bool,
    ) -> (r: Result<(), TreeError>)
        requires
            well_formed(old(self).entries@, old(self).text@),
            chain_ok(*old(chain), old(self).entries@, base),
            0 <= base <= old(self).entries@.len(),
            bytes@.len() % 8 == 0,
        ensures
            final(self).schema == old(self).schema,
            well_formed(final(self).entries@, final(self).text@),
            forall|i: int| 0 <= i < base ==> final(self).entries@[i] == old(self).entries@[i],
            final(self).entries@.len() >= old(self).entries@.len(),
            final(self).text@ == old(self).text@,
            chain_ok(*final(chain), final(self).entries@, base),
            old(chain).first != NONE ==> final(chain).first == old(chain).first,
            r is Err ==> r == Err::<(), TreeError>(TreeError::TooLarge),
            r is Ok ==> final(self).entries@ == appended_all(
                old(self).entries@,
                *old(chain),
                packed_fixed_entries(number, message, slot, known, bytes@, 8, double),
            ),
    {
        let ghost start = self.entries@.len() as int;
        let mut offset: usize = 0;
        while offset < bytes.len()
            invariant
                start == old(self).entries@.len(),
                self.entries@.len() == start + offset / 8,
                *chain == chain_after(*old(chain), start, (offset / 8) as nat),
                self.entries@ == appended_all(
                    old(self).entries@,
                    *old(chain),
                    packed_fixed_entries(number, message, slot, known, bytes@.subrange(0, offset as int), 8, double),
                ),
                self.schema == old(self).schema,
                well_formed(self.entries@, self.text@),
                forall|i: int| 0 <= i < base ==> self.entries@[i] == old(self).entries@[i],
                self.entries@.len() >= old(self).entries@.len(),
                self.text@ == old(self).text@,
                chain_ok(*chain, self.entries@, base),
                0 <= base <= old(self).entries@.len(),
                old(chain).first != NONE ==> chain.first == old(chain).first,
                offset <= bytes@.len(),
                offset % 8 == 0,
                bytes@.len() % 8 == 0,
            decreases bytes@.len() - offset,
        {
            let bits = u64_from_le_bytes(slice_of(bytes, offset, offset + 8));
            let node = if double {
                Node::Double(bits)
            } else {
                Node::Fixed64(bits)
            };
            let ghost items = packed_fixed_entries(number, message, slot, known, bytes@.subrange(0, offset as int), 8, double);
            let ghost more = packed_fixed_entries(number, message, slot, known, bytes@.subrange(0, offset + 8), 8, double);
            match self.append(chain, Ghost(base), Entry::known(number, message, slot, known, node)) {
                Ok(()) => {},
                Err(error) => return Err(error),
            }
            proof {
                let n = offset as int / 8;
                assert(offset as int == 8 * n);
                assert((offset + 8) as int / 8 == n + 1);
                assert forall|i: int| 0 <= i < n implies #[trigger] more[i] == items[i] by {
                    assert(bytes@.subrange(0, offset + 8).subrange(8 * i, 8 * i + 8) =~= bytes@.subrange(0, offset as int).subrange(8 * i, 8 * i + 8));
                }
                assert(more.drop_last() =~= items);
                assert(bytes@.subrange(0, offset + 8).subrange(offset as int, offset + 8) =~= bytes@.subrange(offset as int, offset + 8));
                assert(more.last() == (Entry { number, message, slot, next: NONE, flags: field_flags(known), value: node }));
            }
            offset += 8;
        }
        assert(bytes@.subrange(0, offset as int) =~= bytes@);
        Ok(())
    }
}

/// `bytes[start..end]`.
fn slice_of(bytes: &[u8], start: usize, end: usize) -> (out: &[u8])
    requires
        start <= end <= bytes@.len(),
    ensures
        out@ == bytes@.subrange(start as int, end as int),
{
    &bytes[start..end]
}

impl Tree {
    /// The schema field of an entry, when it has one.
    pub fn field(&self, entry: &Entry) -> (field: Option<Field>)
        ensures
            match field {
                Some(found) => {
                    &&& entry.message != NO_SCHEMA
                    &&& entry.message < self.schema@.len()
                    &&& entry.slot < self.schema@[entry.message as int].fields@.len()
                    &&& found == self.schema@[entry.message as int].fields@[entry.slot as int]
                },
                None => entry.message == NO_SCHEMA || entry.message >= self.schema@.len()
                    || entry.slot >= self.schema@[entry.message as int].fields@.len(),
            },
    {
        if entry.message == NO_SCHEMA {
            return None;
        }
        let index = entry.message as usize;
        if index >= self.schema.len() {
            return None;
        }
        let message = &self.schema[index];
        let slot = entry.slot as usize;
        if slot >= message.fields.len() {
            return None;
        }
        Some(message.fields[slot])
    }

    /// The bytes of a range of the text.
    pub fn bytes(&self, span: Span) -> (bytes: &[u8])
        requires
            span.start + span.length <= self.text@.len(),
        ensures
            bytes@ == self.text@.subrange(span.start as int, span.start + span.length),
    {
        let total = self.text.len();
        let start = span.start as usize;
        let end = start + span.length as usize;
        slice_of(self.text.as_slice(), start, end)
    }

    /// A range of the text as a string; empty when it is not UTF-8, which
    /// a string decoded from a stream always is.
    pub fn str(&self, span: Span) -> (text: &str)
        requires
            span.start + span.length <= self.text@.len(),
        ensures
            valid_utf8(self.text@.subrange(span.start as int, span.start + span.length)) ==> text.spec_bytes()
                == self.text@.subrange(span.start as int, span.start + span.length),
            !valid_utf8(self.text@.subrange(span.start as int, span.start + span.length)) ==> text@.len() == 0,
    {
        match text_of(self.bytes(span)) {
            Some(text) => text,
            None => {
                let empty = "";
                proof {
                    reveal_strlit("");
                }
                empty
            },
        }
    }

    /// The entries of a chain, from its first.
    pub fn chain(&self, first: u32) -> (indices: Vec<u32>)
        requires
            well_formed(self.entries@, self.text@),
            first == NONE || first < self.entries@.len(),
        ensures
            indices@ == chain_of(self.entries@, first as int),
    {
        let mut indices: Vec<u32> = Vec::new();
        let mut cursor = first;
        while cursor != NONE
            invariant
                well_formed(self.entries@, self.text@),
                cursor == NONE || cursor < self.entries@.len(),
                chain_of(self.entries@, first as int) == indices@ + chain_of(self.entries@, cursor as int),
            decreases if cursor == NONE { 0 } else { self.entries@.len() + 1 - cursor },
        {
            let entry = &self.entries[cursor as usize];
            assert(self.entries@[cursor as int] == *entry);
            let ghost before = indices@;
            indices.push(cursor);
            assert(before + chain_of(self.entries@, cursor as int) =~= indices@ + chain_of(
                self.entries@,
                entry.next as int,
            ));
            cursor = entry.next;
        }
        assert(indices@ + Seq::<u32>::empty() =~= indices@);
        indices
    }
}

/// The entries of the chain from `cursor`, following the links.
pub open spec fn chain_of(entries: Seq<Entry>, cursor: int) -> Seq<u32>
    decreases entries.len() - cursor,
{
    if cursor < 0 || cursor >= entries.len() {
        Seq::empty()
    } else if cursor < entries[cursor].next < entries.len() {
        seq![cursor as u32] + chain_of(entries, entries[cursor].next as int)
    } else {
        seq![cursor as u32]
    }
}

/// A message no schema describes, decoded from bytes that are canonical
/// (each field written in its shortest form, no group), re-encodes to
/// exactly those bytes.
pub proof fn lemma_canonical_round_trip(entries: Seq<Entry>, text: Seq<u8>, root: u32, bytes: Seq<u8>)
    requires
        raw_fields(bytes, 0) == Ok::<Seq<u8>, ProtobufError>(bytes),
        encoding(entries, text, root as int) == Some(raw_fields(bytes, 0)->Ok_0),
    ensures
        encoding(entries, text, root as int) == Some(bytes),
{
}

// ----- the size of an encoding -----

/// A varint takes as many bytes as its size says.
pub proof fn lemma_varint_len(value: nat)
    ensures
        spec_varint_bytes(value).len() == spec_varint_size(value),
    decreases value,
{
    if value >= 0x80 {
        lemma_varint_len(value / 128);
    }
}

/// The wire type in a tag's low bits does not change its size.
proof fn lemma_tag_size(number: u32, wire_type: u8)
    requires
        wire_type < 8,
    ensures
        tag_bytes(number, wire_type).len() == spec_varint_size(spec_tag(number, 0)),
{
    lemma_varint_len(spec_tag(number, wire_type));
    let a = spec_tag(number, wire_type);
    let b = spec_tag(number, 0);
    if a >= 0x80 {
        assert(b >= 0x80);
        assert(a / 128 == b / 128);
    } else {
        assert(b < 0x80);
    }
}

/// The payload a packed run writes is as long as its size says.
proof fn lemma_packed_run_size(entries: Seq<Entry>, cursor: int, number: u32)
    ensures
        packed_run(entries, cursor, number) matches Some((payload, end)) ==> payload.len() == packed_size(
            entries,
            cursor,
            number,
        ).0 && end == packed_size(entries, cursor, number).1,
    decreases entries.len() - cursor,
{
    if 0 <= cursor < entries.len() && entries[cursor].number == number {
        let next = entries[cursor].next as int;
        if cursor < next < entries.len() {
            lemma_packed_run_size(entries, next, number);
        }
    }
}

/// A chain's size is the length of its encoding.
pub proof fn lemma_encoding_size(entries: Seq<Entry>, text: Seq<u8>, cursor: int)
    requires
        well_formed(entries, text),
    ensures
        encoding(entries, text, cursor) matches Some(bytes) ==> bytes.len() == chain_size(entries, text, cursor),
    decreases entries.len() - cursor,
{
    if 0 <= cursor < entries.len() {
        let entry = entries[cursor];
        let number = entry.number;
        lemma_tag_size(number, 0);
        lemma_tag_size(number, 1);
        lemma_tag_size(number, 2);
        lemma_tag_size(number, 5);
        lemma_tag_size(1, 0);
        vstd::bytes::lemma_auto_spec_u32_to_from_le_bytes();
        vstd::bytes::lemma_auto_spec_u64_to_from_le_bytes();
        if entry.flags & FLAG_PACKED != 0 {
            lemma_packed_run_size(entries, cursor, number);
            if let Some((payload, end)) = packed_run(entries, cursor, number) {
                lemma_varint_len(payload.len());
                if cursor < end < entries.len() {
                    lemma_encoding_size(entries, text, end);
                }
            }
        } else {
            match entry.value {
                Node::Str(span) => lemma_varint_len(span.length as nat),
                Node::Bytes(span) => lemma_varint_len(span.length as nat),
                Node::RawBytes(span) => lemma_varint_len(span.length as nat),
                Node::Reference(identifier) => {
                    lemma_varint_len(1 + spec_varint_size(identifier as nat));
                    lemma_varint_len(identifier as nat);
                },
                Node::Message(first) => {
                    if cursor < first < entries.len() {
                        lemma_encoding_size(entries, text, first as int);
                        if let Some(inner) = encoding(entries, text, first as int) {
                            lemma_varint_len(inner.len());
                        }
                    } else {
                        lemma_varint_len(0);
                    }
                },
                Node::Int(value) => {
                    lemma_varint_len(spec_zigzag(value as int) as nat);
                    lemma_varint_len((value as u64) as nat);
                },
                Node::Uint(value) => lemma_varint_len(value as nat),
                Node::RawVarint(value) => lemma_varint_len(value as nat),
                Node::Bool(value) => lemma_varint_len(if value { 1 } else { 0 }),
                _ => {},
            }
            let next = entry.next as int;
            if cursor < next < entries.len() {
                lemma_encoding_size(entries, text, next);
            }
        }
    }
}

} // verus!
