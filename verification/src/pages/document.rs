//! Reading a Pages document's attribute tables and cell records from their
//! encoded bytes, and looking positions up in the tables. Positions are
//! counted in UTF-16 units, as Pages counts characters.

use vstd::prelude::*;
use vstd::string::StringSliceAdditionalSpecFns;
use vstd::bytes::{spec_u32_from_le_bytes, spec_u64_from_le_bytes, u32_from_le_bytes, u64_from_le_bytes};
use vstd::bytes::lemma_auto_spec_u32_to_from_le_bytes;
use crate::pages::{text_cell_bytes, utf16_units};
use crate::protobuf::{lemma_field_advances, spec_read_field, FieldReader, Value, ValueView};

verus! {

// ----- fields as the reader hands them out -----

/// The fields of a message from `pos` on, as the reader hands them out: up
/// to the end, or up to the first one that does not read, where the reader
/// stops.
pub open spec fn readable_fields(bytes: Seq<u8>, pos: int) -> Seq<(u32, ValueView)>
    decreases bytes.len() - pos,
{
    if pos >= bytes.len() {
        Seq::empty()
    } else {
        proof {
            lemma_field_advances(bytes, pos);
        }
        match spec_read_field(bytes, pos) {
            Ok(Some((number, value, next))) => seq![(number, value)] + readable_fields(bytes, next),
            _ => Seq::empty(),
        }
    }
}

/// One read of the reader, seen through `readable_fields`: a field read
/// at `at` is the first of the fields from `at`, and the rest come from
/// where it ends; anything else ends them.
proof fn lemma_readable_step(bytes: Seq<u8>, at: int)
    requires
        0 <= at <= bytes.len(),
    ensures
        spec_read_field(bytes, at) matches Ok(Some((number, value, next))) ==> at < next <= bytes.len()
            && readable_fields(bytes, at) == seq![(number, value)] + readable_fields(bytes, next),
        !(spec_read_field(bytes, at) is Ok && spec_read_field(bytes, at)->Ok_0 is Some) ==> readable_fields(
            bytes,
            at,
        ) == Seq::<(u32, ValueView)>::empty(),
{
    lemma_field_advances(bytes, at);
}

// ----- attribute tables -----

/// A run of an attribute table: from `start` to the next entry, with the
/// object it refers to, if any.
#[derive(Debug, Clone, Copy, PartialEq, Eq, Structural)]
pub struct Span {
    pub start: usize,
    pub object: Option<u64>,
}

/// The identifier of a `TSP.Reference`: its first field 1 that is a varint.
pub open spec fn first_identifier(fields: Seq<(u32, ValueView)>) -> Option<u64>
    decreases fields.len(),
{
    if fields.len() == 0 {
        None
    } else if fields[0].0 == 1 && fields[0].1 is Varint {
        Some(fields[0].1->Varint_0)
    } else {
        first_identifier(fields.drop_first())
    }
}

/// An attribute table entry read field by field: `character_index` (field
/// 1, a varint) and `object` (field 2, a reference); a later field of the
/// same number replaces an earlier one.
pub open spec fn entry_span(fields: Seq<(u32, ValueView)>) -> Span
    decreases fields.len(),
{
    if fields.len() == 0 {
        Span { start: 0, object: None }
    } else {
        let before = entry_span(fields.drop_last());
        let (number, value) = fields.last();
        if number == 1 && value is Varint {
            Span { start: (value->Varint_0) as usize, object: before.object }
        } else if number == 2 && value is Bytes {
            Span { start: before.start, object: first_identifier(readable_fields(value->Bytes_0, 0)) }
        } else {
            before
        }
    }
}

/// The spans of an attribute table: one per entry (field 1, a message).
pub open spec fn table_spans(fields: Seq<(u32, ValueView)>) -> Seq<Span>
    decreases fields.len(),
{
    if fields.len() == 0 {
        Seq::empty()
    } else {
        let before = table_spans(fields.drop_last());
        let (number, value) = fields.last();
        if number == 1 && value is Bytes {
            before.push(entry_span(readable_fields(value->Bytes_0, 0)))
        } else {
            before
        }
    }
}

/// The identifier a reference's bytes hold.
fn reference_object(reference: &[u8]) -> (identifier: Option<u64>)
    ensures
        identifier == first_identifier(readable_fields(reference@, 0)),
{
    let mut reader = FieldReader::new(reference);
    loop
        invariant
            reader.message() == reference@,
            0 <= reader.at() <= reference@.len(),
            first_identifier(readable_fields(reference@, 0)) == first_identifier(
                readable_fields(reference@, reader.at()),
            ),
        decreases reference@.len() - reader.at(),
    {
        let ghost at = reader.at();
        proof {
            lemma_readable_step(reference@, at);
        }
        match reader.next() {
            Some(Ok(field)) => {
                proof {
                    let rest = readable_fields(reference@, reader.at());
                    assert((seq![(field.number, field.value@)] + rest).drop_first() =~= rest);
                }
                if field.number == 1 {
                    if let Value::Varint(identifier) = field.value {
                        return Some(identifier);
                    }
                }
            },
            _ => {
                return None;
            },
        }
    }
}

/// One entry of an attribute table, from its bytes.
fn read_entry_span(entry: &[u8]) -> (span: Span)
    ensures
        span == entry_span(readable_fields(entry@, 0)),
{
    let mut start: usize = 0;
    let mut object: Option<u64> = None;
    let mut reader = FieldReader::new(entry);
    let ghost mut done: Seq<(u32, ValueView)> = Seq::empty();
    loop
        invariant
            reader.message() == entry@,
            0 <= reader.at() <= entry@.len(),
            readable_fields(entry@, 0) == done + readable_fields(entry@, reader.at()),
            entry_span(done) == (Span { start, object }),
        ensures
            readable_fields(entry@, 0) == done,
            entry_span(done) == (Span { start, object }),
        decreases entry@.len() - reader.at(),
    {
        let ghost at = reader.at();
        proof {
            lemma_readable_step(entry@, at);
        }
        match reader.next() {
            Some(Ok(field)) => {
                let ghost before = done;
                proof {
                    done = done.push((field.number, field.value@));
                    assert(done.drop_last() =~= before);
                    assert(before + readable_fields(entry@, at) =~= done + readable_fields(entry@, reader.at()));
                }
                match field.value {
                    Value::Varint(index) => {
                        if field.number == 1 {
                            start = index as usize;
                        }
                    },
                    Value::Bytes(reference) => {
                        if field.number == 2 {
                            object = reference_object(reference);
                        }
                    },
                    _ => {},
                }
            },
            _ => {
                proof {
                    assert(done + readable_fields(entry@, at) =~= done);
                }
                break;
            },
        }
    }
    Span { start, object }
}

/// `TSWP.ObjectAttributeTable` from its encoded bytes: entries (field 1)
/// of `character_index` (1) and `object` (2, a reference whose field 1
/// is the identifier). Fields after one that does not read are left out.
pub fn parse_attribute_table(bytes: &[u8]) -> (spans: Vec<Span>)
    ensures
        spans@ == table_spans(readable_fields(bytes@, 0)),
{
    let mut spans: Vec<Span> = Vec::new();
    let mut reader = FieldReader::new(bytes);
    let ghost mut done: Seq<(u32, ValueView)> = Seq::empty();
    loop
        invariant
            reader.message() == bytes@,
            0 <= reader.at() <= bytes@.len(),
            readable_fields(bytes@, 0) == done + readable_fields(bytes@, reader.at()),
            spans@ == table_spans(done),
        ensures
            readable_fields(bytes@, 0) == done,
            spans@ == table_spans(done),
        decreases bytes@.len() - reader.at(),
    {
        let ghost at = reader.at();
        proof {
            lemma_readable_step(bytes@, at);
        }
        match reader.next() {
            Some(Ok(field)) => {
                let ghost before = done;
                proof {
                    done = done.push((field.number, field.value@));
                    assert(done.drop_last() =~= before);
                    assert(before + readable_fields(bytes@, at) =~= done + readable_fields(bytes@, reader.at()));
                }
                if let Value::Bytes(entry) = field.value {
                    if field.number == 1 {
                        let span = read_entry_span(entry);
                        spans.push(span);
                    }
                }
            },
            _ => {
                proof {
                    assert(done + readable_fields(bytes@, at) =~= done);
                }
                break;
            },
        }
    }
    spans
}

// ----- paragraph data tables -----

/// A paragraph data entry read field by field: `character_index` (field
/// 1), `first` (2) and `second` (3), each a varint; a later field of the
/// same number replaces an earlier one.
pub open spec fn entry_data(fields: Seq<(u32, ValueView)>) -> (usize, u32, u32)
    decreases fields.len(),
{
    if fields.len() == 0 {
        (0, 0, 0)
    } else {
        let before = entry_data(fields.drop_last());
        let (number, value) = fields.last();
        if !(value is Varint) {
            before
        } else if number == 1 {
            ((value->Varint_0) as usize, before.1, before.2)
        } else if number == 2 {
            (before.0, (value->Varint_0) as u32, before.2)
        } else if number == 3 {
            (before.0, before.1, (value->Varint_0) as u32)
        } else {
            before
        }
    }
}

/// The entries of a paragraph data table: one per field 1 that is a message.
pub open spec fn table_data(fields: Seq<(u32, ValueView)>) -> Seq<(usize, u32, u32)>
    decreases fields.len(),
{
    if fields.len() == 0 {
        Seq::empty()
    } else {
        let before = table_data(fields.drop_last());
        let (number, value) = fields.last();
        if number == 1 && value is Bytes {
            before.push(entry_data(readable_fields(value->Bytes_0, 0)))
        } else {
            before
        }
    }
}

/// One entry of a paragraph data table, from its bytes.
fn read_entry_data(entry: &[u8]) -> (data: (usize, u32, u32))
    ensures
        data == entry_data(readable_fields(entry@, 0)),
{
    let mut start: usize = 0;
    let mut first: u32 = 0;
    let mut second: u32 = 0;
    let mut reader = FieldReader::new(entry);
    let ghost mut done: Seq<(u32, ValueView)> = Seq::empty();
    loop
        invariant
            reader.message() == entry@,
            0 <= reader.at() <= entry@.len(),
            readable_fields(entry@, 0) == done + readable_fields(entry@, reader.at()),
            entry_data(done) == (start, first, second),
        ensures
            readable_fields(entry@, 0) == done,
            entry_data(done) == (start, first, second),
        decreases entry@.len() - reader.at(),
    {
        let ghost at = reader.at();
        proof {
            lemma_readable_step(entry@, at);
        }
        match reader.next() {
            Some(Ok(field)) => {
                let ghost before = done;
                proof {
                    done = done.push((field.number, field.value@));
                    assert(done.drop_last() =~= before);
                    assert(before + readable_fields(entry@, at) =~= done + readable_fields(entry@, reader.at()));
                }
                if let Value::Varint(value) = field.value {
                    if field.number == 1 {
                        start = value as usize;
                    } else if field.number == 2 {
                        first = value as u32;
                    } else if field.number == 3 {
                        second = value as u32;
                    }
                }
            },
            _ => {
                proof {
                    assert(done + readable_fields(entry@, at) =~= done);
                }
                break;
            },
        }
    }
    (start, first, second)
}

/// `TSWP.ParaDataAttributeTable` from its encoded bytes: entries of
/// `character_index` (1), `first` (2), `second` (3). Fields after one that
/// does not read are left out.
pub fn parse_paragraph_data(bytes: &[u8]) -> (entries: Vec<(usize, u32, u32)>)
    ensures
        entries@ == table_data(readable_fields(bytes@, 0)),
{
    let mut entries: Vec<(usize, u32, u32)> = Vec::new();
    let mut reader = FieldReader::new(bytes);
    let ghost mut done: Seq<(u32, ValueView)> = Seq::empty();
    loop
        invariant
            reader.message() == bytes@,
            0 <= reader.at() <= bytes@.len(),
            readable_fields(bytes@, 0) == done + readable_fields(bytes@, reader.at()),
            entries@ == table_data(done),
        ensures
            readable_fields(bytes@, 0) == done,
            entries@ == table_data(done),
        decreases bytes@.len() - reader.at(),
    {
        let ghost at = reader.at();
        proof {
            lemma_readable_step(bytes@, at);
        }
        match reader.next() {
            Some(Ok(field)) => {
                let ghost before = done;
                proof {
                    done = done.push((field.number, field.value@));
                    assert(done.drop_last() =~= before);
                    assert(before + readable_fields(bytes@, at) =~= done + readable_fields(bytes@, reader.at()));
                }
                if let Value::Bytes(entry) = field.value {
                    if field.number == 1 {
                        let data = read_entry_data(entry);
                        entries.push(data);
                    }
                }
            },
            _ => {
                proof {
                    assert(done + readable_fields(bytes@, at) =~= done);
                }
                break;
            },
        }
    }
    entries
}

// ----- looking positions up -----

/// The entries are in order of their start.
pub open spec fn starts_sorted(spans: Seq<Span>) -> bool {
    forall|i: int, j: int| 0 <= i <= j < spans.len() ==> spans[i].start <= spans[j].start
}

/// Whether `start` comes before `bound` (or is at it, with `inclusive`).
pub open spec fn starts_by(start: usize, bound: usize, inclusive: bool) -> bool {
    if inclusive {
        start <= bound
    } else {
        start < bound
    }
}

/// How many entries start before `bound` (or at it, with `inclusive`).
pub open spec fn count_starting(spans: Seq<Span>, bound: usize, inclusive: bool) -> nat
    decreases spans.len(),
{
    if spans.len() == 0 {
        0
    } else {
        count_starting(spans.drop_last(), bound, inclusive) + if starts_by(spans.last().start, bound, inclusive) {
            1nat
        } else {
            0nat
        }
    }
}

/// Where the entries that start by `bound` give way to those that do not,
/// that is the count of the former.
proof fn lemma_count_starting(spans: Seq<Span>, bound: usize, inclusive: bool, point: int)
    requires
        0 <= point <= spans.len(),
        forall|i: int| 0 <= i < point ==> starts_by(#[trigger] spans[i].start, bound, inclusive),
        forall|i: int| point <= i < spans.len() ==> !starts_by(#[trigger] spans[i].start, bound, inclusive),
    ensures
        count_starting(spans, bound, inclusive) == point,
    decreases spans.len(),
{
    if spans.len() > 0 {
        let shorter = spans.drop_last();
        if point == spans.len() {
            lemma_count_starting(shorter, bound, inclusive, point - 1);
        } else {
            lemma_count_starting(shorter, bound, inclusive, point);
        }
    }
}

/// How many entries start before `bound` (or at it, with `inclusive`), by
/// binary search: exact when the entries are in order.
fn partition_point(spans: &[Span], bound: usize, inclusive: bool) -> (count: usize)
    ensures
        count <= spans@.len(),
        starts_sorted(spans@) ==> {
            &&& count == count_starting(spans@, bound, inclusive)
            &&& forall|i: int| 0 <= i < count ==> starts_by(#[trigger] spans@[i].start, bound, inclusive)
            &&& forall|i: int| count <= i < spans@.len() ==> !starts_by(#[trigger] spans@[i].start, bound, inclusive)
        },
{
    let mut low: usize = 0;
    let mut high: usize = spans.len();
    while low < high
        invariant
            low <= high <= spans@.len(),
            starts_sorted(spans@) ==> forall|i: int| 0 <= i < low ==> starts_by(#[trigger] spans@[i].start, bound, inclusive),
            starts_sorted(spans@) ==> forall|i: int|
                high <= i < spans@.len() ==> !starts_by(#[trigger] spans@[i].start, bound, inclusive),
        decreases high - low,
    {
        let middle = low + (high - low) / 2;
        let start = spans[middle].start;
        let before = if inclusive {
            start <= bound
        } else {
            start < bound
        };
        if before {
            low = middle + 1;
        } else {
            high = middle;
        }
    }
    proof {
        if starts_sorted(spans@) {
            lemma_count_starting(spans@, bound, inclusive, low as int);
        }
    }
    low
}

/// The object of the entry that covers `position`: the last one that
/// starts at or before it. The table is searched as sorted by start, which
/// is how Pages writes it.
pub fn covering(spans: &[Span], position: usize) -> (object: Option<u64>)
    ensures
        starts_sorted(spans@) ==> object == if count_starting(spans@, position, true) == 0 {
            None
        } else {
            spans@[count_starting(spans@, position, true) - 1].object
        },
{
    let count = partition_point(spans, position, true);
    if count == 0 {
        None
    } else {
        spans[count - 1].object
    }
}

/// The entries that start inside `[from, to)`.
pub fn within(spans: &[Span], from: usize, to: usize) -> (inside: &[Span])
    ensures
        starts_sorted(spans@) ==> {
            let first = count_starting(spans@, from, false) as int;
            let end = count_starting(spans@, to, false) as int;
            &&& inside@ == spans@.subrange(first, if end < first { first } else { end })
            &&& forall|i: int|
                0 <= i < spans@.len() ==> (from <= #[trigger] spans@[i].start < to <==> first <= i < end)
        },
{
    let first = partition_point(spans, from, false);
    let end = partition_point(spans, to, false);
    let last = if end < first {
        first
    } else {
        end
    };
    &spans[first..last]
}

/// The entries are in order of their first item.
pub open spec fn firsts_sorted<T>(entries: Seq<(usize, T)>) -> bool {
    forall|i: int, j: int| 0 <= i <= j < entries.len() ==> entries[i].0 <= entries[j].0
}

/// How many entries start at or before `position`.
pub open spec fn count_at_or_before<T>(entries: Seq<(usize, T)>, position: usize) -> nat
    decreases entries.len(),
{
    if entries.len() == 0 {
        0
    } else {
        count_at_or_before(entries.drop_last(), position) + if entries.last().0 <= position {
            1nat
        } else {
            0nat
        }
    }
}

proof fn lemma_count_at_or_before<T>(entries: Seq<(usize, T)>, position: usize, point: int)
    requires
        0 <= point <= entries.len(),
        forall|i: int| 0 <= i < point ==> #[trigger] entries[i].0 <= position,
        forall|i: int| point <= i < entries.len() ==> #[trigger] entries[i].0 > position,
    ensures
        count_at_or_before(entries, position) == point,
    decreases entries.len(),
{
    if entries.len() > 0 {
        let shorter = entries.drop_last();
        if point == entries.len() {
            lemma_count_at_or_before(shorter, position, point - 1);
        } else {
            lemma_count_at_or_before(shorter, position, point);
        }
    }
}

/// The last entry of a table sorted by start that starts at or before
/// `position`.
pub fn last_at<T>(entries: &[(usize, T)], position: usize) -> (entry: Option<&(usize, T)>)
    ensures
        firsts_sorted(entries@) ==> match entry {
            None => count_at_or_before(entries@, position) == 0,
            Some(found) => count_at_or_before(entries@, position) > 0 && *found == entries@[count_at_or_before(
                entries@,
                position,
            ) - 1],
        },
{
    let mut low: usize = 0;
    let mut high: usize = entries.len();
    while low < high
        invariant
            low <= high <= entries@.len(),
            firsts_sorted(entries@) ==> forall|i: int| 0 <= i < low ==> #[trigger] entries@[i].0 <= position,
            firsts_sorted(entries@) ==> forall|i: int| high <= i < entries@.len() ==> #[trigger] entries@[i].0 > position,
        decreases high - low,
    {
        let middle = low + (high - low) / 2;
        if entries[middle].0 <= position {
            low = middle + 1;
        } else {
            high = middle;
        }
    }
    proof {
        if firsts_sorted(entries@) {
            lemma_count_at_or_before(entries@, position, low as int);
        }
    }
    if low == 0 {
        None
    } else {
        Some(&entries[low - 1])
    }
}

// ----- cell records -----

/// What a cell record (storage version 5) says. The two floating-point
/// values are kept as the bits of their IEEE 754 doubles.
#[derive(Debug, Clone, Copy, PartialEq, Eq, Structural)]
pub struct CellRecord {
    /// The cell type.
    pub kind: u8,
    pub double_bits: Option<u64>,
    /// Seconds since 2001, for a date.
    pub seconds_bits: Option<u64>,
    pub string: Option<u32>,
    pub rich_text: Option<u32>,
    pub cell_style: Option<u32>,
    pub text_style: Option<u32>,
}

/// The number of optional fields a cell record's flags can announce.
pub const CELL_FIELD_COUNT: u32 = 21;

/// The size of the field that flag bit `k` announces: a decimal128, two
/// doubles (a number and a date), then 32-bit identifiers (string, rich
/// text, cell style, text style, and others that are skipped).
pub open spec fn cell_field_size(k: u32) -> int {
    if k == 0 {
        16
    } else if k <= 2 {
        8
    } else {
        4
    }
}

/// The fields from flag bit `k` on, read from `offset` into `record`;
/// `None` when an announced field runs past the end.
pub open spec fn cell_fields(bytes: Seq<u8>, flags: u32, k: u32, offset: int, record: CellRecord) -> Option<CellRecord>
    decreases CELL_FIELD_COUNT - k,
{
    if k >= CELL_FIELD_COUNT {
        Some(record)
    } else if flags & (1u32 << k) == 0 {
        cell_fields(bytes, flags, (k + 1) as u32, offset, record)
    } else {
        let size = cell_field_size(k);
        if offset + size > bytes.len() {
            None
        } else {
            let field = bytes.subrange(offset, offset + size);
            let updated = if k == 1 {
                CellRecord { double_bits: Some(spec_u64_from_le_bytes(field)), ..record }
            } else if k == 2 {
                CellRecord { seconds_bits: Some(spec_u64_from_le_bytes(field)), ..record }
            } else if k == 3 {
                CellRecord { string: Some(spec_u32_from_le_bytes(field)), ..record }
            } else if k == 4 {
                CellRecord { rich_text: Some(spec_u32_from_le_bytes(field)), ..record }
            } else if k == 5 {
                CellRecord { cell_style: Some(spec_u32_from_le_bytes(field)), ..record }
            } else if k == 6 {
                CellRecord { text_style: Some(spec_u32_from_le_bytes(field)), ..record }
            } else {
                record
            };
            cell_fields(bytes, flags, (k + 1) as u32, offset + size, updated)
        }
    }
}

/// A cell record: version byte 5, the cell type, flags (little-endian,
/// bytes 8 to 11), then the fields the flags announce, in flag order.
pub open spec fn spec_cell_record(bytes: Seq<u8>) -> Option<CellRecord> {
    if bytes.len() < 12 || bytes[0] != 5 {
        None
    } else {
        cell_fields(
            bytes,
            spec_u32_from_le_bytes(bytes.subrange(8, 12)),
            0,
            12,
            CellRecord {
                kind: bytes[1],
                double_bits: None,
                seconds_bits: None,
                string: None,
                rich_text: None,
                cell_style: None,
                text_style: None,
            },
        )
    }
}

/// Decodes one cell record (storage version 5).
pub fn cell_record(bytes: &[u8]) -> (record: Option<CellRecord>)
    ensures
        record == spec_cell_record(bytes@),
{
    if bytes.len() < 12 || bytes[0] != 5 {
        return None;
    }
    let flags = u32_from_le_bytes(&bytes[8..12]);
    let mut record = CellRecord {
        kind: bytes[1],
        double_bits: None,
        seconds_bits: None,
        string: None,
        rich_text: None,
        cell_style: None,
        text_style: None,
    };
    let mut offset: usize = 12;
    let mut k: u32 = 0;
    while k < CELL_FIELD_COUNT
        invariant
            k <= CELL_FIELD_COUNT,
            12 <= offset <= 12 + 16 * k,
            flags == spec_u32_from_le_bytes(bytes@.subrange(8, 12)),
            bytes@.len() >= 12 && bytes@[0] == 5,
            spec_cell_record(bytes@) == cell_fields(bytes@, flags, k, offset as int, record),
        decreases CELL_FIELD_COUNT - k,
    {
        let flag: u32 = 1u32 << k;
        if flags & flag != 0 {
            let size: usize = if k == 0 {
                16
            } else if k <= 2 {
                8
            } else {
                4
            };
            if offset + size > bytes.len() {
                return None;
            }
            let field = &bytes[offset..offset + size];
            if k == 1 {
                record.double_bits = Some(u64_from_le_bytes(field));
            } else if k == 2 {
                record.seconds_bits = Some(u64_from_le_bytes(field));
            } else if k == 3 {
                record.string = Some(u32_from_le_bytes(field));
            } else if k == 4 {
                record.rich_text = Some(u32_from_le_bytes(field));
            } else if k == 5 {
                record.cell_style = Some(u32_from_le_bytes(field));
            } else if k == 6 {
                record.text_style = Some(u32_from_le_bytes(field));
            }
            offset += size;
        }
        k += 1;
    }
    Some(record)
}

/// With no flag bit set from `k` on, the record is read.
proof fn lemma_no_more_fields(bytes: Seq<u8>, flags: u32, k: u32, offset: int, record: CellRecord)
    requires
        forall|j: u32| k <= j < CELL_FIELD_COUNT ==> #[trigger] (flags & (1u32 << j)) == 0,
    ensures
        cell_fields(bytes, flags, k, offset, record) == Some(record),
    decreases CELL_FIELD_COUNT - k,
{
    if k < CELL_FIELD_COUNT {
        assert(flags & (1u32 << k) == 0);
        lemma_no_more_fields(bytes, flags, (k + 1) as u32, offset, record);
    }
}

/// A text cell's record, as `cell_record_bytes` writes it, reads back as a
/// text cell (type 3) whose string is the key, with nothing else set.
pub proof fn lemma_text_cell_reads_back(key: u32)
    ensures
        spec_cell_record(text_cell_bytes(key)) == Some(
            CellRecord {
                kind: 3,
                double_bits: None,
                seconds_bits: None,
                string: Some(key),
                rich_text: None,
                cell_style: None,
                text_style: None,
            },
        ),
{
    let bytes = text_cell_bytes(key);
    lemma_auto_spec_u32_to_from_le_bytes();
    assert(bytes.subrange(8, 12) =~= vstd::bytes::spec_u32_to_le_bytes(8));
    assert(bytes.subrange(12, 16) =~= vstd::bytes::spec_u32_to_le_bytes(key));
    let flags: u32 = 8;
    assert(forall|k: u32| k < 21 && k != 3 ==> #[trigger] (flags & (1u32 << k)) == 0) by (bit_vector)
        requires
            flags == 8,
    ;
    assert(flags & (1u32 << 3u32) != 0) by (bit_vector)
        requires
            flags == 8,
    ;
    let empty = CellRecord {
        kind: 3,
        double_bits: None,
        seconds_bits: None,
        string: None,
        rich_text: None,
        cell_style: None,
        text_style: None,
    };
    let done = CellRecord { string: Some(key), ..empty };
    assert(flags & (1u32 << 0u32) == 0);
    assert(flags & (1u32 << 1u32) == 0);
    assert(flags & (1u32 << 2u32) == 0);
    lemma_no_more_fields(bytes, flags, 4, 16, done);
    assert(cell_fields(bytes, flags, 4, 16, done) == Some(done));
    assert(cell_fields(bytes, flags, 3, 12, empty) == Some(done));
    assert(cell_fields(bytes, flags, 2, 12, empty) == Some(done));
    assert(cell_fields(bytes, flags, 1, 12, empty) == Some(done));
    assert(cell_fields(bytes, flags, 0, 12, empty) == Some(done));
}

// ----- byte offsets to UTF-16 offsets -----

/// The UTF-16 units of the characters that start in the first `end` bytes
/// of UTF-8 text: one for a character of up to three bytes, two for one of
/// four (lead byte 0xF0 and up); continuation bytes start none.
pub open spec fn utf16_units_before(bytes: Seq<u8>, end: int) -> nat
    decreases end,
{
    if end <= 0 {
        0
    } else {
        utf16_units_before(bytes, end - 1) + unit_weight(bytes[end - 1])
    }
}

/// What one byte adds to the UTF-16 length.
pub open spec fn unit_weight(byte: u8) -> nat {
    if byte >= 0xF0 {
        2
    } else if 0x80 <= byte < 0xC0 {
        0
    } else {
        1
    }
}

proof fn lemma_units_bound(bytes: Seq<u8>, end: int)
    requires
        0 <= end,
    ensures
        utf16_units_before(bytes, end) <= 2 * end,
    decreases end,
{
    if end > 0 {
        lemma_units_bound(bytes, end - 1);
    }
}

/// Maps byte offsets of a text to UTF-16 unit offsets, which is how the
/// attribute tables count characters. Offsets are asked for in increasing
/// order, so a cursor over the text does it in one pass without a table.
pub struct Utf16Offsets<'t> {
    text: &'t str,
    byte: usize,
    units: usize,
}

impl<'t> Utf16Offsets<'t> {
    /// The text's bytes.
    pub closed spec fn bytes(&self) -> Seq<u8> {
        self.text.spec_bytes()
    }

    #[verifier::type_invariant]
    spec fn counted(&self) -> bool {
        &&& self.text.spec_bytes().len() <= isize::MAX
        &&& self.byte <= self.text.spec_bytes().len()
        &&& self.units == utf16_units_before(self.text.spec_bytes(), self.byte as int)
    }

    pub fn new(text: &'t str) -> (offsets: Utf16Offsets<'t>)
        requires
            text.spec_bytes().len() <= isize::MAX,
        ensures
            offsets.bytes() == text.spec_bytes(),
    {
        Utf16Offsets { text, byte: 0, units: 0 }
    }

    /// The UTF-16 offset of byte offset `byte` (the end of the text past
    /// it), which must fall between characters.
    pub fn units_at(&mut self, byte: usize) -> (units: usize)
        requires
            byte >= old(self).bytes().len() || vstd::utf8::is_char_boundary(old(self).bytes(), byte as int),
        ensures
            final(self).bytes() == old(self).bytes(),
            units == utf16_units_before(
                old(self).bytes(),
                if byte < old(self).bytes().len() {
                    byte as int
                } else {
                    old(self).bytes().len() as int
                },
            ),
    {
        proof {
            use_type_invariant(&*self);
        }
        let text = self.text;
        let bytes = text.as_bytes();
        let restart = byte < self.byte;
        let mut at: usize = if restart {
            0
        } else {
            self.byte
        };
        let mut units: usize = if restart {
            0
        } else {
            self.units
        };
        let end: usize = if byte < bytes.len() {
            byte
        } else {
            bytes.len()
        };
        while at < end
            invariant
                bytes@ == text.spec_bytes(),
                bytes@.len() <= isize::MAX,
                at <= end <= bytes@.len(),
                units == utf16_units_before(bytes@, at as int),
            decreases end - at,
        {
            proof {
                lemma_units_bound(bytes@, at + 1);
            }
            let lead = bytes[at];
            if lead >= 0xF0 {
                units += 2;
            } else if lead < 0x80 || lead >= 0xC0 {
                units += 1;
            }
            at += 1;
        }
        *self = Utf16Offsets { text, byte: end, units };
        units
    }
}

// ----- counting UTF-16 units by characters and by bytes -----

/// What one character adds to the UTF-16 length.
pub open spec fn char_units(c: char) -> nat {
    if c as u32 >= 0x10000 {
        2
    } else {
        1
    }
}

/// Counting from the first character: the first one's units and the rest's.
proof fn lemma_units_from_front(chars: Seq<char>)
    requires
        chars.len() > 0,
    ensures
        utf16_units(chars) == char_units(chars[0]) + utf16_units(chars.drop_first()),
    decreases chars.len(),
{
    if chars.len() > 1 {
        lemma_units_from_front(chars.drop_last());
        assert(chars.drop_last().drop_first() =~= chars.drop_first().drop_last());
    } else {
        assert(chars.drop_last() =~= Seq::<char>::empty());
        assert(chars.drop_first() =~= Seq::<char>::empty());
    }
}

/// The count up to `end` reads only the bytes before `end`.
proof fn lemma_units_prefix(bytes: Seq<u8>, other: Seq<u8>, end: int)
    requires
        0 <= end <= bytes.len(),
        end <= other.len(),
        forall|i: int| 0 <= i < end ==> bytes[i] == other[i],
    ensures
        utf16_units_before(bytes, end) == utf16_units_before(other, end),
    decreases end,
{
    if end > 0 {
        lemma_units_prefix(bytes, other, end - 1);
    }
}

/// The count over two pieces is the sum of their counts.
proof fn lemma_units_concat(front: Seq<u8>, back: Seq<u8>, k: int)
    requires
        0 <= k <= back.len(),
    ensures
        utf16_units_before(front + back, front.len() + k) == utf16_units_before(front, front.len() as int)
            + utf16_units_before(back, k),
    decreases k,
{
    if k == 0 {
        lemma_units_prefix(front + back, front, front.len() as int);
    } else {
        lemma_units_concat(front, back, k - 1);
        assert((front + back)[front.len() + k - 1] == back[k - 1]);
    }
}

/// The bytes of one character count as its UTF-16 units: one leading byte
/// below 0xF0 for up to three bytes, one of 0xF0 or more for four, and
/// continuation bytes that count nothing.
proof fn lemma_units_of_char(c: char)
    ensures
        utf16_units_before(vstd::utf8::encode_scalar(c as u32), vstd::utf8::encode_scalar(c as u32).len() as int)
            == char_units(c),
{
    let v = c as u32;
    let bytes = vstd::utf8::encode_scalar(v);
    assert(0x80u8 <= 0x80u8 | ((v & 0x3F) as u8) <= 0xBFu8) by (bit_vector);
    assert(0x80u8 <= 0x80u8 | (((v >> 6) & 0x3F) as u8) <= 0xBFu8) by (bit_vector);
    assert(0x80u8 <= 0x80u8 | (((v >> 12) & 0x3F) as u8) <= 0xBFu8) by (bit_vector);
    assert(0xC0u8 <= 0xC0u8 | (((v >> 6) & 0x1F) as u8) <= 0xDFu8) by (bit_vector);
    assert(0xE0u8 <= 0xE0u8 | (((v >> 12) & 0x0F) as u8) <= 0xEFu8) by (bit_vector);
    assert(0xF0u8 <= 0xF0u8 | (((v >> 18) & 0x7) as u8)) by (bit_vector);
    assert(((v & 0x7F) as u8) <= 0x7Fu8) by (bit_vector);
    assert(utf16_units_before(bytes, 0) == 0);
    if v <= 0x7F {
        assert(utf16_units_before(bytes, 1) == 1);
    } else if v <= 0x7FF {
        assert(utf16_units_before(bytes, 1) == 1);
        assert(utf16_units_before(bytes, 2) == 1);
    } else if v <= 0xFFFF {
        assert(utf16_units_before(bytes, 1) == 1);
        assert(utf16_units_before(bytes, 2) == 1);
        assert(utf16_units_before(bytes, 3) == 1);
    } else {
        assert(utf16_units_before(bytes, 1) == 2);
        assert(utf16_units_before(bytes, 2) == 2);
        assert(utf16_units_before(bytes, 3) == 2);
        assert(utf16_units_before(bytes, 4) == 2);
    }
}

/// Counting a text's UTF-16 units by characters, as `utf16_len` does, and
/// by the bytes of its UTF-8 encoding, as `Utf16Offsets::units_at` does at
/// the end of the text, gives the same number: the writer and the reader of
/// the attribute tables agree on where every character is.
pub proof fn lemma_utf16_counts_agree(chars: Seq<char>)
    ensures
        utf16_units_before(vstd::utf8::encode_utf8(chars), vstd::utf8::encode_utf8(chars).len() as int)
            == utf16_units(chars),
    decreases chars.len(),
{
    if chars.len() > 0 {
        let first = vstd::utf8::encode_scalar(chars[0] as u32);
        let rest = vstd::utf8::encode_utf8(chars.drop_first());
        lemma_utf16_counts_agree(chars.drop_first());
        lemma_units_of_char(chars[0]);
        lemma_units_from_front(chars);
        lemma_units_concat(first, rest, rest.len() as int);
        assert(vstd::utf8::encode_utf8(chars) == first + rest);
    }
}

} // verus!
