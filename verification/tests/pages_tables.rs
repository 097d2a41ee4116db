use sublime::pages::{cell_record_bytes, utf16_len};
use sublime::pages::document::{
    cell_record, covering, last_at, parse_attribute_table, parse_paragraph_data, within, CellRecord, Span,
    Utf16Offsets,
};

fn message(number: u8, content: &[u8]) -> Vec<u8> {
    let mut out = vec![(number << 3) | 2, content.len() as u8];
    out.extend_from_slice(content);
    out
}

#[test]
fn attribute_tables_give_starts_and_objects() {
    // Entry one: index 0, object 42; entry two: index 5, no object.
    let mut entry = vec![0x08, 0x00];
    entry.extend(message(2, &[0x08, 42]));
    let mut table = message(1, &entry);
    table.extend(message(1, &[0x08, 5]));
    // A varint field 1 is not an entry.
    table.extend([0x08, 9]);
    assert_eq!(
        parse_attribute_table(&table),
        vec![Span { start: 0, object: Some(42) }, Span { start: 5, object: None }]
    );
}

#[test]
fn attribute_tables_stop_at_a_field_that_does_not_read() {
    let mut table = message(1, &[0x08, 3]);
    // Wire type 7 does not exist: the reader stops there.
    table.push(0x0F);
    table.extend(message(1, &[0x08, 7]));
    assert_eq!(parse_attribute_table(&table), vec![Span { start: 3, object: None }]);
    // A value that claims five bytes and holds one.
    let mut table = message(1, &[0x08, 3]);
    table.extend([0x0A, 0x05, 0x08]);
    assert_eq!(parse_attribute_table(&table), vec![Span { start: 3, object: None }]);
}

#[test]
fn later_fields_of_an_entry_replace_earlier_ones() {
    let mut entry = vec![0x08, 1, 0x08, 2];
    entry.extend(message(2, &[0x10, 1, 0x08, 77]));
    entry.extend(message(2, &[0x10, 1]));
    let table = message(1, &entry);
    assert_eq!(parse_attribute_table(&table), vec![Span { start: 2, object: None }]);
}

#[test]
fn paragraph_data_gives_three_numbers_an_entry() {
    let mut table = message(1, &[0x08, 3, 0x10, 2, 0x18, 1]);
    table.extend(message(1, &[0x18, 4, 0x08, 10]));
    table.extend([0x10, 7]);
    assert_eq!(parse_paragraph_data(&table), vec![(3, 2, 1), (10, 0, 4)]);
    assert_eq!(parse_paragraph_data(&[]), vec![]);
}

#[test]
fn positions_are_looked_up_in_sorted_tables() {
    let spans = [
        Span { start: 0, object: Some(1) },
        Span { start: 4, object: None },
        Span { start: 4, object: Some(3) },
        Span { start: 9, object: Some(4) },
    ];
    assert_eq!(covering(&spans, 0), Some(1));
    assert_eq!(covering(&spans, 3), Some(1));
    assert_eq!(covering(&spans, 4), Some(3));
    assert_eq!(covering(&spans, 8), Some(3));
    assert_eq!(covering(&spans, 100), Some(4));
    assert_eq!(covering(&spans[1..], 2), None);
    assert_eq!(covering(&[], 2), None);

    assert_eq!(within(&spans, 1, 9), &spans[1..3]);
    assert_eq!(within(&spans, 4, 5), &spans[1..3]);
    assert_eq!(within(&spans, 0, 1), &spans[0..1]);
    assert!(within(&spans, 5, 9).is_empty());
    assert!(within(&spans, 9, 2).is_empty());

    let entries = [(0usize, 'a'), (3, 'b'), (7, 'c')];
    assert_eq!(last_at(&entries, 0), Some(&(0, 'a')));
    assert_eq!(last_at(&entries, 6), Some(&(3, 'b')));
    assert_eq!(last_at(&entries, 7), Some(&(7, 'c')));
    assert_eq!(last_at(&entries[1..], 2), None);
}

#[test]
fn cell_records_read_the_fields_their_flags_announce() {
    let empty = CellRecord {
        kind: 0,
        double_bits: None,
        seconds_bits: None,
        string: None,
        rich_text: None,
        cell_style: None,
        text_style: None,
    };
    // A number cell: a double (1.5) and a cell style.
    let mut bytes = vec![5, 2, 0, 0, 0, 0, 0, 0, 0x22, 0, 0, 0];
    bytes.extend(1.5f64.to_le_bytes());
    bytes.extend(9u32.to_le_bytes());
    let record = cell_record(&bytes).unwrap();
    assert_eq!(record, CellRecord { kind: 2, double_bits: Some(1.5f64.to_bits()), cell_style: Some(9), ..empty });
    assert_eq!(f64::from_bits(record.double_bits.unwrap()), 1.5);

    // A decimal128 comes first and is skipped; then the text style.
    let mut bytes = vec![5, 7, 0, 0, 0, 0, 0, 0, 0x41, 0, 0, 0];
    bytes.extend([0u8; 16]);
    bytes.extend(6u32.to_le_bytes());
    assert_eq!(cell_record(&bytes), Some(CellRecord { kind: 7, text_style: Some(6), ..empty }));

    // A field that runs past the end, another version, or too short a record.
    assert_eq!(cell_record(&[5, 3, 0, 0, 0, 0, 0, 0, 8, 0, 0, 0, 1, 2]), None);
    assert_eq!(cell_record(&[4, 3, 0, 0, 0, 0, 0, 0, 0, 0, 0, 0]), None);
    assert_eq!(cell_record(&[5, 3, 0]), None);
}

#[test]
fn text_cells_read_back_their_key() {
    let record = cell_record(&cell_record_bytes(0x0102_0304)).unwrap();
    assert_eq!(record.kind, 3);
    assert_eq!(record.string, Some(0x0102_0304));
    assert_eq!(record.double_bits, None);
    assert_eq!(record.cell_style, None);
}

#[test]
fn byte_offsets_map_to_utf16_offsets() {
    let text = "aé€𝄞b";
    let mut offsets = Utf16Offsets::new(text);
    assert_eq!(offsets.units_at(0), 0);
    assert_eq!(offsets.units_at(1), 1);
    assert_eq!(offsets.units_at(3), 2);
    assert_eq!(offsets.units_at(6), 3);
    assert_eq!(offsets.units_at(10), 5);
    assert_eq!(offsets.units_at(11), 6);
    assert_eq!(offsets.units_at(50), 6);
    // Asking for an earlier offset starts over.
    assert_eq!(offsets.units_at(3), 2);
}

#[test]
fn both_utf16_counts_agree() {
    for text in ["", "plain", "aé€𝄞b", "𝄞𝄞", "日本語のテキスト"] {
        let mut offsets = Utf16Offsets::new(text);
        assert_eq!(offsets.units_at(text.len()), utf16_len(text) as usize);
    }
}
