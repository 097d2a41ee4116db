use sublime::markdown::block::{
    join_lines, parse_delimiter_row, scan_footnote_definition, split_table_row, split_table_row_into, strip_atx_closing,
    Cell, Line,
};
use sublime::markdown::Alignment;

#[test]
fn rows_split_into_trimmed_ranges() {
    assert_eq!(split_table_row("| a | b |", Some(0)), vec![Cell::Range(2, 3), Cell::Range(6, 7)]);
    assert_eq!(split_table_row("x|y", Some(10)), vec![Cell::Range(10, 11), Cell::Range(12, 13)]);
    assert_eq!(split_table_row("a |  ", Some(0)), vec![Cell::Range(0, 1)]);
    assert_eq!(split_table_row("| | x", Some(0)), vec![Cell::Range(2, 2), Cell::Range(4, 5)]);
}

#[test]
fn escaped_pipes_make_owned_cells() {
    assert_eq!(
        split_table_row("a \\| b | c", None),
        vec![Cell::Owned(String::from("a | b")), Cell::Owned(String::from("c"))]
    );
    assert_eq!(
        split_table_row("\\|x | `a\\|b`", Some(0)),
        vec![Cell::Owned(String::from("|x")), Cell::Owned(String::from("`a|b`"))]
    );
}

#[test]
fn cells_keep_unicode_text() {
    let line = "| é | ü |";
    let cells = split_table_row(line, Some(0));
    assert_eq!(cells, vec![Cell::Range(2, 4), Cell::Range(7, 9)]);
    assert_eq!(cells[0].text(line), "é");
    assert_eq!(cells[1].text(line), "ü");
    assert_eq!(Cell::Owned(String::from("own")).text(line), "own");
}

#[test]
fn rows_share_one_vector() {
    let mut cells = vec![Cell::Owned(String::from("kept"))];
    split_table_row_into("a|b", Some(4), &mut cells);
    assert_eq!(cells, vec![Cell::Owned(String::from("kept")), Cell::Range(4, 5), Cell::Range(6, 7)]);
}

#[test]
fn delimiter_rows_give_alignments() {
    assert_eq!(
        parse_delimiter_row("| --- | :-: | --: | :-- |"),
        Some(vec![Alignment::Unaligned, Alignment::Center, Alignment::Right, Alignment::Left])
    );
    assert_eq!(parse_delimiter_row("|---|"), Some(vec![Alignment::Unaligned]));
    assert_eq!(parse_delimiter_row("---"), None);
    assert_eq!(parse_delimiter_row("--- | ---"), Some(vec![Alignment::Unaligned, Alignment::Unaligned]));
    assert_eq!(parse_delimiter_row("| -x- |"), None);
    assert_eq!(parse_delimiter_row("| --- | : |"), None);
    assert_eq!(parse_delimiter_row("| :: |"), None);
    assert_eq!(parse_delimiter_row("|  |"), None);
}

#[test]
fn closing_hashes_are_stripped() {
    assert_eq!(strip_atx_closing("Title ##"), "Title");
    assert_eq!(strip_atx_closing("Title#"), "Title#");
    assert_eq!(strip_atx_closing("  ###  "), "");
    assert_eq!(strip_atx_closing("###"), "");
    assert_eq!(strip_atx_closing("  plain  "), "plain");
    assert_eq!(strip_atx_closing(" a # b #\t"), "a # b");
}

#[test]
fn footnote_definitions_are_recognized() {
    assert_eq!(scan_footnote_definition(b"[^note]: text", 0), Some((String::from("note"), 8)));
    assert_eq!(scan_footnote_definition(b"  [^x]:", 2), Some((String::from("x"), 5)));
    assert_eq!(scan_footnote_definition(b"[^]: x", 0), None);
    assert_eq!(scan_footnote_definition(b"[^a b]: x", 0), None);
    assert_eq!(scan_footnote_definition(b"[^x]", 0), None);
    assert_eq!(scan_footnote_definition(b"[x]: y", 0), None);
    assert_eq!(scan_footnote_definition(&[b'[', b'^', 0xFF, b']', b':'], 0), None);
    assert_eq!(scan_footnote_definition("[^é]:".as_bytes(), 0), Some((String::from("é"), 6)));
}

#[test]
fn lines_join_with_newlines() {
    let source = "ab\ncd\n";
    let lines = [Line { start: 0, end: 2, leading_spaces: 0 }, Line { start: 3, end: 5, leading_spaces: 2 }];
    assert_eq!(lines[1].text(source), "  cd");
    assert_eq!(join_lines(source, &lines), "ab\n  cd");
    assert_eq!(join_lines(source, &lines[..1]), "ab");
    assert_eq!(join_lines(source, &[]), "");
}

#[test]
fn contiguous_lines_are_borrowed() {
    let source = "ab\ncd\nef";
    let lines = [
        Line { start: 0, end: 2, leading_spaces: 0 },
        Line { start: 3, end: 5, leading_spaces: 0 },
        Line { start: 6, end: 8, leading_spaces: 0 },
    ];
    let joined = join_lines(source, &lines);
    assert!(matches!(joined, std::borrow::Cow::Borrowed(_)));
    assert_eq!(joined, "ab\ncd\nef");
    assert!(matches!(join_lines(source, &[]), std::borrow::Cow::Borrowed("")));
    // A gap between lines makes an owned copy.
    let apart = [Line { start: 0, end: 2, leading_spaces: 0 }, Line { start: 6, end: 8, leading_spaces: 0 }];
    let joined = join_lines(source, &apart);
    assert!(matches!(joined, std::borrow::Cow::Owned(_)));
    assert_eq!(joined, "ab\nef");
    // So do synthesized spaces.
    let indented = [Line { start: 0, end: 2, leading_spaces: 0 }, Line { start: 3, end: 5, leading_spaces: 1 }];
    assert!(matches!(join_lines(source, &indented), std::borrow::Cow::Owned(_)));
}
