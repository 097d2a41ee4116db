use sublime::scan::{
    find_any_of3, find_byte, find_csv_delimiter, find_html_special, find_json_escape, find_line_ending,
};

fn scalar_csv(bytes: &[u8]) -> Option<usize> {
    bytes
        .iter()
        .position(|byte| matches!(byte, b',' | b'"' | b'\n' | b'\r'))
}

fn scalar_json(bytes: &[u8]) -> Option<usize> {
    bytes
        .iter()
        .position(|byte| *byte == b'"' || *byte == b'\\' || *byte < 0x20)
}

#[test]
fn csv_finder_matches_scalar_on_varied_inputs() {
    let samples: Vec<&[u8]> = vec![
        b"",
        b"abc",
        b"abcdefgh",
        b"abcdefg,",
        b",abcdefgh",
        b"abcdefghijklmnop\"x",
        b"no delimiters here at all really",
        b"line\nbreak",
        b"carriage\rreturn",
        b"\xFF\xFE\x80\x7F,tail",
        b"12345678901234567890123456789,",
    ];
    for sample in samples {
        assert_eq!(find_csv_delimiter(sample), scalar_csv(sample), "{sample:?}");
    }
}

#[test]
fn json_finder_matches_scalar_on_varied_inputs() {
    let samples: Vec<&[u8]> = vec![
        b"",
        b"plain",
        b"eightbyte",
        b"quote\"here",
        b"back\\slash",
        b"tab\there",
        b"\x01",
        b"abcdefghijklmnopqrstuvwxyz\x1f",
        "héllo ✓ world".as_bytes(),
        b"\xFF\xFF\xFF\xFF\xFF\xFF\xFF\xFF\xFF",
    ];
    for sample in samples {
        assert_eq!(find_json_escape(sample), scalar_json(sample), "{sample:?}");
    }
}

#[test]
fn finders_agree_with_scalar_on_every_byte_value_in_every_lane() {
    for value in 0..=255u8 {
        for lane in 0..8usize {
            let mut sample = [b'a'; 16];
            sample[lane] = value;
            assert_eq!(find_csv_delimiter(&sample), scalar_csv(&sample), "csv {value} {lane}");
            assert_eq!(find_json_escape(&sample), scalar_json(&sample), "json {value} {lane}");
        }
    }
}

#[test]
fn other_finders_find_the_first_match() {
    assert_eq!(find_html_special(b"plain text & more"), Some(11));
    assert_eq!(find_html_special(b"abcdefghijk<"), Some(11));
    assert_eq!(find_html_special(b"nothing"), None);
    assert_eq!(find_line_ending(b"abcdefghij\r\n"), Some(10));
    assert_eq!(find_line_ending(b"one\ntwo"), Some(3));
    assert_eq!(find_line_ending(b"none"), None);
    assert_eq!(find_any_of3(b"xxxxxxxxxxyz", b'z', b'y', b'q'), Some(10));
    assert_eq!(find_any_of3(b"aaaaaaaaaaaaaaaa", b'x', b'y', b'z'), None);
    assert_eq!(find_byte(b"0123456789abcdef", b'f'), Some(15));
    assert_eq!(find_byte(b"0123456789", b'a'), None);
    assert_eq!(find_byte(b"", b'a'), None);
}
