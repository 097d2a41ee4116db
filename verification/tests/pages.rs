use sublime::pages::{cell_record_bytes, dedup, dedup_data, image_dimensions, jpeg_dimensions, pages_style_name, sha1, utf16_len};

fn hex(bytes: &[u8]) -> String {
    bytes.iter().map(|byte| format!("{byte:02x}")).collect::<String>()
}

#[test]
fn sha1_matches_known_vectors() {
    assert_eq!(hex(&sha1(b"")), "da39a3ee5e6b4b0d3255bfef95601890afd80709");
    assert_eq!(hex(&sha1(b"abc")), "a9993e364706816aba3e25717850c26c9cd0d89d");
    assert_eq!(
        hex(&sha1(b"The quick brown fox jumps over the lazy dog")),
        "2fd4e1c67a2d28fced849ee1bb76e7391b93eb12"
    );
}

#[test]
fn sha1_crosses_block_boundaries() {
    assert_eq!(sha1(b"").len(), 20);
    assert_eq!(
        hex(&sha1(b"abcdbcdecdefdefgefghfghighijhijkijkljklmklmnlmnomnopnopq")),
        "84983e441c3bd26ebaae4aa1f95129e5e54670f1"
    );
    let million = vec![b'a'; 1_000_000];
    assert_eq!(hex(&sha1(&million)), "34aa973cd4c4daa4f61eeb2bdbad27316534016f");
    let fifty_five = vec![b'a'; 55];
    let fifty_six = vec![b'a'; 56];
    assert_ne!(sha1(&fifty_five), sha1(&fifty_six));
}

fn fake_png(width: u32, height: u32) -> Vec<u8> {
    let mut bytes = vec![0x89, b'P', b'N', b'G', 0x0D, 0x0A, 0x1A, 0x0A];
    bytes.extend_from_slice(&13u32.to_be_bytes());
    bytes.extend_from_slice(b"IHDR");
    bytes.extend_from_slice(&width.to_be_bytes());
    bytes.extend_from_slice(&height.to_be_bytes());
    bytes.extend_from_slice(&[8, 6, 0, 0, 0, 0, 0, 0, 0]);
    bytes
}

#[test]
fn png_headers_give_their_size() {
    assert_eq!(image_dimensions(&fake_png(120, 60)), Some((120, 60)));
    assert_eq!(image_dimensions(&fake_png(70_000, 1)), Some((70_000, 1)));
    assert_eq!(image_dimensions(&fake_png(1, 1)[..23]), None);
    assert_eq!(image_dimensions(b"GIF89a"), None);
    assert_eq!(image_dimensions(&[]), None);
}

#[test]
fn jpeg_frames_give_their_size() {
    // SOI, an APP0 segment of 16 bytes, then a baseline frame.
    let mut jpeg = vec![0xFF, 0xD8, 0xFF, 0xE0, 0x00, 0x10];
    jpeg.extend_from_slice(&[0; 14]);
    jpeg.extend_from_slice(&[0xFF, 0xC0, 0x00, 0x11, 0x08, 0x01, 0x2C, 0x02, 0x58, 0x03]);
    jpeg.extend_from_slice(&[0; 8]);
    assert_eq!(image_dimensions(&jpeg), Some((600, 300)));
    assert_eq!(jpeg_dimensions(&jpeg), Some((600, 300)));
    // A restart marker stands alone; a progressive frame counts too.
    let mut progressive = vec![0xFF, 0xD8, 0xFF, 0xD0, 0xFF, 0xC2, 0x00, 0x11, 0x08, 0x00, 0x10, 0x00, 0x20];
    progressive.extend_from_slice(&[0; 8]);
    assert_eq!(image_dimensions(&progressive), Some((32, 16)));
    // A frame cut short is not read.
    assert_eq!(image_dimensions(&[0xFF, 0xD8, 0xFF, 0xC0, 0x00, 0x11, 0x08]), None);
}

#[test]
fn runs_of_equal_references_collapse_to_their_first_entry() {
    let entries = vec![(0, Some(7)), (4, Some(7)), (9, None), (12, None), (15, Some(7)), (20, Some(8))];
    assert_eq!(dedup(entries), vec![(0, Some(7)), (9, None), (15, Some(7)), (20, Some(8))]);
    assert_eq!(dedup(Vec::new()), Vec::new());
    let data = vec![(0, 1, 2), (3, 1, 2), (5, 1, 3), (8, 2, 3), (9, 2, 3)];
    assert_eq!(dedup_data(data), vec![(0, 1, 2), (5, 1, 3), (8, 2, 3)]);
}

#[test]
fn cell_records_carry_the_key_little_endian() {
    assert_eq!(cell_record_bytes(0x0102_0304), [5, 3, 0, 0, 0, 0, 0, 0, 8, 0, 0, 0, 4, 3, 2, 1]);
    assert_eq!(cell_record_bytes(0)[12..], [0, 0, 0, 0]);
}

#[test]
fn utf16_lengths_count_surrogate_pairs() {
    assert_eq!(utf16_len(""), 0);
    assert_eq!(utf16_len("abc"), 3);
    assert_eq!(utf16_len("héllo ✓"), 7);
    assert_eq!(utf16_len("a😀b"), 4);
}

#[test]
fn model_styles_map_to_pages_styles() {
    assert_eq!(pages_style_name("Title"), "Title");
    assert_eq!(pages_style_name("Subtitle"), "Subtitle");
    assert_eq!(pages_style_name("Heading"), "Heading");
    assert_eq!(pages_style_name("Heading 1"), "Heading");
    assert_eq!(pages_style_name("Heading 2"), "Heading 2");
    assert_eq!(pages_style_name("Heading 4"), "Heading 3");
    assert_eq!(pages_style_name("Heading 6"), "Heading 3");
    assert_eq!(pages_style_name("Caption"), "Caption");
    assert_eq!(pages_style_name("Footnote"), "Footnote");
    assert_eq!(pages_style_name("Quote"), "Body");
    assert_eq!(pages_style_name("heading 2"), "Body");
    assert_eq!(pages_style_name(""), "Body");
}
