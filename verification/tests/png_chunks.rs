use sublime::png::chunks::{
    check_crc, finish_chunks, next_chunk, note_dropped, parse_header, read_palette, signature_matches, ChunkAction,
    ChunkState, IDAT, IEND, IHDR, MAX_WHOLE_CHUNK, PLTE, TRNS,
};
use sublime::png::reader::{Header, PngError};
use sublime::png::writer::{ihdr_data, RowAction, RowPlan, PART_SIZE};

fn start() -> ChunkState {
    ChunkState { header: None, palette_len: 0, decoding: false }
}

fn header(color: u8) -> Header {
    Header { width: 2, height: 3, depth: 8, color, interlaced: false }
}

fn message(result: Result<ChunkAction, PngError>) -> String {
    result.unwrap_err().0
}

#[test]
fn signature_is_checked() {
    assert!(signature_matches(&[0x89, b'P', b'N', b'G', b'\r', b'\n', 0x1a, b'\n']));
    assert!(!signature_matches(&[0x89, b'P', b'N', b'G', b'\r', b'\n', 0x1a, b'\r']));
    assert!(!signature_matches(b"\x89PNG"));
}

#[test]
fn chunk_types_choose_their_action() {
    let state = start();
    assert_eq!(next_chunk(&state, 13, IHDR), Ok(ChunkAction::Header));
    assert_eq!(next_chunk(&state, 6, PLTE), Ok(ChunkAction::Palette));
    assert_eq!(next_chunk(&state, 2, TRNS), Ok(ChunkAction::Transparency));
    assert_eq!(next_chunk(&state, 0, IEND), Ok(ChunkAction::End));
    assert_eq!(next_chunk(&state, 9, *b"gAMA"), Ok(ChunkAction::Skip));
    let with_header = ChunkState { header: Some(header(2)), palette_len: 0, decoding: false };
    assert_eq!(next_chunk(&with_header, 100, IDAT), Ok(ChunkAction::StartImage));
    let decoding = ChunkState { header: Some(header(2)), palette_len: 0, decoding: true };
    assert_eq!(next_chunk(&decoding, 100, IDAT), Ok(ChunkAction::Image));
}

#[test]
fn damaged_chunk_sequences_are_refused() {
    let state = start();
    assert_eq!(message(next_chunk(&state, 0, *b"I1AT")), "bad chunk type");
    assert_eq!(message(next_chunk(&state, 0, IDAT)), "IDAT before IHDR");
    assert_eq!(message(next_chunk(&state, 1, IEND)), "IEND chunk with data");
    assert_eq!(message(next_chunk(&state, 0, *b"ABCD")), "unknown critical chunk ABCD");
    assert_eq!(message(next_chunk(&state, MAX_WHOLE_CHUNK + 1, PLTE)), "PLTE chunk too long");
    assert_eq!(message(next_chunk(&state, MAX_WHOLE_CHUNK + 1, IHDR)), "IHDR chunk too long");
    let with_header = ChunkState { header: Some(header(3)), palette_len: 0, decoding: false };
    assert_eq!(message(next_chunk(&with_header, 13, IHDR)), "two IHDR chunks");
    assert_eq!(message(next_chunk(&with_header, 10, IDAT)), "a palette image without a PLTE chunk");
    let with_palette = ChunkState { header: Some(header(3)), palette_len: 2, decoding: false };
    assert_eq!(next_chunk(&with_palette, 10, IDAT), Ok(ChunkAction::StartImage));
}

#[test]
fn crc_must_match() {
    assert_eq!(check_crc([0xAE, 0x42, 0x60, 0x82], 0xAE426082, IEND), Ok(()));
    assert_eq!(check_crc([0xAE, 0x42, 0x60, 0x83], 0xAE426082, IEND), Err(PngError("bad CRC in chunk IEND".to_string())));
}

#[test]
fn headers_are_checked() {
    let data = [0, 0, 1, 0, 0, 0, 0, 2, 8, 6, 0, 0, 1];
    assert_eq!(parse_header(&data), Ok(Header { width: 256, height: 2, depth: 8, color: 6, interlaced: true }));
    assert_eq!(parse_header(&data[..12]), Err(PngError("bad IHDR length".to_string())));
    let mut bad_color = data;
    bad_color[9] = 5;
    assert_eq!(parse_header(&bad_color), Err(PngError("bad color type 5".to_string())));
    let mut bad_depth = data;
    bad_depth[8] = 4;
    assert_eq!(parse_header(&bad_depth), Err(PngError("bad bit depth 4 for color type 6".to_string())));
    let mut bad_method = data;
    bad_method[12] = 2;
    assert_eq!(
        parse_header(&bad_method),
        Err(PngError("unknown compression, filter, or interlace method".to_string()))
    );
}

#[test]
fn palettes_hold_whole_entries() {
    assert_eq!(read_palette(&[1, 2, 3, 4, 5, 6]), Ok(vec![[1, 2, 3], [4, 5, 6]]));
    assert_eq!(read_palette(&[1, 2]), Err(PngError("bad palette length".to_string())));
    assert_eq!(read_palette(&[]), Err(PngError("bad palette length".to_string())));
    assert_eq!(read_palette(&[0; 771]), Err(PngError("bad palette length".to_string())));
}

#[test]
fn dropped_chunks_are_noted_once() {
    let mut dropped = Vec::new();
    note_dropped(&mut dropped, *b"gAMA");
    note_dropped(&mut dropped, *b"tEXt");
    note_dropped(&mut dropped, *b"gAMA");
    assert_eq!(dropped, vec![*b"gAMA", *b"tEXt"]);
}

#[test]
fn the_end_needs_a_header_and_image_data() {
    assert_eq!(finish_chunks(&start()), Err(PngError("no IHDR chunk".to_string())));
    let no_data = ChunkState { header: Some(header(2)), palette_len: 0, decoding: false };
    assert_eq!(finish_chunks(&no_data), Err(PngError("no IDAT chunk".to_string())));
    let done = ChunkState { header: Some(header(2)), palette_len: 0, decoding: true };
    assert_eq!(finish_chunks(&done), Ok(header(2)));
}

#[test]
fn header_data_is_big_endian() {
    assert_eq!(ihdr_data(0x0102_0304, 2, 6), vec![1, 2, 3, 4, 0, 0, 0, 2, 8, 6, 0, 0, 0]);
}

#[test]
fn rows_are_planned_in_parts() {
    let mut plan = RowPlan::new(3);
    assert_eq!(plan.kept_filter(), None);
    assert_eq!(plan.after_row(2, 10), RowAction::Continue);
    assert_eq!(plan.kept_filter(), Some(2));
    assert_eq!(plan.after_row(2, PART_SIZE), RowAction::Part);
    assert_eq!(plan.after_row(4, 10), RowAction::Finish);
    assert_eq!(plan.rows_left, 0);
    assert_eq!(plan.rows_seen, 3);
}
