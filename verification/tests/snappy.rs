use sublime::snappy::{compress_block, decompress_block, encode_literal_block, uncompressed_length, SnappyError};

fn decode(block: &[u8]) -> Result<Vec<u8>, SnappyError> {
    let mut out = Vec::new();
    decompress_block(block, &mut out, 1 << 20)?;
    Ok(out)
}

fn round_trip(data: &[u8]) -> usize {
    let mut block = Vec::new();
    compress_block(data, &mut block);
    let mut back = Vec::new();
    decompress_block(&block, &mut back, 1 << 24).unwrap();
    assert_eq!(back, data);
    block.len()
}

#[test]
fn literals_and_copies() {
    // "abcabcabcabc": length 12, literal "abc", copy of 9 bytes from 3 back.
    let block = [12, 0x08, b'a', b'b', b'c', (5 << 2) | 1, 3];
    assert_eq!(decode(&block).unwrap(), b"abcabcabcabc");
}

#[test]
fn long_literal_uses_extra_length_bytes() {
    let mut block = vec![100, (60 << 2), 99];
    block.extend(std::iter::repeat_n(b'x', 100));
    assert_eq!(decode(&block).unwrap(), vec![b'x'; 100]);
}

#[test]
fn two_byte_offset_copy() {
    let mut block = vec![8, 0x0C, 1, 2, 3, 4];
    block.extend([(3 << 2) | 2, 4, 0]);
    assert_eq!(decode(&block).unwrap(), [1, 2, 3, 4, 1, 2, 3, 4]);
}

#[test]
fn bad_input_is_an_error() {
    assert_eq!(decode(&[3, 0x08, b'a']), Err(SnappyError::Truncated { offset: 1 }));
    assert_eq!(decode(&[4, 0x00, b'a', 1, 9]), Err(SnappyError::BadOffset { offset: 3 }));
    assert!(matches!(decode(&[5, 0x00, b'a']), Err(SnappyError::LengthMismatch { .. })));
}

#[test]
fn literal_blocks_decode_back() {
    for size in [0usize, 1, 59, 60, 61, 255, 256, 65535, 65536, 70000] {
        let data: Vec<u8> = (0..size).map(|index| (index * 7) as u8).collect();
        let mut block = Vec::new();
        encode_literal_block(&data, &mut block);
        let mut back = Vec::new();
        decompress_block(&block, &mut back, 1 << 20).unwrap();
        assert_eq!(back, data, "size {size}");
    }
}

#[test]
fn compressed_blocks_decode_back_and_shrink() {
    assert_eq!(round_trip(b""), 1);
    round_trip(b"abc");
    let repeated = b"the quick brown fox jumps over the lazy dog. ".repeat(200);
    assert!(round_trip(&repeated) < repeated.len() / 10);
    let mut mixed = Vec::new();
    for index in 0..100_000u32 {
        mixed.extend_from_slice(&(index.wrapping_mul(2_654_435_761) % 977).to_le_bytes());
    }
    round_trip(&mixed);
    let random: Vec<u8> = (0..50_000u32)
        .map(|index| (index.wrapping_mul(2_654_435_761) >> 24) as u8)
        .collect();
    assert!(round_trip(&random) <= random.len() + 10);
    let long_run = vec![7u8; 300_000];
    assert!(round_trip(&long_run) < 16_000);
}

#[test]
fn declared_length_and_limits() {
    assert_eq!(uncompressed_length(&[0x96, 0x01, 0x00]), Ok((150, 2)));
    assert_eq!(uncompressed_length(&[0x80]), Err(SnappyError::Truncated { offset: 0 }));
    let mut out = Vec::new();
    assert_eq!(decompress_block(&[100, 0], &mut out, 10), Err(SnappyError::TooLarge { declared: 100 }));
    // Appending keeps what was there.
    let mut out = vec![9u8];
    decompress_block(&[3, 0x08, b'a', b'b', b'c'], &mut out, 10).unwrap();
    assert_eq!(out, vec![9, b'a', b'b', b'c']);
}

#[test]
fn short_copies_use_the_one_byte_offset_form() {
    let data = b"abcdabcdabcd";
    let mut block = Vec::new();
    compress_block(data, &mut block);
    // Length, a four-byte literal, and one copy of eight bytes four back.
    assert_eq!(block, vec![12, 0x0C, b'a', b'b', b'c', b'd', 1 | (4 << 2), 4]);
}

#[test]
fn long_runs_split_into_two_byte_offset_copies() {
    let data = [b'a'; 100];
    let mut block = Vec::new();
    compress_block(&data, &mut block);
    // Length, a one-byte literal, then 99 bytes one back as a copy of 64
    // and a copy of 35.
    assert_eq!(block, vec![100, 0, b'a', 2 | (63 << 2), 1, 0, 2 | (34 << 2), 1, 0]);
    let mut back = Vec::new();
    decompress_block(&block, &mut back, 100).unwrap();
    assert_eq!(back, data.to_vec());
}

#[test]
fn errors_keep_what_out_held() {
    let mut out = vec![1, 2, 3];
    assert_eq!(decompress_block(&[100, 0], &mut out, 10), Err(SnappyError::TooLarge { declared: 100 }));
    assert_eq!(out, vec![1, 2, 3]);
    assert_eq!(decompress_block(&[], &mut out, 10), Err(SnappyError::Truncated { offset: 0 }));
    assert_eq!(out, vec![1, 2, 3]);
    // A literal of two bytes, then a copy from before the block's output.
    let result = decompress_block(&[6, 0x04, b'a', b'b', 0x01, 9], &mut out, 10);
    assert_eq!(result, Err(SnappyError::BadOffset { offset: 4 }));
    assert_eq!(&out[..3], &[1, 2, 3]);
}
