use sublime::png::reader::{key_value, paeth, pass_size, predict, sample_bits, scale_to_byte, unfilter_row, Header, PngError};
use sublime::png::{adler32, adler32_update};

fn byte_loop(bytes: &[u8]) -> u32 {
    let mut a: u32 = 1;
    let mut b: u32 = 0;
    for byte in bytes {
        a = (a + u32::from(*byte)) % 65_521;
        b = (b + a) % 65_521;
    }
    (b << 16) | a
}

#[test]
fn adler_matches_the_byte_loop_at_every_split() {
    let text: Vec<u8> = (0..20_000u32).map(|i| (i * 7 + i / 3) as u8).collect();
    let mut a: u32 = 1;
    let mut b: u32 = 0;
    for byte in &text {
        a = (a + u32::from(*byte)) % 65_521;
        b = (b + a) % 65_521;
    }
    let expected = (b << 16) | a;
    assert_eq!(adler32(&text), expected);
    for split in [0usize, 1, 31, 32, 33, 5551, 5552, 5553, 12_345, 19_999] {
        assert_eq!(adler32_update(adler32(&text[..split]), &text[split..]), expected);
    }
    assert_eq!(adler32(b"Wikipedia"), 0x11E6_0398);
    let bright = vec![255u8; 6000];
    let mut a: u32 = 1;
    let mut b: u32 = 0;
    for byte in &bright {
        a = (a + u32::from(*byte)) % 65_521;
        b = (b + a) % 65_521;
    }
    assert_eq!(adler32(&bright), (b << 16) | a);
}

#[test]
fn samples_unpack_at_every_depth() {
    assert_eq!(sample_bits(&[0b1010_0000], 0, 1), 1);
    assert_eq!(sample_bits(&[0b1010_0000], 1, 1), 0);
    assert_eq!(sample_bits(&[0b1110_0100], 1, 2), 2);
    assert_eq!(sample_bits(&[0xAB], 1, 4), 0xB);
    assert_eq!(sample_bits(&[0x12, 0x34], 0, 16), 0x1234);
    assert_eq!(scale_to_byte(3, 2), 255);
    assert_eq!(scale_to_byte(0x1234, 16), 0x12);
}

#[test]
fn paeth_picks_the_nearest_predictor() {
    assert_eq!(paeth(10, 20, 10), 20);
    assert_eq!(paeth(10, 20, 20), 10);
    assert_eq!(paeth(0, 0, 0), 0);
}

#[test]
fn adler_of_nothing_is_one_and_updates_compose() {
    assert_eq!(adler32(&[]), 1);
    assert_eq!(adler32_update(7, &[]), 7);
    let data: Vec<u8> = (0..100_000u32).map(|i| (i % 251) as u8).collect();
    assert_eq!(adler32(&data), byte_loop(&data));
    let first = adler32_update(1, &data[..40_000]);
    assert_eq!(adler32_update(first, &data[40_000..]), byte_loop(&data));
}

#[test]
fn predictions_follow_the_filter_type() {
    assert_eq!(predict(0, 9, 8, 7), 0);
    assert_eq!(predict(1, 9, 8, 7), 9);
    assert_eq!(predict(2, 9, 8, 7), 8);
    assert_eq!(predict(3, 255, 255, 0), 255);
    assert_eq!(predict(3, 9, 8, 7), 8);
    assert_eq!(predict(4, 10, 20, 10), 20);
}

#[test]
fn unfiltering_undoes_each_filter() {
    let previous = [10u8, 20, 30, 40];
    let source = [1u8, 2, 3, 4];
    let mut current = [0u8; 4];
    unfilter_row(0, &source, &previous, 1, &mut current).unwrap();
    assert_eq!(current, [1, 2, 3, 4]);
    unfilter_row(1, &source, &previous, 1, &mut current).unwrap();
    assert_eq!(current, [1, 3, 6, 10]);
    unfilter_row(2, &source, &previous, 1, &mut current).unwrap();
    assert_eq!(current, [11, 22, 33, 44]);
    unfilter_row(3, &source, &[], 2, &mut current).unwrap();
    assert_eq!(current, [1, 2, 3, 5]);
    let wrap = [200u8, 100];
    unfilter_row(1, &wrap, &[], 1, &mut current[..2]).unwrap();
    assert_eq!(&current[..2], &[200, 44]);
}

#[test]
fn unknown_filter_types_are_refused() {
    let mut current = [0u8; 2];
    let result = unfilter_row(5, &[1, 2], &[], 1, &mut current);
    assert_eq!(result, Err(PngError(String::from("bad filter type 5"))));
    let result = unfilter_row(200, &[1, 2], &[], 1, &mut current);
    assert_eq!(result, Err(PngError(String::from("bad filter type 200"))));
}

#[test]
fn scaling_spreads_low_depths() {
    assert_eq!(scale_to_byte(1, 1), 255);
    assert_eq!(scale_to_byte(0, 1), 0);
    assert_eq!(scale_to_byte(1, 2), 85);
    assert_eq!(scale_to_byte(7, 4), 119);
    assert_eq!(scale_to_byte(200, 8), 200);
    assert_eq!(sample_bits(&[0xAB, 0xCD], 2, 4), 0xC);
    assert_eq!(sample_bits(&[0, 0x80], 8, 1), 1);
    assert_eq!(sample_bits(&[5, 6, 7], 2, 8), 7);
}

#[test]
fn transparency_keys_are_big_endian() {
    assert_eq!(key_value(&[0x01, 0x02, 0x03], 1), Some(0x0203));
    assert_eq!(key_value(&[0x01, 0x02], 1), None);
}

#[test]
fn interlace_passes_cover_the_image() {
    let header = Header { width: 10, height: 5, depth: 8, color: 2, interlaced: true };
    assert_eq!(pass_size(&header, 0), (2, 1));
    assert_eq!(pass_size(&header, 1), (1, 1));
    assert_eq!(pass_size(&header, 6), (10, 2));
    let tiny = Header { width: 1, height: 1, depth: 8, color: 0, interlaced: true };
    assert_eq!(pass_size(&tiny, 1), (0, 1));
}

#[test]
fn headers_give_the_row_layout() {
    let rgb = Header { width: 10, height: 5, depth: 8, color: 2, interlaced: false };
    assert_eq!(rgb.samples(), 3);
    assert_eq!(rgb.filter_unit(), 3);
    assert_eq!(rgb.row_bytes(10), 30);
    let bits = Header { width: 10, height: 5, depth: 1, color: 0, interlaced: false };
    assert_eq!(bits.samples(), 1);
    assert_eq!(bits.filter_unit(), 1);
    assert_eq!(bits.row_bytes(10), 2);
    let wide = Header { width: 3, height: 1, depth: 16, color: 6, interlaced: false };
    assert_eq!(wide.samples(), 4);
    assert_eq!(wide.filter_unit(), 8);
    assert_eq!(wide.row_bytes(3), 24);
}

#[test]
fn rows_take_the_cheapest_filter() {
    let row = [10u8, 20, 30, 40];
    let above = [0u8; 4];
    let mut scratch = [0u8; 4];
    let mut out = vec![7u8];
    let filter = sublime::png::writer::filter_row(None, &row, &above, 1, &mut scratch, &mut out);
    assert_eq!(filter, 1);
    assert_eq!(out, vec![7, 1, 10, 10, 10, 10]);

    let mut kept = Vec::new();
    let filter = sublime::png::writer::filter_row(Some(2), &row, &[5, 5, 5, 5], 1, &mut scratch, &mut kept);
    assert_eq!(filter, 2);
    assert_eq!(kept, vec![2, 5, 15, 25, 35]);

    let mut plain = Vec::new();
    let filter = sublime::png::writer::filter_row(Some(0), &row, &above, 1, &mut scratch, &mut plain);
    assert_eq!(filter, 0);
    assert_eq!(plain, vec![0, 10, 20, 30, 40]);
}
