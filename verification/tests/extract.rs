use stegsolve_rs::analysis::extract::{channel_order_from_index, extract_bits_from_image};
use stegsolve_rs::analysis::pixels::RgbaImage;

fn create_test_image() -> RgbaImage {
    let mut img = RgbaImage::new(2, 2);
    // Pixel (0,0): R=1, G=2, B=4, A=8
    img.put_pixel(0, 0, [1, 2, 4, 8]);
    // Pixel (1,0): R=16, G=32, B=64, A=128
    img.put_pixel(1, 0, [16, 32, 64, 128]);
    img
}

#[test]
fn test_extract_r0_lsb() {
    let img = create_test_image();
    let mask = 1; // R0
    let data = extract_bits_from_image(&img, mask, true, true, [0, 1, 2, 3]);
    // Pixel 0: R=1 (bit 0 is 1), Pixel 1: R=16 (bit 0 is 0) -> 1
    assert_eq!(data[0], 1);
}

#[test]
fn test_extract_r0_msb() {
    let img = create_test_image();
    let mask = 1 << 7; // R7
    let data = extract_bits_from_image(&img, mask, false, true, [0, 1, 2, 3]);
    assert_eq!(data[0], 0);

    let mut img_buf = RgbaImage::new(2, 1);
    img_buf.put_pixel(0, 0, [128, 0, 0, 255]);
    img_buf.put_pixel(1, 0, [128, 0, 0, 255]);
    let data = extract_bits_from_image(&img_buf, mask, false, true, [0, 1, 2, 3]);
    // Bit stream: 1, 1 -> 11000000 (binary) -> 192
    assert_eq!(data[0], 192);
}

#[test]
fn test_extract_column_order() {
    let mut img_buf = RgbaImage::new(2, 2);
    img_buf.put_pixel(0, 0, [1, 0, 0, 255]);
    img_buf.put_pixel(0, 1, [1, 0, 0, 255]);
    img_buf.put_pixel(1, 0, [0, 0, 0, 255]);
    img_buf.put_pixel(1, 1, [0, 0, 0, 255]);

    // Row order: (0,0), (1,0), (0,1), (1,1) -> R: 1, 0, 1, 0
    let data_row = extract_bits_from_image(&img_buf, 1, true, true, [0, 1, 2, 3]);
    assert_eq!(data_row[0], 0b0101);

    // Column order: (0,0), (0,1), (1,0), (1,1) -> R: 1, 1, 0, 0
    let data_col = extract_bits_from_image(&img_buf, 1, true, false, [0, 1, 2, 3]);
    assert_eq!(data_col[0], 0b0011);
}

#[test]
fn test_all_channel_orderings() {
    let mut img_buf = RgbaImage::new(1, 1);
    img_buf.put_pixel(0, 0, [1, 2, 4, 8]);
    let mask = 1 | (1 << 8) | (1 << 16) | (1 << 24); // R0, G0, B0, A0

    // RGBA: 1, 2, 4, 8 bits 0: 1, 0, 0, 0 -> 1
    let data = extract_bits_from_image(&img_buf, mask, true, true, [0, 1, 2, 3]);
    assert_eq!(data[0], 0b0001);

    // BGRA: 4, 2, 1, 8 bits 0: 0, 0, 1, 0 -> 4
    let data = extract_bits_from_image(&img_buf, mask, true, true, [2, 1, 0, 3]);
    assert_eq!(data[0], 0b0100);
}

#[test]
fn test_multi_bit_mask() {
    let mut img_buf = RgbaImage::new(1, 1);
    img_buf.put_pixel(0, 0, [3, 0, 0, 255]); // R0=1, R1=1
    let mask = 3; // R0 and R1
    let data = extract_bits_from_image(&img_buf, mask, true, true, [0, 1, 2, 3]);
    assert_eq!(data[0], 3);
}

#[test]
fn test_partial_byte() {
    let mut img_buf = RgbaImage::new(1, 1);
    img_buf.put_pixel(0, 0, [1, 0, 0, 255]);
    let data = extract_bits_from_image(&img_buf, 1, true, true, [0, 1, 2, 3]);
    assert_eq!(data.len(), 1);
    assert_eq!(data[0], 1);
}

#[test]
fn test_channel_order_mapping() {
    assert_eq!(channel_order_from_index(0), [0, 1, 2, 3]);
    assert_eq!(channel_order_from_index(5), [2, 1, 0, 3]);
    assert_eq!(channel_order_from_index(99), [0, 1, 2, 3]);
}

#[test]
fn channel_orders_are_the_six_permutations_with_alpha_last() {
    assert_eq!(channel_order_from_index(1), [0, 2, 1, 3]);
    assert_eq!(channel_order_from_index(2), [1, 0, 2, 3]);
    assert_eq!(channel_order_from_index(3), [1, 2, 0, 3]);
    assert_eq!(channel_order_from_index(4), [2, 0, 1, 3]);
    assert_eq!(channel_order_from_index(-1), [0, 1, 2, 3]);
}

#[test]
fn empty_mask_extracts_nothing() {
    let img = create_test_image();
    assert!(extract_bits_from_image(&img, 0, true, true, [0, 1, 2, 3]).is_empty());
    assert!(extract_bits_from_image(&img, 0, false, false, [0, 1, 2, 3]).is_empty());
}

#[test]
fn msb_first_reads_planes_from_the_top_and_fills_high_bits() {
    let mut img = RgbaImage::new(1, 1);
    img.put_pixel(0, 0, [0b1000_0001, 0, 0, 0]);
    // R7 and R0 selected; MSB first reads plane 7 then plane 0: bits 1, 1 -> 0b1100_0000
    let data = extract_bits_from_image(&img, 0b1000_0001, false, true, [0, 1, 2, 3]);
    assert_eq!(data, vec![0b1100_0000]);
    // LSB first reads plane 0 then plane 7: bits 1, 1 -> 0b0000_0011
    let data = extract_bits_from_image(&img, 0b1000_0001, true, true, [0, 1, 2, 3]);
    assert_eq!(data, vec![0b0000_0011]);
}

#[test]
fn full_bytes_and_a_trailing_partial_byte() {
    // 9 pixels with R0 = 1 give 9 bits: one full byte and one with a single bit.
    let mut img = RgbaImage::new(9, 1);
    for x in 0..9 {
        img.put_pixel(x, 0, [1, 0, 0, 0]);
    }
    assert_eq!(extract_bits_from_image(&img, 1, true, true, [0, 1, 2, 3]), vec![0xff, 0x01]);
    assert_eq!(extract_bits_from_image(&img, 1, false, true, [0, 1, 2, 3]), vec![0xff, 0x80]);
}

#[test]
fn all_bits_of_a_pixel_reproduce_its_bytes() {
    let mut img = RgbaImage::new(1, 1);
    img.put_pixel(0, 0, [0x12, 0x34, 0x56, 0x78]);
    // LSB first with the channels in order: plane 0 of R,G,B,A, then plane 1, ...
    let data = extract_bits_from_image(&img, u32::MAX, true, true, [0, 1, 2, 3]);
    assert_eq!(data.len(), 4);
    // MSB first, alpha only: the bits of alpha from the top give alpha itself.
    let data = extract_bits_from_image(&img, 0xff00_0000, false, true, [0, 1, 2, 3]);
    assert_eq!(data, vec![0x78]);
    let data = extract_bits_from_image(&img, 0x0000_00ff, true, true, [0, 1, 2, 3]);
    assert_eq!(data, vec![0x12]);
}

#[test]
fn output_length_follows_the_number_of_selected_bits() {
    let img = RgbaImage::new(3, 2);
    // Three bits selected over six pixels: 18 bits, 3 bytes, in every order.
    let mask = 1 | (1 << 9) | (1 << 31);
    for index in 0..6 {
        let order = channel_order_from_index(index);
        for &(lsb, rows) in &[(true, true), (true, false), (false, true), (false, false)] {
            assert_eq!(extract_bits_from_image(&img, mask, lsb, rows, order).len(), 3);
        }
    }
    assert_eq!(extract_bits_from_image(&img, u32::MAX, true, true, [0, 1, 2, 3]).len(), 24);
}

#[test]
fn extraction_from_a_blank_image() {
    let img = RgbaImage::new(10, 10);
    let data = extract_bits_from_image(&img, 1, true, true, [0, 1, 2, 3]);
    assert!(data.len() > 0);
    assert_eq!(data, vec![0; 13]);
}

fn three_by_two() -> RgbaImage {
    let mut img = RgbaImage::new(3, 2);
    let mut v: u8 = 7;
    for y in 0..2 {
        for x in 0..3 {
            img.put_pixel(x, y, [v, v.wrapping_mul(3), v.wrapping_add(100), 255 - v]);
            v = v.wrapping_mul(37).wrapping_add(11);
        }
    }
    img
}

#[test]
fn a_whole_channel_mask_gives_back_that_channel() {
    let img = three_by_two();
    for c in 0..4u32 {
        let mask = 0xFFu32 << (8 * c);
        let rows: Vec<u8> = (0..2).flat_map(|y| (0..3).map(move |x| (x, y))).map(|(x, y)| img.get_pixel(x, y)[c as usize]).collect();
        let cols: Vec<u8> = (0..3).flat_map(|x| (0..2).map(move |y| (x, y))).map(|(x, y)| img.get_pixel(x, y)[c as usize]).collect();
        for lsb_first in [true, false] {
            for order in [[0, 1, 2, 3], [3, 2, 1, 0], [2, 3, 0, 1]] {
                assert_eq!(extract_bits_from_image(&img, mask, lsb_first, true, order), rows);
                assert_eq!(extract_bits_from_image(&img, mask, lsb_first, false, order), cols);
            }
        }
    }
}

#[test]
fn output_length_holds_for_any_channel_permutation() {
    let img = three_by_two();
    // Mask with 5 bits set: 6 pixels * 5 bits = 30 bits -> 4 bytes.
    let mask = 0b1_0000_0001_0000_0001_0000_0011u32;
    for order in [[3, 2, 1, 0], [3, 0, 1, 2], [1, 3, 0, 2]] {
        assert_eq!(extract_bits_from_image(&img, mask, true, true, order).len(), 4);
        assert_eq!(extract_bits_from_image(&img, mask, false, false, order).len(), 4);
    }
}
