use stegsolve_rs::analysis::extract::extract_bits_from_image;
use stegsolve_rs::analysis::filters::{process_image_bytes, FilterMode};
use stegsolve_rs::analysis::pixels::RgbaImage;

#[test]
fn test_workflow_load_and_filter() {
    let mut img_buf = RgbaImage::new(1, 1);
    img_buf.put_pixel(0, 0, [255, 0, 0, 255]);

    // Testing filtered bytes
    let (_, _, bytes) = process_image_bytes(&img_buf, FilterMode::Invert);
    assert_eq!(bytes[0], 0);
    assert_eq!(bytes[1], 255);
    assert_eq!(bytes[2], 255);
}

#[test]
fn test_workflow_extract() {
    let mut img_buf = RgbaImage::new(8, 1);
    for x in 0..8 {
        // Put data in R0 bit
        let val = if x % 2 == 0 { 1 } else { 0 };
        img_buf.put_pixel(x, 0, [val, 0, 0, 255]);
    }

    // Extract R0 bit
    let data = extract_bits_from_image(&img_buf, 1, true, true, [0, 1, 2, 3]);
    // Bits: 1, 0, 1, 0, 1, 0, 1, 0 -> 85
    assert_eq!(data[0], 85);
}
