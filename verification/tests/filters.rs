use stegsolve_rs::analysis::filters::{
    apply_filter_pixel, blend_overlay_bytes, process_image, process_image_bytes, render_mask_overlay_bytes,
    FilterMode,
};
use stegsolve_rs::analysis::pixels::RgbaImage;

#[test]
fn test_filter_normal() {
    assert_eq!(apply_filter_pixel(10, 20, 30, 40, FilterMode::Normal), [10, 20, 30, 40]);
}

#[test]
fn test_filter_invert() {
    assert_eq!(apply_filter_pixel(10, 20, 30, 40, FilterMode::Invert), [245, 235, 225, 40]);
}

#[test]
fn test_filter_gray() {
    let pixel = apply_filter_pixel(100, 100, 100, 255, FilterMode::Gray);
    assert_eq!(pixel[0], pixel[1]);
    assert_eq!(pixel[1], pixel[2]);
    assert_eq!(pixel[3], 255);
}

#[test]
fn test_bit_planes() {
    assert_eq!(apply_filter_pixel(1, 0, 0, 255, FilterMode::RedPlane(0)), [255, 255, 255, 255]);
    assert_eq!(apply_filter_pixel(2, 0, 0, 255, FilterMode::RedPlane(0)), [0, 0, 0, 255]);
    assert_eq!(apply_filter_pixel(128, 0, 0, 255, FilterMode::RedPlane(7)), [255, 255, 255, 255]);
}

#[test]
fn test_filter_cycle() {
    let mode = FilterMode::Normal;
    let next = mode.next();
    assert_eq!(next, FilterMode::Invert);
    let prev = next.prev();
    assert_eq!(prev, FilterMode::Normal);
}

#[test]
fn test_binary_threshold() {
    assert_eq!(apply_filter_pixel(200, 200, 200, 255, FilterMode::BinaryThreshold), [255, 255, 255, 255]);
    assert_eq!(apply_filter_pixel(50, 50, 50, 255, FilterMode::BinaryThreshold), [0, 0, 0, 255]);
}

#[test]
fn test_process_image() {
    let mut img_buf = RgbaImage::new(2, 2);
    img_buf.put_pixel(0, 0, [255, 0, 0, 255]);
    let (w, h, bytes) = process_image_bytes(&img_buf, FilterMode::Invert);
    assert_eq!(w, 2);
    assert_eq!(h, 2);
    assert_eq!(bytes[0], 0);
    assert_eq!(bytes[1], 255);
    assert_eq!(bytes[2], 255);
}

#[test]
fn test_blend_overlay() {
    let base = vec![100, 100, 100, 255, 200, 200, 200, 255];
    let overlay = vec![255, 0, 0, 128, 0, 255, 0, 255]; // 50% red, 100% green
    let blended = blend_overlay_bytes(&base, &overlay);
    assert_eq!(blended.len(), 8);
    // Second pixel should be pure green because overlay alpha is 255
    assert_eq!(blended[4], 0);
    assert_eq!(blended[5], 255);
    assert_eq!(blended[6], 0);
}

#[test]
fn test_filter_to_string() {
    assert_eq!(FilterMode::Normal.to_string(), "Normal Image");
    assert_eq!(FilterMode::RedPlane(0).to_string(), "Red Plane 0");
}

#[test]
fn names_of_every_kind_of_mode() {
    assert_eq!(FilterMode::Invert.to_string(), "Inverted");
    assert_eq!(FilterMode::Gray.to_string(), "Grayscale");
    assert_eq!(FilterMode::RandomMap.to_string(), "Random Color Map");
    assert_eq!(FilterMode::BinaryThreshold.to_string(), "Binary Threshold");
    assert_eq!(FilterMode::GreenPlane(7).to_string(), "Green Plane 7");
    assert_eq!(FilterMode::BluePlane(3).to_string(), "Blue Plane 3");
    assert_eq!(FilterMode::AlphaPlane(12).to_string(), "Alpha Plane 12");
}

#[test]
fn next_walks_the_whole_cycle_of_37_modes() {
    let start = FilterMode::Normal;
    let mut mode = start;
    let mut seen = Vec::new();
    for _ in 0..37 {
        assert!(!seen.contains(&mode));
        seen.push(mode);
        mode = mode.next();
    }
    assert_eq!(mode, start);
    assert_eq!(FilterMode::BinaryThreshold.next(), FilterMode::RedPlane(7));
    assert_eq!(FilterMode::RedPlane(0).next(), FilterMode::GreenPlane(7));
    assert_eq!(FilterMode::GreenPlane(0).next(), FilterMode::BluePlane(7));
    assert_eq!(FilterMode::BluePlane(0).next(), FilterMode::AlphaPlane(7));
    assert_eq!(FilterMode::AlphaPlane(0).next(), FilterMode::Normal);
    assert_eq!(FilterMode::RedPlane(9).next(), FilterMode::RedPlane(8));
}

#[test]
fn prev_undoes_next_everywhere() {
    let mut mode = FilterMode::Normal;
    for _ in 0..37 {
        assert_eq!(mode.next().prev(), mode);
        assert_eq!(mode.prev().next(), mode);
        mode = mode.next();
    }
    assert_eq!(FilterMode::Normal.prev(), FilterMode::AlphaPlane(0));
    assert_eq!(FilterMode::RedPlane(7).prev(), FilterMode::BinaryThreshold);
}

#[test]
fn random_map_and_other_planes() {
    assert_eq!(apply_filter_pixel(1, 1, 1, 9, FilterMode::RandomMap), [(1234567u32 % 256) as u8, (7654321u32 % 256) as u8, (5555555u32 % 256) as u8, 255]);
    assert_eq!(apply_filter_pixel(0, 0, 0, 9, FilterMode::RandomMap), [0, 0, 0, 255]);
    assert_eq!(apply_filter_pixel(0, 4, 0, 0, FilterMode::GreenPlane(2)), [255, 255, 255, 255]);
    assert_eq!(apply_filter_pixel(0, 0, 4, 0, FilterMode::BluePlane(1)), [0, 0, 0, 255]);
    assert_eq!(apply_filter_pixel(0, 0, 0, 0x80, FilterMode::AlphaPlane(7)), [255, 255, 255, 255]);
}

#[test]
fn threshold_boundary_and_invert_twice() {
    // (128 + 128 + 127) / 3 = 127 is not above 127
    assert_eq!(apply_filter_pixel(128, 128, 127, 1, FilterMode::BinaryThreshold), [0, 0, 0, 255]);
    assert_eq!(apply_filter_pixel(128, 128, 128, 1, FilterMode::BinaryThreshold), [255, 255, 255, 255]);
    let once = apply_filter_pixel(12, 34, 56, 78, FilterMode::Invert);
    assert_eq!(apply_filter_pixel(once[0], once[1], once[2], once[3], FilterMode::Invert), [12, 34, 56, 78]);
}

#[test]
fn gray_matches_single_precision_arithmetic_everywhere() {
    for r in 0..=255u8 {
        for g in 0..=255u8 {
            for b in 0..=255u8 {
                let expected = (0.299 * r as f32 + 0.587 * g as f32 + 0.114 * b as f32) as u8;
                let px = apply_filter_pixel(r, g, b, 7, FilterMode::Gray);
                assert_eq!(px, [expected, expected, expected, 255], "rgb {} {} {}", r, g, b);
            }
        }
    }
}

#[test]
fn mask_overlay_marks_selected_bits() {
    let mut img = RgbaImage::new(3, 1);
    img.put_pixel(0, 0, [1, 0, 0, 0]);
    img.put_pixel(1, 0, [0, 0, 0, 1]);
    img.put_pixel(2, 0, [2, 2, 2, 2]);
    // Red bit 0 and alpha bit 0 selected.
    let (w, h, bytes) = render_mask_overlay_bytes(&img, 1 | (1 << 24));
    assert_eq!((w, h), (3, 1));
    assert_eq!(bytes, vec![255, 0, 0, 180, 255, 255, 255, 180, 0, 0, 0, 0]);
    let (_, _, none) = render_mask_overlay_bytes(&img, 0);
    assert_eq!(none, vec![0; 12]);
}

#[test]
fn blend_extremes_and_uneven_buffers() {
    // Transparent overlay keeps the base colour, opaque overlay replaces it.
    let base = vec![10, 20, 30, 40, 50, 60, 70, 80, 1];
    let overlay = vec![200, 210, 220, 0, 90, 91, 92, 255];
    assert_eq!(blend_overlay_bytes(&base, &overlay), vec![10, 20, 30, 255, 90, 91, 92, 255]);
    assert_eq!(blend_overlay_bytes(&base, &[]), Vec::<u8>::new());
    assert_eq!(blend_overlay_bytes(&[1, 2, 3], &[1, 2, 3, 4]), Vec::<u8>::new());
}

#[test]
fn process_image_keeps_the_size() {
    let mut img = RgbaImage::new(3, 2);
    img.put_pixel(2, 1, [9, 8, 7, 6]);
    let (w, h, bytes) = process_image_bytes(&img, FilterMode::Normal);
    assert_eq!((w, h, bytes.len()), (3, 2, 24));
    let out = process_image(&img, FilterMode::Invert);
    assert_eq!(out.dimensions(), (3, 2));
    assert_eq!(out.get_pixel(2, 1), [246, 247, 248, 6]);
    assert_eq!(out.get_pixel(0, 0), [255, 255, 255, 0]);
}
