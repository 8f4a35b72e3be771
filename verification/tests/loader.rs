use stegsolve_rs::analysis::loader::{image_from_decoded, load_frames_from_bytes, usable_gif_frames, LoadError};

#[test]
fn test_load_invalid_bytes() {
    let result = load_frames_from_bytes(&[0, 1, 2, 3]);
    assert!(result.is_err());
}

#[test]
fn test_load_png() {
    // Transparent 1x1 PNG
    let png_bytes = vec![
        0x89, 0x50, 0x4E, 0x47, 0x0D, 0x0A, 0x1A, 0x0A, 0x00, 0x00, 0x00, 0x0D, 0x49, 0x48,
        0x44, 0x52, 0x00, 0x00, 0x00, 0x01, 0x00, 0x00, 0x00, 0x01, 0x08, 0x06, 0x00, 0x00,
        0x00, 0x1F, 0x15, 0xC4, 0x89, 0x00, 0x00, 0x00, 0x0A, 0x49, 0x44, 0x41, 0x54, 0x78,
        0x9C, 0x63, 0x00, 0x01, 0x00, 0x00, 0x05, 0x00, 0x01, 0x0D, 0x0A, 0x2D, 0xB4, 0x00,
        0x00, 0x00, 0x00, 0x49, 0x45, 0x4E, 0x44, 0xAE, 0x42, 0x60, 0x82,
    ];
    let frames = load_frames_from_bytes(&png_bytes).unwrap();
    assert_eq!(frames.len(), 1);
    assert_eq!(frames[0].width(), 1);
    assert_eq!(frames[0].height(), 1);
}

#[test]
fn load_error_message() {
    let err = load_frames_from_bytes(b"not an image at all").unwrap_err();
    assert_eq!(err, LoadError::UnrecognizedFormat);
    assert_eq!(err.message(), "Unrecognized image format. Stegsolve-rs tried all decoders but failed.");
}

#[test]
fn decoded_results_become_images() {
    let img = image_from_decoded(Some((2, 1, vec![1, 2, 3, 4, 5, 6, 7, 8, 9]))).unwrap();
    assert_eq!(img.dimensions(), (2, 1));
    assert_eq!(img.as_raw(), &vec![1, 2, 3, 4, 5, 6, 7, 8]);
    assert!(image_from_decoded(Some((2, 1, vec![1, 2, 3]))).is_none());
    assert!(image_from_decoded(None).is_none());
    let frames = usable_gif_frames(vec![(1, 1, vec![1, 2, 3, 4]), (1, 1, vec![]), (1, 1, vec![5, 6, 7, 8])]);
    assert_eq!(frames.len(), 2);
    assert_eq!(frames[0].get_pixel(0, 0), [1, 2, 3, 4]);
    assert_eq!(frames[1].get_pixel(0, 0), [5, 6, 7, 8]);
}

fn tiny_gif(frames: usize) -> Vec<u8> {
    // A 1x1 GIF with a two-colour global palette (black, white); frame k uses colour k % 2.
    let mut g = b"GIF89a".to_vec();
    g.extend_from_slice(&[1, 0, 1, 0, 0x80, 0, 0]);
    g.extend_from_slice(&[0, 0, 0, 255, 255, 255]);
    for k in 0..frames {
        g.extend_from_slice(&[0x2C, 0, 0, 0, 0, 1, 0, 1, 0, 0]);
        // LZW, min code size 2: clear, index, end
        let code = if k % 2 == 0 { 0x44 } else { 0x4C };
        g.extend_from_slice(&[2, 2, code, 0x01, 0]);
    }
    g.push(0x3B);
    g
}

#[test]
fn gif_frames_are_all_loaded() {
    let frames = load_frames_from_bytes(&tiny_gif(3)).unwrap();
    assert_eq!(frames.len(), 3);
    assert_eq!(frames[0].get_pixel(0, 0), [0, 0, 0, 255]);
    assert_eq!(frames[1].get_pixel(0, 0), [255, 255, 255, 255]);
}

#[test]
fn formats_without_a_signature_are_found_by_trying_each_decoder() {
    // A 1x1 uncompressed true-colour TGA: TGA has no signature to guess from.
    let tga = vec![0, 0, 2, 0, 0, 0, 0, 0, 0, 0, 0, 0, 1, 0, 1, 0, 32, 0x28, 30, 20, 10, 255];
    let frames = load_frames_from_bytes(&tga).unwrap();
    assert_eq!(frames.len(), 1);
    assert_eq!(frames[0].get_pixel(0, 0), [10, 20, 30, 255]);
}

#[test]
fn a_gif_without_its_trailer_keeps_the_frames_read_before_the_end() {
    let mut gif = tiny_gif(2);
    gif.pop(); // drop the closing 0x3B
    let frames = load_frames_from_bytes(&gif).unwrap();
    assert_eq!(frames.len(), 2);
    assert_eq!(frames[0].get_pixel(0, 0), [0, 0, 0, 255]);
    assert_eq!(frames[1].get_pixel(0, 0), [255, 255, 255, 255]);
}

#[test]
fn a_gif_frame_that_fails_is_passed_over() {
    // No global palette; the first frame has no palette of its own and fails,
    // the second brings a local palette (black, white) and shows white.
    let mut g = b"GIF89a".to_vec();
    g.extend_from_slice(&[1, 0, 1, 0, 0x00, 0, 0]);
    g.extend_from_slice(&[0x2C, 0, 0, 0, 0, 1, 0, 1, 0, 0x00]);
    g.extend_from_slice(&[2, 2, 0x44, 0x01, 0]);
    g.extend_from_slice(&[0x2C, 0, 0, 0, 0, 1, 0, 1, 0, 0x80]);
    g.extend_from_slice(&[0, 0, 0, 255, 255, 255]);
    g.extend_from_slice(&[2, 2, 0x4C, 0x01, 0]);
    g.push(0x3B);
    let frames = load_frames_from_bytes(&g).unwrap();
    assert_eq!(frames.len(), 1);
    assert_eq!(frames[0].get_pixel(0, 0), [255, 255, 255, 255]);
}

#[test]
fn a_format_found_only_by_its_signature_is_decoded() {
    // A 1x1 farbfeld image: not among the formats tried in turn, only guessed.
    let mut ff = b"farbfeld".to_vec();
    ff.extend_from_slice(&[0, 0, 0, 1, 0, 0, 0, 1]);
    ff.extend_from_slice(&[0xFF, 0xFF, 0, 0, 0x80, 0x80, 0xFF, 0xFF]);
    let frames = load_frames_from_bytes(&ff).unwrap();
    assert_eq!(frames.len(), 1);
    assert_eq!(frames[0].get_pixel(0, 0), [255, 0, 128, 255]);
}
