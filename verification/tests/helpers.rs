use stegsolve_rs::analysis::filters::FilterMode;
use stegsolve_rs::analysis::pixels::RgbaImage;
use stegsolve_rs::ui::helpers::{
    display_bytes, export_frame, extract_current, frame_info, image_info, refresh_ui, update_extract_preview,
    toggle_playback, update_ui_for_frame, PlaybackCommand,
};
use stegsolve_rs::ui::state::{AppState, FilterNavigation, MaskUpdate};

fn two_pixels() -> RgbaImage {
    let mut img = RgbaImage::new(2, 1);
    img.put_pixel(0, 0, [1, 2, 3, 4]);
    img.put_pixel(1, 0, [200, 100, 50, 255]);
    img
}

#[test]
fn captions() {
    assert_eq!(frame_info(0, 3), "Frame 1/3");
    assert_eq!(frame_info(0, 0), "Frame 1/1");
    assert_eq!(image_info(640, 480, "cat.png"), "640x480 | cat.png");
}

#[test]
fn refresh_ui_of_empty_and_loaded_sessions() {
    let mut state = AppState::new();
    assert!(refresh_ui(&state, false, 0).is_none());
    state.set_frames(vec![two_pixels()], "two.png".to_string());
    state.next_filter();
    let view = refresh_ui(&state, false, 0).unwrap();
    assert_eq!((view.width, view.height), (2, 1));
    assert_eq!(view.pixels, vec![254, 253, 252, 4, 55, 155, 205, 255]);
    assert_eq!(view.filter_name, "Inverted");
    assert_eq!(view.frame_info, "Frame 1/1");
    assert_eq!(view.image_info, "2x1 | two.png");
}

#[test]
fn overlay_and_stereo_in_the_display() {
    let img = two_pixels();
    // Overlay on but mask empty: just the filtered image.
    let (_, _, plain) = display_bytes(&img, FilterMode::Normal, false, 0, true, 0);
    assert_eq!(plain, vec![1, 2, 3, 4, 200, 100, 50, 255]);
    // Red bit 0 selected: only the first pixel (red 1) is marked, with opacity 180.
    let (_, _, marked) = display_bytes(&img, FilterMode::Normal, false, 0, true, 1);
    assert_eq!(&marked[4..], &[200, 100, 50, 255]);
    let expected_red = ((1.0 - 180.0f32 / 255.0) * 1.0 + 255.0 * (180.0f32 / 255.0)) as u8;
    assert_eq!(marked[0], expected_red);
    // Stereo with offset 1: the second pixel is averaged with black.
    let (_, _, stereo) = display_bytes(&img, FilterMode::Normal, true, 1, false, 0);
    assert_eq!(&stereo[4..], &[100, 50, 25, 255]);
}

#[test]
fn extraction_preview_and_export() {
    let mut state = AppState::new();
    assert_eq!(update_extract_preview(&state, true, true, 0), "No image loaded");
    assert!(extract_current(&state, true, true, 0).is_none());
    assert!(export_frame(&state, false, 0).is_none());
    state.set_frames(vec![two_pixels()], "two.png".to_string());
    state.set_mask_bit(0, true);
    // R0 of the pixels: 1, 0 -> 0b01
    assert_eq!(extract_current(&state, true, true, 0), Some(vec![1]));
    assert_eq!(update_extract_preview(&state, true, true, 0), format!("00000000  01 {} .\n", "   ".repeat(15)));
    let (w, h, bytes) = export_frame(&state, false, 0).unwrap();
    assert_eq!((w, h), (2, 1));
    assert_eq!(bytes, vec![1, 2, 3, 4, 200, 100, 50, 255]);
}

#[test]
fn playback_toggles_only_with_several_frames() {
    let mut state = AppState::new();
    assert_eq!(toggle_playback(&mut state), PlaybackCommand::Nothing);
    state.set_frames(vec![two_pixels()], "one.png".to_string());
    assert_eq!(toggle_playback(&mut state), PlaybackCommand::Nothing);
    assert!(!state.is_playing());
    state.set_frames(vec![two_pixels(), two_pixels()], "two.gif".to_string());
    assert_eq!(toggle_playback(&mut state), PlaybackCommand::Start);
    assert!(state.is_playing());
    assert_eq!(toggle_playback(&mut state), PlaybackCommand::Stop);
    assert!(!state.is_playing());
}

#[test]
fn view_of_a_given_frame() {
    let img = two_pixels();
    let view = update_ui_for_frame(&img, FilterMode::RedPlane(0), "x.bmp", 4, 9, false, 0, false, 0);
    assert_eq!(view.pixels, vec![255, 255, 255, 255, 0, 0, 0, 255]);
    assert_eq!(view.filter_name, "Red Plane 0");
    assert_eq!(view.frame_info, "Frame 5/9");
    assert_eq!(view.image_info, "2x1 | x.bmp");
}
