use stegsolve_rs::analysis::filters::FilterMode;
use stegsolve_rs::analysis::pixels::RgbaImage;
use stegsolve_rs::ui::state::{AppState, FilterNavigation, FrameNavigation, MaskUpdate, ThemeMode};

#[test]
fn test_new_state() {
    let state = AppState::new();
    assert_eq!(state.frame_count(), 0);
    assert_eq!(state.filter(), FilterMode::Normal);
    assert_eq!(state.extract_mask(), 0);
}

#[test]
fn test_frame_navigation() {
    let mut state = AppState::new();
    let frames = vec![RgbaImage::new(1, 1), RgbaImage::new(1, 1)];
    state.set_frames(frames, "test.png".to_string());

    assert_eq!(state.frame_index(), 0);
    state.next_frame();
    assert_eq!(state.frame_index(), 1);
    state.next_frame();
    assert_eq!(state.frame_index(), 0); // Wrap

    state.prev_frame();
    assert_eq!(state.frame_index(), 1); // Wrap
}

#[test]
fn test_filter_navigation() {
    let mut state = AppState::new();
    assert_eq!(state.filter(), FilterMode::Normal);
    state.next_filter();
    assert_ne!(state.filter(), FilterMode::Normal);
    state.prev_filter();
    assert_eq!(state.filter(), FilterMode::Normal);
}

#[test]
fn test_mask_bits() {
    let mut state = AppState::new();
    state.set_mask_bit(0, true);
    assert_eq!(state.extract_mask(), 1);
    state.set_mask_bit(8, true);
    assert_eq!(state.extract_mask(), 1 | (1 << 8));
    state.set_mask_bit(0, false);
    assert_eq!(state.extract_mask(), 1 << 8);
}

#[test]
fn mask_indices_outside_the_word_are_ignored() {
    let mut state = AppState::new();
    state.set_mask_bit(31, true);
    state.set_mask_bit(32, true);
    state.set_mask_bit(-1, true);
    assert_eq!(state.extract_mask(), 1 << 31);
}

#[test]
fn navigation_without_frames_and_reset_on_load() {
    let mut state = AppState::new();
    state.next_frame();
    state.prev_frame();
    assert_eq!(state.frame_index(), 0);
    assert!(state.current_frame().is_none());

    state.next_filter();
    state.set_playing(true);
    state.set_show_mask_overlay(true);
    state.set_mask_bit(3, true);
    let frames = vec![RgbaImage::new(1, 1), RgbaImage::new(2, 1), RgbaImage::new(3, 1)];
    state.set_frames(frames, "anim.gif".to_string());
    assert_eq!(state.frame_count(), 3);
    assert_eq!(state.filter(), FilterMode::Normal);
    assert!(!state.is_playing());
    assert!(state.show_mask_overlay());
    assert_eq!(state.extract_mask(), 8);
    assert_eq!(state.file_name(), "anim.gif");
    state.prev_frame();
    assert_eq!(state.frame_index(), 2);
    assert_eq!(state.current_frame().unwrap().width(), 3);
}

#[test]
fn theme_cycle_and_index() {
    let mut state = AppState::new();
    assert_eq!(state.theme_mode(), ThemeMode::System);
    assert_eq!(state.theme_index(), 0);
    state.set_theme_mode(state.theme_mode().next());
    assert_eq!(state.theme_mode(), ThemeMode::Light);
    assert_eq!(state.theme_index(), 1);
    state.set_theme_mode(state.theme_mode().next());
    assert_eq!(state.theme_index(), 2);
    assert_eq!(state.theme_mode().next(), ThemeMode::System);
}
