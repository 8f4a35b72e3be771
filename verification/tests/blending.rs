use stegsolve_rs::analysis::rounding::{blend_channel, luma_fixed};

#[test]
fn blend_channel_matches_single_precision_arithmetic_everywhere() {
    for alpha in 0..=255u8 {
        let a = alpha as f32 / 255.0;
        let inv = 1.0 - a;
        for base in 0..=255u8 {
            for over in 0..=255u8 {
                let expected = (base as f32 * inv + over as f32 * a) as u8;
                assert_eq!(blend_channel(base, over, alpha), expected, "base {} over {} alpha {}", base, over, alpha);
            }
        }
    }
}

#[test]
fn luma_of_known_pixels() {
    assert_eq!(luma_fixed(255, 255, 255), 255);
    assert_eq!(luma_fixed(0, 0, 0), 0);
    assert_eq!(luma_fixed(255, 0, 0), (0.299f32 * 255.0) as u8);
    assert_eq!(luma_fixed(100, 100, 100), (0.299f32 * 100.0 + 0.587f32 * 100.0 + 0.114f32 * 100.0) as u8);
}

#[test]
fn blend_channel_at_half_opacity() {
    assert_eq!(blend_channel(100, 255, 128), (100.0 * (1.0 - 128.0f32 / 255.0) + 255.0 * (128.0f32 / 255.0)) as u8);
    assert_eq!(blend_channel(7, 200, 0), 7);
    assert_eq!(blend_channel(7, 200, 255), 200);
}

#[test]
fn blended_channel_lies_between_its_inputs_up_to_one_below() {
    for alpha in [1u8, 60, 125, 128, 200, 254] {
        for base in 0..=255u8 {
            for over in 0..=255u8 {
                let c = blend_channel(base, over, alpha);
                assert!(c <= base.max(over), "base {} over {} alpha {}", base, over, alpha);
                assert!(c as u16 + 1 >= base.min(over) as u16, "base {} over {} alpha {}", base, over, alpha);
            }
        }
    }
    // Rounding can lose the last fraction: equal inputs may come out one lower.
    assert_eq!(blend_channel(255, 255, 125), 254);
}
