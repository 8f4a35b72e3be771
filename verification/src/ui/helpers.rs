//! What the interface shows and copies: the displayed pixels of the current
//! frame, its captions, the extraction preview and the playback decisions.
use vstd::prelude::*;
use vstd::string::*;
use crate::analysis::extract::{channel_order_from_index, channel_order_spec, extract_bits_from_image, extracted_bits, pack_bits};
use crate::analysis::filters::{
    blend_overlay_bytes, blended, common_pixels, filtered_bytes, lemma_blended_at, lemma_filtered_bytes_at,
    lemma_overlay_bytes_at, overlay_bytes, overlay_pixel, process_image_bytes, render_mask_overlay_bytes, FilterMode,
};
use crate::analysis::rounding::{blend_channel_value, lemma_blend_extremes};
use crate::analysis::pixels::{ImageView, RgbaImage};
use crate::presentation::hex::{format_hex_ascii, hex_ascii_dump};
use crate::presentation::stereo::{offset_fits, render_stereo, stereo_image};
use crate::presentation::text::{decimal_digits, push_decimal};
use crate::ui::state::{AppState, StateView};

verus! {

/// The image that is filtered for display: the stereo view when enabled.
pub open spec fn base_image(img: ImageView, stereo_enabled: bool, offset: i32) -> ImageView {
    if stereo_enabled {
        stereo_image(img, offset)
    } else {
        img
    }
}

/// The displayed bytes of a frame: the filtered (stereo) image, with the
/// mask overlay of the frame blended over it when the overlay is on and the
/// mask selects some bit.
pub open spec fn displayed_bytes(
    img: ImageView,
    filter: FilterMode,
    stereo_enabled: bool,
    offset: i32,
    show_overlay: bool,
    mask: u32,
) -> Seq<u8> {
    let base = filtered_bytes(base_image(img, stereo_enabled, offset), filter);
    if show_overlay && mask != 0 {
        let over = overlay_bytes(img, mask);
        blended(base, over, common_pixels(base, over))
    } else {
        base
    }
}

/// What a frame can be displayed with: its size fits the pixel buffers and,
/// with stereo on, no column overflows when shifted.
pub open spec fn displayable(img: ImageView, stereo_enabled: bool, offset: i32) -> bool {
    &&& img.width * img.height * 4 <= u32::MAX
    &&& stereo_enabled ==> offset_fits(img, offset)
}

/// The displayed bytes of `img`, with its width and height.
pub fn display_bytes(
    img: &RgbaImage,
    filter: FilterMode,
    stereo_enabled: bool,
    stereo_offset: i32,
    show_mask_overlay: bool,
    mask: u32,
) -> (res: (u32, u32, Vec<u8>))
    requires
        filter.wf(),
        displayable(img@, stereo_enabled, stereo_offset),
    ensures
        res.0 == img@.width,
        res.1 == img@.height,
        res.2@ == displayed_bytes(img@, filter, stereo_enabled, stereo_offset, show_mask_overlay, mask),
{
    if stereo_enabled {
        let stereo = render_stereo(img, stereo_offset);
        let (width, height, base) = process_image_bytes(&stereo, filter);
        if show_mask_overlay && mask != 0 {
            let (_w, _h, overlay) = render_mask_overlay_bytes(img, mask);
            (width, height, blend_overlay_bytes(base.as_slice(), overlay.as_slice()))
        } else {
            (width, height, base)
        }
    } else {
        let (width, height, base) = process_image_bytes(img, filter);
        if show_mask_overlay && mask != 0 {
            let (_w, _h, overlay) = render_mask_overlay_bytes(img, mask);
            (width, height, blend_overlay_bytes(base.as_slice(), overlay.as_slice()))
        } else {
            (width, height, base)
        }
    }
}

/// The caption `Frame i/n` for frame `index` (counted from one) of `count`
/// frames, `n` being at least one.
pub open spec fn frame_caption(index: nat, count: nat) -> Seq<char> {
    "Frame "@ + decimal_digits(index + 1) + "/"@ + decimal_digits(if count == 0 { 1 } else { count })
}

pub fn frame_info(index: usize, count: usize) -> (s: String)
    requires
        index < usize::MAX,
    ensures
        s@ == frame_caption(index as nat, count as nat),
{
    let mut s = String::from_str("Frame ");
    push_decimal(&mut s, (index + 1) as u64);
    s.append("/");
    push_decimal(&mut s, if count == 0 { 1 } else { count as u64 });
    s
}

/// The caption `WxH | name` of an image.
pub open spec fn image_caption(width: u32, height: u32, file_name: Seq<char>) -> Seq<char> {
    decimal_digits(width as nat) + "x"@ + decimal_digits(height as nat) + " | "@ + file_name
}

pub fn image_info(width: u32, height: u32, file_name: &str) -> (s: String)
    ensures
        s@ == image_caption(width, height, file_name@),
{
    let mut s = String::new();
    push_decimal(&mut s, width as u64);
    s.append("x");
    push_decimal(&mut s, height as u64);
    s.append(" | ");
    s.append(file_name);
    s
}

/// Everything the main view shows for the current frame.
pub struct ViewUpdate {
    pub width: u32,
    pub height: u32,
    pub pixels: Vec<u8>,
    pub filter_name: String,
    pub frame_info: String,
    pub image_info: String,
}

/// The frame of a session that is shown.
pub open spec fn shown_frame(state: StateView) -> ImageView {
    state.frames[state.index as int]
}

/// The view of a frame: its displayed pixels, the filter's name and the
/// captions for the frame number and for the image.
pub fn update_ui_for_frame(
    img: &RgbaImage,
    filter: FilterMode,
    file_name: &str,
    frame_index: usize,
    total_frames: usize,
    stereo_enabled: bool,
    stereo_offset: i32,
    show_mask_overlay: bool,
    mask: u32,
) -> (u: ViewUpdate)
    requires
        filter.wf(),
        displayable(img@, stereo_enabled, stereo_offset),
        frame_index < usize::MAX,
    ensures
        u.width == img@.width,
        u.height == img@.height,
        u.pixels@ == displayed_bytes(img@, filter, stereo_enabled, stereo_offset, show_mask_overlay, mask),
        u.filter_name@ == filter.name(),
        u.frame_info@ == frame_caption(frame_index as nat, total_frames as nat),
        u.image_info@ == image_caption(img@.width, img@.height, file_name@),
{
    let (width, height, pixels) = display_bytes(img, filter, stereo_enabled, stereo_offset, show_mask_overlay, mask);
    ViewUpdate {
        width,
        height,
        pixels,
        filter_name: filter.to_string(),
        frame_info: frame_info(frame_index, total_frames),
        image_info: image_info(width, height, file_name),
    }
}

/// The view of the current frame of a session; none when no image is loaded.
pub fn refresh_ui(state: &AppState, stereo_enabled: bool, stereo_offset: i32) -> (v: Option<ViewUpdate>)
    requires
        state@.frames.len() > 0 ==> displayable(shown_frame(state@), stereo_enabled, stereo_offset),
    ensures
        match v {
            Some(u) => {
                &&& state@.frames.len() > 0
                &&& u.width == shown_frame(state@).width
                &&& u.height == shown_frame(state@).height
                &&& u.pixels@ == displayed_bytes(
                    shown_frame(state@),
                    state@.filter,
                    stereo_enabled,
                    stereo_offset,
                    state@.show_mask_overlay,
                    state@.extract_mask,
                )
                &&& u.filter_name@ == state@.filter.name()
                &&& u.frame_info@ == frame_caption(state@.index, state@.frames.len())
                &&& u.image_info@ == image_caption(
                    shown_frame(state@).width,
                    shown_frame(state@).height,
                    state@.file_name,
                )
            },
            None => state@.frames.len() == 0,
        },
{
    let img = match state.current_frame() {
        Some(img) => img,
        None => return None,
    };
    Some(
        update_ui_for_frame(
            img,
            state.filter(),
            state.file_name(),
            state.frame_index(),
            state.frame_count(),
            stereo_enabled,
            stereo_offset,
            state.show_mask_overlay(),
            state.extract_mask(),
        ),
    )
}

/// The bytes extracted from a frame with the session's mask.
pub open spec fn state_extraction(img: ImageView, mask: u32, lsb_first: bool, row_order: bool, color_order: i32) -> Seq<u8> {
    pack_bits(extracted_bits(img, mask, lsb_first, row_order, channel_order_spec(color_order)), lsb_first)
}

/// The bytes extracted from the current frame with the session's mask and
/// the given reading order; none when no image is loaded.
pub fn extract_current(state: &AppState, lsb_first: bool, row_order: bool, color_order: i32) -> (data: Option<Vec<u8>>)
    ensures
        match data {
            Some(d) => state@.frames.len() > 0 && d@ == state_extraction(
                shown_frame(state@),
                state@.extract_mask,
                lsb_first,
                row_order,
                color_order,
            ),
            None => state@.frames.len() == 0,
        },
{
    match state.current_frame() {
        Some(img) => {
            let order = channel_order_from_index(color_order);
            Some(extract_bits_from_image(img, state.extract_mask(), lsb_first, row_order, order))
        },
        None => None,
    }
}

/// The text of the extraction preview: the hex dump of the first 512
/// extracted bytes, or a notice when no image is loaded.
pub fn update_extract_preview(state: &AppState, lsb_first: bool, row_order: bool, color_order: i32) -> (text: String)
    ensures
        state@.frames.len() == 0 ==> text@ == "No image loaded"@,
        state@.frames.len() > 0 ==> text@ == hex_ascii_dump(
            state_extraction(shown_frame(state@), state@.extract_mask, lsb_first, row_order, color_order),
            512,
        ),
{
    match extract_current(state, lsb_first, row_order, color_order) {
        Some(bytes) => format_hex_ascii(bytes.as_slice(), 512),
        None => String::from_str("No image loaded"),
    }
}

/// The filtered bytes of the current frame (the stereo view when enabled),
/// as exported or copied; none when no image is loaded.
pub fn export_frame(state: &AppState, stereo_enabled: bool, stereo_offset: i32) -> (res: Option<(u32, u32, Vec<u8>)>)
    requires
        state@.frames.len() > 0 ==> displayable(shown_frame(state@), stereo_enabled, stereo_offset),
    ensures
        match res {
            Some(r) => {
                &&& state@.frames.len() > 0
                &&& r.0 == shown_frame(state@).width
                &&& r.1 == shown_frame(state@).height
                &&& r.2@ == filtered_bytes(base_image(shown_frame(state@), stereo_enabled, stereo_offset), state@.filter)
            },
            None => state@.frames.len() == 0,
        },
{
    let img = match state.current_frame() {
        Some(img) => img,
        None => return None,
    };
    let filter = state.filter();
    if stereo_enabled {
        let stereo = render_stereo(img, stereo_offset);
        Some(process_image_bytes(&stereo, filter))
    } else {
        Some(process_image_bytes(img, filter))
    }
}

/// What the playback timer must do after the play button.
#[derive(Clone, Copy, Debug, PartialEq, Eq, Structural)]
pub enum PlaybackCommand {
    /// Nothing to play: fewer than two frames.
    Nothing,
    /// Stop the timer.
    Stop,
    /// Start the timer, showing the next frame at each tick.
    Start,
}

/// Toggles playback: with fewer than two frames nothing happens; otherwise a
/// playing session stops and a stopped one starts.
pub fn toggle_playback(state: &mut AppState) -> (cmd: PlaybackCommand)
    ensures
        old(state)@.frames.len() <= 1 ==> cmd == PlaybackCommand::Nothing && final(state)@ == old(state)@,
        old(state)@.frames.len() > 1 && old(state)@.is_playing ==> cmd == PlaybackCommand::Stop && final(state)@
            == (StateView { is_playing: false, ..old(state)@ }),
        old(state)@.frames.len() > 1 && !old(state)@.is_playing ==> cmd == PlaybackCommand::Start && final(state)@
            == (StateView { is_playing: true, ..old(state)@ }),
{
    if state.frame_count() <= 1 {
        return PlaybackCommand::Nothing;
    }
    if state.is_playing() {
        state.set_playing(false);
        PlaybackCommand::Stop
    } else {
        state.set_playing(true);
        PlaybackCommand::Start
    }
}

/// What a frame shows: the frame filtered, or its stereo view filtered when
/// stereo is on, whether or not the mask overlay is shown. With the overlay
/// on (and a mask that selects some bit), each pixel is the frame's overlay
/// pixel drawn over that filtered pixel with the overlay's opacity, made
/// opaque; where the overlay is transparent, the colour shown is exactly the
/// one shown with the overlay off.
pub proof fn lemma_displayed_pixel(
    img: ImageView,
    filter: FilterMode,
    stereo_enabled: bool,
    offset: i32,
    mask: u32,
    p: int,
    c: int,
)
    requires
        img.wf(),
        mask != 0,
        0 <= p < img.width * img.height,
        0 <= c < 4,
    ensures
        ({
            let shown = if stereo_enabled { stereo_image(img, offset) } else { img };
            let plain = displayed_bytes(img, filter, stereo_enabled, offset, false, mask);
            let marked = displayed_bytes(img, filter, stereo_enabled, offset, true, mask);
            let over = overlay_pixel(img.data.subrange(4 * p, 4 * p + 4), mask);
            &&& plain == filtered_bytes(shown, filter)
            &&& plain.len() == img.data.len()
            &&& marked.len() == img.data.len()
            &&& marked[4 * p + c] == (if c < 3 {
                blend_channel_value(plain[4 * p + c], over[c], over[3])
            } else {
                255u8
            })
            &&& over[3] == 0 && c < 3 ==> marked[4 * p + c] == plain[4 * p + c]
        }),
{
    let shown = if stereo_enabled { stereo_image(img, offset) } else { img };
    assert(shown.wf());
    let base = filtered_bytes(shown, filter);
    let over_all = overlay_bytes(img, mask);
    lemma_filtered_bytes_at(shown, filter, p);
    lemma_overlay_bytes_at(img, mask, p);
    assert(img.data.len() / 4 == img.width * img.height);
    assert(common_pixels(base, over_all) == img.width * img.height);
    lemma_blended_at(base, over_all, common_pixels(base, over_all), p, c);
    lemma_blended_at(base, over_all, common_pixels(base, over_all), p, 3);
    let over = overlay_pixel(img.data.subrange(4 * p, 4 * p + 4), mask);
    assert(over_all[4 * p + c] == over_all.subrange(4 * p, 4 * p + 4)[c]);
    assert(over_all[4 * p + 3] == over_all.subrange(4 * p, 4 * p + 4)[3]);
    if over[3] == 0 && c < 3 {
        lemma_blend_extremes(base[4 * p + c], over[c]);
    }
}

} // verus!
