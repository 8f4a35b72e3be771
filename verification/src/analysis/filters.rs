//! # Image Filters
//!
//! Colour transformations and bit planes for the visual analysis of images,
//! a mask overlay that marks pixels with selected bits set, and the blend of
//! such an overlay over a filtered image.
use vstd::prelude::*;
use vstd::string::*;
use vstd::arithmetic::div_mod::{lemma_small_mod, lemma_add_mod_noop, lemma_mod_twice, lemma_fundamental_div_mod, lemma_mod_multiples_vanish};
use crate::analysis::pixels::{ImageView, RgbaImage};
use crate::analysis::extract::mask_selects;
use crate::analysis::rounding::{luma, luma_fixed, blend_channel, blend_channel_value};
use crate::presentation::text::{decimal_digits, push_decimal};

verus! {

/// Supported image analysis filters.
#[derive(Clone, Copy, Debug, PartialEq, Eq, Structural)]
pub enum FilterMode {
    /// No transformation applied.
    Normal,
    /// Inverts the colour channels (255 - value), keeping alpha.
    Invert,
    /// Grayscale by the luminance weights 0.299, 0.587, 0.114.
    Gray,
    /// A fixed scrambling of each colour channel.
    RandomMap,
    /// Black or white by the average of the colour channels.
    BinaryThreshold,
    /// Shows one bit (0-7) of the red channel.
    RedPlane(u8),
    /// Shows one bit (0-7) of the green channel.
    GreenPlane(u8),
    /// Shows one bit (0-7) of the blue channel.
    BluePlane(u8),
    /// Shows one bit (0-7) of the alpha channel.
    AlphaPlane(u8),
}

impl FilterMode {
    /// Plane filters name a bit from 0 to 7.
    pub open spec fn wf(self) -> bool {
        match self {
            FilterMode::RedPlane(i) => i < 8,
            FilterMode::GreenPlane(i) => i < 8,
            FilterMode::BluePlane(i) => i < 8,
            FilterMode::AlphaPlane(i) => i < 8,
            _ => true,
        }
    }

    /// The place of a mode in the cycle: the five colour filters, then the
    /// planes of red, green, blue and alpha, each from bit 7 down to bit 0.
    pub open spec fn position(self) -> int {
        match self {
            FilterMode::Normal => 0,
            FilterMode::Invert => 1,
            FilterMode::Gray => 2,
            FilterMode::RandomMap => 3,
            FilterMode::BinaryThreshold => 4,
            FilterMode::RedPlane(i) => 5 + (7 - i),
            FilterMode::GreenPlane(i) => 13 + (7 - i),
            FilterMode::BluePlane(i) => 21 + (7 - i),
            FilterMode::AlphaPlane(i) => 29 + (7 - i),
        }
    }

    /// The mode at place `p` of the cycle (`0 <= p < 37`).
    pub open spec fn at_position(p: int) -> FilterMode {
        if p == 0 {
            FilterMode::Normal
        } else if p == 1 {
            FilterMode::Invert
        } else if p == 2 {
            FilterMode::Gray
        } else if p == 3 {
            FilterMode::RandomMap
        } else if p == 4 {
            FilterMode::BinaryThreshold
        } else if p < 13 {
            FilterMode::RedPlane((12 - p) as u8)
        } else if p < 21 {
            FilterMode::GreenPlane((20 - p) as u8)
        } else if p < 29 {
            FilterMode::BluePlane((28 - p) as u8)
        } else {
            FilterMode::AlphaPlane((36 - p) as u8)
        }
    }

    /// The mode after this one: the next place in the cycle, the last place
    /// wrapping to the first. A plane with a bit above 7 moves to the bit below.
    pub open spec fn next_mode(self) -> FilterMode {
        if self.wf() {
            FilterMode::at_position((self.position() + 1) % 37)
        } else {
            match self {
                FilterMode::RedPlane(i) => FilterMode::RedPlane((i - 1) as u8),
                FilterMode::GreenPlane(i) => FilterMode::GreenPlane((i - 1) as u8),
                FilterMode::BluePlane(i) => FilterMode::BluePlane((i - 1) as u8),
                FilterMode::AlphaPlane(i) => FilterMode::AlphaPlane((i - 1) as u8),
                _ => self,
            }
        }
    }

    /// The mode before this one in the cycle.
    pub open spec fn prev_mode(self) -> FilterMode {
        FilterMode::at_position((self.position() + 36) % 37)
    }

    /// Cycles to the next filter mode.
    pub fn next(&self) -> (m: FilterMode)
        ensures
            m == self.next_mode(),
    {
        match self {
            FilterMode::Normal => FilterMode::Invert,
            FilterMode::Invert => FilterMode::Gray,
            FilterMode::Gray => FilterMode::RandomMap,
            FilterMode::RandomMap => FilterMode::BinaryThreshold,
            FilterMode::BinaryThreshold => FilterMode::RedPlane(7),
            FilterMode::RedPlane(0) => FilterMode::GreenPlane(7),
            FilterMode::RedPlane(i) => FilterMode::RedPlane(*i - 1),
            FilterMode::GreenPlane(0) => FilterMode::BluePlane(7),
            FilterMode::GreenPlane(i) => FilterMode::GreenPlane(*i - 1),
            FilterMode::BluePlane(0) => FilterMode::AlphaPlane(7),
            FilterMode::BluePlane(i) => FilterMode::BluePlane(*i - 1),
            FilterMode::AlphaPlane(0) => FilterMode::Normal,
            FilterMode::AlphaPlane(i) => FilterMode::AlphaPlane(*i - 1),
        }
    }

    /// Cycles to the previous filter mode: walks the cycle forward until the
    /// mode whose next is this one.
    pub fn prev(&self) -> (m: FilterMode)
        requires
            self.wf(),
        ensures
            m == self.prev_mode(),
            m.next_mode() == *self,
    {
        let mut mode = *self;
        proof {
            lemma_position_roundtrip(*self);
        }
        loop
            invariant
                self.wf(),
                mode.wf(),
            decreases (self.position() - mode.position() + 36) % 37,
        {
            let next = mode.next();
            proof {
                lemma_prev_step(*self, mode);
            }
            if next == *self {
                return mode;
            }
            mode = next;
        }
    }

    /// The name shown for the mode.
    pub fn to_string(&self) -> (s: String)
        ensures
            s@ == self.name(),
    {
        let mut s = String::new();
        match self {
            FilterMode::Normal => s.append("Normal Image"),
            FilterMode::Invert => s.append("Inverted"),
            FilterMode::Gray => s.append("Grayscale"),
            FilterMode::RandomMap => s.append("Random Color Map"),
            FilterMode::BinaryThreshold => s.append("Binary Threshold"),
            FilterMode::RedPlane(i) => {
                s.append("Red Plane ");
                push_decimal(&mut s, *i as u64);
            },
            FilterMode::GreenPlane(i) => {
                s.append("Green Plane ");
                push_decimal(&mut s, *i as u64);
            },
            FilterMode::BluePlane(i) => {
                s.append("Blue Plane ");
                push_decimal(&mut s, *i as u64);
            },
            FilterMode::AlphaPlane(i) => {
                s.append("Alpha Plane ");
                push_decimal(&mut s, *i as u64);
            },
        }
        s
    }

    /// The name of the mode.
    pub open spec fn name(self) -> Seq<char> {
        match self {
            FilterMode::Normal => "Normal Image"@,
            FilterMode::Invert => "Inverted"@,
            FilterMode::Gray => "Grayscale"@,
            FilterMode::RandomMap => "Random Color Map"@,
            FilterMode::BinaryThreshold => "Binary Threshold"@,
            FilterMode::RedPlane(i) => "Red Plane "@ + decimal_digits(i as nat),
            FilterMode::GreenPlane(i) => "Green Plane "@ + decimal_digits(i as nat),
            FilterMode::BluePlane(i) => "Blue Plane "@ + decimal_digits(i as nat),
            FilterMode::AlphaPlane(i) => "Alpha Plane "@ + decimal_digits(i as nat),
        }
    }
}

/// Each well-formed mode has a place in the cycle, and that place gives it back.
pub proof fn lemma_position_roundtrip(m: FilterMode)
    requires
        m.wf(),
    ensures
        0 <= m.position() < 37,
        FilterMode::at_position(m.position()) == m,
{
}

/// Each place in the cycle holds a well-formed mode with that place.
pub proof fn lemma_at_position_roundtrip(p: int)
    requires
        0 <= p < 37,
    ensures
        FilterMode::at_position(p).wf(),
        FilterMode::at_position(p).position() == p,
{
}

/// Two well-formed modes with the same place are the same mode.
pub proof fn lemma_position_injective(a: FilterMode, b: FilterMode)
    requires
        a.wf(),
        b.wf(),
        a.position() == b.position(),
    ensures
        a == b,
{
    lemma_position_roundtrip(a);
    lemma_position_roundtrip(b);
}

/// One step of the backward search: either `mode` comes right before
/// `target`, or the step from `mode` brings the search closer to `target`.
proof fn lemma_prev_step(target: FilterMode, mode: FilterMode)
    requires
        target.wf(),
        mode.wf(),
    ensures
        mode.next_mode().wf(),
        mode.next_mode() == target ==> mode == target.prev_mode() && mode.next_mode() == target,
        mode.next_mode() != target ==> (target.position() - mode.next_mode().position() + 36) % 37 < (
        target.position() - mode.position() + 36) % 37,
{
    lemma_next_advances(mode);
    lemma_position_roundtrip(mode);
    lemma_position_roundtrip(target);
    let n = mode.next_mode();
    if n == target {
        assert((target.position() + 36) % 37 == mode.position());
    } else {
        if (target.position() - mode.position() + 36) % 37 == 0 {
            lemma_position_injective(n, target);
        }
    }
}

/// `next` moves a well-formed mode one place forward in the cycle of 37 modes.
pub proof fn lemma_next_advances(m: FilterMode)
    requires
        m.wf(),
    ensures
        m.next_mode().wf(),
        m.next_mode().position() == (m.position() + 1) % 37,
{
    lemma_position_roundtrip(m);
    lemma_at_position_roundtrip((m.position() + 1) % 37);
}

/// Going forward then back, or back then forward, returns to the same mode.
pub proof fn lemma_next_prev_inverse(m: FilterMode)
    requires
        m.wf(),
    ensures
        m.prev_mode().wf(),
        m.next_mode().prev_mode() == m,
        m.prev_mode().next_mode() == m,
{
    lemma_next_advances(m);
    lemma_position_roundtrip(m);
    lemma_at_position_roundtrip((m.position() + 36) % 37);
    lemma_next_advances(m.prev_mode());
    lemma_position_injective(m.prev_mode().next_mode(), m);
}

/// The mode reached from `m` by `k` steps forward.
pub open spec fn advance(m: FilterMode, k: nat) -> FilterMode
    decreases k,
{
    if k == 0 {
        m
    } else {
        advance(m, (k - 1) as nat).next_mode()
    }
}

proof fn lemma_advance_position(m: FilterMode, k: nat)
    requires
        m.wf(),
    ensures
        advance(m, k).wf(),
        advance(m, k).position() == (m.position() + k) % 37,
    decreases k,
{
    lemma_position_roundtrip(m);
    if k == 0 {
        lemma_small_mod(m.position() as nat, 37);
    } else {
        lemma_advance_position(m, (k - 1) as nat);
        lemma_next_advances(advance(m, (k - 1) as nat));
        lemma_add_mod_noop(m.position() + k - 1, 1, 37);
        lemma_small_mod(1, 37);
        lemma_mod_twice(m.position() + k - 1, 37);
    }
}

/// The modes form one cycle of 37: `k` steps forward move `k` places, and
/// come back to the start exactly when `k` is a multiple of 37.
pub proof fn lemma_cycle(m: FilterMode, k: nat)
    requires
        m.wf(),
    ensures
        advance(m, k).wf(),
        advance(m, k).position() == (m.position() + k) % 37,
        advance(m, k) == m <==> k % 37 == 0,
{
    lemma_advance_position(m, k);
    lemma_position_roundtrip(m);
    let p = m.position();
    let q = k as int / 37;
    let r = k as int % 37;
    lemma_fundamental_div_mod(k as int, 37);
    lemma_mod_multiples_vanish(q, p + r, 37);
    assert(p + k == 37 * q + (p + r));
    if r == 0 {
        lemma_small_mod(p as nat, 37);
        lemma_position_injective(advance(m, k), m);
    } else if p + r < 37 {
        lemma_small_mod((p + r) as nat, 37);
    } else {
        lemma_mod_multiples_vanish(1, p + r - 37, 37);
        lemma_small_mod((p + r - 37) as nat, 37);
    }
}

// ---------------------------------------------------------------------------
// Per-pixel filters
// ---------------------------------------------------------------------------

/// Black or white by bit `bit` of `value`.
pub open spec fn plane_pixel(value: u8, bit: u8) -> Seq<u8> {
    let v: u8 = if (value >> bit) & 1u8 == 1u8 { 255 } else { 0 };
    seq![v, v, v, 255u8]
}

/// The pixel `[r, g, b, a]` under `mode`.
pub open spec fn filter_pixel(r: u8, g: u8, b: u8, a: u8, mode: FilterMode) -> Seq<u8> {
    match mode {
        FilterMode::Normal => seq![r, g, b, a],
        FilterMode::Invert => seq![(255 - r) as u8, (255 - g) as u8, (255 - b) as u8, a],
        FilterMode::Gray => {
            let y = luma(r, g, b);
            seq![y, y, y, 255u8]
        },
        FilterMode::RandomMap => seq![
            ((r * 1234567) % 256) as u8,
            ((g * 7654321) % 256) as u8,
            ((b * 5555555) % 256) as u8,
            255u8,
        ],
        FilterMode::BinaryThreshold => {
            let v: u8 = if (r + g + b) / 3 > 127 { 255 } else { 0 };
            seq![v, v, v, 255u8]
        },
        FilterMode::RedPlane(bit) => plane_pixel(r, bit),
        FilterMode::GreenPlane(bit) => plane_pixel(g, bit),
        FilterMode::BluePlane(bit) => plane_pixel(b, bit),
        FilterMode::AlphaPlane(bit) => plane_pixel(a, bit),
    }
}

fn extract_bit_plane(channel_val: u8, bit: u8) -> (px: [u8; 4])
    requires
        bit < 8,
    ensures
        px@ == plane_pixel(channel_val, bit),
{
    let val: u8 = if (channel_val >> bit) & 1 == 1 { 255 } else { 0 };
    let px = [val, val, val, 255];
    assert(px@ =~= plane_pixel(channel_val, bit));
    px
}

/// Applies `mode` to one pixel.
pub fn apply_filter_pixel(r: u8, g: u8, b: u8, a: u8, mode: FilterMode) -> (px: [u8; 4])
    requires
        mode.wf(),
    ensures
        px@ == filter_pixel(r, g, b, a, mode),
{
    let px = match mode {
        FilterMode::Normal => [r, g, b, a],
        FilterMode::Invert => [255 - r, 255 - g, 255 - b, a],
        FilterMode::Gray => {
            let gray = luma_fixed(r, g, b);
            [gray, gray, gray, 255]
        },
        FilterMode::RandomMap => {
            let r_mut = (r as u32 * 1234567) % 256;
            let g_mut = (g as u32 * 7654321) % 256;
            let b_mut = (b as u32 * 5555555) % 256;
            [r_mut as u8, g_mut as u8, b_mut as u8, 255]
        },
        FilterMode::BinaryThreshold => {
            let gray = (r as u32 + g as u32 + b as u32) / 3;
            let val: u8 = if gray > 127 { 255 } else { 0 };
            [val, val, val, 255]
        },
        FilterMode::RedPlane(bit) => extract_bit_plane(r, bit),
        FilterMode::GreenPlane(bit) => extract_bit_plane(g, bit),
        FilterMode::BluePlane(bit) => extract_bit_plane(b, bit),
        FilterMode::AlphaPlane(bit) => extract_bit_plane(a, bit),
    };
    assert(px@ =~= filter_pixel(r, g, b, a, mode));
    px
}

// ---------------------------------------------------------------------------
// Whole images
// ---------------------------------------------------------------------------

/// The bytes of the first `n` pixels of `data`, each pixel of four bytes
/// replaced by `f` of it.
pub open spec fn map_pixels(data: Seq<u8>, f: spec_fn(Seq<u8>) -> Seq<u8>, n: nat) -> Seq<u8>
    decreases n,
{
    if n == 0 {
        Seq::empty()
    } else {
        map_pixels(data, f, (n - 1) as nat) + f(data.subrange(4 * (n - 1), 4 * n as int))
    }
}

/// The bytes of an image under `mode`.
pub open spec fn filtered_bytes(img: ImageView, mode: FilterMode) -> Seq<u8> {
    map_pixels(img.data, |px: Seq<u8>| filter_pixel(px[0], px[1], px[2], px[3], mode), img.data.len() / 4)
}

proof fn lemma_map_pixels_len(data: Seq<u8>, f: spec_fn(Seq<u8>) -> Seq<u8>, n: nat)
    requires
        forall|px: Seq<u8>| #[trigger] f(px).len() == 4,
    ensures
        map_pixels(data, f, n).len() == 4 * n,
    decreases n,
{
    if n > 0 {
        lemma_map_pixels_len(data, f, (n - 1) as nat);
    }
}

/// Applies `mode` to every pixel of `img`, giving its width, its height and
/// the filtered bytes.
pub fn process_image_bytes(img: &RgbaImage, mode: FilterMode) -> (res: (u32, u32, Vec<u8>))
    requires
        mode.wf(),
        img@.width * img@.height * 4 <= u32::MAX,
    ensures
        res.0 == img@.width,
        res.1 == img@.height,
        res.2@ == filtered_bytes(img@, mode),
{
    let (width, height) = img.dimensions();
    let data = img.as_raw();
    let n = data.len() / 4;
    let mut out: Vec<u8> = Vec::new();
    let ghost f = |px: Seq<u8>| filter_pixel(px[0], px[1], px[2], px[3], mode);
    for p in 0..n
        invariant
            n == data@.len() / 4,
            4 * n <= data.len(),
            data@ == img@.data,
            mode.wf(),
            out@ == map_pixels(data@, f, p as nat),
            f == (|px: Seq<u8>| filter_pixel(px[0], px[1], px[2], px[3], mode)),
    {
        let o = 4 * p;
        let px = apply_filter_pixel(data[o], data[o + 1], data[o + 2], data[o + 3], mode);
        out.push(px[0]);
        out.push(px[1]);
        out.push(px[2]);
        out.push(px[3]);
        assert(data@.subrange(4 * p, 4 * (p + 1)) =~= seq![data@[o as int], data@[o + 1], data@[o + 2], data@[o + 3]]);
        assert(out@ =~= map_pixels(data@, f, (p + 1) as nat));
    }
    (width, height, out)
}

/// Applies `mode` to every pixel of `img`, giving the filtered image.
pub fn process_image(img: &RgbaImage, mode: FilterMode) -> (out: RgbaImage)
    requires
        mode.wf(),
        img@.width * img@.height * 4 <= u32::MAX,
    ensures
        out@ == (ImageView { width: img@.width, height: img@.height, data: filtered_bytes(img@, mode) }),
{
    let (width, height) = img.dimensions();
    let (_w, _h, bytes) = process_image_bytes(img, mode);
    proof {
        lemma_filtered_size(img@, mode);
    }
    match RgbaImage::from_raw(width, height, bytes) {
        Some(out) => {
            assert(filtered_bytes(img@, mode).subrange(0, filtered_bytes(img@, mode).len() as int) =~= filtered_bytes(img@, mode));
            out
        },
        None => {
            assert(false);
            RgbaImage::new(0, 0)
        },
    }
}

/// Whether `value` has a bit set that `mask` also has.
fn has_mask_bit(channel_val: u8, mask: u8) -> (hit: bool)
    ensures
        hit == (channel_val & mask != 0),
{
    let mut bit: u8 = 0;
    while bit < 8
        invariant
            bit <= 8,
            forall|j: u8| j < bit ==> !((mask >> j) & 1 == 1 && (channel_val >> j) & 1 == 1),
        decreases 8 - bit,
    {
        if (mask >> bit) & 1 == 1 && (channel_val >> bit) & 1 == 1 {
            assert(channel_val & mask != 0) by (bit_vector)
                requires
                    bit < 8,
                    (mask >> bit) & 1 == 1,
                    (channel_val >> bit) & 1 == 1;
            return true;
        }
        bit = bit + 1;
    }
    let ghost c = channel_val;
    let ghost m = mask;
    assert(!((m >> 0u8) & 1 == 1 && (c >> 0u8) & 1 == 1));
    assert(!((m >> 1u8) & 1 == 1 && (c >> 1u8) & 1 == 1));
    assert(!((m >> 2u8) & 1 == 1 && (c >> 2u8) & 1 == 1));
    assert(!((m >> 3u8) & 1 == 1 && (c >> 3u8) & 1 == 1));
    assert(!((m >> 4u8) & 1 == 1 && (c >> 4u8) & 1 == 1));
    assert(!((m >> 5u8) & 1 == 1 && (c >> 5u8) & 1 == 1));
    assert(!((m >> 6u8) & 1 == 1 && (c >> 6u8) & 1 == 1));
    assert(!((m >> 7u8) & 1 == 1 && (c >> 7u8) & 1 == 1));
    assert(c & m == 0) by (bit_vector)
        requires
            !((m >> 0u8) & 1 == 1 && (c >> 0u8) & 1 == 1),
            !((m >> 1u8) & 1 == 1 && (c >> 1u8) & 1 == 1),
            !((m >> 2u8) & 1 == 1 && (c >> 2u8) & 1 == 1),
            !((m >> 3u8) & 1 == 1 && (c >> 3u8) & 1 == 1),
            !((m >> 4u8) & 1 == 1 && (c >> 4u8) & 1 == 1),
            !((m >> 5u8) & 1 == 1 && (c >> 5u8) & 1 == 1),
            !((m >> 6u8) & 1 == 1 && (c >> 6u8) & 1 == 1),
            !((m >> 7u8) & 1 == 1 && (c >> 7u8) & 1 == 1);
    false
}

/// The overlay pixel for `px`: each colour channel is lit (255) when the
/// channel has a bit that the mask selects, all three when the alpha channel
/// does; a lit pixel is drawn with opacity 180, an unlit one is transparent.
pub open spec fn overlay_pixel(px: Seq<u8>, mask: u32) -> Seq<u8> {
    let hit_a = px[3] & ((mask >> 24) & 0xFF) as u8 != 0;
    let hit_r = hit_a || px[0] & (mask & 0xFF) as u8 != 0;
    let hit_g = hit_a || px[1] & ((mask >> 8) & 0xFF) as u8 != 0;
    let hit_b = hit_a || px[2] & ((mask >> 16) & 0xFF) as u8 != 0;
    seq![
        if hit_r { 255u8 } else { 0u8 },
        if hit_g { 255u8 } else { 0u8 },
        if hit_b { 255u8 } else { 0u8 },
        if hit_r || hit_g || hit_b { 180u8 } else { 0u8 },
    ]
}

/// The overlay bytes of an image for `mask`.
pub open spec fn overlay_bytes(img: ImageView, mask: u32) -> Seq<u8> {
    map_pixels(img.data, |px: Seq<u8>| overlay_pixel(px, mask), img.data.len() / 4)
}

/// Marks the pixels of `img` that have a bit selected by `mask` (bits 0-7
/// red, 8-15 green, 16-23 blue, 24-31 alpha), giving the width, the height
/// and the overlay bytes.
pub fn render_mask_overlay_bytes(img: &RgbaImage, mask: u32) -> (res: (u32, u32, Vec<u8>))
    requires
        img@.width * img@.height * 4 <= u32::MAX,
    ensures
        res.0 == img@.width,
        res.1 == img@.height,
        res.2@ == overlay_bytes(img@, mask),
{
    let (width, height) = img.dimensions();
    let data = img.as_raw();
    let n = data.len() / 4;
    let r_mask = (mask & 0xFF) as u8;
    let g_mask = ((mask >> 8) & 0xFF) as u8;
    let b_mask = ((mask >> 16) & 0xFF) as u8;
    let a_mask = ((mask >> 24) & 0xFF) as u8;
    let mut out: Vec<u8> = Vec::new();
    let ghost f = |px: Seq<u8>| overlay_pixel(px, mask);
    for p in 0..n
        invariant
            n == data@.len() / 4,
            4 * n <= data.len(),
            data@ == img@.data,
            r_mask == (mask & 0xFF) as u8,
            g_mask == ((mask >> 8) & 0xFF) as u8,
            b_mask == ((mask >> 16) & 0xFF) as u8,
            a_mask == ((mask >> 24) & 0xFF) as u8,
            out@ == map_pixels(data@, f, p as nat),
            f == (|px: Seq<u8>| overlay_pixel(px, mask)),
    {
        let o = 4 * p;
        let mut or_r = has_mask_bit(data[o], r_mask);
        let mut or_g = has_mask_bit(data[o + 1], g_mask);
        let mut or_b = has_mask_bit(data[o + 2], b_mask);
        let or_a = has_mask_bit(data[o + 3], a_mask);
        if or_a {
            or_r = true;
            or_g = true;
            or_b = true;
        }
        let alpha: u8 = if or_r || or_g || or_b { 180 } else { 0 };
        out.push(if or_r { 255 } else { 0 });
        out.push(if or_g { 255 } else { 0 });
        out.push(if or_b { 255 } else { 0 });
        out.push(alpha);
        assert(data@.subrange(4 * p, 4 * (p + 1)) =~= seq![data@[o as int], data@[o + 1], data@[o + 2], data@[o + 3]]);
        assert(out@ =~= map_pixels(data@, f, (p + 1) as nat));
    }
    (width, height, out)
}

/// The first `n` pixels of `overlay` drawn over those of `base`, each with
/// the opacity of its own alpha byte; the result is opaque.
pub open spec fn blended(base: Seq<u8>, overlay: Seq<u8>, n: nat) -> Seq<u8>
    decreases n,
{
    if n == 0 {
        Seq::empty()
    } else {
        let i = 4 * (n - 1);
        let alpha = overlay[i + 3];
        blended(base, overlay, (n - 1) as nat) + seq![
            blend_channel_value(base[i], overlay[i], alpha),
            blend_channel_value(base[i + 1], overlay[i + 1], alpha),
            blend_channel_value(base[i + 2], overlay[i + 2], alpha),
            255u8,
        ]
    }
}

proof fn lemma_blended_step(base: Seq<u8>, overlay: Seq<u8>, k: int)
    requires
        k >= 0,
    ensures
        blended(base, overlay, (k + 1) as nat) == blended(base, overlay, k as nat) + seq![
            blend_channel_value(base[4 * k], overlay[4 * k], overlay[4 * k + 3]),
            blend_channel_value(base[4 * k + 1], overlay[4 * k + 1], overlay[4 * k + 3]),
            blend_channel_value(base[4 * k + 2], overlay[4 * k + 2], overlay[4 * k + 3]),
            255u8,
        ],
{
    assert((k + 1 - 1) as nat == k as nat);
}

/// The number of whole pixels that both buffers hold.
pub open spec fn common_pixels(base: Seq<u8>, overlay: Seq<u8>) -> nat {
    if base.len() <= overlay.len() {
        base.len() / 4
    } else {
        overlay.len() / 4
    }
}

/// Draws `overlay` over `base`, pixel by pixel, as far as both hold whole pixels.
#[verifier::spinoff_prover]
pub fn blend_overlay_bytes(base: &[u8], overlay: &[u8]) -> (out: Vec<u8>)
    ensures
        out@ == blended(base@, overlay@, common_pixels(base@, overlay@)),
{
    let mut out: Vec<u8> = Vec::new();
    let mut i: usize = 0;
    let ghost mut k: nat = 0;
    while i + 3 < base.len() && i + 3 < overlay.len()
        invariant
            i == 4 * k,
            i <= base.len(),
            i <= overlay.len(),
            out@ == blended(base@, overlay@, k),
        decreases base.len() - i,
    {
        let alpha = overlay[i + 3];
        let r = blend_channel(base[i], overlay[i], alpha);
        let g = blend_channel(base[i + 1], overlay[i + 1], alpha);
        let b = blend_channel(base[i + 2], overlay[i + 2], alpha);
        let ghost before = out@;
        out.push(r);
        out.push(g);
        out.push(b);
        out.push(255);
        proof {
            lemma_blended_step(base@, overlay@, k as int);
            assert(out@ =~= before + seq![r, g, b, 255u8]);
            k = k + 1;
        }
        i += 4;
    }
    proof {
        assert(k == common_pixels(base@, overlay@));
    }
    out
}

// ---------------------------------------------------------------------------
// Laws
// ---------------------------------------------------------------------------

/// The normal filter leaves a pixel as it is, and inverting twice gives it back.
pub proof fn lemma_normal_and_double_invert(r: u8, g: u8, b: u8, a: u8)
    ensures
        filter_pixel(r, g, b, a, FilterMode::Normal) == seq![r, g, b, a],
        ({
            let p = filter_pixel(r, g, b, a, FilterMode::Invert);
            filter_pixel(p[0], p[1], p[2], p[3], FilterMode::Invert) == seq![r, g, b, a]
        }),
{
    let p = filter_pixel(r, g, b, a, FilterMode::Invert);
    assert(filter_pixel(p[0], p[1], p[2], p[3], FilterMode::Invert) =~= seq![r, g, b, a]);
}

/// Gray, threshold and plane filters give an opaque gray pixel; threshold and
/// plane filters give pure black or pure white.
pub proof fn lemma_monochrome_modes(r: u8, g: u8, b: u8, a: u8, mode: FilterMode)
    requires
        mode.wf(),
        mode != FilterMode::Normal,
        mode != FilterMode::Invert,
        mode != FilterMode::RandomMap,
    ensures
        ({
            let p = filter_pixel(r, g, b, a, mode);
            &&& p.len() == 4
            &&& p[0] == p[1] && p[1] == p[2]
            &&& p[3] == 255
            &&& mode != FilterMode::Gray ==> (p[0] == 0 || p[0] == 255)
        }),
{
}

/// Filtering keeps the size of an image: four bytes for each pixel.
pub proof fn lemma_filtered_size(img: ImageView, mode: FilterMode)
    requires
        img.wf(),
    ensures
        filtered_bytes(img, mode).len() == img.data.len(),
{
    let f = |px: Seq<u8>| filter_pixel(px[0], px[1], px[2], px[3], mode);
    assert forall|px: Seq<u8>| #[trigger] f(px).len() == 4 by {}
    lemma_map_pixels_len(img.data, f, img.data.len() / 4);
    assert(img.data.len() == img.width * img.height * 4);
    assert(img.data.len() / 4 * 4 == img.data.len()) by (nonlinear_arith)
        requires img.data.len() == img.width * img.height * 4;
}

proof fn lemma_map_pixels_zero(data: Seq<u8>, f: spec_fn(Seq<u8>) -> Seq<u8>, n: nat)
    requires
        forall|px: Seq<u8>| #[trigger] f(px) == seq![0u8, 0u8, 0u8, 0u8],
    ensures
        map_pixels(data, f, n) == Seq::new(4 * n, |i: int| 0u8),
    decreases n,
{
    if n > 0 {
        lemma_map_pixels_zero(data, f, (n - 1) as nat);
        assert(map_pixels(data, f, n) =~= Seq::new(4 * n, |i: int| 0u8));
    } else {
        assert(map_pixels(data, f, n) =~= Seq::new(4 * n, |i: int| 0u8));
    }
}

/// With no bit selected the overlay marks nothing: every byte is zero.
pub proof fn lemma_overlay_of_empty_mask(img: ImageView)
    requires
        img.wf(),
    ensures
        overlay_bytes(img, 0) == Seq::new(img.data.len(), |i: int| 0u8),
{
    let f = |px: Seq<u8>| overlay_pixel(px, 0);
    assert forall|px: Seq<u8>| #[trigger] f(px) == seq![0u8, 0u8, 0u8, 0u8] by {
        let c0 = px[0];
        let c1 = px[1];
        let c2 = px[2];
        let c3 = px[3];
        assert(c0 & 0u8 == 0 && c1 & 0u8 == 0 && c2 & 0u8 == 0 && c3 & 0u8 == 0) by (bit_vector);
        assert(((0u32 >> 24u32) & 0xFFu32) as u8 == 0u8 && (0u32 & 0xFFu32) as u8 == 0u8 && ((0u32 >> 8u32)
            & 0xFFu32) as u8 == 0u8 && ((0u32 >> 16u32) & 0xFFu32) as u8 == 0u8) by (bit_vector);
        assert(f(px) =~= seq![0u8, 0u8, 0u8, 0u8]);
    }
    lemma_map_pixels_zero(img.data, f, img.data.len() / 4);
    assert(img.data.len() / 4 * 4 == img.data.len()) by (nonlinear_arith)
        requires img.data.len() == img.width * img.height * 4;
}

/// The binary threshold paints a pixel white exactly when its three colour
/// channels sum to at least 384 (an average above 127), black otherwise,
/// always opaque; it treats the three colour channels alike and ignores alpha.
pub proof fn lemma_binary_threshold(r: u8, g: u8, b: u8, a: u8, a2: u8)
    ensures
        filter_pixel(r, g, b, a, FilterMode::BinaryThreshold) == (if r + g + b >= 384 {
            seq![255u8, 255u8, 255u8, 255u8]
        } else {
            seq![0u8, 0u8, 0u8, 255u8]
        }),
        filter_pixel(r, g, b, a, FilterMode::BinaryThreshold) == filter_pixel(g, r, b, a2, FilterMode::BinaryThreshold),
        filter_pixel(r, g, b, a, FilterMode::BinaryThreshold) == filter_pixel(r, b, g, a2, FilterMode::BinaryThreshold),
        filter_pixel(r, g, b, a, FilterMode::BinaryThreshold) == filter_pixel(b, g, r, a2, FilterMode::BinaryThreshold),
{
    assert(filter_pixel(r, g, b, a, FilterMode::BinaryThreshold) =~= (if r + g + b >= 384 {
        seq![255u8, 255u8, 255u8, 255u8]
    } else {
        seq![0u8, 0u8, 0u8, 255u8]
    }));
    assert(filter_pixel(g, r, b, a2, FilterMode::BinaryThreshold) =~= filter_pixel(r, g, b, a, FilterMode::BinaryThreshold));
    assert(filter_pixel(r, b, g, a2, FilterMode::BinaryThreshold) =~= filter_pixel(r, g, b, a, FilterMode::BinaryThreshold));
    assert(filter_pixel(b, g, r, a2, FilterMode::BinaryThreshold) =~= filter_pixel(r, g, b, a, FilterMode::BinaryThreshold));
}

/// Pixel `p` of the first `n` pixels mapped by `f` is `f` of pixel `p`.
pub proof fn lemma_map_pixels_at(data: Seq<u8>, f: spec_fn(Seq<u8>) -> Seq<u8>, n: nat, p: int)
    requires
        forall|px: Seq<u8>| #[trigger] f(px).len() == 4,
        0 <= p < n,
    ensures
        map_pixels(data, f, n).len() == 4 * n,
        map_pixels(data, f, n).subrange(4 * p, 4 * p + 4) == f(data.subrange(4 * p, 4 * p + 4)),
    decreases n,
{
    lemma_map_pixels_len(data, f, n);
    lemma_map_pixels_len(data, f, (n - 1) as nat);
    let prev = map_pixels(data, f, (n - 1) as nat);
    if p == n - 1 {
        assert(map_pixels(data, f, n).subrange(4 * p, 4 * p + 4) =~= f(data.subrange(4 * p, 4 * p + 4)));
    } else {
        lemma_map_pixels_at(data, f, (n - 1) as nat, p);
        assert(map_pixels(data, f, n).subrange(4 * p, 4 * p + 4) =~= prev.subrange(4 * p, 4 * p + 4));
    }
}

/// Whether bit `b` of `value` is set and the mask selects bit `b` of channel `c`.
pub open spec fn selected_bit_set(value: u8, mask: u32, c: int, b: int) -> bool {
    &&& 0 <= b < 8
    &&& (value >> (b as u8)) & 1u8 == 1u8
    &&& mask_selects(mask, c, b)
}

/// Whether channel `c` of `px` has a bit set that the mask selects for it.
pub open spec fn channel_hit(px: Seq<u8>, mask: u32, c: int) -> bool {
    exists|b: int| #[trigger] selected_bit_set(px[c], mask, c, b)
}

proof fn lemma_byte_and(v: u8, m: u8)
    ensures
        (v & m != 0) <==> exists|b: u8| b < 8 && (v >> b) & 1u8 == 1u8 && #[trigger] ((m >> b) & 1u8) == 1u8,
{
    if v & m != 0 {
        assert(((v >> 0u8) & 1u8 == 1u8 && (m >> 0u8) & 1u8 == 1u8) || ((v >> 1u8) & 1u8 == 1u8 && (m >> 1u8) & 1u8
            == 1u8) || ((v >> 2u8) & 1u8 == 1u8 && (m >> 2u8) & 1u8 == 1u8) || ((v >> 3u8) & 1u8 == 1u8 && (m >> 3u8)
            & 1u8 == 1u8) || ((v >> 4u8) & 1u8 == 1u8 && (m >> 4u8) & 1u8 == 1u8) || ((v >> 5u8) & 1u8 == 1u8 && (m
            >> 5u8) & 1u8 == 1u8) || ((v >> 6u8) & 1u8 == 1u8 && (m >> 6u8) & 1u8 == 1u8) || ((v >> 7u8) & 1u8 == 1u8
            && (m >> 7u8) & 1u8 == 1u8)) by (bit_vector)
            requires
                v & m != 0,
        ;
    }
    assert forall|b: u8| b < 8 && (v >> b) & 1u8 == 1u8 && #[trigger] ((m >> b) & 1u8) == 1u8 implies v & m != 0 by {
        assert(v & m != 0) by (bit_vector)
            requires
                b < 8,
                (v >> b) & 1u8 == 1u8,
                (m >> b) & 1u8 == 1u8,
        ;
    }
}

proof fn lemma_mask_byte_bit(mask: u32, k: u32, b: u8)
    requires
        k <= 24,
        b < 8,
    ensures
        ((((mask >> k) & 0xFFu32) as u8) >> b) & 1u8 == 1u8 <==> (mask >> (k + b as u32)) & 1u32 == 1u32,
{
    assert(((((mask >> k) & 0xFFu32) as u8) >> b) & 1u8 == 1u8 <==> (mask >> (k + b as u32)) & 1u32 == 1u32)
        by (bit_vector)
        requires
            k <= 24,
            b < 8,
    ;
}

/// A colour byte shares a set bit with the mask's byte for channel `c`
/// exactly when one of its bits is selected for that channel.
proof fn lemma_channel_byte_hit(px: Seq<u8>, mask: u32, c: int)
    requires
        0 <= c < 4,
    ensures
        (px[c] & ((mask >> ((8 * c) as u32)) & 0xFFu32) as u8 != 0) == channel_hit(px, mask, c),
{
    let v = px[c];
    let k = (8 * c) as u32;
    let m = ((mask >> k) & 0xFFu32) as u8;
    lemma_byte_and(v, m);
    if v & m != 0 {
        let b = choose|b: u8| b < 8 && (v >> b) & 1u8 == 1u8 && #[trigger] ((m >> b) & 1u8) == 1u8;
        lemma_mask_byte_bit(mask, k, b);
        assert(selected_bit_set(v, mask, c, b as int));
    }
    if channel_hit(px, mask, c) {
        let b = choose|b: int| #[trigger] selected_bit_set(px[c], mask, c, b);
        lemma_mask_byte_bit(mask, k, b as u8);
        assert((m >> (b as u8)) & 1u8 == 1u8);
    }
}

/// The overlay lights colour channel `c` (0 red, 1 green, 2 blue) of a pixel
/// exactly when that channel, or the alpha channel, has a bit set that the
/// mask selects for it; a lit pixel has opacity 180, an unlit one is
/// transparent and black.
pub proof fn lemma_overlay_marks(px: Seq<u8>, mask: u32)
    ensures
        overlay_pixel(px, mask).len() == 4,
        forall|c: int| 0 <= c < 3 ==> #[trigger] overlay_pixel(px, mask)[c] == (if channel_hit(px, mask, c) || channel_hit(px, mask, 3) {
            255u8
        } else {
            0u8
        }),
        overlay_pixel(px, mask)[3] == (if channel_hit(px, mask, 0) || channel_hit(px, mask, 1) || channel_hit(px, mask, 2)
            || channel_hit(px, mask, 3) {
            180u8
        } else {
            0u8
        }),
{
    lemma_channel_byte_hit(px, mask, 0);
    lemma_channel_byte_hit(px, mask, 1);
    lemma_channel_byte_hit(px, mask, 2);
    lemma_channel_byte_hit(px, mask, 3);
    assert((mask & 0xFFu32) == ((mask >> 0u32) & 0xFFu32)) by (bit_vector);
}

/// Pixel `p` of the overlay of an image is the overlay pixel of pixel `p`.
pub proof fn lemma_overlay_bytes_at(img: ImageView, mask: u32, p: int)
    requires
        img.wf(),
        0 <= p < img.width * img.height,
    ensures
        overlay_bytes(img, mask).len() == img.data.len(),
        overlay_bytes(img, mask).subrange(4 * p, 4 * p + 4) == overlay_pixel(img.data.subrange(4 * p, 4 * p + 4), mask),
{
    let f = |px: Seq<u8>| overlay_pixel(px, mask);
    assert forall|px: Seq<u8>| #[trigger] f(px).len() == 4 by {}
    assert(img.data.len() / 4 == img.width * img.height);
    lemma_map_pixels_at(img.data, f, img.data.len() / 4, p);
}

/// Pixel `p` of a filtered image is the filtered pixel `p`.
pub proof fn lemma_filtered_bytes_at(img: ImageView, mode: FilterMode, p: int)
    requires
        img.wf(),
        0 <= p < img.width * img.height,
    ensures
        filtered_bytes(img, mode).len() == img.data.len(),
        filtered_bytes(img, mode).subrange(4 * p, 4 * p + 4) == filter_pixel(
            img.data[4 * p],
            img.data[4 * p + 1],
            img.data[4 * p + 2],
            img.data[4 * p + 3],
            mode,
        ),
{
    let f = |px: Seq<u8>| filter_pixel(px[0], px[1], px[2], px[3], mode);
    assert forall|px: Seq<u8>| #[trigger] f(px).len() == 4 by {}
    assert(img.data.len() / 4 == img.width * img.height);
    lemma_map_pixels_at(img.data, f, img.data.len() / 4, p);
}

/// The blend of `n` pixels: byte `c` of pixel `p` is channel `c` of the
/// overlay pixel drawn over the base pixel with the overlay's opacity, and
/// every pixel comes out opaque.
pub proof fn lemma_blended_at(base: Seq<u8>, overlay: Seq<u8>, n: nat, p: int, c: int)
    requires
        0 <= p < n,
        0 <= c < 4,
    ensures
        blended(base, overlay, n).len() == 4 * n,
        blended(base, overlay, n)[4 * p + c] == (if c < 3 {
            blend_channel_value(base[4 * p + c], overlay[4 * p + c], overlay[4 * p + 3])
        } else {
            255u8
        }),
    decreases n,
{
    lemma_blended_len(base, overlay, (n - 1) as nat);
    if p < n - 1 {
        lemma_blended_at(base, overlay, (n - 1) as nat, p, c);
    }
}

proof fn lemma_blended_len(base: Seq<u8>, overlay: Seq<u8>, n: nat)
    ensures
        blended(base, overlay, n).len() == 4 * n,
    decreases n,
{
    if n > 0 {
        lemma_blended_len(base, overlay, (n - 1) as nat);
    }
}

} // verus!
