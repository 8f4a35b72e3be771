//! # Stereoscopic Analysis
//!
//! Averages each pixel with the pixel a fixed number of columns away, which
//! brings out patterns repeated at that horizontal distance.
use vstd::prelude::*;
use crate::analysis::pixels::{ImageView, RgbaImage, lemma_with_pixel, lemma_offset_in_bounds, lemma_same_pixels};

verus! {

/// The pixel that `(x, y)` is averaged with: the one `offset` columns to the
/// right (left when negative), or opaque black past either edge.
pub open spec fn stereo_partner(img: ImageView, x: int, y: int, offset: i32) -> Seq<u8> {
    let x2 = (x as i32) + offset;
    if 0 <= x2 && x2 < (img.width as i32) {
        img.pixel(x2, y)
    } else {
        seq![0u8, 0u8, 0u8, 255u8]
    }
}

/// The stereo pixel at `(x, y)`: the rounded-down average of the colour
/// channels of the pixel and its partner, fully opaque.
pub open spec fn stereo_pixel(img: ImageView, x: int, y: int, offset: i32) -> Seq<u8> {
    let p1 = img.pixel(x, y);
    let p2 = stereo_partner(img, x, y, offset);
    seq![((p1[0] + p2[0]) / 2) as u8, ((p1[1] + p2[1]) / 2) as u8, ((p1[2] + p2[2]) / 2) as u8, 255u8]
}

/// The stereo view of `img`: the image of the same size whose pixels are
/// the stereo pixels.
pub open spec fn stereo_image(img: ImageView, offset: i32) -> ImageView {
    ImageView {
        width: img.width,
        height: img.height,
        data: Seq::new(
            img.data.len(),
            |i: int| stereo_pixel(img, (i / 4) % (img.width as int), (i / 4) / (img.width as int), offset)[i % 4],
        ),
    }
}

/// The stereo view is the well-formed image whose pixels are the stereo pixels.
pub proof fn lemma_stereo_image_pixels(img: ImageView, offset: i32)
    requires
        img.wf(),
    ensures
        stereo_image(img, offset).wf(),
        forall|x: int, y: int| #[trigger] img.in_bounds(x, y) ==> stereo_image(img, offset).pixel(x, y) == stereo_pixel(img, x, y, offset),
{
    let s = stereo_image(img, offset);
    let w = img.width as int;
    assert forall|x: int, y: int| #[trigger] img.in_bounds(x, y) implies s.pixel(x, y) == stereo_pixel(img, x, y, offset) by {
        lemma_offset_in_bounds(w, img.height as int, x, y);
        let o = (y * w + x) * 4;
        assert forall|c: int| 0 <= c < 4 implies #[trigger] s.data[o + c] == stereo_pixel(img, x, y, offset)[c] by {
            let i = o + c;
            vstd::arithmetic::div_mod::lemma_fundamental_div_mod(i, 4);
            assert(i / 4 == y * w + x && i % 4 == c) by {
                vstd::arithmetic::div_mod::lemma_fundamental_div_mod_converse(i, 4, y * w + x, c);
            }
            assert((i / 4) % w == x && (i / 4) / w == y) by {
                vstd::arithmetic::div_mod::lemma_fundamental_div_mod_converse(y * w + x, w, y, x);
            }
        }
        assert(s.pixel(x, y) =~= stereo_pixel(img, x, y, offset));
    }
}

/// No column index of the image overflows when shifted by `offset`.
pub open spec fn offset_fits(img: ImageView, offset: i32) -> bool {
    img.height == 0 || forall|x: int| 0 <= x < img.width ==> i32::MIN <= #[trigger] ((x as i32) + offset) <= i32::MAX
}

/// Renders a stereo view: every pixel averaged with the pixel `offset`
/// columns away.
pub fn render_stereo(img: &RgbaImage, offset: i32) -> (out: RgbaImage)
    requires
        offset_fits(img@, offset),
    ensures
        out@.wf(),
        out@.width == img@.width,
        out@.height == img@.height,
        forall|x: int, y: int| #[trigger] img@.in_bounds(x, y) ==> out@.pixel(x, y) == stereo_pixel(img@, x, y, offset),
        out@ == stereo_image(img@, offset),
{
    let (width, height) = img.dimensions();
    let mut out = img.clone();
    for y in 0..height
        invariant
            img@.wf(),
            width == img@.width,
            height == img@.height,
            offset_fits(img@, offset),
            out@.wf(),
            out@.width == width,
            out@.height == height,
            forall|xx: int, yy: int| #[trigger] img@.in_bounds(xx, yy) && yy < y ==> out@.pixel(xx, yy) == stereo_pixel(img@, xx, yy, offset),
    {
        for x in 0..width
            invariant
                img@.wf(),
                width == img@.width,
                height == img@.height,
                y < height,
                offset_fits(img@, offset),
                out@.wf(),
                out@.width == width,
                out@.height == height,
                forall|xx: int, yy: int| #[trigger] img@.in_bounds(xx, yy) && (yy < y || (yy == y && xx < x)) ==> out@.pixel(xx, yy) == stereo_pixel(img@, xx, yy, offset),
        {
            assert(i32::MIN <= (x as i32) + offset <= i32::MAX);
            let x2 = x as i32 + offset;
            let p1 = img.get_pixel(x, y);
            let p2 = if x2 >= 0 && x2 < width as i32 {
                img.get_pixel(x2 as u32, y)
            } else {
                [0, 0, 0, 255]
            };
            let mixed = [
                ((p1[0] as u16 + p2[0] as u16) / 2) as u8,
                ((p1[1] as u16 + p2[1] as u16) / 2) as u8,
                ((p1[2] as u16 + p2[2] as u16) / 2) as u8,
                255,
            ];
            assert(mixed@ =~= stereo_pixel(img@, x as int, y as int, offset));
            let ghost before = out@;
            out.put_pixel(x, y, mixed);
            assert forall|xx: int, yy: int| #[trigger] img@.in_bounds(xx, yy) && (yy < y || (yy == y && xx < x + 1)) implies out@.pixel(xx, yy) == stereo_pixel(img@, xx, yy, offset) by {
                lemma_with_pixel(before, x as int, y as int, mixed@, xx, yy);
            }
        }
    }
    proof {
        lemma_stereo_image_pixels(img@, offset);
        assert forall|x: int, y: int| #[trigger] out@.in_bounds(x, y) implies out@.pixel(x, y) == stereo_image(img@, offset).pixel(x, y) by {
            assert(img@.in_bounds(x, y));
        }
        lemma_same_pixels(out@, stereo_image(img@, offset));
    }
    out
}

/// With no offset each pixel is averaged with itself: it keeps its colour
/// and becomes opaque (for images narrower than `2^31` columns, whose column
/// indices are all valid `i32` values).
pub proof fn lemma_stereo_without_offset(img: ImageView, x: int, y: int)
    requires
        img.wf(),
        img.in_bounds(x, y),
        img.width <= i32::MAX,
    ensures
        stereo_pixel(img, x, y, 0) == seq![img.channel(x, y, 0), img.channel(x, y, 1), img.channel(x, y, 2), 255u8],
{
    assert((x as i32) as int == x);
    assert((img.width as i32) as int == img.width as int);
    assert(stereo_pixel(img, x, y, 0) =~= seq![img.channel(x, y, 0), img.channel(x, y, 1), img.channel(x, y, 2), 255u8]);
}

} // verus!
