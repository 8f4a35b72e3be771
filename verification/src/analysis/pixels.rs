//! An RGBA image with eight bits per channel, held as plain bytes.
//!
//! Pixels are stored row by row, four bytes each (red, green, blue, alpha), so
//! that the pixel at `(x, y)` starts at byte `(y * width + x) * 4`.
use vstd::prelude::*;

verus! {

/// The value of an RGBA image: its size and its bytes.
pub struct ImageView {
    pub width: u32,
    pub height: u32,
    pub data: Seq<u8>,
}

impl ImageView {
    /// The byte buffer holds exactly four bytes per pixel.
    pub open spec fn wf(self) -> bool {
        self.data.len() == self.width * self.height * 4
    }

    pub open spec fn in_bounds(self, x: int, y: int) -> bool {
        0 <= x < self.width && 0 <= y < self.height
    }

    /// Index of the first byte of the pixel at `(x, y)`.
    pub open spec fn offset(self, x: int, y: int) -> int {
        (y * self.width + x) * 4
    }

    /// Channel `c` (0 red, 1 green, 2 blue, 3 alpha) of the pixel at `(x, y)`.
    pub open spec fn channel(self, x: int, y: int, c: int) -> u8 {
        self.data[self.offset(x, y) + c]
    }

    /// The four channels of the pixel at `(x, y)`.
    pub open spec fn pixel(self, x: int, y: int) -> Seq<u8> {
        seq![self.channel(x, y, 0), self.channel(x, y, 1), self.channel(x, y, 2), self.channel(x, y, 3)]
    }

    /// The same image with the pixel at `(x, y)` replaced by `px`.
    pub open spec fn with_pixel(self, x: int, y: int, px: Seq<u8>) -> ImageView {
        let o = self.offset(x, y);
        ImageView {
            width: self.width,
            height: self.height,
            data: self.data.update(o, px[0]).update(o + 1, px[1]).update(o + 2, px[2]).update(o + 3, px[3]),
        }
    }
}

/// Where the pixel `(x, y)` of a `width` by `height` image starts, its four bytes lie in the buffer.
pub proof fn lemma_offset_in_bounds(width: int, height: int, x: int, y: int)
    requires
        0 <= x < width,
        0 <= y < height,
    ensures
        0 <= (y * width + x) * 4,
        (y * width + x) * 4 + 4 <= width * height * 4,
        (y * width + x) * 4 + 3 < width * height * 4,
{
    assert(0 <= y * width + x) by (nonlinear_arith)
        requires 0 <= x < width, 0 <= y < height;
    assert(y * width + x + 1 <= width * height) by (nonlinear_arith)
        requires 0 <= x < width, 0 <= y < height;
}

/// Distinct pixels occupy distinct bytes: the bytes of `(x1, y1)` and `(x2, y2)` do not overlap.
pub proof fn lemma_offsets_disjoint(width: int, x1: int, y1: int, x2: int, y2: int)
    requires
        0 <= x1 < width,
        0 <= x2 < width,
        0 <= y1,
        0 <= y2,
        x1 != x2 || y1 != y2,
    ensures
        (y1 * width + x1) * 4 + 4 <= (y2 * width + x2) * 4 || (y2 * width + x2) * 4 + 4 <= (y1 * width + x1) * 4,
{
    if y1 == y2 {
    } else if y1 < y2 {
        assert(y1 * width + x1 < y2 * width + x2) by (nonlinear_arith)
            requires 0 <= x1 < width, 0 <= x2 < width, y1 < y2;
    } else {
        assert(y2 * width + x2 < y1 * width + x1) by (nonlinear_arith)
            requires 0 <= x1 < width, 0 <= x2 < width, y2 < y1;
    }
}

/// Byte `i` of a well-formed image is channel `i % 4` of pixel number `i / 4`,
/// which sits at column `(i / 4) % width` of row `(i / 4) / width`.
pub proof fn lemma_byte_of_pixel(v: ImageView, i: int)
    requires
        v.wf(),
        0 <= i < v.data.len(),
    ensures
        v.in_bounds((i / 4) % (v.width as int), (i / 4) / (v.width as int)),
        v.offset((i / 4) % (v.width as int), (i / 4) / (v.width as int)) + i % 4 == i,
{
    let w = v.width as int;
    let h = v.height as int;
    let p = i / 4;
    assert(w > 0) by (nonlinear_arith)
        requires v.data.len() == w * h * 4, 0 <= i < v.data.len(), h >= 0, w >= 0;
    vstd::arithmetic::div_mod::lemma_fundamental_div_mod(i, 4);
    vstd::arithmetic::div_mod::lemma_fundamental_div_mod(p, w);
    assert(p < w * h) by (nonlinear_arith)
        requires i == 4 * p + i % 4, 0 <= i % 4 < 4, i < w * h * 4;
    assert(0 <= p / w < h) by (nonlinear_arith)
        requires p == w * (p / w) + p % w, 0 <= p % w < w, 0 <= p < w * h, w > 0;
    assert((p / w * w + p % w) * 4 + i % 4 == i) by (nonlinear_arith)
        requires p == w * (p / w) + p % w, i == 4 * p + i % 4;
}

/// Two well-formed images of the same size with the same pixels are equal.
pub proof fn lemma_same_pixels(a: ImageView, b: ImageView)
    requires
        a.wf(),
        b.wf(),
        a.width == b.width,
        a.height == b.height,
        forall|x: int, y: int| #[trigger] a.in_bounds(x, y) ==> a.pixel(x, y) == b.pixel(x, y),
    ensures
        a == b,
{
    assert forall|i: int| 0 <= i < a.data.len() implies a.data[i] == b.data[i] by {
        lemma_byte_of_pixel(a, i);
        let x = (i / 4) % (a.width as int);
        let y = (i / 4) / (a.width as int);
        assert(a.pixel(x, y) == b.pixel(x, y));
        let c = i % 4;
        assert(a.pixel(x, y)[c] == a.channel(x, y, c));
        assert(b.pixel(x, y)[c] == b.channel(x, y, c));
    }
    assert(a.data =~= b.data);
}

/// Replacing one pixel leaves every other pixel as it was.
pub proof fn lemma_with_pixel(v: ImageView, x: int, y: int, px: Seq<u8>, xx: int, yy: int)
    requires
        v.wf(),
        v.in_bounds(x, y),
        v.in_bounds(xx, yy),
        px.len() == 4,
    ensures
        v.with_pixel(x, y, px).wf(),
        v.with_pixel(x, y, px).pixel(xx, yy) == if xx == x && yy == y { px } else { v.pixel(xx, yy) },
{
    lemma_offset_in_bounds(v.width as int, v.height as int, x, y);
    lemma_offset_in_bounds(v.width as int, v.height as int, xx, yy);
    if xx != x || yy != y {
        lemma_offsets_disjoint(v.width as int, x, y, xx, yy);
    }
    let w = v.with_pixel(x, y, px);
    if xx == x && yy == y {
        assert(w.pixel(xx, yy) =~= px);
    } else {
        assert(w.pixel(xx, yy) =~= v.pixel(xx, yy));
    }
}

/// An RGBA image with eight bits per channel.
#[derive(Debug, PartialEq, Eq)]
pub struct RgbaImage {
    width: u32,
    height: u32,
    data: Vec<u8>,
}

impl View for RgbaImage {
    type V = ImageView;

    closed spec fn view(&self) -> ImageView {
        ImageView { width: self.width, height: self.height, data: self.data@ }
    }
}

impl RgbaImage {
    /// Every image holds exactly four bytes per pixel.
    #[verifier::type_invariant]
    closed spec fn buffer_fits_size(self) -> bool {
        self.data@.len() == self.width * self.height * 4
    }

    /// A `width` by `height` image whose bytes are all zero (transparent black).
    pub fn new(width: u32, height: u32) -> (img: RgbaImage)
        requires
            width * height * 4 <= usize::MAX,
        ensures
            img@.width == width,
            img@.height == height,
            img@.data == Seq::new((width * height * 4) as nat, |i: int| 0u8),
            img@.wf(),
    {
        assert(width * height * 4 == (width as usize) as int * (height as usize) as int * 4);
        assert((width as usize) * (height as usize) <= usize::MAX) by (nonlinear_arith)
            requires width * height * 4 <= usize::MAX;
        let len = (width as usize) * (height as usize) * 4;
        let data: Vec<u8> = vec![0u8; len];
        let img = RgbaImage { width, height, data };
        assert(img@.data =~= Seq::new((width * height * 4) as nat, |i: int| 0u8));
        img
    }

    /// The image whose rows are given by `data`, or `None` when `data` holds fewer
    /// than four bytes per pixel. Bytes past the last pixel are ignored.
    pub fn from_raw(width: u32, height: u32, data: Vec<u8>) -> (res: Option<RgbaImage>)
        ensures
            match res {
                Some(img) => {
                    &&& width * height * 4 <= data@.len()
                    &&& img@.width == width
                    &&& img@.height == height
                    &&& img@.data == data@.subrange(0, width * height * 4)
                    &&& img@.wf()
                },
                None => data@.len() < width * height * 4,
            },
    {
        let pixels = (width as usize).checked_mul(height as usize);
        let len = match pixels {
            Some(p) => p.checked_mul(4),
            None => None,
        };
        match len {
            Some(len) => {
                assert(len == width * height * 4);
                if len <= data.len() {
                    let mut data = data;
                    data.truncate(len);
                    let img = RgbaImage { width, height, data };
                    Some(img)
                } else {
                    None
                }
            },
            None => {
                assert(width * height * 4 > usize::MAX) by (nonlinear_arith)
                    requires
                        (width as int) * (height as int) > usize::MAX || (width as int) * (height as int) * 4 > usize::MAX;
                assert(data@.len() == data.len());
                None
            },
        }
    }

    pub fn width(&self) -> (w: u32)
        ensures
            w == self@.width,
            self@.wf(),
    {
        proof {
            use_type_invariant(self);
        }
        self.width
    }

    pub fn height(&self) -> (h: u32)
        ensures
            h == self@.height,
            self@.wf(),
    {
        proof {
            use_type_invariant(self);
        }
        self.height
    }

    pub fn dimensions(&self) -> (dims: (u32, u32))
        ensures
            dims == (self@.width, self@.height),
            self@.wf(),
    {
        proof {
            use_type_invariant(self);
        }
        (self.width, self.height)
    }

    fn offset_of(&self, x: u32, y: u32) -> (o: usize)
        requires
            self@.wf(),
            self@.in_bounds(x as int, y as int),
        ensures
            o == self@.offset(x as int, y as int),
            o + 4 <= self@.data.len(),
    {
        let len = self.data.len();
        proof {
            lemma_offset_in_bounds(self.width as int, self.height as int, x as int, y as int);
            assert((y as int) * (self.width as int) <= (y as int) * (self.width as int) + x);
        }
        ((y as usize) * (self.width as usize) + (x as usize)) * 4
    }

    /// The four channels of the pixel at `(x, y)`.
    pub fn get_pixel(&self, x: u32, y: u32) -> (px: [u8; 4])
        requires
            self@.in_bounds(x as int, y as int),
        ensures
            px@ == self@.pixel(x as int, y as int),
    {
        proof {
            use_type_invariant(self);
            lemma_offset_in_bounds(self.width as int, self.height as int, x as int, y as int);
        }
        let o = self.offset_of(x, y);
        let px = [self.data[o], self.data[o + 1], self.data[o + 2], self.data[o + 3]];
        assert(px@ =~= self@.pixel(x as int, y as int));
        px
    }

    /// Replaces the pixel at `(x, y)`.
    pub fn put_pixel(&mut self, x: u32, y: u32, px: [u8; 4])
        requires
            old(self)@.in_bounds(x as int, y as int),
        ensures
            final(self)@ == old(self)@.with_pixel(x as int, y as int, px@),
            final(self)@.wf(),
    {
        proof {
            use_type_invariant(&*self);
        }
        let o = self.offset_of(x, y);
        let mut taken = RgbaImage { width: 0, height: 0, data: Vec::new() };
        std::mem::swap(self, &mut taken);
        let RgbaImage { width, height, mut data } = taken;
        data.set(o, px[0]);
        data.set(o + 1, px[1]);
        data.set(o + 2, px[2]);
        data.set(o + 3, px[3]);
        *self = RgbaImage { width, height, data };
        assert(self@ =~= old(self)@.with_pixel(x as int, y as int, px@));
    }

    /// The image's bytes, four per pixel, row by row.
    pub fn as_raw(&self) -> (data: &Vec<u8>)
        ensures
            data@ == self@.data,
            self@.wf(),
    {
        proof {
            use_type_invariant(self);
        }
        &self.data
    }

    /// Consumes the image and gives back its bytes.
    pub fn into_raw(self) -> (data: Vec<u8>)
        ensures
            data@ == self@.data,
            self@.wf(),
    {
        proof {
            use_type_invariant(&self);
        }
        self.data
    }
}

impl Clone for RgbaImage {
    /// A copy of the image.
    fn clone(&self) -> (c: RgbaImage)
        ensures
            c@ == self@,
    {
        proof {
            use_type_invariant(self);
        }
        let data = self.data.clone();
        assert(data@ =~= self.data@);
        RgbaImage { width: self.width, height: self.height, data }
    }
}

} // verus!
