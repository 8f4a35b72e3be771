//! # Bit Extraction
//!
//! Pulls hidden bits out of the colour channels of an image: a 32-bit mask
//! selects bit planes (bits 0-7 red, 8-15 green, 16-23 blue, 24-31 alpha),
//! pixels are visited row by row or column by column, and the bits are packed
//! into bytes with the least or the most significant bit first.
use vstd::prelude::*;
use vstd::arithmetic::power2::*;
use vstd::arithmetic::mul::*;
use crate::analysis::pixels::{ImageView, RgbaImage};

verus! {

// ---------------------------------------------------------------------------
// Which bits are taken, and in what order
// ---------------------------------------------------------------------------

/// Whether `mask` selects bit `bit` of channel `channel`.
pub open spec fn mask_selects(mask: u32, channel: int, bit: int) -> bool {
    (mask >> ((channel * 8 + bit) as u32)) & 1u32 == 1u32
}

/// The `k`-th bit plane visited: planes go 0 to 7 when the least significant
/// bit comes first, 7 down to 0 otherwise.
pub open spec fn plane_at(lsb_first: bool, k: int) -> u8 {
    if lsb_first {
        k as u8
    } else {
        (7 - k) as u8
    }
}

/// The selected `(channel, bit)` pairs of one bit plane, channels taken in `order`.
pub open spec fn plane_selection(mask: u32, bit: u8, order: Seq<usize>) -> Seq<(usize, u8)>
    decreases order.len(),
{
    if order.len() == 0 {
        Seq::empty()
    } else {
        let before = plane_selection(mask, bit, order.drop_last());
        if mask_selects(mask, order.last() as int, bit as int) {
            before.push((order.last(), bit))
        } else {
            before
        }
    }
}

/// The selected pairs of the first `k` bit planes visited.
pub open spec fn selection_prefix(mask: u32, lsb_first: bool, order: Seq<usize>, k: nat) -> Seq<(usize, u8)>
    decreases k,
{
    if k == 0 {
        Seq::empty()
    } else {
        selection_prefix(mask, lsb_first, order, (k - 1) as nat) + plane_selection(mask, plane_at(lsb_first, k - 1), order)
    }
}

/// The `(channel, bit)` pairs read from every pixel, in the order they are read.
pub open spec fn selected_bits(mask: u32, lsb_first: bool, order: Seq<usize>) -> Seq<(usize, u8)> {
    selection_prefix(mask, lsb_first, order, 8)
}

// ---------------------------------------------------------------------------
// The bit stream
// ---------------------------------------------------------------------------

/// Bit `sel.1` of channel `sel.0` of the pixel at `(x, y)`.
pub open spec fn sample_bit(img: ImageView, x: int, y: int, sel: (usize, u8)) -> bool {
    (img.channel(x, y, sel.0 as int) >> sel.1) & 1u8 == 1u8
}

/// The bits read from the pixel at `(x, y)`.
pub open spec fn pixel_bits(img: ImageView, x: int, y: int, sel: Seq<(usize, u8)>) -> Seq<bool> {
    Seq::new(sel.len(), |i: int| sample_bit(img, x, y, sel[i]))
}

/// The bits of the first `n` pixels of row `y`.
pub open spec fn row_bits(img: ImageView, sel: Seq<(usize, u8)>, y: int, n: nat) -> Seq<bool>
    decreases n,
{
    if n == 0 {
        Seq::empty()
    } else {
        row_bits(img, sel, y, (n - 1) as nat) + pixel_bits(img, n - 1, y, sel)
    }
}

/// The bits of the first `m` rows, each read left to right.
pub open spec fn rows_bits(img: ImageView, sel: Seq<(usize, u8)>, m: nat) -> Seq<bool>
    decreases m,
{
    if m == 0 {
        Seq::empty()
    } else {
        rows_bits(img, sel, (m - 1) as nat) + row_bits(img, sel, m - 1, img.width as nat)
    }
}

/// The bits of the first `n` pixels of column `x`.
pub open spec fn column_bits(img: ImageView, sel: Seq<(usize, u8)>, x: int, n: nat) -> Seq<bool>
    decreases n,
{
    if n == 0 {
        Seq::empty()
    } else {
        column_bits(img, sel, x, (n - 1) as nat) + pixel_bits(img, x, n - 1, sel)
    }
}

/// The bits of the first `m` columns, each read top to bottom.
pub open spec fn columns_bits(img: ImageView, sel: Seq<(usize, u8)>, m: nat) -> Seq<bool>
    decreases m,
{
    if m == 0 {
        Seq::empty()
    } else {
        columns_bits(img, sel, (m - 1) as nat) + column_bits(img, sel, m - 1, img.height as nat)
    }
}

/// Every bit read from the image, pixels visited row by row or column by column.
pub open spec fn extracted_bits(
    img: ImageView,
    mask: u32,
    lsb_first: bool,
    row_order: bool,
    order: Seq<usize>,
) -> Seq<bool> {
    let sel = selected_bits(mask, lsb_first, order);
    if row_order {
        rows_bits(img, sel, img.height as nat)
    } else {
        columns_bits(img, sel, img.width as nat)
    }
}

// ---------------------------------------------------------------------------
// Packing bits into bytes
// ---------------------------------------------------------------------------

/// The value of `chunk` read with its first bit as the least significant.
pub open spec fn lsb_value(chunk: Seq<bool>) -> nat
    decreases chunk.len(),
{
    if chunk.len() == 0 {
        0
    } else {
        lsb_value(chunk.drop_last()) + if chunk.last() { pow2((chunk.len() - 1) as nat) } else { 0 }
    }
}

/// The value of `chunk` read with its first bit as the most significant.
pub open spec fn msb_value(chunk: Seq<bool>) -> nat
    decreases chunk.len(),
{
    if chunk.len() == 0 {
        0
    } else {
        2 * msb_value(chunk.drop_last()) + if chunk.last() { 1nat } else { 0nat }
    }
}

/// The byte made of a chunk of at most eight bits. Most significant bit first,
/// a short chunk fills the high bits of the byte.
pub open spec fn byte_value(chunk: Seq<bool>, lsb_first: bool) -> nat {
    if lsb_first {
        lsb_value(chunk)
    } else {
        msb_value(chunk) * pow2((8 - chunk.len()) as nat)
    }
}

/// Where the `k`-th chunk of eight bits ends in a stream of `n` bits.
pub open spec fn chunk_end(n: int, k: int) -> int {
    if 8 * k + 8 <= n {
        8 * k + 8
    } else {
        n
    }
}

/// The bytes made of `bits`, eight at a time; a last short chunk makes a last byte.
pub open spec fn pack_bits(bits: Seq<bool>, lsb_first: bool) -> Seq<u8> {
    Seq::new(
        ((bits.len() + 7) / 8) as nat,
        |k: int| byte_value(bits.subrange(8 * k, chunk_end(bits.len() as int, k)), lsb_first) as u8,
    )
}

pub proof fn lemma_lsb_value_bound(chunk: Seq<bool>)
    ensures
        lsb_value(chunk) < pow2(chunk.len()),
    decreases chunk.len(),
{
    if chunk.len() > 0 {
        lemma_lsb_value_bound(chunk.drop_last());
        lemma_pow2_unfold(chunk.len());
    } else {
        lemma2_to64();
    }
}

pub proof fn lemma_msb_value_bound(chunk: Seq<bool>)
    ensures
        msb_value(chunk) < pow2(chunk.len()),
    decreases chunk.len(),
{
    if chunk.len() > 0 {
        lemma_msb_value_bound(chunk.drop_last());
        lemma_pow2_unfold(chunk.len());
    } else {
        lemma2_to64();
    }
}

/// A chunk of at most eight bits makes a value that fits in a byte.
pub proof fn lemma_byte_value_fits(chunk: Seq<bool>, lsb_first: bool)
    requires
        chunk.len() <= 8,
    ensures
        byte_value(chunk, lsb_first) < 256,
{
    lemma2_to64();
    if lsb_first {
        lemma_lsb_value_bound(chunk);
        if chunk.len() < 8 {
            lemma_pow2_strictly_increases(chunk.len(), 8);
        }
    } else {
        lemma_msb_value_bound(chunk);
        let low = (8 - chunk.len()) as nat;
        lemma_pow2_adds(chunk.len(), low);
        lemma_pow2_pos(low);
        lemma_mul_strict_inequality(msb_value(chunk) as int, pow2(chunk.len()) as int, pow2(low) as int);
    }
}

/// `2^p` for a bit position `p` below 8.
fn bit_weight(p: u8) -> (w: u8)
    requires
        p < 8,
    ensures
        w as nat == pow2(p as nat),
{
    proof {
        lemma2_to64();
    }
    match p {
        0 => 1,
        1 => 2,
        2 => 4,
        3 => 8,
        4 => 16,
        5 => 32,
        6 => 64,
        _ => 128,
    }
}

/// Collects bits one at a time into bytes.
struct BitPacker {
    out: Vec<u8>,
    cur: u8,
    filled: u8,
    lsb_first: bool,
}

/// The value accumulated so far from the bits of an unfinished byte.
spec fn partial_value(chunk: Seq<bool>, lsb_first: bool) -> nat {
    if lsb_first {
        lsb_value(chunk)
    } else {
        msb_value(chunk)
    }
}

impl BitPacker {
    /// The packer has taken in exactly the bits `bits`.
    spec fn holds(&self, bits: Seq<bool>) -> bool {
        &&& self.filled < 8
        &&& bits.len() == 8 * self.out@.len() + self.filled
        &&& forall|k: int|
            0 <= k < self.out@.len() ==> #[trigger] self.out@[k] as nat == byte_value(
                bits.subrange(8 * k, 8 * k + 8),
                self.lsb_first,
            )
        &&& self.cur as nat == partial_value(bits.subrange(8 * self.out@.len() as int, bits.len() as int), self.lsb_first)
    }

    fn new(lsb_first: bool) -> (p: BitPacker)
        ensures
            p.holds(Seq::empty()),
            p.lsb_first == lsb_first,
    {
        let p = BitPacker { out: Vec::new(), cur: 0, filled: 0, lsb_first };
        assert(Seq::<bool>::empty().subrange(0, 0) =~= Seq::<bool>::empty());
        p
    }

    fn push_bit(&mut self, b: bool, Ghost(bits): Ghost<Seq<bool>>)
        requires
            old(self).holds(bits),
        ensures
            final(self).holds(bits.push(b)),
            final(self).lsb_first == old(self).lsb_first,
    {
        let ghost n = self.out@.len();
        let ghost chunk = bits.subrange(8 * n as int, bits.len() as int);
        let ghost next = bits.push(b);
        assert(next.subrange(8 * n as int, next.len() as int) =~= chunk.push(b));
        assert(chunk.push(b).drop_last() =~= chunk);
        proof {
            lemma2_to64();
            if self.lsb_first {
                lemma_lsb_value_bound(chunk);
            } else {
                lemma_msb_value_bound(chunk);
            }
            assert(pow2(self.filled as nat) <= 128) by {
                if self.filled < 7 {
                    lemma_pow2_strictly_increases(self.filled as nat, 7);
                }
            }
        }
        if self.lsb_first {
            if b {
                let w = bit_weight(self.filled);
                self.cur = self.cur + w;
            }
        } else {
            self.cur = self.cur * 2 + if b { 1u8 } else { 0u8 };
        }
        self.filled = self.filled + 1;
        assert(chunk.len() + 1 == self.filled);
        assert(self.cur as nat == partial_value(chunk.push(b), self.lsb_first));
        if self.filled == 8 {
            let ghost val = self.cur;
            self.out.push(self.cur);
            self.cur = 0;
            self.filled = 0;
            assert forall|k: int| 0 <= k < self.out@.len() implies #[trigger] self.out@[k] as nat == byte_value(
                next.subrange(8 * k, 8 * k + 8),
                self.lsb_first,
            ) by {
                if k < n {
                    assert(next.subrange(8 * k, 8 * k + 8) =~= bits.subrange(8 * k, 8 * k + 8));
                } else {
                    assert(next.subrange(8 * k, 8 * k + 8) =~= chunk.push(b));
                    assert(self.out@[k] == val);
                    lemma2_to64();
                    assert(chunk.push(b).len() == 8);
                    assert(pow2((8 - chunk.push(b).len()) as nat) == 1);
                    lemma_mul_basics(msb_value(chunk.push(b)) as int);
                    assert(byte_value(chunk.push(b), self.lsb_first) == partial_value(chunk.push(b), self.lsb_first));
                }
            }
            assert(next.subrange(8 * self.out@.len() as int, next.len() as int) =~= Seq::<bool>::empty());
        } else {
            assert forall|k: int| 0 <= k < self.out@.len() implies #[trigger] self.out@[k] as nat == byte_value(
                next.subrange(8 * k, 8 * k + 8),
                self.lsb_first,
            ) by {
                assert(next.subrange(8 * k, 8 * k + 8) =~= bits.subrange(8 * k, 8 * k + 8));
            }
        }
    }

    fn finish(self, Ghost(bits): Ghost<Seq<bool>>) -> (out: Vec<u8>)
        requires
            self.holds(bits),
        ensures
            out@ == pack_bits(bits, self.lsb_first),
    {
        let ghost n = self.out@.len();
        let ghost chunk = bits.subrange(8 * n as int, bits.len() as int);
        let lsb_first = self.lsb_first;
        let filled = self.filled;
        let cur = self.cur;
        let mut out = self.out;
        if filled != 0 {
            proof {
                lemma2_to64();
            }
            if lsb_first {
                out.push(cur);
            } else {
                proof {
                    lemma_msb_value_bound(chunk);
                    let low = (8 - chunk.len()) as nat;
                    lemma_pow2_adds(chunk.len(), low);
                    lemma_pow2_pos(low);
                    lemma_mul_strict_inequality(msb_value(chunk) as int, pow2(chunk.len()) as int, pow2(low) as int);
                }
                let w = bit_weight(8 - filled);
                out.push(cur * w);
            }
            assert(out@[n as int] as nat == byte_value(chunk, lsb_first));
        }
        assert forall|k: int| 0 <= k < out@.len() implies #[trigger] out@[k] == pack_bits(bits, lsb_first)[k] by {
            if k < n {
                lemma_byte_value_fits(bits.subrange(8 * k, 8 * k + 8), lsb_first);
            } else {
                lemma_byte_value_fits(chunk, lsb_first);
            }
        }
        assert(out@ =~= pack_bits(bits, lsb_first));
        out
    }
}

// ---------------------------------------------------------------------------
// Extraction
// ---------------------------------------------------------------------------

/// The `(channel, bit)` pairs that `mask` selects, bit planes in reading order
/// and channels in `channel_order` within each plane.
fn select_bits(mask: u32, lsb_first: bool, channel_order: &[usize; 4]) -> (sel: Vec<(usize, u8)>)
    requires
        forall|i: int| 0 <= i < 4 ==> channel_order@[i] < 4,
    ensures
        sel@ == selected_bits(mask, lsb_first, channel_order@),
        forall|i: int| 0 <= i < sel@.len() ==> (#[trigger] sel@[i]).0 < 4 && sel@[i].1 < 8,
{
    let mut sel: Vec<(usize, u8)> = Vec::new();
    for k in 0..8u8
        invariant
            forall|i: int| 0 <= i < 4 ==> channel_order@[i] < 4,
            sel@ == selection_prefix(mask, lsb_first, channel_order@, k as nat),
            forall|i: int| 0 <= i < sel@.len() ==> (#[trigger] sel@[i]).0 < 4 && sel@[i].1 < 8,
    {
        let bit: u8 = if lsb_first { k } else { 7 - k };
        let ghost start = sel@;
        for i in 0..4usize
            invariant
                forall|i: int| 0 <= i < 4 ==> channel_order@[i] < 4,
                bit == plane_at(lsb_first, k as int),
                bit < 8,
                sel@ == start + plane_selection(mask, bit, channel_order@.take(i as int)),
                forall|i: int| 0 <= i < sel@.len() ==> (#[trigger] sel@[i]).0 < 4 && sel@[i].1 < 8,
        {
            let channel = channel_order[i];
            let idx: u32 = (channel as u32) * 8 + (bit as u32);
            assert(channel_order@.take(i + 1).drop_last() =~= channel_order@.take(i as int));
            if (mask >> idx) & 1 == 1 {
                sel.push((channel, bit));
            }
            assert(sel@ =~= start + plane_selection(mask, bit, channel_order@.take(i + 1)));
        }
        assert(channel_order@.take(4) =~= channel_order@);
    }
    sel
}

/// Feeds the bits selected by `sel` from the pixel at `(x, y)` to the packer.
fn pack_pixel(
    packer: &mut BitPacker,
    img: &RgbaImage,
    x: u32,
    y: u32,
    sel: &Vec<(usize, u8)>,
    Ghost(prefix): Ghost<Seq<bool>>,
)
    requires
        old(packer).holds(prefix),
        img@.wf(),
        img@.in_bounds(x as int, y as int),
        forall|i: int| 0 <= i < sel@.len() ==> (#[trigger] sel@[i]).0 < 4 && sel@[i].1 < 8,
    ensures
        final(packer).holds(prefix + pixel_bits(img@, x as int, y as int, sel@)),
        final(packer).lsb_first == old(packer).lsb_first,
{
    let px = img.get_pixel(x, y);
    let ghost bits = pixel_bits(img@, x as int, y as int, sel@);
    for s in 0..sel.len()
        invariant
            packer.holds(prefix + bits.take(s as int)),
            packer.lsb_first == old(packer).lsb_first,
            px@ == img@.pixel(x as int, y as int),
            bits == pixel_bits(img@, x as int, y as int, sel@),
            forall|i: int| 0 <= i < sel@.len() ==> (#[trigger] sel@[i]).0 < 4 && sel@[i].1 < 8,
    {
        let (channel, bit) = sel[s];
        let value = px[channel];
        let b = (value >> bit) & 1 == 1;
        assert(b == bits[s as int]);
        packer.push_bit(b, Ghost(prefix + bits.take(s as int)));
        assert((prefix + bits.take(s as int)).push(b) =~= prefix + bits.take(s + 1));
    }
    assert(bits.take(sel@.len() as int) =~= bits);
}

/// Extracts the bits that `mask` selects from every pixel of `img` and packs
/// them into bytes.
///
/// * `mask` - bit `8 * c + b` selects bit `b` of channel `c` (0 red, 1 green,
///   2 blue, 3 alpha).
/// * `lsb_first` - bit planes are read from 0 up to 7 and each byte is filled
///   from its least significant bit; otherwise planes are read from 7 down to
///   0 and bytes are filled from their most significant bit.
/// * `row_order` - pixels are visited row by row; otherwise column by column.
/// * `channel_order` - the order in which the channels of one bit plane are read.
///
/// A last incomplete byte is kept; when filled from the most significant bit,
/// its bits are in the high positions.
pub fn extract_bits_from_image(
    img: &RgbaImage,
    mask: u32,
    lsb_first: bool,
    row_order: bool,
    channel_order: [usize; 4],
) -> (out: Vec<u8>)
    requires
        forall|i: int| 0 <= i < 4 ==> channel_order@[i] < 4,
    ensures
        out@ == pack_bits(extracted_bits(img@, mask, lsb_first, row_order, channel_order@), lsb_first),
{
    let (width, height) = img.dimensions();
    let sel = select_bits(mask, lsb_first, &channel_order);
    let ghost s = sel@;
    let mut packer = BitPacker::new(lsb_first);
    if row_order {
        assert(rows_bits(img@, s, 0) =~= Seq::<bool>::empty());
        for y in 0..height
            invariant
                img@.wf(),
                width == img@.width,
                height == img@.height,
                s == sel@,
                forall|i: int| 0 <= i < sel@.len() ==> (#[trigger] sel@[i]).0 < 4 && sel@[i].1 < 8,
                packer.holds(rows_bits(img@, s, y as nat)),
                packer.lsb_first == lsb_first,
        {
            let ghost done = rows_bits(img@, s, y as nat);
            assert(done + row_bits(img@, s, y as int, 0) =~= done);
            for x in 0..width
                invariant
                    img@.wf(),
                    width == img@.width,
                    height == img@.height,
                    y < height,
                    s == sel@,
                    forall|i: int| 0 <= i < sel@.len() ==> (#[trigger] sel@[i]).0 < 4 && sel@[i].1 < 8,
                    packer.holds(done + row_bits(img@, s, y as int, x as nat)),
                    packer.lsb_first == lsb_first,
            {
                pack_pixel(&mut packer, img, x, y, &sel, Ghost(done + row_bits(img@, s, y as int, x as nat)));
                assert(done + row_bits(img@, s, y as int, x as nat) + pixel_bits(img@, x as int, y as int, s)
                    =~= done + row_bits(img@, s, y as int, (x + 1) as nat));
            }
        }
    } else {
        assert(columns_bits(img@, s, 0) =~= Seq::<bool>::empty());
        for x in 0..width
            invariant
                img@.wf(),
                width == img@.width,
                height == img@.height,
                s == sel@,
                forall|i: int| 0 <= i < sel@.len() ==> (#[trigger] sel@[i]).0 < 4 && sel@[i].1 < 8,
                packer.holds(columns_bits(img@, s, x as nat)),
                packer.lsb_first == lsb_first,
        {
            let ghost done = columns_bits(img@, s, x as nat);
            assert(done + column_bits(img@, s, x as int, 0) =~= done);
            for y in 0..height
                invariant
                    img@.wf(),
                    width == img@.width,
                    height == img@.height,
                    x < width,
                    s == sel@,
                    forall|i: int| 0 <= i < sel@.len() ==> (#[trigger] sel@[i]).0 < 4 && sel@[i].1 < 8,
                    packer.holds(done + column_bits(img@, s, x as int, y as nat)),
                    packer.lsb_first == lsb_first,
            {
                pack_pixel(&mut packer, img, x, y, &sel, Ghost(done + column_bits(img@, s, x as int, y as nat)));
                assert(done + column_bits(img@, s, x as int, y as nat) + pixel_bits(img@, x as int, y as int, s)
                    =~= done + column_bits(img@, s, x as int, (y + 1) as nat));
            }
        }
    }
    packer.finish(Ghost(extracted_bits(img@, mask, lsb_first, row_order, channel_order@)))
}

/// Maps an index to a channel order:
/// `0` RGBA, `1` RBGA, `2` GRBA, `3` GBRA, `4` BRGA, `5` BGRA; any other index RGBA.
pub fn channel_order_from_index(index: i32) -> (order: [usize; 4])
    ensures
        order@ == channel_order_spec(index),
{
    let order = match index {
        0 => [0, 1, 2, 3],
        1 => [0, 2, 1, 3],
        2 => [1, 0, 2, 3],
        3 => [1, 2, 0, 3],
        4 => [2, 0, 1, 3],
        5 => [2, 1, 0, 3],
        _ => [0, 1, 2, 3],
    };
    assert(order@ =~= channel_order_spec(index));
    order
}

/// The channel order named by `index`.
pub open spec fn channel_order_spec(index: i32) -> Seq<usize> {
    if index == 1 {
        seq![0usize, 2, 1, 3]
    } else if index == 2 {
        seq![1usize, 0, 2, 3]
    } else if index == 3 {
        seq![1usize, 2, 0, 3]
    } else if index == 4 {
        seq![2usize, 0, 1, 3]
    } else if index == 5 {
        seq![2usize, 1, 0, 3]
    } else {
        seq![0usize, 1, 2, 3]
    }
}

// ---------------------------------------------------------------------------
// Laws
// ---------------------------------------------------------------------------

/// The number of bits set among the `n` lowest bits of `mask`.
pub open spec fn set_bit_count(mask: u32, n: nat) -> nat
    decreases n,
{
    if n == 0 {
        0
    } else {
        set_bit_count(mask, (n - 1) as nat) + if (mask >> ((n - 1) as u32)) & 1u32 == 1u32 { 1nat } else { 0nat }
    }
}

/// The number of channels whose bit `bit` the mask selects.
pub open spec fn plane_count(mask: u32, bit: u8) -> nat {
    (if mask_selects(mask, 0, bit as int) { 1nat } else { 0nat }) + (if mask_selects(mask, 1, bit as int) {
        1nat
    } else {
        0nat
    }) + (if mask_selects(mask, 2, bit as int) { 1nat } else { 0nat }) + (if mask_selects(mask, 3, bit as int) {
        1nat
    } else {
        0nat
    })
}

/// The number of selected bits in the first `k` planes visited.
pub open spec fn planes_count(mask: u32, lsb_first: bool, k: nat) -> nat
    decreases k,
{
    if k == 0 {
        0
    } else {
        planes_count(mask, lsb_first, (k - 1) as nat) + plane_count(mask, plane_at(lsb_first, k - 1))
    }
}

/// `order` reads each of the four channels exactly once.
pub open spec fn is_channel_permutation(order: Seq<usize>) -> bool {
    &&& order.len() == 4
    &&& forall|i: int| 0 <= i < 4 ==> #[trigger] order[i] < 4
    &&& forall|i: int, j: int| 0 <= i < j < 4 ==> #[trigger] order[i] != #[trigger] order[j]
}

proof fn lemma_plane_selection_size(mask: u32, bit: u8, order: Seq<usize>)
    requires
        is_channel_permutation(order),
    ensures
        plane_selection(mask, bit, order).len() == plane_count(mask, bit),
{
    assert(order.drop_last() =~= order.take(3));
    assert(order.take(3).drop_last() =~= order.take(2));
    assert(order.take(2).drop_last() =~= order.take(1));
    assert(order.take(1).drop_last() =~= order.take(0));
    let s0 = plane_selection(mask, bit, order.take(0));
    let s1 = plane_selection(mask, bit, order.take(1));
    let s2 = plane_selection(mask, bit, order.take(2));
    let s3 = plane_selection(mask, bit, order.take(3));
    let ind = |c: int| if mask_selects(mask, c, bit as int) { 1int } else { 0int };
    assert(s0.len() == 0);
    assert(s1.len() == s0.len() + ind(order[0] as int));
    assert(s2.len() == s1.len() + ind(order[1] as int));
    assert(s3.len() == s2.len() + ind(order[2] as int));
    assert(plane_selection(mask, bit, order).len() == s3.len() + ind(order[3] as int));
    assert(order[0] < 4 && order[1] < 4 && order[2] < 4 && order[3] < 4);
    assert(order[0] != order[1] && order[0] != order[2] && order[0] != order[3]);
    assert(order[1] != order[2] && order[1] != order[3] && order[2] != order[3]);
    assert(ind(order[0] as int) + ind(order[1] as int) + ind(order[2] as int) + ind(order[3] as int) == ind(0)
        + ind(1) + ind(2) + ind(3));
}

proof fn lemma_selection_prefix_size(mask: u32, lsb_first: bool, order: Seq<usize>, k: nat)
    requires
        is_channel_permutation(order),
    ensures
        selection_prefix(mask, lsb_first, order, k).len() == planes_count(mask, lsb_first, k),
    decreases k,
{
    if k > 0 {
        lemma_selection_prefix_size(mask, lsb_first, order, (k - 1) as nat);
        lemma_plane_selection_size(mask, plane_at(lsb_first, k - 1), order);
    }
}

/// Bit `i` of `mask`, as a number.
pub open spec fn mask_bit(mask: u32, i: int) -> nat {
    if (mask >> (i as u32)) & 1u32 == 1u32 {
        1
    } else {
        0
    }
}

proof fn lemma_plane_count_bits(mask: u32, bit: u8)
    requires
        bit < 8,
    ensures
        plane_count(mask, bit) == mask_bit(mask, bit as int) + mask_bit(mask, 8 + bit) + mask_bit(mask, 16 + bit)
            + mask_bit(mask, 24 + bit),
{
}

proof fn lemma_planes_cover_mask(mask: u32, lsb_first: bool)
    ensures
        planes_count(mask, lsb_first, 8) == set_bit_count(mask, 32),
{
    assert(set_bit_count(mask, 1) == set_bit_count(mask, 0) + mask_bit(mask, 0));
    assert(set_bit_count(mask, 2) == set_bit_count(mask, 1) + mask_bit(mask, 1));
    assert(set_bit_count(mask, 3) == set_bit_count(mask, 2) + mask_bit(mask, 2));
    assert(set_bit_count(mask, 4) == set_bit_count(mask, 3) + mask_bit(mask, 3));
    assert(set_bit_count(mask, 5) == set_bit_count(mask, 4) + mask_bit(mask, 4));
    assert(set_bit_count(mask, 6) == set_bit_count(mask, 5) + mask_bit(mask, 5));
    assert(set_bit_count(mask, 7) == set_bit_count(mask, 6) + mask_bit(mask, 6));
    assert(set_bit_count(mask, 8) == set_bit_count(mask, 7) + mask_bit(mask, 7));
    assert(set_bit_count(mask, 9) == set_bit_count(mask, 8) + mask_bit(mask, 8));
    assert(set_bit_count(mask, 10) == set_bit_count(mask, 9) + mask_bit(mask, 9));
    assert(set_bit_count(mask, 11) == set_bit_count(mask, 10) + mask_bit(mask, 10));
    assert(set_bit_count(mask, 12) == set_bit_count(mask, 11) + mask_bit(mask, 11));
    assert(set_bit_count(mask, 13) == set_bit_count(mask, 12) + mask_bit(mask, 12));
    assert(set_bit_count(mask, 14) == set_bit_count(mask, 13) + mask_bit(mask, 13));
    assert(set_bit_count(mask, 15) == set_bit_count(mask, 14) + mask_bit(mask, 14));
    assert(set_bit_count(mask, 16) == set_bit_count(mask, 15) + mask_bit(mask, 15));
    assert(set_bit_count(mask, 17) == set_bit_count(mask, 16) + mask_bit(mask, 16));
    assert(set_bit_count(mask, 18) == set_bit_count(mask, 17) + mask_bit(mask, 17));
    assert(set_bit_count(mask, 19) == set_bit_count(mask, 18) + mask_bit(mask, 18));
    assert(set_bit_count(mask, 20) == set_bit_count(mask, 19) + mask_bit(mask, 19));
    assert(set_bit_count(mask, 21) == set_bit_count(mask, 20) + mask_bit(mask, 20));
    assert(set_bit_count(mask, 22) == set_bit_count(mask, 21) + mask_bit(mask, 21));
    assert(set_bit_count(mask, 23) == set_bit_count(mask, 22) + mask_bit(mask, 22));
    assert(set_bit_count(mask, 24) == set_bit_count(mask, 23) + mask_bit(mask, 23));
    assert(set_bit_count(mask, 25) == set_bit_count(mask, 24) + mask_bit(mask, 24));
    assert(set_bit_count(mask, 26) == set_bit_count(mask, 25) + mask_bit(mask, 25));
    assert(set_bit_count(mask, 27) == set_bit_count(mask, 26) + mask_bit(mask, 26));
    assert(set_bit_count(mask, 28) == set_bit_count(mask, 27) + mask_bit(mask, 27));
    assert(set_bit_count(mask, 29) == set_bit_count(mask, 28) + mask_bit(mask, 28));
    assert(set_bit_count(mask, 30) == set_bit_count(mask, 29) + mask_bit(mask, 29));
    assert(set_bit_count(mask, 31) == set_bit_count(mask, 30) + mask_bit(mask, 30));
    assert(set_bit_count(mask, 32) == set_bit_count(mask, 31) + mask_bit(mask, 31));
    assert(planes_count(mask, lsb_first, 1) == planes_count(mask, lsb_first, 0) + plane_count(mask, plane_at(lsb_first, 0)));
    assert(planes_count(mask, lsb_first, 2) == planes_count(mask, lsb_first, 1) + plane_count(mask, plane_at(lsb_first, 1)));
    assert(planes_count(mask, lsb_first, 3) == planes_count(mask, lsb_first, 2) + plane_count(mask, plane_at(lsb_first, 2)));
    assert(planes_count(mask, lsb_first, 4) == planes_count(mask, lsb_first, 3) + plane_count(mask, plane_at(lsb_first, 3)));
    assert(planes_count(mask, lsb_first, 5) == planes_count(mask, lsb_first, 4) + plane_count(mask, plane_at(lsb_first, 4)));
    assert(planes_count(mask, lsb_first, 6) == planes_count(mask, lsb_first, 5) + plane_count(mask, plane_at(lsb_first, 5)));
    assert(planes_count(mask, lsb_first, 7) == planes_count(mask, lsb_first, 6) + plane_count(mask, plane_at(lsb_first, 6)));
    assert(planes_count(mask, lsb_first, 8) == planes_count(mask, lsb_first, 7) + plane_count(mask, plane_at(lsb_first, 7)));
    lemma_plane_count_bits(mask, 0);
    lemma_plane_count_bits(mask, 1);
    lemma_plane_count_bits(mask, 2);
    lemma_plane_count_bits(mask, 3);
    lemma_plane_count_bits(mask, 4);
    lemma_plane_count_bits(mask, 5);
    lemma_plane_count_bits(mask, 6);
    lemma_plane_count_bits(mask, 7);
}

/// With a channel order that reads each channel once, every bit the mask
/// selects is read once from each pixel: as many bits per pixel as the mask
/// has bits set.
pub proof fn lemma_selection_size(mask: u32, lsb_first: bool, order: Seq<usize>)
    requires
        is_channel_permutation(order),
    ensures
        selected_bits(mask, lsb_first, order).len() == set_bit_count(mask, 32),
{
    lemma_selection_prefix_size(mask, lsb_first, order, 8);
    lemma_planes_cover_mask(mask, lsb_first);
}

/// The first `n` pixels of a row give `n` times the bits of one pixel.
pub proof fn lemma_row_bits_len(img: ImageView, sel: Seq<(usize, u8)>, y: int, n: nat)
    ensures
        row_bits(img, sel, y, n).len() == n * sel.len(),
    decreases n,
{
    if n == 0 {
        assert(0 * sel.len() == 0);
    } else {
        assert(pixel_bits(img, n - 1, y, sel).len() == sel.len());
        lemma_row_bits_len(img, sel, y, (n - 1) as nat);
        assert((n - 1) * sel.len() + sel.len() == n * sel.len()) by (nonlinear_arith);
    }
}

/// The first `m` rows give `m * width` times the bits of one pixel.
pub proof fn lemma_rows_bits_len(img: ImageView, sel: Seq<(usize, u8)>, m: nat)
    ensures
        rows_bits(img, sel, m).len() == m * img.width * sel.len(),
    decreases m,
{
    if m == 0 {
        assert(0 * img.width * sel.len() == 0) by (nonlinear_arith);
    } else {
        lemma_rows_bits_len(img, sel, (m - 1) as nat);
        lemma_row_bits_len(img, sel, m - 1, img.width as nat);
        assert((m - 1) * img.width * sel.len() + img.width * sel.len() == m * img.width * sel.len()) by (nonlinear_arith);
    }
}

/// The first `n` pixels of a column give `n` times the bits of one pixel.
pub proof fn lemma_column_bits_len(img: ImageView, sel: Seq<(usize, u8)>, x: int, n: nat)
    ensures
        column_bits(img, sel, x, n).len() == n * sel.len(),
    decreases n,
{
    if n == 0 {
        assert(0 * sel.len() == 0);
    } else {
        assert(pixel_bits(img, x, n - 1, sel).len() == sel.len());
        lemma_column_bits_len(img, sel, x, (n - 1) as nat);
        assert((n - 1) * sel.len() + sel.len() == n * sel.len()) by (nonlinear_arith);
    }
}

/// The first `m` columns give `m * height` times the bits of one pixel.
pub proof fn lemma_columns_bits_len(img: ImageView, sel: Seq<(usize, u8)>, m: nat)
    ensures
        columns_bits(img, sel, m).len() == m * img.height * sel.len(),
    decreases m,
{
    if m == 0 {
        assert(0 * img.height * sel.len() == 0) by (nonlinear_arith);
    } else {
        lemma_columns_bits_len(img, sel, (m - 1) as nat);
        lemma_column_bits_len(img, sel, m - 1, img.height as nat);
        assert((m - 1) * img.height * sel.len() + img.height * sel.len() == m * img.height * sel.len()) by (nonlinear_arith);
    }
}

/// Extraction reads the selected bits of every pixel once, in either scan
/// order, and keeps them all: `width * height * k` bits for `k` selected
/// bits per pixel, packed into as many bytes as that takes.
pub proof fn lemma_extracted_size(img: ImageView, mask: u32, lsb_first: bool, row_order: bool, order: Seq<usize>)
    ensures
        extracted_bits(img, mask, lsb_first, row_order, order).len() == img.width * img.height
            * selected_bits(mask, lsb_first, order).len(),
        pack_bits(extracted_bits(img, mask, lsb_first, row_order, order), lsb_first).len() == (img.width
            * img.height * selected_bits(mask, lsb_first, order).len() + 7) / 8,
{
    let sel = selected_bits(mask, lsb_first, order);
    if row_order {
        lemma_rows_bits_len(img, sel, img.height as nat);
        assert(img.height * img.width * sel.len() == img.width * img.height * sel.len()) by (nonlinear_arith);
    } else {
        lemma_columns_bits_len(img, sel, img.width as nat);
    }
}

/// With a channel order that reads each channel once, a `width` by `height`
/// image and a mask with `k` bits set give `ceil(width * height * k / 8)`
/// bytes; an empty mask gives none.
pub proof fn lemma_extraction_length(img: ImageView, mask: u32, lsb_first: bool, row_order: bool, order: Seq<usize>)
    requires
        is_channel_permutation(order),
    ensures
        pack_bits(extracted_bits(img, mask, lsb_first, row_order, order), lsb_first).len() == (img.width
            * img.height * set_bit_count(mask, 32) + 7) / 8,
        mask == 0 ==> pack_bits(extracted_bits(img, mask, lsb_first, row_order, order), lsb_first).len() == 0,
{
    lemma_selection_size(mask, lsb_first, order);
    lemma_extracted_size(img, mask, lsb_first, row_order, order);
    if mask == 0 {
        reveal_with_fuel(set_bit_count, 33);
        assert forall|i: u32| i < 32 implies (0u32 >> i) & 1u32 == 0u32 by {
            assert((0u32 >> i) & 1u32 == 0u32) by (bit_vector);
        }
        assert(set_bit_count(0, 32) == 0);
        assert(img.width * img.height * 0 == 0) by (nonlinear_arith);
    }
}

/// Every named channel order reads each of red, green, blue once and alpha last.
pub proof fn lemma_channel_orders_are_permutations(index: i32)
    ensures
        is_channel_permutation(channel_order_spec(index)),
        channel_order_spec(index)[3] == 3,
{
}

} // verus!
