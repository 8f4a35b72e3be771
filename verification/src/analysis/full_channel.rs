//! # Whole channels
//!
//! A mask that selects all eight bit planes of one channel reads that channel
//! back unchanged: one byte per pixel, in the order the pixels are visited,
//! whichever way the bit planes and channels are ordered.
use vstd::prelude::*;
use vstd::arithmetic::power2::*;
use crate::analysis::pixels::ImageView;
use crate::analysis::extract::{
    byte_value,
    chunk_end,
    column_bits,
    columns_bits,
    extracted_bits,
    is_channel_permutation,
    lemma_column_bits_len,
    lemma_columns_bits_len,
    lemma_row_bits_len,
    lemma_rows_bits_len,
    lsb_value,
    mask_selects,
    msb_value,
    pack_bits,
    pixel_bits,
    plane_at,
    plane_selection,
    row_bits,
    rows_bits,
    selected_bits,
    selection_prefix,
};

verus! {

// ---------------------------------------------------------------------------
// The bytes of one channel
// ---------------------------------------------------------------------------

/// The mask that selects every bit of channel `c`.
pub open spec fn full_channel_mask(c: u32) -> u32 {
    0xFFu32 << ((8 * c) as u32)
}

/// Channel `c` of the first `n` pixels of row `y`.
pub open spec fn row_channel(img: ImageView, c: int, y: int, n: nat) -> Seq<u8>
    decreases n,
{
    if n == 0 {
        Seq::empty()
    } else {
        row_channel(img, c, y, (n - 1) as nat).push(img.channel(n - 1, y, c))
    }
}

/// Channel `c` of the first `m` rows, each read left to right.
pub open spec fn rows_channel(img: ImageView, c: int, m: nat) -> Seq<u8>
    decreases m,
{
    if m == 0 {
        Seq::empty()
    } else {
        rows_channel(img, c, (m - 1) as nat) + row_channel(img, c, m - 1, img.width as nat)
    }
}

/// Channel `c` of the first `n` pixels of column `x`.
pub open spec fn column_channel(img: ImageView, c: int, x: int, n: nat) -> Seq<u8>
    decreases n,
{
    if n == 0 {
        Seq::empty()
    } else {
        column_channel(img, c, x, (n - 1) as nat).push(img.channel(x, n - 1, c))
    }
}

/// Channel `c` of the first `m` columns, each read top to bottom.
pub open spec fn columns_channel(img: ImageView, c: int, m: nat) -> Seq<u8>
    decreases m,
{
    if m == 0 {
        Seq::empty()
    } else {
        columns_channel(img, c, (m - 1) as nat) + column_channel(img, c, m - 1, img.height as nat)
    }
}

/// Channel `c` of every pixel, row by row or column by column.
pub open spec fn channel_bytes(img: ImageView, c: int, row_order: bool) -> Seq<u8> {
    if row_order {
        rows_channel(img, c, img.height as nat)
    } else {
        columns_channel(img, c, img.width as nat)
    }
}

// ---------------------------------------------------------------------------
// Which bits a whole channel selects
// ---------------------------------------------------------------------------

/// The bits read from each pixel under a whole-channel mask: the eight bits
/// of channel `c`, in bit-plane order.
pub open spec fn channel_selection(c: u32, lsb_first: bool) -> Seq<(usize, u8)> {
    Seq::new(8, |j: int| (c as usize, plane_at(lsb_first, j)))
}

proof fn lemma_full_mask_bit(c: u32, ch: u32, b: u32)
    requires
        c < 4,
        ch < 4,
        b < 8,
    ensures
        ((0xFFu32 << ((8 * c) as u32)) >> ((ch * 8 + b) as u32)) & 1u32 == 1u32 <==> ch == c,
{
    assert(((0xFFu32 << ((8 * c) as u32)) >> ((ch * 8 + b) as u32)) & 1u32 == 1u32 <==> ch == c) by (bit_vector)
        requires
            c < 4,
            ch < 4,
            b < 8,
    ;
}

proof fn lemma_full_plane(c: u32, bit: u8, order: Seq<usize>)
    requires
        c < 4,
        bit < 8,
        is_channel_permutation(order),
    ensures
        plane_selection(full_channel_mask(c), bit, order) == seq![(c as usize, bit)],
{
    let mask = full_channel_mask(c);
    assert forall|i: int| 0 <= i < 4 implies mask_selects(mask, order[i] as int, bit as int) == (order[i] == c) by {
        lemma_full_mask_bit(c, order[i] as u32, bit as u32);
    }
    assert(order.drop_last() =~= order.take(3));
    assert(order.take(3).drop_last() =~= order.take(2));
    assert(order.take(2).drop_last() =~= order.take(1));
    assert(order.take(1).drop_last() =~= order.take(0));
    assert(order.take(3).last() == order[2]);
    assert(order.take(2).last() == order[1]);
    assert(order.take(1).last() == order[0]);
    assert(order[0] < 4 && order[1] < 4 && order[2] < 4 && order[3] < 4);
    assert(order[0] != order[1] && order[0] != order[2] && order[0] != order[3]);
    assert(order[1] != order[2] && order[1] != order[3] && order[2] != order[3]);
    let s0 = plane_selection(mask, bit, order.take(0));
    let s1 = plane_selection(mask, bit, order.take(1));
    let s2 = plane_selection(mask, bit, order.take(2));
    let s3 = plane_selection(mask, bit, order.take(3));
    let s4 = plane_selection(mask, bit, order);
    assert(s0 =~= Seq::<(usize, u8)>::empty());
    assert(s1 == if order[0] == c { s0.push((order[0], bit)) } else { s0 });
    assert(s2 == if order[1] == c { s1.push((order[1], bit)) } else { s1 });
    assert(s3 == if order[2] == c { s2.push((order[2], bit)) } else { s2 });
    assert(s4 == if order[3] == c { s3.push((order[3], bit)) } else { s3 });
    assert(s4 =~= seq![(c as usize, bit)]);
}

proof fn lemma_full_selection_prefix(c: u32, lsb_first: bool, order: Seq<usize>, k: nat)
    requires
        c < 4,
        k <= 8,
        is_channel_permutation(order),
    ensures
        selection_prefix(full_channel_mask(c), lsb_first, order, k) =~= channel_selection(c, lsb_first).take(
            k as int,
        ),
    decreases k,
{
    if k > 0 {
        lemma_full_selection_prefix(c, lsb_first, order, (k - 1) as nat);
        lemma_full_plane(c, plane_at(lsb_first, k - 1), order);
    }
}

/// Under a whole-channel mask every pixel gives the eight bits of channel
/// `c`, in bit-plane order.
pub proof fn lemma_full_selection(c: u32, lsb_first: bool, order: Seq<usize>)
    requires
        c < 4,
        is_channel_permutation(order),
    ensures
        selected_bits(full_channel_mask(c), lsb_first, order) == channel_selection(c, lsb_first),
{
    lemma_full_selection_prefix(c, lsb_first, order, 8);
    assert(channel_selection(c, lsb_first).take(8) =~= channel_selection(c, lsb_first));
}

// ---------------------------------------------------------------------------
// Packing whole bytes
// ---------------------------------------------------------------------------

proof fn lemma_lsb_value_step(s: Seq<bool>, k: int)
    requires
        0 <= k < s.len(),
    ensures
        lsb_value(s.take(k + 1)) == lsb_value(s.take(k)) + if s[k] { pow2(k as nat) } else { 0 },
{
    assert(s.take(k + 1).drop_last() =~= s.take(k));
}

proof fn lemma_msb_value_step(s: Seq<bool>, k: int)
    requires
        0 <= k < s.len(),
    ensures
        msb_value(s.take(k + 1)) == 2 * msb_value(s.take(k)) + if s[k] { 1nat } else { 0nat },
{
    assert(s.take(k + 1).drop_last() =~= s.take(k));
}

/// A byte is the sum of its bits, each at its weight.
proof fn lemma_byte_bits(v: u8)
    ensures
        v == (if (v >> 0u8) & 1u8 == 1u8 { 1u8 } else { 0u8 }) + (if (v >> 1u8) & 1u8 == 1u8 { 2u8 } else { 0u8 })
            + (if (v >> 2u8) & 1u8 == 1u8 { 4u8 } else { 0u8 }) + (if (v >> 3u8) & 1u8 == 1u8 { 8u8 } else { 0u8 })
            + (if (v >> 4u8) & 1u8 == 1u8 { 16u8 } else { 0u8 }) + (if (v >> 5u8) & 1u8 == 1u8 { 32u8 } else { 0u8 })
            + (if (v >> 6u8) & 1u8 == 1u8 { 64u8 } else { 0u8 }) + (if (v >> 7u8) & 1u8 == 1u8 { 128u8 } else { 0u8 }),
{
    assert(v == (if (v >> 0u8) & 1u8 == 1u8 { 1u8 } else { 0u8 }) + (if (v >> 1u8) & 1u8 == 1u8 { 2u8 } else { 0u8 })
        + (if (v >> 2u8) & 1u8 == 1u8 { 4u8 } else { 0u8 }) + (if (v >> 3u8) & 1u8 == 1u8 { 8u8 } else { 0u8 })
        + (if (v >> 4u8) & 1u8 == 1u8 { 16u8 } else { 0u8 }) + (if (v >> 5u8) & 1u8 == 1u8 { 32u8 } else { 0u8 })
        + (if (v >> 6u8) & 1u8 == 1u8 { 64u8 } else { 0u8 }) + (if (v >> 7u8) & 1u8 == 1u8 { 128u8 } else { 0u8 }))
        by (bit_vector);
}

/// The eight bits of channel `c` of one pixel pack into that channel's byte.
proof fn lemma_pixel_byte(img: ImageView, x: int, y: int, c: u32, lsb_first: bool)
    ensures
        pack_bits(pixel_bits(img, x, y, channel_selection(c, lsb_first)), lsb_first) =~= seq![
            img.channel(x, y, c as int),
        ],
{
    let v = img.channel(x, y, c as int);
    let bits = pixel_bits(img, x, y, channel_selection(c, lsb_first));
    assert(bits.len() == 8);
    assert(bits.subrange(0, chunk_end(8, 0)) =~= bits);
    assert(bits.take(8) =~= bits);
    assert(bits.take(0) =~= Seq::<bool>::empty());
    lemma2_to64();
    lemma_byte_bits(v);
    let w = |j: int| (v >> (j as u8)) & 1u8 == 1u8;
    if lsb_first {
        assert forall|j: int| 0 <= j < 8 implies bits[j] == w(j) by {}
        lemma_lsb_value_step(bits, 0);
        lemma_lsb_value_step(bits, 1);
        lemma_lsb_value_step(bits, 2);
        lemma_lsb_value_step(bits, 3);
        lemma_lsb_value_step(bits, 4);
        lemma_lsb_value_step(bits, 5);
        lemma_lsb_value_step(bits, 6);
        lemma_lsb_value_step(bits, 7);
        assert(byte_value(bits, true) == v);
    } else {
        assert forall|j: int| 0 <= j < 8 implies bits[j] == w(7 - j) by {}
        lemma_msb_value_step(bits, 0);
        lemma_msb_value_step(bits, 1);
        lemma_msb_value_step(bits, 2);
        lemma_msb_value_step(bits, 3);
        lemma_msb_value_step(bits, 4);
        lemma_msb_value_step(bits, 5);
        lemma_msb_value_step(bits, 6);
        lemma_msb_value_step(bits, 7);
        assert(msb_value(bits) == v);
        assert(pow2((8 - bits.len()) as nat) == 1);
        assert(msb_value(bits) * 1 == msb_value(bits));
        assert(byte_value(bits, false) == v);
    }
}

/// Packing a stream that splits after a whole number of bytes packs each
/// part on its own.
pub proof fn lemma_pack_bits_append(a: Seq<bool>, b: Seq<bool>, lsb_first: bool, p: nat)
    requires
        a.len() == 8 * p,
    ensures
        pack_bits(a + b, lsb_first) =~= pack_bits(a, lsb_first) + pack_bits(b, lsb_first),
{
    let ab = a + b;
    let n = ab.len() as int;
    assert((8 * p + b.len() + 7) / 8 == p + (b.len() + 7) / 8);
    assert((8 * p + 7) / 8 == p);
    assert forall|k: int| 0 <= k < pack_bits(ab, lsb_first).len() implies #[trigger] pack_bits(ab, lsb_first)[k]
        == (pack_bits(a, lsb_first) + pack_bits(b, lsb_first))[k] by {
        if k < p {
            assert(ab.subrange(8 * k, chunk_end(n, k)) =~= a.subrange(8 * k, chunk_end(a.len() as int, k)));
        } else {
            let k2 = k - p;
            assert(ab.subrange(8 * k, chunk_end(n, k)) =~= b.subrange(8 * k2, chunk_end(b.len() as int, k2)));
        }
    }
}

// ---------------------------------------------------------------------------
// Scans
// ---------------------------------------------------------------------------

proof fn lemma_row_channel(img: ImageView, c: u32, lsb_first: bool, y: int, n: nat)
    ensures
        pack_bits(row_bits(img, channel_selection(c, lsb_first), y, n), lsb_first) =~= row_channel(img, c as int, y, n),
    decreases n,
{
    let sel = channel_selection(c, lsb_first);
    if n > 0 {
        lemma_row_channel(img, c, lsb_first, y, (n - 1) as nat);
        lemma_row_bits_len(img, sel, y, (n - 1) as nat);
        assert(sel.len() == 8);
        lemma_pack_bits_append(row_bits(img, sel, y, (n - 1) as nat), pixel_bits(img, n - 1, y, sel), lsb_first, (n - 1) as nat);
        lemma_pixel_byte(img, n - 1, y, c, lsb_first);
    }
}

proof fn lemma_rows_channel(img: ImageView, c: u32, lsb_first: bool, m: nat)
    ensures
        pack_bits(rows_bits(img, channel_selection(c, lsb_first), m), lsb_first) =~= rows_channel(img, c as int, m),
    decreases m,
{
    let sel = channel_selection(c, lsb_first);
    if m > 0 {
        lemma_rows_channel(img, c, lsb_first, (m - 1) as nat);
        lemma_rows_bits_len(img, sel, (m - 1) as nat);
        let p = ((m - 1) * img.width) as nat;
        assert((m - 1) * img.width * 8 == 8 * p) by (nonlinear_arith)
            requires p == (m - 1) * img.width, m >= 1;
        lemma_pack_bits_append(rows_bits(img, sel, (m - 1) as nat), row_bits(img, sel, m - 1, img.width as nat), lsb_first, p);
        lemma_row_channel(img, c, lsb_first, m - 1, img.width as nat);
    }
}

proof fn lemma_column_channel(img: ImageView, c: u32, lsb_first: bool, x: int, n: nat)
    ensures
        pack_bits(column_bits(img, channel_selection(c, lsb_first), x, n), lsb_first) =~= column_channel(img, c as int, x, n),
    decreases n,
{
    let sel = channel_selection(c, lsb_first);
    if n > 0 {
        lemma_column_channel(img, c, lsb_first, x, (n - 1) as nat);
        lemma_column_bits_len(img, sel, x, (n - 1) as nat);
        assert(sel.len() == 8);
        lemma_pack_bits_append(column_bits(img, sel, x, (n - 1) as nat), pixel_bits(img, x, n - 1, sel), lsb_first, (n - 1) as nat);
        lemma_pixel_byte(img, x, n - 1, c, lsb_first);
    }
}

proof fn lemma_columns_channel(img: ImageView, c: u32, lsb_first: bool, m: nat)
    ensures
        pack_bits(columns_bits(img, channel_selection(c, lsb_first), m), lsb_first) =~= columns_channel(img, c as int, m),
    decreases m,
{
    let sel = channel_selection(c, lsb_first);
    if m > 0 {
        lemma_columns_channel(img, c, lsb_first, (m - 1) as nat);
        lemma_columns_bits_len(img, sel, (m - 1) as nat);
        let p = ((m - 1) * img.height) as nat;
        assert((m - 1) * img.height * 8 == 8 * p) by (nonlinear_arith)
            requires p == (m - 1) * img.height, m >= 1;
        lemma_pack_bits_append(columns_bits(img, sel, (m - 1) as nat), column_bits(img, sel, m - 1, img.height as nat), lsb_first, p);
        lemma_column_channel(img, c, lsb_first, m - 1, img.height as nat);
    }
}

/// A mask that selects all eight bits of channel `c` gives back that
/// channel's byte of every pixel, unchanged and in scan order, whichever bit
/// order and channel order is used.
pub proof fn lemma_full_channel_extraction(
    img: ImageView,
    c: u32,
    lsb_first: bool,
    row_order: bool,
    order: Seq<usize>,
)
    requires
        c < 4,
        is_channel_permutation(order),
    ensures
        pack_bits(extracted_bits(img, full_channel_mask(c), lsb_first, row_order, order), lsb_first)
            == channel_bytes(img, c as int, row_order),
{
    lemma_full_selection(c, lsb_first, order);
    if row_order {
        lemma_rows_channel(img, c, lsb_first, img.height as nat);
    } else {
        lemma_columns_channel(img, c, lsb_first, img.width as nat);
    }
}

} // verus!
