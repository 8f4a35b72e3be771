//! # Hex Utilities
//!
//! Text renderings of binary data: a hex editor style dump with an ASCII
//! column, a compact hex string, and groups of eight binary digits.
use vstd::prelude::*;
use vstd::string::*;
use crate::presentation::text::{decimal_digits, hex_digits, hex_padded, push_char, push_decimal, push_hex_padded};

verus! {

/// The number of bytes shown: all of them, or `max_bytes` when there are more.
pub open spec fn shown_len(len: nat, max_bytes: nat) -> nat {
    if len <= max_bytes {
        len
    } else {
        max_bytes
    }
}

/// Whether `b` is shown as itself in the ASCII column: a graphic ASCII
/// character or the space.
pub open spec fn is_printable(b: u8) -> bool {
    0x20 <= b <= 0x7e
}

/// How `b` appears in the ASCII column.
pub open spec fn ascii_cell(b: u8) -> char {
    if is_printable(b) {
        b as char
    } else {
        '.'
    }
}

/// Column `j` of the hex part of a dump line: two hex digits and a space, or
/// three spaces past the end of the chunk.
pub open spec fn hex_cell(chunk: Seq<u8>, j: int) -> Seq<char> {
    if j < chunk.len() {
        hex_padded(chunk[j] as nat, 2).push(' ')
    } else {
        seq![' ', ' ', ' ']
    }
}

/// The first `n` columns of the hex part of a dump line.
pub open spec fn hex_cells(chunk: Seq<u8>, n: nat) -> Seq<char>
    decreases n,
{
    if n == 0 {
        Seq::empty()
    } else {
        hex_cells(chunk, (n - 1) as nat) + hex_cell(chunk, n - 1)
    }
}

/// One line of the dump: the offset in eight hex digits, two spaces, sixteen
/// hex columns, a space, the ASCII column and a newline.
pub open spec fn dump_line(chunk: Seq<u8>, offset: nat) -> Seq<char> {
    hex_padded(offset, 8) + seq![' ', ' '] + hex_cells(chunk, 16) + seq![' '] + chunk.map_values(
        |b: u8| ascii_cell(b),
    ) + seq!['\n']
}

/// Where the `i`-th chunk of sixteen bytes ends among `n` bytes.
pub open spec fn line_end(n: int, i: int) -> int {
    if 16 * i + 16 <= n {
        16 * i + 16
    } else {
        n
    }
}

/// The first `k` lines of the dump of `bytes`.
pub open spec fn dump_lines(bytes: Seq<u8>, k: nat) -> Seq<char>
    decreases k,
{
    if k == 0 {
        Seq::empty()
    } else {
        dump_lines(bytes, (k - 1) as nat) + dump_line(
            bytes.subrange(16 * (k - 1), line_end(bytes.len() as int, k - 1)),
            (16 * (k - 1)) as nat,
        )
    }
}

/// The note that ends a rendering cut short.
pub open spec fn total_note(total: nat) -> Seq<char> {
    "... ("@ + decimal_digits(total) + " bytes total)"@
}

/// The hex and ASCII dump of at most `max_bytes` of `bytes`, sixteen bytes a
/// line, followed by the total size on a line of its own when cut short.
pub open spec fn hex_ascii_dump(bytes: Seq<u8>, max_bytes: nat) -> Seq<char> {
    let shown = bytes.take(shown_len(bytes.len(), max_bytes) as int);
    dump_lines(shown, ((shown.len() + 15) / 16) as nat) + if bytes.len() > max_bytes {
        total_note(bytes.len()).push('\n')
    } else {
        Seq::empty()
    }
}

/// The first `k` bytes, two hex digits each.
pub open spec fn compact_hex(bytes: Seq<u8>, k: nat) -> Seq<char>
    decreases k,
{
    if k == 0 {
        Seq::empty()
    } else {
        compact_hex(bytes, (k - 1) as nat) + hex_padded(bytes[k - 1] as nat, 2)
    }
}

/// At most `max_bytes` of `bytes` as a run of hex digit pairs, followed by
/// the total size when cut short.
pub open spec fn hex_compact(bytes: Seq<u8>, max_bytes: nat) -> Seq<char> {
    compact_hex(bytes, shown_len(bytes.len(), max_bytes)) + if bytes.len() > max_bytes {
        total_note(bytes.len())
    } else {
        Seq::empty()
    }
}

/// The eight binary digits of `b`, most significant first.
pub open spec fn bits_of(b: u8) -> Seq<char> {
    Seq::new(8, |i: int| if (b >> ((7 - i) as u8)) & 1u8 == 1u8 { '1' } else { '0' })
}

/// The first `k` of `limit` bytes in binary, separated by single spaces.
pub open spec fn binary_groups(bytes: Seq<u8>, k: nat, limit: nat) -> Seq<char>
    decreases k,
{
    if k == 0 {
        Seq::empty()
    } else {
        let before = binary_groups(bytes, (k - 1) as nat, limit) + bits_of(bytes[k - 1]);
        if k < limit {
            before.push(' ')
        } else {
            before
        }
    }
}

/// At most `max_bytes` of `bytes` in binary, followed by a space and the
/// total size when cut short.
pub open spec fn binary_text(bytes: Seq<u8>, max_bytes: nat) -> Seq<char> {
    let limit = shown_len(bytes.len(), max_bytes);
    binary_groups(bytes, limit, limit) + if bytes.len() > max_bytes {
        seq![' '] + total_note(bytes.len())
    } else {
        Seq::empty()
    }
}

fn push_total_note(s: &mut String, total: usize)
    ensures
        final(s)@ == old(s)@ + total_note(total as nat),
{
    s.append("... (");
    push_decimal(s, total as u64);
    s.append(" bytes total)");
    assert(s@ =~= old(s)@ + total_note(total as nat));
}

fn push_dump_line(s: &mut String, bytes: &[u8], start: usize, end: usize)
    requires
        start <= end <= bytes@.len(),
        end - start <= 16,
    ensures
        final(s)@ == old(s)@ + dump_line(bytes@.subrange(start as int, end as int), start as nat),
{
    let ghost chunk = bytes@.subrange(start as int, end as int);
    let len = end - start;
    push_hex_padded(s, start as u64, 8);
    push_char(s, ' ');
    push_char(s, ' ');
    let ghost head = s@;
    for j in 0..16usize
        invariant
            start <= end <= bytes@.len(),
            len == end - start,
            chunk == bytes@.subrange(start as int, end as int),
            s@ == head + hex_cells(chunk, j as nat),
    {
        if j < len {
            push_hex_padded(s, bytes[start + j] as u64, 2);
            push_char(s, ' ');
        } else {
            push_char(s, ' ');
            push_char(s, ' ');
            push_char(s, ' ');
        }
        assert(s@ =~= head + hex_cells(chunk, (j + 1) as nat));
    }
    push_char(s, ' ');
    let ghost mid = s@;
    for j in 0..len
        invariant
            start <= end <= bytes@.len(),
            len == end - start,
            chunk == bytes@.subrange(start as int, end as int),
            s@ == mid + chunk.take(j as int).map_values(|b: u8| ascii_cell(b)),
    {
        let b = bytes[start + j];
        let ch = if 0x20 <= b && b <= 0x7e { b as char } else { '.' };
        push_char(s, ch);
        assert(chunk.take(j + 1).map_values(|b: u8| ascii_cell(b)) =~= chunk.take(j as int).map_values(
            |b: u8| ascii_cell(b),
        ).push(ascii_cell(b)));
    }
    push_char(s, '\n');
    assert(chunk.take(len as int) =~= chunk);
    assert(s@ =~= old(s)@ + dump_line(chunk, start as nat));
}

/// Formats bytes as a hex and ASCII dump, as in a hex editor.
///
/// Each line shows sixteen bytes: their offset, their hex values and their
/// ASCII characters (`.` for those that are not printable). At most
/// `max_bytes` bytes are shown; when there are more, a last line gives the
/// total.
pub fn format_hex_ascii(bytes: &[u8], max_bytes: usize) -> (out: String)
    ensures
        out@ == hex_ascii_dump(bytes@, max_bytes as nat),
{
    let mut out = String::new();
    let limit = if bytes.len() < max_bytes { bytes.len() } else { max_bytes };
    let ghost shown = bytes@.take(limit as int);
    let lines = limit / 16 + if limit % 16 == 0 { 0 } else { 1 };
    assert(lines == (limit + 15) / 16);
    for i in 0..lines
        invariant
            limit <= bytes@.len(),
            limit == shown_len(bytes@.len(), max_bytes as nat),
            shown == bytes@.take(limit as int),
            lines == (limit + 15) / 16,
            out@ == dump_lines(shown, i as nat),
    {
        let start = 16 * i;
        let end = if limit - start >= 16 { start + 16 } else { limit };
        push_dump_line(&mut out, bytes, start, end);
        assert(bytes@.subrange(start as int, end as int) =~= shown.subrange(
            16 * i,
            line_end(shown.len() as int, i as int),
        ));
    }
    if bytes.len() > limit {
        push_total_note(&mut out, bytes.len());
        push_char(&mut out, '\n');
    }
    assert(out@ =~= hex_ascii_dump(bytes@, max_bytes as nat));
    out
}

/// Formats at most `max_bytes` bytes as a run of hex digit pairs; when there
/// are more, the total follows.
pub fn format_hex_compact(bytes: &[u8], max_bytes: usize) -> (out: String)
    ensures
        out@ == hex_compact(bytes@, max_bytes as nat),
{
    let mut out = String::new();
    let limit = if bytes.len() < max_bytes { bytes.len() } else { max_bytes };
    for i in 0..limit
        invariant
            limit <= bytes@.len(),
            out@ == compact_hex(bytes@, i as nat),
    {
        push_hex_padded(&mut out, bytes[i] as u64, 2);
    }
    if bytes.len() > limit {
        push_total_note(&mut out, bytes.len());
    }
    assert(out@ =~= hex_compact(bytes@, max_bytes as nat));
    out
}

/// Formats at most `max_bytes` bytes as groups of eight binary digits
/// separated by spaces; when there are more, the total follows.
pub fn format_binary(bytes: &[u8], max_bytes: usize) -> (out: String)
    ensures
        out@ == binary_text(bytes@, max_bytes as nat),
{
    let mut out = String::new();
    let limit = if bytes.len() < max_bytes { bytes.len() } else { max_bytes };
    for i in 0..limit
        invariant
            limit <= bytes@.len(),
            limit == shown_len(bytes@.len(), max_bytes as nat),
            out@ == binary_groups(bytes@, i as nat, limit as nat),
    {
        let b = bytes[i];
        let ghost before = out@;
        let mut bit: u8 = 8;
        while bit > 0
            invariant
                bit <= 8,
                out@ == before + bits_of(b).take(8 - bit),
            decreases bit,
        {
            bit = bit - 1;
            push_char(&mut out, if (b >> bit) & 1 == 1 { '1' } else { '0' });
            assert(out@ =~= before + bits_of(b).take(8 - bit));
        }
        assert(bits_of(b).take(8) =~= bits_of(b));
        if i + 1 < limit {
            push_char(&mut out, ' ');
        }
    }
    if bytes.len() > limit {
        push_char(&mut out, ' ');
        push_total_note(&mut out, bytes.len());
    }
    assert(out@ =~= binary_text(bytes@, max_bytes as nat));
    out
}

proof fn lemma_byte_hex_len(b: u8)
    ensures
        hex_padded(b as nat, 2).len() == 2,
{
    if b >= 16 {
        assert((b / 16) < 16);
        assert(hex_digits((b / 16) as nat).len() == 1);
    }
}

proof fn lemma_compact_hex_len(bytes: Seq<u8>, k: nat)
    requires
        k <= bytes.len(),
    ensures
        compact_hex(bytes, k).len() == 2 * k,
    decreases k,
{
    if k > 0 {
        lemma_compact_hex_len(bytes, (k - 1) as nat);
        lemma_byte_hex_len(bytes[k - 1]);
    }
}

proof fn lemma_binary_groups_len(bytes: Seq<u8>, k: nat, limit: nat)
    requires
        k <= limit,
        limit <= bytes.len(),
    ensures
        binary_groups(bytes, k, limit).len() == 9 * k - if k == limit && k > 0 { 1int } else { 0int },
    decreases k,
{
    if k > 0 {
        lemma_binary_groups_len(bytes, (k - 1) as nat, limit);
    }
}

/// Shown in full, every byte takes two hex digits; cut short, the shown
/// bytes take two digits each and the note on the total follows.
pub proof fn lemma_hex_compact_shape(bytes: Seq<u8>, max_bytes: nat)
    ensures
        bytes.len() <= max_bytes ==> hex_compact(bytes, max_bytes).len() == 2 * bytes.len(),
        bytes.len() > max_bytes ==> hex_compact(bytes, max_bytes) == compact_hex(bytes, max_bytes) + total_note(
            bytes.len(),
        ),
        bytes.len() > max_bytes ==> compact_hex(bytes, max_bytes).len() == 2 * max_bytes,
{
    lemma_compact_hex_len(bytes, shown_len(bytes.len(), max_bytes));
}

/// Shown in full, every byte takes eight binary digits and a separating
/// space, the last byte without one.
pub proof fn lemma_binary_shape(bytes: Seq<u8>, max_bytes: nat)
    requires
        0 < bytes.len() <= max_bytes,
    ensures
        binary_text(bytes, max_bytes).len() == 9 * bytes.len() - 1,
{
    lemma_binary_groups_len(bytes, bytes.len(), bytes.len());
}

} // verus!
