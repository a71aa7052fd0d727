//! The bitmap codec: serializing a structured bitmap to bytes and parsing
//! bytes back. Every field is little-endian; scanlines are padded to
//! four-byte boundaries; indexed pixel data is bit-packed most significant
//! bits first. Decoding a well-formed, uncompressed buffer and re-encoding
//! what it yields reproduces the buffer byte for byte
//! (`lemma_decode_encode_roundtrip`).

use vstd::prelude::*;
use vstd::arithmetic::div_mod::{
    lemma_fundamental_div_mod, lemma_fundamental_div_mod_converse, lemma_remainder_lower,
    lemma_div_pos_is_pos,
};
use vstd::arithmetic::mul::{
    lemma_mul_inequality, lemma_mul_is_distributive_add_other_way, lemma_mul_nonnegative,
};

use crate::bitmap::{
    Bitmap, BitmapColorTable, BitmapPixels, BitmapHeader, BitmapInfoHeader, BitmapPixelData, spec_le2, spec_le4, spec_le4i, spec_zeros, spec_color_bytes,
    spec_cat_colors, spec_direct_rows_bytes, spec_header_bytes, spec_info_bytes,
    spec_table_bytes, spec_entry_bytes, spec_pixel_bytes, spec_encode_bytes, spec_abs_width,
    spec_bpp, spec_ppb, spec_pack_byte, spec_unpack_byte, spec_packed_row,
    spec_index_rows_bytes, spec_group_index, spec_pad_row, spec_index_row_data_len,
};
use crate::color::ARGB;

verus! {

/// A failure while re-encoding: the image cannot be described by the
/// 32-bit fields of the bitmap headers.
#[derive(Debug, Clone, Copy, PartialEq, Eq, Structural)]
pub enum EncodeError {
    ImageTooLarge,
}

/// Splitting `len` items into rows of `w` leaves the complete rows inside
/// the buffer.
proof fn lemma_rows_fit(len: int, w: int)
    requires
        1 <= w,
        0 <= len,
    ensures
        0 <= len / w,
        (len / w) * w <= len,
{
    lemma_div_pos_is_pos(len, w);
    lemma_remainder_lower(len, w);
}

/// A complete row `r` of width `w` lies inside a buffer of `len` items.
proof fn lemma_row_range(r: int, w: int, len: int)
    requires
        0 <= r,
        0 <= len,
        1 <= w,
        r < len / w,
    ensures
        0 <= r * w,
        r * w + w <= len,
{
    lemma_rows_fit(len, w);
    lemma_mul_inequality(r + 1, len / w, w);
    lemma_mul_is_distributive_add_other_way(w, r, 1);
    lemma_mul_nonnegative(r, w);
}

/// Append the two little-endian bytes of `v`.
fn push_u16_le(out: &mut Vec<u8>, v: u16)
    ensures
        final(out)@ == old(out)@ + spec_le2(v),
{
    out.push((v % 0x100) as u8);
    out.push((v / 0x100) as u8);
    assert(final(out)@ =~= old(out)@ + spec_le2(v));
}

/// Append the four little-endian bytes of `v`.
fn push_u32_le(out: &mut Vec<u8>, v: u32)
    ensures
        final(out)@ == old(out)@ + spec_le4(v),
{
    out.push((v % 0x100) as u8);
    out.push(((v / 0x100) % 0x100) as u8);
    out.push(((v / 0x1_0000) % 0x100) as u8);
    out.push((v / 0x100_0000) as u8);
    assert(final(out)@ =~= old(out)@ + spec_le4(v));
}

/// Append the four little-endian bytes of the signed `v`.
fn push_i32_le(out: &mut Vec<u8>, v: i32)
    ensures
        final(out)@ == old(out)@ + spec_le4i(v),
{
    let u = #[verifier::truncate] (v as u32);
    push_u32_le(out, u);
}

/// Append zero bytes until the part of the buffer after `row_start` has a
/// length that is a multiple of four, completing the padding of one
/// scanline.
fn push_row_padding(out: &mut Vec<u8>, row_start: usize)
    requires
        row_start <= old(out)@.len(),
    ensures
        final(out)@ == old(out)@ + spec_zeros(
            crate::utility::spec_round4(old(out)@.len() - row_start) - (old(out)@.len()
                - row_start),
        ),
        final(out)@.len() - row_start == crate::utility::spec_round4(
            old(out)@.len() - row_start,
        ),
{
    let ghost start_len = out@.len() as int;
    let ghost row_len = start_len - row_start;
    let ghost target = row_start + crate::utility::spec_round4(row_len);
    assert(row_len <= crate::utility::spec_round4(row_len) < row_len + 4);
    while (out.len() - row_start) % 4 != 0
        invariant
            row_start <= start_len <= out@.len(),
            out@.len() <= target,
            target == row_start + crate::utility::spec_round4(row_len),
            row_len == start_len - row_start,
            out@ == old(out)@ + spec_zeros(out@.len() - start_len),
        decreases target - out@.len(),
    {
        proof {
            assert((out@.len() - row_start) % 4 != 0);
            assert(out@.len() < target);
            assert(spec_zeros(out@.len() - start_len).push(0u8) =~= spec_zeros(
                out@.len() + 1 - start_len,
            ));
        }
        out.push(0u8);
    }
    proof {
        assert((out@.len() - row_start) % 4 == 0);
        assert(out@.len() == target);
    }
}

/// Append the stored bytes of one direct color: blue, green, red, alpha,
/// truncated to `bpp` bytes.
fn push_color_bytes(out: &mut Vec<u8>, c: ARGB, bpp: usize)
    ensures
        final(out)@ == old(out)@ + spec_color_bytes(c, bpp as int),
{
    if bpp >= 4 {
        out.push(c.blue);
        out.push(c.green);
        out.push(c.red);
        out.push(c.alpha);
        assert(final(out)@ =~= old(out)@ + spec_color_bytes(c, bpp as int));
    } else {
        if bpp >= 1 {
            out.push(c.blue);
        }
        if bpp >= 2 {
            out.push(c.green);
        }
        if bpp >= 3 {
            out.push(c.red);
        }
        assert(final(out)@ =~= old(out)@ + spec_color_bytes(c, bpp as int));
    }
}

/// Append the data and padding bytes of the direct scanlines of `colors`,
/// `w` pixels to the row; a trailing partial row is dropped.
fn push_direct_rows(out: &mut Vec<u8>, colors: &Vec<ARGB>, w: usize, bpp: usize)
    requires
        w >= 1,
    ensures
        final(out)@ == old(out)@ + spec_direct_rows_bytes(
            colors@,
            w as int,
            bpp as int,
            colors@.len() as int / w as int,
        ),
{
    let rows = colors.len() / w;
    let mut r: usize = 0;
    while r < rows
        invariant
            w >= 1,
            colors@.len() <= usize::MAX,
            rows == colors@.len() as int / w as int,
            r <= rows,
            out@ == old(out)@ + spec_direct_rows_bytes(colors@, w as int, bpp as int, r as int),
        decreases rows - r,
    {
        let ghost out_before_row = out@;
        let row_start = out.len();
        let mut i: usize = 0;
        proof {
            lemma_row_range(r as int, w as int, colors@.len() as int);
        }
        while i < w
            invariant
                w >= 1,
                i <= w,
                0 <= r * w,
                r * w + w <= colors@.len(),
                colors@.len() <= usize::MAX,
                row_start == out_before_row.len(),
                out@ == out_before_row + spec_cat_colors(
                    colors@.subrange(r * w as int, r * w + i),
                    bpp as int,
                ),
            decreases w - i,
        {
            proof {
                let pre = colors@.subrange(r * w as int, r * w + i);
                let post = colors@.subrange(r * w as int, r * w + i + 1);
                assert(post.drop_last() =~= pre);
                assert(post.last() == colors@[r * w + i]);
            }
            push_color_bytes(out, colors[r * w + i], bpp);
            i = i + 1;
        }
        push_row_padding(out, row_start);
        proof {
            lemma_mul_is_distributive_add_other_way(w as int, r as int, 1);
            let rowdata = spec_cat_colors(
                colors@.subrange(r * w as int, r * w + w),
                bpp as int,
            );
            assert(out@ =~= out_before_row + spec_pad_row(rowdata));
            assert(spec_direct_rows_bytes(colors@, w as int, bpp as int, r + 1)
                == spec_direct_rows_bytes(colors@, w as int, bpp as int, r as int)
                + spec_pad_row(rowdata));
            assert(out@ =~= old(out)@ + spec_direct_rows_bytes(
                colors@,
                w as int,
                bpp as int,
                r + 1,
            ));
        }
        r = r + 1;
    }
}


/// A group `g` of packed indices starts inside a row of `w` indices.
proof fn lemma_group_start(g: int, w: int, ppb: int)
    requires
        1 <= ppb,
        1 <= w,
        0 <= g,
        g < (w + ppb - 1) / ppb,
    ensures
        0 <= g * ppb,
        g * ppb < w,
{
    let q = (w + ppb - 1) / ppb;
    lemma_remainder_lower(w + ppb - 1, ppb);
    lemma_mul_inequality(g + 1, q, ppb);
    lemma_mul_is_distributive_add_other_way(ppb, g, 1);
    lemma_mul_nonnegative(g, ppb);
    assert(q * ppb <= w + ppb - 1);
    assert((g + 1) * ppb <= q * ppb);
    assert(g * ppb + ppb <= w + ppb - 1);
}

/// Append the data and padding bytes of the indexed scanlines of `idxs`,
/// `w` indices to the row, bit-packed at the given depth; a trailing
/// partial row is dropped.
fn push_index_rows(out: &mut Vec<u8>, idxs: &Vec<u8>, w: usize, depth: u16)
    requires
        1 <= w <= 0x8000_0000,
        depth == 1 || depth == 4 || depth == 8,
    ensures
        final(out)@ == old(out)@ + spec_index_rows_bytes(
            idxs@,
            w as int,
            depth,
            idxs@.len() as int / w as int,
        ),
{
    let rows = idxs.len() / w;
    let ppb: usize = if depth == 1 {
        8
    } else if depth == 4 {
        2
    } else {
        1
    };
    let n_bytes = (w + ppb - 1) / ppb;
    let mut r: usize = 0;
    while r < rows
        invariant
            1 <= w <= 0x8000_0000,
            depth == 1 || depth == 4 || depth == 8,
            ppb == spec_ppb(depth),
            n_bytes == (w + ppb - 1) as int / ppb as int,
            idxs@.len() <= usize::MAX,
            rows == idxs@.len() as int / w as int,
            r <= rows,
            out@ == old(out)@ + spec_index_rows_bytes(idxs@, w as int, depth, r as int),
        decreases rows - r,
    {
        let ghost out_before_row = out@;
        let row_start = out.len();
        proof {
            lemma_row_range(r as int, w as int, idxs@.len() as int);
        }
        let ghost rowidx = idxs@.subrange(r * w as int, r * w + w);
        let mut g: usize = 0;
        while g < n_bytes
            invariant
                1 <= w <= 0x8000_0000,
                depth == 1 || depth == 4 || depth == 8,
                ppb == spec_ppb(depth),
                n_bytes == (w + ppb - 1) as int / ppb as int,
                g <= n_bytes,
                0 <= r * w,
                r * w + w <= idxs@.len(),
                idxs@.len() <= usize::MAX,
                rowidx == idxs@.subrange(r * w as int, r * w + w),
                row_start == out_before_row.len(),
                out@ == out_before_row + spec_packed_row(rowidx, depth).take(g as int),
            decreases n_bytes - g,
        {
            proof {
                lemma_group_start(g as int, w as int, ppb as int);
            }
            let base = r * w + g * ppb;
            let ghost gend: int = if (g + 1) * ppb <= w {
                (g + 1) * ppb
            } else {
                w as int
            };
            let ghost group = rowidx.subrange((g * ppb) as int, gend);
            let byte: u8 = if depth == 8 {
                idxs[base]
            } else if depth == 4 {
                let hi = idxs[base] % 16;
                let lo = if 2 * g + 1 < w {
                    idxs[base + 1] % 16
                } else {
                    0
                };
                hi * 16 + lo
            } else {
                let b0 = idxs[base] % 2;
                let b1 = if 8 * g + 1 < w {
                    idxs[base + 1] % 2
                } else {
                    0
                };
                let b2 = if 8 * g + 2 < w {
                    idxs[base + 2] % 2
                } else {
                    0
                };
                let b3 = if 8 * g + 3 < w {
                    idxs[base + 3] % 2
                } else {
                    0
                };
                let b4 = if 8 * g + 4 < w {
                    idxs[base + 4] % 2
                } else {
                    0
                };
                let b5 = if 8 * g + 5 < w {
                    idxs[base + 5] % 2
                } else {
                    0
                };
                let b6 = if 8 * g + 6 < w {
                    idxs[base + 6] % 2
                } else {
                    0
                };
                let b7 = if 8 * g + 7 < w {
                    idxs[base + 7] % 2
                } else {
                    0
                };
                b0 * 128 + b1 * 64 + b2 * 32 + b3 * 16 + b4 * 8 + b5 * 4 + b6 * 2 + b7
            };
            proof {
                assert(group.len() == gend - g * ppb);
                assert(forall|k: int| 0 <= k < group.len() ==> group[k] == idxs@[r * w + g * ppb
                    + k]);
                assert(byte == spec_pack_byte(group, depth));
                assert(spec_packed_row(rowidx, depth)[g as int] == spec_pack_byte(group, depth));
                assert(spec_packed_row(rowidx, depth).take(g as int).push(byte) =~= spec_packed_row(
                    rowidx,
                    depth,
                ).take(g + 1));
            }
            out.push(byte);
            g = g + 1;
        }
        proof {
            assert(spec_packed_row(rowidx, depth).take(n_bytes as int) =~= spec_packed_row(
                rowidx,
                depth,
            ));
        }
        push_row_padding(out, row_start);
        proof {
            lemma_mul_is_distributive_add_other_way(w as int, r as int, 1);
            let rowdata = spec_packed_row(rowidx, depth);
            assert(out@ =~= out_before_row + spec_pad_row(rowdata));
            assert(spec_index_rows_bytes(idxs@, w as int, depth, r + 1) == spec_index_rows_bytes(
                idxs@,
                w as int,
                depth,
                r as int,
            ) + spec_pad_row(rowdata));
            assert(out@ =~= old(out)@ + spec_index_rows_bytes(idxs@, w as int, depth, r + 1));
        }
        r = r + 1;
    }
}

/// The magnitude of a signed width or height field.
pub fn field_abs(v: i32) -> (r: u32)
    ensures
        r == if v < 0 {
            -(v as int)
        } else {
            v as int
        },
{
    if v >= 0 {
        v as u32
    } else if v == i32::MIN {
        0x8000_0000
    } else {
        (-v) as u32
    }
}

/// Serialize a bitmap to bytes: the file header, the info header, the
/// color table (blue, green, red, alpha per entry) and the pixel data,
/// each scanline padded to a four-byte boundary. Serialization is total;
/// the result is always `Ok`, and is exactly the byte-layout model of the
/// bitmap.
pub fn encode(value: &Bitmap) -> (r: Result<Vec<u8>, EncodeError>)
    ensures
        r is Ok,
        r matches Ok(bytes) ==> bytes@ == spec_encode_bytes(*value),
{
    let mut out: Vec<u8> = Vec::new();
    push_u16_le(&mut out, value.header.signature);
    push_u32_le(&mut out, value.header.file_size);
    push_u32_le(&mut out, value.header.reserved);
    push_u32_le(&mut out, value.header.data_offset);
    push_u32_le(&mut out, value.info_header.size);
    push_i32_le(&mut out, value.info_header.width);
    push_i32_le(&mut out, value.info_header.height);
    push_u16_le(&mut out, value.info_header.planes);
    push_u16_le(&mut out, value.info_header.bit_depth);
    push_u32_le(&mut out, value.info_header.compression);
    push_u32_le(&mut out, value.info_header.image_size);
    push_i32_le(&mut out, value.info_header.x_pixels_per_meter);
    push_i32_le(&mut out, value.info_header.y_pixels_per_meter);
    push_u32_le(&mut out, value.info_header.colors_used);
    push_u32_le(&mut out, value.info_header.important_colors);
    let ghost head = spec_header_bytes(value.header) + spec_info_bytes(value.info_header);
    proof {
        assert(out@ =~= head);
    }
    let n = value.color_table.colors.len();
    let mut t: usize = 0;
    while t < n
        invariant
            n == value.color_table.colors@.len(),
            t <= n,
            out@ == head + spec_table_bytes(value.color_table.colors@.take(t as int)),
        decreases n - t,
    {
        proof {
            let pre = value.color_table.colors@.take(t as int);
            let post = value.color_table.colors@.take(t + 1);
            assert(post.drop_last() =~= pre);
            assert(post.last() == value.color_table.colors@[t as int]);
        }
        let c = value.color_table.colors[t];
        out.push(c.blue);
        out.push(c.green);
        out.push(c.red);
        out.push(c.alpha);
        proof {
            assert(out@ =~= head + spec_table_bytes(value.color_table.colors@.take(t + 1)));
        }
        t = t + 1;
    }
    let ghost tabled = head + spec_table_bytes(value.color_table.colors@);
    proof {
        assert(value.color_table.colors@.take(n as int) =~= value.color_table.colors@);
    }
    let w_abs = field_abs(value.info_header.width);
    let depth = value.info_header.bit_depth;
    match &value.pixels.pixels {
        BitmapPixelData::Indices(v) => {
            if (depth == 1 || depth == 4 || depth == 8) && w_abs >= 1 {
                push_index_rows(&mut out, v, w_abs as usize, depth);
            }
        },
        BitmapPixelData::Colors(v) => {
            if w_abs >= 1 {
                let bpp = ((depth as usize) + 7) / 8;
                push_direct_rows(&mut out, v, w_abs as usize, bpp);
            }
        },
    }
    proof {
        assert(out@ =~= tabled + spec_pixel_bytes(
            value.pixels.pixels,
            depth,
            spec_abs_width(value.info_header),
        ));
        assert(out@ =~= spec_encode_bytes(*value));
    }
    Ok(out)
}


// ------------------------------------------------------------------
// Parsing: the model of what decoding yields.
// ------------------------------------------------------------------

/// A failure while parsing bytes into a bitmap.
#[derive(Debug, Clone, Copy, PartialEq, Eq, Structural)]
pub enum ParseError {
    /// The buffer ends before the two headers do.
    TruncatedHeader,
    /// The data offset points inside the headers.
    DataOffsetInsideHeader,
    /// The data offset points past the end of the buffer.
    ColorTablePastEnd,
    /// A bit depth this codec does not handle (16, or anything outside
    /// 1, 4, 8, 16, 24, 32).
    UnsupportedBitDepth(u16),
}

/// The 16-bit little-endian field at byte offset `i`.
pub open spec fn spec_u16_at(b: Seq<u8>, i: int) -> u16 {
    crate::utility::spec_u16_le(b[i], b[i + 1])
}

/// The 32-bit little-endian field at byte offset `i`.
pub open spec fn spec_u32_at(b: Seq<u8>, i: int) -> u32 {
    crate::utility::spec_u32_le(b[i], b[i + 1], b[i + 2], b[i + 3])
}

/// The signed 32-bit little-endian field at byte offset `i`.
pub open spec fn spec_i32_at(b: Seq<u8>, i: int) -> i32 {
    crate::utility::spec_i32_le(b[i], b[i + 1], b[i + 2], b[i + 3])
}

/// The file header read from the first 14 bytes.
pub open spec fn spec_parsed_header(b: Seq<u8>) -> BitmapHeader {
    BitmapHeader {
        signature: spec_u16_at(b, 0),
        file_size: spec_u32_at(b, 2),
        reserved: spec_u32_at(b, 6),
        data_offset: spec_u32_at(b, 10),
    }
}

/// The info header read from bytes 14 through 53.
pub open spec fn spec_parsed_info(b: Seq<u8>) -> BitmapInfoHeader {
    BitmapInfoHeader {
        size: spec_u32_at(b, 14),
        width: spec_i32_at(b, 18),
        height: spec_i32_at(b, 22),
        planes: spec_u16_at(b, 26),
        bit_depth: spec_u16_at(b, 28),
        compression: spec_u32_at(b, 30),
        image_size: spec_u32_at(b, 34),
        x_pixels_per_meter: spec_i32_at(b, 38),
        y_pixels_per_meter: spec_i32_at(b, 42),
        colors_used: spec_u32_at(b, 46),
        important_colors: spec_u32_at(b, 50),
    }
}

/// The color-table entry whose four bytes start at offset `p`; bytes at
/// or past `end` read as zero.
pub open spec fn spec_table_entry_at(b: Seq<u8>, p: int, end: int) -> ARGB {
    ARGB {
        blue: if p < end { b[p] } else { 0 },
        green: if p + 1 < end { b[p + 1] } else { 0 },
        red: if p + 2 < end { b[p + 2] } else { 0 },
        alpha: if p + 3 < end { b[p + 3] } else { 0 },
    }
}

/// The color table read from the bytes between the info header and the
/// data offset, four bytes to the entry, a short last chunk zero-filled.
pub open spec fn spec_parsed_table(b: Seq<u8>) -> Seq<ARGB> {
    let end = spec_parsed_header(b).data_offset as int;
    let n = (end - 54 + 3) / 4;
    Seq::new(if n >= 0 { n as nat } else { 0 }, |i: int| spec_table_entry_at(b, 54 + 4 * i, end))
}

/// How many indices one stored scanline of `rb_len` bytes yields for a
/// row of `w` pixels: bytes beyond the unpadded row length are padding,
/// and indices past the row width are intra-byte padding.
pub open spec fn spec_row_index_count(rb_len: int, w: int, depth: u16) -> int {
    let ppb = spec_ppb(depth);
    let u = spec_index_row_data_len(w, depth);
    let avail = if rb_len < u { rb_len } else { u };
    if avail * ppb < w { avail * ppb } else { w }
}

/// The indices decoded from one stored scanline.
pub open spec fn spec_row_indices(rb: Seq<u8>, w: int, depth: u16) -> Seq<u8> {
    let count = spec_row_index_count(rb.len() as int, w, depth);
    Seq::new(
        if count >= 0 { count as nat } else { 0 },
        |p: int| spec_unpack_byte(rb[p / spec_ppb(depth)], depth)[p % spec_ppb(depth)],
    )
}

/// The stored length of one padded indexed scanline.
pub open spec fn spec_index_stride(w: int, depth: u16) -> int {
    crate::utility::spec_round4(spec_index_row_data_len(w, depth))
}

/// The indices of the first `k` stored scanlines.
pub open spec fn spec_decoded_index_rows(reg: Seq<u8>, w: int, depth: u16, k: int) -> Seq<u8>
    decreases k,
{
    let s = spec_index_stride(w, depth);
    if k <= 0 {
        Seq::empty()
    } else {
        spec_decoded_index_rows(reg, w, depth, k - 1) + spec_row_indices(
            reg.subrange((k - 1) * s, k * s),
            w,
            depth,
        )
    }
}

/// All indices decoded from the pixel-data region: every complete
/// scanline, then whatever indices a trailing partial scanline holds.
pub open spec fn spec_decoded_indices(reg: Seq<u8>, w: int, depth: u16) -> Seq<u8> {
    let s = spec_index_stride(w, depth);
    if s <= 0 {
        Seq::empty()
    } else {
        let full = reg.len() as int / s;
        spec_decoded_index_rows(reg, w, depth, full) + spec_row_indices(
            reg.skip(full * s),
            w,
            depth,
        )
    }
}

/// The colors decoded from one stored scanline: blue, green, red and (at
/// four bytes per pixel) alpha, with alpha otherwise fully opaque; bytes
/// beyond the row width or short of a whole pixel are ignored.
pub open spec fn spec_row_colors(rb: Seq<u8>, w: int, depth: u16) -> Seq<ARGB> {
    let bpp = spec_bpp(depth);
    let n_full = if bpp > 0 { rb.len() as int / bpp } else { 0 };
    let count = if n_full < w { n_full } else { w };
    Seq::new(
        if count >= 0 { count as nat } else { 0 },
        |i: int|
            ARGB {
                blue: rb[i * bpp],
                green: rb[i * bpp + 1],
                red: rb[i * bpp + 2],
                alpha: if bpp == 4 { rb[i * bpp + 3] } else { 0xFF },
            },
    )
}

/// The stored length of one padded direct scanline.
pub open spec fn spec_direct_stride(w: int, depth: u16) -> int {
    crate::utility::spec_round4(w * spec_bpp(depth))
}

/// The colors of the first `k` stored scanlines.
pub open spec fn spec_decoded_color_rows(reg: Seq<u8>, w: int, depth: u16, k: int) -> Seq<ARGB>
    decreases k,
{
    let s = spec_direct_stride(w, depth);
    if k <= 0 {
        Seq::empty()
    } else {
        spec_decoded_color_rows(reg, w, depth, k - 1) + spec_row_colors(
            reg.subrange((k - 1) * s, k * s),
            w,
            depth,
        )
    }
}

/// All colors decoded from the pixel-data region: every complete
/// scanline, then whatever pixels a trailing partial scanline holds.
pub open spec fn spec_decoded_colors(reg: Seq<u8>, w: int, depth: u16) -> Seq<ARGB> {
    let s = spec_direct_stride(w, depth);
    if s <= 0 {
        Seq::empty()
    } else {
        let full = reg.len() as int / s;
        spec_decoded_color_rows(reg, w, depth, full) + spec_row_colors(
            reg.skip(full * s),
            w,
            depth,
        )
    }
}

/// The error decoding returns for a buffer, if any. Decoding succeeds
/// exactly when this is `None`.
pub open spec fn spec_decode_err(b: Seq<u8>) -> Option<ParseError> {
    if b.len() < 54 {
        Some(ParseError::TruncatedHeader)
    } else {
        let off = spec_parsed_header(b).data_offset as int;
        let depth = spec_parsed_info(b).bit_depth;
        if off < 54 {
            Some(ParseError::DataOffsetInsideHeader)
        } else if off > b.len() {
            Some(ParseError::ColorTablePastEnd)
        } else if depth == 1 || depth == 4 || depth == 8 || depth == 24 || depth == 32 {
            None
        } else {
            Some(ParseError::UnsupportedBitDepth(depth))
        }
    }
}

/// What a successful decode yields: the two headers read field by field,
/// the color table, and the pixel data of the kind the bit depth selects.
pub open spec fn spec_decode_ok(b: Seq<u8>, bmp: Bitmap) -> bool {
    let off = spec_parsed_header(b).data_offset as int;
    let ih = spec_parsed_info(b);
    let depth = ih.bit_depth;
    let w = spec_abs_width(ih);
    &&& bmp.header == spec_parsed_header(b)
    &&& bmp.info_header == ih
    &&& bmp.color_table.colors@ == spec_parsed_table(b)
    &&& if depth == 1 || depth == 4 || depth == 8 {
        bmp.pixels.pixels matches BitmapPixelData::Indices(v) && v@ == spec_decoded_indices(
            b.skip(off),
            w,
            depth,
        )
    } else {
        bmp.pixels.pixels matches BitmapPixelData::Colors(v) && v@ == spec_decoded_colors(
            b.skip(off),
            w,
            depth,
        )
    }
}


/// Read the 16-bit little-endian field at byte offset `i`.
fn read_u16_at(b: &Vec<u8>, i: usize) -> (r: u16)
    requires
        i + 2 <= b@.len(),
    ensures
        r == spec_u16_at(b@, i as int),
{
    let _n = b.len();
    crate::utility::u16_le(b[i], b[i + 1])
}

/// Read the 32-bit little-endian field at byte offset `i`.
fn read_u32_at(b: &Vec<u8>, i: usize) -> (r: u32)
    requires
        i + 4 <= b@.len(),
    ensures
        r == spec_u32_at(b@, i as int),
{
    let _n = b.len();
    crate::utility::u32_le(b[i], b[i + 1], b[i + 2], b[i + 3])
}

/// Read the signed 32-bit little-endian field at byte offset `i`.
fn read_i32_at(b: &Vec<u8>, i: usize) -> (r: i32)
    requires
        i + 4 <= b@.len(),
    ensures
        r == spec_i32_at(b@, i as int),
{
    let _n = b.len();
    crate::utility::i32_le(b[i], b[i + 1], b[i + 2], b[i + 3])
}

/// The index stored at the given slot of one packed byte, most
/// significant bits first.
fn extract_index(byte: u8, slot: usize, depth: u16) -> (r: u8)
    requires
        depth == 1 || depth == 4 || depth == 8,
        slot < spec_ppb(depth),
    ensures
        r == spec_unpack_byte(byte, depth)[slot as int],
{
    if depth == 8 {
        byte
    } else if depth == 4 {
        if slot == 0 {
            byte / 16
        } else {
            byte % 16
        }
    } else {
        if slot == 0 {
            byte / 128
        } else if slot == 1 {
            (byte / 64) % 2
        } else if slot == 2 {
            (byte / 32) % 2
        } else if slot == 3 {
            (byte / 16) % 2
        } else if slot == 4 {
            (byte / 8) % 2
        } else if slot == 5 {
            (byte / 4) % 2
        } else if slot == 6 {
            (byte / 2) % 2
        } else {
            byte % 2
        }
    }
}

/// Decode the indices of one stored scanline (`rb_len` bytes starting at
/// `start`), appending them: each data byte yields its packed indices,
/// intra-byte padding past the row width and trailing pad bytes are
/// dropped.
fn decode_index_row(
    out: &mut Vec<u8>,
    bytes: &Vec<u8>,
    start: usize,
    rb_len: usize,
    w: usize,
    depth: u16,
)
    requires
        depth == 1 || depth == 4 || depth == 8,
        start + rb_len <= bytes@.len(),
        w <= 0x8000_0000,
    ensures
        final(out)@ == old(out)@ + spec_row_indices(
            bytes@.subrange(start as int, start + rb_len),
            w as int,
            depth,
        ),
{
    let ppb: usize = if depth == 1 {
        8
    } else if depth == 4 {
        2
    } else {
        1
    };
    let u = (w + ppb - 1) / ppb;
    let avail = if rb_len < u {
        rb_len
    } else {
        u
    };
    let _n = bytes.len();
    let ghost rb = bytes@.subrange(start as int, start + rb_len);
    let ghost target = spec_row_indices(rb, w as int, depth);
    proof {
        assert(rb.len() == rb_len);
        assert(target.len() == spec_row_index_count(rb_len as int, w as int, depth));
    }
    let mut ndx: usize = 0;
    while ndx < avail
        invariant
            depth == 1 || depth == 4 || depth == 8,
            ppb == spec_ppb(depth),
            u == spec_index_row_data_len(w as int, depth),
            avail == (if rb_len < u {
                rb_len as int
            } else {
                u as int
            }),
            ndx <= avail,
            w <= 0x8000_0000,
            start + rb_len <= bytes@.len(),
            bytes@.len() <= usize::MAX,
            rb == bytes@.subrange(start as int, start + rb_len),
            target == spec_row_indices(rb, w as int, depth),
            out@ == old(out)@ + target.take(
                if ndx * ppb < w {
                    (ndx * ppb) as int
                } else {
                    w as int
                },
            ),
        decreases avail - ndx,
    {
        proof {
            assert(ppb == 8 || ppb == 2 || ppb == 1);
            if w == 0 {
                assert(u == 0);
                assert(avail == 0);
            }
            lemma_group_start(ndx as int, w as int, ppb as int);
        }
        let byte = bytes[start + ndx];
        let slots_here = if w - ndx * ppb < ppb {
            w - ndx * ppb
        } else {
            ppb
        };
        let mut slot: usize = 0;
        while slot < slots_here
            invariant
                depth == 1 || depth == 4 || depth == 8,
                ppb == spec_ppb(depth),
                u == spec_index_row_data_len(w as int, depth),
                ndx < avail,
                avail <= rb_len,
                avail <= u,
                ndx * ppb < w,
                slots_here == (if w - ndx * ppb < ppb {
                    w - ndx * ppb
                } else {
                    ppb as int
                }),
                slot <= slots_here,
                w <= 0x8000_0000,
                start + rb_len <= bytes@.len(),
                bytes@.len() <= usize::MAX,
                byte == bytes@[start + ndx],
                rb == bytes@.subrange(start as int, start + rb_len),
                target == spec_row_indices(rb, w as int, depth),
                out@ == old(out)@ + target.take(ndx * ppb + slot),
            decreases slots_here - slot,
        {
            let ghost p = (ndx * ppb + slot) as int;
            proof {
                lemma_mul_inequality(ndx as int + 1, avail as int, ppb as int);
                lemma_mul_is_distributive_add_other_way(ppb as int, ndx as int, 1);
                assert(p < avail * ppb);
                assert(p < target.len());
                vstd::arithmetic::div_mod::lemma_fundamental_div_mod_converse(
                    p,
                    ppb as int,
                    ndx as int,
                    slot as int,
                );
                assert(p / ppb as int == ndx as int);
                assert(p % ppb as int == slot as int);
                assert(rb[p / ppb as int] == bytes@[start + ndx]);
                assert(target[p] == spec_unpack_byte(byte, depth)[slot as int]);
            }
            let idx = extract_index(byte, slot, depth);
            proof {
                assert(target.take(p).push(idx) =~= target.take(p + 1));
            }
            out.push(idx);
            slot = slot + 1;
        }
        proof {
            lemma_mul_is_distributive_add_other_way(ppb as int, ndx as int, 1);
            assert(ndx * ppb + slots_here == (if (ndx + 1) * ppb < w {
                ((ndx + 1) * ppb) as int
            } else {
                w as int
            }));
        }
        ndx = ndx + 1;
    }
    proof {
        let pushed: int = if avail * ppb < w {
            (avail * ppb) as int
        } else {
            w as int
        };
        assert(ndx == avail);
        if avail * ppb < w {
            lemma_mul_inequality(avail as int, u as int, ppb as int);
        }
        assert(out@ == old(out)@ + target.take(pushed));
        assert(pushed == target.len());
        assert(target.take(pushed) =~= target);
    }
}

/// Decode the direct colors of one stored scanline (`rb_len` bytes from
/// `start`), appending them: blue, green, red and (for 32-bit pixels)
/// alpha per pixel, with alpha otherwise fully opaque; trailing pad
/// bytes and any partial pixel are dropped.
fn decode_color_row(
    out: &mut Vec<ARGB>,
    bytes: &Vec<u8>,
    start: usize,
    rb_len: usize,
    w: usize,
    depth: u16,
)
    requires
        depth == 24 || depth == 32,
        start + rb_len <= bytes@.len(),
        w <= 0x8000_0000,
    ensures
        final(out)@ == old(out)@ + spec_row_colors(
            bytes@.subrange(start as int, start + rb_len),
            w as int,
            depth,
        ),
{
    let bpp: usize = if depth == 32 {
        4
    } else {
        3
    };
    let n_full = rb_len / bpp;
    let count = if n_full < w {
        n_full
    } else {
        w
    };
    let _n = bytes.len();
    let ghost rb = bytes@.subrange(start as int, start + rb_len);
    let ghost target = spec_row_colors(rb, w as int, depth);
    proof {
        assert(target.len() == count);
    }
    let mut i: usize = 0;
    while i < count
        invariant
            depth == 24 || depth == 32,
            bpp == spec_bpp(depth),
            3 <= bpp <= 4,
            n_full == rb_len as int / bpp as int,
            count == (if n_full < w {
                n_full as int
            } else {
                w as int
            }),
            i <= count,
            start + rb_len <= bytes@.len(),
            bytes@.len() <= usize::MAX,
            rb == bytes@.subrange(start as int, start + rb_len),
            target == spec_row_colors(rb, w as int, depth),
            target.len() == count,
            out@ == old(out)@ + target.take(i as int),
        decreases count - i,
    {
        proof {
            lemma_row_range(i as int, bpp as int, rb_len as int);
        }
        let base = start + i * bpp;
        let blue = bytes[base];
        let green = bytes[base + 1];
        let red = bytes[base + 2];
        let alpha = if bpp == 4 {
            bytes[base + 3]
        } else {
            0xFF
        };
        let c = ARGB { red, green, blue, alpha };
        proof {
            assert(rb[i * bpp as int] == bytes@[start + i * bpp]);
            assert(target[i as int] == c);
            assert(target.take(i as int).push(c) =~= target.take(i + 1));
        }
        out.push(c);
        i = i + 1;
    }
    proof {
        assert(target.take(count as int) =~= target);
    }
}

/// Decode the whole indexed pixel-data region: every complete scanline,
/// then whatever a trailing partial scanline holds.
fn decode_pixels_indexed(bytes: &Vec<u8>, off: usize, w: usize, depth: u16) -> (v: Vec<u8>)
    requires
        depth == 1 || depth == 4 || depth == 8,
        off <= bytes@.len(),
        w <= 0x8000_0000,
    ensures
        v@ == spec_decoded_indices(bytes@.skip(off as int), w as int, depth),
{
    let ghost region = bytes@.skip(off as int);
    let ppb: usize = if depth == 1 {
        8
    } else if depth == 4 {
        2
    } else {
        1
    };
    let u = (w + ppb - 1) / ppb;
    let stride = ((u + 3) / 4) * 4;
    let mut v: Vec<u8> = Vec::new();
    proof {
        assert(stride == spec_index_stride(w as int, depth));
    }
    if stride == 0 {
        return v;
    }
    let region_len = bytes.len() - off;
    let full = region_len / stride;
    let mut r: usize = 0;
    while r < full
        invariant
            depth == 1 || depth == 4 || depth == 8,
            1 <= stride == spec_index_stride(w as int, depth),
            w <= 0x8000_0000,
            off <= bytes@.len(),
            region == bytes@.skip(off as int),
            region_len == region.len(),
            off + region_len <= usize::MAX,
            full == region_len as int / stride as int,
            r <= full,
            v@ == spec_decoded_index_rows(region, w as int, depth, r as int),
        decreases full - r,
    {
        proof {
            lemma_row_range(r as int, stride as int, region_len as int);
        }
        decode_index_row(&mut v, bytes, off + r * stride, stride, w, depth);
        proof {
            lemma_mul_is_distributive_add_other_way(stride as int, r as int, 1);
            assert(region.subrange(r * stride as int, r * stride + stride) =~= bytes@.subrange(
                (off + r * stride) as int,
                (off + r * stride) as int + stride,
            ));
            assert(v@ =~= spec_decoded_index_rows(region, w as int, depth, r + 1));
        }
        r = r + 1;
    }
    let tail = region_len % stride;
    proof {
        lemma_fundamental_div_mod(region_len as int, stride as int);
        vstd::arithmetic::div_mod::lemma_mod_bound(region_len as int, stride as int);
        vstd::arithmetic::mul::lemma_mul_is_commutative(full as int, stride as int);
        assert(full * stride + tail == region_len);
    }
    decode_index_row(&mut v, bytes, off + full * stride, tail, w, depth);
    proof {
        assert(region.skip(full * stride as int) =~= bytes@.subrange(
            (off + full * stride) as int,
            (off + full * stride) as int + tail,
        ));
    }
    v
}

/// Decode the whole direct-color pixel-data region: every complete
/// scanline, then whatever a trailing partial scanline holds.
fn decode_pixels_direct(bytes: &Vec<u8>, off: usize, w: usize, depth: u16) -> (v: Vec<ARGB>)
    requires
        depth == 24 || depth == 32,
        off <= bytes@.len(),
        w <= 0x8000_0000,
    ensures
        v@ == spec_decoded_colors(bytes@.skip(off as int), w as int, depth),
{
    let ghost region = bytes@.skip(off as int);
    let bpp: usize = if depth == 32 {
        4
    } else {
        3
    };
    proof {
        vstd::arithmetic::mul::lemma_mul_upper_bound(w as int, 0x8000_0000, bpp as int, 4);
    }
    let stride64: u64 = (((w as u64) * (bpp as u64) + 3) / 4) * 4;
    let mut v: Vec<ARGB> = Vec::new();
    proof {
        assert(stride64 == spec_direct_stride(w as int, depth));
    }
    if stride64 == 0 {
        return v;
    }
    let region_len = bytes.len() - off;
    let full64: u64 = (region_len as u64) / stride64;
    let mut r: u64 = 0;
    while r < full64
        invariant
            depth == 24 || depth == 32,
            1 <= stride64 == spec_direct_stride(w as int, depth),
            w <= 0x8000_0000,
            off <= bytes@.len(),
            region == bytes@.skip(off as int),
            region_len == region.len(),
            off + region_len <= usize::MAX,
            full64 == region_len as int / stride64 as int,
            r <= full64,
            v@ == spec_decoded_color_rows(region, w as int, depth, r as int),
        decreases full64 - r,
    {
        proof {
            lemma_row_range(r as int, stride64 as int, region_len as int);
        }
        let stride = stride64 as usize;
        let start = off + (r as usize) * stride;
        decode_color_row(&mut v, bytes, start, stride, w, depth);
        proof {
            lemma_mul_is_distributive_add_other_way(stride as int, r as int, 1);
            assert(region.subrange(r * stride as int, r * stride + stride) =~= bytes@.subrange(
                start as int,
                start as int + stride,
            ));
            assert(v@ =~= spec_decoded_color_rows(region, w as int, depth, r + 1));
        }
        r = r + 1;
    }
    proof {
        lemma_rows_fit(region_len as int, stride64 as int);
        lemma_fundamental_div_mod(region_len as int, stride64 as int);
        vstd::arithmetic::div_mod::lemma_mod_bound(region_len as int, stride64 as int);
        vstd::arithmetic::mul::lemma_mul_is_commutative(full64 as int, stride64 as int);
    }
    let tail = ((region_len as u64) % stride64) as usize;
    let tail_start = off + ((region_len as u64 - (region_len as u64) % stride64) as usize);
    proof {
        assert(tail_start == off + full64 * stride64);
        assert(tail_start + tail == off + region_len);
    }
    decode_color_row(&mut v, bytes, tail_start, tail, w, depth);
    proof {
        assert(region.skip(full64 * stride64 as int) =~= bytes@.subrange(
            tail_start as int,
            tail_start as int + tail,
        ));
    }
    v
}

/// Parse a byte buffer into a bitmap. The headers are read field by
/// field; everything between them and the data offset is the color
/// table; the pixel data is decoded according to the bit depth, with a
/// buffer that ends mid-scanline tolerated by truncation. Fails exactly
/// on a buffer shorter than the two headers, a data offset pointing
/// inside or past them, or an unsupported bit depth.
pub fn decode(bytes: &Vec<u8>) -> (r: Result<Bitmap, ParseError>)
    ensures
        r is Ok <==> spec_decode_err(bytes@) is None,
        spec_decode_err(bytes@) matches Some(e) ==> r == Err::<Bitmap, ParseError>(e),
        r matches Ok(bmp) ==> spec_decode_ok(bytes@, bmp),
{
    if bytes.len() < 54 {
        return Err(ParseError::TruncatedHeader);
    }
    let header = BitmapHeader {
        signature: read_u16_at(bytes, 0),
        file_size: read_u32_at(bytes, 2),
        reserved: read_u32_at(bytes, 6),
        data_offset: read_u32_at(bytes, 10),
    };
    let info_header = BitmapInfoHeader {
        size: read_u32_at(bytes, 14),
        width: read_i32_at(bytes, 18),
        height: read_i32_at(bytes, 22),
        planes: read_u16_at(bytes, 26),
        bit_depth: read_u16_at(bytes, 28),
        compression: read_u32_at(bytes, 30),
        image_size: read_u32_at(bytes, 34),
        x_pixels_per_meter: read_i32_at(bytes, 38),
        y_pixels_per_meter: read_i32_at(bytes, 42),
        colors_used: read_u32_at(bytes, 46),
        important_colors: read_u32_at(bytes, 50),
    };
    proof {
        assert(header == spec_parsed_header(bytes@));
        assert(info_header == spec_parsed_info(bytes@));
    }
    if header.data_offset < 54 {
        return Err(ParseError::DataOffsetInsideHeader);
    }
    let off = header.data_offset as usize;
    if off > bytes.len() {
        return Err(ParseError::ColorTablePastEnd);
    }
    let depth = info_header.bit_depth;
    if depth != 1 && depth != 4 && depth != 8 && depth != 24 && depth != 32 {
        return Err(ParseError::UnsupportedBitDepth(depth));
    }
    let table_len = off - 54;
    let n_entries = table_len / 4 + (if table_len % 4 != 0 {
        1
    } else {
        0
    });
    proof {
        assert(n_entries == (table_len as int + 3) / 4);
        assert(spec_parsed_table(bytes@).len() == n_entries);
    }
    let mut colors: Vec<ARGB> = Vec::new();
    let mut t: usize = 0;
    while t < n_entries
        invariant
            54 <= off <= bytes@.len(),
            table_len == off - 54,
            n_entries == (table_len as int + 3) / 4,
            off == spec_parsed_header(bytes@).data_offset,
            bytes@.len() <= usize::MAX,
            t <= n_entries,
            colors@.len() == t,
            forall|j: int| 0 <= j < t ==> colors@[j] == spec_parsed_table(bytes@)[j],
        decreases n_entries - t,
    {
        proof {
            lemma_remainder_lower(table_len as int + 3, 4);
            assert(4 * t < table_len + 3);
        }
        let p = 54 + 4 * t;
        let blue = if p < off {
            bytes[p]
        } else {
            0
        };
        let green = if off - p > 1 {
            bytes[p + 1]
        } else {
            0
        };
        let red = if off - p > 2 {
            bytes[p + 2]
        } else {
            0
        };
        let alpha = if off - p > 3 {
            bytes[p + 3]
        } else {
            0
        };
        let c = ARGB { red, green, blue, alpha };
        proof {
            assert(c == spec_table_entry_at(bytes@, p as int, off as int));
        }
        colors.push(c);
        t = t + 1;
    }
    proof {
        assert(colors@ =~= spec_parsed_table(bytes@));
    }
    let color_table = BitmapColorTable { colors };
    let w = field_abs(info_header.width) as usize;
    proof {
        assert(w == spec_abs_width(info_header));
    }
    let pixels: BitmapPixelData = if depth == 1 || depth == 4 || depth == 8 {
        BitmapPixelData::Indices(decode_pixels_indexed(bytes, off, w, depth))
    } else {
        BitmapPixelData::Colors(decode_pixels_direct(bytes, off, w, depth))
    };
    Ok(Bitmap { header, info_header, color_table, pixels: BitmapPixels { pixels } })
}


// ------------------------------------------------------------------
// The decode/encode round trip.
// ------------------------------------------------------------------

/// Re-serializing a parsed 16-bit field reproduces its two bytes.
proof fn lemma_le2_roundtrip(b0: u8, b1: u8)
    ensures
        spec_le2(crate::utility::spec_u16_le(b0, b1)) =~= seq![b0, b1],
{
    let v = crate::utility::spec_u16_le(b0, b1);
    assert(v == b0 + b1 * 0x100);
    assert(v % 0x100 == b0 as int && v / 0x100 == b1 as int) by (nonlinear_arith)
        requires
            v == b0 + b1 * 0x100,
            b0 < 0x100,
            b1 < 0x100,
    ;
}

/// Re-serializing a parsed 32-bit field reproduces its four bytes.
proof fn lemma_le4_roundtrip(b0: u8, b1: u8, b2: u8, b3: u8)
    ensures
        spec_le4(crate::utility::spec_u32_le(b0, b1, b2, b3)) =~= seq![b0, b1, b2, b3],
{
    let v = crate::utility::spec_u32_le(b0, b1, b2, b3);
    assert(v == b0 + b1 * 0x100 + b2 * 0x1_0000 + b3 * 0x100_0000);
    assert((v % 0x100 == b0 as int) && ((v / 0x100) % 0x100 == b1 as int) && ((v / 0x1_0000)
        % 0x100 == b2 as int) && (v / 0x100_0000 == b3 as int)) by (nonlinear_arith)
        requires
            v == b0 + b1 * 0x100 + b2 * 0x1_0000 + b3 * 0x100_0000,
            b0 < 0x100,
            b1 < 0x100,
            b2 < 0x100,
            b3 < 0x100,
    ;
}

/// Re-serializing a parsed signed 32-bit field reproduces its four
/// bytes.
proof fn lemma_le4i_roundtrip(b0: u8, b1: u8, b2: u8, b3: u8)
    ensures
        spec_le4i(crate::utility::spec_i32_le(b0, b1, b2, b3)) =~= seq![b0, b1, b2, b3],
{
    let u = crate::utility::spec_u32_le(b0, b1, b2, b3);
    assert((u as i32) as u32 == u) by (bit_vector);
    lemma_le4_roundtrip(b0, b1, b2, b3);
}


/// The pad bits a well-formed stored byte keeps clear: with only `k`
/// indices packed into it at this depth, its trailing bits are zero.
pub open spec fn spec_byte_pad_clear(x: u8, k: int, depth: u16) -> bool {
    if depth == 8 {
        true
    } else if depth == 4 {
        k >= 2 || x % 16 == 0
    } else {
        if k >= 8 {
            true
        } else if k == 7 {
            x % 2 == 0
        } else if k == 6 {
            x % 4 == 0
        } else if k == 5 {
            x % 8 == 0
        } else if k == 4 {
            x % 16 == 0
        } else if k == 3 {
            x % 32 == 0
        } else if k == 2 {
            x % 64 == 0
        } else {
            x % 128 == 0
        }
    }
}

/// The sum of the first `k` bit fields of `x`, each at its stored
/// weight, recovers `x` when the bits below them are zero.
#[verifier::spinoff_prover]
proof fn lemma_bit_sum(x: u8, k: int)
    requires
        1 <= k <= 8,
        spec_byte_pad_clear(x, k, 1),
    ensures
        spec_pack_byte(spec_unpack_byte(x, 1).take(k), 1) == x,
{
    let g = spec_unpack_byte(x, 1).take(k);
    if k == 1 {
        assert((x / 128) * 128 == x as int) by (bit_vector)
            requires
                x % 128 == 0,
        ;
    } else if k == 2 {
        assert((x / 128) * 128 + ((x / 64) % 2) * 64 == x as int) by (bit_vector)
            requires
                x % 64 == 0,
        ;
    } else if k == 3 {
        assert((x / 128) * 128 + ((x / 64) % 2) * 64 + ((x / 32) % 2) * 32 == x as int)
            by (bit_vector)
            requires
                x % 32 == 0,
        ;
    } else if k == 4 {
        assert((x / 128) * 128 + ((x / 64) % 2) * 64 + ((x / 32) % 2) * 32 + ((x / 16) % 2) * 16
            == x as int) by (bit_vector)
            requires
                x % 16 == 0,
        ;
    } else if k == 5 {
        assert((x / 128) * 128 + ((x / 64) % 2) * 64 + ((x / 32) % 2) * 32 + ((x / 16) % 2) * 16
            + ((x / 8) % 2) * 8 == x as int) by (bit_vector)
            requires
                x % 8 == 0,
        ;
    } else if k == 6 {
        assert((x / 128) * 128 + ((x / 64) % 2) * 64 + ((x / 32) % 2) * 32 + ((x / 16) % 2) * 16
            + ((x / 8) % 2) * 8 + ((x / 4) % 2) * 4 == x as int) by (bit_vector)
            requires
                x % 4 == 0,
        ;
    } else if k == 7 {
        assert((x / 128) * 128 + ((x / 64) % 2) * 64 + ((x / 32) % 2) * 32 + ((x / 16) % 2) * 16
            + ((x / 8) % 2) * 8 + ((x / 4) % 2) * 4 + ((x / 2) % 2) * 2 == x as int)
            by (bit_vector)
            requires
                x % 2 == 0,
        ;
    } else {
        assert((x / 128) * 128 + ((x / 64) % 2) * 64 + ((x / 32) % 2) * 32 + ((x / 16) % 2) * 16
            + ((x / 8) % 2) * 8 + ((x / 4) % 2) * 4 + ((x / 2) % 2) * 2 + (x % 2) as int
            == x as int) by (bit_vector);
    }
}

/// Packing the `k` indices a stored byte yields reproduces the byte,
/// provided its pad bits are clear.
#[verifier::spinoff_prover]
proof fn lemma_pack_unpack(x: u8, k: int, depth: u16)
    requires
        depth == 1 || depth == 4 || depth == 8,
        1 <= k <= spec_ppb(depth),
        spec_byte_pad_clear(x, k, depth),
    ensures
        spec_pack_byte(spec_unpack_byte(x, depth).take(k), depth) == x,
{
    let g = spec_unpack_byte(x, depth).take(k);
    if depth == 8 {
        assert(g[0] == x);
    } else if depth == 4 {
        if k == 1 {
            assert(x / 16 < 16);
            assert((x / 16) * 16 == x as int) by (bit_vector)
                requires
                    x % 16 == 0,
            ;
        } else {
            assert((x / 16) * 16 + (x % 16) as int == x as int) by (bit_vector);
            assert(x % 16 < 16);
        }
    } else {
        lemma_bit_sum(x, k);
    }
}

/// A well-formed stored scanline: its pad bytes are zero, and for an
/// indexed depth the pad bits of the last data byte are zero too.
pub open spec fn spec_wf_row(rb: Seq<u8>, w: int, depth: u16) -> bool {
    if depth == 24 || depth == 32 {
        let data = w * spec_bpp(depth);
        forall|j: int| data <= j < rb.len() ==> rb[j] == 0
    } else {
        let ppb = spec_ppb(depth);
        let u = spec_index_row_data_len(w, depth);
        &&& forall|j: int| u <= j < rb.len() ==> rb[j] == 0
        &&& spec_byte_pad_clear(rb[u - 1], w - (u - 1) * ppb, depth)
    }
}

/// A scanline of `w` indices occupies `ceil(w / ppb)` data bytes, whose
/// capacity covers the row.
proof fn lemma_index_row_data_len(w: int, depth: u16)
    requires
        depth == 1 || depth == 4 || depth == 8,
        w >= 1,
    ensures
        1 <= spec_index_row_data_len(w, depth),
        (spec_index_row_data_len(w, depth) - 1) * spec_ppb(depth) < w,
        w <= spec_index_row_data_len(w, depth) * spec_ppb(depth),
{
    let ppb = spec_ppb(depth);
    let u = spec_index_row_data_len(w, depth);
    lemma_div_pos_is_pos(w + ppb - 1, ppb);
    vstd::arithmetic::div_mod::lemma_remainder_upper(w + ppb - 1, ppb);
    vstd::arithmetic::div_mod::lemma_remainder_lower(w + ppb - 1, ppb);
    assert(u * ppb > w + ppb - 1 - ppb);
    assert(u >= 1) by {
        if u < 1 {
            assert(u * ppb <= 0) by (nonlinear_arith)
                requires
                    u <= 0,
                    ppb >= 1,
            ;
        }
    }
    lemma_mul_is_distributive_add_other_way(ppb, u - 1, 1);
    assert((u - 1) * ppb == u * ppb - ppb);
    assert(u * ppb <= w + ppb - 1);
    assert((u - 1) * ppb <= w - 1);
}

/// Decoding one well-formed indexed scanline and re-packing it
/// reproduces the scanline byte for byte.
#[verifier::rlimit(60)]
proof fn lemma_index_row_roundtrip(rb: Seq<u8>, w: int, depth: u16)
    requires
        depth == 1 || depth == 4 || depth == 8,
        w >= 1,
        rb.len() == spec_index_stride(w, depth),
        spec_wf_row(rb, w, depth),
    ensures
        spec_row_indices(rb, w, depth).len() == w,
        spec_pad_row(spec_packed_row(spec_row_indices(rb, w, depth), depth)) == rb,
{
    let ppb = spec_ppb(depth);
    let u = spec_index_row_data_len(w, depth);
    let s = spec_index_stride(w, depth);
    lemma_index_row_data_len(w, depth);
    assert(u <= s < u + 4);
    assert(spec_row_index_count(rb.len() as int, w, depth) == w);
    let idx = spec_row_indices(rb, w, depth);
    assert(idx.len() == w);
    let packed = spec_packed_row(idx, depth);
    assert(packed.len() == u);
    assert forall|g: int| 0 <= g < u implies packed[g] == rb[g] by {
        let gend: int = if (g + 1) * ppb <= w {
            (g + 1) * ppb
        } else {
            w
        };
        let group = idx.subrange(g * ppb, gend);
        lemma_mul_nonnegative(g, ppb);
        lemma_mul_inequality(g + 1, u, ppb);
        lemma_mul_is_distributive_add_other_way(ppb, g, 1);
        let k = gend - g * ppb;
        if g < u - 1 {
            lemma_mul_inequality(g + 1, u - 1, ppb);
            assert((g + 1) * ppb <= (u - 1) * ppb);
            assert(gend == (g + 1) * ppb);
            assert(k == ppb);
        } else {
            assert(g == u - 1);
            assert((u - 1) * ppb < w);
            assert(gend == (if u * ppb <= w { u * ppb } else { w }));
        }
        assert(1 <= k <= ppb);
        assert forall|i: int| 0 <= i < k implies group[i] == spec_unpack_byte(rb[g], depth)[i] by {
            lemma_fundamental_div_mod_converse(g * ppb + i, ppb, g, i);
            assert(idx[g * ppb + i] == spec_unpack_byte(rb[(g * ppb + i) / ppb], depth)[(g * ppb
                + i) % ppb]);
        }
        assert(group =~= spec_unpack_byte(rb[g], depth).take(k));
        if g == u - 1 {
            assert(spec_byte_pad_clear(rb[g], k, depth)) by {
                if k < ppb {
                    assert(k == w - (u - 1) * ppb);
                }
            }
        } else {
            assert(spec_byte_pad_clear(rb[g], k, depth));
        }
        lemma_pack_unpack(rb[g], k, depth);
    }
    assert(packed =~= rb.take(u));
    assert(crate::utility::spec_round4(u) == s);
    assert forall|j: int| 0 <= j < s - u implies rb.skip(u)[j] == 0u8 by {
        assert(rb[u + j] == 0);
    }
    assert(spec_pad_row(packed) =~= rb);
}

/// The serialized bytes of one decoded color equal the stored bytes it
/// was read from.
proof fn lemma_cat_colors_prefix(rb: Seq<u8>, w: int, depth: u16, m: int)
    requires
        depth == 24 || depth == 32,
        0 <= m <= w,
        w * spec_bpp(depth) <= rb.len(),
        spec_row_colors(rb, w, depth).len() == w,
    ensures
        spec_cat_colors(spec_row_colors(rb, w, depth).take(m), spec_bpp(depth)) =~= rb.subrange(
            0,
            m * spec_bpp(depth),
        ),
    decreases m,
{
    let bpp = spec_bpp(depth);
    let row = spec_row_colors(rb, w, depth);
    lemma_mul_nonnegative(m, bpp);
    lemma_mul_inequality(m, w, bpp);
    if m == 0 {
        assert(spec_cat_colors(row.take(0), bpp) =~= rb.subrange(0, 0));
    } else {
        lemma_cat_colors_prefix(rb, w, depth, m - 1);
        lemma_mul_is_distributive_add_other_way(bpp, m - 1, 1);
        assert(row.take(m).drop_last() =~= row.take(m - 1));
        assert(row.take(m).last() == row[m - 1]);
        let c = row[m - 1];
        assert(c.blue == rb[(m - 1) * bpp] && c.green == rb[(m - 1) * bpp + 1] && c.red == rb[(m
            - 1) * bpp + 2]);
        assert(spec_color_bytes(c, bpp) =~= rb.subrange((m - 1) * bpp, m * bpp)) by {
            if bpp == 3 {
                assert(spec_entry_bytes(c).take(3) =~= seq![c.blue, c.green, c.red]);
            } else {
                assert(c.alpha == rb[(m - 1) * bpp + 3]);
            }
        }
        assert(spec_cat_colors(row.take(m), bpp) =~= rb.subrange(0, m * bpp));
    }
}

/// Decoding one well-formed direct scanline and re-serializing it
/// reproduces the scanline byte for byte.
proof fn lemma_color_row_roundtrip(rb: Seq<u8>, w: int, depth: u16)
    requires
        depth == 24 || depth == 32,
        w >= 1,
        rb.len() == spec_direct_stride(w, depth),
        spec_wf_row(rb, w, depth),
    ensures
        spec_row_colors(rb, w, depth).len() == w,
        spec_pad_row(spec_cat_colors(spec_row_colors(rb, w, depth), spec_bpp(depth))) == rb,
{
    let bpp = spec_bpp(depth);
    let s = spec_direct_stride(w, depth);
    assert(w * bpp <= s < w * bpp + 4);
    lemma_mul_nonnegative(w, bpp);
    vstd::arithmetic::div_mod::lemma_div_by_multiple(w, bpp);
    vstd::arithmetic::div_mod::lemma_div_is_ordered(w * bpp, s as int, bpp);
    assert(rb.len() as int / bpp >= w);
    let row = spec_row_colors(rb, w, depth);
    assert(row.len() == w);
    lemma_cat_colors_prefix(rb, w, depth, w);
    assert(row.take(w) =~= row);
    let data = spec_cat_colors(row, bpp);
    assert(data =~= rb.subrange(0, w * bpp));
    assert(data.len() == w * bpp);
    assert(crate::utility::spec_round4(w * bpp) == s);
    let dlen = w * bpp;
    assert forall|j: int| 0 <= j < s - dlen implies #[trigger] rb.skip(dlen)[j] == 0u8 by {
        assert(rb[dlen + j] == 0);
    }
    assert(spec_pad_row(data) =~= rb);
}


/// Stored scanline `r` of a pixel-data region with row stride `s`.
pub open spec fn spec_row_at(region: Seq<u8>, s: int, r: int) -> Seq<u8> {
    region.subrange(r * s, (r + 1) * s)
}

/// The stride of one stored scanline at this depth.
pub open spec fn spec_row_stride(w: int, depth: u16) -> int {
    if depth == 24 || depth == 32 {
        spec_direct_stride(w, depth)
    } else {
        spec_index_stride(w, depth)
    }
}

/// A well-formed, uncompressed bitmap byte buffer: intact headers, a
/// data offset on an entry boundary inside the buffer, a supported bit
/// depth, a positive width, and pixel data that is a whole number of
/// well-formed scanlines.
pub open spec fn spec_wf_bitmap_bytes(b: Seq<u8>) -> bool {
    let off = spec_parsed_header(b).data_offset as int;
    let ih = spec_parsed_info(b);
    let depth = ih.bit_depth;
    let w = spec_abs_width(ih);
    let s = spec_row_stride(w, depth);
    let region = b.skip(off);
    &&& b.len() >= 54
    &&& 54 <= off <= b.len()
    &&& (off - 54) % 4 == 0
    &&& (depth == 1 || depth == 4 || depth == 8 || depth == 24 || depth == 32)
    &&& ih.compression == 0
    &&& w >= 1
    &&& region.len() as int % s == 0
    &&& forall|r: int|
        0 <= r < region.len() as int / s ==> spec_wf_row(#[trigger] spec_row_at(region, s, r), w, depth)
}

/// Re-serializing the parsed headers reproduces the first 54 bytes.
#[verifier::rlimit(60)]
proof fn lemma_headers_roundtrip(b: Seq<u8>)
    requires
        b.len() >= 54,
    ensures
        spec_header_bytes(spec_parsed_header(b)) + spec_info_bytes(spec_parsed_info(b)) =~= b
            .subrange(0, 54),
{
    lemma_le2_roundtrip(b[0], b[1]);
    lemma_le4_roundtrip(b[2], b[3], b[4], b[5]);
    lemma_le4_roundtrip(b[6], b[7], b[8], b[9]);
    lemma_le4_roundtrip(b[10], b[11], b[12], b[13]);
    lemma_le4_roundtrip(b[14], b[15], b[16], b[17]);
    lemma_le4i_roundtrip(b[18], b[19], b[20], b[21]);
    lemma_le4i_roundtrip(b[22], b[23], b[24], b[25]);
    lemma_le2_roundtrip(b[26], b[27]);
    lemma_le2_roundtrip(b[28], b[29]);
    lemma_le4_roundtrip(b[30], b[31], b[32], b[33]);
    lemma_le4_roundtrip(b[34], b[35], b[36], b[37]);
    lemma_le4i_roundtrip(b[38], b[39], b[40], b[41]);
    lemma_le4i_roundtrip(b[42], b[43], b[44], b[45]);
    lemma_le4_roundtrip(b[46], b[47], b[48], b[49]);
    lemma_le4_roundtrip(b[50], b[51], b[52], b[53]);
}

/// Re-serializing the first `m` parsed color-table entries reproduces
/// their stored bytes.
proof fn lemma_table_roundtrip(b: Seq<u8>, m: int)
    requires
        b.len() >= 54,
        54 <= spec_parsed_header(b).data_offset as int <= b.len(),
        (spec_parsed_header(b).data_offset as int - 54) % 4 == 0,
        0 <= m <= spec_parsed_table(b).len(),
    ensures
        spec_table_bytes(spec_parsed_table(b).take(m)) =~= b.subrange(54, 54 + 4 * m),
    decreases m,
{
    let off = spec_parsed_header(b).data_offset as int;
    let table = spec_parsed_table(b);
    assert(table.len() == (off - 54 + 3) / 4);
    assert(table.len() == (off - 54) / 4);
    lemma_remainder_lower(off - 54, 4);
    lemma_fundamental_div_mod(off - 54, 4);
    if m > 0 {
        lemma_table_roundtrip(b, m - 1);
        assert(table.take(m).drop_last() =~= table.take(m - 1));
        assert(table.take(m).last() == table[m - 1]);
        assert(4 * m <= off - 54);
        let p = 54 + 4 * (m - 1);
        assert(p + 3 < off);
        let e = spec_table_entry_at(b, p, off);
        assert(e.blue == b[p] && e.green == b[p + 1] && e.red == b[p + 2] && e.alpha == b[p + 3]);
        assert(spec_entry_bytes(e) =~= b.subrange(p, p + 4));
        assert(spec_table_bytes(table.take(m)) =~= b.subrange(54, 54 + 4 * m));
    } else {
        assert(spec_table_bytes(table.take(0)) =~= b.subrange(54, 54));
    }
}

/// The first `k` stored scanlines decode to exactly `k` full rows of
/// indices.
proof fn lemma_decoded_index_rows_len(region: Seq<u8>, w: int, depth: u16, k: int)
    requires
        depth == 1 || depth == 4 || depth == 8,
        w >= 1,
        0 <= k,
        k * spec_index_stride(w, depth) <= region.len(),
    ensures
        spec_decoded_index_rows(region, w, depth, k).len() == k * w,
    decreases k,
{
    let s = spec_index_stride(w, depth);
    lemma_index_row_data_len(w, depth);
    if k > 0 {
        lemma_mul_is_distributive_add_other_way(s, k - 1, 1);
        lemma_mul_nonnegative(k - 1, s);
        lemma_decoded_index_rows_len(region, w, depth, k - 1);
        let rb = region.subrange((k - 1) * s, k * s);
        assert(rb.len() == s);
        assert(spec_row_index_count(s, w, depth) == w);
        lemma_mul_is_distributive_add_other_way(w, k - 1, 1);
    } else {
        assert(k * w == 0) by (nonlinear_arith)
            requires
                k == 0,
        ;
    }
}

/// The first `k` stored scanlines decode to exactly `k` full rows of
/// colors.
proof fn lemma_decoded_color_rows_len(region: Seq<u8>, w: int, depth: u16, k: int)
    requires
        depth == 24 || depth == 32,
        w >= 1,
        0 <= k,
        k * spec_direct_stride(w, depth) <= region.len(),
    ensures
        spec_decoded_color_rows(region, w, depth, k).len() == k * w,
    decreases k,
{
    let s = spec_direct_stride(w, depth);
    let bpp = spec_bpp(depth);
    if k > 0 {
        lemma_mul_is_distributive_add_other_way(s, k - 1, 1);
        lemma_mul_nonnegative(k - 1, s);
        lemma_decoded_color_rows_len(region, w, depth, k - 1);
        let rb = region.subrange((k - 1) * s, k * s);
        assert(rb.len() == s);
        lemma_mul_nonnegative(w, bpp);
        vstd::arithmetic::div_mod::lemma_div_by_multiple(w, bpp);
        vstd::arithmetic::div_mod::lemma_div_is_ordered(w * bpp, s, bpp);
        assert(spec_row_colors(rb, w, depth).len() == w);
        lemma_mul_is_distributive_add_other_way(w, k - 1, 1);
    } else {
        assert(k * w == 0) by (nonlinear_arith)
            requires
                k == 0,
        ;
    }
}

/// Row `r` of the decoded indices equals the decode of stored scanline
/// `r`.
proof fn lemma_decoded_index_row_slice(region: Seq<u8>, w: int, depth: u16, kk: int, r: int)
    requires
        depth == 1 || depth == 4 || depth == 8,
        w >= 1,
        0 <= r < kk,
        kk * spec_index_stride(w, depth) <= region.len(),
    ensures
        spec_decoded_index_rows(region, w, depth, kk).subrange(r * w, (r + 1) * w)
            =~= spec_row_indices(
            spec_row_at(region, spec_index_stride(w, depth), r),
            w,
            depth,
        ),
    decreases kk,
{
    let s = spec_index_stride(w, depth);
    lemma_index_row_data_len(w, depth);
    lemma_mul_is_distributive_add_other_way(s, kk - 1, 1);
    lemma_mul_nonnegative(kk - 1, s);
    lemma_decoded_index_rows_len(region, w, depth, kk - 1);
    lemma_mul_is_distributive_add_other_way(w, kk - 1, 1);
    lemma_mul_is_distributive_add_other_way(w, r, 1);
    let rb = region.subrange((kk - 1) * s, kk * s);
    assert(spec_row_index_count(s, w, depth) == w);
    if r == kk - 1 {
        assert(spec_row_indices(rb, w, depth).len() == w);
    } else {
        lemma_decoded_index_row_slice(region, w, depth, kk - 1, r);
        lemma_mul_inequality(r + 1, kk - 1, w);
        lemma_mul_nonnegative(r, w);
    }
}

/// Row `r` of the decoded colors equals the decode of stored scanline
/// `r`.
proof fn lemma_decoded_color_row_slice(region: Seq<u8>, w: int, depth: u16, kk: int, r: int)
    requires
        depth == 24 || depth == 32,
        w >= 1,
        0 <= r < kk,
        kk * spec_direct_stride(w, depth) <= region.len(),
    ensures
        spec_decoded_color_rows(region, w, depth, kk).subrange(r * w, (r + 1) * w)
            =~= spec_row_colors(
            spec_row_at(region, spec_direct_stride(w, depth), r),
            w,
            depth,
        ),
    decreases kk,
{
    let s = spec_direct_stride(w, depth);
    let bpp = spec_bpp(depth);
    lemma_mul_is_distributive_add_other_way(s, kk - 1, 1);
    lemma_mul_nonnegative(kk - 1, s);
    lemma_decoded_color_rows_len(region, w, depth, kk - 1);
    lemma_mul_is_distributive_add_other_way(w, kk - 1, 1);
    lemma_mul_is_distributive_add_other_way(w, r, 1);
    let rb = region.subrange((kk - 1) * s, kk * s);
    lemma_mul_nonnegative(w, bpp);
    vstd::arithmetic::div_mod::lemma_div_by_multiple(w, bpp);
    vstd::arithmetic::div_mod::lemma_div_is_ordered(w * bpp, s, bpp);
    assert(spec_row_colors(rb, w, depth).len() == w);
    if r == kk - 1 {
    } else {
        lemma_decoded_color_row_slice(region, w, depth, kk - 1, r);
        lemma_mul_inequality(r + 1, kk - 1, w);
        lemma_mul_nonnegative(r, w);
    }
}


/// One inductive step of re-packing decoded index rows.
#[verifier::rlimit(100)]
#[verifier::spinoff_prover]
proof fn lemma_index_region_step(region: Seq<u8>, w: int, depth: u16, kk: int, k: int)
    requires
        depth == 1 || depth == 4 || depth == 8,
        w >= 1,
        1 <= k <= kk,
        kk * spec_index_stride(w, depth) <= region.len(),
        spec_wf_row(spec_row_at(region, spec_index_stride(w, depth), k - 1), w, depth),
    ensures
        spec_index_rows_bytes(spec_decoded_index_rows(region, w, depth, kk), w, depth, k)
            == spec_index_rows_bytes(spec_decoded_index_rows(region, w, depth, kk), w, depth, k - 1)
            + spec_row_at(region, spec_index_stride(w, depth), k - 1),
{
    let s = spec_index_stride(w, depth);
    let idxs = spec_decoded_index_rows(region, w, depth, kk);
    lemma_index_row_data_len(w, depth);
    lemma_mul_is_distributive_add_other_way(s, k - 1, 1);
    lemma_mul_is_distributive_add_other_way(w, k - 1, 1);
    lemma_mul_nonnegative(k - 1, s);
    lemma_mul_nonnegative(k - 1, w);
    lemma_mul_inequality(k, kk, s);
    let rb = spec_row_at(region, s, k - 1);
    assert(rb.len() == s);
    lemma_decoded_index_row_slice(region, w, depth, kk, k - 1);
    lemma_index_row_roundtrip(rb, w, depth);
    assert(idxs.subrange((k - 1) * w, k * w) =~= spec_row_indices(rb, w, depth));
    assert(spec_pad_row(spec_packed_row(idxs.subrange((k - 1) * w, k * w), depth)) == rb);
    assert(spec_index_rows_bytes(idxs, w, depth, k) == spec_index_rows_bytes(
        idxs,
        w,
        depth,
        k - 1,
    ) + spec_pad_row(spec_packed_row(idxs.subrange((k - 1) * w, k * w), depth)));
}

/// Re-packing the first `k` decoded index rows reproduces the first `k`
/// stored scanlines.
#[verifier::spinoff_prover]
proof fn lemma_index_region_roundtrip(region: Seq<u8>, w: int, depth: u16, kk: int, k: int)
    requires
        depth == 1 || depth == 4 || depth == 8,
        w >= 1,
        0 <= k <= kk,
        kk * spec_index_stride(w, depth) <= region.len(),
        forall|r: int|
            0 <= r < kk ==> spec_wf_row(
                #[trigger] spec_row_at(region, spec_index_stride(w, depth), r),
                w,
                depth,
            ),
    ensures
        spec_index_rows_bytes(spec_decoded_index_rows(region, w, depth, kk), w, depth, k)
            =~= region.subrange(0, k * spec_index_stride(w, depth)),
    decreases k,
{
    let s = spec_index_stride(w, depth);
    let idxs = spec_decoded_index_rows(region, w, depth, kk);
    lemma_index_row_data_len(w, depth);
    if k > 0 {
        lemma_index_region_roundtrip(region, w, depth, kk, k - 1);
        lemma_mul_is_distributive_add_other_way(s, k - 1, 1);
        lemma_mul_nonnegative(k - 1, s);
        lemma_mul_inequality(k, kk, s);
        lemma_index_region_step(region, w, depth, kk, k);
        assert(spec_index_rows_bytes(idxs, w, depth, k) =~= region.subrange(0, k * s));
    } else {
        assert(spec_index_rows_bytes(idxs, w, depth, 0) =~= region.subrange(0, 0));
    }
}

/// Re-serializing the first `k` decoded color rows reproduces the first
/// `k` stored scanlines.
proof fn lemma_color_region_roundtrip(region: Seq<u8>, w: int, depth: u16, kk: int, k: int)
    requires
        depth == 24 || depth == 32,
        w >= 1,
        0 <= k <= kk,
        kk * spec_direct_stride(w, depth) <= region.len(),
        forall|r: int|
            0 <= r < kk ==> spec_wf_row(
                #[trigger] spec_row_at(region, spec_direct_stride(w, depth), r),
                w,
                depth,
            ),
    ensures
        spec_direct_rows_bytes(
            spec_decoded_color_rows(region, w, depth, kk),
            w,
            spec_bpp(depth),
            k,
        ) =~= region.subrange(0, k * spec_direct_stride(w, depth)),
    decreases k,
{
    let s = spec_direct_stride(w, depth);
    let colors = spec_decoded_color_rows(region, w, depth, kk);
    if k > 0 {
        lemma_color_region_roundtrip(region, w, depth, kk, k - 1);
        lemma_mul_is_distributive_add_other_way(s, k - 1, 1);
        lemma_mul_is_distributive_add_other_way(w, k - 1, 1);
        lemma_mul_nonnegative(k - 1, s);
        lemma_mul_nonnegative(k - 1, w);
        lemma_mul_inequality(k, kk, s);
        let rb = spec_row_at(region, s, k - 1);
        assert(rb.len() == s);
        lemma_decoded_color_row_slice(region, w, depth, kk, k - 1);
        lemma_color_row_roundtrip(rb, w, depth);
        assert(colors.subrange((k - 1) * w, k * w) =~= spec_row_colors(rb, w, depth));
        assert(spec_direct_rows_bytes(colors, w, spec_bpp(depth), k) == spec_direct_rows_bytes(
            colors,
            w,
            spec_bpp(depth),
            k - 1,
        ) + spec_pad_row(spec_cat_colors(colors.subrange((k - 1) * w, k * w), spec_bpp(depth))));
        assert(spec_pad_row(spec_cat_colors(colors.subrange((k - 1) * w, k * w), spec_bpp(depth)))
            == rb);
        assert(spec_direct_rows_bytes(colors, w, spec_bpp(depth), k) =~= region.subrange(
            0,
            k * s,
        ));
    } else {
        assert(spec_direct_rows_bytes(colors, w, spec_bpp(depth), 0) =~= region.subrange(0, 0));
    }
}

/// Re-encoding the pixels decoded from a whole-scanline indexed region
/// reproduces the region.
#[verifier::rlimit(100)]
#[verifier::spinoff_prover]
proof fn lemma_indexed_pixels_roundtrip(region: Seq<u8>, w: int, depth: u16)
    requires
        depth == 1 || depth == 4 || depth == 8,
        w >= 1,
        region.len() as int % spec_index_stride(w, depth) == 0,
        forall|r: int|
            0 <= r < region.len() as int / spec_index_stride(w, depth) ==> spec_wf_row(
                #[trigger] spec_row_at(region, spec_index_stride(w, depth), r),
                w,
                depth,
            ),
    ensures
        spec_decoded_indices(region, w, depth).len() as int % w == 0,
        spec_index_rows_bytes(
            spec_decoded_indices(region, w, depth),
            w,
            depth,
            spec_decoded_indices(region, w, depth).len() as int / w,
        ) == region,
{
    let s = spec_index_stride(w, depth);
    lemma_index_row_data_len(w, depth);
    let full = region.len() as int / s;
    lemma_rows_fit(region.len() as int, s);
    lemma_fundamental_div_mod(region.len() as int, s);
    vstd::arithmetic::mul::lemma_mul_is_commutative(full, s);
    assert(full * s == region.len());
    assert(region.skip(full * s) =~= Seq::<u8>::empty());
    assert(spec_row_indices(region.skip(full * s), w, depth).len() == 0);
    let v = spec_decoded_indices(region, w, depth);
    assert(v =~= spec_decoded_index_rows(region, w, depth, full));
    lemma_decoded_index_rows_len(region, w, depth, full);
    assert(v.len() == full * w);
    lemma_mul_nonnegative(full, w);
    vstd::arithmetic::div_mod::lemma_div_by_multiple(full, w);
    vstd::arithmetic::div_mod::lemma_mod_multiples_basic(full, w);
    vstd::arithmetic::mul::lemma_mul_is_commutative(full, w);
    assert(v.len() as int / w == full);
    lemma_index_region_roundtrip(region, w, depth, full, full);
    assert(spec_index_rows_bytes(v, w, depth, full) =~= region);
}

/// Re-encoding the pixels decoded from a whole-scanline direct region
/// reproduces the region.
#[verifier::rlimit(100)]
#[verifier::spinoff_prover]
proof fn lemma_direct_pixels_roundtrip(region: Seq<u8>, w: int, depth: u16)
    requires
        depth == 24 || depth == 32,
        w >= 1,
        region.len() as int % spec_direct_stride(w, depth) == 0,
        forall|r: int|
            0 <= r < region.len() as int / spec_direct_stride(w, depth) ==> spec_wf_row(
                #[trigger] spec_row_at(region, spec_direct_stride(w, depth), r),
                w,
                depth,
            ),
    ensures
        spec_decoded_colors(region, w, depth).len() as int % w == 0,
        spec_direct_rows_bytes(
            spec_decoded_colors(region, w, depth),
            w,
            spec_bpp(depth),
            spec_decoded_colors(region, w, depth).len() as int / w,
        ) == region,
{
    let s = spec_direct_stride(w, depth);
    assert(s >= 1) by {
        lemma_mul_nonnegative(w, spec_bpp(depth));
        assert(w * spec_bpp(depth) >= 1) by (nonlinear_arith)
            requires
                w >= 1,
                spec_bpp(depth) >= 1,
        ;
    }
    let full = region.len() as int / s;
    lemma_rows_fit(region.len() as int, s);
    lemma_fundamental_div_mod(region.len() as int, s);
    vstd::arithmetic::mul::lemma_mul_is_commutative(full, s);
    assert(full * s == region.len());
    assert(region.skip(full * s) =~= Seq::<u8>::empty());
    assert(spec_row_colors(region.skip(full * s), w, depth).len() == 0);
    let v = spec_decoded_colors(region, w, depth);
    assert(v =~= spec_decoded_color_rows(region, w, depth, full));
    lemma_decoded_color_rows_len(region, w, depth, full);
    assert(v.len() == full * w);
    lemma_mul_nonnegative(full, w);
    vstd::arithmetic::div_mod::lemma_div_by_multiple(full, w);
    vstd::arithmetic::div_mod::lemma_mod_multiples_basic(full, w);
    vstd::arithmetic::mul::lemma_mul_is_commutative(full, w);
    assert(v.len() as int / w == full);
    lemma_color_region_roundtrip(region, w, depth, full, full);
    assert(spec_direct_rows_bytes(v, w, spec_bpp(depth), full) =~= region);
}

/// A buffer splits into its header bytes, color-table bytes and pixel
/// region.
proof fn lemma_concat_slices(b: Seq<u8>, off: int)
    requires
        54 <= off <= b.len(),
    ensures
        b =~= b.subrange(0, 54) + b.subrange(54, off) + b.skip(off),
{
}

/// The headers of a decoded bitmap re-serialize to the buffer's first 54
/// bytes.
#[verifier::spinoff_prover]
proof fn lemma_rt_headers(b: Seq<u8>, bmp: Bitmap)
    requires
        spec_wf_bitmap_bytes(b),
        spec_decode_ok(b, bmp),
    ensures
        spec_header_bytes(bmp.header) + spec_info_bytes(bmp.info_header) == b.subrange(0, 54),
{
    lemma_headers_roundtrip(b);
}

/// The color table of a decoded bitmap re-serializes to the bytes
/// between the headers and the data offset.
#[verifier::spinoff_prover]
proof fn lemma_rt_table(b: Seq<u8>, bmp: Bitmap)
    requires
        spec_wf_bitmap_bytes(b),
        spec_decode_ok(b, bmp),
    ensures
        spec_table_bytes(bmp.color_table.colors@) == b.subrange(
            54,
            spec_parsed_header(b).data_offset as int,
        ),
{
    let off = spec_parsed_header(b).data_offset as int;
    let table = spec_parsed_table(b);
    assert(table.len() == (off - 54 + 3) / 4);
    lemma_remainder_lower(off - 54, 4);
    lemma_fundamental_div_mod(off - 54, 4);
    assert(4 * table.len() == off - 54);
    lemma_table_roundtrip(b, table.len() as int);
    assert(table.take(table.len() as int) =~= table);
}

/// The pixel data of a decoded bitmap re-serializes to the buffer's
/// pixel region.
#[verifier::rlimit(100)]
#[verifier::spinoff_prover]
proof fn lemma_rt_pixels(b: Seq<u8>, bmp: Bitmap)
    requires
        spec_wf_bitmap_bytes(b),
        spec_decode_ok(b, bmp),
    ensures
        spec_pixel_bytes(
            bmp.pixels.pixels,
            spec_parsed_info(b).bit_depth,
            spec_abs_width(spec_parsed_info(b)),
        ) == b.skip(spec_parsed_header(b).data_offset as int),
{
    let off = spec_parsed_header(b).data_offset as int;
    let ih = spec_parsed_info(b);
    let depth = ih.bit_depth;
    let w = spec_abs_width(ih);
    let region = b.skip(off);
    if depth == 1 || depth == 4 || depth == 8 {
        let v = bmp.pixels.pixels->Indices_0;
        assert(v@ == spec_decoded_indices(region, w, depth));
        lemma_indexed_pixels_roundtrip(region, w, depth);
    } else {
        let v = bmp.pixels.pixels->Colors_0;
        assert(v@ == spec_decoded_colors(region, w, depth));
        lemma_direct_pixels_roundtrip(region, w, depth);
    }
}

/// Decoding a well-formed, uncompressed bitmap byte buffer succeeds, and
/// re-encoding what it yields reproduces the buffer byte for byte.
#[verifier::rlimit(100)]
#[verifier::spinoff_prover]
pub proof fn lemma_decode_encode_roundtrip(b: Seq<u8>, bmp: Bitmap)
    requires
        spec_wf_bitmap_bytes(b),
        spec_decode_ok(b, bmp),
    ensures
        spec_decode_err(b) is None,
        spec_encode_bytes(bmp) == b,
{
    let off = spec_parsed_header(b).data_offset as int;
    let hb = spec_header_bytes(bmp.header) + spec_info_bytes(bmp.info_header);
    let tb = spec_table_bytes(bmp.color_table.colors@);
    let pb = spec_pixel_bytes(
        bmp.pixels.pixels,
        spec_parsed_info(b).bit_depth,
        spec_abs_width(spec_parsed_info(b)),
    );
    lemma_rt_headers(b, bmp);
    lemma_rt_table(b, bmp);
    lemma_rt_pixels(b, bmp);
    lemma_concat_slices(b, off);
    assert(spec_encode_bytes(bmp) == hb + tb + pb);
    assert(hb + tb + pb == b.subrange(0, 54) + b.subrange(54, off) + b.skip(off));
}


/// The unpadded bytes of one direct scanline: `bpp` bytes per pixel.
proof fn lemma_cat_colors_len(row: Seq<ARGB>, bpp: int)
    requires
        0 <= bpp <= 4,
    ensures
        spec_cat_colors(row, bpp).len() == row.len() * bpp,
    decreases row.len(),
{
    if row.len() == 0 {
        assert(row.len() * bpp == 0) by (nonlinear_arith)
            requires
                row.len() == 0,
        ;
    } else {
        lemma_cat_colors_len(row.drop_last(), bpp);
        lemma_mul_is_distributive_add_other_way(bpp, row.len() - 1, 1);
    }
}

/// Scanline padding: an encoded direct scanline of `w` pixels at `bpp`
/// bytes per pixel is `4 * ceil(w * bpp / 4)` bytes long, its 0 to 3
/// trailing pad bytes all zero.
pub proof fn lemma_scanline_padding(row: Seq<ARGB>, bpp: int)
    requires
        0 <= bpp <= 4,
    ensures
        spec_pad_row(spec_cat_colors(row, bpp)).len() == 4 * ((row.len() * bpp + 3) / 4),
        spec_pad_row(spec_cat_colors(row, bpp)).len() - row.len() * bpp < 4,
        forall|j: int|
            row.len() * bpp <= j < spec_pad_row(spec_cat_colors(row, bpp)).len()
                ==> spec_pad_row(spec_cat_colors(row, bpp))[j] == 0,
{
    lemma_cat_colors_len(row, bpp);
    let data = spec_cat_colors(row, bpp);
    let n = data.len() as int;
    assert(crate::utility::spec_round4(n) == 4 * ((n + 3) / 4));
}

} // verus!
