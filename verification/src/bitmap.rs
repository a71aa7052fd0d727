//! The bitmap container: file header, info header, color table and pixel
//! data, together with the mathematical model of its on-disk byte layout
//! (little-endian fields, 4-byte color-table entries, bit-packed or direct
//! scanlines padded to four-byte boundaries).

use vstd::prelude::*;

use crate::color::ARGB;
use crate::utility::spec_round4;

verus! {

/// The leading file header: signature, total file size, a reserved field
/// and the offset from the start of the file to the pixel data.
#[derive(Debug, Clone, PartialEq, Eq, Structural)]
pub struct BitmapHeader {
    pub signature: u16,
    pub file_size: u32,
    pub reserved: u32,
    pub data_offset: u32,
}

/// The 40-byte info header describing the pixel layout. Negative `width`
/// mirrors columns right-to-left; negative `height` stores rows
/// top-to-bottom instead of the default bottom-to-top.
#[derive(Debug, Clone, PartialEq, Eq, Structural)]
pub struct BitmapInfoHeader {
    pub size: u32,
    pub width: i32,
    pub height: i32,
    pub planes: u16,
    pub bit_depth: u16,
    pub compression: u32,
    pub image_size: u32,
    pub x_pixels_per_meter: i32,
    pub y_pixels_per_meter: i32,
    pub colors_used: u32,
    pub important_colors: u32,
}

/// The color table: present for bit depths 1, 4 and 8; the order of
/// appearance is the index used by indexed pixel data.
#[derive(Debug, Clone, PartialEq, Eq)]
pub struct BitmapColorTable {
    pub colors: Vec<ARGB>,
}

/// Pixel data is either direct colors (bit depths 24 and 32) or indices
/// into the color table (bit depths 1, 4 and 8).
#[derive(Debug, Clone, PartialEq, Eq)]
pub enum BitmapPixelData {
    Colors(Vec<ARGB>),
    Indices(Vec<u8>),
}

/// The pixel data of a bitmap.
#[derive(Debug, Clone, PartialEq, Eq)]
pub struct BitmapPixels {
    pub pixels: BitmapPixelData,
}

/// A bitmap image: two headers, an optional color table and pixel data.
#[derive(Debug, Clone, PartialEq, Eq)]
pub struct Bitmap {
    pub header: BitmapHeader,
    pub info_header: BitmapInfoHeader,
    pub color_table: BitmapColorTable,
    pub pixels: BitmapPixels,
}

/// The caller-supplied parameters needed to re-encode a pixel grid as a
/// bitmap; the grid itself cannot supply them.
#[derive(Debug, Clone, PartialEq, Eq, Structural)]
pub struct BitmapConvertData {
    pub bit_depth: u16,
    pub compression: u32,
    pub x_pixels_per_meter: i32,
    pub y_pixels_per_meter: i32,
}

impl Bitmap {
    /// The color at index `i` of the color table, if the table has one.
    pub fn color_table_color(&self, i: usize) -> (r: Option<ARGB>)
        ensures
            r == if i < self.color_table.colors@.len() {
                Some(self.color_table.colors@[i as int])
            } else {
                None::<ARGB>
            },
    {
        if i >= self.color_table.colors.len() {
            None
        } else {
            Some(self.color_table.colors[i])
        }
    }
}

impl BitmapConvertData {
    /// The convert parameters already recorded in a bitmap's info header.
    pub fn from_bitmap(value: &Bitmap) -> (r: Self)
        ensures
            r.bit_depth == value.info_header.bit_depth,
            r.compression == value.info_header.compression,
            r.x_pixels_per_meter == value.info_header.x_pixels_per_meter,
            r.y_pixels_per_meter == value.info_header.y_pixels_per_meter,
    {
        BitmapConvertData {
            bit_depth: value.info_header.bit_depth,
            compression: value.info_header.compression,
            x_pixels_per_meter: value.info_header.x_pixels_per_meter,
            y_pixels_per_meter: value.info_header.y_pixels_per_meter,
        }
    }
}

// ------------------------------------------------------------------
// The byte-layout model.
// ------------------------------------------------------------------

/// The expected signature: the ASCII bytes "BM" as a little-endian 16-bit
/// value.
pub const BITMAP_SIGNATURE: u16 = 0x4D42;

/// The size in bytes of the file header.
pub const BITMAP_HEADER_SIZE: u32 = 14;

/// The size in bytes of the info header.
pub const BITMAP_INFO_HEADER_SIZE: u32 = 40;

/// The size in bytes of one color-table entry.
pub const BITMAP_COLOR_TABLE_SIZE_FACTOR: u32 = 4;

/// The two little-endian bytes of a 16-bit value.
pub open spec fn spec_le2(v: u16) -> Seq<u8> {
    seq![(v % 0x100) as u8, (v / 0x100) as u8]
}

/// The four little-endian bytes of a 32-bit value.
pub open spec fn spec_le4(v: u32) -> Seq<u8> {
    seq![
        (v % 0x100) as u8,
        ((v / 0x100) % 0x100) as u8,
        ((v / 0x1_0000) % 0x100) as u8,
        (v / 0x100_0000) as u8,
    ]
}

/// The four little-endian bytes of a signed 32-bit value.
pub open spec fn spec_le4i(v: i32) -> Seq<u8> {
    spec_le4(v as u32)
}

/// The 14 bytes of the file header.
pub open spec fn spec_header_bytes(h: BitmapHeader) -> Seq<u8> {
    spec_le2(h.signature) + spec_le4(h.file_size) + spec_le4(h.reserved) + spec_le4(h.data_offset)
}

/// The 40 bytes of the info header.
pub open spec fn spec_info_bytes(ih: BitmapInfoHeader) -> Seq<u8> {
    spec_le4(ih.size) + spec_le4i(ih.width) + spec_le4i(ih.height) + spec_le2(ih.planes)
        + spec_le2(ih.bit_depth) + spec_le4(ih.compression) + spec_le4(ih.image_size) + spec_le4i(
        ih.x_pixels_per_meter,
    ) + spec_le4i(ih.y_pixels_per_meter) + spec_le4(ih.colors_used) + spec_le4(ih.important_colors)
}

/// The four on-disk bytes of one color-table entry: blue, green, red,
/// alpha.
pub open spec fn spec_entry_bytes(c: ARGB) -> Seq<u8> {
    seq![c.blue, c.green, c.red, c.alpha]
}

/// The bytes of the whole color table, entries in order.
pub open spec fn spec_table_bytes(colors: Seq<ARGB>) -> Seq<u8>
    decreases colors.len(),
{
    if colors.len() == 0 {
        Seq::empty()
    } else {
        spec_table_bytes(colors.drop_last()) + spec_entry_bytes(colors.last())
    }
}

/// `n` zero bytes.
pub open spec fn spec_zeros(n: int) -> Seq<u8> {
    if n <= 0 {
        Seq::empty()
    } else {
        Seq::new(n as nat, |i: int| 0u8)
    }
}

/// A scanline padded with zero bytes up to the next multiple of four.
pub open spec fn spec_pad_row(s: Seq<u8>) -> Seq<u8> {
    s + spec_zeros(spec_round4(s.len() as int) - s.len())
}

/// Bytes stored per pixel for a direct-color bit depth.
pub open spec fn spec_bpp(depth: u16) -> int {
    (depth + 7) / 8
}

/// Pixel indices stored per byte for an indexed bit depth.
pub open spec fn spec_ppb(depth: u16) -> int {
    if depth == 1 {
        8
    } else if depth == 4 {
        2
    } else {
        1
    }
}

/// Data bytes (before padding) of one indexed scanline of `w` pixels.
pub open spec fn spec_index_row_data_len(w: int, depth: u16) -> int {
    (w + spec_ppb(depth) - 1) / spec_ppb(depth)
}

/// The stored bytes of one direct color at a given byte width: blue,
/// green, red, alpha, truncated to the first `bpp` (at most four) bytes.
pub open spec fn spec_color_bytes(c: ARGB, bpp: int) -> Seq<u8> {
    if bpp >= 4 {
        spec_entry_bytes(c)
    } else if bpp <= 0 {
        Seq::empty()
    } else {
        spec_entry_bytes(c).take(bpp)
    }
}

/// The unpadded data bytes of a direct scanline.
pub open spec fn spec_cat_colors(row: Seq<ARGB>, bpp: int) -> Seq<u8>
    decreases row.len(),
{
    if row.len() == 0 {
        Seq::empty()
    } else {
        spec_cat_colors(row.drop_last(), bpp) + spec_color_bytes(row.last(), bpp)
    }
}

/// The indices packed into one stored byte, most significant bits first.
/// For bit depth 4 the two entries are the high and low nibble; for bit
/// depth 1 the eight entries are the bits from most to least significant.
pub open spec fn spec_unpack_byte(b: u8, depth: u16) -> Seq<u8> {
    if depth == 8 {
        seq![b]
    } else if depth == 4 {
        seq![(b / 16) as u8, (b % 16) as u8]
    } else {
        seq![
            (b / 128) as u8,
            ((b / 64) % 2) as u8,
            ((b / 32) % 2) as u8,
            ((b / 16) % 2) as u8,
            ((b / 8) % 2) as u8,
            ((b / 4) % 2) as u8,
            ((b / 2) % 2) as u8,
            (b % 2) as u8,
        ]
    }
}

/// One index from `group` with indices missing at the end read as zero,
/// masked to the bit depth.
pub open spec fn spec_group_index(group: Seq<u8>, i: int, depth: u16) -> int {
    if i < group.len() {
        group[i] as int % (if depth == 8 {
            256int
        } else if depth == 4 {
            16int
        } else {
            2int
        })
    } else {
        0
    }
}

/// The byte that stores a group of up to `ppb` indices, packed most
/// significant bits first; a short group leaves the trailing bits zero.
pub open spec fn spec_pack_byte(group: Seq<u8>, depth: u16) -> u8 {
    if depth == 8 {
        spec_group_index(group, 0, depth) as u8
    } else if depth == 4 {
        (spec_group_index(group, 0, depth) * 16 + spec_group_index(group, 1, depth)) as u8
    } else {
        (spec_group_index(group, 0, depth) * 128 + spec_group_index(group, 1, depth) * 64
            + spec_group_index(group, 2, depth) * 32 + spec_group_index(group, 3, depth) * 16
            + spec_group_index(group, 4, depth) * 8 + spec_group_index(group, 5, depth) * 4
            + spec_group_index(group, 6, depth) * 2 + spec_group_index(group, 7, depth)) as u8
    }
}

/// The unpadded data bytes of an indexed scanline: each group of `ppb`
/// consecutive indices packed into one byte.
pub open spec fn spec_packed_row(idxs: Seq<u8>, depth: u16) -> Seq<u8> {
    let ppb = spec_ppb(depth);
    let n = (idxs.len() + ppb - 1) / ppb;
    Seq::new(
        n as nat,
        |i: int|
            spec_pack_byte(
                idxs.subrange(
                    i * ppb,
                    if (i + 1) * ppb <= idxs.len() {
                        (i + 1) * ppb
                    } else {
                        idxs.len() as int
                    },
                ),
                depth,
            ),
    )
}

/// The stored pixel-data bytes of the first `k` scanlines of an indexed
/// bitmap whose rows hold `w` indices each.
pub open spec fn spec_index_rows_bytes(idxs: Seq<u8>, w: int, depth: u16, k: int) -> Seq<u8>
    decreases k,
{
    if k <= 0 {
        Seq::empty()
    } else {
        spec_index_rows_bytes(idxs, w, depth, k - 1) + spec_pad_row(
            spec_packed_row(idxs.subrange((k - 1) * w, k * w), depth),
        )
    }
}

/// The stored pixel-data bytes of the first `k` scanlines of a
/// direct-color bitmap whose rows hold `w` colors each.
pub open spec fn spec_direct_rows_bytes(colors: Seq<ARGB>, w: int, bpp: int, k: int) -> Seq<u8>
    decreases k,
{
    if k <= 0 {
        Seq::empty()
    } else {
        spec_direct_rows_bytes(colors, w, bpp, k - 1) + spec_pad_row(
            spec_cat_colors(colors.subrange((k - 1) * w, k * w), bpp),
        )
    }
}

/// The full stored pixel data of a bitmap: complete scanlines only, each
/// padded to a four-byte boundary; a trailing partial row is not stored.
pub open spec fn spec_pixel_bytes(p: BitmapPixelData, depth: u16, w: int) -> Seq<u8> {
    match p {
        BitmapPixelData::Indices(v) => if w <= 0 {
            Seq::empty()
        } else if depth == 1 || depth == 4 || depth == 8 {
            spec_index_rows_bytes(v@, w, depth, v@.len() as int / w)
        } else {
            // Indexed data under a direct bit depth packs nothing; only
            // the (empty) padding of each row remains.
            Seq::empty()
        },
        BitmapPixelData::Colors(v) => if w <= 0 {
            Seq::empty()
        } else {
            spec_direct_rows_bytes(v@, w, spec_bpp(depth), v@.len() as int / w)
        },
    }
}

/// The width whose magnitude lays out the scanlines.
pub open spec fn spec_abs_width(ih: BitmapInfoHeader) -> int {
    if ih.width < 0 {
        -(ih.width as int)
    } else {
        ih.width as int
    }
}

/// The complete byte serialization of a bitmap: file header, info header,
/// color table, then the padded scanlines.
pub open spec fn spec_encode_bytes(b: Bitmap) -> Seq<u8> {
    spec_header_bytes(b.header) + spec_info_bytes(b.info_header) + spec_table_bytes(
        b.color_table.colors@,
    ) + spec_pixel_bytes(b.pixels.pixels, b.info_header.bit_depth, spec_abs_width(b.info_header))
}

} // verus!
