//! The adapter between the pixel grid and the bitmap's on-disk layout.
//! Bitmap rows are stored bottom-to-top unless the header height is
//! negative, and columns left-to-right unless the width is negative; the
//! grid addresses rows top-to-bottom. Indexed pixel data is resolved
//! through the color table here.

use vstd::prelude::*;
use vstd::arithmetic::div_mod::{lemma_fundamental_div_mod, lemma_fundamental_div_mod_converse};
use vstd::arithmetic::mul::{
    lemma_mul_inequality, lemma_mul_is_distributive_add_other_way, lemma_mul_nonnegative,
    lemma_mul_is_commutative,
};

use crate::bitmap::{
    Bitmap, BitmapPixelData, BitmapInfoHeader, spec_abs_width,
};
use crate::color::ARGB;
use crate::image::Image;

verus! {

/// A failure while building a pixel grid from a bitmap.
#[derive(Debug, Clone, Copy, PartialEq, Eq, Structural)]
pub enum ConvertError {
    /// The pixel data holds fewer entries than the header promises.
    MissingPixelData,
    /// An indexed pixel points past the end of the color table.
    IndexOutOfRange,
}

/// The height whose magnitude counts the scanlines.
pub open spec fn spec_abs_height(ih: BitmapInfoHeader) -> int {
    if ih.height < 0 {
        -(ih.height as int)
    } else {
        ih.height as int
    }
}

/// The flat index into the stored pixel data that grid coordinate
/// `(c, j)` reads, given the orientation the signs of width and height
/// select: rows bottom-to-top unless the height is negative, columns
/// left-to-right unless the width is negative.
pub open spec fn spec_source_index(ih: BitmapInfoHeader, c: int, j: int) -> int {
    let aw = spec_abs_width(ih);
    let ah = spec_abs_height(ih);
    let jj = if ih.height < 0 {
        ah - 1 - j
    } else {
        j
    };
    let ii = if ih.width < 0 {
        aw - 1 - c
    } else {
        c
    };
    aw * (ah - jj - 1) + ii
}

/// How many stored pixel entries the bitmap holds.
pub open spec fn spec_pixel_count(b: Bitmap) -> int {
    match b.pixels.pixels {
        BitmapPixelData::Colors(v) => v@.len() as int,
        BitmapPixelData::Indices(v) => v@.len() as int,
    }
}

/// The color that grid coordinate `(c, j)` receives: the stored entry at
/// the mirrored index, an indexed entry resolved through the color table.
pub open spec fn spec_bitmap_pixel(b: Bitmap, c: int, j: int) -> ARGB {
    let idx = spec_source_index(b.info_header, c, j);
    match b.pixels.pixels {
        BitmapPixelData::Colors(v) => v@[idx],
        BitmapPixelData::Indices(v) => b.color_table.colors@[v@[idx] as int],
    }
}

/// When a bitmap yields a grid: it stores at least one entry per grid
/// coordinate, and every indexed entry the grid reads lies inside the
/// color table.
pub open spec fn spec_bitmap_image_ok(b: Bitmap) -> bool {
    let aw = spec_abs_width(b.info_header);
    let ah = spec_abs_height(b.info_header);
    &&& aw * ah <= spec_pixel_count(b)
    &&& match b.pixels.pixels {
        BitmapPixelData::Colors(v) => true,
        BitmapPixelData::Indices(v) => forall|p: int|
            0 <= p < aw * ah ==> v@[p] < b.color_table.colors@.len(),
    }
}

/// The mirrored source index lies inside the first `aw * ah` stored
/// entries.
proof fn lemma_source_index_range(ih: BitmapInfoHeader, c: int, j: int)
    requires
        0 <= c < spec_abs_width(ih),
        0 <= j < spec_abs_height(ih),
    ensures
        0 <= spec_source_index(ih, c, j) < spec_abs_width(ih) * spec_abs_height(ih),
{
    let aw = spec_abs_width(ih);
    let ah = spec_abs_height(ih);
    let jj = if ih.height < 0 {
        ah - 1 - j
    } else {
        j
    };
    let ii = if ih.width < 0 {
        aw - 1 - c
    } else {
        c
    };
    assert(0 <= jj < ah);
    assert(0 <= ii < aw);
    assert(0 <= aw * (ah - jj - 1) + ii < aw * ah) by (nonlinear_arith)
        requires
            0 <= jj < ah,
            0 <= ii < aw,
    ;
}

/// Build a pixel grid from a bitmap. Row and column order follow the
/// signs of the header's width and height; indexed data is resolved
/// through the color table. Fails exactly when the pixel data is shorter
/// than the grid, or an indexed entry the grid reads points past the
/// color table.
pub fn bitmap_to_image(value: &Bitmap) -> (r: Result<Image, ConvertError>)
    ensures
        r is Ok <==> spec_bitmap_image_ok(*value),
        r matches Err(e) ==> (e == ConvertError::MissingPixelData <==> spec_abs_width(
            value.info_header,
        ) * spec_abs_height(value.info_header) > spec_pixel_count(*value)),
        r matches Ok(img) ==> {
            &&& img.width == spec_abs_width(value.info_header)
            &&& img.height == spec_abs_height(value.info_header)
            &&& img.wf()
            &&& forall|c: int, j: int|
                0 <= c < img.width && 0 <= j < img.height ==> img.spec_at(c, j)
                    == spec_bitmap_pixel(*value, c, j)
        },
{
    let aw = crate::codec::field_abs(value.info_header.width) as usize;
    let ah = crate::codec::field_abs(value.info_header.height) as usize;
    proof {
        vstd::arithmetic::mul::lemma_mul_upper_bound(aw as int, 0xFFFF_FFFF, ah as int, 0xFFFF_FFFF);
        lemma_mul_nonnegative(aw as int, ah as int);
    }
    let total64: u64 = (aw as u64) * (ah as u64);
    let count = match &value.pixels.pixels {
        BitmapPixelData::Colors(v) => v.len(),
        BitmapPixelData::Indices(v) => v.len(),
    };
    if total64 > count as u64 {
        proof {
            assert(!spec_bitmap_image_ok(*value));
        }
        return Err(ConvertError::MissingPixelData);
    }
    let total = total64 as usize;
    // For indexed data, check every entry the grid will read before
    // building it.
    match &value.pixels.pixels {
        BitmapPixelData::Colors(_) => {},
        BitmapPixelData::Indices(v) => {
            let table_len = value.color_table.colors.len();
            let mut p: usize = 0;
            while p < total
                invariant
                    p <= total,
                    total <= v@.len(),
                    total == spec_abs_width(value.info_header) * spec_abs_height(
                        value.info_header,
                    ),
                    value.pixels.pixels == BitmapPixelData::Indices(*v),
                    table_len == value.color_table.colors@.len(),
                    forall|q: int| 0 <= q < p ==> v@[q] < table_len,
                decreases total - p,
            {
                if v[p] as usize >= table_len {
                    proof {
                        assert(!spec_bitmap_image_ok(*value));
                    }
                    return Err(ConvertError::IndexOutOfRange);
                }
                p = p + 1;
            }
        },
    }
    proof {
        assert(spec_bitmap_image_ok(*value));
    }
    let mut pixels: Vec<ARGB> = Vec::new();
    let mut r: usize = 0;
    while r < ah
        invariant
            spec_bitmap_image_ok(*value),
            aw == spec_abs_width(value.info_header),
            ah == spec_abs_height(value.info_header),
            aw * ah <= spec_pixel_count(*value),
            spec_pixel_count(*value) <= usize::MAX,
            r <= ah,
            pixels@.len() == r * aw,
            forall|c: int, j: int|
                0 <= c < aw && 0 <= j < r ==> pixels@[j * aw + c] == spec_bitmap_pixel(
                    *value,
                    c,
                    j,
                ),
        decreases ah - r,
    {
        let mut c: usize = 0;
        while c < aw
            invariant
                spec_bitmap_image_ok(*value),
                aw == spec_abs_width(value.info_header),
                ah == spec_abs_height(value.info_header),
                aw * ah <= spec_pixel_count(*value),
                spec_pixel_count(*value) <= usize::MAX,
                r < ah,
                c <= aw,
                pixels@.len() == r * aw + c,
                forall|c0: int, j0: int|
                    0 <= c0 < aw && 0 <= j0 < r ==> pixels@[j0 * aw + c0] == spec_bitmap_pixel(
                        *value,
                        c0,
                        j0,
                    ),
                forall|c0: int| 0 <= c0 < c ==> pixels@[r * aw + c0] == spec_bitmap_pixel(
                    *value,
                    c0,
                    r as int,
                ),
            decreases aw - c,
        {
            let jj = if value.info_header.height < 0 {
                ah - 1 - r
            } else {
                r
            };
            let ii = if value.info_header.width < 0 {
                aw - 1 - c
            } else {
                c
            };
            proof {
                lemma_source_index_range(value.info_header, c as int, r as int);
                lemma_mul_inequality(r as int + 1, ah as int, aw as int);
                lemma_mul_is_distributive_add_other_way(aw as int, r as int, 1);
                lemma_mul_is_commutative(ah as int, aw as int);
                lemma_mul_nonnegative(r as int, aw as int);
                assert(aw * (ah - jj - 1) + ii == spec_source_index(
                    value.info_header,
                    c as int,
                    r as int,
                ));
                assert(0 <= aw * (ah - jj - 1) + ii < aw * ah);
            }
            let index = aw * (ah - jj - 1) + ii;
            proof {
                assert(index == spec_source_index(value.info_header, c as int, r as int));
            }
            let color = match &value.pixels.pixels {
                BitmapPixelData::Indices(v) => {
                    let k = v[index];
                    value.color_table.colors[k as usize]
                },
                BitmapPixelData::Colors(v) => v[index],
            };
            pixels.push(color);
            proof {
                assert(pixels@[r * aw + c] == spec_bitmap_pixel(*value, c as int, r as int));
                assert forall|c0: int, j0: int|
                    0 <= c0 < aw && 0 <= j0 < r implies pixels@[j0 * aw + c0]
                    == spec_bitmap_pixel(*value, c0, j0) by {
                    lemma_mul_inequality(j0 + 1, r as int, aw as int);
                    lemma_mul_is_distributive_add_other_way(aw as int, j0, 1);
                    lemma_mul_nonnegative(j0, aw as int);
                }
            }
            c = c + 1;
        }
        proof {
            lemma_mul_is_distributive_add_other_way(aw as int, r as int, 1);
            assert forall|c0: int, j0: int|
                0 <= c0 < aw && 0 <= j0 < r + 1 implies pixels@[j0 * aw + c0]
                == spec_bitmap_pixel(*value, c0, j0) by {
                lemma_mul_nonnegative(j0, aw as int);
                if j0 == r {
                    assert(pixels@[r * aw + c0] == spec_bitmap_pixel(*value, c0, r as int));
                }
            }
        }
        r = r + 1;
    }
    proof {
        lemma_mul_is_commutative(ah as int, aw as int);
    }
    Ok(Image::new_pixels(aw, ah, pixels))
}


// ------------------------------------------------------------------
// Building a bitmap from a pixel grid.
// ------------------------------------------------------------------

/// The distinct colors of `s` in the order a forward scan first meets
/// them.
pub open spec fn spec_first_occurrences(s: Seq<ARGB>) -> Seq<ARGB>
    decreases s.len(),
{
    if s.len() == 0 {
        Seq::empty()
    } else {
        let p = spec_first_occurrences(s.drop_last());
        if p.contains(s.last()) {
            p
        } else {
            p.push(s.last())
        }
    }
}

/// The position of the first entry of `table` equal to `c`.
pub open spec fn spec_color_index(table: Seq<ARGB>, c: ARGB) -> int
    decreases table.len(),
{
    if table.len() == 0 {
        0
    } else if table.first() == c {
        0
    } else {
        1 + spec_color_index(table.drop_first(), c)
    }
}

/// The first matching position is `spec_color_index`.
proof fn lemma_color_index_first(t: Seq<ARGB>, c: ARGB, i: int)
    requires
        0 <= i < t.len(),
        t[i] == c,
        forall|j: int| 0 <= j < i ==> t[j] != c,
    ensures
        spec_color_index(t, c) == i,
    decreases i,
{
    if i > 0 {
        assert(t[0] != c);
        lemma_color_index_first(t.drop_first(), c, i - 1);
    }
}

/// A color that occurs in the table is found inside it, at an entry
/// equal to itself.
pub proof fn lemma_color_index_valid(t: Seq<ARGB>, c: ARGB)
    requires
        t.contains(c),
    ensures
        0 <= spec_color_index(t, c) < t.len(),
        t[spec_color_index(t, c)] == c,
    decreases t.len(),
{
    if t.first() == c {
    } else {
        let k = choose|k: int| 0 <= k < t.len() && t[k] == c;
        assert(t.drop_first()[k - 1] == c);
        assert(t.drop_first().contains(c));
        lemma_color_index_valid(t.drop_first(), c);
    }
}

/// Every element of `s` occurs in its table of first occurrences.
pub proof fn lemma_first_occurrences_complete(s: Seq<ARGB>, i: int)
    requires
        0 <= i < s.len(),
    ensures
        spec_first_occurrences(s).contains(s[i]),
    decreases s.len(),
{
    let p = spec_first_occurrences(s.drop_last());
    if i == s.len() - 1 {
        if !p.contains(s.last()) {
            assert(p.push(s.last())[p.len() as int] == s.last());
        }
    } else {
        lemma_first_occurrences_complete(s.drop_last(), i);
        assert(p.contains(s[i]));
        let k = choose|k: int| 0 <= k < p.len() && p[k] == s[i];
        if !p.contains(s.last()) {
            assert(p.push(s.last())[k] == s[i]);
        }
    }
}


/// The first-occurrence table is exactly the set of distinct colors:
/// it repeats no entry, and it holds a color precisely when the scanned
/// pixels do. Its length is therefore the distinct-color count.
pub proof fn lemma_first_occurrences_distinct(s: Seq<ARGB>)
    ensures
        forall|i: int, j: int|
            0 <= i < j < spec_first_occurrences(s).len() ==> spec_first_occurrences(s)[i]
                != spec_first_occurrences(s)[j],
        forall|c: ARGB| spec_first_occurrences(s).contains(c) <==> s.contains(c),
    decreases s.len(),
{
    let fo = spec_first_occurrences(s);
    if s.len() == 0 {
        assert forall|c: ARGB| fo.contains(c) <==> s.contains(c) by {
            if fo.contains(c) {
                let k = choose|k: int| 0 <= k < fo.len() && fo[k] == c;
            }
            if s.contains(c) {
                let k = choose|k: int| 0 <= k < s.len() && s[k] == c;
            }
        }
    } else {
        let dl = s.drop_last();
        let p = spec_first_occurrences(dl);
        lemma_first_occurrences_distinct(dl);
        assert forall|c: ARGB| fo.contains(c) implies s.contains(c) by {
            let k = choose|k: int| 0 <= k < fo.len() && fo[k] == c;
            if k < p.len() {
                assert(p.contains(c));
                assert(dl.contains(c));
                let m = choose|m: int| 0 <= m < dl.len() && dl[m] == c;
                assert(s[m] == c);
            } else {
                assert(c == s.last());
                assert(s[s.len() - 1] == c);
            }
        }
        assert forall|c: ARGB| s.contains(c) implies fo.contains(c) by {
            let k = choose|k: int| 0 <= k < s.len() && s[k] == c;
            lemma_first_occurrences_complete(s, k);
        }
        assert forall|i: int, j: int| 0 <= i < j < fo.len() implies fo[i] != fo[j] by {
            if j < p.len() {
            } else if !p.contains(s.last()) {
                assert(fo[j] == s.last());
                assert(fo[i] == p[i]);
                if fo[i] == s.last() {
                    assert(p.contains(s.last()));
                }
            }
        }
    }
}

/// The grid's pixels in storage order: bottom row first, columns left to
/// right.
pub open spec fn spec_rows_reversed(img: Image) -> Seq<ARGB> {
    Seq::new(
        (img.width * img.height) as nat,
        |p: int|
            img.pixels@[(img.height - 1 - p / img.width as int) * img.width + p % img.width as int],
    )
}

/// The color-table indices of the grid's pixels in storage order.
pub open spec fn spec_image_indices(img: Image) -> Seq<u8> {
    let table = spec_first_occurrences(img.pixels@);
    Seq::new(
        (img.width * img.height) as nat,
        |p: int| (spec_color_index(table, spec_rows_reversed(img)[p]) % 256) as u8,
    )
}

/// The stored length of one padded scanline re-encoded at this depth.
pub open spec fn spec_convert_stride(w: int, depth: u16) -> int {
    crate::utility::spec_round4((w * depth + 7) / 8)
}

/// The color table a re-encode at this depth builds: the first-seen
/// distinct colors for an indexed depth, nothing otherwise.
pub open spec fn spec_image_table(img: Image, depth: u16) -> Seq<ARGB> {
    if depth == 1 || depth == 4 || depth == 8 {
        spec_first_occurrences(img.pixels@)
    } else {
        Seq::empty()
    }
}

/// Where the pixel data of a re-encoded grid starts: the two headers
/// plus four bytes per color-table entry.
pub open spec fn spec_image_data_offset(img: Image, depth: u16) -> int {
    54 + 4 * spec_image_table(img, depth).len() as int
}

/// The byte length of the re-encoded pixel data: one padded scanline per
/// grid row.
pub open spec fn spec_image_pixel_bytes_len(img: Image, depth: u16) -> int {
    spec_convert_stride(img.width as int, depth) * img.height
}

/// Whether the grid can be described by the bitmap's 32-bit header
/// fields at this depth.
pub open spec fn spec_image_fits(img: Image, depth: u16) -> bool {
    &&& img.width <= i32::MAX
    &&& img.height <= i32::MAX
    &&& spec_image_data_offset(img, depth) + spec_image_pixel_bytes_len(img, depth) <= u32::MAX
}

/// What building a bitmap from a grid yields: computed headers, the
/// first-occurrence color table, and pixel data stored bottom row first
/// (indices for an indexed depth, direct colors otherwise).
pub open spec fn spec_image_bitmap_ok(
    img: Image,
    options: crate::bitmap::BitmapConvertData,
    bmp: Bitmap,
) -> bool {
    let depth = options.bit_depth;
    let table = spec_image_table(img, depth);
    let off = spec_image_data_offset(img, depth);
    let size = spec_image_pixel_bytes_len(img, depth);
    &&& bmp.header == (crate::bitmap::BitmapHeader {
        signature: 0x4D42,
        file_size: (off + size) as u32,
        reserved: 0,
        data_offset: off as u32,
    })
    &&& bmp.info_header == (BitmapInfoHeader {
        size: 40,
        width: img.width as i32,
        height: img.height as i32,
        planes: 1,
        bit_depth: depth,
        compression: options.compression,
        image_size: 0,
        x_pixels_per_meter: options.x_pixels_per_meter,
        y_pixels_per_meter: options.y_pixels_per_meter,
        colors_used: table.len() as u32,
        important_colors: 0,
    })
    &&& bmp.color_table.colors@ == table
    &&& if depth == 1 || depth == 4 || depth == 8 {
        bmp.pixels.pixels matches BitmapPixelData::Indices(v) && v@ == spec_image_indices(img)
    } else {
        bmp.pixels.pixels matches BitmapPixelData::Colors(v) && v@ == spec_rows_reversed(img)
    }
}

/// The position of the first table entry equal to `c`, if the table
/// holds it.
fn find_color(table: &Vec<ARGB>, c: ARGB) -> (r: Option<usize>)
    ensures
        r matches Some(i) ==> i < table@.len() && table@[i as int] == c && i == spec_color_index(
            table@,
            c,
        ),
        r is Some <==> table@.contains(c),
{
    let n = table.len();
    let mut i: usize = 0;
    while i < n
        invariant
            n == table@.len(),
            i <= n,
            forall|j: int| 0 <= j < i ==> table@[j] != c,
        decreases n - i,
    {
        if table[i] == c {
            proof {
                lemma_color_index_first(table@, c, i as int);
            }
            return Some(i);
        }
        i = i + 1;
    }
    proof {
        assert(!table@.contains(c));
    }
    None
}

/// Build a bitmap from a pixel grid and the caller-supplied depth,
/// compression and resolution. For an indexed depth the color table
/// lists the distinct colors in first-occurrence order of a row-major
/// top-down scan, and the pixel data stores their indices; otherwise the
/// pixel data stores the colors directly. Rows are stored bottom first.
/// Fails exactly when the grid cannot be described by the 32-bit header
/// fields.
pub fn image_to_bitmap(
    value: &Image,
    options: &crate::bitmap::BitmapConvertData,
) -> (r: Result<Bitmap, crate::codec::EncodeError>)
    requires
        value.wf(),
    ensures
        r is Ok <==> spec_image_fits(*value, options.bit_depth),
        r matches Ok(bmp) ==> spec_image_bitmap_ok(*value, *options, bmp),
{
    let depth = options.bit_depth;
    let indexed = depth == 1 || depth == 4 || depth == 8;
    let w = value.width;
    let h = value.height;
    let n = value.pixels.len();
    let mut table: Vec<ARGB> = Vec::new();
    if indexed {
        let mut p: usize = 0;
        while p < n
            invariant
                n == value.pixels@.len(),
                p <= n,
                table@ == spec_first_occurrences(value.pixels@.take(p as int)),
            decreases n - p,
        {
            let c = value.pixels[p];
            proof {
                let pre = value.pixels@.take(p as int);
                let post = value.pixels@.take(p + 1);
                assert(post.drop_last() =~= pre);
                assert(post.last() == c);
            }
            match find_color(&table, c) {
                Some(_) => {},
                None => {
                    table.push(c);
                },
            }
            p = p + 1;
        }
        proof {
            assert(value.pixels@.take(n as int) =~= value.pixels@);
        }
    }
    proof {
        assert(table@ == spec_image_table(*value, depth));
    }
    if w > 0x7FFF_FFFF {
        return Err(crate::codec::EncodeError::ImageTooLarge);
    }
    if h > 0x7FFF_FFFF {
        return Err(crate::codec::EncodeError::ImageTooLarge);
    }
    let tl = table.len();
    proof {
        vstd::arithmetic::mul::lemma_mul_upper_bound(w as int, 0x7FFF_FFFF, depth as int, 0xFFFF);
        lemma_mul_nonnegative(w as int, depth as int);
    }
    let stride128: u128 = ((((w as u128) * (depth as u128) + 7) / 8 + 3) / 4) * 4;
    proof {
        assert(stride128 == spec_convert_stride(w as int, depth));
        vstd::arithmetic::mul::lemma_mul_upper_bound(
            stride128 as int,
            0x1_0000_0000_0000,
            h as int,
            0x7FFF_FFFF,
        );
        lemma_mul_nonnegative(stride128 as int, h as int);
    }
    let off128: u128 = 54 + 4 * (tl as u128);
    let total128: u128 = off128 + stride128 * (h as u128);
    if total128 > 0xFFFF_FFFF {
        return Err(crate::codec::EncodeError::ImageTooLarge);
    }
    let data_offset = off128 as u32;
    let file_size = total128 as u32;
    let colors_used = tl as u32;
    let pixels: BitmapPixelData = if indexed {
        let ghost target = spec_image_indices(*value);
        let mut idxs: Vec<u8> = Vec::new();
        let mut r: usize = 0;
        while r < h
            invariant
                value.wf(),
                w == value.width,
                h == value.height,
                r <= h,
                value.pixels@.len() <= usize::MAX,
                table@ == spec_first_occurrences(value.pixels@),
                target == spec_image_indices(*value),
                target.len() == w * h,
                idxs@ == target.take((r * w) as int),
            decreases h - r,
        {
            let src = h - 1 - r;
            proof {
                lemma_mul_inequality(r as int + 1, h as int, w as int);
                lemma_mul_is_distributive_add_other_way(w as int, r as int, 1);
                lemma_mul_nonnegative(r as int, w as int);
                lemma_mul_is_commutative(h as int, w as int);
            }
            let mut c: usize = 0;
            while c < w
                invariant
                    value.wf(),
                    w == value.width,
                    h == value.height,
                    r < h,
                    src == h - 1 - r,
                    c <= w,
                    value.pixels@.len() <= usize::MAX,
                    table@ == spec_first_occurrences(value.pixels@),
                    target == spec_image_indices(*value),
                    target.len() == w * h,
                    0 <= r * w,
                    r * w + w <= w * h,
                    idxs@ == target.take(r * w + c),
                decreases w - c,
            {
                proof {
                    lemma_mul_inequality(src as int + 1, h as int, w as int);
                    lemma_mul_is_distributive_add_other_way(w as int, src as int, 1);
                    lemma_mul_nonnegative(src as int, w as int);
                    lemma_mul_is_commutative(h as int, w as int);
                }
                let pixel = value.pixels[src * w + c];
                let idx: usize = match find_color(&table, pixel) {
                    Some(i) => i,
                    None => {
                        proof {
                            lemma_first_occurrences_complete(
                                value.pixels@,
                                (src * w + c) as int,
                            );
                            assert(false);
                        }
                        0
                    },
                };
                let ghost p = (r * w + c) as int;
                proof {
                    lemma_fundamental_div_mod_converse(p, w as int, r as int, c as int);
                    assert(spec_rows_reversed(*value)[p] == value.pixels@[(h - 1 - r) * w
                        + c as int]);
                    assert(target[p] == (spec_color_index(table@, pixel) % 256) as u8);
                    assert(target.take(p).push((idx % 256) as u8) =~= target.take(p + 1));
                }
                idxs.push((idx % 256) as u8);
                c = c + 1;
            }
            proof {
                lemma_mul_is_distributive_add_other_way(w as int, r as int, 1);
            }
            r = r + 1;
        }
        proof {
            lemma_mul_is_commutative(h as int, w as int);
            assert(idxs@ =~= target);
        }
        BitmapPixelData::Indices(idxs)
    } else {
        let ghost target = spec_rows_reversed(*value);
        let mut colors: Vec<ARGB> = Vec::new();
        let mut r: usize = 0;
        while r < h
            invariant
                value.wf(),
                w == value.width,
                h == value.height,
                r <= h,
                value.pixels@.len() <= usize::MAX,
                target == spec_rows_reversed(*value),
                target.len() == w * h,
                colors@ == target.take((r * w) as int),
            decreases h - r,
        {
            let src = h - 1 - r;
            proof {
                lemma_mul_inequality(r as int + 1, h as int, w as int);
                lemma_mul_is_distributive_add_other_way(w as int, r as int, 1);
                lemma_mul_nonnegative(r as int, w as int);
                lemma_mul_is_commutative(h as int, w as int);
            }
            let mut c: usize = 0;
            while c < w
                invariant
                    value.wf(),
                    w == value.width,
                    h == value.height,
                    r < h,
                    src == h - 1 - r,
                    c <= w,
                    value.pixels@.len() <= usize::MAX,
                    target == spec_rows_reversed(*value),
                    target.len() == w * h,
                    0 <= r * w,
                    r * w + w <= w * h,
                    colors@ == target.take(r * w + c),
                decreases w - c,
            {
                proof {
                    lemma_mul_inequality(src as int + 1, h as int, w as int);
                    lemma_mul_is_distributive_add_other_way(w as int, src as int, 1);
                    lemma_mul_nonnegative(src as int, w as int);
                    lemma_mul_is_commutative(h as int, w as int);
                }
                let pixel = value.pixels[src * w + c];
                let ghost p = (r * w + c) as int;
                proof {
                    lemma_fundamental_div_mod_converse(p, w as int, r as int, c as int);
                    assert(target[p] == value.pixels@[(h - 1 - r) * w + c as int]);
                    assert(target.take(p).push(pixel) =~= target.take(p + 1));
                }
                colors.push(pixel);
                c = c + 1;
            }
            proof {
                lemma_mul_is_distributive_add_other_way(w as int, r as int, 1);
            }
            r = r + 1;
        }
        proof {
            lemma_mul_is_commutative(h as int, w as int);
            assert(colors@ =~= target);
        }
        BitmapPixelData::Colors(colors)
    };
    Ok(Bitmap {
        header: crate::bitmap::BitmapHeader {
            signature: crate::bitmap::BITMAP_SIGNATURE,
            file_size,
            reserved: 0,
            data_offset,
        },
        info_header: BitmapInfoHeader {
            size: crate::bitmap::BITMAP_INFO_HEADER_SIZE,
            width: w as i32,
            height: h as i32,
            planes: 1,
            bit_depth: depth,
            compression: options.compression,
            image_size: 0,
            x_pixels_per_meter: options.x_pixels_per_meter,
            y_pixels_per_meter: options.y_pixels_per_meter,
            colors_used,
            important_colors: 0,
        },
        color_table: crate::bitmap::BitmapColorTable { colors: table },
        pixels: crate::bitmap::BitmapPixels { pixels },
    })
}


// ------------------------------------------------------------------
// Laws of the adapter.
// ------------------------------------------------------------------

/// Mirroring: with a negative header height, grid row `j` reads stored
/// scanline `j` (file order, top to bottom); with a non-negative height
/// it reads scanline `height - 1 - j` (bottom up). With a negative
/// width the columns of each row are reversed.
pub proof fn lemma_mirroring(ih: BitmapInfoHeader, c: int, j: int)
    requires
        0 <= c < spec_abs_width(ih),
        0 <= j < spec_abs_height(ih),
    ensures
        ih.height < 0 ==> spec_source_index(ih, c, j) == j * spec_abs_width(ih) + (
        if ih.width < 0 {
            spec_abs_width(ih) - 1 - c
        } else {
            c
        }),
        ih.height >= 0 ==> spec_source_index(ih, c, j) == (spec_abs_height(ih) - 1 - j)
            * spec_abs_width(ih) + (
        if ih.width < 0 {
            spec_abs_width(ih) - 1 - c
        } else {
            c
        }),
{
    let aw = spec_abs_width(ih);
    let ah = spec_abs_height(ih);
    if ih.height < 0 {
        lemma_mul_is_commutative(aw, j);
    } else {
        lemma_mul_is_commutative(aw, ah - 1 - j);
    }
}

/// Round trip through the adapter at a direct-color depth: a grid
/// re-encoded at bit depth 24 or 32 yields a bitmap that converts back
/// to the same grid, pixel for pixel.
pub proof fn lemma_image_bitmap_roundtrip_direct(
    img: Image,
    options: crate::bitmap::BitmapConvertData,
    bmp: Bitmap,
)
    requires
        img.wf(),
        options.bit_depth == 24 || options.bit_depth == 32,
        spec_image_fits(img, options.bit_depth),
        spec_image_bitmap_ok(img, options, bmp),
    ensures
        spec_bitmap_image_ok(bmp),
        spec_abs_width(bmp.info_header) == img.width,
        spec_abs_height(bmp.info_header) == img.height,
        forall|c: int, j: int|
            0 <= c < img.width && 0 <= j < img.height ==> spec_bitmap_pixel(bmp, c, j)
                == img.spec_at(c, j),
{
    let w = img.width as int;
    let h = img.height as int;
    assert(spec_abs_width(bmp.info_header) == w);
    assert(spec_abs_height(bmp.info_header) == h);
    let v = bmp.pixels.pixels->Colors_0;
    assert(v@ == spec_rows_reversed(img));
    assert(v@.len() == w * h);
    assert(spec_bitmap_image_ok(bmp));
    assert forall|c: int, j: int|
        0 <= c < w && 0 <= j < h implies spec_bitmap_pixel(bmp, c, j) == img.spec_at(c, j) by {
        let idx = spec_source_index(bmp.info_header, c, j);
        lemma_mirroring(bmp.info_header, c, j);
        assert(idx == (h - 1 - j) * w + c);
        lemma_source_index_range(bmp.info_header, c, j);
        lemma_fundamental_div_mod_converse(idx, w, h - 1 - j, c);
        assert(v@[idx] == img.pixels@[(h - 1 - (h - 1 - j)) * w + c]);
        assert(v@[idx] == img.pixels@[j * w + c]);
    }
}

/// Round trip through the adapter at an indexed depth: a grid with at
/// most 256 distinct colors re-encoded at bit depth 1, 4 or 8 yields a
/// bitmap whose color table lists exactly the distinct colors in
/// first-occurrence order, and which converts back to the same grid,
/// pixel for pixel.
pub proof fn lemma_image_bitmap_roundtrip_indexed(
    img: Image,
    options: crate::bitmap::BitmapConvertData,
    bmp: Bitmap,
)
    requires
        img.wf(),
        options.bit_depth == 1 || options.bit_depth == 4 || options.bit_depth == 8,
        spec_image_fits(img, options.bit_depth),
        spec_first_occurrences(img.pixels@).len() <= 256,
        spec_image_bitmap_ok(img, options, bmp),
    ensures
        bmp.color_table.colors@ == spec_first_occurrences(img.pixels@),
        spec_bitmap_image_ok(bmp),
        spec_abs_width(bmp.info_header) == img.width,
        spec_abs_height(bmp.info_header) == img.height,
        forall|c: int, j: int|
            0 <= c < img.width && 0 <= j < img.height ==> spec_bitmap_pixel(bmp, c, j)
                == img.spec_at(c, j),
{
    let w = img.width as int;
    let h = img.height as int;
    let table = spec_first_occurrences(img.pixels@);
    assert(spec_abs_width(bmp.info_header) == w);
    assert(spec_abs_height(bmp.info_header) == h);
    let v = bmp.pixels.pixels->Indices_0;
    assert(v@ == spec_image_indices(img));
    assert(v@.len() == w * h);
    assert forall|p: int| 0 <= p < w * h implies v@[p] < bmp.color_table.colors@.len() by {
        lemma_rev_pixel_in_range(img, p);
        let c0 = spec_rows_reversed(img)[p];
        lemma_color_index_valid(table, c0);
    }
    assert(spec_bitmap_image_ok(bmp));
    assert forall|c: int, j: int|
        0 <= c < w && 0 <= j < h implies spec_bitmap_pixel(bmp, c, j) == img.spec_at(c, j) by {
        let idx = spec_source_index(bmp.info_header, c, j);
        lemma_mirroring(bmp.info_header, c, j);
        assert(idx == (h - 1 - j) * w + c);
        lemma_source_index_range(bmp.info_header, c, j);
        lemma_fundamental_div_mod_converse(idx, w, h - 1 - j, c);
        lemma_rev_pixel_in_range(img, idx);
        let c0 = spec_rows_reversed(img)[idx];
        assert(c0 == img.pixels@[j * w + c]);
        lemma_color_index_valid(table, c0);
        assert(v@[idx] == (spec_color_index(table, c0) % 256) as u8);
        assert(spec_color_index(table, c0) % 256 == spec_color_index(table, c0));
        assert(bmp.color_table.colors@[v@[idx] as int] == c0);
    }
}

/// Every stored-order pixel of a grid is one of the grid's pixels and
/// occurs in its first-occurrence color table.
proof fn lemma_rev_pixel_in_range(img: Image, p: int)
    requires
        img.wf(),
        0 <= p < img.width * img.height,
    ensures
        (img.height - 1 - p / img.width as int) * img.width + p % img.width as int >= 0,
        ((img.height - 1 - p / img.width as int) * img.width + p % img.width as int)
            < img.pixels@.len(),
        spec_first_occurrences(img.pixels@).contains(spec_rows_reversed(img)[p]),
{
    let w = img.width as int;
    let h = img.height as int;
    assert(w >= 1) by {
        if w == 0 {
            assert(w * h == 0) by (nonlinear_arith)
                requires
                    w == 0,
            ;
        }
    }
    vstd::arithmetic::div_mod::lemma_mod_bound(p, w);
    vstd::arithmetic::div_mod::lemma_div_pos_is_pos(p, w);
    let r = p / w;
    let c = p % w;
    assert(r < h) by {
        lemma_fundamental_div_mod(p, w);
        if r >= h {
            lemma_mul_inequality(h, r, w);
            lemma_mul_is_commutative(h, w);
            lemma_mul_is_commutative(r, w);
        }
    }
    let q = (h - 1 - r) * w + c;
    assert(0 <= q < w * h) by (nonlinear_arith)
        requires
            0 <= h - 1 - r < h,
            0 <= c < w,
            q == (h - 1 - r) * w + c,
    ;
    lemma_first_occurrences_complete(img.pixels@, q);
}


impl crate::convert::ConvertableFrom<Bitmap> for Image {
    type Options = ();

    type Error = ConvertError;

    /// Build a pixel grid from a bitmap; see `bitmap_to_image`.
    fn try_convert_from(value: Bitmap, options: ()) -> (r: Result<Image, ConvertError>)
        ensures
            r is Ok <==> spec_bitmap_image_ok(value),
            r matches Ok(img) ==> {
                &&& img.width == spec_abs_width(value.info_header)
                &&& img.height == spec_abs_height(value.info_header)
                &&& img.wf()
                &&& forall|c: int, j: int|
                    0 <= c < img.width && 0 <= j < img.height ==> img.spec_at(c, j)
                        == spec_bitmap_pixel(value, c, j)
            },
    {
        bitmap_to_image(&value)
    }
}

impl crate::convert::ConvertableFrom<Image> for Bitmap {
    type Options = crate::bitmap::BitmapConvertData;

    type Error = crate::codec::EncodeError;

    /// Build a bitmap from a pixel grid; see `image_to_bitmap`. A grid
    /// whose buffer does not match its dimensions cannot be described.
    fn try_convert_from(
        value: Image,
        options: crate::bitmap::BitmapConvertData,
    ) -> (r: Result<Bitmap, crate::codec::EncodeError>)
        ensures
            value.wf() ==> (r is Ok <==> spec_image_fits(value, options.bit_depth)),
            r matches Ok(bmp) ==> value.wf() && spec_image_bitmap_ok(value, options, bmp),
    {
        proof {
            vstd::arithmetic::mul::lemma_mul_upper_bound(
                value.width as int,
                0xFFFF_FFFF_FFFF_FFFF,
                value.height as int,
                0xFFFF_FFFF_FFFF_FFFF,
            );
            lemma_mul_nonnegative(value.width as int, value.height as int);
        }
        let wh = (value.width as u128) * (value.height as u128);
        if (value.pixels.len() as u128) == wh {
            image_to_bitmap(&value, &options)
        } else {
            Err(crate::codec::EncodeError::ImageTooLarge)
        }
    }
}

} // verus!
