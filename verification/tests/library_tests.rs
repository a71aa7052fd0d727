use rs_image::adapter::{bitmap_to_image, image_to_bitmap, ConvertError};
use rs_image::args::{Arg, ParseArgsSettings};
use rs_image::bitmap::{
    Bitmap, BitmapColorTable, BitmapConvertData, BitmapHeader, BitmapInfoHeader, BitmapPixelData,
    BitmapPixels,
};
use rs_image::codec::{decode, encode, field_abs, EncodeError, ParseError};
use rs_image::color::ARGB;
use rs_image::console::{nearest_console_color, OutputType, WriteImageToConsoleSettings};
use rs_image::convert::{check_conversion, conversion_supported, ColorSpaceKind};
use rs_image::image::Image;
use rs_image::utility::{round_to_next_multiple_of_4, FromBitSlice};

fn rgb(red: u8, green: u8, blue: u8) -> ARGB {
    ARGB { red, green, blue, alpha: 0xFF }
}

/// A tiny 8-bit indexed bitmap: 2x2, two colors, rows padded to 4 bytes.
fn indexed_bytes_2x2() -> Vec<u8> {
    let mut b = vec![
        0x42, 0x4D, // signature
        0x46, 0x00, 0x00, 0x00, // file size = 70
        0x00, 0x00, 0x00, 0x00, // reserved
        0x3E, 0x00, 0x00, 0x00, // data offset = 62 (54 + 2 table entries)
        0x28, 0x00, 0x00, 0x00, // info header size
        0x02, 0x00, 0x00, 0x00, // width = 2
        0x02, 0x00, 0x00, 0x00, // height = 2
        0x01, 0x00, // planes
        0x08, 0x00, // bit depth = 8
        0x00, 0x00, 0x00, 0x00, // compression
        0x00, 0x00, 0x00, 0x00, // image size
        0x00, 0x00, 0x00, 0x00, // x resolution
        0x00, 0x00, 0x00, 0x00, // y resolution
        0x02, 0x00, 0x00, 0x00, // colors used
        0x00, 0x00, 0x00, 0x00, // important colors
    ];
    // color table: entry 0 red (b,g,r,a), entry 1 green
    b.extend_from_slice(&[0x00, 0x00, 0xFF, 0x00]);
    b.extend_from_slice(&[0x00, 0xFF, 0x00, 0x00]);
    // two scanlines of two indices + two pad bytes each
    b.extend_from_slice(&[0x00, 0x01, 0x00, 0x00]);
    b.extend_from_slice(&[0x01, 0x00, 0x00, 0x00]);
    b
}

#[test]
fn roundtrip_bytes_24_bit() {
    // Round trip decode-then-encode for the 24-bit scenario buffer.
    let (bytes, _, _) = scenario_24();
    let bitmap = decode(&bytes).unwrap();
    let again = encode(&bitmap).unwrap();
    assert_eq!(again, bytes);
}

#[test]
fn roundtrip_bytes_indexed() {
    let bytes = indexed_bytes_2x2();
    let bitmap = decode(&bytes).unwrap();
    match &bitmap.pixels.pixels {
        BitmapPixelData::Indices(v) => assert_eq!(v, &vec![0u8, 1, 1, 0]),
        BitmapPixelData::Colors(_) => panic!("expected indexed pixel data"),
    }
    assert_eq!(bitmap.color_table.colors.len(), 2);
    let again = encode(&bitmap).unwrap();
    assert_eq!(again, bytes);
}

#[test]
fn roundtrip_bytes_1_bit() {
    // 1-bit bitmap, width 3: one data byte per row (pad bits clear), three
    // pad bytes.
    let mut b = vec![
        0x42, 0x4D, // signature
        0x46, 0x00, 0x00, 0x00, // file size = 70
        0x00, 0x00, 0x00, 0x00, // reserved
        0x3E, 0x00, 0x00, 0x00, // data offset = 62
        0x28, 0x00, 0x00, 0x00, // info header size
        0x03, 0x00, 0x00, 0x00, // width = 3
        0x02, 0x00, 0x00, 0x00, // height = 2
        0x01, 0x00, // planes
        0x01, 0x00, // bit depth = 1
        0x00, 0x00, 0x00, 0x00, // compression
        0x00, 0x00, 0x00, 0x00, // image size
        0x00, 0x00, 0x00, 0x00, // x resolution
        0x00, 0x00, 0x00, 0x00, // y resolution
        0x02, 0x00, 0x00, 0x00, // colors used
        0x00, 0x00, 0x00, 0x00, // important colors
    ];
    b.extend_from_slice(&[0x00, 0x00, 0xFF, 0x00]);
    b.extend_from_slice(&[0x00, 0xFF, 0x00, 0x00]);
    // rows "101" -> 1010_0000 = 0xA0, "010" -> 0100_0000 = 0x40
    b.extend_from_slice(&[0xA0, 0x00, 0x00, 0x00]);
    b.extend_from_slice(&[0x40, 0x00, 0x00, 0x00]);
    let bitmap = decode(&b).unwrap();
    match &bitmap.pixels.pixels {
        BitmapPixelData::Indices(v) => assert_eq!(v, &vec![1u8, 0, 1, 0, 1, 0]),
        BitmapPixelData::Colors(_) => panic!("expected indexed pixel data"),
    }
    let again = encode(&bitmap).unwrap();
    assert_eq!(again, b);
}


#[test]
fn roundtrip_bytes_4_bit() {
    // 4-bit bitmap, width 3: two data bytes per row, the low nibble of
    // the second byte clear, two pad bytes.
    let mut b = vec![
        0x42, 0x4D, // signature
        0x4E, 0x00, 0x00, 0x00, // file size = 78
        0x00, 0x00, 0x00, 0x00, // reserved
        0x42, 0x00, 0x00, 0x00, // data offset = 66 (54 + 3 table entries)
        0x28, 0x00, 0x00, 0x00, // info header size
        0x03, 0x00, 0x00, 0x00, // width = 3
        0x02, 0x00, 0x00, 0x00, // height = 2
        0x01, 0x00, // planes
        0x04, 0x00, // bit depth = 4
        0x00, 0x00, 0x00, 0x00, // compression
        0x00, 0x00, 0x00, 0x00, // image size
        0x00, 0x00, 0x00, 0x00, // x resolution
        0x00, 0x00, 0x00, 0x00, // y resolution
        0x03, 0x00, 0x00, 0x00, // colors used
        0x00, 0x00, 0x00, 0x00, // important colors
    ];
    b.extend_from_slice(&[0x00, 0x00, 0xFF, 0x00]);
    b.extend_from_slice(&[0x00, 0xFF, 0x00, 0x00]);
    b.extend_from_slice(&[0xFF, 0x00, 0x00, 0x00]);
    // rows: indices (0, 1, 2) -> 0x01, 0x20; (2, 1, 0) -> 0x21, 0x00
    b.extend_from_slice(&[0x01, 0x20, 0x00, 0x00]);
    b.extend_from_slice(&[0x21, 0x00, 0x00, 0x00]);
    let bitmap = decode(&b).unwrap();
    match &bitmap.pixels.pixels {
        BitmapPixelData::Indices(v) => assert_eq!(v, &vec![0u8, 1, 2, 2, 1, 0]),
        BitmapPixelData::Colors(_) => panic!("expected indexed pixel data"),
    }
    let again = encode(&bitmap).unwrap();
    assert_eq!(again, b);
}

fn scenario_24() -> (Vec<u8>, Bitmap, Image) {
    let header: &[u8] = &[
        0x42, 0x4D, 0x66, 0x00, 0x00, 0x00, 0x00, 0x00, 0x00, 0x00, 0x36, 0x00, 0x00, 0x00, 0x28,
        0x00, 0x00, 0x00, 0x04, 0x00, 0x00, 0x00, 0x04, 0x00, 0x00, 0x00, 0x01, 0x00, 0x18, 0x00,
        0x00, 0x00, 0x00, 0x00, 0x00, 0x00, 0x00, 0x00, 0xC4, 0x0E, 0x00, 0x00, 0xC4, 0x0E, 0x00,
        0x00, 0x00, 0x00, 0x00, 0x00, 0x00, 0x00, 0x00, 0x00,
    ];
    let rows: &[u8] = &[
        0x00, 0x00, 0x00, 0x00, 0x00, 0xFF, 0x00, 0xFF, 0x00, 0x00, 0xFF, 0xFF, 0xFF, 0x00, 0x00,
        0xFF, 0x00, 0xFF, 0xFF, 0xFF, 0x00, 0xFF, 0xFF, 0xFF, 0x00, 0x00, 0x00, 0x00, 0x00, 0xCC,
        0x00, 0xCC, 0x00, 0x00, 0xCC, 0xCC, 0xCC, 0x00, 0x00, 0xCC, 0x00, 0xCC, 0xCC, 0xCC, 0x00,
        0xCC, 0xCC, 0xCC,
    ];
    let mut bytes = Vec::from(header);
    bytes.extend_from_slice(rows);
    let bitmap = decode(&bytes).unwrap();
    let image = bitmap_to_image(&bitmap).unwrap();
    (bytes, bitmap, image)
}

#[test]
fn scenario_24_bit_decode_and_reencode() {
    // The 4x4 24-bit scenario: row 0 of the decoded image is the last
    // stored scanline with blue/green/red swapped to red/green/blue and
    // alpha forced opaque, and re-encoding the image reproduces the
    // 102-byte buffer exactly.
    let (bytes, _, image) = scenario_24();
    assert_eq!(bytes.len(), 102);
    assert_eq!(image.width(), 4);
    assert_eq!(image.height(), 4);
    // last stored scanline starts at 54 + 3 * 12 = 90: BGR CC,00,00 ...
    assert_eq!(image.get(0, 0), Some(rgb(0x00, 0x00, 0xCC)));
    assert_eq!(image.get(1, 0), Some(rgb(0xCC, 0x00, 0xCC)));
    assert_eq!(image.get(2, 0), Some(rgb(0x00, 0xCC, 0xCC)));
    assert_eq!(image.get(3, 0), Some(rgb(0xCC, 0xCC, 0xCC)));
    let bmp2 = image_to_bitmap(
        &image,
        &BitmapConvertData {
            bit_depth: 24,
            compression: 0,
            x_pixels_per_meter: 3780,
            y_pixels_per_meter: 3780,
        },
    )
    .unwrap();
    let again = encode(&bmp2).unwrap();
    assert_eq!(again, bytes);
}

#[test]
fn image_bitmap_roundtrip_24_and_32() {
    for depth in [24u16, 32] {
        let image = Image::new_pixels(
            3,
            2,
            vec![
                rgb(1, 2, 3),
                rgb(4, 5, 6),
                rgb(7, 8, 9),
                rgb(10, 11, 12),
                rgb(13, 14, 15),
                rgb(16, 17, 18),
            ],
        );
        let bmp = image_to_bitmap(
            &image,
            &BitmapConvertData {
                bit_depth: depth,
                compression: 0,
                x_pixels_per_meter: 1,
                y_pixels_per_meter: 1,
            },
        )
        .unwrap();
        let back = bitmap_to_image(&bmp).unwrap();
        assert_eq!(back, image);
    }
}

#[test]
fn image_bitmap_roundtrip_indexed_8() {
    // Four distinct colors; the table lists them in first-occurrence
    // order of a top-down row-major scan, and converting back restores
    // the image.
    let image = Image::new_pixels(
        2,
        2,
        vec![rgb(9, 9, 9), rgb(1, 1, 1), rgb(9, 9, 9), rgb(2, 2, 2)],
    );
    let bmp = image_to_bitmap(
        &image,
        &BitmapConvertData {
            bit_depth: 8,
            compression: 0,
            x_pixels_per_meter: 0,
            y_pixels_per_meter: 0,
        },
    )
    .unwrap();
    assert_eq!(
        bmp.color_table.colors,
        vec![rgb(9, 9, 9), rgb(1, 1, 1), rgb(2, 2, 2)]
    );
    assert_eq!(bmp.info_header.colors_used, 3);
    assert_eq!(bmp.header.data_offset, 54 + 4 * 3);
    match &bmp.pixels.pixels {
        // stored bottom row first: bottom row is (9,9,9), (2,2,2)
        BitmapPixelData::Indices(v) => assert_eq!(v, &vec![0u8, 2, 0, 1]),
        BitmapPixelData::Colors(_) => panic!("expected indexed pixel data"),
    }
    let back = bitmap_to_image(&bmp).unwrap();
    assert_eq!(back, image);
}

#[test]
fn scanline_padding_lengths() {
    // Width 3 at 24 bits: 9 data bytes padded to 12, pad bytes zero.
    let image = Image::new_pixels(3, 1, vec![rgb(1, 1, 1), rgb(2, 2, 2), rgb(3, 3, 3)]);
    let bmp = image_to_bitmap(
        &image,
        &BitmapConvertData {
            bit_depth: 24,
            compression: 0,
            x_pixels_per_meter: 0,
            y_pixels_per_meter: 0,
        },
    )
    .unwrap();
    let bytes = encode(&bmp).unwrap();
    assert_eq!(bytes.len(), 54 + 12);
    assert_eq!(&bytes[54 + 9..], &[0u8, 0, 0]);
    assert_eq!(round_to_next_multiple_of_4(9), 12);
    assert_eq!(round_to_next_multiple_of_4(0), 0);
    assert_eq!(round_to_next_multiple_of_4(12), 12);
}

#[test]
fn mirrored_rows_negative_height() {
    // Same pixel data under height = -2 decodes rows in file order.
    let mut bytes = indexed_bytes_2x2();
    // height field at offset 22: -2 as little-endian i32
    bytes[22] = 0xFE;
    bytes[23] = 0xFF;
    bytes[24] = 0xFF;
    bytes[25] = 0xFF;
    let bitmap = decode(&bytes).unwrap();
    assert_eq!(bitmap.info_header.height, -2);
    assert_eq!(field_abs(bitmap.info_header.height), 2);
    let img = bitmap_to_image(&bitmap).unwrap();
    // file order: first stored row (indices 0,1) is the top row now
    assert_eq!(img.get(0, 0), Some(ARGB { red: 0xFF, green: 0, blue: 0, alpha: 0 }));
    assert_eq!(img.get(1, 0), Some(ARGB { red: 0, green: 0xFF, blue: 0, alpha: 0 }));
    assert_eq!(img.get(0, 1), Some(ARGB { red: 0, green: 0xFF, blue: 0, alpha: 0 }));
    assert_eq!(img.get(1, 1), Some(ARGB { red: 0xFF, green: 0, blue: 0, alpha: 0 }));
}

#[test]
fn mirrored_columns_negative_width() {
    let mut bytes = indexed_bytes_2x2();
    // width field at offset 18: -2 as little-endian i32
    bytes[18] = 0xFE;
    bytes[19] = 0xFF;
    bytes[20] = 0xFF;
    bytes[21] = 0xFF;
    let bitmap = decode(&bytes).unwrap();
    assert_eq!(bitmap.info_header.width, -2);
    let img = bitmap_to_image(&bitmap).unwrap();
    let straight = bitmap_to_image(&decode(&indexed_bytes_2x2()).unwrap()).unwrap();
    // columns reversed within each row
    assert_eq!(img.get(0, 0), straight.get(1, 0));
    assert_eq!(img.get(1, 0), straight.get(0, 0));
    assert_eq!(img.get(0, 1), straight.get(1, 1));
    assert_eq!(img.get(1, 1), straight.get(0, 1));
}

#[test]
fn truncated_final_scanline_tolerated() {
    // Dropping the last two bytes leaves a partial final scanline; the
    // decoder keeps what is there instead of failing.
    let mut bytes = indexed_bytes_2x2();
    bytes.truncate(bytes.len() - 2);
    let bitmap = decode(&bytes).unwrap();
    match &bitmap.pixels.pixels {
        BitmapPixelData::Indices(v) => assert_eq!(v, &vec![0u8, 1, 1, 0]),
        BitmapPixelData::Colors(_) => panic!("expected indexed pixel data"),
    }
}

#[test]
fn decode_error_cases() {
    assert_eq!(decode(&vec![0u8; 10]), Err(ParseError::TruncatedHeader));

    let (bytes, _, _) = scenario_24();
    let mut bad_offset = bytes.clone();
    bad_offset[10] = 10; // data offset = 10, inside the headers
    assert_eq!(decode(&bad_offset), Err(ParseError::DataOffsetInsideHeader));

    let mut past_end = bytes.clone();
    past_end[10] = 0xFF;
    past_end[11] = 0xFF; // data offset far past the buffer
    assert_eq!(decode(&past_end), Err(ParseError::ColorTablePastEnd));

    let mut sixteen = bytes.clone();
    sixteen[28] = 16; // bit depth 16
    assert_eq!(decode(&sixteen), Err(ParseError::UnsupportedBitDepth(16)));

    let mut odd = bytes.clone();
    odd[28] = 13; // bit depth 13
    assert_eq!(decode(&odd), Err(ParseError::UnsupportedBitDepth(13)));
}

#[test]
fn convert_error_cases() {
    let (_, bitmap, _) = scenario_24();
    let mut short = bitmap.clone();
    match &mut short.pixels.pixels {
        BitmapPixelData::Colors(v) => {
            v.truncate(3);
        }
        BitmapPixelData::Indices(_) => panic!("expected direct pixel data"),
    }
    assert_eq!(bitmap_to_image(&short), Err(ConvertError::MissingPixelData));

    let indexed = decode(&indexed_bytes_2x2()).unwrap();
    let mut bad_index = indexed.clone();
    match &mut bad_index.pixels.pixels {
        BitmapPixelData::Indices(v) => v[0] = 200,
        BitmapPixelData::Colors(_) => panic!("expected indexed pixel data"),
    }
    assert_eq!(bitmap_to_image(&bad_index), Err(ConvertError::IndexOutOfRange));
}

#[test]
fn encode_error_too_large() {
    let image = Image::new_pixels((i32::MAX as usize) + 1, 0, Vec::new());
    let options = BitmapConvertData {
        bit_depth: 24,
        compression: 0,
        x_pixels_per_meter: 0,
        y_pixels_per_meter: 0,
    };
    assert_eq!(image_to_bitmap(&image, &options), Err(EncodeError::ImageTooLarge));
}

#[test]
fn distance_metrics() {
    let a = rgb(10, 20, 30);
    let b = rgb(13, 16, 30);
    assert_eq!(a.distance_euclidean_sq(&a), 0);
    assert_eq!(a.distance_manhattan(&a), 0);
    assert_eq!(a.distance_euclidean_sq(&b), 9 + 16);
    assert_eq!(a.distance_manhattan(&b), 7);
    assert_eq!(a.distance_manhattan(&b), b.distance_manhattan(&a));
    assert_eq!(a.distance_euclidean_sq(&b), b.distance_euclidean_sq(&a));
}

#[test]
fn color_packing() {
    let c = ARGB { alpha: 0x11, red: 0x22, green: 0x33, blue: 0x44 };
    assert_eq!(c.as_u32(false), 0x11223344);
    assert_eq!(c.as_u32(true), 0x44332211);
    assert_eq!(ARGB::from_u32(0x11223344, false), c);
    assert_eq!(ARGB::from_u32(0x44332211, true), c);
    assert_eq!(c.with_alpha(0xAA).alpha, 0xAA);
    assert_eq!(c.with_red(0xAB).red, 0xAB);
    assert_eq!(c.with_green(0xAC).green, 0xAC);
    assert_eq!(c.with_blue(0xAD).blue, 0xAD);
    assert_eq!(c.with_blue(0xAD).red, 0x22);
}

#[test]
fn bit_slice_reduction() {
    assert_eq!(u16::reduce_bit_slice(&[0x42, 0x4D]), 0x4D42);
    assert_eq!(u32::reduce_bit_slice(&[0x66, 0x00, 0x00, 0x00]), 0x66);
    assert_eq!(i32::reduce_bit_slice(&[0xFE, 0xFF, 0xFF, 0xFF]), -2);
}

#[test]
fn image_accessors() {
    let mut img = Image::new(2, 2);
    assert_eq!(img.length(), 4);
    img.set(rgb(5, 6, 7), 1, 0);
    assert_eq!(img.get(1, 0), Some(rgb(5, 6, 7)));
    assert_eq!(img.get(2, 0), None);
    assert_eq!(img.get(0, 2), None);
    img.set(rgb(8, 9, 10), 0, 1);
    assert_eq!(img.row(1)[0], rgb(8, 9, 10));
    let mut it = img.iter();
    let first = it.next_row().unwrap().to_vec();
    assert_eq!(first[1], rgb(5, 6, 7));
    let second = it.next_row().unwrap().to_vec();
    assert_eq!(second[0], rgb(8, 9, 10));
    assert!(it.next_row().is_none());
}

#[test]
fn bitmap_accessors() {
    let (_, bitmap, _) = scenario_24();
    assert_eq!(bitmap.color_table_color(0), None);
    let indexed = decode(&indexed_bytes_2x2()).unwrap();
    assert_eq!(
        indexed.color_table_color(0),
        Some(ARGB { red: 0xFF, green: 0, blue: 0, alpha: 0 })
    );
    assert_eq!(indexed.color_table_color(5), None);
    let data = BitmapConvertData::from_bitmap(&bitmap);
    assert_eq!(data.bit_depth, 24);
    assert_eq!(data.compression, 0);
    assert_eq!(data.x_pixels_per_meter, 3780);
    assert_eq!(data.y_pixels_per_meter, 3780);
}

#[test]
fn unsupported_conversions() {
    assert!(conversion_supported(ColorSpaceKind::Direct, ColorSpaceKind::Xyz));
    assert!(conversion_supported(ColorSpaceKind::Direct, ColorSpaceKind::Lab));
    assert!(conversion_supported(ColorSpaceKind::Xyz, ColorSpaceKind::Lab));
    assert!(conversion_supported(ColorSpaceKind::Direct, ColorSpaceKind::Hsv));
    assert!(check_conversion(ColorSpaceKind::Lab, ColorSpaceKind::Direct).is_err());
    assert!(check_conversion(ColorSpaceKind::Hsv, ColorSpaceKind::Direct).is_err());
    assert!(check_conversion(ColorSpaceKind::Hsv, ColorSpaceKind::Xyz).is_err());
    assert!(check_conversion(ColorSpaceKind::Hsv, ColorSpaceKind::Lab).is_err());
    assert!(check_conversion(ColorSpaceKind::Xyz, ColorSpaceKind::Hsv).is_err());
    assert!(check_conversion(ColorSpaceKind::Lab, ColorSpaceKind::Hsv).is_err());
    assert!(check_conversion(ColorSpaceKind::Xyz, ColorSpaceKind::Direct).is_err());
    let err = check_conversion(ColorSpaceKind::Lab, ColorSpaceKind::Direct).unwrap_err();
    assert_eq!(err.from, ColorSpaceKind::Lab);
    assert_eq!(err.to, ColorSpaceKind::Direct);
}

#[test]
fn pixel_width_common_divisor() {
    let settings = WriteImageToConsoleSettings {
        use_truecolor: false,
        pixels: vec![String::from("ab"), String::from("abab")],
    };
    assert_eq!(settings.pixel_width(), 2);

    // Grapheme clusters, not bytes or chars: "a\u{310}e\u{301}" paints two
    // cells though it holds four chars and six bytes.
    let settings = WriteImageToConsoleSettings {
        use_truecolor: false,
        pixels: vec![String::from("a\u{310}e\u{301}")],
    };
    assert_eq!(settings.pixel_width(), 2);

    let empty = WriteImageToConsoleSettings { use_truecolor: false, pixels: Vec::new() };
    assert_eq!(empty.pixel_width(), 0);
}

#[test]
fn nearest_console_colors() {
    assert_eq!(nearest_console_color(&ARGB { red: 0, green: 0, blue: 0, alpha: 0 }), None);
    assert_eq!(nearest_console_color(&rgb(0xFF, 0, 0)), Some(0xFF0000));
    assert_eq!(nearest_console_color(&rgb(0xF0, 0x05, 0x05)), Some(0xFF0000));
    assert_eq!(nearest_console_color(&rgb(0, 0, 0)), Some(0x000000));
    assert_eq!(nearest_console_color(&rgb(0xFF, 0xFF, 0xFF)), Some(0xFFFFFF));
}

#[test]
fn argument_values() {
    let flag = Arg::Flag(String::from("verbose"));
    assert_eq!(flag.to_key_value_pair(), (String::from("verbose"), String::from("true")));
    let pair = Arg::Pair(String::from("path"), String::from("img.bmp"));
    assert_eq!(pair.to_key_value_pair(), (String::from("path"), String::from("img.bmp")));

    let settings = ParseArgsSettings::new();
    assert_eq!(settings.prefix(), "");
    assert_eq!(settings.delimiter(), "=");
    let mut settings = ParseArgsSettings::init(String::from("/"), String::from(":"));
    assert_eq!(settings.prefix(), "/");
    assert_eq!(settings.delimiter(), ":");
    settings.with_prefix(String::from("--"));
    assert_eq!(settings.prefix(), "--");
    settings.with_delimiter(String::from("="));
    assert_eq!(settings.delimiter(), "=");
    assert_eq!(OutputType::default(), OutputType::OutputToConsole);
}
