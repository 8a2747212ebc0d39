use raytracer::hdr::decode_hdr;
use raytracer::hdr::Header;
use raytracer::hdr::HdrError;
use raytracer::image::Rgbe;

/// A valid header for a picture of the given dimensions, with the resolution
/// line's height-before-width field order.
fn header_bytes(height: usize, width: usize) -> Vec<u8> {
    let mut v = Vec::new();
    v.extend_from_slice(b"#?RADIANCE\n");
    v.extend_from_slice(b"FORMAT=32-bit_rle_rgbe\n");
    v.extend_from_slice(b"\n");
    v.extend_from_slice(format!("-Y {} +X {}\n", height, width).as_bytes());
    v
}

/// One scanline of `width` pixels, each plane a single repeat run of one value.
fn repeat_scanline(width: u8, r: u8, g: u8, b: u8, e: u8) -> Vec<u8> {
    let mut v = vec![0x02, 0x02, 0x00, width];
    for value in [r, g, b, e] {
        v.push(128 + width);
        v.push(value);
    }
    v
}

#[test]
fn decode_minimal_repeat_run_stream() {
    // one scanline of four pixels, every plane a single repeat run
    let mut data = header_bytes(1, 4);
    data.extend_from_slice(&repeat_scanline(4, 10, 20, 30, 137));
    let img = decode_hdr(&data).unwrap();
    assert_eq!(img.width, 4);
    assert_eq!(img.height, 1);
    for x in 0..4 {
        assert_eq!(img.get_pixel(x, 0), Rgbe { r: 10, g: 20, b: 30, e: 137 });
    }
    // the RGBE expansion the renderer applies: mantissa * 2^(e - 136)
    let scale = 2.0_f64.powf(137.0 - 136.0);
    assert_eq!(10.0 * scale, 20.0);
    assert_eq!(20.0 * scale, 40.0);
    assert_eq!(30.0 * scale, 60.0);
}

#[test]
fn reject_wrong_signature() {
    let mut data = Vec::new();
    data.extend_from_slice(b"#?RGBE\nFORMAT=32-bit_rle_rgbe\n\n-Y 1 +X 1\n");
    assert!(matches!(decode_hdr(&data), Err(HdrError::FormatError)));
}

#[test]
fn reject_wrong_format_value() {
    let mut data = Vec::new();
    data.extend_from_slice(b"#?RADIANCE\nFORMAT=32-bit_xyze\n\n-Y 1 +X 1\n");
    assert!(matches!(decode_hdr(&data), Err(HdrError::FormatError)));
}

#[test]
fn reject_missing_format_line() {
    let mut data = Vec::new();
    data.extend_from_slice(b"#?RADIANCE\nEXPOSURE=1.0\n\n-Y 1 +X 1\n");
    assert!(matches!(decode_hdr(&data), Err(HdrError::FormatError)));
}

#[test]
fn reject_bad_rle_marker() {
    let mut data = header_bytes(1, 4);
    let mut scanline = repeat_scanline(4, 1, 2, 3, 136);
    scanline[0] = 0x01; // corrupt the marker word
    data.extend_from_slice(&scanline);
    assert!(matches!(decode_hdr(&data), Err(HdrError::DecodeError)));
}

#[test]
fn reject_mismatched_scanline_width() {
    let mut data = header_bytes(1, 4);
    data.extend_from_slice(&repeat_scanline(5, 1, 2, 3, 136));
    assert!(matches!(decode_hdr(&data), Err(HdrError::DecodeError)));
}

#[test]
fn reject_truncated_scanline() {
    let mut data = header_bytes(1, 4);
    let scanline = repeat_scanline(4, 1, 2, 3, 136);
    data.extend_from_slice(&scanline[..scanline.len() - 3]);
    assert!(matches!(decode_hdr(&data), Err(HdrError::DecodeError)));
}

#[test]
fn reject_run_overrunning_scanline() {
    let mut data = header_bytes(1, 4);
    data.extend_from_slice(&[0x02, 0x02, 0x00, 0x04]);
    data.extend_from_slice(&[128 + 5, 9]); // five bytes into a four-byte plane
    assert!(matches!(decode_hdr(&data), Err(HdrError::DecodeError)));
}

#[test]
fn reject_header_without_blank_line() {
    let mut data = Vec::new();
    data.extend_from_slice(b"#?RADIANCE\nFORMAT=32-bit_rle_rgbe\n-Y 1 +X 1\n");
    assert!(matches!(decode_hdr(&data), Err(HdrError::FormatError)));
}

#[test]
fn reject_empty_stream() {
    let data = Vec::new();
    assert!(matches!(decode_hdr(&data), Err(HdrError::FormatError)));
}

#[test]
fn reject_malformed_resolution_line() {
    let mut data = Vec::new();
    data.extend_from_slice(b"#?RADIANCE\nFORMAT=32-bit_rle_rgbe\n\n-Y 1\n");
    assert!(matches!(decode_hdr(&data), Err(HdrError::FormatError)));
}

#[test]
fn parse_header_reads_height_before_width() {
    let data = header_bytes(2, 3);
    let (header, body) = Header::parse_header(&data).unwrap();
    assert_eq!(header, Header { width: 3, height: 2 });
    assert_eq!(body, data.len());
}

#[test]
fn parse_header_ignores_unknown_lines() {
    let mut data = Vec::new();
    data.extend_from_slice(b"#?RADIANCE\n");
    data.extend_from_slice(b"SOFTWARE=probe\n");
    data.extend_from_slice(b"FORMAT=32-bit_rle_rgbe\n");
    data.extend_from_slice(b"EXPOSURE=1.0\n");
    data.extend_from_slice(b"\n");
    data.extend_from_slice(b"-Y 1 +X 2\n");
    let (header, _) = Header::parse_header(&data).unwrap();
    assert_eq!(header, Header { width: 2, height: 1 });
}

#[test]
fn parse_header_accepts_carriage_returns() {
    let mut data = Vec::new();
    data.extend_from_slice(b"#?RADIANCE\r\nFORMAT=32-bit_rle_rgbe\r\n\r\n-Y 1 +X 1\r\n");
    let (header, _) = Header::parse_header(&data).unwrap();
    assert_eq!(header, Header { width: 1, height: 1 });
}

#[test]
fn parse_header_accepts_plus_signed_dimensions() {
    let mut data = Vec::new();
    data.extend_from_slice(b"#?RADIANCE\nFORMAT=32-bit_rle_rgbe\n\n-Y +2 +X +5\n");
    let (header, _) = Header::parse_header(&data).unwrap();
    assert_eq!(header, Header { width: 5, height: 2 });
}

#[test]
fn decode_literal_runs() {
    let mut data = header_bytes(1, 4);
    data.extend_from_slice(&[0x02, 0x02, 0x00, 0x04]);
    data.extend_from_slice(&[4, 1, 2, 3, 4]); // red, one literal run
    data.extend_from_slice(&[2, 5, 6, 2, 7, 8]); // green, two literal runs
    data.extend_from_slice(&[3, 9, 10, 11, 1, 12]); // blue
    data.extend_from_slice(&[4, 140, 141, 142, 143]); // exponent
    let img = decode_hdr(&data).unwrap();
    assert_eq!(img.get_pixel(0, 0), Rgbe { r: 1, g: 5, b: 9, e: 140 });
    assert_eq!(img.get_pixel(1, 0), Rgbe { r: 2, g: 6, b: 10, e: 141 });
    assert_eq!(img.get_pixel(2, 0), Rgbe { r: 3, g: 7, b: 11, e: 142 });
    assert_eq!(img.get_pixel(3, 0), Rgbe { r: 4, g: 8, b: 12, e: 143 });
}

#[test]
fn decode_mixed_runs() {
    let mut data = header_bytes(1, 4);
    data.extend_from_slice(&[0x02, 0x02, 0x00, 0x04]);
    data.extend_from_slice(&[2, 1, 2, 128 + 2, 9]); // red: literal pair then a repeat pair
    data.extend_from_slice(&[0, 0, 128 + 4, 7]); // green: empty literal runs then a repeat
    data.extend_from_slice(&[128 + 1, 3, 3, 4, 5, 6]); // blue: repeat of one then a literal
    data.extend_from_slice(&[128 + 4, 136]); // exponent
    let img = decode_hdr(&data).unwrap();
    assert_eq!(img.get_pixel(0, 0), Rgbe { r: 1, g: 7, b: 3, e: 136 });
    assert_eq!(img.get_pixel(1, 0), Rgbe { r: 2, g: 7, b: 4, e: 136 });
    assert_eq!(img.get_pixel(2, 0), Rgbe { r: 9, g: 7, b: 5, e: 136 });
    assert_eq!(img.get_pixel(3, 0), Rgbe { r: 9, g: 7, b: 6, e: 136 });
}

#[test]
fn decode_two_scanlines() {
    let mut data = header_bytes(2, 3);
    data.extend_from_slice(&repeat_scanline(3, 1, 1, 1, 130));
    data.extend_from_slice(&repeat_scanline(3, 2, 2, 2, 131));
    let img = decode_hdr(&data).unwrap();
    for x in 0..3 {
        assert_eq!(img.get_pixel(x, 0), Rgbe { r: 1, g: 1, b: 1, e: 130 });
        assert_eq!(img.get_pixel(x, 1), Rgbe { r: 2, g: 2, b: 2, e: 131 });
    }
}

#[test]
fn decode_ignores_trailing_bytes() {
    let mut data = header_bytes(1, 2);
    data.extend_from_slice(&repeat_scanline(2, 8, 8, 8, 128));
    data.extend_from_slice(&[0xAA, 0xBB, 0xCC]);
    let img = decode_hdr(&data).unwrap();
    assert_eq!(img.get_pixel(1, 0), Rgbe { r: 8, g: 8, b: 8, e: 128 });
}
