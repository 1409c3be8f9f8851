use cega::image::Image;
use cega::parser::{decode, encode, image_type_from_str, FormatError};
use cega::ImageType;

fn cga_fullscreen_bytes() -> Vec<u8> {
    // 320 pixels wide -> 80 bytes per scanline; 200 scanlines -> 16000 bytes.
    let mut bytes = Vec::new();
    for i in 0..16000usize {
        bytes.push((i % 251) as u8);
    }
    bytes
}

fn ega_fullscreen_bytes() -> Vec<u8> {
    // 4 planes * 40 bytes per plane per row * 200 rows -> 32000 bytes.
    let mut bytes = Vec::new();
    for i in 0..32000usize {
        bytes.push((i % 239) as u8);
    }
    bytes
}

#[test]
fn cga_fullscreen_scenario() {
    let bytes = cga_fullscreen_bytes();
    let image = Image::new(&bytes, 320, ImageType::CGA).unwrap();
    assert_eq!(image.width, 320);
    assert_eq!(image.height(), 200);
    assert!(image.is_fullscreen());
    for row in &image.data {
        assert_eq!(row.len(), 320);
        for &px in row {
            assert!(px < 4);
        }
    }
}

#[test]
fn ega_fullscreen_scenario() {
    let bytes = ega_fullscreen_bytes();
    let image = Image::new(&bytes, 320, ImageType::EGA).unwrap();
    assert_eq!(image.width, 320);
    assert_eq!(image.height(), 200);
    for row in &image.data {
        assert_eq!(row.len(), 320);
        for &px in row {
            assert!(px < 16);
        }
    }
}

#[test]
fn cga_pixel_count_is_width_times_height() {
    let bytes = cga_fullscreen_bytes();
    let image = Image::new(&bytes, 320, ImageType::CGA).unwrap();
    let total: usize = image.data.iter().map(|row| row.len()).sum();
    assert_eq!(total, 320 * 200);
}

#[test]
fn cga_decode_interleaves_scanlines() {
    // Two scanlines of four pixels each: the first byte holds the even
    // (top) scanline, the second byte the odd one.
    let bytes = vec![0b00011011u8, 0b11100100u8];
    let grid = decode(&bytes, 4, ImageType::CGA).unwrap();
    assert_eq!(grid, vec![vec![0, 1, 2, 3], vec![3, 2, 1, 0]]);
}

#[test]
fn cga_decode_even_rows_first_half() {
    // Four scanlines: storage order is rows 0, 2 then rows 1, 3.
    let bytes = vec![0b00000000u8, 0b10101010, 0b01010101, 0b11111111];
    let grid = decode(&bytes, 4, ImageType::CGA).unwrap();
    assert_eq!(
        grid,
        vec![
            vec![0, 0, 0, 0],
            vec![1, 1, 1, 1],
            vec![2, 2, 2, 2],
            vec![3, 3, 3, 3],
        ]
    );
}

#[test]
fn ega_decode_combines_planes() {
    // One row of eight pixels; plane 0 sets bit 0 of the leftmost pixel,
    // plane 3 sets bit 3 of the rightmost pixel.
    let bytes = vec![0b10000000u8, 0b00000000, 0b00000000, 0b00000001];
    let grid = decode(&bytes, 8, ImageType::EGA).unwrap();
    assert_eq!(grid, vec![vec![1, 0, 0, 0, 0, 0, 0, 8]]);
}

#[test]
fn cga_encode_packs_and_interleaves() {
    let grid = vec![vec![0u8, 1, 2, 3], vec![3, 2, 1, 0]];
    let bytes = encode(&grid, 4, ImageType::CGA);
    assert_eq!(bytes, vec![0b00011011u8, 0b11100100]);
}

#[test]
fn cga_round_trip() {
    let mut grid = Vec::new();
    for r in 0..6usize {
        let mut row = Vec::new();
        for c in 0..8usize {
            row.push(((r + c) % 4) as u8);
        }
        grid.push(row);
    }
    let bytes = encode(&grid, 8, ImageType::CGA);
    let back = decode(&bytes, 8, ImageType::CGA).unwrap();
    assert_eq!(back, grid);
}

#[test]
fn ega_round_trip() {
    let mut grid = Vec::new();
    for r in 0..5usize {
        let mut row = Vec::new();
        for c in 0..16usize {
            row.push(((r * 3 + c) % 16) as u8);
        }
        grid.push(row);
    }
    let bytes = encode(&grid, 16, ImageType::EGA);
    let back = decode(&bytes, 16, ImageType::EGA).unwrap();
    assert_eq!(back, grid);
}

#[test]
fn decode_rejects_zero_width() {
    let bytes = vec![0u8; 16];
    assert_eq!(
        decode(&bytes, 0, ImageType::CGA),
        Err(FormatError::ZeroWidth)
    );
    assert_eq!(
        decode(&bytes, 0, ImageType::EGA),
        Err(FormatError::ZeroWidth)
    );
}

#[test]
fn decode_rejects_bad_length() {
    // Width 4 needs whole pairs of 1-byte scanlines for CGA.
    let bytes = vec![0u8; 3];
    assert_eq!(
        decode(&bytes, 4, ImageType::CGA),
        Err(FormatError::LengthMismatch)
    );
    // Width 8 needs multiples of 4 bytes for EGA row-planar.
    let bytes = vec![0u8; 6];
    assert_eq!(
        decode(&bytes, 8, ImageType::EGA),
        Err(FormatError::LengthMismatch)
    );
}

#[test]
fn decode_accepts_empty_buffer() {
    let bytes = Vec::new();
    let grid = decode(&bytes, 4, ImageType::CGA).unwrap();
    assert!(grid.is_empty());
}

#[test]
fn nonaligned_width_uses_ceil_byte_rule() {
    // Width 3: one byte per CGA scanline; the fourth two-bit field of
    // each byte is padding and is not part of the row.
    let bytes = vec![0b00011011u8, 0b11100100u8];
    let grid = decode(&bytes, 3, ImageType::CGA).unwrap();
    assert_eq!(grid, vec![vec![0, 1, 2], vec![3, 2, 1]]);
    // Re-encoding zeroes the padding bits: lossy for the dropped field.
    let bytes2 = encode(&grid, 3, ImageType::CGA);
    assert_eq!(bytes2, vec![0b00011000u8, 0b11100100u8]);
}

#[test]
fn format_selector_names() {
    assert_eq!(image_type_from_str("cga"), Ok(ImageType::CGA));
    assert_eq!(image_type_from_str("ega_row_planar"), Ok(ImageType::EGA));
    assert_eq!(image_type_from_str("erp"), Ok(ImageType::EGA));
    assert_eq!(
        image_type_from_str("tga"),
        Err(FormatError::UnknownFormat)
    );
}
