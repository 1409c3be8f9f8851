use cega::image::{proper_divisors, Image};
use cega::tiling::{tile, TileError};
use cega::ImageType;

fn image_of_size(width: usize, height: usize) -> Image {
    // A CGA buffer of `height` scanlines, `width / 4` bytes each.
    let bytes = vec![0u8; width / 4 * height];
    Image::new(&bytes, width, ImageType::CGA).unwrap()
}

#[test]
fn fullscreen_only_at_320_by_200() {
    assert!(image_of_size(320, 200).is_fullscreen());
    assert!(!image_of_size(160, 100).is_fullscreen());
    assert!(!image_of_size(320, 100).is_fullscreen());
    assert!(!image_of_size(160, 200).is_fullscreen());
}

#[test]
fn tall_at_four_times_width() {
    assert!(image_of_size(16, 64).is_tall());
    assert!(image_of_size(16, 100).is_tall());
    assert!(!image_of_size(16, 62).is_tall());
    assert!(!image_of_size(320, 200).is_tall());
}

#[test]
fn width_factors_of_fullscreen() {
    let image = image_of_size(320, 200);
    assert_eq!(
        image.width_factors(),
        vec![2, 4, 5, 8, 10, 16, 20, 32, 40, 64, 80, 160]
    );
    assert_eq!(
        image.height_factors(),
        vec![2, 4, 5, 8, 10, 20, 25, 40, 50, 100]
    );
}

#[test]
fn factors_divide_their_dimension() {
    for n in [1usize, 2, 7, 24, 97, 200] {
        for d in proper_divisors(n) {
            assert!(d != 0);
            assert!(d > 1 && d < n);
            assert_eq!(n % d, 0);
        }
    }
    assert!(proper_divisors(0).is_empty());
    assert!(proper_divisors(1).is_empty());
    assert!(proper_divisors(7).is_empty());
}

fn stacked_tiles(width: usize, tile_height: usize, count: usize) -> Vec<Vec<u8>> {
    // Tile t is filled with the value t modulo 4.
    let mut grid = Vec::new();
    for t in 0..count {
        for _ in 0..tile_height {
            grid.push(vec![(t % 4) as u8; width]);
        }
    }
    grid
}

#[test]
fn tiling_scenario_strips() {
    // 20 tiles of 64x40 packed 4 to a strip of 256: 5 strips of 40 rows.
    let grid = stacked_tiles(64, 40, 20);
    assert_eq!(grid.len(), 800);
    let out = tile(&grid, 64, 40, 256).unwrap();
    assert_eq!(out.len(), 200);
    for row in &out {
        assert_eq!(row.len(), 256);
    }
    // The first strip's leftmost 64 columns are the first tile, unchanged.
    for r in 0..40 {
        for c in 0..64 {
            assert_eq!(out[r][c], grid[r][c]);
        }
    }
    // The first strip then continues with tiles 1, 2 and 3.
    assert_eq!(out[0][64], 1);
    assert_eq!(out[0][128], 2);
    assert_eq!(out[0][192], 3);
    // The second strip starts with tile 4 (value 0 again).
    assert_eq!(out[40][0], 0);
    assert_eq!(out[40][64], 1);
}

#[test]
fn tiling_identity() {
    let grid = vec![vec![1u8, 2, 3], vec![0, 1, 2]];
    let out = tile(&grid, 3, 2, 3).unwrap();
    assert_eq!(out, grid);
    let wider = tile(&grid, 3, 2, 100).unwrap();
    assert_eq!(wider, grid);
}

#[test]
fn tiling_pads_last_strip_with_zero() {
    // Three 2x1 tiles, two per strip: the second strip's right half is
    // zero-filled.
    let grid = vec![vec![1u8, 1], vec![2, 2], vec![3, 3]];
    let out = tile(&grid, 2, 1, 4).unwrap();
    assert_eq!(out, vec![vec![1, 1, 2, 2], vec![3, 3, 0, 0]]);
}

#[test]
fn tiling_fails_on_zero_tile_height() {
    let grid = stacked_tiles(4, 2, 3);
    assert_eq!(tile(&grid, 4, 0, 8), Err(TileError::ZeroTileHeight));
}

#[test]
fn tiling_fails_on_non_dividing_height() {
    let grid = stacked_tiles(4, 2, 5);
    assert_eq!(grid.len(), 10);
    assert_eq!(tile(&grid, 4, 3, 8), Err(TileError::HeightNotDivisible));
    assert_eq!(tile(&grid, 4, 7, 8), Err(TileError::HeightNotDivisible));
}

#[test]
fn tiling_fails_on_narrow_max_width() {
    let grid = stacked_tiles(4, 2, 3);
    assert_eq!(tile(&grid, 4, 2, 3), Err(TileError::MaxWidthTooSmall));
}

#[test]
fn retile_produces_compact_image() {
    // A 4x8 CGA image treated as four 4x2 tiles, two per strip of 8.
    let bytes = vec![0b00000000u8, 0b01010101, 0b10101010, 0b11111111];
    let image = Image::new(&bytes, 4, ImageType::CGA).unwrap();
    assert_eq!(image.height(), 4);
    let out = image.retile(1, 8).unwrap();
    assert_eq!(out.width, 8);
    assert_eq!(out.height(), 2);
    assert_eq!(out.image_type, ImageType::CGA);
    assert_eq!(
        out.data,
        vec![vec![0, 0, 0, 0, 2, 2, 2, 2], vec![1, 1, 1, 1, 3, 3, 3, 3]]
    );
}
