//! Decoder and retiler for legacy planar graphics buffers (CGA, EGA).
//!
//! Raw byte buffers from legacy graphics adapters are decoded into indexed
//! pixel grids, re-encoded bit-for-bit, and reshaped when a tall image is
//! really a vertical stack of equal-height tiles.  Geometry queries and
//! divisor suggestions help a caller guess the right width for a buffer,
//! and a small terminal layer turns a grid into ANSI-colored text.

use vstd::prelude::*;

pub mod color;
pub mod image;
pub mod palette;
pub mod parser;
pub mod terminal;
pub mod text;
pub mod tiling;

verus! {

/// A decoded pixel grid: rows of palette indices, top to bottom.
pub type RawGrid = Vec<Vec<u8>>;

/// A grid of arbitrary cells, same shape as a `RawGrid`.
pub type Grid<T> = Vec<Vec<T>>;

/// An ordered palette: index `i` of a row selects entry `i`.
pub type Palette<T> = Vec<T>;

/// The two supported binary layouts.
#[derive(Clone, Copy, Debug, PartialEq, Eq, Structural)]
pub enum ImageType {
    /// 2 bits per pixel, 4-entry palette, even/odd scanline interleave.
    CGA,
    /// 4 bits per pixel as 4 one-bit planes per row, 16-entry palette.
    EGA,
}

/// Every row of the grid holds exactly `width` palette indices.
pub open spec fn grid_uniform(g: Seq<Seq<u8>>, width: nat) -> bool {
    forall|r: int| 0 <= r < g.len() ==> g[r].len() == width
}

/// Every index in the grid is below `bound`.
pub open spec fn grid_indices_below(g: Seq<Seq<u8>>, bound: nat) -> bool {
    forall|r: int, c: int|
        0 <= r < g.len() && 0 <= c < g[r].len() ==> g[r][c] < bound
}

impl ImageType {
    /// Number of palette entries a decoded index may select.
    pub open spec fn spec_palette_size(self) -> nat {
        match self {
            ImageType::CGA => 4,
            ImageType::EGA => 16,
        }
    }

    /// Number of palette entries a decoded index may select.
    pub fn palette_size(self) -> (n: usize)
        ensures
            n == self.spec_palette_size(),
    {
        match self {
            ImageType::CGA => 4,
            ImageType::EGA => 16,
        }
    }
}

} // verus!
