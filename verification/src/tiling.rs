//! The tiling engine: reinterprets a grid as a vertical stack of
//! equal-height tiles and repacks them into horizontal strips.
//!
//! Tiles are taken top to bottom and placed left to right into the current
//! strip; when the next tile would push the strip past `max_width`, a new
//! strip is started below.  Cells of the last strip that lie beyond the
//! final tile are filled with index zero.

use vstd::prelude::*;

use crate::grid_indices_below;
use crate::grid_uniform;
use crate::image::Image;
use crate::RawGrid;

verus! {

/// Why a grid could not be retiled.
#[derive(Clone, Copy, Debug, PartialEq, Eq, Structural)]
pub enum TileError {
    /// The tile height was zero.
    ZeroTileHeight,
    /// The tile height does not evenly divide the grid's height.
    HeightNotDivisible,
    /// The maximum strip width cannot hold even one tile.
    MaxWidthTooSmall,
}

/// Integer division rounding up.
pub open spec fn div_ceil(a: nat, b: nat) -> nat {
    a / b + if a % b == 0 {
        0
    } else {
        1nat
    }
}

/// Whether a grid can be retiled with the given parameters.
pub open spec fn tile_ok(g: Seq<Seq<u8>>, width: nat, th: nat, mw: nat) -> bool {
    th > 0 && g.len() % th == 0 && mw >= width
}

/// Tiles the stack is cut into.
pub open spec fn spec_num_tiles(g: Seq<Seq<u8>>, th: nat) -> nat {
    g.len() / th
}

/// Tiles that fit side by side in one strip.
pub open spec fn spec_tiles_per_strip(width: nat, mw: nat) -> nat {
    mw / width
}

/// Width of the repacked grid: a full strip of tiles, or fewer when the
/// whole stack fits in one strip.
pub open spec fn spec_out_width(g: Seq<Seq<u8>>, width: nat, th: nat, mw: nat) -> nat {
    let nt = spec_num_tiles(g, th);
    let tps = spec_tiles_per_strip(width, mw);
    (if nt < tps {
        nt
    } else {
        tps
    }) * width
}

/// Strips the tiles are packed into.
pub open spec fn spec_num_strips(g: Seq<Seq<u8>>, width: nat, th: nat, mw: nat) -> nat {
    div_ceil(spec_num_tiles(g, th), spec_tiles_per_strip(width, mw))
}

/// The repacked grid: row `r`, column `c` shows row `r % th` of tile
/// `(r / th) * tps + c / width`, or zero past the last tile.
pub open spec fn tile_spec(g: Seq<Seq<u8>>, width: nat, th: nat, mw: nat) -> Seq<Seq<u8>> {
    let nt = spec_num_tiles(g, th);
    let tps = spec_tiles_per_strip(width, mw);
    Seq::new(
        spec_num_strips(g, width, th, mw) * th,
        |r: int|
            Seq::new(
                spec_out_width(g, width, th, mw),
                |c: int|
                    {
                        let t = (r / th as int) * tps as int + c / width as int;
                        if t < nt {
                            g[t * th as int + r % th as int][c % width as int]
                        } else {
                            0
                        }
                    },
            ),
    )
}

/// Repacks a stack of tiles into strips.
///
/// Fails exactly when the tile height is zero or does not divide the
/// grid's height, or when `max_width` cannot hold one tile; otherwise the
/// result is the repacked grid, cell for cell.
#[verifier::loop_isolation(false)]
pub fn tile(grid: &RawGrid, width: usize, tile_height: usize, max_width: usize) -> (res: Result<
    RawGrid,
    TileError,
>)
    requires
        width > 0,
        grid_uniform(grid.deep_view(), width as nat),
        grid@.len() * width <= usize::MAX,
    ensures
        match res {
            Ok(out) => tile_ok(grid.deep_view(), width as nat, tile_height as nat, max_width as nat)
                && out.deep_view() == tile_spec(
                grid.deep_view(),
                width as nat,
                tile_height as nat,
                max_width as nat,
            ),
            Err(e) => {
                &&& !tile_ok(grid.deep_view(), width as nat, tile_height as nat, max_width as nat)
                &&& (e == TileError::ZeroTileHeight <==> tile_height == 0)
                &&& (e == TileError::HeightNotDivisible <==> tile_height != 0 && grid@.len()
                    % (tile_height as nat) != 0)
                &&& (e == TileError::MaxWidthTooSmall <==> tile_height != 0 && grid@.len() % (
                tile_height as nat) == 0 && max_width < width)
            },
        },
        res is Ok <==> tile_ok(grid.deep_view(), width as nat, tile_height as nat, max_width as nat),
{
    let ghost g = grid.deep_view();
    let height = grid.len();
    if tile_height == 0 {
        return Err(TileError::ZeroTileHeight);
    }
    if height % tile_height != 0 {
        return Err(TileError::HeightNotDivisible);
    }
    if max_width < width {
        return Err(TileError::MaxWidthTooSmall);
    }
    let nt = height / tile_height;
    let tps = max_width / width;
    proof {
        assert(tps >= 1) by {
            vstd::arithmetic::div_mod::lemma_div_is_ordered(
                width as int,
                max_width as int,
                width as int,
            );
            vstd::arithmetic::div_mod::lemma_div_by_self(width as int);
        }
        assert(nt <= height) by {
            vstd::arithmetic::div_mod::lemma_div_nonincreasing(height as int, tile_height as int);
        }
        assert(nt * tile_height <= height) by {
            vstd::arithmetic::div_mod::lemma_fundamental_div_mod(
                height as int,
                tile_height as int,
            );
        }
    }
    let full = if nt < tps {
        nt
    } else {
        tps
    };
    proof {
        assert(full * width <= height * width) by (nonlinear_arith)
            requires
                full <= height && width >= 0,
        ;
    }
    let ow = full * width;
    proof {
        if nt % tps != 0 {
            if tps == 1 {
                vstd::arithmetic::div_mod::lemma_mod_multiples_basic(nt as int, 1);
            }
            assert(tps >= 2);
            if nt == 0 {
                vstd::arithmetic::div_mod::lemma_small_mod(0, tps as nat);
            }
            assert(nt >= 1);
            assert(nt / tps <= nt / 2) by {
                vstd::arithmetic::div_mod::lemma_div_is_ordered_by_denominator(
                    nt as int,
                    2,
                    tps as int,
                );
            }
            assert(nt / tps + 1 <= nt);
        } else {
            assert(nt / tps <= nt) by {
                vstd::arithmetic::div_mod::lemma_div_nonincreasing(nt as int, tps as int);
            }
        }
    }
    let ns = nt / tps + if nt % tps == 0 {
        0
    } else {
        1
    };
    proof {
        assert(ns == spec_num_strips(g, width as nat, tile_height as nat, max_width as nat));
        assert(ns <= nt);
        assert(ns * tile_height <= nt * tile_height) by (nonlinear_arith)
            requires
                ns <= nt && tile_height >= 0,
        ;
    }
    let out_h = ns * tile_height;
    let mut out: RawGrid = Vec::new();
    let mut r: usize = 0;
    while r < out_h
        invariant
            r <= out_h,
            out@.len() == r,
            forall|rr: int|
                0 <= rr < r ==> out@[rr].deep_view() == tile_spec(
                    g,
                    width as nat,
                    tile_height as nat,
                    max_width as nat,
                )[rr],
        decreases out_h - r,
    {
        let s = r / tile_height;
        let rm = r % tile_height;
        proof {
            assert(s * tps <= nt) by {
                assert(s < ns) by {
                    assert((r as int) < (tile_height as int) * (ns as int)) by (nonlinear_arith)
                        requires
                            (r as int) < (ns as int) * (tile_height as int),
                    ;
                    vstd::arithmetic::div_mod::lemma_multiply_divide_lt(
                        r as int,
                        tile_height as int,
                        ns as int,
                    );
                }
                if nt % tps == 0 {
                    assert(s <= nt / tps - 1);
                    assert((nt / tps) * tps == nt) by {
                        vstd::arithmetic::div_mod::lemma_fundamental_div_mod(nt as int, tps as int);
                    }
                    assert(s * tps <= (nt / tps - 1) * tps) by (nonlinear_arith)
                        requires
                            s <= nt / tps - 1 && tps >= 0,
                    ;
                    assert((nt / tps - 1) * tps == (nt / tps) * tps - tps) by (nonlinear_arith);
                } else {
                    assert(s <= nt / tps);
                    assert((nt / tps) * tps <= nt) by {
                        vstd::arithmetic::div_mod::lemma_fundamental_div_mod(nt as int, tps as int);
                    }
                    assert(s * tps <= (nt / tps) * tps) by (nonlinear_arith)
                        requires
                            s <= nt / tps && tps >= 0,
                    ;
                }
            }
        }
        let t_base = s * tps;
        let mut row: Vec<u8> = Vec::new();
        let mut c: usize = 0;
        while c < ow
            invariant
                c <= ow,
                ow == full * width,
                t_base == s * tps,
                t_base <= nt,
                s as int == r as int / tile_height as int,
                rm as int == r as int % tile_height as int,
                row@.len() == c,
                forall|cc: int|
                    0 <= cc < c ==> row@[cc] == tile_spec(
                        g,
                        width as nat,
                        tile_height as nat,
                        max_width as nat,
                    )[r as int][cc],
            decreases ow - c,
        {
            let cw = c / width;
            let cm = c % width;
            let val: u8 = if t_base >= nt || cw >= nt - t_base {
                0
            } else {
                let t = t_base + cw;
                proof {
                    assert(t * tile_height + rm < height) by (nonlinear_arith)
                        requires
                            t < nt && rm < tile_height && nt * tile_height <= height && tile_height
                                > 0 && t >= 0,
                    ;
                }
                let idx = t * tile_height + rm;
                let source_row = &grid[idx];
                proof {
                    assert(source_row@ == g[idx as int]);
                    assert(source_row@.len() == width);
                }
                source_row[cm]
            };
            proof {
                let spec_row = tile_spec(g, width as nat, tile_height as nat, max_width as nat)[r as int];
                assert(r < ns * tile_height);
                assert(c < spec_out_width(g, width as nat, tile_height as nat, max_width as nat));
                assert(val == spec_row[c as int]);
            }
            row.push(val);
            c += 1;
        }
        proof {
            assert(row@ =~= tile_spec(g, width as nat, tile_height as nat, max_width as nat)[r as int]);
            assert(row.deep_view() =~= row@);
        }
        out.push(row);
        r += 1;
    }
    proof {
        assert(out.deep_view() =~= tile_spec(g, width as nat, tile_height as nat, max_width as nat));
    }
    Ok(out)
}

/// Tiling identity: cutting a grid into a single tile of its own height
/// and packing it into a strip wide enough to hold it returns the grid
/// unchanged.
pub proof fn lemma_tile_identity(g: Seq<Seq<u8>>, width: nat, mw: nat)
    requires
        width > 0,
        g.len() > 0,
        mw >= width,
        grid_uniform(g, width),
    ensures
        tile_ok(g, width, g.len(), mw),
        tile_spec(g, width, g.len(), mw) == g,
{
    let th = g.len();
    let h = g.len() as int;
    assert(h % h == 0) by {
        vstd::arithmetic::div_mod::lemma_mod_self_0(h);
    }
    assert(tile_ok(g, width, th, mw));
    let nt = spec_num_tiles(g, th);
    let tps = spec_tiles_per_strip(width, mw);
    assert(nt == 1) by {
        vstd::arithmetic::div_mod::lemma_div_by_self(h);
    }
    assert(tps >= 1) by {
        vstd::arithmetic::div_mod::lemma_div_is_ordered(width as int, mw as int, width as int);
        vstd::arithmetic::div_mod::lemma_div_by_self(width as int);
    }
    let ow = spec_out_width(g, width, th, mw);
    assert(ow == width) by {
        if nt < tps {
            assert(ow == 1 * width);
        }
    }
    let ns = spec_num_strips(g, width, th, mw);
    assert(ns == 1) by {
        if tps == 1 {
            vstd::arithmetic::div_mod::lemma_div_by_self(tps as int);
            vstd::arithmetic::div_mod::lemma_mod_self_0(tps as int);
        } else {
            vstd::arithmetic::div_mod::lemma_basic_div(1, tps as int);
            vstd::arithmetic::div_mod::lemma_small_mod(1, tps);
        }
    }
    let out = tile_spec(g, width, th, mw);
    assert(out.len() == 1 * th);
    assert forall|r: int, c: int| 0 <= r < h && 0 <= c < width implies out[r][c] == g[r][c] by {
        vstd::arithmetic::div_mod::lemma_basic_div(r, h);
        vstd::arithmetic::div_mod::lemma_small_mod(r as nat, h as nat);
        vstd::arithmetic::div_mod::lemma_basic_div(c, width as int);
        vstd::arithmetic::div_mod::lemma_small_mod(c as nat, width);
        assert(r / h == 0 && r % h == r);
        assert(c / width as int == 0 && c % width as int == c);
        assert(out[r][c] == g[0 * h + r][c]);
    }
    assert(out =~~= g);
}

impl Image {
    /// Repacks this image's stack of tiles into strips, producing a new
    /// image of the same format.
    ///
    /// Fails exactly as `tile` does; on success the new image satisfies
    /// the image invariant, and keeps the old width when the grid was
    /// empty (there were no tiles to pack).
    pub fn retile(&self, tile_height: usize, max_width: usize) -> (res: Result<Image, TileError>)
        requires
            self.wf(),
            self.spec_height() * self.width <= usize::MAX,
        ensures
            match res {
                Ok(img) => {
                    &&& tile_ok(
                        self.grid(),
                        self.width as nat,
                        tile_height as nat,
                        max_width as nat,
                    )
                    &&& img.wf()
                    &&& img.image_type == self.image_type
                    &&& img.grid() == tile_spec(
                        self.grid(),
                        self.width as nat,
                        tile_height as nat,
                        max_width as nat,
                    )
                    &&& img.width as nat == (if self.spec_height() == 0 {
                        self.width as nat
                    } else {
                        spec_out_width(
                            self.grid(),
                            self.width as nat,
                            tile_height as nat,
                            max_width as nat,
                        )
                    })
                },
                Err(e) => {
                    &&& !tile_ok(
                        self.grid(),
                        self.width as nat,
                        tile_height as nat,
                        max_width as nat,
                    )
                    &&& (e == TileError::ZeroTileHeight <==> tile_height == 0)
                    &&& (e == TileError::HeightNotDivisible <==> tile_height != 0
                        && self.spec_height() % tile_height as nat != 0)
                    &&& (e == TileError::MaxWidthTooSmall <==> tile_height != 0
                        && self.spec_height() % tile_height as nat == 0 && max_width < self.width)
                },
            },
            res is Ok <==> tile_ok(
                self.grid(),
                self.width as nat,
                tile_height as nat,
                max_width as nat,
            ),
    {
        let data = match tile(&self.data, self.width, tile_height, max_width) {
            Ok(out) => out,
            Err(e) => {
                return Err(e);
            },
        };
        let height = self.data.len();
        let new_width: usize = if height == 0 {
            self.width
        } else {
            let nt = height / tile_height;
            let tps = max_width / self.width;
            proof {
                assert(nt >= 1) by {
                    if height < tile_height {
                        vstd::arithmetic::div_mod::lemma_small_mod(
                            height as nat,
                            tile_height as nat,
                        );
                    }
                    assert(tile_height <= height);
                    vstd::arithmetic::div_mod::lemma_div_non_zero(
                        height as int,
                        tile_height as int,
                    );
                }
                assert(tps >= 1) by {
                    vstd::arithmetic::div_mod::lemma_div_is_ordered(
                        self.width as int,
                        max_width as int,
                        self.width as int,
                    );
                    vstd::arithmetic::div_mod::lemma_div_by_self(self.width as int);
                }
                assert(nt <= height) by {
                    vstd::arithmetic::div_mod::lemma_div_nonincreasing(
                        height as int,
                        tile_height as int,
                    );
                }
            }
            let full = if nt < tps {
                nt
            } else {
                tps
            };
            proof {
                assert(full * self.width <= height * self.width) by (nonlinear_arith)
                    requires
                        full <= height && self.width >= 0,
                ;
                assert(full * self.width >= 1 * self.width) by (nonlinear_arith)
                    requires
                        full >= 1 && self.width >= 0,
                ;
            }
            full * self.width
        };
        let img = Image { data, width: new_width, image_type: self.image_type };
        proof {
            let ts = tile_spec(
                self.grid(),
                self.width as nat,
                tile_height as nat,
                max_width as nat,
            );
            assert(grid_uniform(img.grid(), img.width as nat)) by {
                if height == 0 {
                    assert(spec_num_tiles(self.grid(), tile_height as nat) == 0) by {
                        vstd::arithmetic::div_mod::lemma_div_of0(tile_height as int);
                    }
                    assert(spec_num_strips(
                        self.grid(),
                        self.width as nat,
                        tile_height as nat,
                        max_width as nat,
                    ) == 0) by {
                        let tps = spec_tiles_per_strip(self.width as nat, max_width as nat);
                        assert(tps >= 1) by {
                            vstd::arithmetic::div_mod::lemma_div_is_ordered(
                                self.width as int,
                                max_width as int,
                                self.width as int,
                            );
                            vstd::arithmetic::div_mod::lemma_div_by_self(self.width as int);
                        }
                        vstd::arithmetic::div_mod::lemma_div_of0(tps as int);
                        vstd::arithmetic::div_mod::lemma_small_mod(0, tps);
                    }
                    assert(ts.len() == 0);
                }
            }
            assert(grid_indices_below(img.grid(), img.image_type.spec_palette_size())) by {
                assert forall|r: int, c: int|
                    0 <= r < ts.len() && 0 <= c < ts[r].len() implies ts[r][c]
                    < img.image_type.spec_palette_size() by {
                    let th = tile_height as int;
                    let tps = spec_tiles_per_strip(self.width as nat, max_width as nat) as int;
                    let nt = spec_num_tiles(self.grid(), tile_height as nat) as int;
                    let t = (r / th) * tps + c / self.width as int;
                    if t < nt {
                        assert(0 <= r % th < th);
                        assert(0 <= c % (self.width as int) < (self.width as int)) by {
                            vstd::arithmetic::div_mod::lemma_mod_division_less_than_divisor(
                                c,
                                self.width as int,
                            );
                        }
                        assert(0 <= t) by {
                            assert(r / th >= 0 && c / self.width as int >= 0);
                            assert((r / th) * tps >= 0) by (nonlinear_arith)
                                requires
                                    r / th >= 0 && tps >= 0,
                            ;
                        }
                        assert(nt * th <= self.spec_height()) by {
                            vstd::arithmetic::div_mod::lemma_fundamental_div_mod(
                                self.spec_height() as int,
                                th,
                            );
                        }
                        assert(t * th + r % th < self.spec_height()) by (nonlinear_arith)
                            requires
                                0 <= t < nt && 0 <= r % th < th && nt * th
                                    <= self.spec_height(),
                        ;
                    }
                }
            }
        }
        Ok(img)
    }
}

} // verus!
