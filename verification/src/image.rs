//! The decoded image: a pixel grid with its width, format tag and derived
//! geometry queries.

use vstd::prelude::*;

use crate::grid_indices_below;
use crate::grid_uniform;
use crate::parser;
use crate::parser::FormatError;
use crate::ImageType;
use crate::RawGrid;

verus! {

/// Total number of palette indices held by a grid: the sum of its row
/// lengths.
pub open spec fn total_pixels(g: Seq<Seq<u8>>) -> nat
    decreases g.len(),
{
    if g.len() == 0 {
        0
    } else {
        total_pixels(g.drop_last()) + g.last().len()
    }
}

/// A grid of uniform row length holds `rows * width` pixels.
pub proof fn lemma_uniform_total_pixels(g: Seq<Seq<u8>>, width: nat)
    requires
        grid_uniform(g, width),
    ensures
        total_pixels(g) == g.len() * width,
    decreases g.len(),
{
    if g.len() == 0 {
    } else {
        let rest = g.drop_last();
        assert(grid_uniform(rest, width));
        lemma_uniform_total_pixels(rest, width);
        assert((g.len() - 1) * width + width == g.len() * width) by (nonlinear_arith);
    }
}

/// A decoded (or retiled) image: the grid, its width and its format.
///
/// The invariant `wf` ties the parts together: the width is positive,
/// every row holds exactly `width` indices, and every index selects an
/// entry of the format's palette.  The height is derived: it is the
/// number of rows, so `width * height` always equals the total pixel
/// count of a well-formed image.
pub struct Image {
    /// The decoded pixel grid, rows top to bottom.
    pub data: RawGrid,
    /// Pixels per row.
    pub width: usize,
    /// The binary layout the buffer was decoded from.
    pub image_type: ImageType,
}

impl Image {
    /// The grid as a mathematical sequence of rows.
    pub open spec fn grid(self) -> Seq<Seq<u8>> {
        self.data.deep_view()
    }

    /// Rows of the image.
    pub open spec fn spec_height(self) -> nat {
        self.grid().len()
    }

    /// Well-formedness: positive width, uniform rows, in-range indices.
    pub open spec fn wf(self) -> bool {
        &&& self.width > 0
        &&& grid_uniform(self.grid(), self.width as nat)
        &&& grid_indices_below(self.grid(), self.image_type.spec_palette_size())
    }

    /// Rows of the image.
    pub fn height(&self) -> (h: usize)
        ensures
            h == self.spec_height(),
    {
        self.data.len()
    }

    /// Decodes a raw byte buffer into an image.
    ///
    /// Succeeds exactly when `parser::decode` does, and then establishes
    /// the image invariant.
    pub fn new(bytes: &Vec<u8>, width: usize, image_type: ImageType) -> (res: Result<
        Image,
        FormatError,
    >)
        ensures
            match res {
                Ok(img) => {
                    &&& parser::decode_valid(bytes@.len(), width as nat, image_type)
                    &&& img.wf()
                    &&& img.width == width
                    &&& img.image_type == image_type
                    &&& img.grid() == parser::decode_spec(bytes@, width as nat, image_type)
                    &&& img.spec_height() == parser::decode_height(
                        bytes@.len(),
                        width as nat,
                        image_type,
                    )
                },
                Err(e) => {
                    &&& !parser::decode_valid(bytes@.len(), width as nat, image_type)
                    &&& (e == FormatError::ZeroWidth <==> width == 0)
                    &&& (e == FormatError::LengthMismatch <==> width != 0)
                },
            },
            res is Ok <==> parser::decode_valid(bytes@.len(), width as nat, image_type),
    {
        let data = match parser::decode(bytes, width, image_type) {
            Ok(grid) => grid,
            Err(e) => {
                return Err(e);
            },
        };
        proof {
            parser::lemma_decoded_pixels_in_range(bytes@, width as nat, image_type);
        }
        Ok(Image { data, width, image_type })
    }

    /// The canonical full-screen mode of the source hardware.
    pub fn is_fullscreen(&self) -> (b: bool)
        ensures
            b <==> (self.width == 320 && self.spec_height() == 200),
    {
        self.width == 320 && self.height() == 200
    }

    /// Whether the image is at least four times as tall as it is wide: a
    /// hint that it is really a stack of tiles.
    pub fn is_tall(&self) -> (b: bool)
        ensures
            b <==> self.spec_height() >= 4 * self.width,
    {
        let h = self.height();
        let quarter = h / 4;
        proof {
            vstd::arithmetic::div_mod::lemma_fundamental_div_mod(h as int, 4);
            if h >= 4 * self.width {
                vstd::arithmetic::div_mod::lemma_div_is_ordered(
                    4 * self.width as int,
                    h as int,
                    4,
                );
                vstd::arithmetic::div_mod::lemma_div_multiples_vanish(self.width as int, 4);
            }
        }
        quarter >= self.width
    }

    /// Candidate tile widths: the proper divisors of the current width.
    pub fn width_factors(&self) -> (v: Vec<usize>)
        ensures
            is_proper_divisor_list(v@, self.width as nat),
    {
        proper_divisors(self.width)
    }

    /// Candidate tile heights: the proper divisors of the current height.
    pub fn height_factors(&self) -> (v: Vec<usize>)
        ensures
            is_proper_divisor_list(v@, self.spec_height()),
    {
        proper_divisors(self.height())
    }
}

/// The list holds exactly the divisors of `n` strictly between 1 and `n`,
/// in ascending order; in particular it never holds 0, and every entry
/// divides `n` evenly.
pub open spec fn is_proper_divisor_list(v: Seq<usize>, n: nat) -> bool {
    &&& forall|i: int| 0 <= i < v.len() ==> 1 < #[trigger] v[i] < n && n % v[i] as nat == 0
    &&& forall|d: usize| 1 < d < n && n % d as nat == 0 ==> v.contains(d)
    &&& forall|i: int, j: int| 0 <= i < j < v.len() ==> v[i] < v[j]
}

/// All divisors of `n` strictly between 1 and `n`, ascending.
#[verifier::loop_isolation(false)]
pub fn proper_divisors(n: usize) -> (v: Vec<usize>)
    ensures
        is_proper_divisor_list(v@, n as nat),
{
    let mut v: Vec<usize> = Vec::new();
    if n < 2 {
        return v;
    }
    let mut d: usize = 2;
    while d < n
        invariant
            2 <= d <= n,
            forall|i: int| 0 <= i < v@.len() ==> 1 < #[trigger] v@[i] < d && n as nat % v@[i] as nat == 0,
            forall|e: usize| 1 < e < d && n as nat % e as nat == 0 ==> v@.contains(e),
            forall|i: int, j: int| 0 <= i < j < v@.len() ==> v@[i] < v@[j],
        decreases n - d,
    {
        let ghost pre = v@;
        let divides = n % d == 0;
        if divides {
            v.push(d);
        }
        proof {
            if divides {
                assert(v@ == pre.push(d));
                assert(v@[pre.len() as int] == d);
                assert(v@.contains(d));
            }
            assert forall|e: usize| 1 < e < d + 1 && n as nat % e as nat == 0 implies v@.contains(
                e,
            ) by {
                if e < d {
                    assert(pre.contains(e));
                    let i = choose|i: int| 0 <= i < pre.len() && pre[i] == e;
                    assert(v@[i] == e);
                } else {
                    assert(e == d);
                }
            }
        }
        d += 1;
    }
    v
}

/// For every well-formed image, the width times the height is exactly the
/// total decoded pixel count, and every row holds exactly `width` pixels.
pub proof fn lemma_image_area(img: Image)
    requires
        img.wf(),
    ensures
        img.width * img.spec_height() == total_pixels(img.grid()),
        forall|r: int| 0 <= r < img.spec_height() ==> img.grid()[r].len() == img.width,
{
    lemma_uniform_total_pixels(img.grid(), img.width as nat);
    assert(img.spec_height() * img.width == img.width * img.spec_height()) by (nonlinear_arith);
}

} // verus!
