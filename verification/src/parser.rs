//! Binary layout decoder and encoder for the two supported formats.
//!
//! A CGA buffer stores 2-bit pixels, four to a byte, with the even-numbered
//! scanlines in the first half of the buffer and the odd-numbered scanlines
//! in the second half.  An EGA row-planar buffer stores each scanline as four
//! consecutive one-bit planes, plane 0 carrying the least significant bit of
//! each pixel's palette index.

use vstd::prelude::*;

use crate::grid_uniform;
use crate::ImageType;
use crate::RawGrid;

verus! {

/// Why a byte buffer could not be decoded.
#[derive(Clone, Copy, Debug, PartialEq, Eq, Structural)]
pub enum FormatError {
    /// The declared width was zero.
    ZeroWidth,
    /// The buffer length is not a multiple of the format's row unit.
    LengthMismatch,
    /// A format selector string named no known format.
    UnknownFormat,
}

/// Bytes that one CGA scanline occupies: four pixels to a byte, rounded up.
pub open spec fn cga_bytes_per_row(width: nat) -> nat {
    (width + 3) / 4
}

/// Bytes that one EGA bit-plane of one scanline occupies: eight pixels to a
/// byte, rounded up.
pub open spec fn ega_plane_bytes(width: nat) -> nat {
    (width + 7) / 8
}

/// Bytes that one full EGA scanline (all four planes) occupies.
pub open spec fn ega_bytes_per_row(width: nat) -> nat {
    4 * ega_plane_bytes(width)
}

/// Pixel `k` (0 = leftmost) of a CGA-packed byte: bit pairs, most
/// significant pair first.
pub open spec fn cga_pixel_in_byte(b: u8, k: u8) -> u8 {
    (b >> ((6 - 2 * k) as u8)) & 3
}

/// Bit `k` (0 = leftmost, i.e. most significant) of a byte.
pub open spec fn bit_in_byte(b: u8, k: u8) -> u8 {
    (b >> ((7 - k) as u8)) & 1
}

/// Bit `p` of a pixel value: the bit that plane `p` stores.
pub open spec fn plane_bit(v: u8, p: u8) -> u8 {
    (v >> p) & 1
}

/// A CGA buffer is well-formed when the width is positive and whole
/// scanline pairs fill the buffer exactly.
pub open spec fn cga_valid(len: nat, width: nat) -> bool {
    width > 0 && len % (2 * cga_bytes_per_row(width)) == 0
}

/// An EGA buffer is well-formed when the width is positive and whole
/// four-plane scanlines fill the buffer exactly.
pub open spec fn ega_valid(len: nat, width: nat) -> bool {
    width > 0 && len % ega_bytes_per_row(width) == 0
}

/// Scanlines held by a CGA buffer of `len` bytes.
pub open spec fn cga_height(len: nat, width: nat) -> nat {
    len / cga_bytes_per_row(width)
}

/// Scanlines held by an EGA buffer of `len` bytes.
pub open spec fn ega_height(len: nat, width: nat) -> nat {
    len / ega_bytes_per_row(width)
}

/// Index, in storage order, of the scanline that is displayed as row `r`:
/// even rows come from the first half of the buffer, odd rows from the
/// second half.
pub open spec fn cga_source_row(height: nat, r: int) -> int {
    if r % 2 == 0 {
        r / 2
    } else {
        height / 2 + (r - 1) / 2
    }
}

/// Display row of the scanline stored in slot `s`: the first half of the
/// slots holds rows 0, 2, 4, ..., the second half rows 1, 3, 5, ....
pub open spec fn cga_display_row(height: nat, s: int) -> int {
    if s < height / 2 {
        2 * s
    } else {
        2 * (s - height / 2) + 1
    }
}

/// The pixel at display row `r`, column `c` of a CGA buffer.
pub open spec fn cga_pixel(bytes: Seq<u8>, width: nat, r: int, c: int) -> u8 {
    let bpr = cga_bytes_per_row(width) as int;
    let off = cga_source_row(cga_height(bytes.len(), width), r) * bpr + c / 4;
    cga_pixel_in_byte(bytes[off], (c % 4) as u8)
}

/// The pixel at row `r`, column `c` of an EGA row-planar buffer: one bit
/// from each of the four planes of the row, plane 0 least significant.
pub open spec fn ega_pixel(bytes: Seq<u8>, width: nat, r: int, c: int) -> u8 {
    let ppb = ega_plane_bytes(width) as int;
    let row_off = r * (ega_bytes_per_row(width) as int);
    let k = (c % 8) as u8;
    let b0 = bit_in_byte(bytes[row_off + c / 8], k);
    let b1 = bit_in_byte(bytes[row_off + ppb + c / 8], k);
    let b2 = bit_in_byte(bytes[row_off + 2 * ppb + c / 8], k);
    let b3 = bit_in_byte(bytes[row_off + 3 * ppb + c / 8], k);
    (b0 + 2 * b1 + 4 * b2 + 8 * b3) as u8
}

/// The full grid decoded from a CGA buffer.
pub open spec fn cga_decode(bytes: Seq<u8>, width: nat) -> Seq<Seq<u8>> {
    Seq::new(
        cga_height(bytes.len(), width),
        |r: int| Seq::new(width, |c: int| cga_pixel(bytes, width, r, c)),
    )
}

/// The full grid decoded from an EGA row-planar buffer.
pub open spec fn ega_decode(bytes: Seq<u8>, width: nat) -> Seq<Seq<u8>> {
    Seq::new(
        ega_height(bytes.len(), width),
        |r: int| Seq::new(width, |c: int| ega_pixel(bytes, width, r, c)),
    )
}

/// Whether a buffer of `len` bytes decodes at all for a width and format.
pub open spec fn decode_valid(len: nat, width: nat, t: ImageType) -> bool {
    match t {
        ImageType::CGA => cga_valid(len, width),
        ImageType::EGA => ega_valid(len, width),
    }
}

/// The grid a buffer decodes to, per format.
pub open spec fn decode_spec(bytes: Seq<u8>, width: nat, t: ImageType) -> Seq<Seq<u8>> {
    match t {
        ImageType::CGA => cga_decode(bytes, width),
        ImageType::EGA => ega_decode(bytes, width),
    }
}

/// Rows held by a valid buffer, per format.
pub open spec fn decode_height(len: nat, width: nat, t: ImageType) -> nat {
    match t {
        ImageType::CGA => cga_height(len, width),
        ImageType::EGA => ega_height(len, width),
    }
}

/// The value at column `i` of a row, with zero standing in for columns
/// beyond the row's end (the padding bits of a row's last byte).
pub open spec fn cell(row: Seq<u8>, i: int) -> u8 {
    if 0 <= i < row.len() {
        row[i]
    } else {
        0
    }
}

/// Four two-bit fields packed into one byte, `a` in the most significant
/// pair; each value is masked to its low two bits.
pub open spec fn pack4(a: u8, b: u8, c: u8, d: u8) -> u8 {
    (((a & 3) << 6) | ((b & 3) << 4) | ((c & 3) << 2) | (d & 3))
}

/// Bit `p` of each of eight values packed into one byte, `v0` in the most
/// significant bit.
pub open spec fn pack8(v0: u8, v1: u8, v2: u8, v3: u8, v4: u8, v5: u8, v6: u8, v7: u8, p: u8) -> u8 {
    ((plane_bit(v0, p) << 7) | (plane_bit(v1, p) << 6) | (plane_bit(v2, p) << 5) | (plane_bit(
        v3,
        p,
    ) << 4) | (plane_bit(v4, p) << 3) | (plane_bit(v5, p) << 2) | (plane_bit(v6, p) << 1)
        | plane_bit(v7, p))
}

/// The byte that packs the four pixels `4j .. 4j+3` of a row, most
/// significant bit pair first; indices are masked to their low two bits.
pub open spec fn cga_pack_byte(row: Seq<u8>, j: int) -> u8 {
    pack4(cell(row, 4 * j), cell(row, 4 * j + 1), cell(row, 4 * j + 2), cell(row, 4 * j + 3))
}

/// The byte of plane `p` that packs bit `p` of the eight pixels
/// `8j .. 8j+7` of a row, leftmost pixel in the most significant bit.
pub open spec fn ega_pack_byte(row: Seq<u8>, p: u8, j: int) -> u8 {
    pack8(
        cell(row, 8 * j),
        cell(row, 8 * j + 1),
        cell(row, 8 * j + 2),
        cell(row, 8 * j + 3),
        cell(row, 8 * j + 4),
        cell(row, 8 * j + 5),
        cell(row, 8 * j + 6),
        cell(row, 8 * j + 7),
        p,
    )
}

/// The CGA buffer a grid encodes to: scanline slots in storage order, the
/// first half holding the even display rows, the second half the odd ones.
pub open spec fn cga_encode(g: Seq<Seq<u8>>, width: nat) -> Seq<u8> {
    let bpr = cga_bytes_per_row(width) as int;
    Seq::new(
        g.len() * cga_bytes_per_row(width),
        |i: int| cga_pack_byte(g[cga_display_row(g.len(), i / bpr)], i % bpr),
    )
}

/// The EGA row-planar buffer a grid encodes to: for each row, four plane
/// bytesequences in plane order.
pub open spec fn ega_encode(g: Seq<Seq<u8>>, width: nat) -> Seq<u8> {
    let ppb = ega_plane_bytes(width) as int;
    let unit = 4 * ppb;
    Seq::new(
        g.len() * ega_bytes_per_row(width),
        |i: int| ega_pack_byte(g[i / unit], ((i % unit) / ppb) as u8, (i % unit) % ppb),
    )
}

/// The buffer a grid encodes to, per format.
pub open spec fn encode_spec(g: Seq<Seq<u8>>, width: nat, t: ImageType) -> Seq<u8> {
    match t {
        ImageType::CGA => cga_encode(g, width),
        ImageType::EGA => ega_encode(g, width),
    }
}

/// The format a selector string names: `"cga"` for CGA,
/// `"ega_row_planar"` or its abbreviation `"erp"` for EGA row-planar.
pub fn image_type_from_str(name: &str) -> (res: Result<ImageType, FormatError>)
    ensures
        match res {
            Ok(t) => {
                &&& (t == ImageType::CGA <==> name@ == "cga"@)
                &&& (t == ImageType::EGA <==> (name@ == "ega_row_planar"@ || name@ == "erp"@))
            },
            Err(e) => {
                &&& e == FormatError::UnknownFormat
                &&& name@ != "cga"@ && name@ != "ega_row_planar"@ && name@ != "erp"@
            },
        },
{
    proof {
        reveal_strlit("cga");
        reveal_strlit("ega_row_planar");
        reveal_strlit("erp");
        assert("cga"@.len() == 3 && "cga"@[0] == 'c');
        assert("ega_row_planar"@.len() == 14);
        assert("erp"@.len() == 3 && "erp"@[0] == 'e');
        assert("cga"@ != "ega_row_planar"@ && "cga"@ != "erp"@ && "ega_row_planar"@ != "erp"@);
    }
    if crate::text::str_eq(name, "cga") {
        Ok(ImageType::CGA)
    } else if crate::text::str_eq(name, "ega_row_planar") || crate::text::str_eq(name, "erp") {
        Ok(ImageType::EGA)
    } else {
        Err(FormatError::UnknownFormat)
    }
}

/// Shifted-and-masked fields of a byte are bounded by their mask.
proof fn lemma_shift_mask_bounds(x: u8)
    by (bit_vector)
    ensures
        forall|s: u8| #[trigger] ((x >> s) & 1) <= 1,
        forall|s: u8| #[trigger] ((x >> s) & 3) <= 3,
{
}

/// Every pixel a buffer decodes to selects an entry of the format's palette.
pub proof fn lemma_decoded_pixels_in_range(bytes: Seq<u8>, width: nat, t: ImageType)
    ensures
        forall|r: int, c: int|
            0 <= r < decode_spec(bytes, width, t).len() && 0 <= c < decode_spec(
                bytes,
                width,
                t,
            )[r].len() ==> decode_spec(bytes, width, t)[r][c] < t.spec_palette_size(),
{
    assert forall|r: int, c: int|
        0 <= r < decode_spec(bytes, width, t).len() && 0 <= c < decode_spec(bytes, width, t)[r].len()
        implies decode_spec(bytes, width, t)[r][c] < t.spec_palette_size() by {
        match t {
            ImageType::CGA => {
                let bpr = cga_bytes_per_row(width) as int;
                let off = cga_source_row(cga_height(bytes.len(), width), r) * bpr + c / 4;
                lemma_shift_mask_bounds(bytes[off]);
            },
            ImageType::EGA => {
                let ppb = ega_plane_bytes(width) as int;
                let row_off = r * (ega_bytes_per_row(width) as int);
                lemma_shift_mask_bounds(bytes[row_off + c / 8]);
                lemma_shift_mask_bounds(bytes[row_off + ppb + c / 8]);
                lemma_shift_mask_bounds(bytes[row_off + 2 * ppb + c / 8]);
                lemma_shift_mask_bounds(bytes[row_off + 3 * ppb + c / 8]);
            },
        }
    }
}

/// Bytes per CGA scanline, computed without overflow.
fn cga_bpr_exec(width: usize) -> (bpr: usize)
    requires
        width > 0,
    ensures
        bpr == cga_bytes_per_row(width as nat),
        0 < bpr,
        2 * bpr <= usize::MAX,
        width <= 4 * bpr,
{
    let bpr: usize = width / 4 + if width % 4 == 0 { 0 } else { 1 };
    proof {
        vstd::arithmetic::div_mod::lemma_fundamental_div_mod(width as int, 4);
        assert(bpr == (width as int + 3) / 4);
    }
    bpr
}

/// Bytes per EGA plane row, computed without overflow.
fn ega_ppb_exec(width: usize) -> (ppb: usize)
    requires
        width > 0,
    ensures
        ppb == ega_plane_bytes(width as nat),
        0 < ppb,
        4 * ppb <= usize::MAX,
        width <= 8 * ppb,
{
    let ppb: usize = width / 8 + if width % 8 == 0 { 0 } else { 1 };
    proof {
        vstd::arithmetic::div_mod::lemma_fundamental_div_mod(width as int, 8);
        assert(ppb == (width as int + 7) / 8);
    }
    ppb
}

/// Decodes a raw byte buffer into an indexed pixel grid.
///
/// Succeeds exactly when the width is positive and the buffer length is a
/// multiple of the format's row unit; the result then holds, pixel for
/// pixel, the grid the binary layout describes.
pub fn decode(bytes: &Vec<u8>, width: usize, image_type: ImageType) -> (res: Result<
    RawGrid,
    FormatError,
>)
    ensures
        match res {
            Ok(grid) => decode_valid(bytes@.len(), width as nat, image_type) && grid.deep_view()
                == decode_spec(bytes@, width as nat, image_type),
            Err(e) => !decode_valid(bytes@.len(), width as nat, image_type) && (e
                == FormatError::ZeroWidth <==> width == 0) && (e == FormatError::LengthMismatch
                <==> width != 0),
        },
        res is Ok <==> decode_valid(bytes@.len(), width as nat, image_type),
{
    if width == 0 {
        return Err(FormatError::ZeroWidth);
    }
    match image_type {
        ImageType::CGA => decode_cga(bytes, width),
        ImageType::EGA => decode_ega(bytes, width),
    }
}

/// CGA half of `decode`: undo the even/odd scanline interleave and unpack
/// four two-bit pixels from each byte.
#[verifier::loop_isolation(false)]
fn decode_cga(bytes: &Vec<u8>, width: usize) -> (res: Result<RawGrid, FormatError>)
    requires
        width > 0,
    ensures
        match res {
            Ok(grid) => cga_valid(bytes@.len(), width as nat) && grid.deep_view() == cga_decode(
                bytes@,
                width as nat,
            ),
            Err(e) => e == FormatError::LengthMismatch && !cga_valid(bytes@.len(), width as nat),
        },
{
    let len = bytes.len();
    let bpr = cga_bpr_exec(width);
    let unit = 2 * bpr;
    if len % unit != 0 {
        return Err(FormatError::LengthMismatch);
    }
    let pairs = len / unit;
    let height = len / bpr;
    let half = height / 2;
    proof {
        vstd::arithmetic::div_mod::lemma_fundamental_div_mod(len as int, unit as int);
        assert(len == unit * pairs);
        assert(unit * pairs == bpr * (2 * pairs)) by (nonlinear_arith)
            requires
                unit == 2 * bpr,
        ;
        vstd::arithmetic::div_mod::lemma_fundamental_div_mod_converse_div(
            len as int,
            bpr as int,
            2 * pairs,
            0,
        );
        assert(height == 2 * pairs);
        assert(half == pairs);
        assert(height * bpr == len) by (nonlinear_arith)
            requires
                len == unit * pairs && unit == 2 * bpr && height == 2 * pairs,
        ;
        assert(cga_height(len as nat, width as nat) == height);
    }
    let mut grid: RawGrid = Vec::new();
    let mut r: usize = 0;
    while r < height
        invariant
            r <= height,
            grid@.len() == r,
            forall|rr: int|
                0 <= rr < r ==> grid@[rr].deep_view() == cga_decode(bytes@, width as nat)[rr],
        decreases height - r,
    {
        let src = if r % 2 == 0 {
            r / 2
        } else {
            half + (r - 1) / 2
        };
        proof {
            assert(src == cga_source_row(height as nat, r as int));
            assert(src < height);
            assert((src + 1) * bpr <= height * bpr) by (nonlinear_arith)
                requires
                    src + 1 <= height && bpr >= 0,
            ;
            assert(src * bpr + bpr <= len) by (nonlinear_arith)
                requires
                    (src + 1) * bpr <= len,
            ;
        }
        let off = src * bpr;
        let mut row: Vec<u8> = Vec::new();
        let mut c: usize = 0;
        while c < width
            invariant
                c <= width,
                off == src * bpr,
                src == cga_source_row(height as nat, r as int),
                off + bpr <= len,
                row@.len() == c,
                forall|cc: int|
                    0 <= cc < c ==> row@[cc] == cga_pixel(bytes@, width as nat, r as int, cc),
            decreases width - c,
        {
            proof {
                assert(c / 4 < bpr);
            }
            let b = bytes[off + c / 4];
            let sh = 6 - 2 * (c % 4);
            let px = (b >> (sh as u8)) & 3;
            proof {
                assert(px == cga_pixel_in_byte(b, (c % 4) as u8));
                assert(px == cga_pixel(bytes@, width as nat, r as int, c as int));
            }
            row.push(px);
            c += 1;
        }
        proof {
            assert(row@ =~= cga_decode(bytes@, width as nat)[r as int]);
            assert(row.deep_view() =~= row@);
        }
        grid.push(row);
        r += 1;
    }
    proof {
        assert(grid.deep_view() =~= cga_decode(bytes@, width as nat));
    }
    Ok(grid)
}

/// EGA half of `decode`: gather, for each pixel, one bit from each of the
/// four planes of its row.
#[verifier::loop_isolation(false)]
fn decode_ega(bytes: &Vec<u8>, width: usize) -> (res: Result<RawGrid, FormatError>)
    requires
        width > 0,
    ensures
        match res {
            Ok(grid) => ega_valid(bytes@.len(), width as nat) && grid.deep_view() == ega_decode(
                bytes@,
                width as nat,
            ),
            Err(e) => e == FormatError::LengthMismatch && !ega_valid(bytes@.len(), width as nat),
        },
{
    let len = bytes.len();
    let ppb = ega_ppb_exec(width);
    let unit = 4 * ppb;
    if len % unit != 0 {
        return Err(FormatError::LengthMismatch);
    }
    let height = len / unit;
    proof {
        vstd::arithmetic::div_mod::lemma_fundamental_div_mod(len as int, unit as int);
        assert(len == unit * height);
        assert(height * unit == len) by (nonlinear_arith)
            requires
                len == unit * height,
        ;
        assert(ega_height(len as nat, width as nat) == height);
    }
    let mut grid: RawGrid = Vec::new();
    let mut r: usize = 0;
    while r < height
        invariant
            r <= height,
            grid@.len() == r,
            forall|rr: int|
                0 <= rr < r ==> grid@[rr].deep_view() == ega_decode(bytes@, width as nat)[rr],
        decreases height - r,
    {
        proof {
            assert((r + 1) * unit <= height * unit) by (nonlinear_arith)
                requires
                    r + 1 <= height && unit >= 0,
            ;
            assert(r * unit + unit <= len) by (nonlinear_arith)
                requires
                    (r + 1) * unit <= len,
            ;
        }
        let row_off = r * unit;
        let mut row: Vec<u8> = Vec::new();
        let mut c: usize = 0;
        while c < width
            invariant
                c <= width,
                row_off == r * unit,
                row_off + unit <= len,
                row@.len() == c,
                forall|cc: int|
                    0 <= cc < c ==> row@[cc] == ega_pixel(bytes@, width as nat, r as int, cc),
            decreases width - c,
        {
            proof {
                assert(c / 8 < ppb);
            }
            let sh = (7 - c % 8) as u8;
            let b0 = (bytes[row_off + c / 8] >> sh) & 1;
            let b1 = (bytes[row_off + ppb + c / 8] >> sh) & 1;
            let b2 = (bytes[row_off + 2 * ppb + c / 8] >> sh) & 1;
            let b3 = (bytes[row_off + 3 * ppb + c / 8] >> sh) & 1;
            proof {
                lemma_shift_mask_bounds(bytes@[row_off + c / 8]);
                lemma_shift_mask_bounds(bytes@[row_off + ppb + c / 8]);
                lemma_shift_mask_bounds(bytes@[row_off + 2 * ppb + c / 8]);
                lemma_shift_mask_bounds(bytes@[row_off + 3 * ppb + c / 8]);
            }
            let px = b0 + 2 * b1 + 4 * b2 + 8 * b3;
            proof {
                assert(px == ega_pixel(bytes@, width as nat, r as int, c as int));
            }
            row.push(px);
            c += 1;
        }
        proof {
            assert(row@ =~= ega_decode(bytes@, width as nat)[r as int]);
            assert(row.deep_view() =~= row@);
        }
        grid.push(row);
        r += 1;
    }
    proof {
        assert(grid.deep_view() =~= ega_decode(bytes@, width as nat));
    }
    Ok(grid)
}

/// Reads column `i` of a row, or zero past the row's end.
fn cell_exec(row: &Vec<u8>, i: usize, width: usize) -> (v: u8)
    requires
        row@.len() == width,
    ensures
        v == cell(row@, i as int),
{
    if i < width {
        row[i]
    } else {
        0
    }
}

/// Re-encodes a grid into the raw byte layout of the given format,
/// exactly inverting `decode` for byte-aligned widths.
///
/// Indices are masked to the format's bit depth, and the padding bits of a
/// row's last byte are written as zero, so the encoding is lossy for
/// widths not aligned to the packing boundary and for out-of-range
/// indices.
pub fn encode(grid: &RawGrid, width: usize, image_type: ImageType) -> (out: Vec<u8>)
    requires
        width > 0,
        width <= usize::MAX - 7,
        grid_uniform(grid.deep_view(), width as nat),
        image_type == ImageType::CGA ==> grid@.len() % 2 == 0,
    ensures
        out@ == encode_spec(grid.deep_view(), width as nat, image_type),
{
    match image_type {
        ImageType::CGA => encode_cga(grid, width),
        ImageType::EGA => encode_ega(grid, width),
    }
}

/// CGA half of `encode`: pack four pixels to a byte, even display rows
/// into the first half of the buffer, odd ones into the second.
#[verifier::loop_isolation(false)]
fn encode_cga(grid: &RawGrid, width: usize) -> (out: Vec<u8>)
    requires
        width > 0,
        width <= usize::MAX - 7,
        grid_uniform(grid.deep_view(), width as nat),
        grid@.len() % 2 == 0,
    ensures
        out@ == cga_encode(grid.deep_view(), width as nat),
{
    let ghost g = grid.deep_view();
    let height = grid.len();
    let bpr = cga_bpr_exec(width);
    let half = height / 2;
    proof {
        assert(4 * bpr <= width + 6);
    }
    let mut out: Vec<u8> = Vec::new();
    let mut s: usize = 0;
    while s < height
        invariant
            s <= height,
            out@.len() == s * bpr,
            forall|i: int| 0 <= i < out@.len() ==> out@[i] == cga_encode(g, width as nat)[i],
        decreases height - s,
    {
        let dr = if s < half {
            2 * s
        } else {
            2 * (s - half) + 1
        };
        proof {
            assert(dr == cga_display_row(height as nat, s as int));
            assert(dr < height);
        }
        let row = &grid[dr];
        proof {
            assert(row@ == g[dr as int]);
            assert(row@.len() == width);
        }
        let mut j: usize = 0;
        while j < bpr
            invariant
                j <= bpr,
                out@.len() == s * bpr + j,
                forall|i: int| 0 <= i < out@.len() ==> out@[i] == cga_encode(g, width as nat)[i],
            decreases bpr - j,
        {
            let base = 4 * j;
            let c0 = cell_exec(row, base, width);
            let c1 = cell_exec(row, base + 1, width);
            let c2 = cell_exec(row, base + 2, width);
            let c3 = cell_exec(row, base + 3, width);
            let byte = (((c0 & 3) << 6u8) | ((c1 & 3) << 4u8) | ((c2 & 3) << 2u8) | (c3 & 3));
            proof {
                assert(byte == cga_pack_byte(row@, j as int));
                let i: int = s as int * bpr as int + j as int;
                vstd::arithmetic::div_mod::lemma_fundamental_div_mod_converse_div(
                    i as int,
                    bpr as int,
                    s as int,
                    j as int,
                );
                vstd::arithmetic::div_mod::lemma_fundamental_div_mod_converse_mod(
                    i as int,
                    bpr as int,
                    s as int,
                    j as int,
                );
                assert(i / bpr as int == s && i % bpr as int == j);
                assert(i < height * bpr) by (nonlinear_arith)
                    requires
                        i == s * bpr + j && s < height && j < bpr && bpr > 0,
                ;
                assert(cga_encode(g, width as nat)[i as int] == cga_pack_byte(
                    g[cga_display_row(height as nat, s as int)],
                    j as int,
                ));
            }
            out.push(byte);
            j += 1;
        }
        proof {
            assert(s * bpr + bpr == (s + 1) * bpr) by (nonlinear_arith);
        }
        s += 1;
    }
    proof {
        assert(out@ =~= cga_encode(g, width as nat));
    }
    out
}

/// EGA half of `encode`: for each row, write the four one-bit planes in
/// order, eight pixels to a byte.
#[verifier::loop_isolation(false)]
fn encode_ega(grid: &RawGrid, width: usize) -> (out: Vec<u8>)
    requires
        width > 0,
        width <= usize::MAX - 7,
        grid_uniform(grid.deep_view(), width as nat),
    ensures
        out@ == ega_encode(grid.deep_view(), width as nat),
{
    let ghost g = grid.deep_view();
    let height = grid.len();
    let ppb = ega_ppb_exec(width);
    let unit = 4 * ppb;
    proof {
        assert(8 * ppb <= width + 14);
    }
    let mut out: Vec<u8> = Vec::new();
    let mut r: usize = 0;
    while r < height
        invariant
            r <= height,
            out@.len() == r * unit,
            forall|i: int| 0 <= i < out@.len() ==> out@[i] == ega_encode(g, width as nat)[i],
        decreases height - r,
    {
        let row = &grid[r];
        proof {
            assert(row@ == g[r as int]);
            assert(row@.len() == width);
        }
        let mut p: usize = 0;
        while p < 4
            invariant
                p <= 4,
                out@.len() == r * unit + p * ppb,
                forall|i: int| 0 <= i < out@.len() ==> out@[i] == ega_encode(g, width as nat)[i],
            decreases 4 - p,
        {
            let pb = p as u8;
            let mut j: usize = 0;
            while j < ppb
                invariant
                    j <= ppb,
                    out@.len() == r * unit + p * ppb + j,
                    forall|i: int|
                        0 <= i < out@.len() ==> out@[i] == ega_encode(g, width as nat)[i],
                decreases ppb - j,
            {
                let base = 8 * j;
                let v0 = cell_exec(row, base, width);
                let v1 = cell_exec(row, base + 1, width);
                let v2 = cell_exec(row, base + 2, width);
                let v3 = cell_exec(row, base + 3, width);
                let v4 = cell_exec(row, base + 4, width);
                let v5 = cell_exec(row, base + 5, width);
                let v6 = cell_exec(row, base + 6, width);
                let v7 = cell_exec(row, base + 7, width);
                let byte = ((((v0 >> pb) & 1) << 7u8) | (((v1 >> pb) & 1) << 6u8) | (((v2 >> pb)
                    & 1) << 5u8) | (((v3 >> pb) & 1) << 4u8) | (((v4 >> pb) & 1) << 3u8) | (((v5
                    >> pb) & 1) << 2u8) | (((v6 >> pb) & 1) << 1u8) | ((v7 >> pb) & 1));
                proof {
                    assert(byte == ega_pack_byte(row@, pb, j as int));
                    let i: int = r as int * unit as int + p as int * ppb as int + j as int;
                    let rem: int = p as int * ppb as int + j as int;
                    assert(p * ppb <= 3 * ppb) by (nonlinear_arith)
                        requires
                            p <= 3 && ppb >= 0,
                    ;
                    assert(0 <= rem < unit);
                    vstd::arithmetic::div_mod::lemma_fundamental_div_mod_converse_div(
                        i as int,
                        unit as int,
                        r as int,
                        rem as int,
                    );
                    vstd::arithmetic::div_mod::lemma_fundamental_div_mod_converse_mod(
                        i as int,
                        unit as int,
                        r as int,
                        rem as int,
                    );
                    assert(i / unit as int == r && i % unit as int == rem);
                    vstd::arithmetic::div_mod::lemma_fundamental_div_mod_converse_div(
                        rem as int,
                        ppb as int,
                        p as int,
                        j as int,
                    );
                    vstd::arithmetic::div_mod::lemma_fundamental_div_mod_converse_mod(
                        rem as int,
                        ppb as int,
                        p as int,
                        j as int,
                    );
                    assert(rem / ppb as int == p && rem % ppb as int == j);
                    assert(i < height * (4 * ppb)) by (nonlinear_arith)
                        requires
                            i == r * (4 * ppb) + p * ppb + j && r < height && p < 4 && j < ppb
                                && ppb > 0,
                    ;
                    assert(height * (4 * ppb) == height * ega_bytes_per_row(width as nat));
                    assert(ega_encode(g, width as nat)[i as int] == ega_pack_byte(
                        g[r as int],
                        pb,
                        j as int,
                    ));
                }
                out.push(byte);
                j += 1;
            }
            proof {
                assert(p * ppb + ppb == (p + 1) * ppb) by (nonlinear_arith);
            }
            p += 1;
        }
        proof {
            assert(r * unit + 4 * ppb == (r + 1) * unit) by (nonlinear_arith)
                requires
                    unit == 4 * ppb,
            ;
        }
        r += 1;
    }
    proof {
        assert(out@ =~= ega_encode(g, width as nat));
    }
    out
}

/// Each two-bit field of a packed byte reads back as the value it packed,
/// masked to two bits.
proof fn lemma_pack4_bits(a: u8, b: u8, c: u8, d: u8)
    by (bit_vector)
    ensures
        (pack4(a, b, c, d) >> 6) & 3 == a & 3,
        (pack4(a, b, c, d) >> 4) & 3 == b & 3,
        (pack4(a, b, c, d) >> 2) & 3 == c & 3,
        (pack4(a, b, c, d) >> 0) & 3 == d & 3,
{
}

/// Each bit of a packed plane byte reads back as bit `p` of the value it
/// packed.
proof fn lemma_pack8_bits(v0: u8, v1: u8, v2: u8, v3: u8, v4: u8, v5: u8, v6: u8, v7: u8, p: u8)
    by (bit_vector)
    requires
        p < 4,
    ensures
        (pack8(v0, v1, v2, v3, v4, v5, v6, v7, p) >> 7) & 1 == (v0 >> p) & 1,
        (pack8(v0, v1, v2, v3, v4, v5, v6, v7, p) >> 6) & 1 == (v1 >> p) & 1,
        (pack8(v0, v1, v2, v3, v4, v5, v6, v7, p) >> 5) & 1 == (v2 >> p) & 1,
        (pack8(v0, v1, v2, v3, v4, v5, v6, v7, p) >> 4) & 1 == (v3 >> p) & 1,
        (pack8(v0, v1, v2, v3, v4, v5, v6, v7, p) >> 3) & 1 == (v4 >> p) & 1,
        (pack8(v0, v1, v2, v3, v4, v5, v6, v7, p) >> 2) & 1 == (v5 >> p) & 1,
        (pack8(v0, v1, v2, v3, v4, v5, v6, v7, p) >> 1) & 1 == (v6 >> p) & 1,
        (pack8(v0, v1, v2, v3, v4, v5, v6, v7, p) >> 0) & 1 == (v7 >> p) & 1,
{
}

/// A pixel value below the format's bit depth is unchanged by masking,
/// and is recovered from its four plane bits.
proof fn lemma_small_values(v: u8)
    by (bit_vector)
    ensures
        v < 4 ==> v & 3 == v,
        v < 16 ==> ((v >> 0) & 1) + 2 * ((v >> 1) & 1) + 4 * ((v >> 2) & 1) + 8 * ((v >> 3) & 1)
            == v,
{
}

/// Round trip for CGA: a grid of in-range indices, of byte-aligned width
/// and even height, decodes from its own encoding unchanged.
pub proof fn lemma_cga_round_trip(g: Seq<Seq<u8>>, width: nat)
    requires
        width > 0,
        width % 4 == 0,
        g.len() % 2 == 0,
        grid_uniform(g, width),
        crate::grid_indices_below(g, 4),
    ensures
        cga_valid(cga_encode(g, width).len(), width),
        cga_decode(cga_encode(g, width), width) == g,
{
    let bpr = cga_bytes_per_row(width) as int;
    let h = g.len() as int;
    let bytes = cga_encode(g, width);
    let len = bytes.len() as int;
    assert(width == 4 * (width as int / 4)) by {
        vstd::arithmetic::div_mod::lemma_fundamental_div_mod(width as int, 4);
    }
    let q = width as int / 4;
    assert(bpr == q) by {
        vstd::arithmetic::div_mod::lemma_div_multiples_vanish_fancy(q, 3, 4);
        assert((4 * q + 3) / 4 == q);
    }
    assert(width == 4 * bpr);
    assert(len == h * bpr);
    let m = h / 2;
    assert(h == 2 * m) by {
        vstd::arithmetic::div_mod::lemma_fundamental_div_mod(h, 2);
    }
    assert(len == m * (2 * bpr)) by (nonlinear_arith)
        requires
            len == h * bpr && h == 2 * m,
    ;
    assert(len % (2 * bpr) == 0) by {
        vstd::arithmetic::div_mod::lemma_mod_multiples_basic(m, 2 * bpr);
    }
    assert(cga_valid(bytes.len(), width));
    assert(cga_height(bytes.len(), width) == h) by {
        vstd::arithmetic::div_mod::lemma_fundamental_div_mod_converse_div(len, bpr, h, 0);
    }
    let dec = cga_decode(bytes, width);
    assert forall|r: int, c: int| 0 <= r < h && 0 <= c < width implies dec[r][c] == g[r][c] by {
        let s = cga_source_row(h as nat, r);
        if r % 2 == 0 {
            assert(r == 2 * (r / 2)) by {
                vstd::arithmetic::div_mod::lemma_fundamental_div_mod(r, 2);
            }
            assert(0 <= s < m);
            assert(cga_display_row(h as nat, s) == r);
        } else {
            assert(r == 2 * ((r - 1) / 2) + 1) by {
                vstd::arithmetic::div_mod::lemma_fundamental_div_mod(r - 1, 2);
            }
            assert(m <= s < h);
            assert(cga_display_row(h as nat, s) == r);
        }
        let j = c / 4;
        let k = c % 4;
        assert(c == 4 * j + k && 0 <= k < 4) by {
            vstd::arithmetic::div_mod::lemma_fundamental_div_mod(c, 4);
        }
        assert(j < bpr) by {
            vstd::arithmetic::div_mod::lemma_div_is_ordered(c, width as int - 1, 4);
            assert((4 * bpr - 1) / 4 == bpr - 1) by {
                vstd::arithmetic::div_mod::lemma_div_multiples_vanish_fancy(bpr - 1, 3, 4);
            }
        }
        let i = s * bpr + j;
        assert(0 <= i < h * bpr) by (nonlinear_arith)
            requires
                i == s * bpr + j && 0 <= s < h && 0 <= j < bpr,
        ;
        assert(i / bpr == s && i % bpr == j) by {
            vstd::arithmetic::div_mod::lemma_fundamental_div_mod_converse_div(i, bpr, s, j);
            vstd::arithmetic::div_mod::lemma_fundamental_div_mod_converse_mod(i, bpr, s, j);
        }
        assert(bytes[i] == cga_pack_byte(g[r], j));
        let row = g[r];
        let a = cell(row, 4 * j);
        let b = cell(row, 4 * j + 1);
        let cc = cell(row, 4 * j + 2);
        let d = cell(row, 4 * j + 3);
        lemma_pack4_bits(a, b, cc, d);
        let px = g[r][c];
        lemma_small_values(px);
        assert(dec[r][c] == cga_pixel_in_byte(bytes[i], k as u8));
        if k == 0 {
            assert(cga_pixel_in_byte(bytes[i], 0) == (bytes[i] >> 6) & 3);
            assert(a == px);
        } else if k == 1 {
            assert(cga_pixel_in_byte(bytes[i], 1) == (bytes[i] >> 4) & 3);
            assert(b == px);
        } else if k == 2 {
            assert(cga_pixel_in_byte(bytes[i], 2) == (bytes[i] >> 2) & 3);
            assert(cc == px);
        } else {
            assert(cga_pixel_in_byte(bytes[i], 3) == (bytes[i] >> 0) & 3);
            assert(d == px);
        }
    }
    assert(dec =~~= g);
}

/// The encoded EGA buffer holds, at the slot of row `r`, plane `p`,
/// byte `j`, the packed plane byte of that row.
proof fn lemma_ega_encode_byte(g: Seq<Seq<u8>>, width: nat, r: int, p: int, j: int)
    requires
        width > 0,
        0 <= r < g.len(),
        0 <= p < 4,
        0 <= j < ega_plane_bytes(width),
    ensures
        0 <= r * (ega_bytes_per_row(width) as int) + p * (ega_plane_bytes(width) as int) + j
            < ega_encode(g, width).len(),
        ega_encode(g, width)[r * (ega_bytes_per_row(width) as int) + p * (ega_plane_bytes(width)
            as int) + j] == ega_pack_byte(g[r], p as u8, j),
{
    let ppb = ega_plane_bytes(width) as int;
    let unit = ega_bytes_per_row(width) as int;
    let h = g.len() as int;
    assert(unit == 4 * ppb);
    let rem = p * ppb + j;
    assert(0 <= rem < unit) by (nonlinear_arith)
        requires
            rem == p * ppb + j && 0 <= p < 4 && 0 <= j < ppb && unit == 4 * ppb,
    ;
    let i = r * unit + rem;
    assert(0 <= i < h * unit) by (nonlinear_arith)
        requires
            i == r * unit + rem && 0 <= r < h && 0 <= rem < unit,
    ;
    assert(i / unit == r && i % unit == rem) by {
        vstd::arithmetic::div_mod::lemma_fundamental_div_mod_converse_div(i, unit, r, rem);
        vstd::arithmetic::div_mod::lemma_fundamental_div_mod_converse_mod(i, unit, r, rem);
    }
    assert(rem / ppb == p && rem % ppb == j) by {
        vstd::arithmetic::div_mod::lemma_fundamental_div_mod_converse_div(rem, ppb, p, j);
        vstd::arithmetic::div_mod::lemma_fundamental_div_mod_converse_mod(rem, ppb, p, j);
    }
    assert(ega_encode(g, width).len() == g.len() * ega_bytes_per_row(width));
    assert(h * unit == g.len() * ega_bytes_per_row(width));
    assert(ega_encode(g, width)[i] == ega_pack_byte(
        g[i / unit],
        ((i % unit) / ppb) as u8,
        (i % unit) % ppb,
    ));
}

/// Round trip for EGA row-planar: a grid of in-range indices and
/// byte-aligned width decodes from its own encoding unchanged.
pub proof fn lemma_ega_round_trip(g: Seq<Seq<u8>>, width: nat)
    requires
        width > 0,
        width % 8 == 0,
        grid_uniform(g, width),
        crate::grid_indices_below(g, 16),
    ensures
        ega_valid(ega_encode(g, width).len(), width),
        ega_decode(ega_encode(g, width), width) == g,
{
    let ppb = ega_plane_bytes(width) as int;
    let unit = ega_bytes_per_row(width) as int;
    let h = g.len() as int;
    let bytes = ega_encode(g, width);
    let len = bytes.len() as int;
    assert(width == 8 * (width as int / 8)) by {
        vstd::arithmetic::div_mod::lemma_fundamental_div_mod(width as int, 8);
    }
    let q = width as int / 8;
    assert(ppb == q) by {
        vstd::arithmetic::div_mod::lemma_div_multiples_vanish_fancy(q, 7, 8);
        assert((8 * q + 7) / 8 == q);
    }
    assert(width == 8 * ppb);
    assert(unit == 4 * ppb);
    assert(len == h * unit);
    assert(len % unit == 0) by {
        vstd::arithmetic::div_mod::lemma_mod_multiples_basic(h, unit);
    }
    assert(ega_valid(bytes.len(), width));
    assert(ega_height(bytes.len(), width) == h) by {
        vstd::arithmetic::div_mod::lemma_fundamental_div_mod_converse_div(len, unit, h, 0);
    }
    let dec = ega_decode(bytes, width);
    assert forall|r: int, c: int| 0 <= r < h && 0 <= c < width implies dec[r][c] == g[r][c] by {
        let j = c / 8;
        let k = c % 8;
        assert(c == 8 * j + k && 0 <= k < 8) by {
            vstd::arithmetic::div_mod::lemma_fundamental_div_mod(c, 8);
        }
        assert(j < ppb) by {
            vstd::arithmetic::div_mod::lemma_div_is_ordered(c, width as int - 1, 8);
            assert((8 * ppb - 1) / 8 == ppb - 1) by {
                vstd::arithmetic::div_mod::lemma_div_multiples_vanish_fancy(ppb - 1, 7, 8);
            }
        }
        let row = g[r];
        let v0 = cell(row, 8 * j);
        let v1 = cell(row, 8 * j + 1);
        let v2 = cell(row, 8 * j + 2);
        let v3 = cell(row, 8 * j + 3);
        let v4 = cell(row, 8 * j + 4);
        let v5 = cell(row, 8 * j + 5);
        let v6 = cell(row, 8 * j + 6);
        let v7 = cell(row, 8 * j + 7);
        lemma_ega_encode_byte(g, width, r, 0, j);
        lemma_ega_encode_byte(g, width, r, 1, j);
        lemma_ega_encode_byte(g, width, r, 2, j);
        lemma_ega_encode_byte(g, width, r, 3, j);
        assert(bytes[r * unit + j] == ega_pack_byte(row, 0, j));
        assert(bytes[r * unit + ppb + j] == ega_pack_byte(row, 1, j));
        assert(bytes[r * unit + 2 * ppb + j] == ega_pack_byte(row, 2, j));
        assert(bytes[r * unit + 3 * ppb + j] == ega_pack_byte(row, 3, j));
        lemma_pack8_bits(v0, v1, v2, v3, v4, v5, v6, v7, 0);
        lemma_pack8_bits(v0, v1, v2, v3, v4, v5, v6, v7, 1);
        lemma_pack8_bits(v0, v1, v2, v3, v4, v5, v6, v7, 2);
        lemma_pack8_bits(v0, v1, v2, v3, v4, v5, v6, v7, 3);
        let px = g[r][c];
        lemma_small_values(px);
        let vk = cell(row, c);
        assert(vk == px);
        assert(dec[r][c] == ega_pixel(bytes, width, r, c));
        if k == 0 {
            assert(vk == v0);
        } else if k == 1 {
            assert(vk == v1);
        } else if k == 2 {
            assert(vk == v2);
        } else if k == 3 {
            assert(vk == v3);
        } else if k == 4 {
            assert(vk == v4);
        } else if k == 5 {
            assert(vk == v5);
        } else if k == 6 {
            assert(vk == v6);
        } else {
            assert(vk == v7);
        }
    }
    assert(dec =~~= g);
}

/// Round trip: for either format, a grid whose indices are within the
/// format's palette and whose width is aligned to the format's
/// byte-packing boundary (and, for CGA, whose height is even, as the
/// interleaved layout stores half the scanlines in each half of the
/// buffer) is returned unchanged by decoding its own encoding.
pub proof fn lemma_round_trip(g: Seq<Seq<u8>>, width: nat, t: ImageType)
    requires
        width > 0,
        grid_uniform(g, width),
        crate::grid_indices_below(g, t.spec_palette_size()),
        t == ImageType::CGA ==> width % 4 == 0 && g.len() % 2 == 0,
        t == ImageType::EGA ==> width % 8 == 0,
    ensures
        decode_valid(encode_spec(g, width, t).len(), width, t),
        decode_spec(encode_spec(g, width, t), width, t) == g,
{
    match t {
        ImageType::CGA => lemma_cga_round_trip(g, width),
        ImageType::EGA => lemma_ega_round_trip(g, width),
    }
}

} // verus!
