//! The built-in palettes: the four classic CGA four-color tables, keyed by
//! short names with a permissive fallback, and the fixed sixteen-color EGA
//! table.

use vstd::prelude::*;

use crate::color::Color;
use crate::color::ColorPalette;
use crate::text::str_eq;

verus! {

/// CGA palette 0: black, green, red, brown.
pub open spec fn cga0_colors() -> Seq<Color> {
    seq![Color::Black(false), Color::Green(false), Color::Red(false), Color::Brown(false)]
}

/// CGA palette 0, bright variant.
pub open spec fn cga0i_colors() -> Seq<Color> {
    seq![Color::Black(false), Color::Green(true), Color::Red(true), Color::Brown(true)]
}

/// CGA palette 1: black, cyan, magenta, white.
pub open spec fn cga1_colors() -> Seq<Color> {
    seq![Color::Black(false), Color::Cyan(false), Color::Magenta(false), Color::White(false)]
}

/// CGA palette 1, bright variant.
pub open spec fn cga1i_colors() -> Seq<Color> {
    seq![Color::Black(false), Color::Cyan(true), Color::Magenta(true), Color::White(true)]
}

/// The fixed EGA table: the eight base colors, then their bright variants.
pub open spec fn ega_colors_spec() -> Seq<Color> {
    seq![
        Color::Black(false),
        Color::Blue(false),
        Color::Green(false),
        Color::Cyan(false),
        Color::Red(false),
        Color::Magenta(false),
        Color::Brown(false),
        Color::White(false),
        Color::Black(true),
        Color::Blue(true),
        Color::Green(true),
        Color::Cyan(true),
        Color::Red(true),
        Color::Magenta(true),
        Color::Brown(true),
        Color::White(true),
    ]
}

/// The palette a short name selects: `"0"`, `"0i"` and `"1i"` name their
/// tables, and any other name falls back to CGA palette 1.
pub open spec fn palette_for_abbr(name: Seq<char>) -> Seq<Color> {
    if name == "0"@ {
        cga0_colors()
    } else if name == "0i"@ {
        cga0i_colors()
    } else if name == "1i"@ {
        cga1i_colors()
    } else {
        cga1_colors()
    }
}

/// Builds a four-entry palette.
fn palette4(a: Color, b: Color, c: Color, d: Color) -> (v: ColorPalette)
    ensures
        v@ == seq![a, b, c, d],
{
    let mut v: ColorPalette = Vec::new();
    v.push(a);
    v.push(b);
    v.push(c);
    v.push(d);
    proof {
        assert(v@ =~= seq![a, b, c, d]);
    }
    v
}

/// Looks up a built-in CGA palette by its short name.
///
/// An unrecognized name is not an error: it deliberately falls back to
/// CGA palette 1.
pub fn palette_from_abbr(name: &str) -> (v: ColorPalette)
    ensures
        v@ == palette_for_abbr(name@),
{
    if str_eq(name, "0") {
        palette4(Color::Black(false), Color::Green(false), Color::Red(false), Color::Brown(false))
    } else if str_eq(name, "0i") {
        palette4(Color::Black(false), Color::Green(true), Color::Red(true), Color::Brown(true))
    } else if str_eq(name, "1i") {
        palette4(Color::Black(false), Color::Cyan(true), Color::Magenta(true), Color::White(true))
    } else {
        palette4(Color::Black(false), Color::Cyan(false), Color::Magenta(false), Color::White(false))
    }
}

/// The fixed sixteen-color EGA palette.
pub fn ega_colors() -> (v: ColorPalette)
    ensures
        v@ == ega_colors_spec(),
{
    let mut v: ColorPalette = Vec::new();
    v.push(Color::Black(false));
    v.push(Color::Blue(false));
    v.push(Color::Green(false));
    v.push(Color::Cyan(false));
    v.push(Color::Red(false));
    v.push(Color::Magenta(false));
    v.push(Color::Brown(false));
    v.push(Color::White(false));
    v.push(Color::Black(true));
    v.push(Color::Blue(true));
    v.push(Color::Green(true));
    v.push(Color::Cyan(true));
    v.push(Color::Red(true));
    v.push(Color::Magenta(true));
    v.push(Color::Brown(true));
    v.push(Color::White(true));
    proof {
        assert(v@ =~= ega_colors_spec());
    }
    v
}

} // verus!
