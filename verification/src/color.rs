//! The palette color values: eight base colors, each in a normal and a
//! bright (intense) variant, with their ANSI terminal codes.

use vstd::prelude::*;

verus! {

/// A palette entry; the flag selects the bright variant.
#[derive(Clone, Copy, Debug, PartialEq, Eq, Structural)]
pub enum Color {
    /// ANSI black (or bright black).
    Black(bool),
    /// ANSI blue.
    Blue(bool),
    /// ANSI green.
    Green(bool),
    /// ANSI cyan.
    Cyan(bool),
    /// ANSI red.
    Red(bool),
    /// ANSI magenta.
    Magenta(bool),
    /// ANSI brown (rendered as dark yellow).
    Brown(bool),
    /// ANSI white (light gray, or bright white).
    White(bool),
}

/// An ordered list of colors; a palette index selects an entry.
pub type ColorPalette = crate::Palette<Color>;

impl Color {
    /// The ANSI foreground color code: 30-37, or 90-97 when bright.
    pub open spec fn spec_ansi_fg(self) -> u8 {
        let (base, bright): (u8, bool) = match self {
            Color::Black(i) => (30, i),
            Color::Red(i) => (31, i),
            Color::Green(i) => (32, i),
            Color::Brown(i) => (33, i),
            Color::Blue(i) => (34, i),
            Color::Magenta(i) => (35, i),
            Color::Cyan(i) => (36, i),
            Color::White(i) => (37, i),
        };
        if bright {
            (base + 60) as u8
        } else {
            base
        }
    }

    /// The ANSI background color code: the foreground code shifted by ten.
    pub open spec fn spec_ansi_bg(self) -> u8 {
        (self.spec_ansi_fg() + 10) as u8
    }

    /// The ANSI foreground color code.
    pub fn ansi_fg(self) -> (code: u8)
        ensures
            code == self.spec_ansi_fg(),
    {
        let base: u8 = match self {
            Color::Black(_) => 30,
            Color::Red(_) => 31,
            Color::Green(_) => 32,
            Color::Brown(_) => 33,
            Color::Blue(_) => 34,
            Color::Magenta(_) => 35,
            Color::Cyan(_) => 36,
            Color::White(_) => 37,
        };
        let bright = match self {
            Color::Black(i) | Color::Red(i) | Color::Green(i) | Color::Brown(i) | Color::Blue(i)
            | Color::Magenta(i) | Color::Cyan(i) | Color::White(i) => i,
        };
        if bright {
            base + 60
        } else {
            base
        }
    }

    /// The ANSI background color code.
    pub fn ansi_bg(self) -> (code: u8)
        ensures
            code == self.spec_ansi_bg(),
    {
        self.ansi_fg() + 10
    }
}

} // verus!
