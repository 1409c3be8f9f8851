//! Rendering a decoded grid as ANSI terminal text: per-index escape-code
//! palettes, the four output modes, and the final string assembly.

use vstd::prelude::*;
use vstd::string::StringExecFns;

use crate::color::Color;
use crate::color::ColorPalette;
use crate::image::Image;
use crate::text::dec_chars;
use crate::text::push_char;
use crate::text::push_u8_decimal;
use crate::text::str_eq;
use crate::Grid;
use crate::ImageType;
use crate::RawGrid;

verus! {

/// An ordered list of display characters; a palette index selects one.
pub type CharPalette = crate::Palette<char>;

/// The characters of the ANSI escape introducer.
pub open spec fn esc_chars() -> Seq<char> {
    seq!['\x1b', '[']
}

/// The characters of the ANSI attribute reset.
pub open spec fn reset_chars() -> Seq<char> {
    seq!['\x1b', '[', '0', 'm']
}

/// The characters of the line-wrap disable escape.
pub open spec fn disable_wrap_chars() -> Seq<char> {
    seq!['\x1b', '[', '?', '7', 'l']
}

/// The characters of the line-wrap enable escape.
pub open spec fn enable_wrap_chars() -> Seq<char> {
    seq!['\x1b', '[', '?', '7', 'h']
}

/// One colored character: escape, color code, `m`, the character, reset.
pub open spec fn ansi_code_chars(co: u8, ch: char) -> Seq<char> {
    esc_chars() + dec_chars(co as nat) + seq!['m', ch] + reset_chars()
}

/// The opening half of a two-color cell: escape, foreground code, `;`.
pub open spec fn half_open_chars(fg: u8) -> Seq<char> {
    esc_chars() + dec_chars(fg as nat) + seq![';']
}

/// The closing half of a two-color cell: background code, `m`, the
/// character, reset.
pub open spec fn half_close_chars(bg: u8, ch: char) -> Seq<char> {
    dec_chars(bg as nat) + seq!['m', ch] + reset_chars()
}

/// The default character ramp for four-color images.
pub open spec fn cga_char_seq() -> Seq<char> {
    seq![' ', '*', '+', '▒']
}

/// The default character ramp for sixteen-color images, dark to bright.
pub open spec fn ega_char_seq() -> Seq<char> {
    seq![' ', '.', ':', '-', '=', '+', '*', '▒', '▓', '•', '#', '‖', '%', '@', '⁌', '█']
}

/// The default character palette for a format: one character per palette
/// entry.
pub fn default_char_palette(image_type: ImageType) -> (v: CharPalette)
    ensures
        v@ == (match image_type {
            ImageType::CGA => cga_char_seq(),
            ImageType::EGA => ega_char_seq(),
        }),
{
    let mut v: CharPalette = Vec::new();
    match image_type {
        ImageType::CGA => {
            v.push(' ');
            v.push('*');
            v.push('+');
            v.push('▒');
            proof {
                assert(v@ =~= cga_char_seq());
            }
        },
        ImageType::EGA => {
            v.push(' ');
            v.push('.');
            v.push(':');
            v.push('-');
            v.push('=');
            v.push('+');
            v.push('*');
            v.push('▒');
            v.push('▓');
            v.push('•');
            v.push('#');
            v.push('‖');
            v.push('%');
            v.push('@');
            v.push('⁌');
            v.push('█');
            proof {
                assert(v@ =~= ega_char_seq());
            }
        },
    }
    v
}

/// One colored character as a `String`.
pub fn ansi_codes(co: u8, ch: &char) -> (s: String)
    ensures
        s@ == ansi_code_chars(co, *ch),
{
    let mut s = String::new();
    s.append("\x1b[");
    push_u8_decimal(&mut s, co);
    push_char(&mut s, 'm');
    push_char(&mut s, *ch);
    s.append("\x1b[0m");
    proof {
        reveal_strlit("\x1b[");
        reveal_strlit("\x1b[0m");
        assert(s@ =~= ansi_code_chars(co, *ch));
    }
    s
}

/// The opening half of a two-color cell as a `String`.
fn half_open(fg: u8) -> (s: String)
    ensures
        s@ == half_open_chars(fg),
{
    let mut s = String::new();
    s.append("\x1b[");
    push_u8_decimal(&mut s, fg);
    push_char(&mut s, ';');
    proof {
        reveal_strlit("\x1b[");
        assert(s@ =~= half_open_chars(fg));
    }
    s
}

/// The closing half of a two-color cell as a `String`.
fn half_close(bg: u8, ch: char) -> (s: String)
    ensures
        s@ == half_close_chars(bg, ch),
{
    let mut s = String::new();
    push_u8_decimal(&mut s, bg);
    push_char(&mut s, 'm');
    push_char(&mut s, ch);
    s.append("\x1b[0m");
    proof {
        reveal_strlit("\x1b[0m");
        assert(s@ =~= half_close_chars(bg, ch));
    }
    s
}

/// The two strings that render one index in the half-block mode: the
/// foreground half and the background half.
pub fn half_ansi_codes(fg: u8, bg: u8, ch: char) -> (pair: [String; 2])
    ensures
        pair@.len() == 2,
        pair@[0]@ == half_open_chars(fg),
        pair@[1]@ == half_close_chars(bg, ch),
{
    let pair = [half_open(fg), half_close(bg, ch)];
    pair
}

/// How a grid is rendered to the terminal.
#[derive(Clone, Copy, Debug, PartialEq, Eq, Structural)]
pub enum TerminalMode {
    /// Plain characters.
    Ascii,
    /// Characters in their palette's foreground color.
    ColoredAscii,
    /// Full background-colored blank cells.
    Pixels,
    /// Half-block characters, two pixels per cell for double density.
    HorizontalHalf,
}

impl TerminalMode {
    /// Selects a mode from its one-letter flag.
    pub fn from_short(short: &str) -> (res: Result<TerminalMode, String>)
        ensures
            match res {
                Ok(m) => {
                    &&& (m == TerminalMode::Ascii <==> short@ == "a"@)
                    &&& (m == TerminalMode::ColoredAscii <==> short@ == "c"@)
                    &&& (m == TerminalMode::Pixels <==> short@ == "p"@)
                    &&& (m == TerminalMode::HorizontalHalf <==> short@ == "h"@)
                },
                Err(e) => {
                    &&& e@ == "possible values: a, c, p, h"@
                    &&& short@ != "a"@ && short@ != "c"@ && short@ != "p"@ && short@ != "h"@
                },
            },
    {
        proof {
            reveal_strlit("a");
            reveal_strlit("c");
            reveal_strlit("p");
            reveal_strlit("h");
            assert("a"@.len() == 1 && "a"@[0] == 'a');
            assert("c"@.len() == 1 && "c"@[0] == 'c');
            assert("p"@.len() == 1 && "p"@[0] == 'p');
            assert("h"@.len() == 1 && "h"@[0] == 'h');
            assert("a"@ != "c"@ && "a"@ != "p"@ && "a"@ != "h"@ && "c"@ != "p"@ && "c"@ != "h"@
                && "p"@ != "h"@);
        }
        if str_eq(short, "a") {
            Ok(TerminalMode::Ascii)
        } else if str_eq(short, "c") {
            Ok(TerminalMode::ColoredAscii)
        } else if str_eq(short, "p") {
            Ok(TerminalMode::Pixels)
        } else if str_eq(short, "h") {
            Ok(TerminalMode::HorizontalHalf)
        } else {
            Err("possible values: a, c, p, h".to_owned())
        }
    }

    /// The palette slot that cell `i` of a row uses for index `index`: in
    /// the half-block mode each index owns two slots and the cell's
    /// parity picks one; other modes use the index itself.
    pub open spec fn spec_adjusted_index(self, index: int, i: int) -> int {
        match self {
            TerminalMode::HorizontalHalf => 2 * index + i % 2,
            _ => index,
        }
    }

    /// The palette slot that cell `i` uses for index `index`.
    pub fn adjusted_index(&self, index: usize, i: usize) -> (r: usize)
        requires
            2 * index + 1 <= usize::MAX,
        ensures
            r == self.spec_adjusted_index(index as int, i as int),
    {
        match self {
            TerminalMode::HorizontalHalf => (index * 2) + (i % 2),
            _ => index,
        }
    }
}

/// The per-index terminal strings of one mode and palette pair.
///
/// In the half-block mode, slots `2i` and `2i + 1` hold the two halves of
/// index `i`'s cell; in every other mode, slot `i` renders index `i`.
pub open spec fn terminal_entries(mode: TerminalMode, chars: Seq<char>, colors: Seq<Color>) -> Seq<
    Seq<char>,
> {
    match mode {
        TerminalMode::Ascii => Seq::new(chars.len(), |i: int| seq![chars[i]]),
        TerminalMode::ColoredAscii => Seq::new(
            chars.len(),
            |i: int| ansi_code_chars(colors[i].spec_ansi_fg(), chars[i]),
        ),
        TerminalMode::Pixels => Seq::new(
            colors.len(),
            |i: int| ansi_code_chars(colors[i].spec_ansi_bg(), ' '),
        ),
        TerminalMode::HorizontalHalf => Seq::new(
            2 * colors.len(),
            |i: int|
                if i % 2 == 0 {
                    half_open_chars(colors[i / 2].spec_ansi_fg())
                } else {
                    half_close_chars(colors[i / 2].spec_ansi_bg(), '▌')
                },
        ),
    }
}

/// A palette of ready-made terminal strings, one (or two, in the
/// half-block mode) per palette index.
pub struct TerminalPalette {
    /// The mode the strings were built for.
    pub mode: TerminalMode,
    /// The per-slot strings.
    pub terminal: crate::Palette<String>,
}

impl TerminalPalette {
    /// Builds the per-index strings for a mode from a character palette
    /// and a color palette of equal length.
    #[verifier::loop_isolation(false)]
    pub fn new(mode: TerminalMode, chars: CharPalette, colors: ColorPalette) -> (res:
        TerminalPalette)
        requires
            chars@.len() == colors@.len(),
        ensures
            res.mode == mode,
            res.terminal.deep_view() == terminal_entries(mode, chars@, colors@),
    {
        let ghost entries = terminal_entries(mode, chars@, colors@);
        let n = chars.len();
        let mut terminal: Vec<String> = Vec::new();
        match mode {
            TerminalMode::Ascii => {
                let mut i: usize = 0;
                while i < n
                    invariant
                        i <= n,
                        terminal@.len() == i,
                        forall|t: int| 0 <= t < i ==> terminal@[t]@ == entries[t],
                    decreases n - i,
                {
                    let mut s = String::new();
                    push_char(&mut s, chars[i]);
                    terminal.push(s);
                    i += 1;
                }
            },
            TerminalMode::ColoredAscii => {
                let mut i: usize = 0;
                while i < n
                    invariant
                        i <= n,
                        terminal@.len() == i,
                        forall|t: int| 0 <= t < i ==> terminal@[t]@ == entries[t],
                    decreases n - i,
                {
                    let s = ansi_codes(colors[i].ansi_fg(), &chars[i]);
                    terminal.push(s);
                    i += 1;
                }
            },
            TerminalMode::Pixels => {
                let mut i: usize = 0;
                while i < n
                    invariant
                        i <= n,
                        terminal@.len() == i,
                        forall|t: int| 0 <= t < i ==> terminal@[t]@ == entries[t],
                    decreases n - i,
                {
                    let s = ansi_codes(colors[i].ansi_bg(), &' ');
                    terminal.push(s);
                    i += 1;
                }
            },
            TerminalMode::HorizontalHalf => {
                let mut i: usize = 0;
                while i < n
                    invariant
                        i <= n,
                        terminal@.len() == 2 * i,
                        forall|t: int| 0 <= t < 2 * i ==> terminal@[t]@ == entries[t],
                    decreases n - i,
                {
                    let opener = half_open(colors[i].ansi_fg());
                    let closer = half_close(colors[i].ansi_bg(), '▌');
                    terminal.push(opener);
                    terminal.push(closer);
                    proof {
                        assert((2 * i as int) % 2 == 0 && (2 * i as int) / 2 == i as int);
                        assert((2 * i as int + 1) % 2 == 1 && (2 * i as int + 1) / 2 == i as int);
                    }
                    i += 1;
                }
            },
        }
        let res = TerminalPalette { mode, terminal };
        proof {
            assert(res.terminal.deep_view() =~= entries);
        }
        res
    }

    /// The opening and closing strings of one half-block cell.
    pub fn half_ansi_codes(fg: u8, bg: u8, ch: char) -> (pair: [String; 2])
        ensures
            pair@.len() == 2,
            pair@[0]@ == half_open_chars(fg),
            pair@[1]@ == half_close_chars(bg, ch),
    {
        half_ansi_codes(fg, bg, ch)
    }

    /// One colored character as a `String`.
    pub fn ansi_codes(co: u8, ch: char) -> (s: String)
        ensures
            s@ == ansi_code_chars(co, ch),
    {
        ansi_codes(co, &ch)
    }

    /// The half-block palette slot of index `index` at flat position `i`.
    pub fn hhalf_adjusted_index(index: usize, i: usize) -> (r: usize)
        requires
            2 * index + 1 <= usize::MAX,
        ensures
            r == 2 * index + i % 2,
    {
        (index * 2) + (i % 2)
    }

    /// The ready-made string of palette slot `index`, adjusted for the
    /// cell position `i`.
    pub fn adjusted_get(&self, index: usize, i: usize) -> (s: String)
        requires
            2 * index + 1 <= usize::MAX,
            0 <= self.mode.spec_adjusted_index(index as int, i as int)
                < self.terminal.deep_view().len(),
        ensures
            s@ == self.terminal.deep_view()[self.mode.spec_adjusted_index(index as int, i as int)],
    {
        let slot = self.mode.adjusted_index(index, i);
        self.terminal[slot].clone()
    }

    /// Renders every cell of a grid through the palette: cell `i` of a
    /// row shows the string of its index's slot, adjusted for `i`.
    #[verifier::loop_isolation(false)]
    pub fn apply(&self, image_data: RawGrid) -> (out: Grid<String>)
        requires
            forall|r: int, c: int|
                0 <= r < image_data.deep_view().len() && 0 <= c < image_data.deep_view()[r].len()
                    ==> 0 <= self.mode.spec_adjusted_index(
                    (#[trigger] image_data.deep_view()[r][c]) as int,
                    c,
                ) < self.terminal.deep_view().len(),
        ensures
            out.deep_view().len() == image_data.deep_view().len(),
            forall|r: int|
                0 <= r < out.deep_view().len() ==> out.deep_view()[r].len()
                    == image_data.deep_view()[r].len(),
            forall|r: int, c: int|
                0 <= r < out.deep_view().len() && 0 <= c < out.deep_view()[r].len()
                    ==> out.deep_view()[r][c] == self.terminal.deep_view()[
                    self.mode.spec_adjusted_index(image_data.deep_view()[r][c] as int, c)],
    {
        let ghost g = image_data.deep_view();
        let mut out: Grid<String> = Vec::new();
        let mut r: usize = 0;
        let rows = image_data.len();
        while r < rows
            invariant
                r <= rows,
                out@.len() == r,
                forall|rr: int| 0 <= rr < r ==> out@[rr].deep_view().len() == g[rr].len(),
                forall|rr: int, cc: int|
                    0 <= rr < r && 0 <= cc < g[rr].len() ==> out@[rr].deep_view()[cc]
                        == self.terminal.deep_view()[self.mode.spec_adjusted_index(
                        g[rr][cc] as int,
                        cc,
                    )],
            decreases rows - r,
        {
            let row = &image_data[r];
            let cols = row.len();
            let mut out_row: Vec<String> = Vec::new();
            let mut c: usize = 0;
            while c < cols
                invariant
                    c <= cols,
                    cols == g[r as int].len(),
                    out_row@.len() == c,
                    forall|cc: int|
                        0 <= cc < c ==> out_row@[cc]@ == self.terminal.deep_view()[
                        self.mode.spec_adjusted_index(g[r as int][cc] as int, cc)],
                decreases cols - c,
            {
                let px = row[c];
                proof {
                    assert(px == g[r as int][c as int]);
                    assert(0 <= self.mode.spec_adjusted_index(
                        (g[r as int][c as int]) as int,
                        c as int,
                    ) < self.terminal.deep_view().len());
                }
                let s = self.adjusted_get(px as usize, c);
                out_row.push(s);
                c += 1;
            }
            proof {
                assert(out_row.deep_view().len() == g[r as int].len());
            }
            out.push(out_row);
            r += 1;
        }
        out
    }
}

/// Whether a slot palette of `len` entries has a slot for every index
/// below `psize` in the given mode.
pub open spec fn entries_cover(mode: TerminalMode, len: nat, psize: nat) -> bool {
    match mode {
        TerminalMode::HorizontalHalf => len >= 2 * psize,
        _ => len >= psize,
    }
}

/// The first `k` cells of one rendered row; `base` is the flat position
/// of the row's first cell.
pub open spec fn rendered_row(
    entries: Seq<Seq<char>>,
    mode: TerminalMode,
    row: Seq<u8>,
    base: int,
    k: nat,
) -> Seq<char>
    decreases k,
{
    if k == 0 {
        Seq::empty()
    } else {
        rendered_row(entries, mode, row, base, (k - 1) as nat) + entries[mode.spec_adjusted_index(
            row[k - 1] as int,
            base + k - 1,
        )]
    }
}

/// The first `k` rendered rows, each preceded by a newline.
pub open spec fn rendered_rows(
    entries: Seq<Seq<char>>,
    mode: TerminalMode,
    g: Seq<Seq<u8>>,
    width: nat,
    k: nat,
) -> Seq<char>
    decreases k,
{
    if k == 0 {
        Seq::empty()
    } else {
        rendered_rows(entries, mode, g, width, (k - 1) as nat) + seq!['\n'] + rendered_row(
            entries,
            mode,
            g[k - 1],
            (k - 1) * width,
            g[k - 1].len(),
        )
    }
}

/// The whole rendered image: wrap-disable, each row on its own line, then
/// wrap-enable.
pub open spec fn rendered_image(
    entries: Seq<Seq<char>>,
    mode: TerminalMode,
    g: Seq<Seq<u8>>,
    width: nat,
) -> Seq<char> {
    disable_wrap_chars() + rendered_rows(entries, mode, g, width, g.len()) + enable_wrap_chars()
}

impl TerminalPalette {
    /// Renders a whole image to one terminal string: line wrapping
    /// disabled, then each row on its own line, cell by cell through the
    /// palette, then wrapping re-enabled.
    #[verifier::loop_isolation(false)]
    pub fn output_image_string(&self, image: &Image) -> (s: String)
        requires
            image.wf(),
            entries_cover(
                self.mode,
                self.terminal@.len(),
                image.image_type.spec_palette_size(),
            ),
            image.spec_height() * image.width <= usize::MAX,
        ensures
            s@ == rendered_image(
                self.terminal.deep_view(),
                self.mode,
                image.grid(),
                image.width as nat,
            ),
    {
        let ghost entries = self.terminal.deep_view();
        let ghost g = image.grid();
        let width = image.width;
        let height = image.data.len();
        let mut buffer = String::new();
        buffer.append("\x1b[?7l");
        proof {
            reveal_strlit("\x1b[?7l");
            assert(buffer@ =~= disable_wrap_chars());
        }
        let mut i: usize = 0;
        let mut r: usize = 0;
        while r < height
            invariant
                r <= height,
                i == r * width,
                i <= height * width,
                buffer@ == disable_wrap_chars() + rendered_rows(
                    entries,
                    self.mode,
                    g,
                    width as nat,
                    r as nat,
                ),
            decreases height - r,
        {
            push_char(&mut buffer, '\n');
            let row = &image.data[r];
            proof {
                assert(row@ == g[r as int]);
                assert(row@.len() == width);
                assert((r + 1) * width <= height * width) by (nonlinear_arith)
                    requires
                        r + 1 <= height && width >= 0,
                ;
                assert(r * width + width == (r + 1) * width) by (nonlinear_arith);
            }
            let mut c: usize = 0;
            while c < width
                invariant
                    c <= width,
                    i == r * width + c,
                    buffer@ == disable_wrap_chars() + rendered_rows(
                        entries,
                        self.mode,
                        g,
                        width as nat,
                        r as nat,
                    ) + seq!['\n'] + rendered_row(
                        entries,
                        self.mode,
                        g[r as int],
                        (r as int) * (width as int),
                        c as nat,
                    ),
                decreases width - c,
            {
                let px = row[c];
                proof {
                    assert(px == g[r as int][c as int]);
                    assert(px < image.image_type.spec_palette_size());
                }
                let slot = self.mode.adjusted_index(px as usize, i);
                proof {
                    if self.mode is HorizontalHalf {
                        assert(slot as int == 2 * (px as int) + (i as int) % 2);
                        assert(0 <= (i as int) % 2 <= 1);
                        assert(slot < 2 * image.image_type.spec_palette_size());
                    }
                    assert(slot < self.terminal@.len());
                    assert(self.terminal@[slot as int]@ == entries[slot as int]);
                }
                buffer.append(self.terminal[slot].as_str());
                proof {
                    assert(rendered_row(
                        entries,
                        self.mode,
                        g[r as int],
                        (r as int) * (width as int),
                        (c + 1) as nat,
                    ) == rendered_row(
                        entries,
                        self.mode,
                        g[r as int],
                        (r as int) * (width as int),
                        c as nat,
                    ) + entries[self.mode.spec_adjusted_index(
                        g[r as int][c as int] as int,
                        (r as int) * (width as int) + c,
                    )]);
                    assert((i as int) == (r as int) * (width as int) + c);
                }
                i += 1;
                c += 1;
            }
            proof {
                assert(rendered_rows(entries, self.mode, g, width as nat, (r + 1) as nat)
                    == rendered_rows(entries, self.mode, g, width as nat, r as nat) + seq!['\n']
                    + rendered_row(
                    entries,
                    self.mode,
                    g[r as int],
                    (r as int) * (width as int),
                    width as nat,
                ));
            }
            r += 1;
        }
        buffer.append("\x1b[?7h");
        proof {
            reveal_strlit("\x1b[?7h");
            assert(buffer@ =~= rendered_image(entries, self.mode, g, width as nat));
        }
        buffer
    }
}

/// Validates the custom character-palette argument: empty (use the
/// default) or exactly four characters.
pub fn parse_asci_param(arg: &str) -> (res: Result<String, String>)
    ensures
        match res {
            Ok(s) => s@ == arg@ && (arg@.len() == 0 || arg@.len() == 4),
            Err(e) => {
                &&& e@ == "requires a 4 character string like: -a \" +%0\""@
                &&& arg@.len() != 0 && arg@.len() != 4
            },
        },
{
    let n = arg.unicode_len();
    if n == 0 || n == 4 {
        Ok(arg.to_owned())
    } else {
        Err("requires a 4 character string like: -a \" +%0\"".to_owned())
    }
}

/// Joins a grid of cell strings into one string, rows separated by
/// newlines: the concatenation of a row's cells, in order.
pub open spec fn row_concat(row: Seq<Seq<char>>) -> Seq<char>
    decreases row.len(),
{
    if row.len() == 0 {
        Seq::empty()
    } else {
        row_concat(row.drop_last()) + row.last()
    }
}

/// The joined grid: rows' concatenations separated by single newlines.
pub open spec fn grid_join(g: Seq<Seq<Seq<char>>>) -> Seq<char>
    decreases g.len(),
{
    if g.len() == 0 {
        Seq::empty()
    } else if g.len() == 1 {
        row_concat(g[0])
    } else {
        grid_join(g.drop_last()) + seq!['\n'] + row_concat(g.last())
    }
}

/// Appending one more cell extends a row's concatenation by that cell.
proof fn lemma_row_concat_step(row: Seq<Seq<char>>, c: int)
    requires
        0 <= c < row.len(),
    ensures
        row_concat(row.take(c + 1)) == row_concat(row.take(c)) + row[c],
{
    assert(row.take(c + 1).drop_last() =~= row.take(c));
    assert(row.take(c + 1).last() == row[c]);
}

/// Appending one more row extends the join by a newline and that row.
proof fn lemma_grid_join_step(g: Seq<Seq<Seq<char>>>, r: int)
    requires
        0 <= r < g.len(),
    ensures
        grid_join(g.take(r + 1)) == if r == 0 {
            row_concat(g[0])
        } else {
            grid_join(g.take(r)) + seq!['\n'] + row_concat(g[r])
        },
{
    assert(g.take(r + 1).drop_last() =~= g.take(r));
    assert(g.take(r + 1).last() == g[r]);
    if r == 0 {
        assert(g.take(1)[0] == g[0]);
    }
}

/// Joins a grid of rendered cells into one newline-separated string.
#[verifier::loop_isolation(false)]
pub fn to_string(grid: Grid<String>) -> (s: String)
    ensures
        s@ == grid_join(grid.deep_view()),
{
    let ghost g = grid.deep_view();
    let mut buffer = String::new();
    let rows = grid.len();
    let mut r: usize = 0;
    while r < rows
        invariant
            r <= rows,
            buffer@ == grid_join(g.take(r as int)),
        decreases rows - r,
    {
        if r > 0 {
            push_char(&mut buffer, '\n');
        }
        let row = &grid[r];
        let cols = row.len();
        let mut c: usize = 0;
        while c < cols
            invariant
                c <= cols,
                cols == row@.len(),
                row@ == grid@[r as int]@,
                buffer@ == grid_join(g.take(r as int)) + (if r == 0 {
                    Seq::<char>::empty()
                } else {
                    seq!['\n']
                }) + row_concat(g[r as int].take(c as int)),
            decreases cols - c,
        {
            let cell = &row[c];
            buffer.append(cell.as_str());
            proof {
                assert(cell@ == g[r as int][c as int]);
                lemma_row_concat_step(g[r as int], c as int);
            }
            c += 1;
        }
        proof {
            assert(g[r as int].take(cols as int) =~= g[r as int]);
            lemma_grid_join_step(g, r as int);
            if r == 0 {
                assert(buffer@ =~= grid_join(g.take(r as int + 1)));
            } else {
                assert(buffer@ =~= grid_join(g.take(r as int + 1)));
            }
        }
        r += 1;
    }
    proof {
        assert(g.take(rows as int) =~= g);
    }
    buffer
}

/// Wraps a rendered image in the escapes that disable and re-enable
/// terminal line wrapping, so wide rows crop instead of wrapping.
pub fn disable_wrapping(string: String) -> (s: String)
    ensures
        s@ == disable_wrap_chars() + string@ + enable_wrap_chars(),
{
    let mut s = String::new();
    s.append("\x1b[?7l");
    s.append(string.as_str());
    s.append("\x1b[?7h");
    proof {
        reveal_strlit("\x1b[?7l");
        reveal_strlit("\x1b[?7h");
        assert(s@ =~= disable_wrap_chars() + string@ + enable_wrap_chars());
    }
    s
}

} // verus!
