use cega::color::Color;
use cega::image::Image;
use cega::palette::{ega_colors, palette_from_abbr};
use cega::terminal::{
    ansi_codes, default_char_palette, disable_wrapping, half_ansi_codes, parse_asci_param,
    to_string, TerminalMode, TerminalPalette,
};
use cega::ImageType;

#[test]
fn palette_abbreviations() {
    assert_eq!(
        palette_from_abbr("0"),
        vec![
            Color::Black(false),
            Color::Green(false),
            Color::Red(false),
            Color::Brown(false)
        ]
    );
    assert_eq!(
        palette_from_abbr("0i"),
        vec![
            Color::Black(false),
            Color::Green(true),
            Color::Red(true),
            Color::Brown(true)
        ]
    );
    assert_eq!(
        palette_from_abbr("1i"),
        vec![
            Color::Black(false),
            Color::Cyan(true),
            Color::Magenta(true),
            Color::White(true)
        ]
    );
    // Any unrecognized name falls back to CGA palette 1.
    let fallback = vec![
        Color::Black(false),
        Color::Cyan(false),
        Color::Magenta(false),
        Color::White(false),
    ];
    assert_eq!(palette_from_abbr("1"), fallback.clone());
    assert_eq!(palette_from_abbr("no-such-palette"), fallback);
}

#[test]
fn ega_palette_has_sixteen_colors() {
    let colors = ega_colors();
    assert_eq!(colors.len(), 16);
    assert_eq!(colors[0], Color::Black(false));
    assert_eq!(colors[15], Color::White(true));
}

#[test]
fn ansi_color_codes() {
    assert_eq!(Color::Black(false).ansi_fg(), 30);
    assert_eq!(Color::White(false).ansi_fg(), 37);
    assert_eq!(Color::Black(true).ansi_fg(), 90);
    assert_eq!(Color::White(true).ansi_fg(), 97);
    assert_eq!(Color::Red(false).ansi_bg(), 41);
    assert_eq!(Color::Cyan(true).ansi_bg(), 106);
}

#[test]
fn ansi_code_string() {
    assert_eq!(ansi_codes(31, &'x'), "\x1b[31mx\x1b[0m");
    assert_eq!(ansi_codes(106, &' '), "\x1b[106m \x1b[0m");
}

#[test]
fn half_ansi_code_strings() {
    let pair = half_ansi_codes(31, 41, '▌');
    assert_eq!(pair[0], "\x1b[31;");
    assert_eq!(pair[1], "41m▌\x1b[0m");
    let pair = TerminalPalette::half_ansi_codes(90, 100, '▌');
    assert_eq!(pair[0], "\x1b[90;");
    assert_eq!(pair[1], "100m▌\x1b[0m");
}

#[test]
fn mode_from_short_flag() {
    assert!(matches!(TerminalMode::from_short("a"), Ok(TerminalMode::Ascii)));
    assert!(matches!(
        TerminalMode::from_short("c"),
        Ok(TerminalMode::ColoredAscii)
    ));
    assert!(matches!(TerminalMode::from_short("p"), Ok(TerminalMode::Pixels)));
    assert!(matches!(
        TerminalMode::from_short("h"),
        Ok(TerminalMode::HorizontalHalf)
    ));
    assert_eq!(
        TerminalMode::from_short("z"),
        Err("possible values: a, c, p, h".to_string())
    );
}

#[test]
fn custom_ascii_argument() {
    assert_eq!(parse_asci_param(""), Ok(String::new()));
    assert_eq!(parse_asci_param(" +%0"), Ok(" +%0".to_string()));
    assert_eq!(
        parse_asci_param("abc"),
        Err("requires a 4 character string like: -a \" +%0\"".to_string())
    );
}

#[test]
fn default_char_palettes() {
    assert_eq!(default_char_palette(ImageType::CGA), vec![' ', '*', '+', '▒']);
    let ega = default_char_palette(ImageType::EGA);
    assert_eq!(ega.len(), 16);
    assert_eq!(ega[0], ' ');
    assert_eq!(ega[15], '█');
}

#[test]
fn adjusted_index_per_mode() {
    assert_eq!(TerminalMode::Ascii.adjusted_index(2, 3), 2);
    assert_eq!(TerminalMode::HorizontalHalf.adjusted_index(2, 3), 5);
    assert_eq!(TerminalMode::HorizontalHalf.adjusted_index(2, 4), 4);
    assert_eq!(TerminalPalette::hhalf_adjusted_index(3, 7), 7);
}

#[test]
fn terminal_palette_ascii_mode() {
    let chars = vec!['a', 'b', 'c', 'd'];
    let tp = TerminalPalette::new(TerminalMode::Ascii, chars, palette_from_abbr("1"));
    assert_eq!(tp.terminal, vec!["a", "b", "c", "d"]);
}

#[test]
fn terminal_palette_colored_modes() {
    let chars = default_char_palette(ImageType::CGA);
    let colors = palette_from_abbr("1");
    let tp = TerminalPalette::new(TerminalMode::ColoredAscii, chars.clone(), colors.clone());
    assert_eq!(tp.terminal[1], "\x1b[36m*\x1b[0m");
    let tp = TerminalPalette::new(TerminalMode::Pixels, chars.clone(), colors.clone());
    assert_eq!(tp.terminal[0], "\x1b[40m \x1b[0m");
    let tp = TerminalPalette::new(TerminalMode::HorizontalHalf, chars, colors);
    assert_eq!(tp.terminal.len(), 8);
    assert_eq!(tp.terminal[2], "\x1b[36;");
    assert_eq!(tp.terminal[3], "46m▌\x1b[0m");
}

#[test]
fn adjusted_get_picks_slot() {
    let chars = vec!['a', 'b', 'c', 'd'];
    let tp = TerminalPalette::new(TerminalMode::Ascii, chars, palette_from_abbr("1"));
    assert_eq!(tp.adjusted_get(2, 11), "c");
}

#[test]
fn apply_maps_every_cell() {
    let chars = vec!['a', 'b', 'c', 'd'];
    let tp = TerminalPalette::new(TerminalMode::Ascii, chars, palette_from_abbr("1"));
    let grid = vec![vec![0u8, 1], vec![3, 2]];
    let out = tp.apply(grid);
    assert_eq!(out, vec![vec!["a", "b"], vec!["d", "c"]]);
}

#[test]
fn grid_to_string_joins_rows() {
    let grid = vec![
        vec!["ab".to_string(), "cd".to_string()],
        vec!["e".to_string()],
    ];
    assert_eq!(to_string(grid), "abcd\ne");
}

#[test]
fn wrapping_escapes_surround_string() {
    assert_eq!(disable_wrapping("x".to_string()), "\x1b[?7lx\x1b[?7h");
}

#[test]
fn render_whole_image() {
    let bytes = vec![0b00011011u8, 0b11100100u8];
    let image = Image::new(&bytes, 4, ImageType::CGA).unwrap();
    let tp = TerminalPalette::new(
        TerminalMode::Ascii,
        default_char_palette(ImageType::CGA),
        palette_from_abbr("1"),
    );
    let s = tp.output_image_string(&image);
    assert_eq!(s, "\x1b[?7l\n *+▒\n▒+* \x1b[?7h");
}
