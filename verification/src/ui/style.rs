//! Colors and text styles, and how to write them to a terminal.

use vstd::prelude::*;
use crate::text::chars::{chars_of, string_of, extend_chars, joined, push_joined};
use crate::text::digits::{push_decimal, decimal_chars};
use crate::ui::palette;

verus! {

/// A 24-bit color
#[derive(Clone, Copy, Debug, PartialEq, Eq, Structural)]
pub struct Rgb(pub u8, pub u8, pub u8);

/// A channel's step in the xterm palette's 6×6×6 cube.
pub open spec fn cube_level(c: u8) -> int {
    if c <= 47 {
        0
    } else if c <= 114 {
        1
    } else {
        (c - 35) / 40
    }
}

pub open spec fn max3(a: u8, b: u8, c: u8) -> u8 {
    let m = if a >= b { a } else { b };
    if m >= c { m } else { c }
}

pub open spec fn min3(a: u8, b: u8, c: u8) -> u8 {
    let m = if a <= b { a } else { b };
    if m <= c { m } else { c }
}

/// Whether a color is close enough to grey to use the greyscale ramp.
pub open spec fn is_greyish(c: Rgb) -> bool {
    max3(c.0, c.1, c.2) - min3(c.0, c.1, c.2) < 12
}

/// The colors for which the palette index is computed without overflow: a
/// grey whose red channel lies in 4..8 underflows the ramp's arithmetic.
pub open spec fn ansi256_defined(c: Rgb) -> bool {
    !(is_greyish(c) && 4 <= c.0 && c.0 < 8)
}

/// The nearest entry of the xterm 256-color palette.
pub open spec fn ansi256(c: Rgb) -> int {
    if is_greyish(c) {
        if c.0 < 4 {
            16
        } else if c.0 > 246 {
            231
        } else {
            232 + (c.0 - 8) * 24 / 247
        }
    } else {
        16 + 36 * cube_level(c.0) + 6 * cube_level(c.1) + cube_level(c.2)
    }
}

fn channel_level(c: u8) -> (r: u8)
    ensures
        r == cube_level(c),
        r <= 5,
{
    if c <= 47 {
        0
    } else if c <= 114 {
        1
    } else {
        ((c as u16 - 35) / 40) as u8
    }
}

impl Rgb {
    /// The nearest color in the xterm 256-color palette's 6×6×6 cube, or its
    /// greyscale ramp, for terminals without 24-bit color.
    pub fn to_ansi256(self) -> (r: u8)
        requires
            ansi256_defined(self),
        ensures
            r == ansi256(self),
    {
        let Rgb(r, g, b) = self;
        let max = if r >= g { r } else { g };
        let max = if max >= b { max } else { b };
        let min = if r <= g { r } else { g };
        let min = if min <= b { min } else { b };
        if max - min < 12 {
            if r < 4 {
                return 16;
            }
            if r > 246 {
                return 231;
            }
            let step: u16 = (r as u16 - 8) * 24 / 247;
            assert(step <= 23) by (nonlinear_arith)
                requires step == (r as u16 - 8) * 24 / 247, 8 <= r <= 246;
            return 232 + step as u8;
        }
        16 + 36 * channel_level(r) + 6 * channel_level(g) + channel_level(b)
    }
}

/// How a piece of text should look
#[derive(Clone, Copy, Debug, PartialEq, Eq, Structural)]
pub struct Style {
    pub fg: Option<Rgb>,
    pub bg: Option<Rgb>,
    pub bold: bool,
    pub italic: bool,
    pub underline: bool,
}

/// The style that changes nothing.
pub open spec fn plain_style() -> Style {
    Style { fg: None, bg: None, bold: false, italic: false, underline: false }
}

/// The faint grey used for secondary text.
pub open spec fn faint_style() -> Style {
    Style { fg: Some(palette::faint()), ..plain_style() }
}

impl Default for Style {
    fn default() -> (r: Self)
        ensures
            r == plain_style(),
    {
        Style::new()
    }
}

impl Style {
    pub fn new() -> (r: Self)
        ensures
            r == plain_style(),
    {
        Style { fg: None, bg: None, bold: false, italic: false, underline: false }
    }

    pub fn fg(self, color: Rgb) -> (r: Self)
        ensures
            r == (Style { fg: Some(color), ..self }),
    {
        Style { fg: Some(color), ..self }
    }

    pub fn on(self, color: Rgb) -> (r: Self)
        ensures
            r == (Style { bg: Some(color), ..self }),
    {
        Style { bg: Some(color), ..self }
    }

    pub fn bold(self) -> (r: Self)
        ensures
            r == (Style { bold: true, ..self }),
    {
        Style { bold: true, ..self }
    }

    pub fn italic(self) -> (r: Self)
        ensures
            r == (Style { italic: true, ..self }),
    {
        Style { italic: true, ..self }
    }

    pub fn underline(self) -> (r: Self)
        ensures
            r == (Style { underline: true, ..self }),
    {
        Style { underline: true, ..self }
    }

    pub fn faint() -> (r: Self)
        ensures
            r == faint_style(),
    {
        Style::new().fg(palette::faint())
    }

    pub fn color(color: Rgb) -> (r: Self)
        ensures
            r == (Style { fg: Some(color), ..plain_style() }),
    {
        Style::new().fg(color)
    }

    pub fn is_plain(&self) -> (r: bool)
        ensures
            r == (*self == plain_style()),
    {
        self.fg.is_none() && self.bg.is_none() && !self.bold && !self.italic && !self.underline
    }
}

/// How much color the terminal can show
#[derive(Clone, Copy, Debug, PartialEq, Eq, Structural)]
pub enum ColorLevel {
    /// No color at all
    NoColor,
    Ansi256,
    TrueColor,
}

/// Whether every color of a style can be written at a level.
pub open spec fn paintable(level: ColorLevel, style: Style) -> bool {
    level is Ansi256 ==> (
        (style.fg matches Some(c) ==> ansi256_defined(c))
        && (style.bg matches Some(c) ==> ansi256_defined(c)))
}

impl Rgb {
    /// Whether the color has an entry in the 256-color palette that can be
    /// computed: whether `to_ansi256` may be called on it.
    pub fn has_ansi256(self) -> (r: bool)
        ensures
            r == ansi256_defined(self),
    {
        let mx = if self.0 >= self.1 { self.0 } else { self.1 };
        let mx = if mx >= self.2 { mx } else { self.2 };
        let mn = if self.0 <= self.1 { self.0 } else { self.1 };
        let mn = if mn <= self.2 { mn } else { self.2 };
        !(mx - mn < 12 && 4 <= self.0 && self.0 < 8)
    }
}

impl Style {
    /// Whether every color of the style can be written at `level`.
    pub fn paintable_at(&self, level: ColorLevel) -> (r: bool)
        ensures
            r == paintable(level, *self),
    {
        match level {
            ColorLevel::Ansi256 => {
                let fg = match self.fg { Some(c) => c.has_ansi256(), None => true };
                let bg = match self.bg { Some(c) => c.has_ansi256(), None => true };
                fg && bg
            },
            _ => true,
        }
    }
}

/// The escape parameter that selects a color on a layer (38 for the text,
/// 48 for the background).
pub open spec fn color_code(level: ColorLevel, layer: nat, c: Rgb) -> Seq<char> {
    if level is TrueColor {
        decimal_chars(layer) + seq![';', '2', ';'] + decimal_chars(c.0 as nat) + seq![';']
            + decimal_chars(c.1 as nat) + seq![';'] + decimal_chars(c.2 as nat)
    } else {
        decimal_chars(layer) + seq![';', '5', ';'] + decimal_chars(ansi256(c) as nat)
    }
}

pub open spec fn optional_code(level: ColorLevel, layer: nat, c: Option<Rgb>) -> Seq<Seq<char>> {
    match c {
        Some(c) => seq![color_code(level, layer, c)],
        None => Seq::empty(),
    }
}

/// The escape parameters for a style, in order.
pub open spec fn style_codes(level: ColorLevel, style: Style) -> Seq<Seq<char>> {
    (if style.bold { seq![seq!['1']] } else { Seq::empty() })
        + (if style.italic { seq![seq!['3']] } else { Seq::empty() })
        + (if style.underline { seq![seq!['4']] } else { Seq::empty() })
        + optional_code(level, 38, style.fg)
        + optional_code(level, 48, style.bg)
}

/// What `paint` writes.
pub open spec fn painted(level: ColorLevel, text: Seq<char>, style: Style) -> Seq<char> {
    if level is NoColor || style == plain_style() || text.len() == 0 {
        text
    } else {
        seq!['\x1b', '['] + joined(style_codes(level, style), ';') + seq!['m'] + text
            + seq!['\x1b', '[', '0', 'm']
    }
}

fn color_chars(level: ColorLevel, layer: u8, c: Rgb) -> (r: Vec<char>)
    requires
        level !is NoColor,
        level is Ansi256 ==> ansi256_defined(c),
    ensures
        r@ == color_code(level, layer as nat, c),
{
    let mut out: Vec<char> = Vec::new();
    push_decimal(&mut out, layer as u128);
    match level {
        ColorLevel::TrueColor => {
            out.push(';');
            out.push('2');
            out.push(';');
            push_decimal(&mut out, c.0 as u128);
            out.push(';');
            push_decimal(&mut out, c.1 as u128);
            out.push(';');
            push_decimal(&mut out, c.2 as u128);
        },
        _ => {
            out.push(';');
            out.push('5');
            out.push(';');
            let index = c.to_ansi256();
            push_decimal(&mut out, index as u128);
        },
    }
    proof {
        assert(out@ =~= color_code(level, layer as nat, c));
    }
    out
}

fn single(c: char) -> (r: Vec<char>)
    ensures
        r@ == seq![c],
{
    let mut r: Vec<char> = Vec::new();
    r.push(c);
    r
}

fn push_code(codes: &mut Vec<Vec<char>>, code: Vec<char>)
    ensures
        final(codes).deep_view() == old(codes).deep_view().push(code@),
{
    let ghost prev = codes.deep_view();
    assert(code.deep_view() =~= code@);
    codes.push(code);
    assert(codes.deep_view() =~= prev.push(code@));
}

fn code_list(level: ColorLevel, style: Style) -> (r: Vec<Vec<char>>)
    requires
        level !is NoColor,
        paintable(level, style),
    ensures
        r.deep_view() == style_codes(level, style),
{
    let mut codes: Vec<Vec<char>> = Vec::new();
    assert(codes.deep_view() =~= Seq::<Seq<char>>::empty());
    if style.bold {
        push_code(&mut codes, single('1'));
    }
    let ghost a = codes.deep_view();
    if style.italic {
        push_code(&mut codes, single('3'));
    }
    let ghost b = codes.deep_view();
    if style.underline {
        push_code(&mut codes, single('4'));
    }
    let ghost c = codes.deep_view();
    if let Some(color) = style.fg {
        push_code(&mut codes, color_chars(level, 38, color));
    }
    let ghost d = codes.deep_view();
    if let Some(color) = style.bg {
        push_code(&mut codes, color_chars(level, 48, color));
    }
    proof {
        let f1: Seq<Seq<char>> = if style.bold { seq![seq!['1']] } else { Seq::empty() };
        let f2: Seq<Seq<char>> = if style.italic { seq![seq!['3']] } else { Seq::empty() };
        let f3: Seq<Seq<char>> = if style.underline { seq![seq!['4']] } else { Seq::empty() };
        assert(a =~= f1);
        assert(b =~= f1 + f2);
        assert(c =~= f1 + f2 + f3);
        assert(d =~= f1 + f2 + f3 + optional_code(level, 38, style.fg));
        assert(codes.deep_view() =~= style_codes(level, style));
    }
    codes
}

impl ColorLevel {
    /// The level for a terminal's settings: `NO_COLOR` set to anything
    /// non-empty, or a `dumb` terminal, turns color off; a `COLORTERM` of
    /// `truecolor` or `24bit` allows 24-bit color.
    pub fn from_settings(no_color: Option<&str>, term: Option<&str>, colorterm: Option<&str>) -> (r: Self)
        ensures
            r == (if no_color matches Some(v) && v@.len() > 0 {
                ColorLevel::NoColor
            } else if term matches Some(t) && t@ == "dumb"@ {
                ColorLevel::NoColor
            } else if colorterm matches Some(c) && (c@ == "truecolor"@ || c@ == "24bit"@) {
                ColorLevel::TrueColor
            } else {
                ColorLevel::Ansi256
            }),
    {
        if let Some(v) = no_color {
            if chars_of(v).len() > 0 {
                return ColorLevel::NoColor;
            }
        }
        if let Some(t) = term {
            if crate::text::chars::str_eq(t, "dumb") {
                return ColorLevel::NoColor;
            }
        }
        if let Some(c) = colorterm {
            if crate::text::chars::str_eq(c, "truecolor") || crate::text::chars::str_eq(c, "24bit") {
                return ColorLevel::TrueColor;
            }
        }
        ColorLevel::Ansi256
    }

    /// Wraps text in the escape codes for a style
    pub fn paint(self, text: &str, style: Style) -> (r: String)
        requires
            paintable(self, style),
        ensures
            r@ == painted(self, text@, style),
    {
        let chars = chars_of(text);
        if self == ColorLevel::NoColor || style.is_plain() || chars.len() == 0 {
            return text.to_owned();
        }
        let codes = code_list(self, style);
        let mut out: Vec<char> = Vec::new();
        out.push('\x1b');
        out.push('[');
        push_joined(&mut out, &codes, ';');
        out.push('m');
        extend_chars(&mut out, text);
        out.push('\x1b');
        out.push('[');
        out.push('0');
        out.push('m');
        proof {
            assert(out@ =~= painted(self, text@, style));
        }
        string_of(&out)
    }
}

/// The width to lay fancy output out in: the terminal's, where it reports
/// one, kept within 40 to 120 columns; 100 where it does not.
pub fn layout_width(reported: Option<usize>) -> (r: usize)
    ensures
        r == (match reported {
            Some(w) => if w < 40 { 40 } else if w > 120 { 120 } else { w as int },
            None => 100,
        }),
{
    let width = match reported {
        Some(w) => w,
        None => 100,
    };
    if width < 40 {
        40
    } else if width > 120 {
        120
    } else {
        width
    }
}

} // verus!
