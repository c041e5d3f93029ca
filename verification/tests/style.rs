use ledr::ui::palette;
use ledr::ui::style::{layout_width, ColorLevel, Rgb, Style};

#[test]
fn test_paint() {
    let style = Style::color(Rgb(255, 0, 0)).bold();
    assert_eq!(ColorLevel::NoColor.paint("x", style), "x");
    assert_eq!(
        ColorLevel::TrueColor.paint("x", style),
        "\x1b[1;38;2;255;0;0mx\x1b[0m"
    );
    assert_eq!(
        ColorLevel::Ansi256.paint("x", style),
        "\x1b[1;38;5;196mx\x1b[0m"
    );
    assert_eq!(ColorLevel::TrueColor.paint("x", Style::new()), "x");
}

#[test]
fn test_ansi256_greys() {
    assert_eq!(Rgb(0, 0, 0).to_ansi256(), 16);
    assert_eq!(Rgb(255, 255, 255).to_ansi256(), 231);
    let grey = palette::faint().to_ansi256();
    assert!((232..=255).contains(&grey));
}

#[test]
fn paint_with_every_attribute_and_a_background() {
    let style = Style::new().fg(Rgb(1, 2, 3)).on(Rgb(4, 5, 6)).bold().italic().underline();
    assert_eq!(
        ColorLevel::TrueColor.paint("ab", style),
        "\x1b[1;3;4;38;2;1;2;3;48;2;4;5;6mab\x1b[0m"
    );
    assert_eq!(ColorLevel::TrueColor.paint("", style), "");
    assert!(!style.is_plain());
    assert!(Style::default().is_plain());
}

#[test]
fn cube_colors_map_to_their_palette_index() {
    // 16 + 36 * 1 + 6 * 4 + 5
    assert_eq!(Rgb(100, 200, 255).to_ansi256(), 16 + 36 + 24 + 5);
    assert_eq!(Rgb(128, 128, 128).to_ansi256(), 243);
}

#[test]
fn color_level_follows_the_terminal_settings() {
    assert_eq!(ColorLevel::from_settings(Some("1"), None, Some("truecolor")), ColorLevel::NoColor);
    assert_eq!(ColorLevel::from_settings(Some(""), None, Some("24bit")), ColorLevel::TrueColor);
    assert_eq!(ColorLevel::from_settings(None, Some("dumb"), None), ColorLevel::NoColor);
    assert_eq!(ColorLevel::from_settings(None, Some("xterm"), None), ColorLevel::Ansi256);
}

#[test]
fn layout_width_stays_within_bounds() {
    assert_eq!(layout_width(None), 100);
    assert_eq!(layout_width(Some(10)), 40);
    assert_eq!(layout_width(Some(80)), 80);
    assert_eq!(layout_width(Some(300)), 120);
}
