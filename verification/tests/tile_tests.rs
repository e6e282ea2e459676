use rogue_core::color::Color;
use rogue_core::tile::{Renderable, Tile};

#[test]
fn color_codes() {
    assert_eq!(Color::Default.to_code(), 9);
    assert_eq!(Color::Black.to_code(), 0);
    assert_eq!(Color::Red.to_code(), 1);
    assert_eq!(Color::Green.to_code(), 2);
    assert_eq!(Color::Yellow.to_code(), 3);
    assert_eq!(Color::Blue.to_code(), 4);
    assert_eq!(Color::Magenta.to_code(), 5);
    assert_eq!(Color::Cyan.to_code(), 6);
    assert_eq!(Color::White.to_code(), 7);
}

#[test]
fn tile_passability() {
    assert!(!Tile::Wall.passable());
    assert!(Tile::Floor.passable());
}

#[test]
fn tile_renderables() {
    let wall = Tile::Wall.to_renderable();
    assert_eq!(wall.glyph, '#');
    assert_eq!(wall.fg, Color::Black);
    assert_eq!(wall.bg, Color::Default);
    let floor = Tile::Floor.to_renderable();
    assert_eq!(floor.glyph, '\u{b7}');
    assert_eq!(floor.fg, Color::Black);
    assert_eq!(floor.bg, Color::Default);
}

#[test]
fn ansi_escape_sequence() {
    let r = Renderable { glyph: '@', fg: Color::Green, bg: Color::Default };
    assert_eq!(r.ansi_string(), "\u{1b}[32;49m@\u{1b}[0m");
    let w = Tile::Wall.to_renderable();
    assert_eq!(w.ansi_string(), "\u{1b}[30;49m#\u{1b}[0m");
}
