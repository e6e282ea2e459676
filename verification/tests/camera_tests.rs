use rogue_core::camera::Camera;
use rogue_core::color::Color;
use rogue_core::position::Position;
use rogue_core::tile::Renderable;

fn cell(glyph: char) -> Renderable {
    Renderable { glyph, fg: Color::Default, bg: Color::Default }
}

#[test]
fn is_visible_inside() {
    assert!(Camera::is_visible((80, 24), Position { x: 0, y: 0 }));
    assert!(Camera::is_visible((80, 24), Position { x: 79, y: 23 }));
    assert!(Camera::is_visible((80, 24), Position { x: 40, y: 12 }));
}

#[test]
fn is_visible_boundaries_exclusive_high() {
    assert!(!Camera::is_visible((80, 24), Position { x: 80, y: 0 }));
    assert!(!Camera::is_visible((80, 24), Position { x: 0, y: 24 }));
    assert!(!Camera::is_visible((80, 24), Position { x: 80, y: 24 }));
}

#[test]
fn is_visible_negative() {
    assert!(!Camera::is_visible((80, 24), Position { x: -1, y: 0 }));
    assert!(!Camera::is_visible((80, 24), Position { x: 0, y: -1 }));
}

#[test]
fn composite_starts_blank() {
    let cam = Camera::new();
    let surface = cam.composite(5, 4);
    assert_eq!(surface.len(), 20);
    for c in &surface {
        assert_eq!(c.glyph, ' ');
    }
}

#[test]
fn composite_last_write_wins() {
    let mut cam = Camera::new();
    let p = Position { x: 2, y: 1 };
    cam.set(&p, &cell('a'));
    cam.set(&p, &cell('b'));
    let surface = cam.composite(5, 4);
    // With the identity offset, world (2, 1) lands on column 2, row 4 - 1 - 1.
    let idx = 2 * 5 + 2;
    assert_eq!(surface[idx].glyph, 'b');
    for (i, c) in surface.iter().enumerate() {
        if i != idx {
            assert_eq!(c.glyph, ' ');
        }
    }
}

#[test]
fn composite_flips_vertical_axis() {
    let mut cam = Camera::new();
    cam.set(&Position { x: 0, y: 0 }, &cell('o'));
    let surface = cam.composite(3, 3);
    // World y = 0 is the bottom row of the screen.
    assert_eq!(surface[2 * 3].glyph, 'o');
}

#[test]
fn composite_applies_offset() {
    let mut cam = Camera::new();
    cam.set_offset(Position { x: 10, y: 20 });
    cam.set(&Position { x: 11, y: 21 }, &cell('x'));
    let surface = cam.composite(4, 4);
    // Screen position: (11 - 10, 4 - (21 - 20) - 1) == (1, 2).
    assert_eq!(surface[2 * 4 + 1].glyph, 'x');
}

#[test]
fn composite_discards_out_of_bounds() {
    let mut cam = Camera::new();
    cam.set(&Position { x: 50, y: 0 }, &cell('x'));
    cam.set(&Position { x: -3, y: 1 }, &cell('y'));
    cam.set(&Position { x: 0, y: 99 }, &cell('z'));
    let surface = cam.composite(5, 4);
    for c in &surface {
        assert_eq!(c.glyph, ' ');
    }
}

#[test]
fn clear_buffer_empties_frame() {
    let mut cam = Camera::new();
    cam.set(&Position { x: 1, y: 1 }, &cell('q'));
    cam.clear_buffer();
    assert!(cam.buffer.is_empty());
    let surface = cam.composite(3, 3);
    for c in &surface {
        assert_eq!(c.glyph, ' ');
    }
}
