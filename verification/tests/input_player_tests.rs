use rogue_core::frame::{frame_sleep_nanos, FRAME_DURATION_NANOS};
use rogue_core::input::{
    InputMode, KeyTable, Settings, KEY_ARROW_LEFT, KEY_ARROW_RIGHT, KEY_ARROW_UP,
};
use rogue_core::map::TileMap;
use rogue_core::player::{get_camera_pos, key_delta, left_walker_step, player_input, try_move_player};
use rogue_core::position::Position;
use rogue_core::tile::Tile;

#[test]
fn default_settings_bind_wasd() {
    let s = Settings::default();
    assert_eq!(s.move_up, 'w' as u32);
    assert_eq!(s.move_right, 'd' as u32);
    assert_eq!(s.move_left, 'a' as u32);
    assert_eq!(s.move_down, 's' as u32);
}

#[test]
fn key_table_press_and_release_normal() {
    let mut t = KeyTable::new();
    assert_eq!(t.get('q' as u32), None);
    t.press('q' as u32);
    assert_eq!(t.get('q' as u32), Some(true));
    t.release('q' as u32, InputMode::Normal);
    assert_eq!(t.get('q' as u32), None);
}

#[test]
fn key_table_release_ignored_in_compatibility() {
    let mut t = KeyTable::new();
    t.press('q' as u32);
    t.release('q' as u32, InputMode::Compatibility);
    assert_eq!(t.get('q' as u32), Some(true));
}

#[test]
fn get_key_once_is_edge_triggered() {
    let mut t = KeyTable::new();
    assert!(!t.get_key_once('q' as u32));
    t.press('q' as u32);
    assert!(t.get_key_once('q' as u32));
    // The press is consumed until the key goes down again.
    assert!(!t.get_key_once('q' as u32));
    t.press('q' as u32);
    assert!(t.get_key_once('q' as u32));
}

#[test]
fn get_key_states_snapshots_and_compatibility_clears() {
    let mut t = KeyTable::new();
    t.press('a' as u32);
    t.press('b' as u32);
    let snapshot = t.get_key_states(InputMode::Normal);
    let mut keys: Vec<(u32, bool)> = snapshot.clone();
    keys.sort();
    assert_eq!(keys, vec![('a' as u32, true), ('b' as u32, true)]);
    // Normal mode keeps the table.
    assert_eq!(t.get('a' as u32), Some(true));
    let _ = t.get_key_states(InputMode::Compatibility);
    // Compatibility mode clears it after the read.
    assert_eq!(t.get('a' as u32), None);
    assert_eq!(t.get('b' as u32), None);
}

#[test]
fn key_deltas_cover_arrows_wasd_and_hjkl() {
    assert_eq!(key_delta(KEY_ARROW_LEFT), Some(Position { x: -1, y: 0 }));
    assert_eq!(key_delta(KEY_ARROW_RIGHT), Some(Position { x: 1, y: 0 }));
    assert_eq!(key_delta(KEY_ARROW_UP), Some(Position { x: 0, y: 1 }));
    assert_eq!(key_delta('w' as u32), Some(Position { x: 0, y: 1 }));
    assert_eq!(key_delta('s' as u32), Some(Position { x: 0, y: -1 }));
    assert_eq!(key_delta('h' as u32), Some(Position { x: -1, y: 0 }));
    assert_eq!(key_delta('l' as u32), Some(Position { x: 1, y: 0 }));
    assert_eq!(key_delta('q' as u32), None);
    assert_eq!(key_delta('x' as u32), None);
}

#[test]
fn movement_blocked_by_walls_only() {
    let mut m = TileMap::new();
    m.set_tile(Position { x: 0, y: 0 }, Tile::Floor);
    m.set_tile(Position { x: 1, y: 0 }, Tile::Wall);
    m.set_tile(Position { x: 0, y: 1 }, Tile::Floor);
    let pos = Position { x: 0, y: 0 };
    // Into a wall: stay.
    assert_eq!(try_move_player(&m, pos, Position { x: 1, y: 0 }), pos);
    // Onto floor: move.
    assert_eq!(try_move_player(&m, pos, Position { x: 0, y: 1 }), Position { x: 0, y: 1 });
    // Into unmapped space: move (no passability check applies).
    assert_eq!(try_move_player(&m, pos, Position { x: -1, y: 0 }), Position { x: -1, y: 0 });
}

#[test]
fn player_input_applies_held_keys_in_order() {
    let m = TileMap::new_map();
    let pos = Position { x: 5, y: 5 };
    let keys = vec![
        ('d' as u32, true),
        ('w' as u32, true),
        ('q' as u32, true),
        ('a' as u32, false),
    ];
    // Right then up; 'q' means nothing and the released 'a' is skipped.
    assert_eq!(player_input(&m, pos, &keys), Position { x: 6, y: 6 });
}

#[test]
fn player_input_respects_walls() {
    let mut m = TileMap::new();
    m.set_tile(Position { x: 0, y: 0 }, Tile::Floor);
    m.set_tile(Position { x: 1, y: 0 }, Tile::Wall);
    let keys = vec![('d' as u32, true), ('d' as u32, true)];
    // Both attempted steps hit the wall.
    assert_eq!(player_input(&m, Position { x: 0, y: 0 }, &keys), Position { x: 0, y: 0 });
}

#[test]
fn camera_centers_on_player() {
    let r = get_camera_pos(Position { x: 100, y: 50 }, (80, 24));
    assert_eq!(r, Position { x: 60, y: 38 });
}

#[test]
fn left_walker_wraps() {
    assert_eq!(left_walker_step(5), 4);
    assert_eq!(left_walker_step(1), 0);
    assert_eq!(left_walker_step(0), 79);
}

#[test]
fn frame_pacing_sleeps_only_the_remainder() {
    // A fast tick sleeps exactly the time left of the frame budget.
    assert_eq!(frame_sleep_nanos(FRAME_DURATION_NANOS, 10_000_000), FRAME_DURATION_NANOS - 10_000_000);
    // A tick that exactly fills or overruns the budget does not sleep.
    assert_eq!(frame_sleep_nanos(FRAME_DURATION_NANOS, FRAME_DURATION_NANOS), 0);
    assert_eq!(frame_sleep_nanos(FRAME_DURATION_NANOS, FRAME_DURATION_NANOS + 1), 0);
    assert_eq!(frame_sleep_nanos(50_000_000, 0), 50_000_000);
}
