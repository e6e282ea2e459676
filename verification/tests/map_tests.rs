use rogue_core::camera::Camera;
use rogue_core::map::{RoomSample, TileMap};
use rogue_core::position::Position;
use rogue_core::tile::Tile;
use std::collections::HashSet;

fn drawn_positions(map: &TileMap) -> Vec<(Position, char)> {
    let mut cam = Camera::new();
    map.draw_map(&mut cam);
    cam.buffer.iter().map(|(p, r)| (*p, r.glyph)).collect()
}

#[test]
fn new_map_is_open_floor() {
    let m = TileMap::new_map();
    assert_eq!(m.get_tile_at(Position { x: 0, y: 0 }), Some(&Tile::Floor));
    assert_eq!(m.get_tile_at(Position { x: 99, y: 29 }), Some(&Tile::Floor));
    assert_eq!(m.get_tile_at(Position { x: 100, y: 0 }), None);
    assert_eq!(m.get_tile_at(Position { x: 0, y: 30 }), None);
    assert_eq!(m.get_tile_at(Position { x: -1, y: 0 }), None);
}

#[test]
fn set_and_get_tiles() {
    let mut m = TileMap::new();
    assert_eq!(m.get_tile_at(Position { x: 1, y: 2 }), None);
    m.set_tile(Position { x: 1, y: 2 }, Tile::Wall);
    assert_eq!(m.get_tile_at(Position { x: 1, y: 2 }), Some(&Tile::Wall));
    m.set_tile(Position { x: 1, y: 2 }, Tile::Floor);
    assert_eq!(m.get_tile_at(Position { x: 1, y: 2 }), Some(&Tile::Floor));
}

#[test]
fn reveal_tile_copies_existing_tiles_only() {
    let mut m = TileMap::new();
    m.set_tile(Position { x: 0, y: 0 }, Tile::Floor);
    m.set_tile(Position { x: 1, y: 0 }, Tile::Wall);

    m.reveal_tile(Position { x: 5, y: 5 });
    assert_eq!(drawn_positions(&m).len(), 0);

    m.reveal_tile(Position { x: 0, y: 0 });
    m.reveal_tile(Position { x: 1, y: 0 });
    // Revealing again must not duplicate the entry.
    m.reveal_tile(Position { x: 0, y: 0 });
    let drawn = drawn_positions(&m);
    assert_eq!(drawn.len(), 2);
    assert_eq!(drawn[0], (Position { x: 0, y: 0 }, '\u{b7}'));
    assert_eq!(drawn[1], (Position { x: 1, y: 0 }, '#'));
}

#[test]
fn reveal_points_is_monotone() {
    let mut m = TileMap::new_map();
    m.reveal_points(&vec![Position { x: 0, y: 0 }, Position { x: 1, y: 0 }]);
    assert_eq!(drawn_positions(&m).len(), 2);
    m.reveal_points(&vec![Position { x: 1, y: 0 }, Position { x: 2, y: 0 }]);
    let drawn: HashSet<Position> = drawn_positions(&m).iter().map(|e| e.0).collect();
    assert_eq!(drawn.len(), 3);
    assert!(drawn.contains(&Position { x: 0, y: 0 }));
    assert!(drawn.contains(&Position { x: 1, y: 0 }));
    assert!(drawn.contains(&Position { x: 2, y: 0 }));
}

#[test]
fn draw_map_appends_to_frame_buffer() {
    let mut m = TileMap::new_map();
    m.reveal_tile(Position { x: 3, y: 4 });
    let mut cam = Camera::new();
    cam.set(&Position { x: 9, y: 9 }, &Tile::Wall.to_renderable());
    m.draw_map(&mut cam);
    assert_eq!(cam.buffer.len(), 2);
    assert_eq!(cam.buffer[0].0, Position { x: 9, y: 9 });
    assert_eq!(cam.buffer[1].0, Position { x: 3, y: 4 });
}

#[test]
fn single_room_dungeon() {
    let samples = vec![RoomSample { x: 10, y: 10, w: 10, h: 8 }];
    let (start, m) = TileMap::new_dungeon_floor_from(&samples).unwrap();
    // The start position is the accepted room's center.
    assert_eq!(start, Position { x: 15, y: 14 });
    assert_eq!(m.get_tile_at(start), Some(&Tile::Floor));
    // The interior is carved to floor; the far corners stay wall.
    assert_eq!(m.get_tile_at(Position { x: 10, y: 10 }), Some(&Tile::Floor));
    assert_eq!(m.get_tile_at(Position { x: 19, y: 17 }), Some(&Tile::Floor));
    assert_eq!(m.get_tile_at(Position { x: 20, y: 10 }), Some(&Tile::Wall));
    assert_eq!(m.get_tile_at(Position { x: 10, y: 18 }), Some(&Tile::Wall));
    assert_eq!(m.get_tile_at(Position { x: 0, y: 0 }), Some(&Tile::Wall));
    // Outside the extent nothing exists.
    assert_eq!(m.get_tile_at(Position { x: 160, y: 0 }), None);
    assert_eq!(m.get_tile_at(Position { x: 0, y: 100 }), None);
}

#[test]
fn two_rooms_are_connected_by_a_corridor() {
    let samples = vec![
        RoomSample { x: 10, y: 10, w: 6, h: 6 },
        RoomSample { x: 40, y: 10, w: 6, h: 6 },
    ];
    let (start, m) = TileMap::new_dungeon_floor_from(&samples).unwrap();
    // Centers: (13, 13) and (43, 13); the corridor runs along row 13,
    // widened one extra cell toward +y (row 14).
    assert_eq!(start, Position { x: 13, y: 13 });
    assert_eq!(m.get_tile_at(Position { x: 30, y: 13 }), Some(&Tile::Floor));
    assert_eq!(m.get_tile_at(Position { x: 30, y: 14 }), Some(&Tile::Floor));
    assert_eq!(m.get_tile_at(Position { x: 30, y: 15 }), Some(&Tile::Wall));
    assert_eq!(m.get_tile_at(Position { x: 30, y: 12 }), Some(&Tile::Wall));
    // Both rooms are carved.
    assert_eq!(m.get_tile_at(Position { x: 13, y: 13 }), Some(&Tile::Floor));
    assert_eq!(m.get_tile_at(Position { x: 43, y: 13 }), Some(&Tile::Floor));
}

#[test]
fn overlapping_candidate_is_rejected() {
    let samples = vec![
        RoomSample { x: 10, y: 10, w: 10, h: 10 },
        RoomSample { x: 15, y: 15, w: 6, h: 6 },
    ];
    let (start, m) = TileMap::new_dungeon_floor_from(&samples).unwrap();
    assert_eq!(start, Position { x: 15, y: 15 });
    // The second candidate's far interior was never carved.
    assert_eq!(m.get_tile_at(Position { x: 20, y: 20 }), Some(&Tile::Wall));
}

#[test]
fn out_of_extent_candidate_is_rejected() {
    // In-range draw whose rectangle runs past the right edge.
    let samples = vec![RoomSample { x: 140, y: 10, w: 30, h: 8 }];
    assert!(TileMap::new_dungeon_floor_from(&samples).is_none());
}

#[test]
fn no_samples_yield_no_dungeon() {
    let samples: Vec<RoomSample> = Vec::new();
    assert!(TileMap::new_dungeon_floor_from(&samples).is_none());
}

#[test]
fn random_dungeon_has_floor_start() {
    let (start, m) = TileMap::new_dungeon_floor().unwrap();
    assert_eq!(m.get_tile_at(start), Some(&Tile::Floor));
    // The start lies inside the dungeon extent.
    assert!(start.x >= 0 && start.x < 160);
    assert!(start.y >= 0 && start.y < 100);
}

#[test]
fn grid_index_round_trip() {
    let m = TileMap::new();
    assert_eq!(m.dimensions(), (160, 100));
    let p = Position { x: 17, y: 3 };
    let idx = m.point2d_to_index(p);
    assert_eq!(idx, 3 * 160 + 17);
    assert_eq!(m.index_to_point2d(idx), p);
}

#[test]
fn opacity_of_indexed_cells() {
    let mut m = TileMap::new();
    m.set_tile(Position { x: 1, y: 0 }, Tile::Wall);
    m.set_tile(Position { x: 2, y: 0 }, Tile::Floor);
    assert!(m.is_opaque(1));
    assert!(!m.is_opaque(2));
    // An unmapped cell is transparent.
    assert!(!m.is_opaque(3));
}
