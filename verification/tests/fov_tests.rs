use bracket_pathfinding::prelude::{Algorithm2D, BaseMap, Point};
use rogue_core::camera::Camera;
use rogue_core::map::TileMap;
use rogue_core::position::Position;
use rogue_core::tile::Tile;
use std::collections::HashSet;

/// A minimal field-of-view grid: fixed dimensions and a per-cell opacity
/// bitmap, row-major.
struct FovGrid {
    width: i32,
    height: i32,
    opaque: Vec<bool>,
}

impl BaseMap for FovGrid {
    fn is_opaque(&self, idx: usize) -> bool {
        self.opaque[idx]
    }
}

impl Algorithm2D for FovGrid {
    fn dimensions(&self) -> Point {
        Point::new(self.width, self.height)
    }
}

fn revealed_set(map: &TileMap) -> HashSet<Position> {
    let mut cam = Camera::new();
    map.draw_map(&mut cam);
    cam.buffer.iter().map(|(p, _)| *p).collect()
}

#[test]
fn open_room_is_fully_revealed() {
    // A 3x3 map of open floor with the viewer at its center: every cell
    // ends up revealed.
    let mut map = TileMap::new();
    for x in 0..3 {
        for y in 0..3 {
            map.set_tile(Position { x, y }, Tile::Floor);
        }
    }
    let grid = FovGrid { width: 3, height: 3, opaque: vec![false; 9] };
    map.reveal_fov(&grid, Position { x: 1, y: 1 });
    let revealed = revealed_set(&map);
    assert_eq!(revealed.len(), 9);
    for x in 0..3 {
        for y in 0..3 {
            assert!(revealed.contains(&Position { x, y }));
        }
    }
}

#[test]
fn wall_blocks_sight_but_not_around_its_ends() {
    // A 5x5 open map bisected by a wall in column 2, rows 1 through 3,
    // with the viewer at (0, 2) on the west side.
    let mut map = TileMap::new();
    let mut opaque = vec![false; 25];
    for x in 0..5 {
        for y in 0..5 {
            map.set_tile(Position { x, y }, Tile::Floor);
        }
    }
    for y in 1..4 {
        map.set_tile(Position { x: 2, y }, Tile::Wall);
        opaque[(y * 5 + 2) as usize] = true;
    }
    let grid = FovGrid { width: 5, height: 5, opaque };
    map.reveal_fov(&grid, Position { x: 0, y: 2 });
    let revealed = revealed_set(&map);
    // The cells straight behind the wall along the blocked ray stay
    // hidden.
    assert!(!revealed.contains(&Position { x: 3, y: 2 }));
    assert!(!revealed.contains(&Position { x: 4, y: 2 }));
    // The viewer's side is seen, and so are the open cells around the
    // wall's ends.
    assert!(revealed.contains(&Position { x: 0, y: 2 }));
    assert!(revealed.contains(&Position { x: 1, y: 2 }));
    assert!(revealed.contains(&Position { x: 2, y: 0 }));
    assert!(revealed.contains(&Position { x: 2, y: 4 }));
}

#[test]
fn reveal_fov_is_monotone_across_viewpoints() {
    let mut map = TileMap::new_map();
    let grid = FovGrid { width: 100, height: 30, opaque: vec![false; 3000] };
    map.reveal_fov(&grid, Position { x: 5, y: 5 });
    let first = revealed_set(&map);
    map.reveal_fov(&grid, Position { x: 80, y: 20 });
    let second = revealed_set(&map);
    // Nothing revealed earlier is ever removed.
    assert!(first.is_subset(&second));
    assert!(second.len() > first.len());
    assert!(second.contains(&Position { x: 5, y: 5 }));
    assert!(second.contains(&Position { x: 80, y: 20 }));
}

#[test]
fn fov_ignores_cells_outside_the_map() {
    // The grid claims a larger extent than the sparse map holds: visible
    // positions with no tile are silently ignored.
    let mut map = TileMap::new();
    map.set_tile(Position { x: 0, y: 0 }, Tile::Floor);
    map.set_tile(Position { x: 1, y: 0 }, Tile::Floor);
    let grid = FovGrid { width: 10, height: 10, opaque: vec![false; 100] };
    map.reveal_fov(&grid, Position { x: 0, y: 0 });
    let revealed = revealed_set(&map);
    assert_eq!(revealed.len(), 2);
    assert!(revealed.contains(&Position { x: 0, y: 0 }));
    assert!(revealed.contains(&Position { x: 1, y: 0 }));
}
