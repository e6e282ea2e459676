//! Core of a terminal roguelike: integer grid geometry, a sparse tile map
//! with procedural dungeon generation, an incremental field-of-view reveal
//! overlay, and a scrolling camera that composites world-space drawables
//! onto a fixed-size terminal viewport.

pub mod camera;
pub mod color;
pub mod frame;
pub mod input;
pub mod map;
pub mod player;
pub mod position;
pub mod rectangle;
pub mod tile;
