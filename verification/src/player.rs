//! Player movement: key-to-direction mapping, collision against the tile
//! map's passability, and the camera offset that centers the viewport on
//! the player.

use crate::input::{KEY_ARROW_DOWN, KEY_ARROW_LEFT, KEY_ARROW_RIGHT, KEY_ARROW_UP};
use crate::map::TileMap;
use crate::position::Position;
use vstd::prelude::*;

verus! {

/// The position one step from `pos` in the direction `delta`, as exact
/// integers.
pub open spec fn moved(pos: Position, delta: Position) -> Position {
    Position { x: (pos.x + delta.x) as isize, y: (pos.y + delta.y) as isize }
}

/// Whether a step onto `p` is blocked: only an impassable tile blocks;
/// a position absent from the map is freely entered.
pub open spec fn blocked(m: TileMap, p: Position) -> bool {
    m.tile_model().contains_key(p) && !m.tile_model()[p].spec_passable()
}

/// The movement direction a key code means, if any: arrows, the wasd
/// keys, and the hjkl keys. World y grows upward, so "up" adds one to y.
pub open spec fn spec_key_delta(key: u32) -> Option<Position> {
    if key == KEY_ARROW_LEFT || key == 'a' as u32 || key == 'h' as u32 {
        Some(Position { x: -1isize, y: 0isize })
    } else if key == KEY_ARROW_RIGHT || key == 'd' as u32 || key == 'l' as u32 {
        Some(Position { x: 1isize, y: 0isize })
    } else if key == KEY_ARROW_UP || key == 'w' as u32 || key == 'k' as u32 {
        Some(Position { x: 0isize, y: 1isize })
    } else if key == KEY_ARROW_DOWN || key == 's' as u32 || key == 'j' as u32 {
        Some(Position { x: 0isize, y: -1isize })
    } else {
        None
    }
}

/// The movement direction a key code means, if any.
pub fn key_delta(key: u32) -> (d: Option<Position>)
    ensures
        d == spec_key_delta(key),
{
    if key == KEY_ARROW_LEFT || key == 'a' as u32 || key == 'h' as u32 {
        Some(Position { x: -1, y: 0 })
    } else if key == KEY_ARROW_RIGHT || key == 'd' as u32 || key == 'l' as u32 {
        Some(Position { x: 1, y: 0 })
    } else if key == KEY_ARROW_UP || key == 'w' as u32 || key == 'k' as u32 {
        Some(Position { x: 0, y: 1 })
    } else if key == KEY_ARROW_DOWN || key == 's' as u32 || key == 'j' as u32 {
        Some(Position { x: 0, y: -1 })
    } else {
        None
    }
}

/// One movement attempt: step to `pos + delta` unless the map holds an
/// impassable tile there; stepping outside the mapped area is allowed.
pub fn try_move_player(map: &TileMap, pos: Position, delta: Position) -> (r: Position)
    requires
        map.wf(),
        isize::MIN <= pos.x + delta.x <= isize::MAX,
        isize::MIN <= pos.y + delta.y <= isize::MAX,
    ensures
        r == (if blocked(*map, moved(pos, delta)) {
            pos
        } else {
            moved(pos, delta)
        }),
{
    let new_pos = pos.add(delta);
    match map.get_tile_at(new_pos) {
        Some(tile) => {
            if !tile.passable() {
                return pos;
            }
        },
        None => {},
    }
    new_pos
}

/// What one key-state entry does to the player position: a held movement
/// key attempts one step, anything else leaves the player in place.
pub open spec fn step_key(m: TileMap, pos: Position, entry: (u32, bool)) -> Position {
    if !entry.1 {
        pos
    } else {
        match spec_key_delta(entry.0) {
            Some(delta) => if blocked(m, moved(pos, delta)) {
                pos
            } else {
                moved(pos, delta)
            },
            None => pos,
        }
    }
}

/// `step_key` folded over a key-state snapshot, in order.
pub open spec fn apply_keys(m: TileMap, pos: Position, keys: Seq<(u32, bool)>) -> Position
    decreases keys.len(),
{
    if keys.len() == 0 {
        pos
    } else {
        step_key(m, apply_keys(m, pos, keys.drop_last()), keys.last())
    }
}

/// Apply every held movement key of a key-state snapshot to the player,
/// in snapshot order, each step checked against the map's passability.
pub fn player_input(map: &TileMap, pos: Position, keys: &Vec<(u32, bool)>) -> (r: Position)
    requires
        map.wf(),
        isize::MIN + keys@.len() <= pos.x <= isize::MAX - keys@.len(),
        isize::MIN + keys@.len() <= pos.y <= isize::MAX - keys@.len(),
    ensures
        r == apply_keys(*map, pos, keys@),
{
    let mut cur = pos;
    let mut i: usize = 0;
    while i < keys.len()
        invariant
            i <= keys@.len(),
            map.wf(),
            pos.x - i <= cur.x <= pos.x + i,
            pos.y - i <= cur.y <= pos.y + i,
            isize::MIN + keys@.len() <= pos.x <= isize::MAX - keys@.len(),
            isize::MIN + keys@.len() <= pos.y <= isize::MAX - keys@.len(),
            cur == apply_keys(*map, pos, keys@.take(i as int)),
        decreases keys@.len() - i,
    {
        proof {
            assert(keys@.take(i + 1).drop_last() =~= keys@.take(i as int));
            assert(keys@.take(i + 1).last() == keys@[i as int]);
        }
        let (key, down) = keys[i];
        if down {
            match key_delta(key) {
                Some(delta) => {
                    cur = try_move_player(map, cur, delta);
                },
                None => {},
            }
        }
        i = i + 1;
    }
    proof {
        assert(keys@.take(keys@.len() as int) =~= keys@);
    }
    cur
}

/// The camera offset that centers a terminal of the given size on the
/// player: half the terminal size is subtracted from the player's
/// position on each axis.
pub fn get_camera_pos(player_pos: Position, terminal_size: (u16, u16)) -> (r: Position)
    requires
        isize::MIN <= player_pos.x - terminal_size.0 / 2,
        isize::MIN <= player_pos.y - terminal_size.1 / 2,
    ensures
        r.x == player_pos.x - terminal_size.0 / 2,
        r.y == player_pos.y - terminal_size.1 / 2,
{
    Position {
        x: player_pos.x - (terminal_size.0 / 2) as isize,
        y: player_pos.y - (terminal_size.1 / 2) as isize,
    }
}

/// One tick of a leftward walker: a step to the left, wrapping to column
/// 79 past the left edge.
pub fn left_walker_step(x: isize) -> (r: isize)
    requires
        isize::MIN < x,
    ensures
        r == (if x - 1 < 0 {
            79int
        } else {
            x - 1
        }),
{
    let stepped = x - 1;
    if stepped < 0 {
        79
    } else {
        stepped
    }
}

} // verus!
