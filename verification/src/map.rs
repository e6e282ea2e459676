//! The tile map: a sparse grid of tiles keyed by position, a monotone
//! "revealed" overlay of everything the player has ever seen, and the
//! procedural dungeon generator.

use crate::camera::Camera;
use crate::position::Position;
use crate::rectangle::Rectangle;
use crate::tile::Tile;
use rand::Rng;
use std::collections::HashMap;
use vstd::arithmetic::div_mod::{
    lemma_fundamental_div_mod, lemma_fundamental_div_mod_converse, lemma_mod_division_less_than_divisor,
};
use vstd::prelude::*;

verus! {

/// The thread-local random number generator of the rand crate, opaque to
/// verification.
#[verifier::external_type_specification]
#[verifier::external_body]
pub struct ExThreadRng(rand::rngs::ThreadRng);


broadcast use vstd::std_specs::hash::group_hash_axioms, vstd::seq_lib::group_seq_properties;

/// Positions the sparse grid can key: both coordinates in `[0, 2^16)`.
pub open spec fn key_ok(p: Position) -> bool {
    0 <= p.x < 0x10000 && 0 <= p.y < 0x10000
}

/// The grid key of a position: an injective packing of the two
/// coordinates into one integer.
pub open spec fn key_of(p: Position) -> u64 {
    (p.x * 0x10000 + p.y) as u64
}

/// The position a grid key decodes to.
pub open spec fn pos_of(k: u64) -> Position {
    Position { x: (k as int / 0x10000) as isize, y: (k as int % 0x10000) as isize }
}

/// Encoding then decoding gives the position back, and the key is bounded.
proof fn lemma_key_roundtrip(p: Position)
    requires
        key_ok(p),
    ensures
        key_of(p) < 0x1_0000_0000,
        pos_of(key_of(p)) == p,
{
    let k = p.x * 0x10000 + p.y;
    assert(0 <= k < 0x1_0000_0000);
    lemma_fundamental_div_mod_converse(k, 0x10000, p.x as int, p.y as int);
}

/// Every bounded key decodes to a keyable position that encodes back to it.
proof fn lemma_key_decode(k: u64)
    requires
        k < 0x1_0000_0000,
    ensures
        key_ok(pos_of(k)),
        key_of(pos_of(k)) == k,
{
    lemma_fundamental_div_mod(k as int, 0x10000);
    lemma_mod_division_less_than_divisor(k as int, 0x10000);
    let q = k as int / 0x10000;
    let r = k as int % 0x10000;
    assert(0x10000 * q == k - r);
    assert(0 <= q < 0x10000);
}

/// Insert-or-overwrite of the tile under `p` into the revealed overlay,
/// where a position absent from the main map is silently ignored.
pub open spec fn reveal_one(
    tiles: Map<Position, Tile>,
    revealed: Map<Position, Tile>,
    p: Position,
) -> Map<Position, Tile> {
    if tiles.contains_key(p) {
        revealed.insert(p, tiles[p])
    } else {
        revealed
    }
}

/// `reveal_one` folded over a sequence of positions, in order.
pub open spec fn reveal_all(
    tiles: Map<Position, Tile>,
    revealed: Map<Position, Tile>,
    pts: Seq<Position>,
) -> Map<Position, Tile>
    decreases pts.len(),
{
    if pts.len() == 0 {
        revealed
    } else {
        reveal_one(tiles, reveal_all(tiles, revealed, pts.drop_last()), pts.last())
    }
}

/// A sequence of entries with the value under `p` replaced by `t`.
pub open spec fn update_entry(s: Seq<(Position, Tile)>, p: Position, t: Tile) -> Seq<
    (Position, Tile),
> {
    Seq::new(s.len(), |i: int| if s[i].0 == p { (p, t) } else { s[i] })
}

/// The sparse tile grid plus the overlay of revealed tiles. The overlay
/// only ever grows, and every revealed position also exists in the main
/// grid; `revealed_order` records first-reveal order for deterministic
/// drawing.
pub struct TileMap {
    tiles: HashMap<u64, Tile>,
    revealed: HashMap<u64, Tile>,
    revealed_order: Vec<u64>,
}

impl TileMap {
    /// The main grid, as a map from positions to tiles.
    pub closed spec fn tile_model(self) -> Map<Position, Tile> {
        Map::new(
            |p: Position| key_ok(p) && self.tiles@.contains_key(key_of(p)),
            |p: Position| self.tiles@[key_of(p)],
        )
    }

    /// The revealed overlay, as a map from positions to the tile snapshot
    /// taken when each was last revealed.
    pub closed spec fn revealed_model(self) -> Map<Position, Tile> {
        Map::new(
            |p: Position| key_ok(p) && self.revealed@.contains_key(key_of(p)),
            |p: Position| self.revealed@[key_of(p)],
        )
    }

    /// The revealed overlay as a sequence of entries in first-reveal
    /// order.
    pub closed spec fn revealed_entries(self) -> Seq<(Position, Tile)> {
        self.revealed_order@.map_values(|k: u64| (pos_of(k), self.revealed@[k]))
    }

    /// Internal consistency: keys are bounded encodings, every revealed
    /// position exists in the main grid, and the reveal order lists
    /// exactly the revealed keys, each once.
    pub closed spec fn wf(self) -> bool {
        &&& forall|k: u64| self.tiles@.contains_key(k) ==> k < 0x1_0000_0000
        &&& forall|k: u64|
            self.revealed@.contains_key(k) ==> self.tiles@.contains_key(k)
        &&& self.revealed_order@.no_duplicates()
        &&& forall|k: u64| self.revealed@.contains_key(k) <==> self.revealed_order@.contains(k)
    }

    /// Every revealed position exists in the main grid.
    pub proof fn lemma_revealed_in_tiles(self)
        requires
            self.wf(),
        ensures
            forall|p: Position| #[trigger]
                self.revealed_model().contains_key(p) ==> self.tile_model().contains_key(p),
    {
    }

    /// An empty map: no tiles, nothing revealed.
    pub fn new() -> (m: TileMap)
        ensures
            m.wf(),
            m.tile_model() == Map::<Position, Tile>::empty(),
            m.revealed_model() == Map::<Position, Tile>::empty(),
            m.revealed_entries() == Seq::<(Position, Tile)>::empty(),
    {
        let m = TileMap {
            tiles: HashMap::new(),
            revealed: HashMap::new(),
            revealed_order: Vec::new(),
        };
        proof {
            assert(m.tile_model() =~= Map::<Position, Tile>::empty());
            assert(m.revealed_model() =~= Map::<Position, Tile>::empty());
            assert(m.revealed_entries() =~= Seq::<(Position, Tile)>::empty());
        }
        m
    }

    /// Place (or overwrite) the tile at a keyable position in the main
    /// grid.
    pub fn set_tile(&mut self, pos: Position, tile: Tile)
        requires
            old(self).wf(),
            key_ok(pos),
        ensures
            final(self).wf(),
            final(self).tile_model() == old(self).tile_model().insert(pos, tile),
            final(self).revealed_model() == old(self).revealed_model(),
            final(self).revealed_entries() == old(self).revealed_entries(),
    {
        let k = key_for(pos);
        proof {
            lemma_key_roundtrip(pos);
        }
        self.tiles.insert(k, tile);
        proof {
            assert forall|q: Position| #[trigger]
                self.tile_model().contains_key(q) == old(self).tile_model().insert(
                    pos,
                    tile,
                ).contains_key(q) && (self.tile_model().contains_key(q)
                ==> self.tile_model()[q] == old(self).tile_model().insert(pos, tile)[q]) by {
                if key_ok(q) {
                    lemma_key_roundtrip(q);
                }
            }
            assert(self.tile_model() =~= old(self).tile_model().insert(pos, tile));
            assert(self.revealed_model() =~= old(self).revealed_model());
            assert(self.revealed_entries() =~= old(self).revealed_entries());
        }
    }

    /// Look up the tile at a position: `None` when the position was never
    /// placed (or cannot be keyed at all).
    pub fn get_tile_at(&self, pos: Position) -> (t: Option<&Tile>)
        requires
            self.wf(),
        ensures
            match t {
                Some(tile) => self.tile_model().contains_key(pos) && *tile
                    == self.tile_model()[pos],
                None => !self.tile_model().contains_key(pos),
            },
    {
        if pos.x >= 0 && pos.x < 0x10000 && pos.y >= 0 && pos.y < 0x10000 {
            let k = key_for(pos);
            self.tiles.get(&k)
        } else {
            None
        }
    }

    /// Copy the current tile at `new_pos` into the revealed overlay
    /// (insert-or-overwrite); a position absent from the main grid is
    /// silently ignored.
    pub fn reveal_tile(&mut self, new_pos: Position)
        requires
            old(self).wf(),
        ensures
            final(self).wf(),
            final(self).tile_model() == old(self).tile_model(),
            final(self).revealed_model() == reveal_one(
                old(self).tile_model(),
                old(self).revealed_model(),
                new_pos,
            ),
            final(self).revealed_entries() == (if !old(self).tile_model().contains_key(new_pos) {
                old(self).revealed_entries()
            } else if old(self).revealed_model().contains_key(new_pos) {
                update_entry(
                    old(self).revealed_entries(),
                    new_pos,
                    old(self).tile_model()[new_pos],
                )
            } else {
                old(self).revealed_entries().push((new_pos, old(self).tile_model()[new_pos]))
            }),
    {
        if !(new_pos.x >= 0 && new_pos.x < 0x10000 && new_pos.y >= 0 && new_pos.y < 0x10000) {
            proof {
                assert(self.revealed_entries() =~= old(self).revealed_entries());
            }
            return ;
        }
        let k = key_for(new_pos);
        proof {
            lemma_key_roundtrip(new_pos);
        }
        let tile = match self.tiles.get(&k) {
            Some(t) => *t,
            None => {
                proof {
                    assert(self.revealed_entries() =~= old(self).revealed_entries());
                }
                return ;
            },
        };
        let already = self.revealed.contains_key(&k);
        if !already {
            self.revealed_order.push(k);
        }
        self.revealed.insert(k, tile);
        proof {
            self.lemma_reveal_tile_post(*old(self), new_pos, k, tile, already);
        }
    }

    /// The postcondition of `reveal_tile` on the branch that inserts.
    proof fn lemma_reveal_tile_post(
        self,
        prev: TileMap,
        new_pos: Position,
        k: u64,
        tile: Tile,
        already: bool,
    )
        requires
            prev.wf(),
            key_ok(new_pos),
            k == key_of(new_pos),
            prev.tiles@.contains_key(k),
            tile == prev.tiles@[k],
            already == prev.revealed@.contains_key(k),
            self.tiles == prev.tiles,
            self.revealed@ == prev.revealed@.insert(k, tile),
            self.revealed_order@ == (if already {
                prev.revealed_order@
            } else {
                prev.revealed_order@.push(k)
            }),
        ensures
            self.wf(),
            self.tile_model() == prev.tile_model(),
            self.revealed_model() == reveal_one(prev.tile_model(), prev.revealed_model(), new_pos),
            self.revealed_entries() == (if prev.revealed_model().contains_key(new_pos) {
                update_entry(prev.revealed_entries(), new_pos, prev.tile_model()[new_pos])
            } else {
                prev.revealed_entries().push((new_pos, prev.tile_model()[new_pos]))
            }),
    {
        lemma_key_roundtrip(new_pos);
        assert(self.tile_model() =~= prev.tile_model());
        // Well-formedness of the updated overlay.
        if !already {
            assert forall|j: u64| self.revealed@.contains_key(j) implies self.revealed_order@.contains(
                j,
            ) by {
                if j == k {
                    assert(self.revealed_order@.last() == k);
                } else {
                    assert(prev.revealed@.contains_key(j));
                    assert(prev.revealed_order@.contains(j));
                    let i = choose|i: int|
                        0 <= i < prev.revealed_order@.len() && prev.revealed_order@[i] == j;
                    assert(self.revealed_order@[i] == j);
                    assert(self.revealed_order@.contains(j));
                }
            }
            assert forall|j: u64| self.revealed_order@.contains(j) implies self.revealed@.contains_key(
                j,
            ) by {
                let i = choose|i: int|
                    0 <= i < self.revealed_order@.len() && self.revealed_order@[i] == j;
                if i < prev.revealed_order@.len() {
                    assert(prev.revealed_order@.contains(j));
                }
            }
            assert(!prev.revealed_order@.contains(k));
            assert(self.revealed_order@.no_duplicates());
        } else {
            assert forall|j: u64| self.revealed@.contains_key(j) implies self.revealed_order@.contains(
                j,
            ) by {
                if j != k {
                    assert(prev.revealed@.contains_key(j));
                }
            }
        }
        assert(self.wf());
        // The revealed model gains exactly the entry for new_pos.
        assert forall|q: Position| #[trigger]
            self.revealed_model().contains_key(q) == reveal_one(
                prev.tile_model(),
                prev.revealed_model(),
                new_pos,
            ).contains_key(q) && (self.revealed_model().contains_key(q)
            ==> self.revealed_model()[q] == reveal_one(
            prev.tile_model(),
            prev.revealed_model(),
            new_pos,
        )[q]) by {
            if key_ok(q) {
                lemma_key_roundtrip(q);
            }
        }
        assert(self.revealed_model() =~= reveal_one(
            prev.tile_model(),
            prev.revealed_model(),
            new_pos,
        ));
        // The entry sequence: updated in place or extended at the end.
        if already {
            assert forall|i: int|
                0 <= i < self.revealed_entries().len() implies self.revealed_entries()[i]
                == update_entry(
                prev.revealed_entries(),
                new_pos,
                prev.tile_model()[new_pos],
            )[i] by {
                let j = prev.revealed_order@[i];
                assert(prev.revealed_order@.contains(j));
                assert(prev.revealed@.contains_key(j));
                lemma_key_decode(j);
                if j == k {
                } else {
                    assert(pos_of(j) != new_pos);
                }
            }
            assert(self.revealed_entries() =~= update_entry(
                prev.revealed_entries(),
                new_pos,
                prev.tile_model()[new_pos],
            ));
        } else {
            assert forall|i: int|
                0 <= i < self.revealed_entries().len() implies self.revealed_entries()[i]
                == prev.revealed_entries().push((new_pos, prev.tile_model()[new_pos]))[i] by {
                if i < prev.revealed_order@.len() {
                    let j = prev.revealed_order@[i];
                    assert(prev.revealed_order@.contains(j));
                    assert(prev.revealed@.contains_key(j));
                    assert(j != k);
                }
            }
            assert(self.revealed_entries() =~= prev.revealed_entries().push(
                (new_pos, prev.tile_model()[new_pos]),
            ));
        }
    }

    /// Fill the rectangle `[0, w) x [0, h)` with one tile kind,
    /// overwriting anything already there.
    fn fill_rect(&mut self, w: isize, h: isize, tile: Tile)
        requires
            old(self).wf(),
            0 < w < 0x10000,
            0 < h < 0x10000,
        ensures
            final(self).wf(),
            final(self).revealed_model() == old(self).revealed_model(),
            final(self).revealed_entries() == old(self).revealed_entries(),
            forall|p: Position| #[trigger]
                final(self).tile_model().contains_key(p) <==> (old(self).tile_model().contains_key(
                    p,
                ) || (0 <= p.x < w && 0 <= p.y < h)),
            forall|p: Position| #[trigger]
                final(self).tile_model().contains_key(p) ==> final(self).tile_model()[p] == (if 0
                    <= p.x < w && 0 <= p.y < h {
                    tile
                } else {
                    old(self).tile_model()[p]
                }),
    {
        let ghost m0 = *self;
        let mut x: isize = 0;
        while x < w
            invariant
                0 <= x <= w,
                0 < w < 0x10000,
                0 < h < 0x10000,
                self.wf(),
                self.revealed_model() == m0.revealed_model(),
                self.revealed_entries() == m0.revealed_entries(),
                forall|p: Position| #[trigger]
                    self.tile_model().contains_key(p) <==> (m0.tile_model().contains_key(p) || (0
                        <= p.x < x && 0 <= p.y < h)),
                forall|p: Position| #[trigger]
                    self.tile_model().contains_key(p) ==> self.tile_model()[p] == (if 0 <= p.x < x
                        && 0 <= p.y < h {
                        tile
                    } else {
                        m0.tile_model()[p]
                    }),
            decreases w - x,
        {
            let mut y: isize = 0;
            while y < h
                invariant
                    0 <= x < w,
                    0 <= y <= h,
                    0 < w < 0x10000,
                    0 < h < 0x10000,
                    self.wf(),
                    self.revealed_model() == m0.revealed_model(),
                    self.revealed_entries() == m0.revealed_entries(),
                    forall|p: Position| #[trigger]
                        self.tile_model().contains_key(p) <==> (m0.tile_model().contains_key(p) || (
                        0 <= p.x < x && 0 <= p.y < h) || (p.x == x && 0 <= p.y < y)),
                    forall|p: Position| #[trigger]
                        self.tile_model().contains_key(p) ==> self.tile_model()[p] == (if (0 <= p.x
                            < x && 0 <= p.y < h) || (p.x == x && 0 <= p.y < y) {
                            tile
                        } else {
                            m0.tile_model()[p]
                        }),
                decreases h - y,
            {
                self.set_tile(Position { x, y }, tile);
                y = y + 1;
            }
            x = x + 1;
        }
    }

    /// A flat, fully revealed-to-be floor map: every cell of `[0, 100) x
    /// [0, 30)` is floor, and nothing is revealed yet.
    pub fn new_map() -> (m: TileMap)
        ensures
            m.wf(),
            m.revealed_model() == Map::<Position, Tile>::empty(),
            m.revealed_entries() == Seq::<(Position, Tile)>::empty(),
            forall|p: Position| #[trigger]
                m.tile_model().contains_key(p) <==> (0 <= p.x < 100 && 0 <= p.y < 30),
            forall|p: Position| #[trigger]
                m.tile_model().contains_key(p) ==> m.tile_model()[p] == Tile::Floor,
    {
        let mut m = TileMap::new();
        m.fill_rect(100, 30, Tile::Floor);
        m
    }

    /// Carve the 2-wide vertical corridor segment from `origin` to row
    /// `y2` (columns `origin.x` and `origin.x + 1`).
    fn apply_vertical_line(&mut self, origin: Position, y2: isize, tile: Tile)
        requires
            old(self).wf(),
            0 <= origin.x,
            origin.x + 1 < 0x10000,
            0 <= origin.y < 0x10000,
            0 <= y2 < 0x10000,
        ensures
            final(self).wf(),
            final(self).revealed_model() == old(self).revealed_model(),
            final(self).revealed_entries() == old(self).revealed_entries(),
            forall|p: Position| #[trigger]
                final(self).tile_model().contains_key(p) <==> (old(self).tile_model().contains_key(
                    p,
                ) || in_vertical_segment(origin, y2 as int, p)),
            forall|p: Position| #[trigger]
                final(self).tile_model().contains_key(p) ==> final(self).tile_model()[p] == (
                if in_vertical_segment(origin, y2 as int, p) {
                    tile
                } else {
                    old(self).tile_model()[p]
                }),
    {
        let ghost m0 = *self;
        let lo = if origin.y <= y2 {
            origin.y
        } else {
            y2
        };
        let hi = if origin.y <= y2 {
            y2
        } else {
            origin.y
        };
        let mut y = lo;
        while y <= hi
            invariant
                lo <= y <= hi + 1,
                0 <= lo <= hi < 0x10000,
                0 <= origin.x,
                origin.x + 1 < 0x10000,
                lo == (if origin.y <= y2 { origin.y } else { y2 }),
                hi == (if origin.y <= y2 { y2 } else { origin.y }),
                self.wf(),
                self.revealed_model() == m0.revealed_model(),
                self.revealed_entries() == m0.revealed_entries(),
                forall|p: Position| #[trigger]
                    self.tile_model().contains_key(p) <==> (m0.tile_model().contains_key(p) || (
                    in_vertical_segment(origin, y2 as int, p) && p.y < y)),
                forall|p: Position| #[trigger]
                    self.tile_model().contains_key(p) ==> self.tile_model()[p] == (
                    if in_vertical_segment(origin, y2 as int, p) && p.y < y {
                        tile
                    } else {
                        m0.tile_model()[p]
                    }),
            decreases hi + 1 - y,
        {
            self.set_tile(Position { x: origin.x, y }, tile);
            self.set_tile(Position { x: origin.x + 1, y }, tile);
            y = y + 1;
        }
    }

    /// Carve the 2-wide horizontal corridor segment from `origin` to
    /// column `x2` (rows `origin.y` and `origin.y + 1`).
    fn apply_horizontal_line(&mut self, origin: Position, x2: isize, tile: Tile)
        requires
            old(self).wf(),
            0 <= origin.y,
            origin.y + 1 < 0x10000,
            0 <= origin.x < 0x10000,
            0 <= x2 < 0x10000,
        ensures
            final(self).wf(),
            final(self).revealed_model() == old(self).revealed_model(),
            final(self).revealed_entries() == old(self).revealed_entries(),
            forall|p: Position| #[trigger]
                final(self).tile_model().contains_key(p) <==> (old(self).tile_model().contains_key(
                    p,
                ) || in_horizontal_segment(origin, x2 as int, p)),
            forall|p: Position| #[trigger]
                final(self).tile_model().contains_key(p) ==> final(self).tile_model()[p] == (
                if in_horizontal_segment(origin, x2 as int, p) {
                    tile
                } else {
                    old(self).tile_model()[p]
                }),
    {
        let ghost m0 = *self;
        let lo = if origin.x <= x2 {
            origin.x
        } else {
            x2
        };
        let hi = if origin.x <= x2 {
            x2
        } else {
            origin.x
        };
        let mut x = lo;
        while x <= hi
            invariant
                lo <= x <= hi + 1,
                0 <= lo <= hi < 0x10000,
                0 <= origin.y,
                origin.y + 1 < 0x10000,
                lo == (if origin.x <= x2 { origin.x } else { x2 }),
                hi == (if origin.x <= x2 { x2 } else { origin.x }),
                self.wf(),
                self.revealed_model() == m0.revealed_model(),
                self.revealed_entries() == m0.revealed_entries(),
                forall|p: Position| #[trigger]
                    self.tile_model().contains_key(p) <==> (m0.tile_model().contains_key(p) || (
                    in_horizontal_segment(origin, x2 as int, p) && p.x < x)),
                forall|p: Position| #[trigger]
                    self.tile_model().contains_key(p) ==> self.tile_model()[p] == (
                    if in_horizontal_segment(origin, x2 as int, p) && p.x < x {
                        tile
                    } else {
                        m0.tile_model()[p]
                    }),
            decreases hi + 1 - x,
        {
            self.set_tile(Position { x, y: origin.y }, tile);
            self.set_tile(Position { x, y: origin.y + 1 }, tile);
            x = x + 1;
        }
    }

    /// Reveal every listed position that exists in the main grid, in
    /// order.
    pub fn reveal_points(&mut self, pts: &Vec<Position>)
        requires
            old(self).wf(),
        ensures
            final(self).wf(),
            final(self).tile_model() == old(self).tile_model(),
            final(self).revealed_model() == reveal_all(
                old(self).tile_model(),
                old(self).revealed_model(),
                pts@,
            ),
    {
        let ghost tiles0 = self.tile_model();
        let ghost revealed0 = self.revealed_model();
        let mut i: usize = 0;
        while i < pts.len()
            invariant
                i <= pts@.len(),
                self.wf(),
                self.tile_model() == tiles0,
                self.revealed_model() == reveal_all(tiles0, revealed0, pts@.take(i as int)),
            decreases pts@.len() - i,
        {
            proof {
                assert(pts@.take(i + 1).drop_last() =~= pts@.take(i as int));
                assert(pts@.take(i + 1).last() == pts@[i as int]);
            }
            self.reveal_tile(pts[i]);
            i = i + 1;
        }
        proof {
            assert(pts@.take(pts@.len() as int) =~= pts@);
        }
    }

    /// Submit every revealed tile to the camera's frame buffer, in
    /// first-reveal order, as (position, drawable) pairs.
    pub fn draw_map(&self, cam: &mut Camera)
        requires
            self.wf(),
        ensures
            final(cam).pos == old(cam).pos,
            final(cam).buffer@ == old(cam).buffer@ + self.revealed_entries().map_values(
                |e: (Position, Tile)| (e.0, e.1.spec_renderable()),
            ),
    {
        let ghost buf0 = cam.buffer@;
        let ghost drawn = self.revealed_entries().map_values(
            |e: (Position, Tile)| (e.0, e.1.spec_renderable()),
        );
        let mut i: usize = 0;
        while i < self.revealed_order.len()
            invariant
                self.wf(),
                i <= self.revealed_order@.len(),
                drawn == self.revealed_entries().map_values(
                    |e: (Position, Tile)| (e.0, e.1.spec_renderable()),
                ),
                cam.pos == old(cam).pos,
                cam.buffer@ == buf0 + drawn.take(i as int),
            decreases self.revealed_order@.len() - i,
        {
            let k = self.revealed_order[i];
            proof {
                assert(self.revealed_order@.contains(k));
                assert(self.revealed@.contains_key(k));
                assert(self.tiles@.contains_key(k));
                lemma_key_decode(k);
            }
            let pos = key_pos(k);
            let tile = match self.revealed.get(&k) {
                Some(t) => *t,
                None => {
                    proof {
                        assert(false);
                    }
                    Tile::Wall
                },
            };
            let r = tile.to_renderable();
            cam.set(&pos, &r);
            proof {
                assert(drawn.take(i + 1) =~= drawn.take(i as int).push(drawn[i as int]));
                assert(cam.buffer@ =~= buf0 + drawn.take(i + 1));
            }
            i = i + 1;
        }
        proof {
            assert(drawn.take(self.revealed_order@.len() as int) =~= drawn);
        }
    }
}

/// Fixed dungeon extent.
pub const DUNGEON_WIDTH: isize = 160;

/// Fixed dungeon extent.
pub const DUNGEON_HEIGHT: isize = 100;

/// Radius of the field-of-view pass, in grid cells.
pub const VISION_RADIUS: i32 = 20;

/// How many room placements are attempted per generation.
pub const GENERATION_OPPORTUNITIES: usize = 60;

/// Smallest room side length a candidate may draw.
pub const MIN_ROOM_SIZE: isize = 6;

/// Largest room height a candidate may draw; widths may run 3 larger to
/// favor landscape rooms.
pub const MAX_ROOM_SIZE: isize = 30;

/// Whether a position lies inside the fixed dungeon extent.
pub open spec fn in_extent(p: Position) -> bool {
    0 <= p.x < DUNGEON_WIDTH && 0 <= p.y < DUNGEON_HEIGHT
}

/// One generation opportunity: a candidate top-left corner and side
/// lengths, drawn at random.
#[derive(Clone, Copy, Debug, PartialEq, Eq, Structural)]
pub struct RoomSample {
    pub x: isize,
    pub y: isize,
    pub w: isize,
    pub h: isize,
}

impl RoomSample {
    /// The ranges the generator draws from: a corner anywhere in the
    /// extent except the zero row and column, and sides of bounded size,
    /// width biased 3 larger than height.
    pub open spec fn in_range(self) -> bool {
        &&& 1 <= self.x < DUNGEON_WIDTH
        &&& 1 <= self.y < DUNGEON_HEIGHT
        &&& MIN_ROOM_SIZE <= self.w < MAX_ROOM_SIZE + 3
        &&& MIN_ROOM_SIZE <= self.h < MAX_ROOM_SIZE
    }

    /// The candidate room the sample describes.
    pub open spec fn room(self) -> Rectangle {
        Rectangle {
            p1: Position { x: self.x, y: self.y },
            p2: Position { x: (self.x + self.w) as isize, y: (self.y + self.h) as isize },
        }
    }
}

/// Whether a candidate room stays strictly inside the dungeon extent.
pub open spec fn room_fits(r: Rectangle) -> bool {
    r.p2.x < DUNGEON_WIDTH && r.p2.y < DUNGEON_HEIGHT
}

/// Whether a candidate room overlaps any already-accepted room
/// (inclusive-bound intersection).
pub open spec fn intersects_any(r: Rectangle, rooms: Seq<Rectangle>) -> bool {
    exists|i: int| 0 <= i < rooms.len() && r.spec_intersect(rooms[i])
}

/// The rooms accepted from a sequence of samples, in order: a candidate
/// is accepted exactly when it stays inside the extent and overlaps no
/// previously accepted room; rejected candidates are skipped, not
/// retried.
pub open spec fn accepted_rooms(samples: Seq<RoomSample>) -> Seq<Rectangle>
    decreases samples.len(),
{
    if samples.len() == 0 {
        Seq::empty()
    } else {
        let prev = accepted_rooms(samples.drop_last());
        let r = samples.last().room();
        if room_fits(r) && !intersects_any(r, prev) {
            prev.push(r)
        } else {
            prev
        }
    }
}

/// The cells of the 2-wide vertical corridor segment carved from
/// `origin` to row `y2`: both columns `origin.x` and `origin.x + 1`,
/// rows from the lower to the higher of `origin.y` and `y2`, inclusive.
pub open spec fn in_vertical_segment(origin: Position, y2: int, p: Position) -> bool {
    let lo = if origin.y <= y2 { origin.y as int } else { y2 };
    let hi = if origin.y <= y2 { y2 } else { origin.y as int };
    (p.x == origin.x || p.x == origin.x + 1) && lo <= p.y <= hi
}

/// The cells of the 2-wide horizontal corridor segment carved from
/// `origin` to column `x2`: both rows `origin.y` and `origin.y + 1`,
/// columns from the lower to the higher of `origin.x` and `x2`,
/// inclusive.
pub open spec fn in_horizontal_segment(origin: Position, x2: int, p: Position) -> bool {
    let lo = if origin.x <= x2 { origin.x as int } else { x2 };
    let hi = if origin.x <= x2 { x2 } else { origin.x as int };
    (p.y == origin.y || p.y == origin.y + 1) && lo <= p.x <= hi
}

/// The L-shaped corridor between two room centers: a vertical segment at
/// the previous center's column down or up to the new center's row, then
/// a horizontal segment along that row to the new center's column.
pub open spec fn in_corridor(prev_c: Position, new_c: Position, p: Position) -> bool {
    in_vertical_segment(prev_c, new_c.y as int, p) || in_horizontal_segment(
        Position { x: prev_c.x, y: new_c.y },
        new_c.x as int,
        p,
    )
}

/// Whether a position lies on any corridor between consecutive accepted
/// rooms' centers.
pub open spec fn is_corridor(rooms: Seq<Rectangle>, p: Position) -> bool {
    exists|i: int|
        1 <= i < rooms.len() && #[trigger] in_corridor(
            rooms[i - 1].spec_center(),
            rooms[i].spec_center(),
            p,
        )
}

/// Whether a position lies in a room's interior: the half-open box
/// `[p1.x, p2.x) x [p1.y, p2.y)`.
pub open spec fn in_room_box(r: Rectangle, p: Position) -> bool {
    r.p1.x <= p.x < r.p2.x && r.p1.y <= p.y < r.p2.y
}

/// Whether a position is carved to floor by generation: any room
/// interior or any corridor cell.
pub open spec fn is_carved(rooms: Seq<Rectangle>, p: Position) -> bool {
    (exists|i: int| 0 <= i < rooms.len() && in_room_box(rooms[i], p)) || is_corridor(rooms, p)
}

/// What a finished dungeon looks like, given its accepted rooms: the
/// rooms are non-degenerate, stay inside the extent and are pairwise
/// non-overlapping; the start position is the first room's center; the
/// grid holds exactly the extent plus all carved cells, floor where
/// carved and wall elsewhere.
pub open spec fn generated_dungeon(m: TileMap, start: Position, rooms: Seq<Rectangle>) -> bool {
    &&& rooms.len() > 0
    &&& forall|i: int|
        0 <= i < rooms.len() ==> {
            let r = #[trigger] rooms[i];
            &&& 1 <= r.p1.x < r.p2.x
            &&& 1 <= r.p1.y < r.p2.y
            &&& room_fits(r)
        }
    &&& forall|i: int, j: int|
        0 <= i < j < rooms.len() ==> !(#[trigger] rooms[i]).spec_intersect(#[trigger] rooms[j])
    &&& start == rooms[0].spec_center()
    &&& forall|p: Position| #[trigger]
        m.tile_model().contains_key(p) <==> (in_extent(p) || is_carved(rooms, p))
    &&& forall|p: Position| #[trigger]
        m.tile_model().contains_key(p) ==> m.tile_model()[p] == (if is_carved(rooms, p) {
            Tile::Floor
        } else {
            Tile::Wall
        })
}

/// The center of a rectangle with a non-degenerate box lies inside the
/// half-open box.
pub proof fn lemma_center_in_box(r: Rectangle)
    requires
        0 <= r.p1.x < r.p2.x,
        0 <= r.p1.y < r.p2.y,
    ensures
        r.p1.x <= r.spec_center().x < r.p2.x,
        r.p1.y <= r.spec_center().y < r.p2.y,
        in_room_box(r, r.spec_center()),
{
    let sx = r.p1.x + r.p2.x;
    let sy = r.p1.y + r.p2.y;
    lemma_fundamental_div_mod(sx, 2);
    lemma_mod_division_less_than_divisor(sx, 2);
    lemma_fundamental_div_mod(sy, 2);
    lemma_mod_division_less_than_divisor(sy, 2);
    assert(r.p1.x <= sx / 2 < r.p2.x);
    assert(r.p1.y <= sy / 2 < r.p2.y);
}

/// Appending a room extends the corridor set by exactly the corridor
/// from the previously last room's center to the new room's center.
proof fn lemma_is_corridor_push(rooms: Seq<Rectangle>, r: Rectangle)
    ensures
        forall|p: Position| #[trigger]
            is_corridor(rooms.push(r), p) <==> (is_corridor(rooms, p) || (rooms.len() > 0
                && in_corridor(rooms.last().spec_center(), r.spec_center(), p))),
{
    let pushed = rooms.push(r);
    assert forall|p: Position| #[trigger]
        is_corridor(pushed, p) <==> (is_corridor(rooms, p) || (rooms.len() > 0 && in_corridor(
            rooms.last().spec_center(),
            r.spec_center(),
            p,
        ))) by {
        if is_corridor(pushed, p) {
            let i = choose|i: int|
                1 <= i < pushed.len() && #[trigger] in_corridor(
                    pushed[i - 1].spec_center(),
                    pushed[i].spec_center(),
                    p,
                );
            if i < rooms.len() {
                assert(in_corridor(rooms[i - 1].spec_center(), rooms[i].spec_center(), p));
                assert(is_corridor(rooms, p));
            } else {
                assert(i == rooms.len());
                assert(pushed[i - 1] == rooms.last());
                assert(pushed[i] == r);
            }
        }
        if is_corridor(rooms, p) {
            let i = choose|i: int|
                1 <= i < rooms.len() && #[trigger] in_corridor(
                    rooms[i - 1].spec_center(),
                    rooms[i].spec_center(),
                    p,
                );
            assert(in_corridor(pushed[i - 1].spec_center(), pushed[i].spec_center(), p));
            assert(is_corridor(pushed, p));
        }
        if rooms.len() > 0 && in_corridor(rooms.last().spec_center(), r.spec_center(), p) {
            let i = rooms.len() as int;
            assert(in_corridor(pushed[i - 1].spec_center(), pushed[i].spec_center(), p));
            assert(is_corridor(pushed, p));
        }
    }
}

impl TileMap {
    /// Generate a dungeon with fresh random draws: one candidate per
    /// generation opportunity, with the corner and side lengths drawn
    /// uniformly from the generator's fixed ranges. Returns `None` only
    /// when every candidate was rejected.
    pub fn new_dungeon_floor() -> (result: Option<(Position, TileMap)>)
        ensures
            match result {
                Some(r) => {
                    &&& r.1.wf()
                    &&& r.1.revealed_model() == Map::<Position, Tile>::empty()
                    &&& r.1.revealed_entries() == Seq::<(Position, Tile)>::empty()
                    &&& exists|rooms: Seq<Rectangle>| generated_dungeon(r.1, r.0, rooms)
                },
                None => true,
            },
    {
        let mut rng = new_thread_rng();
        let mut samples: Vec<RoomSample> = Vec::new();
        let mut i: usize = 0;
        while i < GENERATION_OPPORTUNITIES
            invariant
                forall|k: int| 0 <= k < samples@.len() ==> (#[trigger] samples@[k]).in_range(),
            decreases GENERATION_OPPORTUNITIES - i,
        {
            let x = rand_range(&mut rng, 1, DUNGEON_WIDTH);
            let y = rand_range(&mut rng, 1, DUNGEON_HEIGHT);
            let w = rand_range(&mut rng, MIN_ROOM_SIZE, MAX_ROOM_SIZE + 3);
            let h = rand_range(&mut rng, MIN_ROOM_SIZE, MAX_ROOM_SIZE);
            samples.push(RoomSample { x, y, w, h });
            i = i + 1;
        }
        let result = TileMap::new_dungeon_floor_from(&samples);
        proof {
            if result is Some {
                let rooms = accepted_rooms(samples@);
                assert(generated_dungeon(result.unwrap().1, result.unwrap().0, rooms));
            }
        }
        result
    }

    /// Compute the field of view around the viewer with the supplied
    /// grid adapter and copy every visible cell that exists in the main
    /// grid into the revealed overlay. The overlay only ever grows:
    /// every entry revealed earlier stays, every new entry is a snapshot
    /// of the main grid, and the whole update is one reveal pass over
    /// the visible points.
    pub fn reveal_fov<T: bracket_pathfinding::prelude::Algorithm2D>(
        &mut self,
        fov: &T,
        player_pos: Position,
    )
        requires
            old(self).wf(),
        ensures
            final(self).wf(),
            final(self).tile_model() == old(self).tile_model(),
            forall|p: Position| #[trigger]
                old(self).revealed_model().contains_key(p) ==> final(self).revealed_model().contains_key(p),
            forall|p: Position| #[trigger]
                final(self).revealed_model().contains_key(p) ==> (old(self).revealed_model().contains_key(p) || old(self).tile_model().contains_key(p)),
            forall|p: Position| #[trigger]
                final(self).revealed_model().contains_key(p) ==> (final(self).revealed_model()[p]
                    == old(self).revealed_model()[p] || (old(self).tile_model().contains_key(p)
                    && final(self).revealed_model()[p] == old(self).tile_model()[p])),
            exists|pts: Seq<Position>|
                final(self).revealed_model() == reveal_all(
                    old(self).tile_model(),
                    old(self).revealed_model(),
                    pts,
                ),
    {
        let raw = field_of_view_points(
            fov,
            #[verifier::truncate] (player_pos.x as i32),
            #[verifier::truncate] (player_pos.y as i32),
            VISION_RADIUS,
        );
        let mut pts: Vec<Position> = Vec::new();
        let mut i: usize = 0;
        while i < raw.len()
            decreases raw@.len() - i,
        {
            let q = raw[i];
            pts.push(Position { x: q.0 as isize, y: q.1 as isize });
            i = i + 1;
        }
        self.reveal_points(&pts);
        proof {
            lemma_reveal_all_facts(old(self).tile_model(), old(self).revealed_model(), pts@);
        }
    }

    /// The dungeon extent, width then height.
    pub fn dimensions(&self) -> (d: (isize, isize))
        ensures
            d.0 == DUNGEON_WIDTH,
            d.1 == DUNGEON_HEIGHT,
    {
        (DUNGEON_WIDTH, DUNGEON_HEIGHT)
    }

    /// The row-major array index of a position inside the dungeon extent.
    pub fn point2d_to_index(&self, pt: Position) -> (idx: usize)
        requires
            in_extent(pt),
        ensures
            idx == pt.y * DUNGEON_WIDTH + pt.x,
    {
        (pt.y * DUNGEON_WIDTH + pt.x) as usize
    }

    /// The position a row-major array index inside the extent decodes to.
    pub fn index_to_point2d(&self, idx: usize) -> (pt: Position)
        requires
            idx < DUNGEON_WIDTH * DUNGEON_HEIGHT,
        ensures
            pt.x == idx as int % DUNGEON_WIDTH as int,
            pt.y == idx as int / DUNGEON_WIDTH as int,
            in_extent(pt),
    {
        proof {
            lemma_fundamental_div_mod(idx as int, DUNGEON_WIDTH as int);
            lemma_mod_division_less_than_divisor(idx as int, DUNGEON_WIDTH as int);
            assert(160 * (idx as int / 160) == idx as int - idx as int % 160);
        }
        let x = (idx % (DUNGEON_WIDTH as usize)) as isize;
        let y = (idx / (DUNGEON_WIDTH as usize)) as isize;
        Position { x, y }
    }

    /// Whether the cell at a row-major index blocks sight: true exactly
    /// for walls; floors, and cells absent from the grid, are
    /// transparent.
    pub fn is_opaque(&self, idx: usize) -> (r: bool)
        requires
            self.wf(),
            idx < DUNGEON_WIDTH * DUNGEON_HEIGHT,
        ensures
            ({
                let p = Position {
                    x: (idx as int % DUNGEON_WIDTH as int) as isize,
                    y: (idx as int / DUNGEON_WIDTH as int) as isize,
                };
                r == (self.tile_model().contains_key(p) && self.tile_model()[p] == Tile::Wall)
            }),
    {
        let pos = self.index_to_point2d(idx);
        match self.get_tile_at(pos) {
            Some(t) => match t {
                Tile::Wall => true,
                Tile::Floor => false,
            },
            None => false,
        }
    }

    /// Carve a room's interior (the half-open box) to one tile kind.
    fn carve_room(&mut self, r: Rectangle)
        requires
            old(self).wf(),
            0 <= r.p1.x <= r.p2.x < 0x10000,
            0 <= r.p1.y <= r.p2.y < 0x10000,
        ensures
            final(self).wf(),
            final(self).revealed_model() == old(self).revealed_model(),
            final(self).revealed_entries() == old(self).revealed_entries(),
            forall|p: Position| #[trigger]
                final(self).tile_model().contains_key(p) <==> (old(self).tile_model().contains_key(
                    p,
                ) || in_room_box(r, p)),
            forall|p: Position| #[trigger]
                final(self).tile_model().contains_key(p) ==> final(self).tile_model()[p] == (
                if in_room_box(r, p) {
                    Tile::Floor
                } else {
                    old(self).tile_model()[p]
                }),
    {
        let ghost m0 = *self;
        let mut x = r.p1.x;
        while x < r.p2.x
            invariant
                r.p1.x <= x <= r.p2.x,
                0 <= r.p1.x <= r.p2.x < 0x10000,
                0 <= r.p1.y <= r.p2.y < 0x10000,
                self.wf(),
                self.revealed_model() == m0.revealed_model(),
                self.revealed_entries() == m0.revealed_entries(),
                forall|p: Position| #[trigger]
                    self.tile_model().contains_key(p) <==> (m0.tile_model().contains_key(p) || (
                    in_room_box(r, p) && p.x < x)),
                forall|p: Position| #[trigger]
                    self.tile_model().contains_key(p) ==> self.tile_model()[p] == (if in_room_box(
                        r,
                        p,
                    ) && p.x < x {
                        Tile::Floor
                    } else {
                        m0.tile_model()[p]
                    }),
            decreases r.p2.x - x,
        {
            let mut y = r.p1.y;
            while y < r.p2.y
                invariant
                    r.p1.x <= x < r.p2.x,
                    r.p1.y <= y <= r.p2.y,
                    0 <= r.p1.x <= r.p2.x < 0x10000,
                    0 <= r.p1.y <= r.p2.y < 0x10000,
                    self.wf(),
                    self.revealed_model() == m0.revealed_model(),
                    self.revealed_entries() == m0.revealed_entries(),
                    forall|p: Position| #[trigger]
                        self.tile_model().contains_key(p) <==> (m0.tile_model().contains_key(p) || (
                        in_room_box(r, p) && p.x < x) || (in_room_box(r, p) && p.x == x && p.y
                            < y)),
                    forall|p: Position| #[trigger]
                        self.tile_model().contains_key(p) ==> self.tile_model()[p] == (if (
                        in_room_box(r, p) && p.x < x) || (in_room_box(r, p) && p.x == x && p.y
                            < y) {
                            Tile::Floor
                        } else {
                            m0.tile_model()[p]
                        }),
                decreases r.p2.y - y,
            {
                self.set_tile(Position { x, y }, Tile::Floor);
                y = y + 1;
            }
            x = x + 1;
        }
    }

    /// Generate a dungeon from the given candidate samples, one
    /// generation opportunity each: fill the extent with wall, accept
    /// each candidate that fits and overlaps no accepted room, connect
    /// each newly accepted room's center to the previously accepted
    /// room's center with an L-shaped corridor, and finally carve every
    /// accepted room's interior. Returns the first accepted room's
    /// center as the start position, or `None` when no candidate was
    /// accepted.
    pub fn new_dungeon_floor_from(samples: &Vec<RoomSample>) -> (result: Option<
        (Position, TileMap),
    >)
        requires
            forall|i: int| 0 <= i < samples@.len() ==> (#[trigger] samples@[i]).in_range(),
        ensures
            match result {
                Some(r) => {
                    &&& r.1.wf()
                    &&& r.1.revealed_model() == Map::<Position, Tile>::empty()
                    &&& r.1.revealed_entries() == Seq::<(Position, Tile)>::empty()
                    &&& generated_dungeon(r.1, r.0, accepted_rooms(samples@))
                },
                None => accepted_rooms(samples@).len() == 0,
            },
    {
        let mut m = TileMap::new();
        m.fill_rect(DUNGEON_WIDTH, DUNGEON_HEIGHT, Tile::Wall);

        let mut rooms: Vec<Rectangle> = Vec::new();
        proof {
            assert(rooms@ =~= accepted_rooms(samples@.take(0)));
        }
        let mut i: usize = 0;
        while i < samples.len()
            invariant
                i <= samples@.len(),
                forall|k: int| 0 <= k < samples@.len() ==> (#[trigger] samples@[k]).in_range(),
                rooms@ == accepted_rooms(samples@.take(i as int)),
                forall|k: int|
                    0 <= k < rooms@.len() ==> {
                        let r = #[trigger] rooms@[k];
                        &&& 1 <= r.p1.x < r.p2.x
                        &&& 1 <= r.p1.y < r.p2.y
                        &&& room_fits(r)
                    },
                forall|k: int, l: int|
                    0 <= k < l < rooms@.len() ==> !(#[trigger] rooms@[k]).spec_intersect(
                        #[trigger] rooms@[l],
                    ),
                m.wf(),
                m.revealed_model() == Map::<Position, Tile>::empty(),
                m.revealed_entries() == Seq::<(Position, Tile)>::empty(),
                forall|p: Position| #[trigger]
                    m.tile_model().contains_key(p) <==> (in_extent(p) || is_corridor(rooms@, p)),
                forall|p: Position| #[trigger]
                    m.tile_model().contains_key(p) ==> m.tile_model()[p] == (if is_corridor(
                        rooms@,
                        p,
                    ) {
                        Tile::Floor
                    } else {
                        Tile::Wall
                    }),
            decreases samples@.len() - i,
        {
            let s = samples[i];
            proof {
                assert(samples@.take(i + 1).drop_last() =~= samples@.take(i as int));
                assert(samples@.take(i + 1).last() == samples@[i as int]);
            }
            let room = Rectangle::new(
                Position { x: s.x, y: s.y },
                Position { x: s.x + s.w, y: s.y + s.h },
            );
            proof {
                assert(room == samples@[i as int].room());
            }
            if room.p2.x < DUNGEON_WIDTH && room.p2.y < DUNGEON_HEIGHT {
                let mut overlaps = false;
                let mut j: usize = 0;
                while j < rooms.len()
                    invariant
                        j <= rooms@.len(),
                        overlaps <==> exists|k: int|
                            0 <= k < j && room.spec_intersect(#[trigger] rooms@[k]),
                    decreases rooms@.len() - j,
                {
                    if room.intersect(&rooms[j]) {
                        overlaps = true;
                    }
                    j = j + 1;
                }
                if !overlaps {
                    let ghost rooms_before = rooms@;
                    proof {
                        assert(!intersects_any(room, rooms_before));
                        lemma_is_corridor_push(rooms_before, room);
                    }
                    if rooms.len() > 0 {
                        let prev = *rooms.last().unwrap();
                        proof {
                            assert(prev == rooms_before.last());
                            lemma_center_in_box(prev);
                            lemma_center_in_box(room);
                        }
                        let pc = prev.center();
                        let nc = room.center();
                        m.apply_vertical_line(pc, nc.y, Tile::Floor);
                        m.apply_horizontal_line(
                            Position { x: pc.x, y: nc.y },
                            nc.x,
                            Tile::Floor,
                        );
                        proof {
                            assert forall|p: Position| #[trigger]
                                m.tile_model().contains_key(p) implies {
                                &&& m.tile_model().contains_key(p) == (in_extent(p)
                                    || is_corridor(rooms_before.push(room), p))
                                &&& m.tile_model()[p] == (if is_corridor(
                                    rooms_before.push(room),
                                    p,
                                ) {
                                    Tile::Floor
                                } else {
                                    Tile::Wall
                                })
                            } by {
                                assert(in_corridor(prev.spec_center(), room.spec_center(), p) == (
                                in_vertical_segment(pc, nc.y as int, p) || in_horizontal_segment(
                                    Position { x: pc.x, y: nc.y },
                                    nc.x as int,
                                    p,
                                )));
                            }
                            assert forall|p: Position|
                                in_extent(p) || is_corridor(
                                    rooms_before.push(room),
                                    p,
                                ) implies #[trigger] m.tile_model().contains_key(p) by {
                                assert(in_corridor(prev.spec_center(), room.spec_center(), p) == (
                                in_vertical_segment(pc, nc.y as int, p) || in_horizontal_segment(
                                    Position { x: pc.x, y: nc.y },
                                    nc.x as int,
                                    p,
                                )));
                            }
                        }
                    }
                    rooms.push(room);
                    proof {
                        assert(rooms@ == rooms_before.push(room));
                    }
                } else {
                    proof {
                        let k = choose|k: int|
                            0 <= k < rooms@.len() && room.spec_intersect(#[trigger] rooms@[k]);
                        assert(intersects_any(room, rooms@));
                    }
                }
            }
            i = i + 1;
        }
        proof {
            assert(samples@.take(samples@.len() as int) =~= samples@);
        }

        if rooms.len() == 0 {
            return None;
        }

        let ghost rooms_final = rooms@;
        let mut ri: usize = 0;
        while ri < rooms.len()
            invariant
                ri <= rooms@.len(),
                rooms@ == rooms_final,
                forall|k: int|
                    0 <= k < rooms@.len() ==> {
                        let r = #[trigger] rooms@[k];
                        &&& 1 <= r.p1.x < r.p2.x
                        &&& 1 <= r.p1.y < r.p2.y
                        &&& room_fits(r)
                    },
                m.wf(),
                m.revealed_model() == Map::<Position, Tile>::empty(),
                m.revealed_entries() == Seq::<(Position, Tile)>::empty(),
                forall|p: Position| #[trigger]
                    m.tile_model().contains_key(p) <==> (in_extent(p) || is_corridor(rooms@, p)),
                forall|p: Position| #[trigger]
                    m.tile_model().contains_key(p) ==> m.tile_model()[p] == (if is_corridor(
                        rooms@,
                        p,
                    ) || (exists|k: int|
                        0 <= k < ri && in_room_box(#[trigger] rooms@[k], p)) {
                        Tile::Floor
                    } else {
                        Tile::Wall
                    }),
            decreases rooms@.len() - ri,
        {
            let r = rooms[ri];
            m.carve_room(r);
            proof {
                assert forall|p: Position| #[trigger]
                    m.tile_model().contains_key(p) implies m.tile_model().contains_key(p) == (
                in_extent(p) || is_corridor(rooms@, p)) by {
                    if in_room_box(r, p) {
                        assert(in_extent(p));
                    }
                }
                assert forall|p: Position| #[trigger]
                    in_room_box(r, p) implies in_extent(p) by {}
            }
            ri = ri + 1;
        }

        let first = rooms[0];
        let start = first.center();
        proof {
            lemma_center_in_box(first);
            assert forall|p: Position| #[trigger]
                m.tile_model().contains_key(p) <==> (in_extent(p) || is_carved(rooms_final, p)) by {
                if is_carved(rooms_final, p) && !is_corridor(rooms_final, p) {
                    let k = choose|k: int|
                        0 <= k < rooms_final.len() && in_room_box(#[trigger] rooms_final[k], p);
                    assert(in_extent(p));
                }
            }
            assert(generated_dungeon(m, start, accepted_rooms(samples@)));
        }
        Some((start, m))
    }
}

/// Relies on rand's `thread_rng`: a handle to the lazily-seeded
/// thread-local generator. Nothing can be promised of a random source.
#[verifier::external_body]
fn new_thread_rng() -> rand::rngs::ThreadRng {
    rand::thread_rng()
}

/// Relies on rand's `Rng::gen_range` over a half-open range: returns a
/// value uniformly drawn from `[lo, hi)`, and panics only on an empty
/// range, which the precondition excludes. Which value comes back is
/// chance; only the range is promised.
#[verifier::external_body]
fn rand_range(rng: &mut rand::rngs::ThreadRng, lo: isize, hi: isize) -> (r: isize)
    requires
        lo < hi,
    ensures
        lo <= r < hi,
{
    rng.gen_range(lo..hi)
}

/// What a reveal pass leaves in the overlay: exactly the old entries
/// plus, for every listed position that exists in the main grid, the
/// grid's tile; listed positions win over older snapshots, and nothing
/// is ever removed.
pub proof fn lemma_reveal_all_facts(
    tiles: Map<Position, Tile>,
    revealed: Map<Position, Tile>,
    pts: Seq<Position>,
)
    ensures
        forall|p: Position| #[trigger]
            reveal_all(tiles, revealed, pts).contains_key(p) <==> (revealed.contains_key(p) || (
            pts.contains(p) && tiles.contains_key(p))),
        forall|p: Position| #[trigger]
            reveal_all(tiles, revealed, pts).contains_key(p) ==> reveal_all(tiles, revealed, pts)[p]
                == (if pts.contains(p) && tiles.contains_key(p) {
                tiles[p]
            } else {
                revealed[p]
            }),
    decreases pts.len(),
{
    if pts.len() > 0 {
        lemma_reveal_all_facts(tiles, revealed, pts.drop_last());
        assert forall|p: Position| #[trigger]
            pts.contains(p) <==> (pts.drop_last().contains(p) || pts.last() == p) by {
            if pts.contains(p) {
                let i = choose|i: int| 0 <= i < pts.len() && pts[i] == p;
                if i < pts.len() - 1 {
                    assert(pts.drop_last()[i] == p);
                    assert(pts.drop_last().contains(p));
                }
            }
            if pts.drop_last().contains(p) {
                let i = choose|i: int| 0 <= i < pts.drop_last().len() && pts.drop_last()[i] == p;
                assert(pts[i] == p);
                assert(pts.contains(p));
            }
            if pts.last() == p {
                assert(pts[pts.len() - 1] == p);
                assert(pts.contains(p));
            }
        }
        let inner = reveal_all(tiles, revealed, pts.drop_last());
        assert forall|p: Position| #[trigger]
            reveal_all(tiles, revealed, pts).contains_key(p) <==> (revealed.contains_key(p) || (
        pts.contains(p) && tiles.contains_key(p))) by {
            assert(inner.contains_key(p) <==> (revealed.contains_key(p) || (
            pts.drop_last().contains(p) && tiles.contains_key(p))));
            assert(pts.contains(p) <==> (pts.drop_last().contains(p) || pts.last() == p));
        }
        assert forall|p: Position| #[trigger]
            reveal_all(tiles, revealed, pts).contains_key(p) implies reveal_all(
            tiles,
            revealed,
            pts,
        )[p] == (if pts.contains(p) && tiles.contains_key(p) {
            tiles[p]
        } else {
            revealed[p]
        }) by {
            assert(inner.contains_key(p) <==> (revealed.contains_key(p) || (
            pts.drop_last().contains(p) && tiles.contains_key(p))));
            assert(inner.contains_key(p) ==> inner[p] == (if pts.drop_last().contains(p)
                && tiles.contains_key(p) {
                tiles[p]
            } else {
                revealed[p]
            }));
            assert(pts.contains(p) <==> (pts.drop_last().contains(p) || pts.last() == p));
        }
    }
}

/// Relies on bracket-pathfinding's `field_of_view` (recursive
/// shadowcasting): the set of grid points visible from the start point
/// within the radius, over the grid's own `Algorithm2D` implementation.
/// The crate walks a hash set, so the order of the points is arbitrary,
/// and which points are visible depends on the `Algorithm2D`
/// implementation the caller supplies; no more is promised than that the
/// points are distinct (the crate collects them from a set, and the
/// point-to-pair conversion is one-to-one).
#[verifier::external_body]
fn field_of_view_points<T: bracket_pathfinding::prelude::Algorithm2D>(
    grid: &T,
    x: i32,
    y: i32,
    radius: i32,
) -> (pts: Vec<(i32, i32)>)
    ensures
        pts@.no_duplicates(),
{
    let start = bracket_pathfinding::prelude::Point::new(x, y);
    bracket_pathfinding::prelude::field_of_view(start, radius, grid)
        .into_iter()
        .map(|p| (p.x, p.y))
        .collect()
}

/// Law: no two rooms accepted from any sample sequence overlap, under
/// the inclusive-bound intersection test.
pub proof fn lemma_accepted_rooms_disjoint(samples: Seq<RoomSample>)
    ensures
        forall|i: int, j: int|
            0 <= i < j < accepted_rooms(samples).len() ==> !(#[trigger] accepted_rooms(
                samples,
            )[i]).spec_intersect(#[trigger] accepted_rooms(samples)[j]),
    decreases samples.len(),
{
    if samples.len() > 0 {
        lemma_accepted_rooms_disjoint(samples.drop_last());
        let prev = accepted_rooms(samples.drop_last());
        let r = samples.last().room();
        let rooms = accepted_rooms(samples);
        if room_fits(r) && !intersects_any(r, prev) {
            assert forall|i: int, j: int|
                0 <= i < j < rooms.len() implies !(#[trigger] rooms[i]).spec_intersect(
                #[trigger] rooms[j],
            ) by {
                if j < prev.len() {
                    assert(rooms[i] == prev[i] && rooms[j] == prev[j]);
                } else {
                    assert(rooms[j] == r && rooms[i] == prev[i]);
                    assert(!r.spec_intersect(prev[i]));
                }
            }
        }
    }
}

/// Law: every room accepted from in-range samples has a non-degenerate
/// interior away from the zero row and column, and stays strictly inside
/// the dungeon extent.
pub proof fn lemma_accepted_rooms_in_bounds(samples: Seq<RoomSample>)
    requires
        forall|i: int| 0 <= i < samples.len() ==> (#[trigger] samples[i]).in_range(),
    ensures
        forall|i: int|
            0 <= i < accepted_rooms(samples).len() ==> {
                let r = #[trigger] accepted_rooms(samples)[i];
                &&& 1 <= r.p1.x < r.p2.x
                &&& 1 <= r.p1.y < r.p2.y
                &&& r.p2.x < DUNGEON_WIDTH
                &&& r.p2.y < DUNGEON_HEIGHT
            },
    decreases samples.len(),
{
    if samples.len() > 0 {
        assert(forall|i: int|
            0 <= i < samples.drop_last().len() ==> (#[trigger] samples.drop_last()[i])
                == samples[i]);
        lemma_accepted_rooms_in_bounds(samples.drop_last());
        let prev = accepted_rooms(samples.drop_last());
        let r = samples.last().room();
        let rooms = accepted_rooms(samples);
        assert(samples[samples.len() - 1].in_range());
        if room_fits(r) && !intersects_any(r, prev) {
            assert forall|i: int|
                0 <= i < rooms.len() implies {
                let q = #[trigger] rooms[i];
                &&& 1 <= q.p1.x < q.p2.x
                &&& 1 <= q.p1.y < q.p2.y
                &&& q.p2.x < DUNGEON_WIDTH
                &&& q.p2.y < DUNGEON_HEIGHT
            } by {
                if i < prev.len() {
                    assert(rooms[i] == prev[i]);
                } else {
                    assert(rooms[i] == r);
                }
            }
        }
    }
}

/// Law: a generated dungeon's start position is the first accepted
/// room's center, and the tile there is floor.
pub proof fn lemma_dungeon_start_is_floor(m: TileMap, start: Position, rooms: Seq<Rectangle>)
    requires
        generated_dungeon(m, start, rooms),
    ensures
        start == rooms[0].spec_center(),
        m.tile_model().contains_key(start),
        m.tile_model()[start] == Tile::Floor,
{
    let first = rooms[0];
    lemma_center_in_box(first);
    assert(in_room_box(first, start));
    assert(is_carved(rooms, start));
    assert(in_extent(start));
    assert(m.tile_model().contains_key(start));
}

/// Law: revealing is monotone. After two successive reveal passes over
/// the same grid, the overlay holds every position of either pass that
/// exists in the grid, with the grid's own tile, and every position
/// revealed before the passes is still revealed - entries are never
/// removed.
pub proof fn lemma_reveal_monotone(
    tiles: Map<Position, Tile>,
    revealed: Map<Position, Tile>,
    pts1: Seq<Position>,
    pts2: Seq<Position>,
)
    ensures
        ({
            let after = reveal_all(tiles, reveal_all(tiles, revealed, pts1), pts2);
            &&& forall|p: Position| #[trigger]
                revealed.contains_key(p) ==> after.contains_key(p)
            &&& forall|p: Position|
                (pts1.contains(p) || pts2.contains(p)) && #[trigger] tiles.contains_key(p)
                    ==> after.contains_key(p) && after[p] == tiles[p]
        }),
{
    let mid = reveal_all(tiles, revealed, pts1);
    lemma_reveal_all_facts(tiles, revealed, pts1);
    lemma_reveal_all_facts(tiles, mid, pts2);
}

/// The grid key of a keyable position.
fn key_for(pos: Position) -> (k: u64)
    requires
        key_ok(pos),
    ensures
        k == key_of(pos),
{
    (pos.x as u64) * 0x10000 + (pos.y as u64)
}

/// The position a bounded grid key decodes to.
fn key_pos(k: u64) -> (p: Position)
    requires
        k < 0x1_0000_0000,
    ensures
        p == pos_of(k),
{
    Position { x: (k / 0x10000) as isize, y: (k % 0x10000) as isize }
}

} // verus!
