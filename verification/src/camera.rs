//! Scrolling camera: collects world-space drawables each frame and
//! composites them onto a fixed-size screen grid, clipping to the viewport
//! and letting later submissions overdraw earlier ones.

use crate::color::Color;
use crate::position::Position;
use crate::tile::Renderable;
use vstd::prelude::*;

verus! {

/// The cell every screen position starts from each frame: a blank glyph
/// with no color override (full-clear redraw).
pub open spec fn blank_cell() -> Renderable {
    Renderable { glyph: ' ', fg: Color::Default, bg: Color::Default }
}

/// Screen-space column of a world position under a camera offset.
pub open spec fn screen_x(p: Position, offset: Position) -> int {
    p.x - offset.x
}

/// Screen-space row of a world position: world y grows upward while screen
/// rows grow downward, so the vertical axis is flipped.
pub open spec fn screen_y(p: Position, offset: Position, height: int) -> int {
    height - (p.y - offset.y) - 1
}

/// The drawable that ends up at screen cell (sx, sy): the last buffer
/// entry mapped there (later submissions overdraw earlier ones), or the
/// blank cell when none lands there.
pub open spec fn composited_cell(
    buf: Seq<(Position, Renderable)>,
    offset: Position,
    height: int,
    sx: int,
    sy: int,
) -> Renderable
    decreases buf.len(),
{
    if buf.len() == 0 {
        blank_cell()
    } else {
        let (p, r) = buf.last();
        if screen_x(p, offset) == sx && screen_y(p, offset, height) == sy {
            r
        } else {
            composited_cell(buf.drop_last(), offset, height, sx, sy)
        }
    }
}

/// Row-major indices of distinct in-bounds cells are distinct.
proof fn lemma_row_major_injective(w: int, x1: int, y1: int, x2: int, y2: int)
    requires
        0 <= x1 < w,
        0 <= x2 < w,
        y1 * w + x1 == y2 * w + x2,
    ensures
        x1 == x2,
        y1 == y2,
{
    assert((y1 - y2) * w == x2 - x1) by (nonlinear_arith)
        requires
            y1 * w + x1 == y2 * w + x2,
    ;
    assert(y1 == y2) by (nonlinear_arith)
        requires
            (y1 - y2) * w == x2 - x1,
            0 <= x1 < w,
            0 <= x2 < w,
    ;
}

/// Skipping a buffer entry that does not land on (sx, sy) leaves that
/// cell's composited value unchanged.
proof fn lemma_composited_miss(
    buf: Seq<(Position, Renderable)>,
    k: int,
    offset: Position,
    height: int,
    sx: int,
    sy: int,
)
    requires
        0 <= k < buf.len(),
        screen_x(buf[k].0, offset) != sx || screen_y(buf[k].0, offset, height) != sy,
    ensures
        composited_cell(buf.take(k + 1), offset, height, sx, sy) == composited_cell(
            buf.take(k),
            offset,
            height,
            sx,
            sy,
        ),
{
    assert(buf.take(k + 1).drop_last() =~= buf.take(k));
    assert(buf.take(k + 1).last() == buf[k]);
}

/// Map a world position to its screen cell under the given offset, or
/// `None` when it falls outside the `width` x `height` viewport. The
/// screen-space coordinates are computed with checked arithmetic: a value
/// that leaves `isize` is necessarily far outside the viewport.
fn screen_cell(p: Position, offset: Position, width: u16, height: u16) -> (t: Option<
    (usize, usize),
>)
    ensures
        match t {
            Some(cell) => cell.0 == screen_x(p, offset) && cell.1 == screen_y(
                p,
                offset,
                height as int,
            ) && cell.0 < width && cell.1 < height,
            None => !(0 <= screen_x(p, offset) < width) || !(0 <= screen_y(
                p,
                offset,
                height as int,
            ) < height),
        },
{
    let sx = match p.x.checked_sub(offset.x) {
        Some(v) => v,
        None => {
            return None;
        },
    };
    let dy = match p.y.checked_sub(offset.y) {
        Some(v) => v,
        None => {
            return None;
        },
    };
    let row0 = match (height as isize).checked_sub(dy) {
        Some(v) => v,
        None => {
            return None;
        },
    };
    let sy = match row0.checked_sub(1) {
        Some(v) => v,
        None => {
            return None;
        },
    };
    if sx >= 0 && sx < width as isize && sy >= 0 && sy < height as isize {
        Some((sx as usize, sy as usize))
    } else {
        None
    }
}

/// The camera: the world-space offset mapped to the screen origin, and the
/// per-frame buffer of submitted drawables in paint order.
pub struct Camera {
    pub pos: Position,
    pub buffer: Vec<(Position, Renderable)>,
}

impl Camera {
    pub fn new() -> (c: Camera)
        ensures
            c.pos == (Position { x: 0, y: 0 }),
            c.buffer@ == Seq::<(Position, Renderable)>::empty(),
    {
        let c = Camera { pos: Position { x: 0, y: 0 }, buffer: Vec::new() };
        proof {
            assert(c.buffer@ =~= Seq::<(Position, Renderable)>::empty());
        }
        c
    }

    /// Submit a drawable for this frame; later submissions overdraw
    /// earlier ones at the same screen cell.
    pub fn set(&mut self, pos: &Position, renderable: &Renderable)
        ensures
            final(self).buffer@ == old(self).buffer@.push((*pos, *renderable)),
            final(self).pos == old(self).pos,
    {
        self.buffer.push((*pos, *renderable));
    }

    /// Move the camera: `pos` is the world position mapped to the screen
    /// origin for subsequent renders.
    pub fn set_offset(&mut self, pos: Position)
        ensures
            final(self).pos == pos,
            final(self).buffer@ == old(self).buffer@,
    {
        self.pos = pos;
    }

    /// Drop all drawables submitted for this frame.
    pub fn clear_buffer(&mut self)
        ensures
            final(self).buffer@ == Seq::<(Position, Renderable)>::empty(),
            final(self).pos == old(self).pos,
    {
        self.buffer.clear();
        proof {
            assert(self.buffer@ =~= Seq::<(Position, Renderable)>::empty());
        }
    }

    /// Whether a screen position lies on the terminal: true exactly when
    /// `0 <= x < width` and `0 <= y < height` (exclusive on the high end).
    pub fn is_visible(terminal_size: (u16, u16), pos: Position) -> (v: bool)
        ensures
            v == (0 <= pos.x < terminal_size.0 && 0 <= pos.y < terminal_size.1),
    {
        pos.x >= 0 && pos.y >= 0 && pos.x < terminal_size.0 as isize && pos.y < terminal_size.1
            as isize
    }

    /// Composite this frame's buffer onto a width x height screen surface
    /// in row-major order. Every cell starts blank; each buffered drawable
    /// is mapped to screen space, dropped if it falls outside the
    /// viewport, and otherwise painted over whatever is already there.
    pub fn composite(&self, width: u16, height: u16) -> (surface: Vec<Renderable>)
        ensures
            surface@.len() == width as int * height as int,
            forall|sx: int, sy: int|
                0 <= sx < width && 0 <= sy < height ==> surface@[sy * width + sx]
                    == composited_cell(self.buffer@, self.pos, height as int, sx, sy),
    {
        let w = width as usize;
        let h = height as usize;
        proof {
            assert(w * h <= 0xffff * 0xffff) by (nonlinear_arith)
                requires
                    w <= 0xffff,
                    h <= 0xffff,
            ;
        }
        let n = w * h;
        let mut surface: Vec<Renderable> = Vec::new();
        let mut i: usize = 0;
        while i < n
            invariant
                i <= n,
                n == width as int * height as int,
                surface@.len() == i,
                forall|j: int| 0 <= j < i ==> surface@[j] == blank_cell(),
            decreases n - i,
        {
            surface.push(Renderable { glyph: ' ', fg: Color::Default, bg: Color::Default });
            i = i + 1;
        }

        proof {
            assert forall|sx: int, sy: int| 0 <= sx < width && 0 <= sy < height implies surface@[sy
                * width + sx] == #[trigger] composited_cell(
                self.buffer@.take(0),
                self.pos,
                height as int,
                sx,
                sy,
            ) by {
                assert(0 <= sy * width + sx < width as int * height as int) by (nonlinear_arith)
                    requires
                        0 <= sx < width as int,
                        0 <= sy < height as int,
                ;
                assert(self.buffer@.take(0).len() == 0);
            }
        }
        let ghost buf = self.buffer@;
        let mut k: usize = 0;
        while k < self.buffer.len()
            invariant
                k <= buf.len(),
                self.buffer@ == buf,
                w == width as usize,
                h == height as usize,
                surface@.len() == width as int * height as int,
                forall|sx: int, sy: int|
                    0 <= sx < width && 0 <= sy < height ==> surface@[sy * width + sx]
                        == composited_cell(buf.take(k as int), self.pos, height as int, sx, sy),
            decreases buf.len() - k,
        {
            let (p, r) = self.buffer[k];
            proof {
                assert(buf.take(k + 1).drop_last() =~= buf.take(k as int));
                assert(buf.take(k + 1).last() == buf[k as int]);
            }
            match screen_cell(p, self.pos, width, height) {
                Some((ux, uy)) => {
                    proof {
                        assert((uy as int) * (w as int) + (ux as int) < (w as int) * (h as int)
                            && (w as int) * (h as int) <= 0xffff * 0xffff) by (nonlinear_arith)
                            requires
                                (ux as int) < (w as int),
                                (uy as int) < (h as int),
                                w as int <= 0xffff,
                                h as int <= 0xffff,
                        ;
                    }
                    let ghost pre_surface = surface@;
                    let idx = uy * w + ux;
                    surface[idx] = r;
                    proof {
                        assert forall|cx: int, cy: int|
                            0 <= cx < width && 0 <= cy < height implies surface@[cy * width + cx]
                            == #[trigger] composited_cell(
                            buf.take(k + 1),
                            self.pos,
                            height as int,
                            cx,
                            cy,
                        ) by {
                            assert(0 <= cy * (width as int) + cx && cy * (width as int) + cx < (
                            width as int) * (height as int)) by (nonlinear_arith)
                                requires
                                    0 <= cx < width as int,
                                    0 <= cy < height as int,
                            ;
                            assert(pre_surface[cy * width + cx] == composited_cell(
                                buf.take(k as int),
                                self.pos,
                                height as int,
                                cx,
                                cy,
                            ));
                            if cx == ux as int && cy == uy as int {
                                assert(surface@[cy * width + cx] == r);
                            } else {
                                if cy * (width as int) + cx == idx as int {
                                    lemma_row_major_injective(
                                        width as int,
                                        cx,
                                        cy,
                                        ux as int,
                                        uy as int,
                                    );
                                }
                                assert(surface@[cy * width + cx] == pre_surface[cy * width + cx]);
                                lemma_composited_miss(
                                    buf,
                                    k as int,
                                    self.pos,
                                    height as int,
                                    cx,
                                    cy,
                                );
                            }
                        }
                    }
                },
                None => {
                    proof {
                        assert forall|cx: int, cy: int|
                            0 <= cx < width && 0 <= cy < height implies surface@[cy * width + cx]
                            == #[trigger] composited_cell(
                            buf.take(k + 1),
                            self.pos,
                            height as int,
                            cx,
                            cy,
                        ) by {
                            lemma_composited_miss(buf, k as int, self.pos, height as int, cx, cy);
                        }
                    }
                },
            }
            k = k + 1;
        }
        proof {
            assert(buf.take(buf.len() as int) =~= buf);
        }
        surface
    }
}

} // verus!
