//! Tile kinds, their derived display attributes, and the drawable cell
//! (glyph plus colors) together with its ANSI escape encoding.

use crate::color::Color;
use vstd::prelude::*;

verus! {

/// A cell classification on the dungeon grid.
#[derive(Clone, Copy, Debug, PartialEq, Eq, Structural)]
pub enum Tile {
    Wall,
    Floor,
}

/// A drawable cell: a glyph styled with a foreground and a background
/// color.
#[derive(Clone, Copy, Debug, PartialEq, Eq, Structural)]
pub struct Renderable {
    pub glyph: char,
    pub fg: Color,
    pub bg: Color,
}

/// The digit character of a single-decimal-digit code.
pub open spec fn digit_char(d: u8) -> char {
    ((d + 0x30) as u8) as char
}

impl Renderable {
    /// The ANSI SGR escape sequence that paints this cell:
    /// `ESC[3{fg};4{bg}m{glyph}ESC[0m`, with single-digit color codes.
    pub open spec fn spec_ansi(self) -> Seq<char> {
        seq![
            '\u{1b}',
            '[',
            '3',
            digit_char(self.fg.spec_code()),
            ';',
            '4',
            digit_char(self.bg.spec_code()),
            'm',
            self.glyph,
            '\u{1b}',
            '[',
            '0',
            'm',
        ]
    }

    /// Render the cell as its ANSI escape sequence.
    pub fn ansi_string(&self) -> (s: String)
        ensures
            s@ == self.spec_ansi(),
    {
        let fg = self.fg.to_code();
        let bg = self.bg.to_code();
        let mut s = String::new();
        push_char(&mut s, '\u{1b}');
        push_char(&mut s, '[');
        push_char(&mut s, '3');
        push_char(&mut s, digit(fg));
        push_char(&mut s, ';');
        push_char(&mut s, '4');
        push_char(&mut s, digit(bg));
        push_char(&mut s, 'm');
        push_char(&mut s, self.glyph);
        push_char(&mut s, '\u{1b}');
        push_char(&mut s, '[');
        push_char(&mut s, '0');
        push_char(&mut s, 'm');
        proof {
            assert(s@ =~= self.spec_ansi());
        }
        s
    }
}

/// The digit character of a single-decimal-digit code.
fn digit(d: u8) -> (c: char)
    requires
        d <= 9,
    ensures
        c == digit_char(d),
{
    (d + 0x30) as char
}

/// Relies on `String::push`: appends the given character to the end of the
/// string.
#[verifier::external_body]
fn push_char(s: &mut String, c: char)
    ensures
        final(s)@ == old(s)@.push(c),
{
    s.push(c);
}

impl Tile {
    /// Whether the tile can be walked onto: floors only.
    pub open spec fn spec_passable(self) -> bool {
        match self {
            Tile::Wall => false,
            Tile::Floor => true,
        }
    }

    /// Whether the tile blocks sight: walls only.
    pub open spec fn spec_opaque(self) -> bool {
        match self {
            Tile::Wall => true,
            Tile::Floor => false,
        }
    }

    /// The drawable cell of the tile kind.
    pub open spec fn spec_renderable(self) -> Renderable {
        match self {
            Tile::Wall => Renderable { glyph: '#', fg: Color::Black, bg: Color::Default },
            Tile::Floor => Renderable { glyph: '\u{b7}', fg: Color::Black, bg: Color::Default },
        }
    }

    pub fn passable(&self) -> (r: bool)
        ensures
            r == self.spec_passable(),
    {
        match self {
            Tile::Wall => false,
            Tile::Floor => true,
        }
    }

    pub fn to_renderable(&self) -> (r: Renderable)
        ensures
            r == self.spec_renderable(),
    {
        match self {
            Tile::Wall => Renderable { glyph: '#', fg: Color::Black, bg: Color::Default },
            Tile::Floor => Renderable { glyph: '\u{b7}', fg: Color::Black, bg: Color::Default },
        }
    }
}

} // verus!
