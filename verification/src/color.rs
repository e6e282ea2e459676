//! The eight standard terminal colors plus "default/no override", and
//! their single-digit ANSI SGR codes.

use vstd::prelude::*;

verus! {

#[derive(Clone, Copy, Debug, PartialEq, Eq, Structural)]
pub enum Color {
    Default,
    Black,
    Red,
    Green,
    Yellow,
    Blue,
    Magenta,
    Cyan,
    White,
}

impl Color {
    /// The single-digit ANSI SGR code of the color: 0-7 for the eight
    /// standard colors, 9 for "default/no override".
    pub open spec fn spec_code(self) -> u8 {
        match self {
            Color::Default => 9,
            Color::Black => 0,
            Color::Red => 1,
            Color::Green => 2,
            Color::Yellow => 3,
            Color::Blue => 4,
            Color::Magenta => 5,
            Color::Cyan => 6,
            Color::White => 7,
        }
    }

    pub fn to_code(&self) -> (c: u8)
        ensures
            c == self.spec_code(),
    {
        match self {
            Color::Default => 9,
            Color::Black => 0,
            Color::Red => 1,
            Color::Green => 2,
            Color::Yellow => 3,
            Color::Blue => 4,
            Color::Magenta => 5,
            Color::Cyan => 6,
            Color::White => 7,
        }
    }
}

} // verus!
