//! Integer world-space grid coordinate with exact (no floating error)
//! component-wise arithmetic.

use vstd::arithmetic::div_mod::{
    lemma_basic_div, lemma_div_by_self, lemma_div_is_ordered, lemma_div_is_ordered_by_denominator,
    lemma_div_pos_is_pos,
};
use vstd::prelude::*;

verus! {

/// Truncating integer division (rounding toward zero): the semantics of
/// Rust's `/` on signed integers. Spec-mode `/` is Euclidean, so the two
/// differ when the dividend is negative; every quotient below has a
/// non-negative dividend and a positive divisor, where the two agree.
pub open spec fn div_trunc(a: int, b: int) -> int {
    if a >= 0 && b > 0 {
        a / b
    } else if a >= 0 && b < 0 {
        -(a / -b)
    } else if a < 0 && b > 0 {
        -(-a / b)
    } else {
        -a / -b
    }
}

/// A world-space grid coordinate.
#[derive(Clone, Copy, Debug, PartialEq, Eq, Hash, Structural)]
pub struct Position {
    pub x: isize,
    pub y: isize,
}

/// Truncating division on machine integers, defined for every pair that
/// Rust's `/` accepts without panicking.
fn div_isize(a: isize, b: isize) -> (q: isize)
    requires
        b != 0,
        !(a == isize::MIN && b == -1),
    ensures
        q == div_trunc(a as int, b as int),
{
    if b == isize::MIN {
        // |b| exceeds |a| unless a is isize::MIN as well.
        proof {
            if a >= 0 {
                lemma_basic_div(a as int, -(b as int));
            } else if a == isize::MIN {
                lemma_div_by_self(-(b as int));
            } else {
                lemma_basic_div(-(a as int), -(b as int));
            }
        }
        if a == isize::MIN {
            1
        } else {
            0
        }
    } else if b > 0 {
        a / b
    } else {
        let nb = -b;
        let q0 = a / nb;
        proof {
            if a >= 0 {
                lemma_div_pos_is_pos(a as int, nb as int);
            } else {
                // -q0 == (-a) / nb; show it stays within isize.
                lemma_div_pos_is_pos(-(a as int), nb as int);
                if nb == 1 {
                    // b == -1, so a != isize::MIN by the precondition.
                    assert(-(a as int) / 1 == -(a as int));
                } else {
                    lemma_div_is_ordered_by_denominator(-(a as int), 2, nb as int);
                    lemma_div_is_ordered(-(a as int), -(isize::MIN as int), 2);
                }
            }
        }
        -q0
    }
}

impl Position {
    /// Component-wise vector addition.
    pub fn add(self, rhs: Position) -> (r: Position)
        requires
            isize::MIN <= self.x + rhs.x <= isize::MAX,
            isize::MIN <= self.y + rhs.y <= isize::MAX,
        ensures
            r.x == self.x + rhs.x,
            r.y == self.y + rhs.y,
    {
        Position { x: self.x + rhs.x, y: self.y + rhs.y }
    }

    /// Component-wise vector subtraction.
    pub fn sub(self, rhs: Position) -> (r: Position)
        requires
            isize::MIN <= self.x - rhs.x <= isize::MAX,
            isize::MIN <= self.y - rhs.y <= isize::MAX,
        ensures
            r.x == self.x - rhs.x,
            r.y == self.y - rhs.y,
    {
        Position { x: self.x - rhs.x, y: self.y - rhs.y }
    }

    /// Component-wise division, truncating toward zero as Rust's `/` does.
    /// The excluded inputs are exactly those on which Rust's `/` panics.
    pub fn div(self, rhs: Position) -> (r: Position)
        requires
            rhs.x != 0,
            rhs.y != 0,
            !(self.x == isize::MIN && rhs.x == -1),
            !(self.y == isize::MIN && rhs.y == -1),
        ensures
            r.x == div_trunc(self.x as int, rhs.x as int),
            r.y == div_trunc(self.y as int, rhs.y as int),
    {
        Position { x: div_isize(self.x, rhs.x), y: div_isize(self.y, rhs.y) }
    }
}

} // verus!
