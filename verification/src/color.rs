use vstd::prelude::*;

verus! {

/// The two sides of the game.
#[derive(Copy, Clone, Debug, PartialEq, Eq, Structural, Hash)]
pub enum Color {
    Black,
    White,
}

impl Color {
    /// The opposite side, as a spec-level function.
    pub open spec fn spec_opposite(self) -> Color {
        match self {
            Color::Black => Color::White,
            Color::White => Color::Black,
        }
    }

    /// Flips the side in place.
    pub fn reverse(&mut self)
        ensures
            *final(self) == old(self).spec_opposite(),
    {
        *self = if *self == Color::Black {
            Color::White
        } else {
            Color::Black
        }
    }
}

} // verus!
