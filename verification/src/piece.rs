use vstd::prelude::*;
use crate::color::Color;
use crate::moves::BoardPos;

verus! {

/// One checker on the board.
///
/// `pos` is the packed index of the square the piece stands on and is kept in
/// sync with the cell that stores the piece.  `stricken` is a transient flag:
/// it marks a piece as already captured while a capture chain is being
/// explored, and is cleared again when the exploration backtracks.
#[derive(Copy, Clone, Debug, PartialEq, Eq, Structural)]
pub struct Piece {
    pub pos: BoardPos,
    pub color: Color,
    pub is_king: bool,
    pub stricken: bool,
}

impl Piece {
    /// A fresh piece; it is not stricken.
    pub fn new(pos: BoardPos, color: Color, is_king: bool) -> (r: Piece)
        ensures
            r == (Piece { pos, color, is_king, stricken: false }),
    {
        Piece { pos, color, is_king, stricken: false }
    }
}

} // verus!
