use vstd::prelude::*;

verus! {

/// Index of a board square; depending on context either a full-board index
/// or a packed index over the playable squares only.
pub type BoardPos = usize;

/// A non-capturing move of one piece.
///
/// `king_move` records whether this move promoted the piece to a king;
/// it is set while the move is applied.
#[derive(Clone, Copy, Debug, PartialEq, Eq, Structural)]
pub struct QuietMove {
    pub from: BoardPos,
    pub to: BoardPos,
    pub king_move: bool,
}

/// One jump of a capture chain: the capturing piece leaves `from`, takes the
/// enemy piece on `take` and lands on `to`.
///
/// `v` lists every empty square the piece could land on along the same ray,
/// starting with the nearest (`v[0]`); each entry gives one legal variant of
/// this jump.  `king_move` records whether landing on `to` promotes the
/// capturing piece.
#[derive(Clone, Debug)]
pub struct StraightStrike {
    pub v: Vec<BoardPos>,
    pub from: BoardPos,
    pub take: BoardPos,
    pub to: BoardPos,
    pub king_move: bool,
}

} // verus!
