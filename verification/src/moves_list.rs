use vstd::prelude::*;
use crate::moves::{QuietMove, StraightStrike};
use crate::piece::Piece;

verus! {

/// A capture chain: the ordered jumps of one piece in one turn.
///
/// `took_pieces` stores, once the chain is committed with
/// [`crate::position::Position::make_move`], the piece captured by each jump,
/// so the chain can be reverted exactly.  `king_move` records whether any
/// jump of the chain promoted the capturing piece.
#[derive(Clone, Debug)]
pub struct Strike {
    pub vec: Vec<StraightStrike>,
    pub took_pieces: Vec<Option<Piece>>,
    pub king_move: bool,
}

/// One legal move: either a capture chain or a quiet move.
#[derive(Clone, Debug)]
pub enum MoveItem {
    StrikeChain(Strike),
    Move(QuietMove),
}

/// The moves generated for one position, plus the in-progress chain that the
/// recursive capture search extends and shrinks while it explores.
#[derive(Clone, Debug)]
pub struct MoveList {
    pub list: Vec<MoveItem>,
    pub current_chain: Strike,
}

impl MoveList {
    pub fn new() -> (r: MoveList)
        ensures
            r.list@ == Seq::<MoveItem>::empty(),
            r.current_chain.vec@ == Seq::<StraightStrike>::empty(),
            r.current_chain.took_pieces@ == Seq::<Option<Piece>>::empty(),
            r.current_chain.king_move == false,
    {
        MoveList {
            list: Vec::new(),
            current_chain: Strike { vec: Vec::new(), took_pieces: Vec::new(), king_move: false },
        }
    }
}

} // verus!
