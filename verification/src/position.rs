use vstd::prelude::*;
use crate::color::Color;
use crate::moves::BoardPos;
use crate::moves::QuietMove;
use crate::moves::StraightStrike;
use crate::moves_list::MoveItem;
use crate::moves_list::MoveList;
use crate::moves_list::Strike;
use crate::position_environment::rays_ok_at;
use crate::position_environment::ray_point;
use crate::piece::Piece;
use crate::position_environment::PositionEnvironment;

verus! {

/// Number of men and kings one side has on the board.
#[derive(Copy, Clone, Debug, PartialEq, Eq, Structural)]
pub struct PieceCount {
    pub simple: i32,
    pub king: i32,
}

/// Aggregate material of a position: per-colour, per-rank piece counts.
#[derive(Copy, Clone, Debug, PartialEq, Eq, Structural)]
pub struct PosState {
    pub black: PieceCount,
    pub white: PieceCount,
}

/// How much one cell contributes to the count of pieces of the given colour
/// and rank.
pub open spec fn piece_weight(c: Option<Piece>, color: Color, king: bool) -> int {
    match c {
        Some(p) => if p.color == color && p.is_king == king {
            1
        } else {
            0
        },
        None => 0,
    }
}

/// Number of pieces of the given colour and rank on the board.
pub open spec fn count_cells(cells: Seq<Option<Piece>>, color: Color, king: bool) -> int
    decreases cells.len(),
{
    if cells.len() == 0 {
        0
    } else {
        count_cells(cells.drop_last(), color, king) + piece_weight(cells.last(), color, king)
    }
}

/// Updating one cell changes a piece count by the difference of the two
/// cells' weights.
pub proof fn lemma_count_update(
    cells: Seq<Option<Piece>>,
    i: int,
    v: Option<Piece>,
    color: Color,
    king: bool,
)
    requires
        0 <= i < cells.len(),
    ensures
        count_cells(cells.update(i, v), color, king) == count_cells(cells, color, king)
            - piece_weight(cells[i], color, king) + piece_weight(v, color, king),
    decreases cells.len(),
{
    let upd = cells.update(i, v);
    if i == cells.len() - 1 {
        assert(upd.drop_last() =~= cells.drop_last());
        assert(upd.last() == v);
    } else {
        assert(upd.drop_last() =~= cells.drop_last().update(i, v));
        assert(upd.last() == cells.last());
        lemma_count_update(cells.drop_last(), i, v, color, king);
    }
}

/// A piece count never exceeds the number of cells.
pub proof fn lemma_count_bounds(cells: Seq<Option<Piece>>, color: Color, king: bool)
    ensures
        0 <= count_cells(cells, color, king) <= cells.len(),
    decreases cells.len(),
{
    if cells.len() > 0 {
        lemma_count_bounds(cells.drop_last(), color, king);
    }
}

/// Appending one cell adds that cell's weight to a piece count.
pub proof fn lemma_count_push(cells: Seq<Option<Piece>>, v: Option<Piece>, color: Color, king: bool)
    ensures
        count_cells(cells.push(v), color, king) == count_cells(cells, color, king) + piece_weight(
            v,
            color,
            king,
        ),
{
    assert(cells.push(v).drop_last() =~= cells);
    assert(cells.push(v).last() == v);
}

impl PosState {
    /// The stored count for one colour and rank, as a spec value.
    pub open spec fn get(self, color: Color, king: bool) -> int {
        match color {
            Color::Black => if king {
                self.black.king as int
            } else {
                self.black.simple as int
            },
            Color::White => if king {
                self.white.king as int
            } else {
                self.white.simple as int
            },
        }
    }

    /// Material of one colour.
    pub fn get_count(&self, color: Color) -> (r: PieceCount)
        ensures
            r == (if color == Color::Black {
                self.black
            } else {
                self.white
            }),
    {
        if color == Color::Black {
            self.black
        } else {
            self.white
        }
    }

    /// Total number of pieces on the board.
    pub fn get_total(&self) -> (r: i32)
        requires
            0 <= self.get(Color::Black, false) && 0 <= self.get(Color::Black, true),
            0 <= self.get(Color::White, false) && 0 <= self.get(Color::White, true),
            self.get(Color::Black, false) + self.get(Color::Black, true) + self.get(
                Color::White,
                false,
            ) + self.get(Color::White, true) <= i32::MAX,
        ensures
            r as int == self.get(Color::Black, false) + self.get(Color::Black, true) + self.get(
                Color::White,
                false,
            ) + self.get(Color::White, true),
    {
        self.black.king + self.black.simple + self.white.king + self.white.simple
    }

    /// Total number of pieces of one colour.
    pub fn get_total_color(&self, color: Color) -> (r: i32)
        requires
            0 <= self.get(color, false),
            0 <= self.get(color, true),
            self.get(color, false) + self.get(color, true) <= i32::MAX,
        ensures
            r as int == self.get(color, false) + self.get(color, true),
    {
        let cnt = self.get_count(color);
        cnt.king + cnt.simple
    }

    /// Material balance from white's point of view: men are worth 100,
    /// kings 300.
    pub open spec fn spec_evaluate(self) -> int {
        self.get(Color::White, false) * 100 + self.get(Color::White, true) * 300 - self.get(
            Color::Black,
            false,
        ) * 100 - self.get(Color::Black, true) * 300
    }

    /// Material balance from white's point of view.
    pub fn evaluate(&self) -> (r: i32)
        requires
            -8000 <= self.get(Color::Black, false) <= 8000,
            -8000 <= self.get(Color::Black, true) <= 8000,
            -8000 <= self.get(Color::White, false) <= 8000,
            -8000 <= self.get(Color::White, true) <= 8000,
        ensures
            r as int == self.spec_evaluate(),
    {
        self.white.simple * 100 + self.white.king * 300 - self.black.simple * 100 - self.black.king
            * 300
    }
}

/// The cell after a move: the same piece, standing on square `pos`.
pub open spec fn with_pos_spec(c: Option<Piece>, pos: int) -> Option<Piece> {
    match c {
        Some(p) => Some(Piece { pos: pos as BoardPos, ..p }),
        None => None,
    }
}

/// The board after the pieces on `i` and `j` trade places (with their `pos`
/// fields kept in sync).
pub open spec fn spec_swap(cells: Seq<Option<Piece>>, i: int, j: int) -> Seq<Option<Piece>> {
    cells.update(i, with_pos_spec(cells[j], i)).update(j, with_pos_spec(cells[i], j))
}

/// One position of the game: an optional piece per packed square, the
/// aggregate material, and the side to move.
#[derive(Clone, Debug)]
pub struct Position {
    pub cells: Vec<Option<Piece>>,
    pub state: PosState,
    pub next_move: Option<Color>,
}

/// Every stored piece knows the square it stands on.
pub open spec fn cells_positions_ok(cells: Seq<Option<Piece>>) -> bool {
    forall|i: int|
        0 <= i < cells.len() ==> ((#[trigger] cells[i]) matches Some(p) ==> p.pos == i)
}

impl Position {
    /// Every stored piece knows the square it stands on.
    pub open spec fn cells_ok(self) -> bool {
        cells_positions_ok(self.cells@)
    }

    /// The aggregate counts agree with the board.
    pub open spec fn counts_ok(self) -> bool {
        forall|color: Color, king: bool|
            #[trigger] self.state.get(color, king) == count_cells(self.cells@, color, king)
    }

    /// Basic well-formedness: consistent piece positions and counts, on a
    /// board of a supported size.
    pub open spec fn wf(self) -> bool {
        &&& self.cells@.len() <= 126 * 126 / 2
        &&& self.cells_ok()
        &&& self.counts_ok()
    }

    /// No piece carries the transient capture mark; true of every committed
    /// position, and temporarily broken only inside the capture search.
    pub open spec fn no_stricken(self) -> bool {
        forall|i: int|
            0 <= i < self.cells@.len() ==> ((#[trigger] self.cells@[i]) matches Some(p)
                ==> !p.stricken)
    }

    /// An empty position for a board with `packed_count` playable squares.
    pub fn new_empty(packed_count: usize) -> (r: Position)
        requires
            packed_count <= 126 * 126 / 2,
        ensures
            r.wf(),
            r.no_stricken(),
            r.cells@.len() == packed_count,
            forall|i: int| 0 <= i < packed_count ==> (#[trigger] r.cells@[i]) is None,
            r.state == (PosState {
                black: PieceCount { simple: 0, king: 0 },
                white: PieceCount { simple: 0, king: 0 },
            }),
            r.next_move is None,
    {
        let mut cells: Vec<Option<Piece>> = Vec::new();
        let mut i: usize = 0;
        while i < packed_count
            invariant
                i <= packed_count,
                cells@.len() == i,
                forall|k: int| 0 <= k < i ==> (#[trigger] cells@[k]) is None,
                forall|color: Color, king: bool|
                    #[trigger] count_cells(cells@, color, king) == 0,
            decreases packed_count - i,
        {
            proof {
                assert forall|color: Color, king: bool|
                    #[trigger] count_cells(cells@.push(None), color, king) == 0 by {
                    lemma_count_push(cells@, None, color, king);
                }
            }
            cells.push(None);
            i = i + 1;
        }
        Position {
            cells,
            state: PosState {
                black: PieceCount { simple: 0, king: 0 },
                white: PieceCount { simple: 0, king: 0 },
            },
            next_move: None,
        }
    }

    /// Adjusts the stored count of pieces like `piece` by `sign`.
    fn state_change(&mut self, piece: &Piece, sign: i32)
        requires
            sign == 1 || sign == -1,
            i32::MIN < old(self).state.get(piece.color, piece.is_king) + sign < i32::MAX,
        ensures
            final(self).cells == old(self).cells,
            final(self).next_move == old(self).next_move,
            final(self).state.get(piece.color, piece.is_king) == old(self).state.get(
                piece.color,
                piece.is_king,
            ) + sign,
            forall|color: Color, king: bool|
                !(color == piece.color && king == piece.is_king)
                    ==> #[trigger] final(self).state.get(color, king) == old(self).state.get(
                    color,
                    king,
                ),
    {
        if piece.is_king {
            if piece.color == Color::Black {
                self.state.black.king = self.state.black.king + sign;
            } else {
                self.state.white.king = self.state.white.king + sign;
            }
        } else {
            if piece.color == Color::Black {
                self.state.black.simple = self.state.black.simple + sign;
            } else {
                self.state.white.simple = self.state.white.simple + sign;
            }
        }
    }

    /// Puts a piece on its (empty) square and counts it.
    pub fn insert_piece(&mut self, piece: Piece)
        requires
            old(self).wf(),
            piece.pos < old(self).cells@.len(),
            old(self).cells@[piece.pos as int] is None,
            !piece.stricken,
        ensures
            final(self).wf(),
            final(self).cells@ == old(self).cells@.update(piece.pos as int, Some(piece)),
            final(self).next_move == old(self).next_move,
            final(self).state.get(piece.color, piece.is_king) == old(self).state.get(
                piece.color,
                piece.is_king,
            ) + 1,
            forall|color: Color, king: bool|
                !(color == piece.color && king == piece.is_king)
                    ==> #[trigger] final(self).state.get(color, king) == old(self).state.get(
                    color,
                    king,
                ),
            old(self).no_stricken() ==> final(self).no_stricken(),
    {
        proof {
            lemma_count_bounds(self.cells@, piece.color, piece.is_king);
        }
        let pos = piece.pos;
        self.state_change(&piece, 1);
        proof {
            assert forall|color: Color, king: bool|
                #[trigger] count_cells(self.cells@.update(pos as int, Some(piece)), color, king)
                    == count_cells(self.cells@, color, king) + piece_weight(
                    Some(piece),
                    color,
                    king,
                ) by {
                lemma_count_update(self.cells@, pos as int, Some(piece), color, king);
            }
        }
        self.cells[pos] = Some(piece);
    }

    /// Removes the piece on `pos`, if any, and uncounts it.  Returns whether
    /// a piece was there.
    pub fn remove_piece(&mut self, pos: BoardPos) -> (r: bool)
        requires
            old(self).wf(),
            pos < old(self).cells@.len(),
        ensures
            final(self).wf(),
            r == (old(self).cells@[pos as int] is Some),
            final(self).next_move == old(self).next_move,
            r ==> final(self).cells@ == old(self).cells@.update(pos as int, None)
                && (old(self).cells@[pos as int] matches Some(p) ==> final(self).state.get(
                p.color,
                p.is_king,
            ) == old(self).state.get(p.color, p.is_king) - 1 && (forall|color: Color, king: bool|
                !(color == p.color && king == p.is_king) ==> #[trigger] final(self).state.get(
                    color,
                    king,
                ) == old(self).state.get(color, king))),
            !r ==> *final(self) == *old(self),
            old(self).no_stricken() ==> final(self).no_stricken(),
    {
        let cell = self.cells[pos];
        if let Some(piece) = cell {
            proof {
                lemma_count_bounds(self.cells@, piece.color, piece.is_king);
                assert(piece_weight(self.cells@[pos as int], piece.color, piece.is_king) == 1);
                assert(count_cells(self.cells@, piece.color, piece.is_king) >= 1) by {
                    lemma_count_at_least_one(self.cells@, pos as int, piece.color, piece.is_king);
                }
            }
            self.state_change(&piece, -1);
            proof {
                assert forall|color: Color, king: bool|
                    #[trigger] count_cells(self.cells@.update(pos as int, None), color, king)
                        == count_cells(self.cells@, color, king) - piece_weight(
                        Some(piece),
                        color,
                        king,
                    ) by {
                    lemma_count_update(self.cells@, pos as int, None, color, king);
                }
            }
            self.cells[pos] = None;
            return true;
        }
        false
    }

    /// Exchanges the contents of squares `i` and `j`, keeping each moved
    /// piece's `pos` field in sync.
    pub fn swap(&mut self, i: BoardPos, j: BoardPos)
        requires
            old(self).wf(),
            i < old(self).cells@.len(),
            j < old(self).cells@.len(),
        ensures
            final(self).wf(),
            final(self).cells@ == spec_swap(old(self).cells@, i as int, j as int),
            final(self).state == old(self).state,
            final(self).next_move == old(self).next_move,
            old(self).no_stricken() ==> final(self).no_stricken(),
    {
        let a = self.cells[i];
        let b = self.cells[j];
        proof {
            assert forall|color: Color, king: bool|
                #[trigger] count_cells(
                    spec_swap(self.cells@, i as int, j as int),
                    color,
                    king,
                ) == count_cells(self.cells@, color, king) by {
                let mid = self.cells@.update(i as int, with_pos_spec(self.cells@[j as int], i as int));
                lemma_count_update(
                    self.cells@,
                    i as int,
                    with_pos_spec(self.cells@[j as int], i as int),
                    color,
                    king,
                );
                lemma_count_update(
                    mid,
                    j as int,
                    with_pos_spec(self.cells@[i as int], j as int),
                    color,
                    king,
                );
            }
        }
        self.cells[i] = with_pos(b, i);
        self.cells[j] = with_pos(a, j);
        proof {
            assert(self.cells@ == spec_swap(old(self).cells@, i as int, j as int));
            assert forall|k: int|
                0 <= k < self.cells@.len() implies ((#[trigger] self.cells@[k]) matches Some(p)
                ==> p.pos == k) by {
                if k != i as int && k != j as int {
                    assert(self.cells@[k] == old(self).cells@[k]);
                }
            }
            assert forall|color: Color, king: bool|
                #[trigger] self.state.get(color, king) == count_cells(self.cells@, color, king) by {
                assert(count_cells(spec_swap(old(self).cells@, i as int, j as int), color, king)
                    == count_cells(old(self).cells@, color, king));
            }
        }
    }
}

impl Position {
    /// Promotes the piece standing on `to` if it is a man on its final rank,
    /// keeping the aggregate counts in step.
    fn promote_at(&mut self, env: &PositionEnvironment, to: BoardPos)
        requires
            old(self).wf(),
            env.wf(),
            old(self).cells@.len() == env.packed_count(),
            to < old(self).cells@.len(),
        ensures
            final(self).wf(),
            final(self).cells@ == promote_if(*env, old(self).cells@, to as int),
            final(self).next_move == old(self).next_move,
            old(self).no_stricken() ==> final(self).no_stricken(),
    {
        let cell = self.cells[to];
        if let Some(p) = cell {
            if !p.is_king && env.is_king_row(&p) {
                proof {
                    lemma_count_at_least_one(self.cells@, to as int, p.color, false);
                    lemma_count_bounds(self.cells@, p.color, true);
                }
                self.state_change(&p, -1);
                let k = Piece { is_king: true, ..p };
                self.state_change(&k, 1);
                proof {
                    lemma_count_update_all(self.cells@, to as int, Some(k));
                }
                self.cells[to] = Some(k);
            }
        }
    }

    /// Reverts a promotion: the king on `to` becomes a man again.
    fn unpromote_at(&mut self, to: BoardPos)
        requires
            old(self).wf(),
            to < old(self).cells@.len(),
            old(self).cells@[to as int] matches Some(p) && p.is_king,
        ensures
            final(self).wf(),
            final(self).cells@ == unpromote_if(old(self).cells@, to as int, true),
            final(self).next_move == old(self).next_move,
            old(self).no_stricken() ==> final(self).no_stricken(),
    {
        let cell = self.cells[to];
        if let Some(p) = cell {
            proof {
                lemma_count_at_least_one(self.cells@, to as int, p.color, true);
                lemma_count_bounds(self.cells@, p.color, false);
            }
            self.state_change(&p, -1);
            let man = Piece { is_king: false, ..p };
            self.state_change(&man, 1);
            proof {
                lemma_count_update_all(self.cells@, to as int, Some(man));
            }
            self.cells[to] = Some(man);
        }
    }

    /// Applies a quiet move: the piece slides from `from` to `to` and is
    /// promoted if it reaches its final rank.
    fn apply_quiet_move(&mut self, env: &PositionEnvironment, m: &QuietMove)
        requires
            old(self).wf(),
            env.wf(),
            old(self).cells@.len() == env.packed_count(),
            quiet_valid(*env, old(self).cells@, *m),
        ensures
            final(self).wf(),
            final(self).cells@ == quiet_step(*env, old(self).cells@, *m),
            final(self).next_move == old(self).next_move,
            old(self).no_stricken() ==> final(self).no_stricken(),
    {
        self.swap(m.from, m.to);
        self.promote_at(env, m.to);
    }

    /// Reverts a quiet move: the promotion is undone and the piece slides
    /// back.
    fn undo_quiet_move(&mut self, env: &PositionEnvironment, m: &QuietMove)
        requires
            old(self).wf(),
            env.wf(),
            old(self).cells@.len() == env.packed_count(),
            undo_quiet_ok(old(self).cells@, *m),
        ensures
            final(self).wf(),
            final(self).cells@ == undo_quiet(*env, old(self).cells@, *m),
            final(self).next_move == old(self).next_move,
            old(self).no_stricken() ==> final(self).no_stricken(),
    {
        if m.king_move {
            self.unpromote_at(m.to);
        }
        proof {
            assert(self.cells@ == unpromote_if(old(self).cells@, m.to as int, m.king_move));
        }
        self.swap(m.to, m.from);
    }

    /// Commits one jump: the piece jumps from `from` to `to`, the captured
    /// piece is removed from `take`, and the piece is promoted if it lands on
    /// its final rank.  Returns the removed piece.
    fn apply_hop(&mut self, env: &PositionEnvironment, h: &StraightStrike) -> (victim: Option<
        Piece,
    >)
        requires
            old(self).wf(),
            env.wf(),
            old(self).cells@.len() == env.packed_count(),
            hop_valid(*env, old(self).cells@, *h),
        ensures
            final(self).wf(),
            victim == old(self).cells@[h.take as int],
            final(self).cells@ == commit_step(*env, old(self).cells@, *h),
            final(self).next_move == old(self).next_move,
            old(self).no_stricken() ==> final(self).no_stricken(),
    {
        self.swap(h.from, h.to);
        let victim = self.cells[h.take];
        if let Some(v) = victim {
            proof {
                lemma_count_at_least_one(self.cells@, h.take as int, v.color, v.is_king);
            }
            self.state_change(&v, -1);
        }
        proof {
            lemma_count_update_all(self.cells@, h.take as int, None);
        }
        self.cells[h.take] = None;
        self.promote_at(env, h.to);
        victim
    }

    /// Reverts one jump: the promotion is undone, the piece jumps back, and
    /// the stored victim returns to its square.
    fn undo_hop(&mut self, env: &PositionEnvironment, h: &StraightStrike, victim: Option<Piece>)
        requires
            old(self).wf(),
            env.wf(),
            old(self).cells@.len() == env.packed_count(),
            undo_hop_ok(old(self).cells@, *h, victim),
        ensures
            final(self).wf(),
            final(self).cells@ == undo_step(*env, old(self).cells@, *h, victim),
            final(self).next_move == old(self).next_move,
    {
        if h.king_move {
            self.unpromote_at(h.to);
        }
        proof {
            assert(self.cells@ == unpromote_if(old(self).cells@, h.to as int, h.king_move));
        }
        self.swap(h.to, h.from);
        if let Some(vp) = victim {
            proof {
                lemma_count_bounds(self.cells@, vp.color, vp.is_king);
            }
            self.state_change(&vp, 1);
            proof {
                lemma_count_update_all(self.cells@, h.take as int, Some(vp));
            }
            self.cells[h.take] = Some(vp);
        } else {
            proof {
                assert(false);
            }
        }
    }
}

impl Position {
    /// Passes the turn to the other side.
    fn flip_next(&mut self)
        ensures
            final(self).cells == old(self).cells,
            final(self).state == old(self).state,
            final(self).next_move == flip_turn(old(self).next_move),
    {
        self.next_move = match self.next_move {
            Some(Color::White) => Some(Color::Black),
            Some(Color::Black) => Some(Color::White),
            None => None,
        };
    }

    /// Applies a legal move to the board: a quiet slide, or a whole capture
    /// chain jump by jump.  For a chain, the captured pieces are stored in
    /// the move so that [`Position::unmake_move`] can restore them.  The
    /// turn passes to the other side.
    pub fn make_move(&mut self, env: &PositionEnvironment, move_item: &mut MoveItem)
        requires
            old(self).wf(),
            env.wf(),
            old(self).cells@.len() == env.packed_count(),
            valid_move(*env, old(self).cells@, *old(move_item)),
        ensures
            final(self).wf(),
            final(self).cells@.len() == old(self).cells@.len(),
            final(self).cells@ == apply_move_spec(*env, old(self).cells@, *old(move_item)),
            final(self).next_move == flip_turn(old(self).next_move),
            old(self).no_stricken() ==> final(self).no_stricken(),
            undo_move_ok(*env, final(self).cells@, *final(move_item)),
            unapply_move_spec(*env, final(self).cells@, *final(move_item)) == old(self).cells@,
            match *old(move_item) {
                MoveItem::Move(m) => *final(move_item) == MoveItem::Move(m),
                MoveItem::StrikeChain(s) => match *final(move_item) {
                    MoveItem::StrikeChain(s2) => s2.vec == s.vec && s2.king_move == s.king_move
                        && s2.took_pieces@ == chain_taken(*env, old(self).cells@, s.vec@),
                    MoveItem::Move(_) => false,
                },
            },
    {
        match move_item {
            MoveItem::Move(m) => {
                proof {
                    lemma_quiet_roundtrip(*env, self.cells@, *m);
                }
                self.apply_quiet_move(env, m);
            },
            MoveItem::StrikeChain(s) => {
                let ghost c0 = self.cells@;
                let ghost hops = s.vec@;
                proof {
                    lemma_chain_roundtrip(*env, c0, hops);
                }
                let n = s.vec.len();
                proof {
                    assert(hops.subrange(0, n as int) =~= hops);
                }
                let mut took: Vec<Option<Piece>> = Vec::new();
                let mut k: usize = 0;
                while k < n
                    invariant
                        self.wf(),
                        env.wf(),
                        self.cells@.len() == env.packed_count(),
                        n == hops.len(),
                        hops == s.vec@,
                        k <= n,
                        took@.len() == k,
                        commit_chain(*env, c0, hops) == commit_chain(
                            *env,
                            self.cells@,
                            hops.subrange(k as int, n as int),
                        ),
                        chain_valid(*env, self.cells@, hops.subrange(k as int, n as int)),
                        chain_taken(*env, c0, hops) == took@ + chain_taken(
                            *env,
                            self.cells@,
                            hops.subrange(k as int, n as int),
                        ),
                        self.next_move == old(self).next_move,
                        old(self).no_stricken() ==> self.no_stricken(),
                    decreases n - k,
                {
                    let ghost pre = self.cells@;
                    let ghost rest = hops.subrange(k as int, n as int);
                    proof {
                        assert(rest[0] == hops[k as int]);
                        assert(rest.skip(1) =~= hops.subrange(k as int + 1, n as int));
                    }
                    let v = self.apply_hop(env, &s.vec[k]);
                    took.push(v);
                    proof {
                        assert(commit_chain(*env, pre, rest) == commit_chain(
                            *env,
                            self.cells@,
                            rest.skip(1),
                        ));
                        assert(chain_taken(*env, pre, rest) == seq![pre[hops[k as int].take as int]]
                            + chain_taken(*env, self.cells@, rest.skip(1)));
                        assert(took@ + chain_taken(*env, self.cells@, rest.skip(1)) =~= took@.drop_last()
                            + chain_taken(*env, pre, rest));
                    }
                    k = k + 1;
                }
                proof {
                    assert(hops.subrange(n as int, n as int) =~= Seq::<StraightStrike>::empty());
                    assert(commit_chain(*env, c0, hops) == self.cells@);
                    assert(chain_taken(*env, c0, hops) =~= took@);
                }
                s.took_pieces = took;
            },
        }
        self.flip_next();
    }

    /// Reverts a move applied with [`Position::make_move`], restoring the
    /// position exactly; the turn passes back.
    pub fn unmake_move(&mut self, env: &PositionEnvironment, move_item: &MoveItem)
        requires
            old(self).wf(),
            env.wf(),
            old(self).cells@.len() == env.packed_count(),
            undo_move_ok(*env, old(self).cells@, *move_item),
        ensures
            final(self).wf(),
            final(self).cells@ == unapply_move_spec(*env, old(self).cells@, *move_item),
            final(self).next_move == flip_turn(old(self).next_move),
    {
        match move_item {
            MoveItem::Move(m) => {
                self.undo_quiet_move(env, m);
            },
            MoveItem::StrikeChain(s) => {
                let ghost c0 = self.cells@;
                let ghost hops = s.vec@;
                let ghost took = s.took_pieces@;
                let n = s.vec.len();
                proof {
                    assert(hops.subrange(0, n as int) =~= hops);
                    assert(took.subrange(0, n as int) =~= took);
                }
                let mut k: usize = n;
                while k > 0
                    invariant
                        self.wf(),
                        env.wf(),
                        self.cells@.len() == env.packed_count(),
                        n == hops.len(),
                        hops == s.vec@,
                        took == s.took_pieces@,
                        took.len() == n,
                        k <= n,
                        undo_chain(*env, c0, hops, took) == undo_chain(
                            *env,
                            self.cells@,
                            hops.subrange(0, k as int),
                            took.subrange(0, k as int),
                        ),
                        undo_chain_ok(
                            *env,
                            self.cells@,
                            hops.subrange(0, k as int),
                            took.subrange(0, k as int),
                        ),
                        self.next_move == old(self).next_move,
                    decreases k,
                {
                    let ghost pre = self.cells@;
                    let ghost hs = hops.subrange(0, k as int);
                    let ghost ts = took.subrange(0, k as int);
                    proof {
                        assert(hs.last() == hops[k as int - 1]);
                        assert(ts.last() == took[k as int - 1]);
                        assert(hs.drop_last() =~= hops.subrange(0, k as int - 1));
                        assert(ts.drop_last() =~= took.subrange(0, k as int - 1));
                    }
                    k = k - 1;
                    let v = s.took_pieces[k];
                    self.undo_hop(env, &s.vec[k], v);
                    proof {
                        assert(undo_chain(*env, pre, hs, ts) == undo_chain(
                            *env,
                            self.cells@,
                            hs.drop_last(),
                            ts.drop_last(),
                        ));
                    }
                }
                proof {
                    assert(hops.subrange(0, 0) =~= Seq::<StraightStrike>::empty());
                    assert(took.subrange(0, 0) =~= Seq::<Option<Piece>>::empty());
                    assert(undo_chain(*env, c0, hops, took) == self.cells@);
                }
            },
        }
        self.flip_next();
    }
}

/// The cell with its piece marked as captured (used while a capture chain
/// is being explored: the piece stays on the board as a blocker).
pub open spec fn mark_stricken(c: Option<Piece>) -> Option<Piece> {
    match c {
        Some(p) => Some(Piece { stricken: true, ..p }),
        None => None,
    }
}

/// The cell with its capture mark cleared again.
pub open spec fn unmark_stricken(c: Option<Piece>) -> Option<Piece> {
    match c {
        Some(p) => Some(Piece { stricken: false, ..p }),
        None => None,
    }
}

/// The board after one speculative jump given by its squares alone: the
/// piece jumps from `from` to `to`, the victim on `take` stays as a blocker
/// but is marked captured, and the piece may be promoted.
pub open spec fn disc_step_at(
    env: PositionEnvironment,
    cells: Seq<Option<Piece>>,
    from: int,
    to: int,
    take: int,
) -> Seq<Option<Piece>> {
    promote_if(
        env,
        spec_swap(cells, from, to).update(take, mark_stricken(cells[take])),
        to,
    )
}

/// The board after one jump is applied speculatively, during chain search:
/// the piece jumps, the victim stays on its square but is marked captured,
/// and the piece may be promoted.
pub open spec fn disc_step(
    env: PositionEnvironment,
    cells: Seq<Option<Piece>>,
    h: StraightStrike,
) -> Seq<Option<Piece>> {
    disc_step_at(env, cells, h.from as int, h.to as int, h.take as int)
}

/// The board after a whole chain of speculative jumps, jump by jump.
pub open spec fn disc_chain(
    env: PositionEnvironment,
    cells: Seq<Option<Piece>>,
    hops: Seq<StraightStrike>,
) -> Seq<Option<Piece>>
    decreases hops.len(),
{
    if hops.len() == 0 {
        cells
    } else {
        disc_chain(env, disc_step(env, cells, hops[0]), hops.skip(1))
    }
}

/// Extending a speculative chain by one jump applies the chain and then the
/// jump.
pub proof fn lemma_disc_chain_snoc(
    env: PositionEnvironment,
    cells: Seq<Option<Piece>>,
    front: Seq<StraightStrike>,
    h: StraightStrike,
)
    ensures
        disc_chain(env, cells, front.push(h)) == disc_step(
            env,
            disc_chain(env, cells, front),
            h,
        ),
    decreases front.len(),
{
    let ext = front.push(h);
    if front.len() == 0 {
        assert(ext[0] == h);
        assert(ext.skip(1) =~= Seq::<StraightStrike>::empty());
        assert(disc_chain(env, cells, ext) == disc_chain(env, disc_step(env, cells, h), ext.skip(1)));
    } else {
        assert(ext[0] == front[0]);
        assert(ext.skip(1) =~= front.skip(1).push(h));
        lemma_disc_chain_snoc(env, disc_step(env, cells, front[0]), front.skip(1), h);
        assert(disc_chain(env, cells, ext) == disc_chain(env, disc_step(env, cells, front[0]), ext.skip(1)));
        assert(disc_chain(env, cells, front) == disc_chain(env, disc_step(env, cells, front[0]), front.skip(1)));
    }
}

/// Speculative chain application depends only on the squares of the jumps.
pub proof fn lemma_disc_chain_congruence(
    env: PositionEnvironment,
    cells: Seq<Option<Piece>>,
    a: Seq<StraightStrike>,
    b: Seq<StraightStrike>,
)
    requires
        hops_match(a, b),
    ensures
        disc_chain(env, cells, a) == disc_chain(env, cells, b),
    decreases a.len(),
{
    if a.len() != 0 {
        assert(disc_step(env, cells, a[0]) == disc_step(env, cells, b[0]));
        assert forall|i: int|
            0 <= i < a.skip(1).len() implies (#[trigger] a.skip(1)[i]).from == (#[trigger] b.skip(
            1,
        )[i]).from && a.skip(1)[i].take == b.skip(1)[i].take && a.skip(1)[i].to == b.skip(1)[i].to
            && a.skip(1)[i].king_move == b.skip(1)[i].king_move by {
            assert(a.skip(1)[i] == a[i + 1]);
            assert(b.skip(1)[i] == b[i + 1]);
        }
        lemma_disc_chain_congruence(env, disc_step(env, cells, a[0]), a.skip(1), b.skip(1));
    }
}

/// The board after a speculative jump is taken back.
pub open spec fn undo_disc_step(
    env: PositionEnvironment,
    cells: Seq<Option<Piece>>,
    h: StraightStrike,
) -> Seq<Option<Piece>> {
    spec_swap(unpromote_if(cells, h.to as int, h.king_move), h.to as int, h.from as int).update(
        h.take as int,
        unmark_stricken(cells[h.take as int]),
    )
}

/// Consecutive jumps of a chain connect: each jump starts where the one
/// before it landed.
pub open spec fn chain_connected(hops: Seq<StraightStrike>) -> bool {
    forall|k: int| 0 <= k < hops.len() - 1 ==> (#[trigger] hops[k]).to == hops[k + 1].from
}

/// Whether every jump of a chain is consistent with the search board it
/// meets: like [`chain_valid`], but with captured pieces left on the board
/// as blockers, the way the capture search explores.
pub open spec fn disc_chain_valid(
    env: PositionEnvironment,
    cells: Seq<Option<Piece>>,
    hops: Seq<StraightStrike>,
) -> bool
    decreases hops.len(),
{
    if hops.len() == 0 {
        true
    } else {
        hop_valid(env, cells, hops[0]) && disc_chain_valid(
            env,
            disc_step(env, cells, hops[0]),
            hops.skip(1),
        )
    }
}

/// Extending a chain by one jump is consistent for the search exactly when
/// the chain is and the jump fits the board the chain produces.
pub proof fn lemma_disc_valid_snoc(
    env: PositionEnvironment,
    cells: Seq<Option<Piece>>,
    front: Seq<StraightStrike>,
    h: StraightStrike,
)
    ensures
        disc_chain_valid(env, cells, front.push(h)) == (disc_chain_valid(env, cells, front)
            && hop_valid(env, disc_chain(env, cells, front), h)),
    decreases front.len(),
{
    let ext = front.push(h);
    if front.len() == 0 {
        assert(ext[0] == h);
        assert(ext.skip(1) =~= Seq::<StraightStrike>::empty());
        assert(disc_chain_valid(env, cells, ext) == (hop_valid(env, cells, h)
            && disc_chain_valid(env, disc_step(env, cells, h), ext.skip(1))));
    } else {
        assert(ext[0] == front[0]);
        assert(ext.skip(1) =~= front.skip(1).push(h));
        lemma_disc_valid_snoc(env, disc_step(env, cells, front[0]), front.skip(1), h);
        lemma_disc_chain_snoc(env, cells, front, h);
        assert(disc_chain_valid(env, cells, ext) == (hop_valid(env, cells, front[0])
            && disc_chain_valid(env, disc_step(env, cells, front[0]), ext.skip(1))));
        assert(disc_chain(env, cells, front) == disc_chain(
            env,
            disc_step(env, cells, front[0]),
            front.skip(1),
        ));
    }
}

/// Search consistency of a chain depends only on the squares of its jumps.
pub proof fn lemma_disc_valid_congruence(
    env: PositionEnvironment,
    cells: Seq<Option<Piece>>,
    a: Seq<StraightStrike>,
    b: Seq<StraightStrike>,
)
    requires
        hops_match(a, b),
    ensures
        disc_chain_valid(env, cells, a) == disc_chain_valid(env, cells, b),
    decreases a.len(),
{
    if a.len() != 0 {
        assert(hop_valid(env, cells, a[0]) == hop_valid(env, cells, b[0]));
        assert(disc_step(env, cells, a[0]) == disc_step(env, cells, b[0]));
        assert forall|i: int|
            0 <= i < a.skip(1).len() implies (#[trigger] a.skip(1)[i]).from == (#[trigger] b.skip(
            1,
        )[i]).from && a.skip(1)[i].take == b.skip(1)[i].take && a.skip(1)[i].to == b.skip(1)[i].to
            && a.skip(1)[i].king_move == b.skip(1)[i].king_move by {
            assert(a.skip(1)[i] == a[i + 1]);
            assert(b.skip(1)[i] == b[i + 1]);
        }
        lemma_disc_valid_congruence(env, disc_step(env, cells, a[0]), a.skip(1), b.skip(1));
    }
}

/// The shape of a generated capture chain, derived from how the search
/// explores (captured pieces stay on the board as blockers until the chain
/// is committed): every captured square held a live enemy of the moving
/// piece on the board the chain was generated for; no square is captured
/// twice; no jump starts on, lands on, or captures an already-captured
/// square.
#[verifier::rlimit(100)]
pub proof fn lemma_chain_shape(
    env: PositionEnvironment,
    base: Seq<Option<Piece>>,
    hops: Seq<StraightStrike>,
)
    requires
        disc_chain_valid(env, base, hops),
        chain_connected(hops),
        hops.len() >= 1,
    ensures
        forall|k: int|
            0 <= k < hops.len() ==> ((#[trigger] hops[k]).take as int) < base.len() && (
            base[hops[k].take as int] matches Some(v) && !v.stricken && (match base[hops[0].from as int] {
                Some(m) => v.color != m.color,
                None => true,
            })),
        forall|k1: int, k2: int|
            0 <= k1 < hops.len() && 0 <= k2 < hops.len() && k1 != k2 ==> (
            #[trigger] hops[k1]).take != (#[trigger] hops[k2]).take,
        forall|k1: int, k2: int|
            0 <= k1 < hops.len() && 0 <= k2 < hops.len() ==> (#[trigger] hops[k1]).take != (
            #[trigger] hops[k2]).to && hops[k1].take != hops[k2].from,
        forall|q: int, k: int|
            0 <= q < base.len() && ((#[trigger] base[q]) matches Some(p) && p.stricken) && 0 <= k
                < hops.len() ==> (#[trigger] hops[k]).take != q && hops[k].to != q && hops[k].from
                != q,
    decreases hops.len(),
{
    let h0 = hops[0];
    let f = h0.from as int;
    let t = h0.to as int;
    let x = h0.take as int;
    assert(hop_valid(env, base, h0));
    let base1 = disc_step(env, base, h0);
    assert(base1.len() == base.len());
    assert(base1[x] == mark_stricken(base[x]));
    assert(base1[x] matches Some(vx) && vx.stricken);
    assert(base1[f] is None);
    assert(base1[t] matches Some(p) && !p.stricken && (match base[f] {
        Some(m) => p.color == m.color,
        None => false,
    }));
    if hops.len() == 1 {
        assert forall|q: int, k: int|
            0 <= q < base.len() && ((#[trigger] base[q]) matches Some(p) && p.stricken) && 0 <= k
                < hops.len() implies (#[trigger] hops[k]).take != q && hops[k].to != q
            && hops[k].from != q by {
            assert(base[x] matches Some(v) && !v.stricken);
            assert(base[t] is None);
            assert(base[f] matches Some(m) && !m.stricken);
        }
    } else {
        let rest = hops.skip(1);
        assert(rest[0].from == h0.to);
        assert forall|k: int| 0 <= k < rest.len() - 1 implies (#[trigger] rest[k]).to == rest[k
            + 1].from by {
            assert(rest[k] == hops[k + 1]);
            assert(rest[k + 1] == hops[k + 2]);
        }
        lemma_chain_shape(env, base1, rest);
        // captured squares of the tail are untouched by the first jump
        assert forall|k: int|
            1 <= k < hops.len() implies {
            let xi = (#[trigger] hops[k]).take as int;
            xi != x && xi != f && xi != t && base1[xi] == base[xi]
        } by {
            assert(hops[k] == rest[k - 1]);
            let xi = hops[k].take as int;
            assert(base1[xi] matches Some(v) && !v.stricken && (match base1[rest[0].from as int] {
                Some(m2) => v.color != m2.color,
                None => true,
            }));
            assert(xi != x);
            assert(xi != f);
            assert(xi != t);
        }
        // first ensures: victims sat on the original board, enemies of the mover
        assert forall|k: int|
            0 <= k < hops.len() implies ((#[trigger] hops[k]).take as int) < base.len() && (
        base[hops[k].take as int] matches Some(v) && !v.stricken && (match base[hops[0].from as int] {
            Some(m) => v.color != m.color,
            None => true,
        })) by {
            if k >= 1 {
                assert(hops[k] == rest[k - 1]);
                assert(base1[hops[k].take as int] == base[hops[k].take as int]);
            }
        }
        // fourth ensures: already-captured squares are never touched again
        assert forall|q: int, k: int|
            0 <= q < base.len() && ((#[trigger] base[q]) matches Some(p) && p.stricken) && 0 <= k
                < hops.len() implies (#[trigger] hops[k]).take != q && hops[k].to != q
            && hops[k].from != q by {
            assert(base[x] matches Some(v0) && !v0.stricken);
            assert(base[t] is None);
            assert(base[f] matches Some(m0) && !m0.stricken);
            if k >= 1 {
                assert(q != x && q != t && q != f);
                assert(base1[q] == base[q]);
                assert(base1[q] matches Some(p2) && p2.stricken);
                assert(hops[k] == rest[k - 1]);
                assert(rest[k - 1].take != q && rest[k - 1].to != q && rest[k - 1].from != q);
            }
        }
        // second ensures: no square is captured twice
        assert forall|k1: int, k2: int|
            0 <= k1 < hops.len() && 0 <= k2 < hops.len() && k1 != k2 implies (
        #[trigger] hops[k1]).take != (#[trigger] hops[k2]).take by {
            if k1 >= 1 && k2 >= 1 {
                assert(hops[k1] == rest[k1 - 1]);
                assert(hops[k2] == rest[k2 - 1]);
            } else if k1 == 0 {
                assert(hops[k2] == rest[k2 - 1]);
                assert(base1[x] matches Some(v) && v.stricken);
                assert(rest[k2 - 1].take != x);
            } else {
                assert(hops[k1] == rest[k1 - 1]);
                assert(rest[k1 - 1].take != x);
            }
        }
        // third ensures: captured squares are never jumped from or onto
        assert forall|k1: int, k2: int|
            0 <= k1 < hops.len() && 0 <= k2 < hops.len() implies (#[trigger] hops[k1]).take != (
        #[trigger] hops[k2]).to && hops[k1].take != hops[k2].from by {
            if k1 >= 1 {
                assert(hops[k1] == rest[k1 - 1]);
            }
            if k2 >= 1 {
                assert(hops[k2] == rest[k2 - 1]);
            }
            if k1 == 0 && k2 >= 1 {
                assert(base1[x] matches Some(v) && v.stricken);
                assert(rest[k2 - 1].take != x && rest[k2 - 1].to != x && rest[k2 - 1].from != x);
            }
            if k1 >= 1 && k2 == 0 {
                assert(hops[k1].take as int != t && hops[k1].take as int != f);
            }
        }
    }
}

/// Every square a valid chain names lies on the board.
pub proof fn lemma_chain_valid_range(
    env: PositionEnvironment,
    cells: Seq<Option<Piece>>,
    hops: Seq<StraightStrike>,
)
    requires
        chain_valid(env, cells, hops),
    ensures
        forall|k: int|
            0 <= k < hops.len() ==> ((#[trigger] hops[k]).from as int) < cells.len() && (
            hops[k].to as int) < cells.len() && (hops[k].take as int) < cells.len(),
    decreases hops.len(),
{
    if hops.len() > 0 {
        assert(hop_valid(env, cells, hops[0]));
        lemma_chain_valid_range(env, commit_step(env, cells, hops[0]), hops.skip(1));
        assert(commit_step(env, cells, hops[0]).len() == cells.len());
        assert forall|k: int|
            0 <= k < hops.len() implies ((#[trigger] hops[k]).from as int) < cells.len() && (
        hops[k].to as int) < cells.len() && (hops[k].take as int) < cells.len() by {
            if k >= 1 {
                assert(hops[k] == hops.skip(1)[k - 1]);
            }
        }
    }
}

/// Squares no jump of a chain touches are left alone by committing it.
pub proof fn lemma_commit_frame(
    env: PositionEnvironment,
    cells: Seq<Option<Piece>>,
    hops: Seq<StraightStrike>,
    q: int,
)
    requires
        chain_valid(env, cells, hops),
        forall|k: int|
            0 <= k < hops.len() ==> q != (#[trigger] hops[k]).from && q != hops[k].to && q
                != hops[k].take,
    ensures
        0 <= q < cells.len() ==> commit_chain(env, cells, hops)[q] == cells[q],
    decreases hops.len(),
{
    if hops.len() > 0 {
        assert(hop_valid(env, cells, hops[0]));
        assert forall|k: int|
            0 <= k < hops.skip(1).len() implies q != (#[trigger] hops.skip(1)[k]).from && q
            != hops.skip(1)[k].to && q != hops.skip(1)[k].take by {
            assert(hops.skip(1)[k] == hops[k + 1]);
        }
        lemma_commit_frame(env, commit_step(env, cells, hops[0]), hops.skip(1), q);
    }
}

/// A chain captures exactly one piece per jump.
pub proof fn lemma_chain_taken_len(
    env: PositionEnvironment,
    cells: Seq<Option<Piece>>,
    hops: Seq<StraightStrike>,
)
    ensures
        chain_taken(env, cells, hops).len() == hops.len(),
    decreases hops.len(),
{
    if hops.len() > 0 {
        lemma_chain_taken_len(env, commit_step(env, cells, hops[0]), hops.skip(1));
    }
}

/// Committing a capture chain empties every captured square, and the stored
/// victims are exactly the pieces the original board held on those squares.
pub proof fn lemma_commit_chain_takes(
    env: PositionEnvironment,
    base: Seq<Option<Piece>>,
    hops: Seq<StraightStrike>,
)
    requires
        chain_valid(env, base, hops),
        hops.len() >= 1,
        forall|k1: int, k2: int|
            0 <= k1 < hops.len() && 0 <= k2 < hops.len() && k1 != k2 ==> (
            #[trigger] hops[k1]).take != (#[trigger] hops[k2]).take,
        forall|k1: int, k2: int|
            0 <= k1 < hops.len() && 0 <= k2 < hops.len() ==> (#[trigger] hops[k1]).take != (
            #[trigger] hops[k2]).to && hops[k1].take != hops[k2].from,
    ensures
        forall|k: int|
            0 <= k < hops.len() ==> commit_chain(env, base, hops)[(#[trigger] hops[k]).take as int]
                is None,
        forall|k: int|
            0 <= k < hops.len() ==> #[trigger] chain_taken(env, base, hops)[k] == base[(
            hops[k]).take as int],
    decreases hops.len(),
{
    let h0 = hops[0];
    let f = h0.from as int;
    let t = h0.to as int;
    let x = h0.take as int;
    assert(hop_valid(env, base, h0));
    let base1 = commit_step(env, base, h0);
    assert(base1.len() == base.len());
    assert(base1[x] is None);
    let rest = hops.skip(1);
    assert(commit_chain(env, base, hops) == commit_chain(env, base1, rest));
    assert(chain_taken(env, base, hops) == seq![base[x]] + chain_taken(env, base1, rest));
    if hops.len() == 1 {
        assert(commit_chain(env, base1, rest) == base1);
        assert(chain_taken(env, base, hops) =~= seq![base[x]]);
    } else {
        assert forall|k1: int, k2: int|
            0 <= k1 < rest.len() && 0 <= k2 < rest.len() && k1 != k2 implies (
        #[trigger] rest[k1]).take != (#[trigger] rest[k2]).take by {
            assert(rest[k1] == hops[k1 + 1]);
            assert(rest[k2] == hops[k2 + 1]);
        }
        assert forall|k1: int, k2: int|
            0 <= k1 < rest.len() && 0 <= k2 < rest.len() implies (#[trigger] rest[k1]).take != (
        #[trigger] rest[k2]).to && rest[k1].take != rest[k2].from by {
            assert(rest[k1] == hops[k1 + 1]);
            assert(rest[k2] == hops[k2 + 1]);
        }
        lemma_commit_chain_takes(env, base1, rest);
        assert forall|k: int|
            0 <= k < rest.len() implies x != (#[trigger] rest[k]).from as int && x
            != rest[k].to as int && x != rest[k].take as int by {
            assert(rest[k] == hops[k + 1]);
        }
        lemma_commit_frame(env, base1, rest, x);
        lemma_chain_valid_range(env, base1, rest);
        lemma_chain_taken_len(env, base1, rest);
        assert forall|k: int|
            0 <= k < rest.len() implies base1[(#[trigger] rest[k]).take as int] == base[rest[k].take as int] by {
            let xi = rest[k].take as int;
            assert(rest[k] == hops[k + 1]);
            assert(hops[k + 1].take != hops[0].from);
            assert(hops[k + 1].take != hops[0].to);
            assert(hops[k + 1].take != hops[0].take);
            assert(0 <= xi < base.len());
        }
        assert forall|k: int|
            0 <= k < hops.len() implies commit_chain(env, base, hops)[(
        #[trigger] hops[k]).take as int] is None by {
            if k >= 1 {
                assert(hops[k] == rest[k - 1]);
            }
        }
        assert forall|k: int|
            0 <= k < hops.len() implies #[trigger] chain_taken(env, base, hops)[k] == base[(
        hops[k]).take as int] by {
            if k >= 1 {
                assert(hops[k] == rest[k - 1]);
                assert((seq![base[x]] + chain_taken(env, base1, rest))[k] == chain_taken(
                    env,
                    base1,
                    rest,
                )[k - 1]);
                assert(chain_taken(env, base1, rest)[k - 1] == base1[rest[k - 1].take as int]);
            }
        }
    }
}

/// Committing a capture chain leaves the moving piece on the last jump's
/// landing square, its colour unchanged and its position field in order.
pub proof fn lemma_commit_chain_landing(
    env: PositionEnvironment,
    base: Seq<Option<Piece>>,
    hops: Seq<StraightStrike>,
)
    requires
        chain_valid(env, base, hops),
        chain_connected(hops),
        hops.len() >= 1,
    ensures
        commit_chain(env, base, hops)[hops.last().to as int] matches Some(p) && p.pos
            == hops.last().to && (match base[hops[0].from as int] {
            Some(m) => p.color == m.color,
            None => true,
        }),
    decreases hops.len(),
{
    let h0 = hops[0];
    let f = h0.from as int;
    let t = h0.to as int;
    assert(hop_valid(env, base, h0));
    let base1 = commit_step(env, base, h0);
    assert(base1[t] matches Some(p) && p.pos == h0.to && (match base[f] {
        Some(m) => p.color == m.color,
        None => false,
    }));
    if hops.len() == 1 {
        assert(commit_chain(env, base, hops) == commit_chain(env, base1, hops.skip(1)));
        assert(commit_chain(env, base1, hops.skip(1)) == base1);
    } else {
        let rest = hops.skip(1);
        assert(rest[0].from == h0.to);
        assert forall|k: int| 0 <= k < rest.len() - 1 implies (#[trigger] rest[k]).to == rest[k
            + 1].from by {
            assert(rest[k] == hops[k + 1]);
            assert(rest[k + 1] == hops[k + 2]);
        }
        lemma_commit_chain_landing(env, base1, rest);
        assert(hops.last() == rest.last());
    }
}

/// What applying a generated capture chain does to the board, stated for the
/// chains the move generator returns (valid, connected, and consistent with
/// the search that found them): every captured square ends empty, the
/// victims stored while applying are exactly the pieces the original board
/// held on the captured squares, in jump order, and the moving piece ends on
/// the final landing square with its colour kept and its position field in
/// step.
pub proof fn lemma_apply_chain_effects(
    env: PositionEnvironment,
    base: Seq<Option<Piece>>,
    s: Strike,
)
    requires
        valid_move(env, base, MoveItem::StrikeChain(s)),
        disc_chain_valid(env, base, s.vec@),
        chain_connected(s.vec@),
    ensures
        forall|k: int|
            0 <= k < s.vec@.len() ==> apply_move_spec(env, base, MoveItem::StrikeChain(s))[(
            #[trigger] s.vec@[k]).take as int] is None,
        apply_move_spec(env, base, MoveItem::StrikeChain(s))[s.vec@.last().to as int] matches Some(
            p,
        ) && p.pos == s.vec@.last().to && (match base[s.vec@[0].from as int] {
            Some(m) => p.color == m.color,
            None => true,
        }),
        forall|k: int|
            0 <= k < s.vec@.len() ==> #[trigger] chain_taken(env, base, s.vec@)[k] == base[(
            s.vec@[k]).take as int] && (base[s.vec@[k].take as int] matches Some(v) && !v.stricken
                && (match base[s.vec@[0].from as int] {
                Some(m) => v.color != m.color,
                None => true,
            })),
{
    lemma_chain_shape(env, base, s.vec@);
    lemma_commit_chain_takes(env, base, s.vec@);
    lemma_commit_chain_landing(env, base, s.vec@);
}

/// The search board and the committed board describe the same chain state:
/// pieces marked captured on the search board are already gone from the
/// committed board, and everything else agrees.
pub open spec fn corresponds(disc: Seq<Option<Piece>>, com: Seq<Option<Piece>>) -> bool {
    &&& disc.len() == com.len()
    &&& forall|i: int|
        0 <= i < disc.len() ==> (match #[trigger] disc[i] {
            Some(p) => if p.stricken {
                com[i] is None
            } else {
                com[i] == disc[i]
            },
            None => com[i] is None,
        })
}

/// A jump that is consistent with the search board is consistent with the
/// committed board, and the two boards stay in step when it is applied.
pub proof fn lemma_step_corresponds(
    env: PositionEnvironment,
    disc: Seq<Option<Piece>>,
    com: Seq<Option<Piece>>,
    h: StraightStrike,
)
    requires
        corresponds(disc, com),
        hop_valid(env, disc, h),
    ensures
        hop_valid(env, com, h),
        corresponds(disc_step(env, disc, h), commit_step(env, com, h)),
{
    let f = h.from as int;
    let t = h.to as int;
    let x = h.take as int;
    assert(com[f] == disc[f]);
    assert(com[x] == disc[x]);
    assert(com[t] is None);
    let d2 = disc_step(env, disc, h);
    let c2 = commit_step(env, com, h);
    assert forall|i: int|
        0 <= i < d2.len() implies (match #[trigger] d2[i] {
            Some(p) => if p.stricken {
                c2[i] is None
            } else {
                c2[i] == d2[i]
            },
            None => c2[i] is None,
        }) by {
        if i != f && i != t && i != x {
            assert(d2[i] == disc[i]);
            assert(c2[i] == com[i]);
        }
    }
}

/// Pieces not yet marked captured: the capture search marks one more piece
/// with every speculative jump, so this count drives its termination.
pub open spec fn count_unstricken(cells: Seq<Option<Piece>>) -> int
    decreases cells.len(),
{
    if cells.len() == 0 {
        0
    } else {
        count_unstricken(cells.drop_last()) + unstricken_weight(cells.last())
    }
}

/// Whether one cell holds a piece that is not marked captured.
pub open spec fn unstricken_weight(c: Option<Piece>) -> int {
    match c {
        Some(p) => if p.stricken {
            0
        } else {
            1
        },
        None => 0,
    }
}

/// The unstricken count is never negative.
pub proof fn lemma_unstricken_nonneg(cells: Seq<Option<Piece>>)
    ensures
        0 <= count_unstricken(cells) <= cells.len(),
    decreases cells.len(),
{
    if cells.len() > 0 {
        lemma_unstricken_nonneg(cells.drop_last());
    }
}

/// Updating one cell changes the unstricken count by the weight difference.
pub proof fn lemma_unstricken_update(cells: Seq<Option<Piece>>, i: int, v: Option<Piece>)
    requires
        0 <= i < cells.len(),
    ensures
        count_unstricken(cells.update(i, v)) == count_unstricken(cells) - unstricken_weight(
            cells[i],
        ) + unstricken_weight(v),
    decreases cells.len(),
{
    let upd = cells.update(i, v);
    if i == cells.len() - 1 {
        assert(upd.drop_last() =~= cells.drop_last());
        assert(upd.last() == v);
    } else {
        assert(upd.drop_last() =~= cells.drop_last().update(i, v));
        assert(upd.last() == cells.last());
        lemma_unstricken_update(cells.drop_last(), i, v);
    }
}

/// Two chains whose jumps agree square for square (the stored landing lists
/// aside) behave identically.
pub open spec fn hops_match(a: Seq<StraightStrike>, b: Seq<StraightStrike>) -> bool {
    &&& a.len() == b.len()
    &&& forall|i: int|
        0 <= i < a.len() ==> (#[trigger] a[i]).from == (#[trigger] b[i]).from && a[i].take
            == b[i].take && a[i].to == b[i].to && a[i].king_move == b[i].king_move
}

/// Chain application, validity and captures depend only on the squares of
/// the jumps, not on the stored landing lists.
pub proof fn lemma_chain_congruence(
    env: PositionEnvironment,
    cells: Seq<Option<Piece>>,
    a: Seq<StraightStrike>,
    b: Seq<StraightStrike>,
)
    requires
        hops_match(a, b),
    ensures
        commit_chain(env, cells, a) == commit_chain(env, cells, b),
        chain_valid(env, cells, a) == chain_valid(env, cells, b),
        chain_taken(env, cells, a) == chain_taken(env, cells, b),
    decreases a.len(),
{
    if a.len() == 0 {
        assert(chain_taken(env, cells, a) =~= chain_taken(env, cells, b));
    } else {
        assert(hop_valid(env, cells, a[0]) == hop_valid(env, cells, b[0]));
        assert(commit_step(env, cells, a[0]) == commit_step(env, cells, b[0]));
        assert(a.skip(1).len() == b.skip(1).len());
        assert forall|i: int|
            0 <= i < a.skip(1).len() implies (#[trigger] a.skip(1)[i]).from == (#[trigger] b.skip(
            1,
        )[i]).from && a.skip(1)[i].take == b.skip(1)[i].take && a.skip(1)[i].to == b.skip(1)[i].to
            && a.skip(1)[i].king_move == b.skip(1)[i].king_move by {
            assert(a.skip(1)[i] == a[i + 1]);
            assert(b.skip(1)[i] == b[i + 1]);
        }
        lemma_chain_congruence(env, commit_step(env, cells, a[0]), a.skip(1), b.skip(1));
        assert(chain_taken(env, cells, a) =~= chain_taken(env, cells, b));
    }
}

impl Position {
    /// Applies one jump speculatively: the piece jumps, the victim is marked
    /// captured but stays as a blocker, and the piece may be promoted.
    fn apply_disc_hop(&mut self, env: &PositionEnvironment, h: &StraightStrike)
        requires
            old(self).wf(),
            env.wf(),
            old(self).cells@.len() == env.packed_count(),
            hop_valid(*env, old(self).cells@, *h),
        ensures
            final(self).wf(),
            final(self).cells@ == disc_step(*env, old(self).cells@, *h),
            final(self).next_move == old(self).next_move,
            count_unstricken(final(self).cells@) == count_unstricken(old(self).cells@) - 1,
    {
        let ghost pre = self.cells@;
        self.swap(h.from, h.to);
        let victim = self.cells[h.take];
        if let Some(v) = victim {
            proof {
                lemma_count_update_all(self.cells@, h.take as int, Some(Piece { stricken: true, ..v }));
                lemma_unstricken_count_parts(pre, self.cells@, *h, *env);
            }
            self.cells[h.take] = Some(Piece { stricken: true, ..v });
        } else {
            proof {
                assert(false);
            }
        }
        self.promote_at(env, h.to);
        proof {
            lemma_unstricken_trace(*env, pre, self.cells@, *h);
        }
    }

    /// Takes one speculative jump back, restoring the board it was applied
    /// to.
    fn undo_disc_hop(
        &mut self,
        env: &PositionEnvironment,
        h: &StraightStrike,
        Ghost(pre): Ghost<Seq<Option<Piece>>>,
    )
        requires
            old(self).wf(),
            env.wf(),
            old(self).cells@.len() == env.packed_count(),
            cells_positions_ok(pre),
            pre.len() == old(self).cells@.len(),
            hop_valid(*env, pre, *h),
            old(self).cells@ == disc_step(*env, pre, *h),
        ensures
            final(self).wf(),
            final(self).cells@ == pre,
            final(self).next_move == old(self).next_move,
    {
        if h.king_move {
            proof {
                assert(self.cells@[h.to as int] matches Some(p) && p.is_king);
            }
            self.unpromote_at(h.to);
        }
        proof {
            assert(self.cells@ == unpromote_if(old(self).cells@, h.to as int, h.king_move));
        }
        self.swap(h.to, h.from);
        let cell = self.cells[h.take];
        if let Some(v) = cell {
            proof {
                lemma_count_update_all(self.cells@, h.take as int, Some(Piece { stricken: false, ..v }));
            }
            self.cells[h.take] = Some(Piece { stricken: false, ..v });
        } else {
            proof {
                assert(false);
            }
        }
        proof {
            assert(self.cells@ =~= pre);
        }
    }
}

/// Helper facts about the unstricken count across the parts of a
/// speculative jump.
proof fn lemma_unstricken_count_parts(
    pre: Seq<Option<Piece>>,
    swapped: Seq<Option<Piece>>,
    h: StraightStrike,
    env: PositionEnvironment,
)
    requires
        hop_valid(env, pre, h),
        swapped == spec_swap(pre, h.from as int, h.to as int),
    ensures
        unstricken_weight(swapped[h.take as int]) == 1,
{
}

/// Applying a speculative jump lowers the unstricken count by exactly one.
proof fn lemma_unstricken_trace(
    env: PositionEnvironment,
    pre: Seq<Option<Piece>>,
    post: Seq<Option<Piece>>,
    h: StraightStrike,
)
    requires
        hop_valid(env, pre, h),
        post == disc_step(env, pre, h),
    ensures
        count_unstricken(post) == count_unstricken(pre) - 1,
{
    let f = h.from as int;
    let t = h.to as int;
    let x = h.take as int;
    let s1 = pre.update(f, with_pos_spec(pre[t], f));
    let s2 = s1.update(t, with_pos_spec(pre[f], t));
    let s3 = s2.update(x, mark_stricken(pre[x]));
    lemma_unstricken_update(pre, f, with_pos_spec(pre[t], f));
    lemma_unstricken_update(s1, t, with_pos_spec(pre[f], t));
    lemma_unstricken_update(s2, x, mark_stricken(pre[x]));
    assert(count_unstricken(s3) == count_unstricken(pre) - 1);
    match s3[t] {
        Some(p) => {
            if !p.is_king && env.is_king_row_at(p.color, t) {
                lemma_unstricken_update(s3, t, Some(Piece { is_king: true, ..p }));
            }
        },
        None => {},
    }
}

/// Updating one cell changes every piece count by the difference of the two
/// cells' weights.
pub proof fn lemma_count_update_all(cells: Seq<Option<Piece>>, i: int, v: Option<Piece>)
    requires
        0 <= i < cells.len(),
    ensures
        forall|color: Color, king: bool|
            #[trigger] count_cells(cells.update(i, v), color, king) == count_cells(
                cells,
                color,
                king,
            ) - piece_weight(cells[i], color, king) + piece_weight(v, color, king),
{
    assert forall|color: Color, king: bool|
        #[trigger] count_cells(cells.update(i, v), color, king) == count_cells(cells, color, king)
            - piece_weight(cells[i], color, king) + piece_weight(v, color, king) by {
        lemma_count_update(cells, i, v, color, king);
    }
}

/// A cell holding a piece contributes one to the matching count.
pub proof fn lemma_count_at_least_one(
    cells: Seq<Option<Piece>>,
    i: int,
    color: Color,
    king: bool,
)
    requires
        0 <= i < cells.len(),
        piece_weight(cells[i], color, king) == 1,
    ensures
        count_cells(cells, color, king) >= 1,
    decreases cells.len(),
{
    if i == cells.len() - 1 {
        lemma_count_bounds(cells.drop_last(), color, king);
    } else {
        lemma_count_at_least_one(cells.drop_last(), i, color, king);
        assert(piece_weight(cells.last(), color, king) >= 0);
    }
}

/// The side to move after a move is applied.
pub open spec fn flip_turn(t: Option<Color>) -> Option<Color> {
    match t {
        Some(c) => Some(c.spec_opposite()),
        None => None,
    }
}

/// The board after the piece on `to`, if it is a man on its final rank,
/// becomes a king.
pub open spec fn promote_if(
    env: PositionEnvironment,
    cells: Seq<Option<Piece>>,
    to: int,
) -> Seq<Option<Piece>> {
    match cells[to] {
        Some(p) => if !p.is_king && env.is_king_row_at(p.color, to) {
            cells.update(to, Some(Piece { is_king: true, ..p }))
        } else {
            cells
        },
        None => cells,
    }
}

/// The board after the king on `to` loses its crown again, if `flag` records
/// that the move being reverted promoted it.
pub open spec fn unpromote_if(cells: Seq<Option<Piece>>, to: int, flag: bool) -> Seq<
    Option<Piece>,
> {
    if flag {
        match cells[to] {
            Some(p) => cells.update(to, Some(Piece { is_king: false, ..p })),
            None => cells,
        }
    } else {
        cells
    }
}

/// Whether a quiet move is consistent with the board: the piece is there,
/// the landing square is free, and the recorded promotion flag is accurate.
pub open spec fn quiet_valid(
    env: PositionEnvironment,
    cells: Seq<Option<Piece>>,
    m: QuietMove,
) -> bool {
    &&& m.from < cells.len()
    &&& m.to < cells.len()
    &&& m.from != m.to
    &&& match cells[m.from as int] {
        Some(p) => !p.stricken && cells[m.to as int] is None && m.king_move == (!p.is_king
            && env.is_king_row_at(p.color, m.to as int)),
        None => false,
    }
}

/// The board after a quiet move: the piece slides from `from` to `to` and may
/// be promoted there.
pub open spec fn quiet_step(
    env: PositionEnvironment,
    cells: Seq<Option<Piece>>,
    m: QuietMove,
) -> Seq<Option<Piece>> {
    promote_if(env, spec_swap(cells, m.from as int, m.to as int), m.to as int)
}

/// The board after a quiet move is reverted: the promotion is undone and the
/// piece slides back.
pub open spec fn undo_quiet(
    env: PositionEnvironment,
    cells: Seq<Option<Piece>>,
    m: QuietMove,
) -> Seq<Option<Piece>> {
    spec_swap(unpromote_if(cells, m.to as int, m.king_move), m.to as int, m.from as int)
}

/// Whether a quiet move can be reverted on this board.
pub open spec fn undo_quiet_ok(cells: Seq<Option<Piece>>, m: QuietMove) -> bool {
    &&& m.from < cells.len()
    &&& m.to < cells.len()
    &&& m.from != m.to
    &&& match cells[m.to as int] {
        Some(p) => cells[m.from as int] is None && (m.king_move ==> p.is_king),
        None => false,
    }
}

/// Whether a jump, about to be committed, promotes the capturing piece.
pub open spec fn hop_promotes(
    env: PositionEnvironment,
    cells: Seq<Option<Piece>>,
    h: StraightStrike,
) -> bool {
    match cells[h.from as int] {
        Some(p) => !p.is_king && env.is_king_row_at(p.color, h.to as int),
        None => false,
    }
}

/// Whether one jump is consistent with the board: the capturing piece stands
/// on `from`, an unstricken enemy piece on `take`, the landing square is
/// free, and the promotion flag is accurate.
pub open spec fn hop_valid(
    env: PositionEnvironment,
    cells: Seq<Option<Piece>>,
    h: StraightStrike,
) -> bool {
    &&& h.from < cells.len()
    &&& h.to < cells.len()
    &&& h.take < cells.len()
    &&& h.from != h.to
    &&& h.from != h.take
    &&& h.to != h.take
    &&& match (cells[h.from as int], cells[h.take as int]) {
        (Some(mover), Some(victim)) => !mover.stricken && !victim.stricken && victim.color
            != mover.color,
        _ => false,
    }
    &&& cells[h.to as int] is None
    &&& h.king_move == hop_promotes(env, cells, h)
}

/// The board after one jump is committed: the piece jumps from `from` to
/// `to`, the victim on `take` is removed, and the piece may be promoted.
pub open spec fn commit_step(
    env: PositionEnvironment,
    cells: Seq<Option<Piece>>,
    h: StraightStrike,
) -> Seq<Option<Piece>> {
    promote_if(
        env,
        spec_swap(cells, h.from as int, h.to as int).update(h.take as int, None),
        h.to as int,
    )
}

/// The board after a whole capture chain is committed, jump by jump.
pub open spec fn commit_chain(
    env: PositionEnvironment,
    cells: Seq<Option<Piece>>,
    hops: Seq<StraightStrike>,
) -> Seq<Option<Piece>>
    decreases hops.len(),
{
    if hops.len() == 0 {
        cells
    } else {
        commit_chain(env, commit_step(env, cells, hops[0]), hops.skip(1))
    }
}

/// Whether every jump of a chain is consistent with the board it meets.
pub open spec fn chain_valid(
    env: PositionEnvironment,
    cells: Seq<Option<Piece>>,
    hops: Seq<StraightStrike>,
) -> bool
    decreases hops.len(),
{
    if hops.len() == 0 {
        true
    } else {
        hop_valid(env, cells, hops[0]) && chain_valid(
            env,
            commit_step(env, cells, hops[0]),
            hops.skip(1),
        )
    }
}

/// The pieces a chain captures, in jump order.
pub open spec fn chain_taken(
    env: PositionEnvironment,
    cells: Seq<Option<Piece>>,
    hops: Seq<StraightStrike>,
) -> Seq<Option<Piece>>
    decreases hops.len(),
{
    if hops.len() == 0 {
        Seq::empty()
    } else {
        seq![cells[hops[0].take as int]] + chain_taken(
            env,
            commit_step(env, cells, hops[0]),
            hops.skip(1),
        )
    }
}

/// The board after one jump is reverted: the promotion is undone, the piece
/// jumps back, and the stored victim returns to its square.
pub open spec fn undo_step(
    env: PositionEnvironment,
    cells: Seq<Option<Piece>>,
    h: StraightStrike,
    v: Option<Piece>,
) -> Seq<Option<Piece>> {
    spec_swap(unpromote_if(cells, h.to as int, h.king_move), h.to as int, h.from as int).update(
        h.take as int,
        v,
    )
}

/// Whether one jump can be reverted on this board with the stored victim.
pub open spec fn undo_hop_ok(cells: Seq<Option<Piece>>, h: StraightStrike, v: Option<Piece>) -> bool {
    &&& h.from < cells.len()
    &&& h.to < cells.len()
    &&& h.take < cells.len()
    &&& h.from != h.to
    &&& h.from != h.take
    &&& h.to != h.take
    &&& match cells[h.to as int] {
        Some(mover) => h.king_move ==> mover.is_king,
        None => false,
    }
    &&& cells[h.from as int] is None
    &&& cells[h.take as int] is None
    &&& match v {
        Some(victim) => victim.pos == h.take,
        None => false,
    }
}

/// The board after a whole capture chain is reverted, last jump first.
pub open spec fn undo_chain(
    env: PositionEnvironment,
    cells: Seq<Option<Piece>>,
    hops: Seq<StraightStrike>,
    took: Seq<Option<Piece>>,
) -> Seq<Option<Piece>>
    decreases hops.len(),
{
    if hops.len() == 0 {
        cells
    } else {
        undo_chain(
            env,
            undo_step(env, cells, hops.last(), took.last()),
            hops.drop_last(),
            took.drop_last(),
        )
    }
}

/// Whether a whole chain can be reverted on this board.
pub open spec fn undo_chain_ok(
    env: PositionEnvironment,
    cells: Seq<Option<Piece>>,
    hops: Seq<StraightStrike>,
    took: Seq<Option<Piece>>,
) -> bool
    decreases hops.len(),
{
    if hops.len() == 0 {
        took.len() == 0
    } else {
        took.len() == hops.len() && undo_hop_ok(cells, hops.last(), took.last()) && undo_chain_ok(
            env,
            undo_step(env, cells, hops.last(), took.last()),
            hops.drop_last(),
            took.drop_last(),
        )
    }
}

/// One legal move is consistent with the board it will be applied to.
pub open spec fn valid_move(
    env: PositionEnvironment,
    cells: Seq<Option<Piece>>,
    item: MoveItem,
) -> bool {
    match item {
        MoveItem::Move(m) => quiet_valid(env, cells, m),
        MoveItem::StrikeChain(s) => s.vec@.len() >= 1 && chain_valid(env, cells, s.vec@),
    }
}

/// The board after a legal move is applied.
pub open spec fn apply_move_spec(
    env: PositionEnvironment,
    cells: Seq<Option<Piece>>,
    item: MoveItem,
) -> Seq<Option<Piece>> {
    match item {
        MoveItem::Move(m) => quiet_step(env, cells, m),
        MoveItem::StrikeChain(s) => commit_chain(env, cells, s.vec@),
    }
}

/// Whether a move can be reverted on this board (for a chain: with the
/// victims stored in it when it was applied).
pub open spec fn undo_move_ok(
    env: PositionEnvironment,
    cells: Seq<Option<Piece>>,
    item: MoveItem,
) -> bool {
    match item {
        MoveItem::Move(m) => undo_quiet_ok(cells, m),
        MoveItem::StrikeChain(s) => s.vec@.len() >= 1 && undo_chain_ok(
            env,
            cells,
            s.vec@,
            s.took_pieces@,
        ),
    }
}

/// The board after a move is reverted.
pub open spec fn unapply_move_spec(
    env: PositionEnvironment,
    cells: Seq<Option<Piece>>,
    item: MoveItem,
) -> Seq<Option<Piece>> {
    match item {
        MoveItem::Move(m) => undo_quiet(env, cells, m),
        MoveItem::StrikeChain(s) => undo_chain(env, cells, s.vec@, s.took_pieces@),
    }
}

/// Applying and then reverting a quiet move restores the board exactly.
pub proof fn lemma_quiet_roundtrip(
    env: PositionEnvironment,
    cells: Seq<Option<Piece>>,
    m: QuietMove,
)
    requires
        cells_positions_ok(cells),
        quiet_valid(env, cells, m),
    ensures
        undo_quiet_ok(quiet_step(env, cells, m), m),
        undo_quiet(env, quiet_step(env, cells, m), m) == cells,
        cells_positions_ok(quiet_step(env, cells, m)),
{
    let stepped = quiet_step(env, cells, m);
    let f = m.from as int;
    let t = m.to as int;
    assert(cells[f] matches Some(p) && p.pos == f);
    assert(undo_quiet(env, stepped, m) =~= cells);
    assert forall|i: int|
        0 <= i < stepped.len() implies ((#[trigger] stepped[i]) matches Some(p) ==> p.pos
        == i) by {
        if i != f && i != t {
            assert(stepped[i] == cells[i]);
        }
    }
}

/// Committing and then reverting one jump restores the board exactly.
pub proof fn lemma_hop_roundtrip(
    env: PositionEnvironment,
    cells: Seq<Option<Piece>>,
    h: StraightStrike,
)
    requires
        cells_positions_ok(cells),
        hop_valid(env, cells, h),
    ensures
        undo_hop_ok(commit_step(env, cells, h), h, cells[h.take as int]),
        undo_step(env, commit_step(env, cells, h), h, cells[h.take as int]) == cells,
        cells_positions_ok(commit_step(env, cells, h)),
{
    let stepped = commit_step(env, cells, h);
    let f = h.from as int;
    let t = h.to as int;
    let x = h.take as int;
    assert(cells[f] matches Some(p) && p.pos == f);
    assert(cells[x] matches Some(v) && v.pos == x);
    assert(undo_step(env, stepped, h, cells[x]) =~= cells);
    assert forall|i: int|
        0 <= i < stepped.len() implies ((#[trigger] stepped[i]) matches Some(p) ==> p.pos
        == i) by {
        if i != f && i != t && i != x {
            assert(stepped[i] == cells[i]);
        }
    }
}

/// Committing a chain extended by one jump commits the chain and then the
/// jump; validity and the captured pieces decompose the same way.
pub proof fn lemma_chain_snoc(
    env: PositionEnvironment,
    cells: Seq<Option<Piece>>,
    front: Seq<StraightStrike>,
    h: StraightStrike,
)
    ensures
        commit_chain(env, cells, front.push(h)) == commit_step(
            env,
            commit_chain(env, cells, front),
            h,
        ),
        chain_valid(env, cells, front.push(h)) == (chain_valid(env, cells, front) && hop_valid(
            env,
            commit_chain(env, cells, front),
            h,
        )),
        chain_taken(env, cells, front.push(h)) == chain_taken(env, cells, front).push(
            commit_chain(env, cells, front)[h.take as int],
        ),
    decreases front.len(),
{
    let ext = front.push(h);
    if front.len() == 0 {
        assert(ext[0] == h);
        assert(ext.skip(1) =~= Seq::<StraightStrike>::empty());
        let c1 = commit_step(env, cells, h);
        assert(commit_chain(env, cells, ext) == commit_chain(env, c1, ext.skip(1)));
        assert(commit_chain(env, c1, ext.skip(1)) == c1);
        assert(commit_chain(env, cells, front) == cells);
        assert(chain_valid(env, cells, ext) == (hop_valid(env, cells, h) && chain_valid(
            env,
            c1,
            ext.skip(1),
        )));
        assert(chain_valid(env, c1, ext.skip(1)));
        assert(chain_valid(env, cells, front));
        assert(chain_taken(env, cells, ext) == seq![cells[h.take as int]] + chain_taken(
            env,
            c1,
            ext.skip(1),
        ));
        assert(chain_taken(env, c1, ext.skip(1)) =~= Seq::<Option<Piece>>::empty());
        assert(chain_taken(env, cells, front) =~= Seq::<Option<Piece>>::empty());
        assert(chain_taken(env, cells, ext) =~= chain_taken(env, cells, front).push(
            commit_chain(env, cells, front)[h.take as int],
        ));
    } else {
        assert(ext[0] == front[0]);
        assert(ext.skip(1) =~= front.skip(1).push(h));
        let c1 = commit_step(env, cells, front[0]);
        lemma_chain_snoc(env, c1, front.skip(1), h);
        assert(commit_chain(env, cells, ext) == commit_chain(env, c1, ext.skip(1)));
        assert(commit_chain(env, cells, front) == commit_chain(env, c1, front.skip(1)));
        assert(chain_valid(env, cells, ext) == (hop_valid(env, cells, front[0]) && chain_valid(
            env,
            c1,
            ext.skip(1),
        )));
        assert(chain_valid(env, cells, front) == (hop_valid(env, cells, front[0]) && chain_valid(
            env,
            c1,
            front.skip(1),
        )));
        assert(chain_taken(env, cells, ext) == seq![cells[front[0].take as int]] + chain_taken(
            env,
            c1,
            ext.skip(1),
        ));
        assert(chain_taken(env, cells, front) == seq![cells[front[0].take as int]] + chain_taken(
            env,
            c1,
            front.skip(1),
        ));
        assert(chain_taken(env, c1, ext.skip(1)) == chain_taken(env, c1, front.skip(1)).push(
            commit_chain(env, c1, front.skip(1))[h.take as int],
        ));
        assert(chain_taken(env, cells, ext) =~= chain_taken(env, cells, front).push(
            commit_chain(env, cells, front)[h.take as int],
        ));
    }
}

/// Committing and then reverting a whole chain restores the board exactly,
/// with the victims recorded in capture order.
pub proof fn lemma_chain_roundtrip(
    env: PositionEnvironment,
    cells: Seq<Option<Piece>>,
    hops: Seq<StraightStrike>,
)
    requires
        cells_positions_ok(cells),
        chain_valid(env, cells, hops),
    ensures
        undo_chain_ok(
            env,
            commit_chain(env, cells, hops),
            hops,
            chain_taken(env, cells, hops),
        ),
        undo_chain(env, commit_chain(env, cells, hops), hops, chain_taken(env, cells, hops))
            == cells,
        cells_positions_ok(commit_chain(env, cells, hops)),
    decreases hops.len(),
{
    if hops.len() == 0 {
        assert(chain_taken(env, cells, hops) =~= Seq::<Option<Piece>>::empty());
    } else {
        let front = hops.drop_last();
        let h = hops.last();
        assert(hops =~= front.push(h));
        lemma_chain_snoc(env, cells, front, h);
        lemma_chain_roundtrip(env, cells, front);
        let mid = commit_chain(env, cells, front);
        lemma_hop_roundtrip(env, mid, h);
        let taken = chain_taken(env, cells, hops);
        assert(taken == chain_taken(env, cells, front).push(mid[h.take as int]));
        assert(taken.drop_last() =~= chain_taken(env, cells, front));
        assert(taken.last() == mid[h.take as int]);
        assert(undo_step(env, commit_chain(env, cells, hops), h, taken.last()) == mid);
    }
}

/// A legal move, applied and then reverted, restores the position exactly:
/// cell-wise equality, and therefore equality of every aggregate piece
/// count.  For a capture chain, the victims stored while applying are what
/// the revert needs.
pub proof fn lemma_apply_revert_roundtrip(
    env: PositionEnvironment,
    cells: Seq<Option<Piece>>,
    item: MoveItem,
)
    requires
        cells_positions_ok(cells),
        valid_move(env, cells, item),
    ensures
        match item {
            MoveItem::Move(m) => undo_quiet_ok(quiet_step(env, cells, m), m) && undo_quiet(
                env,
                quiet_step(env, cells, m),
                m,
            ) == cells,
            MoveItem::StrikeChain(s) => undo_chain_ok(
                env,
                commit_chain(env, cells, s.vec@),
                s.vec@,
                chain_taken(env, cells, s.vec@),
            ) && undo_chain(
                env,
                commit_chain(env, cells, s.vec@),
                s.vec@,
                chain_taken(env, cells, s.vec@),
            ) == cells,
        },
        match item {
            MoveItem::Move(m) => forall|color: Color, king: bool|
                #[trigger] count_cells(undo_quiet(env, quiet_step(env, cells, m), m), color, king)
                    == count_cells(cells, color, king),
            MoveItem::StrikeChain(s) => forall|color: Color, king: bool|
                #[trigger] count_cells(
                    undo_chain(
                        env,
                        commit_chain(env, cells, s.vec@),
                        s.vec@,
                        chain_taken(env, cells, s.vec@),
                    ),
                    color,
                    king,
                ) == count_cells(cells, color, king),
        },
{
    match item {
        MoveItem::Move(m) => {
            lemma_quiet_roundtrip(env, cells, m);
        },
        MoveItem::StrikeChain(s) => {
            lemma_chain_roundtrip(env, cells, s.vec@);
        },
    }
}

/// Length of the run of empty squares along a ray, starting at point index
/// `start`.
pub open spec fn free_len(cells: Seq<Option<Piece>>, pts: Seq<BoardPos>, start: int) -> int
    decreases pts.len() - start,
{
    if start < 0 || start >= pts.len() || pts[start] as int >= cells.len() || cells[pts[start] as int] is Some {
        0
    } else {
        1 + free_len(cells, pts, start + 1)
    }
}

/// The run of empty squares is empty exactly on its length, and ends at an
/// occupied square or the ray's end.
pub proof fn lemma_free_len(cells: Seq<Option<Piece>>, pts: Seq<BoardPos>, start: int)
    requires
        0 <= start,
    ensures
        0 <= free_len(cells, pts, start) <= pts.len() - start || free_len(cells, pts, start) == 0,
        forall|i: int|
            start <= i < start + free_len(cells, pts, start) ==> ((#[trigger] pts[i]) as int)
                < cells.len() && cells[pts[i] as int] is None,
        start + free_len(cells, pts, start) < pts.len() ==> !((pts[start + free_len(
            cells,
            pts,
            start,
        )] as int) < cells.len() && cells[pts[start + free_len(cells, pts, start)] as int] is None),
    decreases pts.len() - start,
{
    if !(start >= pts.len() || pts[start] as int >= cells.len() || cells[pts[start] as int] is Some) {
        lemma_free_len(cells, pts, start + 1);
    }
}

/// How far along a ray the piece on its first square may look for a victim:
/// a king scans the whole ray, a man only its immediate neighbour.
pub open spec fn scan_top(cells: Seq<Option<Piece>>, pts: Seq<BoardPos>) -> int {
    match cells[pts[0] as int] {
        Some(p) => if p.is_king {
            pts.len() as int
        } else {
            3
        },
        None => 0,
    }
}

/// Point index of the first occupied square along the ray (after the
/// origin); `pts.len()` if the ray is all empty.
pub open spec fn first_occupied(cells: Seq<Option<Piece>>, pts: Seq<BoardPos>) -> int {
    1 + free_len(cells, pts, 1)
}

/// Whether the ray offers a jump: the first occupied square within the
/// piece's scan range holds an unstricken enemy piece and the square behind
/// it is free.
pub open spec fn strike_found(
    env: PositionEnvironment,
    cells: Seq<Option<Piece>>,
    pts: Seq<BoardPos>,
) -> bool {
    &&& pts.len() >= 3
    &&& cells[pts[0] as int] is Some
    &&& {
        let piece = cells[pts[0] as int]->Some_0;
        let m = first_occupied(cells, pts);
        &&& m + 1 < scan_top(cells, pts)
        &&& match cells[pts[m] as int] {
            Some(c) => c.color != piece.color && !c.stricken,
            None => false,
        }
        &&& cells[pts[m + 1] as int] is None
    }
}

/// How many landing squares the jump found by [`strike_found`] offers: the
/// free squares behind the victim, capped by the piece's scan range.
pub open spec fn landing_count(cells: Seq<Option<Piece>>, pts: Seq<BoardPos>) -> int {
    let m = first_occupied(cells, pts);
    let top = scan_top(cells, pts);
    if free_len(cells, pts, m + 1) < top - (m + 1) {
        free_len(cells, pts, m + 1)
    } else {
        top - (m + 1)
    }
}

/// Whether a piece may make a quiet move along rays of this direction:
/// kings along all four diagonals, men only towards the enemy side.
pub open spec fn quiet_dir_ok(p: Piece, d: i8) -> bool {
    p.is_king || (p.color == Color::White && 0 <= d < 2) || (p.color == Color::Black && 2 <= d < 4)
}

/// How many quiet moves one ray offers its piece: every free square for a
/// king, at most the first for a man.
pub open spec fn ray_quiet_count(cells: Seq<Option<Piece>>, pts: Seq<BoardPos>, p: Piece) -> int {
    if p.is_king {
        free_len(cells, pts, 1)
    } else if free_len(cells, pts, 1) >= 1 {
        1
    } else {
        0
    }
}

/// The quiet moves one ray offers its piece, nearest landing first.
pub open spec fn ray_quiet_moves(
    env: PositionEnvironment,
    cells: Seq<Option<Piece>>,
    pts: Seq<BoardPos>,
    p: Piece,
) -> Seq<MoveItem> {
    Seq::new(
        ray_quiet_count(cells, pts, p) as nat,
        |i: int|
            MoveItem::Move(
                QuietMove {
                    from: pts[0],
                    to: pts[1 + i],
                    king_move: env.is_king_move_spec(p, pts[1 + i] as int),
                },
            ),
    )
}

/// The quiet moves of the piece over its rays from index `i` on, in ray
/// order.
pub open spec fn quiet_moves_from(
    env: PositionEnvironment,
    cells: Seq<Option<Piece>>,
    p: Piece,
    rays: Seq<crate::vector::Vector<BoardPos>>,
    i: int,
) -> Seq<MoveItem>
    decreases rays.len() - i,
{
    if i < 0 || i >= rays.len() {
        Seq::empty()
    } else {
        (if quiet_dir_ok(p, rays[i].direction) {
            ray_quiet_moves(env, cells, rays[i].points@, p)
        } else {
            Seq::empty()
        }) + quiet_moves_from(env, cells, p, rays, i + 1)
    }
}

/// All quiet moves of the piece on `pos`: the empty sequence if the square
/// is empty.
pub open spec fn spec_quiet_moves(
    env: PositionEnvironment,
    cells: Seq<Option<Piece>>,
    pos: int,
) -> Seq<MoveItem> {
    match cells[pos] {
        Some(p) => quiet_moves_from(env, cells, p, env.vectors_map@[pos]@, 0),
        None => Seq::empty(),
    }
}

impl Position {
    /// Scans one ray for a jump: finds the first occupied square within the
    /// piece's range and, if it holds a catchable enemy piece with a free
    /// square behind it, returns the jump with all its landing squares.
    fn straight_strike(&self, env: &PositionEnvironment, pts: &Vec<BoardPos>) -> (r: Option<
        StraightStrike,
    >)
        requires
            self.wf(),
            env.wf(),
            self.cells@.len() == env.packed_count(),
            forall|k: int| 0 <= k < pts@.len() ==> (#[trigger] pts@[k]) < self.cells@.len(),
            forall|k1: int, k2: int|
                0 <= k1 < k2 < pts@.len() ==> #[trigger] pts@[k1] != #[trigger] pts@[k2],
        ensures
            (r is Some) == strike_found(*env, self.cells@, pts@),
            r matches Some(st) ==> ({
                let m = first_occupied(self.cells@, pts@);
                let piece = self.cells@[pts@[0] as int]->Some_0;
                &&& 1 <= m
                &&& m + 1 < scan_top(self.cells@, pts@) <= pts@.len()
                &&& st.from == pts@[0]
                &&& st.take == pts@[m]
                &&& st.to == pts@[m + 1]
                &&& st.king_move == env.is_king_move_spec(piece, pts@[m + 1] as int)
                &&& st.v@.len() == landing_count(self.cells@, pts@) >= 1
                &&& st.v@ == pts@.subrange(m + 1, m + 1 + landing_count(self.cells@, pts@))
                &&& forall|j: int|
                    0 <= j < st.v@.len() ==> (#[trigger] st.v@[j]) < self.cells@.len()
                        && self.cells@[st.v@[j] as int] is None && env.is_king_move_spec(
                        piece,
                        st.v@[j] as int,
                    ) == st.king_move
            }),
    {
        proof {
            lemma_free_len(self.cells@, pts@, 1);
        }
        if pts.len() < 3 {
            return None;
        }
        let cell0 = self.cells[pts[0]];
        let piece = match cell0 {
            Some(p) => p,
            None => {
                return None;
            },
        };
        let top = if piece.is_king {
            pts.len()
        } else {
            3
        };
        let ghost gm = first_occupied(self.cells@, pts@);
        let mut r_state: Option<StraightStrike> = None;
        let mut i: usize = 1;
        loop
            invariant
                self.wf(),
                env.wf(),
                self.cells@.len() == env.packed_count(),
                forall|k: int| 0 <= k < pts@.len() ==> (#[trigger] pts@[k]) < self.cells@.len(),
                forall|k1: int, k2: int|
                    0 <= k1 < k2 < pts@.len() ==> #[trigger] pts@[k1] != #[trigger] pts@[k2],
                pts@.len() >= 3,
                self.cells@[pts@[0] as int] == Some(piece),
                top == scan_top(self.cells@, pts@),
                gm == first_occupied(self.cells@, pts@),
                1 <= i <= pts@.len(),
                free_len(self.cells@, pts@, 1) == i - 1 + free_len(self.cells@, pts@, i as int),
                forall|k: int|
                    1 <= k < i ==> self.cells@[(#[trigger] pts@[k]) as int] is None,
            ensures
                (match r_state {
                    Some(st) => strike_found(*env, self.cells@, pts@) && ({
                        let m = first_occupied(self.cells@, pts@);
                        let piece2 = self.cells@[pts@[0] as int]->Some_0;
                        &&& 1 <= m
                        &&& m + 1 < scan_top(self.cells@, pts@) <= pts@.len()
                        &&& st.from == pts@[0]
                        &&& st.take == pts@[m]
                        &&& st.to == pts@[m + 1]
                        &&& st.king_move == env.is_king_move_spec(piece2, pts@[m + 1] as int)
                        &&& st.v@.len() == landing_count(self.cells@, pts@) >= 1
                        &&& st.v@ == pts@.subrange(m + 1, m + 1 + landing_count(self.cells@, pts@))
                        &&& forall|j: int|
                            0 <= j < st.v@.len() ==> (#[trigger] st.v@[j]) < self.cells@.len()
                                && self.cells@[st.v@[j] as int] is None && env.is_king_move_spec(
                                piece2,
                                st.v@[j] as int,
                            ) == st.king_move
                    }),
                    None => !strike_found(*env, self.cells@, pts@),
                }),
            decreases pts@.len() - i,
        {
            if i >= pts.len() {
                proof {
                    assert(free_len(self.cells@, pts@, i as int) == 0);
                    assert(gm == pts@.len());
                    assert(scan_top(self.cells@, pts@) <= pts@.len());
                }
                r_state = None;
                break;
            }
            let c = self.cells[pts[i]];
            match c {
                None => {
                    i = i + 1;
                },
                Some(cand) => {
                    proof {
                        assert(free_len(self.cells@, pts@, i as int) == 0);
                        assert(gm == i);
                    }
                    if i + 1 >= top {
                        r_state = None;
                        break;
                    }
                    if !(cand.color != piece.color && !cand.stricken) {
                        r_state = None;
                        break;
                    }
                    let land0 = self.cells[pts[i + 1]];
                    if land0.is_some() {
                        proof {
                            assert(free_len(self.cells@, pts@, i as int + 1) == 0);
                        }
                        r_state = None;
                        break;
                    }
                    proof {
                        lemma_free_len(self.cells@, pts@, i as int + 1);
                    }
                    let mut v: Vec<BoardPos> = Vec::new();
                    let mut j: usize = i + 1;
                    while j < top && self.cells[pts[j]].is_none()
                        invariant
                            self.wf(),
                            forall|k: int|
                                0 <= k < pts@.len() ==> (#[trigger] pts@[k]) < self.cells@.len(),
                            pts@.len() >= 3,
                            top == scan_top(self.cells@, pts@),
                            1 <= i,
                            i + 1 <= j <= top <= pts@.len(),
                            free_len(self.cells@, pts@, i as int + 1) == (j - i - 1) + free_len(
                                self.cells@,
                                pts@,
                                j as int,
                            ),
                            v@ == pts@.subrange(i as int + 1, j as int),
                        decreases top - j,
                    {
                        v.push(pts[j]);
                        proof {
                            assert(v@ =~= pts@.subrange(i as int + 1, j as int + 1));
                        }
                        j = j + 1;
                    }
                    proof {
                        if j < top {
                            assert(free_len(self.cells@, pts@, j as int) == 0);
                            assert(landing_count(self.cells@, pts@) == j - i - 1);
                        } else {
                            assert(free_len(self.cells@, pts@, i as int + 1) >= j - i - 1);
                            assert(landing_count(self.cells@, pts@) == j - i - 1);
                        }
                        lemma_free_len(self.cells@, pts@, i as int + 1);
                        if !piece.is_king {
                            assert(v@.len() <= 1);
                        }
                    }
                    let km = env.is_king_move_for(&piece, pts[i + 1]);
                    r_state = Some(
                        StraightStrike {
                            v,
                            from: pts[0],
                            take: pts[i],
                            to: pts[i + 1],
                            king_move: km,
                        },
                    );
                    break;
                },
            }
        }
        r_state
    }
}

impl Position {
    /// Appends every quiet move of the piece on `pos` to the list: for a man
    /// the first square of each forward ray if it is free, for a king every
    /// free square of each ray up to the first obstruction.  Returns whether
    /// the list is non-empty afterwards (and a piece was found).
    pub fn get_quiet_move_list(
        &mut self,
        env: &PositionEnvironment,
        pos: BoardPos,
        move_list: &mut MoveList,
    ) -> (r: bool)
        requires
            old(self).wf(),
            env.wf(),
            old(self).cells@.len() == env.packed_count(),
            pos < old(self).cells@.len(),
            old(self).no_stricken(),
        ensures
            *final(self) == *old(self),
            final(move_list).current_chain == old(move_list).current_chain,
            final(move_list).list@ == old(move_list).list@ + spec_quiet_moves(
                *env,
                old(self).cells@,
                pos as int,
            ),
            r == (old(self).cells@[pos as int] is Some && final(move_list).list@.len() > 0),
            forall|k: int|
                old(move_list).list@.len() <= k < final(move_list).list@.len() ==> valid_move(
                    *env,
                    old(self).cells@,
                    #[trigger] final(move_list).list@[k],
                ) && (match final(move_list).list@[k] {
                    MoveItem::Move(m) => m.from == pos,
                    MoveItem::StrikeChain(_) => false,
                }),
    {
        let ghost old_list = move_list.list@;
        let cell = self.cells[pos];
        let piece = match cell {
            Some(p) => p,
            None => {
                proof {
                    assert(spec_quiet_moves(*env, self.cells@, pos as int) =~= Seq::<
                        MoveItem,
                    >::empty());
                    assert(move_list.list@ =~= old_list + spec_quiet_moves(
                        *env,
                        self.cells@,
                        pos as int,
                    ));
                }
                return false;
            },
        };
        let rays = env.get_vectors(pos);
        let ghost grays = rays@;
        let nrays = rays.len();
        let mut ri: usize = 0;
        while ri < nrays
            invariant
                self.wf(),
                env.wf(),
                self.cells@.len() == env.packed_count(),
                pos < self.cells@.len(),
                self.no_stricken(),
                self.cells@[pos as int] == Some(piece),
                piece.pos == pos,
                grays == env.vectors_map@[pos as int]@,
                rays_ok_at(
                    env.size as int,
                    env.board_to_pack@,
                    env.packed_count(),
                    env.pack_to_board@[pos as int] as int,
                    grays,
                ),
                nrays == grays.len(),
                rays@ == grays,
                ri <= nrays,
                move_list.current_chain == old(move_list).current_chain,
                move_list.list@ + quiet_moves_from(*env, self.cells@, piece, grays, ri as int)
                    == old_list + quiet_moves_from(*env, self.cells@, piece, grays, 0),
                old_list.len() <= move_list.list@.len(),
                forall|k: int|
                    old_list.len() <= k < move_list.list@.len() ==> valid_move(
                        *env,
                        self.cells@,
                        #[trigger] move_list.list@[k],
                    ) && (match move_list.list@[k] {
                        MoveItem::Move(m) => m.from == pos,
                        MoveItem::StrikeChain(_) => false,
                    }),
            decreases nrays - ri,
        {
            let v = &rays[ri];
            let allowed = if piece.is_king {
                true
            } else if piece.color == Color::White {
                v.direction < 2
            } else {
                v.direction >= 2
            };
            let ghost pre_ray = move_list.list@;
            if allowed {
                let pts = &v.points;
                proof {
                    let b = env.pack_to_board@[pos as int] as int;
                    let gd = grays[ri as int].direction as int;
                    assert(crate::position_environment::is_packed_ray_at(
                        env.size as int,
                        env.board_to_pack@,
                        env.packed_count(),
                        pts@,
                        b,
                        gd,
                    ));
                    assert(ray_point(env.size as int, b, gd, 0) == b) by {
                        vstd::arithmetic::mul::lemma_mul_basics(
                            crate::position_environment::dir_offset(env.size as int, gd),
                        );
                    }
                    assert(pts@[0] == env.board_to_pack@[b]);
                    assert(env.board_to_pack@[b] == pos);
                    lemma_free_len(self.cells@, pts@, 1);
                }
                let limit = if piece.is_king {
                    pts.len()
                } else {
                    2
                };
                let mut j: usize = 1;
                while j < limit && self.cells[pts[j]].is_none()
                    invariant
                        self.wf(),
                        env.wf(),
                        self.cells@.len() == env.packed_count(),
                        pos < self.cells@.len(),
                        self.cells@[pos as int] == Some(piece),
                        piece.pos == pos,
                        pts@[0] == pos,
                        forall|k: int|
                            0 <= k < pts@.len() ==> (#[trigger] pts@[k])
                                < self.cells@.len(),
                        pts@.len() >= 2,
                        forall|k1: int, k2: int|
                            0 <= k1 < k2 < pts@.len() ==> #[trigger] pts@[k1] != #[trigger] pts@[k2],
                        limit == (if piece.is_king {
                            pts@.len() as int
                        } else {
                            2
                        }),
                        1 <= j <= limit <= pts@.len(),
                        free_len(self.cells@, pts@, 1) == (j - 1) + free_len(
                            self.cells@,
                            pts@,
                            j as int,
                        ),
                        move_list.list@ == pre_ray + ray_quiet_moves(
                            *env,
                            self.cells@,
                            pts@,
                            piece,
                        ).take(j as int - 1),
                        j - 1 <= ray_quiet_count(self.cells@, pts@, piece),
                        move_list.current_chain == old(move_list).current_chain,
                        self.no_stricken(),
                        forall|k: int|
                            old_list.len() <= k < move_list.list@.len() ==> valid_move(
                                *env,
                                self.cells@,
                                #[trigger] move_list.list@[k],
                            ) && (match move_list.list@[k] {
                                MoveItem::Move(m) => m.from == pos,
                                MoveItem::StrikeChain(_) => false,
                            }),
                        old_list.len() <= pre_ray.len(),
                    decreases limit - j,
                {
                    let to = pts[j];
                    let km = env.is_king_move_for(&piece, to);
                    let qm = QuietMove { from: pos, to, king_move: km };
                    proof {
                        assert(1 <= j < pts@.len());
                        assert((pts@[j as int] as int) < self.cells@.len());
                        assert(self.cells@[pts@[j as int] as int] is None);
                        assert(free_len(self.cells@, pts@, j as int) == 1 + free_len(
                            self.cells@,
                            pts@,
                            j as int + 1,
                        )) by {
                            reveal_with_fuel(free_len, 2);
                        }
                        lemma_free_len(self.cells@, pts@, j as int + 1);
                        assert(free_len(self.cells@, pts@, j as int) >= 1);
                        assert(ray_quiet_count(self.cells@, pts@, piece) >= j);
                        assert(quiet_valid(*env, self.cells@, qm)) by {
                            lemma_free_len(self.cells@, pts@, 1);
                            assert(self.cells@[pts@[j as int] as int] is None);
                            assert(pts@[0] != pts@[j as int]) by {
                                assert(forall|k1: int, k2: int|
                                    0 <= k1 < k2 < pts@.len() ==> #[trigger] pts@[k1]
                                        != #[trigger] pts@[k2]);
                            }
                        }
                        assert(move_list.list@.push(MoveItem::Move(qm)) =~= pre_ray
                            + ray_quiet_moves(*env, self.cells@, pts@, piece).take(j as int));
                    }
                    move_list.list.push(MoveItem::Move(qm));
                    j = j + 1;
                }
                proof {
                    if j < limit {
                        assert(free_len(self.cells@, pts@, j as int) == 0);
                    }
                    assert(j - 1 == ray_quiet_count(self.cells@, pts@, piece));
                    assert(ray_quiet_moves(*env, self.cells@, pts@, piece).take(j as int - 1)
                        =~= ray_quiet_moves(*env, self.cells@, pts@, piece));
                    assert(move_list.list@ == pre_ray + ray_quiet_moves(
                        *env,
                        self.cells@,
                        pts@,
                        piece,
                    ));
                    assert(quiet_dir_ok(piece, grays[ri as int].direction));
                }
            } else {
                proof {
                    assert(!quiet_dir_ok(piece, grays[ri as int].direction));
                    assert(move_list.list@ =~= pre_ray + Seq::<MoveItem>::empty());
                }
            }
            ri = ri + 1;
        }
        proof {
            assert(quiet_moves_from(*env, self.cells@, piece, grays, nrays as int) =~= Seq::<
                MoveItem,
            >::empty());
            assert(move_list.list@ =~= old_list + spec_quiet_moves(*env, self.cells@, pos as int));
        }
        move_list.list.len() > 0
    }
}

/// Whether any ray of `pos` whose direction is not banned offers a jump.
pub open spec fn has_ray_strike(
    env: PositionEnvironment,
    cells: Seq<Option<Piece>>,
    pos: int,
    bans: Seq<i8>,
) -> bool {
    exists|i: int|
        0 <= i < env.vectors_map@[pos]@.len() && !bans.contains(
            (#[trigger] env.vectors_map@[pos]@[i]).direction,
        ) && strike_found(env, cells, env.vectors_map@[pos]@[i].points@)
}

/// The reverse of a diagonal direction: the one that runs back along the
/// same line.
pub open spec fn ban_dir(d: int) -> i8 {
    if d < 2 {
        (d + 2) as i8
    } else {
        (d - 2) as i8
    }
}

/// The ban set in force for the jump after this one, when this one ran along
/// direction `d`: the reverse direction (no capturing straight back), and
/// once the piece passed the first landing square also `d` itself; a list
/// generated for the front end keeps only the reversal ban, so the front
/// sees every continuation.
pub open spec fn hop_ban_set(d: int, h: StraightStrike, for_front: bool) -> Seq<i8> {
    if for_front || (h.v@.len() >= 1 && h.to == h.v@[0]) {
        seq![ban_dir(d)]
    } else {
        seq![ban_dir(d), d as i8]
    }
}

/// Whether a jump runs along ray direction `d` of its starting square: the
/// captured square and the landing square lie on that ray in order, and the
/// jump's stored landing list starts just behind the captured piece.
pub open spec fn hop_on_ray(env: PositionEnvironment, h: StraightStrike, d: int) -> bool {
    exists|ri: int, m: int, j: int|
        0 <= ri < env.vectors_map@[h.from as int]@.len() && 1 <= m < j
            < env.vectors_map@[h.from as int]@[ri].points@.len()
            && (env.vectors_map@[h.from as int]@[ri]).direction as int == d && (
        #[trigger] env.vectors_map@[h.from as int]@[ri].points@[m]) == h.take && (
        #[trigger] env.vectors_map@[h.from as int]@[ri].points@[j]) == h.to && h.v@.len() >= 1
            && m + 1 < env.vectors_map@[h.from as int]@[ri].points@.len() && h.v@[0]
            == env.vectors_map@[h.from as int]@[ri].points@[m + 1]
}

/// Maximal-chain law: a returned capture chain cannot be continued.  In the
/// search state its jumps produce (captured pieces still on the board as
/// blockers), the chain's final landing square offers no further jump along
/// any direction outside the ban set of the final jump — the reversal ban,
/// plus the jump's own direction once past the first landing square.
pub open spec fn maximal_chain_from(
    env: PositionEnvironment,
    base: Seq<Option<Piece>>,
    s: Strike,
    for_front: bool,
) -> bool {
    exists|d: int|
        0 <= d < 4 && #[trigger] hop_on_ray(env, s.vec@.last(), d) && !has_ray_strike(
            env,
            disc_chain(env, base, s.vec@),
            s.vec@.last().to as int,
            hop_ban_set(d, s.vec@.last(), for_front),
        )
}

/// Shared facts about the stored rays of one packed square: each starts at
/// the square itself, stays on the board, and never repeats a square.
proof fn lemma_ray_facts(env: PositionEnvironment, pos: int)
    requires
        env.wf(),
        0 <= pos < env.packed_count(),
    ensures
        forall|i: int|
            0 <= i < env.vectors_map@[pos]@.len() ==> {
                let pts = (#[trigger] env.vectors_map@[pos]@[i]).points@;
                &&& pts.len() >= 2
                &&& pts[0] == pos
                &&& 0 <= env.vectors_map@[pos]@[i].direction < 4
                &&& (forall|k: int| 0 <= k < pts.len() ==> (#[trigger] pts[k]) < env.packed_count())
                &&& (forall|k1: int, k2: int|
                    0 <= k1 < k2 < pts.len() ==> #[trigger] pts[k1] != #[trigger] pts[k2])
            },
{
    let b = env.pack_to_board@[pos] as int;
    let rs = env.vectors_map@[pos]@;
    assert(rays_ok_at(env.size as int, env.board_to_pack@, env.packed_count(), b, rs));
    assert forall|i: int|
        0 <= i < rs.len() implies {
        let pts = (#[trigger] rs[i]).points@;
        &&& pts.len() >= 2
        &&& pts[0] == pos
        &&& 0 <= rs[i].direction < 4
        &&& (forall|k: int| 0 <= k < pts.len() ==> (#[trigger] pts[k]) < env.packed_count())
        &&& (forall|k1: int, k2: int|
            0 <= k1 < k2 < pts.len() ==> #[trigger] pts[k1] != #[trigger] pts[k2])
    } by {
        let pts = rs[i].points@;
        let gd = rs[i].direction as int;
        assert(crate::position_environment::is_packed_ray_at(
            env.size as int,
            env.board_to_pack@,
            env.packed_count(),
            pts,
            b,
            gd,
        ));
        assert(ray_point(env.size as int, b, gd, 0) == b) by {
            vstd::arithmetic::mul::lemma_mul_basics(
                crate::position_environment::dir_offset(env.size as int, gd),
            );
        }
        assert(pts[0] == env.board_to_pack@[b]);
        assert(env.board_to_pack@[b] == pos);
    }
}

/// Whether a direction occurs in the ban list.
fn contains_dir(bans: &Vec<i8>, d: i8) -> (r: bool)
    ensures
        r == bans@.contains(d),
{
    let n = bans.len();
    let mut i: usize = 0;
    while i < n
        invariant
            n == bans@.len(),
            i <= n,
            forall|k: int| 0 <= k < i ==> bans@[k] != d,
        decreases n - i,
    {
        if bans[i] == d {
            return true;
        }
        i = i + 1;
    }
    false
}

/// A copy of a list of squares.
fn copy_points(src: &Vec<BoardPos>) -> (r: Vec<BoardPos>)
    ensures
        r@ == src@,
{
    let mut r: Vec<BoardPos> = Vec::new();
    let n = src.len();
    let mut i: usize = 0;
    while i < n
        invariant
            n == src@.len(),
            i <= n,
            r@ == src@.subrange(0, i as int),
        decreases n - i,
    {
        r.push(src[i]);
        proof {
            assert(r@ =~= src@.subrange(0, i as int + 1));
        }
        i = i + 1;
    }
    proof {
        assert(r@ =~= src@);
    }
    r
}

/// A copy of a chain's jumps, square for square.
fn copy_hops(src: &Vec<StraightStrike>) -> (r: Vec<StraightStrike>)
    ensures
        hops_match(r@, src@),
{
    let mut r: Vec<StraightStrike> = Vec::new();
    let n = src.len();
    let mut i: usize = 0;
    while i < n
        invariant
            n == src@.len(),
            i <= n,
            r@.len() == i,
            forall|k: int|
                0 <= k < i ==> (#[trigger] r@[k]).from == (#[trigger] src@[k]).from && r@[k].take
                    == src@[k].take && r@[k].to == src@[k].to && r@[k].king_move
                    == src@[k].king_move,
        decreases n - i,
    {
        let h = &src[i];
        let copy = StraightStrike {
            v: copy_points(&h.v),
            from: h.from,
            take: h.take,
            to: h.to,
            king_move: h.king_move,
        };
        r.push(copy);
        i = i + 1;
    }
    r
}

impl Position {
    /// The recursive capture search.  Explores every jump available from
    /// `pos` (directions in `ban_directions` excluded), speculatively
    /// applying each jump, recursing from its landing square, and taking it
    /// back.  A chain is emitted only at a node where no further jump was
    /// found, so only maximal chains reach the list.  `base` is the committed
    /// board the search started from; every emitted chain is a valid capture
    /// chain of that board.
    fn strike_search(
        &mut self,
        env: &PositionEnvironment,
        pos: BoardPos,
        move_list: &mut MoveList,
        ban_directions: &Vec<i8>,
        for_front: bool,
        Ghost(base): Ghost<Seq<Option<Piece>>>,
    ) -> (r: bool)
        requires
            old(self).wf(),
            env.wf(),
            old(self).cells@.len() == env.packed_count(),
            pos < old(self).cells@.len(),
            (old(self).cells@[pos as int] matches Some(p) ==> !p.stricken),
            chain_valid(*env, base, old(move_list).current_chain.vec@),
            corresponds(
                old(self).cells@,
                commit_chain(*env, base, old(move_list).current_chain.vec@),
            ),
            old(self).cells@ == disc_chain(*env, base, old(move_list).current_chain.vec@),
            disc_chain_valid(*env, base, old(move_list).current_chain.vec@),
            chain_connected(old(move_list).current_chain.vec@),
            old(move_list).current_chain.vec@.len() >= 1 ==> old(
                move_list,
            ).current_chain.vec@.last().to == pos,
        ensures
            final(self).wf(),
            final(self).cells@ == old(self).cells@,
            final(self).state == old(self).state,
            final(self).next_move == old(self).next_move,
            final(move_list).current_chain.vec@ == old(move_list).current_chain.vec@,
            final(move_list).current_chain.took_pieces@ == old(
                move_list,
            ).current_chain.took_pieces@,
            final(move_list).current_chain.king_move == old(move_list).current_chain.king_move,
            old(move_list).list@.len() <= final(move_list).list@.len(),
            forall|k: int|
                0 <= k < old(move_list).list@.len() ==> final(move_list).list@[k] == old(
                    move_list,
                ).list@[k],
            forall|k: int|
                old(move_list).list@.len() <= k < final(move_list).list@.len() ==> (
                match #[trigger] final(move_list).list@[k] {
                    MoveItem::StrikeChain(s) => s.vec@.len() >= 1 && chain_valid(
                        *env,
                        base,
                        s.vec@,
                    ) && disc_chain_valid(*env, base, s.vec@) && chain_connected(s.vec@)
                        && maximal_chain_from(*env, base, s, for_front) && s.vec@[0].from == (
                    if old(move_list).current_chain.vec@.len() == 0 {
                        pos
                    } else {
                        old(move_list).current_chain.vec@[0].from
                    }),
                    MoveItem::Move(_) => false,
                }),
            r == has_ray_strike(*env, old(self).cells@, pos as int, ban_directions@),
            r ==> final(move_list).list@.len() > old(move_list).list@.len(),
            !r ==> final(move_list).list@ == old(move_list).list@,
        decreases count_unstricken(old(self).cells@),
    {
        proof {
            lemma_ray_facts(*env, pos as int);
        }
        let ghost entry_cells = self.cells@;
        let ghost cc0 = move_list.current_chain.vec@;
        let ghost old_len = move_list.list@.len() as int;
        let ghost grays = env.vectors_map@[pos as int]@;
        let cell = self.cells[pos];
        let piece = match cell {
            Some(p) => p,
            None => {
                proof {
                    assert forall|i: int| 0 <= i < grays.len() implies !strike_found(
                        *env,
                        self.cells@,
                        (#[trigger] grays[i]).points@,
                    ) by {
                        assert(grays[i].points@[0] == pos);
                    }
                    assert(!has_ray_strike(*env, self.cells@, pos as int, ban_directions@));
                }
                return false;
            },
        };
        let rays = env.get_vectors(pos);
        let nrays = rays.len();
        let mut success = false;
        let mut ri: usize = 0;
        while ri < nrays
            invariant
                self.wf(),
                env.wf(),
                self.cells@.len() == env.packed_count(),
                pos < self.cells@.len(),
                self.cells@ == entry_cells,
                self.state == old(self).state,
                self.next_move == old(self).next_move,
                entry_cells == old(self).cells@,
                self.cells@[pos as int] == Some(piece),
                !piece.stricken,
                grays == env.vectors_map@[pos as int]@,
                rays@ == grays,
                nrays == grays.len(),
                ri <= nrays,
                cc0 == old(move_list).current_chain.vec@,
                move_list.current_chain.vec@ == cc0,
                move_list.current_chain.took_pieces@ == old(
                    move_list,
                ).current_chain.took_pieces@,
                move_list.current_chain.king_move == old(move_list).current_chain.king_move,
                chain_valid(*env, base, cc0),
                corresponds(self.cells@, commit_chain(*env, base, cc0)),
                self.cells@ == disc_chain(*env, base, cc0),
                disc_chain_valid(*env, base, cc0),
                chain_connected(cc0),
                cc0.len() >= 1 ==> cc0.last().to == pos,
                old_len == old(move_list).list@.len(),
                old_len <= move_list.list@.len(),
                forall|k: int|
                    0 <= k < old_len ==> move_list.list@[k] == old(move_list).list@[k],
                forall|k: int|
                    old_len <= k < move_list.list@.len() ==> (match #[trigger] move_list.list@[k] {
                        MoveItem::StrikeChain(s) => s.vec@.len() >= 1 && chain_valid(
                            *env,
                            base,
                            s.vec@,
                        ) && disc_chain_valid(*env, base, s.vec@) && chain_connected(s.vec@)
                            && maximal_chain_from(*env, base, s, for_front) && s.vec@[0].from == (
                        if cc0.len() == 0 {
                            pos
                        } else {
                            cc0[0].from
                        }),
                        MoveItem::Move(_) => false,
                    }),
                success == (exists|i: int|
                    0 <= i < ri && !ban_directions@.contains((#[trigger] grays[i]).direction)
                        && strike_found(*env, self.cells@, grays[i].points@)),
                success ==> move_list.list@.len() > old_len,
                !success ==> move_list.list@ == old(move_list).list@,
            decreases nrays - ri,
        {
            let v = &rays[ri];
            let banned = contains_dir(ban_directions, v.direction);
            if !banned {
                let st_opt = self.straight_strike(env, &v.points);
                if let Some(st) = st_opt {
                    let ghost pts = grays[ri as int].points@;
                    let ghost m = first_occupied(self.cells@, pts);
                    proof {
                        assert(strike_found(*env, self.cells@, pts));
                        assert(st.from == pos);
                        assert(st.take == pts[m] && 1 <= m < pts.len());
                        assert(forall|j: int|
                            0 <= j < st.v@.len() ==> st.v@[j] == pts[m + 1 + j]);
                        assert forall|j: int|
                            0 <= j < st.v@.len() implies (#[trigger] st.v@[j]) != st.from
                            && st.v@[j] != st.take by {
                            assert(st.v@[j] == pts[m + 1 + j]);
                            assert(pts[0] != pts[m + 1 + j]);
                            assert(pts[m] != pts[m + 1 + j]);
                        }
                    }
                    success = true;
                    let ban1 = v.get_ban_direction();
                    let ghost gdir = v.direction;
                    let mut bans2: Vec<i8> = Vec::new();
                    bans2.push(ban1);
                    proof {
                        assert(bans2@ =~= seq![ban1]);
                    }
                    let mut recurrent = false;
                    let nland = st.v.len();
                    let ghost victim = self.cells@[st.take as int];
                    let mut li: usize = 0;
                    while li < nland
                        invariant
                            self.wf(),
                            env.wf(),
                            self.cells@.len() == env.packed_count(),
                            pos < self.cells@.len(),
                            self.cells@ == entry_cells,
                            entry_cells == old(self).cells@,
                            self.state == old(self).state,
                            self.next_move == old(self).next_move,
                            self.cells@[pos as int] == Some(piece),
                            !piece.stricken,
                            li <= nland,
                            nland == st.v@.len(),
                            1 <= nland,
                            st.from == pos,
                            st.take < self.cells@.len(),
                            st.from != st.take,
                            (match self.cells@[st.take as int] {
                                Some(c) => c.color != piece.color && !c.stricken,
                                None => false,
                            }),
                            forall|j: int|
                                0 <= j < nland ==> (#[trigger] st.v@[j]) < self.cells@.len()
                                    && self.cells@[st.v@[j] as int] is None
                                    && env.is_king_move_spec(piece, st.v@[j] as int)
                                    == st.king_move && st.v@[j] != st.from && st.v@[j] != st.take,
                            cc0 == old(move_list).current_chain.vec@,
                            move_list.current_chain.vec@ == cc0,
                            move_list.current_chain.took_pieces@ == old(
                                move_list,
                            ).current_chain.took_pieces@,
                            move_list.current_chain.king_move == old(
                                move_list,
                            ).current_chain.king_move,
                            chain_valid(*env, base, cc0),
                            corresponds(self.cells@, commit_chain(*env, base, cc0)),
                            entry_cells == disc_chain(*env, base, cc0),
                            disc_chain_valid(*env, base, cc0),
                            chain_connected(cc0),
                            cc0.len() >= 1 ==> cc0.last().to == pos,
                            gdir == v.direction,
                            bans2@ == (if li == 0 || for_front {
                                seq![ban1]
                            } else {
                                seq![ban1, gdir]
                            }),
                            !recurrent ==> forall|j: int|
                                0 <= j < li ==> !has_ray_strike(
                                    *env,
                                    disc_step_at(
                                        *env,
                                        entry_cells,
                                        pos as int,
                                        (#[trigger] st.v@[j]) as int,
                                        st.take as int,
                                    ),
                                    st.v@[j] as int,
                                    (if j == 0 || for_front {
                                        seq![ban1]
                                    } else {
                                        seq![ban1, gdir]
                                    }),
                                ),
                            old_len == old(move_list).list@.len(),
                            old_len <= move_list.list@.len(),
                            forall|k: int|
                                0 <= k < old_len ==> move_list.list@[k] == old(
                                    move_list,
                                ).list@[k],
                            forall|k: int|
                                old_len <= k < move_list.list@.len() ==> (
                                match #[trigger] move_list.list@[k] {
                                    MoveItem::StrikeChain(s) => s.vec@.len() >= 1 && chain_valid(
                                        *env,
                                        base,
                                        s.vec@,
                                    ) && disc_chain_valid(*env, base, s.vec@) && chain_connected(
                                        s.vec@,
                                    ) && maximal_chain_from(*env, base, s, for_front) && s.vec@[0].from == (
                                    if cc0.len() == 0 {
                                        pos
                                    } else {
                                        cc0[0].from
                                    }),
                                    MoveItem::Move(_) => false,
                                }),
                            recurrent ==> move_list.list@.len() > old_len,
                        decreases nland - li,
                    {
                        let lv = st.v[li];
                        let hop = StraightStrike {
                            v: copy_points(&st.v),
                            from: st.from,
                            take: st.take,
                            to: lv,
                            king_move: st.king_move,
                        };
                        let ghost pre = self.cells@;
                        proof {
                            assert(hop_valid(*env, self.cells@, hop));
                            lemma_step_corresponds(
                                *env,
                                self.cells@,
                                commit_chain(*env, base, cc0),
                                hop,
                            );
                            lemma_chain_snoc(*env, base, cc0, hop);
                        }
                        self.apply_disc_hop(env, &hop);
                        move_list.current_chain.vec.push(hop);
                        let saved_king = move_list.current_chain.king_move;
                        if st.king_move {
                            move_list.current_chain.king_move = true;
                        }
                        proof {
                            lemma_unstricken_nonneg(self.cells@);
                            assert(count_unstricken(self.cells@) == count_unstricken(entry_cells)
                                - 1);
                            lemma_disc_chain_snoc(*env, base, cc0, hop);
                            assert(self.cells@ == disc_chain(*env, base, cc0.push(hop)));
                            lemma_disc_valid_snoc(*env, base, cc0, hop);
                            assert(disc_chain_valid(*env, base, cc0.push(hop)));
                            assert forall|k: int|
                                0 <= k < cc0.push(hop).len() - 1 implies (#[trigger] cc0.push(
                                hop,
                            )[k]).to == cc0.push(hop)[k + 1].from by {
                                if k < cc0.len() - 1 {
                                    assert(cc0.push(hop)[k] == cc0[k]);
                                    assert(cc0.push(hop)[k + 1] == cc0[k + 1]);
                                } else {
                                    assert(cc0.push(hop)[k] == cc0[k]);
                                    assert(cc0.push(hop)[k + 1] == hop);
                                    assert(cc0[k] == cc0.last());
                                }
                            }
                            assert(chain_connected(cc0.push(hop)));
                            assert(cc0.push(hop).last().to == lv);
                        }
                        let ghost bans_at_call = bans2@;
                        let ghost cells_at_call = self.cells@;
                        let rec = self.strike_search(
                            env,
                            lv,
                            move_list,
                            &bans2,
                            for_front,
                            Ghost(base),
                        );
                        if rec {
                            recurrent = true;
                        }
                        let hop_back = move_list.current_chain.vec.pop();
                        match hop_back {
                            Some(hb) => {
                                proof {
                                    assert(hb == cc0.push(hop).last());
                                    assert(move_list.current_chain.vec@ =~= cc0);
                                }
                                self.undo_disc_hop(env, &hb, Ghost(pre));
                            },
                            None => {
                                proof {
                                    assert(false);
                                }
                            },
                        }
                        proof {
                            assert(self.state.get(Color::Black, false) == old(self).state.get(
                                Color::Black,
                                false,
                            ));
                            assert(self.state.get(Color::Black, true) == old(self).state.get(
                                Color::Black,
                                true,
                            ));
                            assert(self.state.get(Color::White, false) == old(self).state.get(
                                Color::White,
                                false,
                            ));
                            assert(self.state.get(Color::White, true) == old(self).state.get(
                                Color::White,
                                true,
                            ));
                            assert(self.state == old(self).state);
                        }
                        move_list.current_chain.king_move = saved_king;
                        proof {
                            assert(cells_at_call == disc_step_at(
                                *env,
                                entry_cells,
                                pos as int,
                                lv as int,
                                st.take as int,
                            ));
                            assert(rec == has_ray_strike(
                                *env,
                                cells_at_call,
                                lv as int,
                                bans_at_call,
                            ));
                        }
                        if !for_front && bans2.len() < 2 {
                            bans2.push(v.direction);
                            proof {
                                assert(bans2@ =~= seq![ban1, gdir]);
                            }
                        }
                        li = li + 1;
                    }
                    if !recurrent {
                        let mut li2: usize = 0;
                        while li2 < nland
                            invariant
                                self.wf(),
                                env.wf(),
                                self.cells@.len() == env.packed_count(),
                                pos < self.cells@.len(),
                                self.cells@ == entry_cells,
                                self.state == old(self).state,
                                self.next_move == old(self).next_move,
                                self.cells@[pos as int] == Some(piece),
                                !piece.stricken,
                                li2 <= nland,
                                nland == st.v@.len(),
                                1 <= nland,
                                st.from == pos,
                                st.take < self.cells@.len(),
                                st.from != st.take,
                                (match self.cells@[st.take as int] {
                                    Some(c) => c.color != piece.color && !c.stricken,
                                    None => false,
                                }),
                                forall|j: int|
                                    0 <= j < nland ==> (#[trigger] st.v@[j]) < self.cells@.len()
                                        && self.cells@[st.v@[j] as int] is None
                                        && env.is_king_move_spec(piece, st.v@[j] as int)
                                        == st.king_move && st.v@[j] != st.from && st.v@[j]
                                        != st.take,
                                cc0 == old(move_list).current_chain.vec@,
                                move_list.current_chain.vec@ == cc0,
                                move_list.current_chain.took_pieces@ == old(
                                    move_list,
                                ).current_chain.took_pieces@,
                                move_list.current_chain.king_move == old(
                                    move_list,
                                ).current_chain.king_move,
                                chain_valid(*env, base, cc0),
                                corresponds(self.cells@, commit_chain(*env, base, cc0)),
                                entry_cells == disc_chain(*env, base, cc0),
                                disc_chain_valid(*env, base, cc0),
                                chain_connected(cc0),
                                cc0.len() >= 1 ==> cc0.last().to == pos,
                                grays == env.vectors_map@[pos as int]@,
                                ri < grays.len(),
                                pts == grays[ri as int].points@,
                                gdir == grays[ri as int].direction,
                                0 <= gdir < 4,
                                ban1 as int == (if gdir < 2 {
                                    gdir + 2
                                } else {
                                    gdir - 2
                                }),
                                m == first_occupied(entry_cells, pts),
                                st.take == pts[m],
                                1 <= m,
                                m + 1 < scan_top(entry_cells, pts) <= pts.len(),
                                nland == landing_count(entry_cells, pts),
                                st.v@ == pts.subrange(m + 1, m + 1 + landing_count(
                                    entry_cells,
                                    pts,
                                )),
                                forall|k1: int, k2: int|
                                    0 <= k1 < k2 < pts.len() ==> #[trigger] pts[k1]
                                        != #[trigger] pts[k2],
                                forall|j: int|
                                    0 <= j < nland ==> !has_ray_strike(
                                        *env,
                                        disc_step_at(
                                            *env,
                                            entry_cells,
                                            pos as int,
                                            (#[trigger] st.v@[j]) as int,
                                            st.take as int,
                                        ),
                                        st.v@[j] as int,
                                        (if j == 0 || for_front {
                                            seq![ban1]
                                        } else {
                                            seq![ban1, gdir]
                                        }),
                                    ),
                                old_len == old(move_list).list@.len(),
                                old_len <= move_list.list@.len(),
                                forall|k: int|
                                    0 <= k < old_len ==> move_list.list@[k] == old(
                                        move_list,
                                    ).list@[k],
                                forall|k: int|
                                    old_len <= k < move_list.list@.len() ==> (
                                    match #[trigger] move_list.list@[k] {
                                        MoveItem::StrikeChain(s) => s.vec@.len() >= 1
                                            && chain_valid(*env, base, s.vec@) && disc_chain_valid(
                                            *env,
                                            base,
                                            s.vec@,
                                        ) && chain_connected(s.vec@)
                                            && maximal_chain_from(*env, base, s, for_front) && s.vec@[0].from
                                            == (if cc0.len() == 0 {
                                            pos
                                        } else {
                                            cc0[0].from
                                        }),
                                        MoveItem::Move(_) => false,
                                    }),
                                li2 >= 1 ==> move_list.list@.len() > old_len,
                            decreases nland - li2,
                        {
                            let lv = st.v[li2];
                            let ghost hop_g = StraightStrike {
                                v: st.v,
                                from: st.from,
                                take: st.take,
                                to: lv,
                                king_move: st.king_move,
                            };
                            proof {
                                assert(hop_valid(*env, self.cells@, hop_g));
                                lemma_step_corresponds(
                                    *env,
                                    self.cells@,
                                    commit_chain(*env, base, cc0),
                                    hop_g,
                                );
                                lemma_chain_snoc(*env, base, cc0, hop_g);
                            }
                            let mut chain_hops = copy_hops(&move_list.current_chain.vec);
                            chain_hops.push(
                                StraightStrike {
                                    v: copy_points(&st.v),
                                    from: st.from,
                                    take: st.take,
                                    to: lv,
                                    king_move: st.king_move,
                                },
                            );
                            proof {
                                assert(hops_match(chain_hops@, cc0.push(hop_g))) by {
                                    assert(chain_hops@.len() == cc0.push(hop_g).len());
                                    assert forall|k: int|
                                        0 <= k < chain_hops@.len() implies (
                                    #[trigger] chain_hops@[k]).from == (#[trigger] cc0.push(
                                        hop_g,
                                    )[k]).from && chain_hops@[k].take == cc0.push(hop_g)[k].take
                                        && chain_hops@[k].to == cc0.push(hop_g)[k].to
                                        && chain_hops@[k].king_move == cc0.push(
                                        hop_g,
                                    )[k].king_move by {
                                        if k < cc0.len() {
                                            assert(cc0.push(hop_g)[k] == cc0[k]);
                                        }
                                    }
                                }
                                lemma_chain_congruence(*env, base, chain_hops@, cc0.push(hop_g));
                            }
                            let chain_km = move_list.current_chain.king_move || st.king_move;
                            let emitted = Strike {
                                vec: chain_hops,
                                took_pieces: Vec::new(),
                                king_move: chain_km,
                            };
                            proof {
                                lemma_disc_chain_congruence(
                                    *env,
                                    base,
                                    emitted.vec@,
                                    cc0.push(hop_g),
                                );
                                lemma_disc_chain_snoc(*env, base, cc0, hop_g);
                                lemma_disc_valid_snoc(*env, base, cc0, hop_g);
                                lemma_disc_valid_congruence(
                                    *env,
                                    base,
                                    emitted.vec@,
                                    cc0.push(hop_g),
                                );
                                assert(disc_chain_valid(*env, base, emitted.vec@));
                                assert forall|k: int|
                                    0 <= k < cc0.push(hop_g).len() - 1 implies (
                                #[trigger] cc0.push(hop_g)[k]).to == cc0.push(hop_g)[k + 1].from by {
                                    if k < cc0.len() - 1 {
                                        assert(cc0.push(hop_g)[k] == cc0[k]);
                                        assert(cc0.push(hop_g)[k + 1] == cc0[k + 1]);
                                    } else {
                                        assert(cc0.push(hop_g)[k] == cc0[k]);
                                        assert(cc0.push(hop_g)[k + 1] == hop_g);
                                        assert(cc0[k] == cc0.last());
                                    }
                                }
                                assert(chain_connected(cc0.push(hop_g)));
                                assert forall|k: int|
                                    0 <= k < emitted.vec@.len() - 1 implies (
                                #[trigger] emitted.vec@[k]).to == emitted.vec@[k + 1].from by {
                                    assert(emitted.vec@[k].to == cc0.push(hop_g)[k].to);
                                    assert(emitted.vec@[k + 1].from == cc0.push(hop_g)[k
                                        + 1].from);
                                }
                                assert(chain_connected(emitted.vec@));
                                assert(disc_chain(*env, base, emitted.vec@) == disc_step_at(
                                    *env,
                                    entry_cells,
                                    pos as int,
                                    lv as int,
                                    st.take as int,
                                ));
                                assert(emitted.vec@.last().to == lv);
                                let ghost bans_w: Seq<i8> = if li2 == 0 || for_front {
                                    seq![ban1]
                                } else {
                                    seq![ban1, gdir]
                                };
                                assert(bans_w.len() <= 2);
                                assert(!has_ray_strike(
                                    *env,
                                    disc_chain(*env, base, emitted.vec@),
                                    emitted.vec@.last().to as int,
                                    bans_w,
                                ));
                                let d = gdir as int;
                                let glast = emitted.vec@.last();
                                assert(glast.from == st.from && glast.take == st.take && glast.to
                                    == lv);
                                assert(glast.v@ == st.v@);
                                let j = m + 1 + li2 as int;
                                assert(st.v@[li2 as int] == pts[j]);
                                assert(lv == pts[j]);
                                assert(st.v@.len() >= 1 && st.v@[0] == pts[m + 1]);
                                assert(j < pts.len());
                                assert(env.vectors_map@[glast.from as int]@ == grays);
                                assert(env.vectors_map@[glast.from as int]@[ri as int].points@[m]
                                    == glast.take);
                                assert(env.vectors_map@[glast.from as int]@[ri as int].points@[j]
                                    == glast.to);
                                assert(env.vectors_map@[glast.from as int]@[ri as int].points@[m
                                    + 1] == glast.v@[0]);
                                assert(hop_on_ray(*env, glast, d));
                                if li2 == 0 || for_front {
                                    if !for_front {
                                        assert(glast.to == glast.v@[0]);
                                    }
                                    assert(hop_ban_set(d, glast, for_front) =~= seq![ban1]);
                                } else {
                                    assert(glast.to != glast.v@[0]) by {
                                        assert(pts[j] != pts[m + 1]);
                                    }
                                    assert(hop_ban_set(d, glast, for_front) =~= seq![
                                        ban1,
                                        gdir,
                                    ]);
                                }
                                assert(hop_ban_set(d, glast, for_front) == bans_w);
                                assert(maximal_chain_from(*env, base, emitted, for_front));
                            }
                            move_list.list.push(MoveItem::StrikeChain(emitted));
                            li2 = li2 + 1;
                        }
                    }
                }
            }
            proof {
                if success {
                    assert(exists|i: int|
                        0 <= i < ri + 1 && !ban_directions@.contains(
                            (#[trigger] grays[i]).direction,
                        ) && strike_found(*env, self.cells@, grays[i].points@));
                }
            }
            ri = ri + 1;
        }
        success
    }
}

/// A legal quiet move of `color` on this board: offered by one of that
/// colour's pieces along its rays, while no piece of the colour has a jump
/// (jumps are mandatory, so quiet moves are legal only then).
pub open spec fn quiet_move_legal(
    env: PositionEnvironment,
    cells: Seq<Option<Piece>>,
    color: Color,
    m: QuietMove,
) -> bool {
    &&& !has_any_strike(env, cells, color)
    &&& (m.from as int) < cells.len()
    &&& (cells[m.from as int] matches Some(pc) && pc.color == color)
    &&& spec_quiet_moves(env, cells, m.from as int).contains(MoveItem::Move(m))
}

/// Whether any piece of this colour has a jump available.
pub open spec fn has_any_strike(
    env: PositionEnvironment,
    cells: Seq<Option<Piece>>,
    color: Color,
) -> bool {
    exists|p: int|
        0 <= p < cells.len() && (#[trigger] cells[p] matches Some(pc) && pc.color == color)
            && has_ray_strike(env, cells, p, Seq::empty())
}

/// Whether any piece of this colour has a quiet move available.
pub open spec fn has_any_quiet(
    env: PositionEnvironment,
    cells: Seq<Option<Piece>>,
    color: Color,
) -> bool {
    exists|p: int|
        0 <= p < cells.len() && (#[trigger] cells[p] matches Some(pc) && pc.color == color)
            && spec_quiet_moves(env, cells, p).len() > 0
}

/// Whether this colour has any legal move at all.  Jumps are mandatory, so
/// quiet moves only count when no jump exists.
pub open spec fn has_any_move(
    env: PositionEnvironment,
    cells: Seq<Option<Piece>>,
    color: Color,
) -> bool {
    has_any_strike(env, cells, color) || has_any_quiet(env, cells, color)
}

impl Position {
    /// Appends every maximal capture chain of the piece on `pos` to the
    /// list, directions in `ban_directions` excluded.  Returns whether the
    /// piece has at least one jump.  Every appended chain is a capture chain
    /// of the current board, valid for [`Position::make_move`].
    pub fn get_strike_list(
        &mut self,
        env: &PositionEnvironment,
        pos: BoardPos,
        move_list: &mut MoveList,
        ban_directions: &Vec<i8>,
        for_front: bool,
    ) -> (r: bool)
        requires
            old(self).wf(),
            env.wf(),
            old(self).cells@.len() == env.packed_count(),
            pos < old(self).cells@.len(),
            old(self).no_stricken(),
            old(move_list).current_chain.vec@.len() == 0,
        ensures
            final(self).wf(),
            final(self).no_stricken(),
            final(self).cells@ == old(self).cells@,
            final(self).state == old(self).state,
            final(self).next_move == old(self).next_move,
            final(move_list).current_chain.vec@ == old(move_list).current_chain.vec@,
            final(move_list).current_chain.took_pieces@ == old(
                move_list,
            ).current_chain.took_pieces@,
            final(move_list).current_chain.king_move == old(move_list).current_chain.king_move,
            old(move_list).list@.len() <= final(move_list).list@.len(),
            forall|k: int|
                0 <= k < old(move_list).list@.len() ==> final(move_list).list@[k] == old(
                    move_list,
                ).list@[k],
            forall|k: int|
                old(move_list).list@.len() <= k < final(move_list).list@.len() ==> valid_move(
                    *env,
                    old(self).cells@,
                    #[trigger] final(move_list).list@[k],
                ) && final(move_list).list@[k] is StrikeChain && (
                match final(move_list).list@[k] {
                    MoveItem::StrikeChain(s) => maximal_chain_from(*env, old(self).cells@, s, for_front)
                        && disc_chain_valid(*env, old(self).cells@, s.vec@) && chain_connected(
                        s.vec@,
                    ) && s.vec@[0].from == pos,
                    MoveItem::Move(_) => false,
                }),
            r == has_ray_strike(*env, old(self).cells@, pos as int, ban_directions@),
            r ==> final(move_list).list@.len() > old(move_list).list@.len(),
            !r ==> final(move_list).list@ == old(move_list).list@,
    {
        let ghost base = self.cells@;
        proof {
            assert(chain_valid(*env, base, move_list.current_chain.vec@));
            assert(commit_chain(*env, base, move_list.current_chain.vec@) == base);
            assert(corresponds(base, base));
            assert(disc_chain(*env, base, move_list.current_chain.vec@) == base);
        }
        let r = self.strike_search(env, pos, move_list, ban_directions, for_front, Ghost(base));
        proof {
            assert forall|k: int|
                old(move_list).list@.len() <= k < move_list.list@.len() implies valid_move(
                *env,
                old(self).cells@,
                #[trigger] move_list.list@[k],
            ) && move_list.list@[k] is StrikeChain && (match move_list.list@[k] {
                MoveItem::StrikeChain(s) => maximal_chain_from(*env, old(self).cells@, s, for_front)
                    && disc_chain_valid(*env, old(self).cells@, s.vec@) && chain_connected(s.vec@)
                    && s.vec@[0].from == pos,
                MoveItem::Move(_) => false,
            }) by {
                assert(match move_list.list@[k] {
                    MoveItem::StrikeChain(s) => s.vec@.len() >= 1 && chain_valid(*env, base, s.vec@)
                        && disc_chain_valid(*env, base, s.vec@) && chain_connected(s.vec@)
                        && maximal_chain_from(*env, base, s, for_front) && s.vec@[0].from == pos,
                    MoveItem::Move(_) => false,
                });
            }
        }
        r
    }

    /// Generates the complete move list for one side: every maximal capture
    /// chain of every piece of that colour, or, only if no piece has a jump
    /// (captures are mandatory), every quiet move of every piece.  The list
    /// is non-empty exactly when the side has a legal move.
    pub fn get_move_list(&mut self, env: &PositionEnvironment, color: Color, for_front: bool) -> (ml:
        MoveList)
        requires
            old(self).wf(),
            env.wf(),
            old(self).cells@.len() == env.packed_count(),
            old(self).no_stricken(),
        ensures
            final(self).wf(),
            final(self).no_stricken(),
            final(self).cells@ == old(self).cells@,
            final(self).state == old(self).state,
            final(self).next_move == old(self).next_move,
            forall|k: int|
                0 <= k < ml.list@.len() ==> valid_move(
                    *env,
                    old(self).cells@,
                    #[trigger] ml.list@[k],
                ),
            has_any_strike(*env, old(self).cells@, color) ==> forall|k: int|
                0 <= k < ml.list@.len() ==> (#[trigger] ml.list@[k]) is StrikeChain,
            forall|k: int|
                0 <= k < ml.list@.len() ==> (match #[trigger] ml.list@[k] {
                    MoveItem::StrikeChain(s) => maximal_chain_from(*env, old(self).cells@, s, for_front)
                        && disc_chain_valid(*env, old(self).cells@, s.vec@) && chain_connected(
                        s.vec@,
                    ),
                    MoveItem::Move(_) => true,
                }),
            !has_any_strike(*env, old(self).cells@, color) ==> forall|k: int|
                0 <= k < ml.list@.len() ==> (#[trigger] ml.list@[k]) is Move,
            (ml.list@.len() > 0) == has_any_move(*env, old(self).cells@, color),
            forall|k: int|
                0 <= k < ml.list@.len() ==> (match #[trigger] ml.list@[k] {
                    MoveItem::StrikeChain(s) => old(self).cells@[s.vec@[0].from as int] matches Some(
                        pc,
                    ) && pc.color == color,
                    MoveItem::Move(m) => old(self).cells@[m.from as int] matches Some(pc)
                        && pc.color == color,
                }),
            !has_any_strike(*env, old(self).cells@, color) ==> forall|q: int, j: int|
                0 <= q < old(self).cells@.len() && (old(self).cells@[q] matches Some(pc)
                    && pc.color == color) && 0 <= j < spec_quiet_moves(
                    *env,
                    old(self).cells@,
                    q,
                ).len() ==> ml.list@.contains(
                    #[trigger] spec_quiet_moves(*env, old(self).cells@, q)[j],
                ),
    {
        let mut move_list = MoveList::new();
        let empty_bans: Vec<i8> = Vec::new();
        let n = self.cells.len();
        let mut p: usize = 0;
        while p < n
            invariant
                self.wf(),
                env.wf(),
                self.cells@.len() == env.packed_count(),
                self.no_stricken(),
                self.cells@ == old(self).cells@,
                self.state == old(self).state,
                self.next_move == old(self).next_move,
                n == self.cells@.len(),
                p <= n,
                empty_bans@ == Seq::<i8>::empty(),
                move_list.current_chain.vec@.len() == 0,
                forall|k: int|
                    0 <= k < move_list.list@.len() ==> valid_move(
                        *env,
                        self.cells@,
                        #[trigger] move_list.list@[k],
                    ) && move_list.list@[k] is StrikeChain && (match move_list.list@[k] {
                        MoveItem::StrikeChain(s) => maximal_chain_from(*env, self.cells@, s, for_front)
                            && disc_chain_valid(*env, self.cells@, s.vec@) && chain_connected(
                            s.vec@,
                        ) && (self.cells@[s.vec@[0].from as int] matches Some(pc) && pc.color
                            == color),
                        MoveItem::Move(_) => false,
                    }),
                (move_list.list@.len() > 0) == (exists|q: int|
                    0 <= q < p && (#[trigger] self.cells@[q] matches Some(pc) && pc.color == color)
                        && has_ray_strike(*env, self.cells@, q, Seq::empty())),
            decreases n - p,
        {
            let c = self.cells[p];
            if let Some(pc) = c {
                if pc.color == color {
                    let r = self.get_strike_list(env, p, &mut move_list, &empty_bans, for_front);
                    proof {
                        if r {
                            assert(self.cells@[p as int] matches Some(x) && x.color == color);
                        }
                    }
                }
            }
            p = p + 1;
        }
        if move_list.list.len() == 0 {
            proof {
                assert(!has_any_strike(*env, self.cells@, color));
            }
            let mut p2: usize = 0;
            while p2 < n
                invariant
                    self.wf(),
                    env.wf(),
                    self.cells@.len() == env.packed_count(),
                    self.no_stricken(),
                    self.cells@ == old(self).cells@,
                    self.state == old(self).state,
                    self.next_move == old(self).next_move,
                    n == self.cells@.len(),
                    p2 <= n,
                    forall|k: int|
                        0 <= k < move_list.list@.len() ==> valid_move(
                            *env,
                            self.cells@,
                            #[trigger] move_list.list@[k],
                        ) && (match move_list.list@[k] {
                            MoveItem::Move(m) => self.cells@[m.from as int] matches Some(pc)
                                && pc.color == color,
                            MoveItem::StrikeChain(_) => false,
                        }),
                    (move_list.list@.len() > 0) == (exists|q: int|
                        0 <= q < p2 && (#[trigger] self.cells@[q] matches Some(pc) && pc.color
                            == color) && spec_quiet_moves(*env, self.cells@, q).len() > 0),
                    forall|q: int, j: int|
                        0 <= q < p2 && (self.cells@[q] matches Some(pc) && pc.color == color) && 0
                            <= j < spec_quiet_moves(*env, self.cells@, q).len()
                            ==> move_list.list@.contains(
                            #[trigger] spec_quiet_moves(*env, self.cells@, q)[j],
                        ),
                decreases n - p2,
            {
                let c = self.cells[p2];
                let ghost pre_list = move_list.list@;
                if let Some(pc) = c {
                    if pc.color == color {
                        let ghost pre_len = move_list.list@.len() as int;
                        self.get_quiet_move_list(env, p2, &mut move_list);
                        proof {
                            if move_list.list@.len() > pre_len {
                                assert(self.cells@[p2 as int] matches Some(x) && x.color == color);
                                assert(spec_quiet_moves(*env, self.cells@, p2 as int).len() > 0);
                            }
                        }
                    }
                }
                proof {
                    assert forall|q: int, j: int|
                        0 <= q < p2 + 1 && (self.cells@[q] matches Some(pc2) && pc2.color == color)
                            && 0 <= j < spec_quiet_moves(*env, self.cells@, q).len()
                        implies move_list.list@.contains(
                        #[trigger] spec_quiet_moves(*env, self.cells@, q)[j],
                    ) by {
                        if q < p2 {
                            assert(pre_list.contains(spec_quiet_moves(*env, self.cells@, q)[j]));
                            let wi = choose|i: int|
                                0 <= i < pre_list.len() && pre_list[i] == spec_quiet_moves(
                                    *env,
                                    self.cells@,
                                    q,
                                )[j];
                            assert(move_list.list@[wi] == spec_quiet_moves(
                                *env,
                                self.cells@,
                                q,
                            )[j]);
                        } else {
                            assert(move_list.list@ == pre_list + spec_quiet_moves(
                                *env,
                                self.cells@,
                                p2 as int,
                            ));
                            assert(move_list.list@[pre_list.len() + j] == spec_quiet_moves(
                                *env,
                                self.cells@,
                                q,
                            )[j]);
                        }
                    }
                }
                p2 = p2 + 1;
            }
        }
        move_list
    }
}

/// Mobility one ray contributes to its piece: the number of free squares it
/// can see along the ray.
pub open spec fn mobility_from_rays(
    cells: Seq<Option<Piece>>,
    p: Piece,
    rays: Seq<crate::vector::Vector<BoardPos>>,
    i: int,
) -> int
    decreases rays.len() - i,
{
    if i < 0 || i >= rays.len() {
        0
    } else {
        (if quiet_dir_ok(p, rays[i].direction) {
            free_len(cells, rays[i].points@, 1)
        } else {
            0
        }) + mobility_from_rays(cells, p, rays, i + 1)
    }
}

/// Mobility of the whole board from white's point of view: each piece adds
/// (white) or subtracts (black) the free ray squares it can see.
pub open spec fn board_mobility(
    env: PositionEnvironment,
    cells: Seq<Option<Piece>>,
    i: int,
) -> int
    decreases cells.len() - i,
{
    if i < 0 || i >= cells.len() {
        0
    } else {
        (match cells[i] {
            Some(p) => (if p.color == Color::White {
                1
            } else {
                -1
            }) * mobility_from_rays(cells, p, env.vectors_map@[i]@, 0),
            None => 0,
        }) + board_mobility(env, cells, i + 1)
    }
}

/// The static evaluation of a position, from white's point of view: material
/// (men 100, kings 300) plus mobility as a tie-break.
pub open spec fn spec_position_eval(env: PositionEnvironment, cells: Seq<Option<Piece>>) -> int {
    count_cells(cells, Color::White, false) * 100 + count_cells(cells, Color::White, true) * 300
        - count_cells(cells, Color::Black, false) * 100 - count_cells(cells, Color::Black, true)
        * 300 + board_mobility(env, cells, 0)
}

/// One committed position together with the move that produced it.
#[derive(Debug)]
pub struct PositionHistoryItem {
    pub position: Position,
    pub move_item: MoveItem,
}

impl Position {
    /// An empty position sized for the given board topology.
    pub fn new(env: &PositionEnvironment) -> (r: Position)
        requires
            env.wf(),
        ensures
            r.wf(),
            r.no_stricken(),
            r.cells@.len() == env.packed_count(),
            forall|i: int| 0 <= i < r.cells@.len() ==> (#[trigger] r.cells@[i]) is None,
            r.state == (PosState {
                black: PieceCount { simple: 0, king: 0 },
                white: PieceCount { simple: 0, king: 0 },
            }),
            r.next_move is None,
    {
        proof {
            assert(env.size * env.size <= 126 * 126) by (nonlinear_arith)
                requires env.size <= 126;
        }
        Position::new_empty(env.pack_to_board.len())
    }

    /// The piece a just-generated move would land with: the occupant of the
    /// move's final square.
    pub fn get_piece_of_move_item(&self, move_item: &MoveItem) -> (r: &Piece)
        requires
            (match *move_item {
                MoveItem::Move(m) => m.to < self.cells@.len() && self.cells@[m.to as int] is Some,
                MoveItem::StrikeChain(s) => s.vec@.len() >= 1 && s.vec@.last().to
                    < self.cells@.len() && self.cells@[s.vec@.last().to as int] is Some,
            }),
        ensures
            Some(*r) == (match *move_item {
                MoveItem::Move(m) => self.cells@[m.to as int],
                MoveItem::StrikeChain(s) => self.cells@[s.vec@.last().to as int],
            }),
    {
        let to = match move_item {
            MoveItem::Move(m) => m.to,
            MoveItem::StrikeChain(s) => s.vec[s.vec.len() - 1].to,
        };
        match &self.cells[to] {
            Some(p) => p,
            None => {
                proof {
                    assert(false);
                }
                unreached()
            },
        }
    }

    /// Applies the move and returns a snapshot of the resulting position,
    /// paired with the move as applied.
    pub fn make_move_and_get_position(
        &mut self,
        env: &PositionEnvironment,
        move_item: &mut MoveItem,
    ) -> (r: PositionHistoryItem)
        requires
            old(self).wf(),
            env.wf(),
            old(self).cells@.len() == env.packed_count(),
            valid_move(*env, old(self).cells@, *old(move_item)),
        ensures
            final(self).wf(),
            final(self).cells@.len() == old(self).cells@.len(),
            final(self).cells@ == apply_move_spec(*env, old(self).cells@, *old(move_item)),
            final(self).next_move == flip_turn(old(self).next_move),
            old(self).no_stricken() ==> final(self).no_stricken(),
            undo_move_ok(*env, final(self).cells@, *final(move_item)),
            unapply_move_spec(*env, final(self).cells@, *final(move_item)) == old(self).cells@,
            r.position.cells@ == final(self).cells@,
            r.position.state == final(self).state,
            r.position.next_move == final(self).next_move,
            move_items_match(r.move_item, *final(move_item)),
            match *old(move_item) {
                MoveItem::Move(m) => *final(move_item) == MoveItem::Move(m),
                MoveItem::StrikeChain(s) => match *final(move_item) {
                    MoveItem::StrikeChain(s2) => s2.vec == s.vec && s2.king_move == s.king_move
                        && s2.took_pieces@ == chain_taken(*env, old(self).cells@, s.vec@),
                    MoveItem::Move(_) => false,
                },
            },
    {
        self.make_move(env, move_item);
        let position = self.clone_position();
        let mi = clone_move_item(move_item);
        PositionHistoryItem { position, move_item: mi }
    }

    /// An exact copy of the position.
    pub fn clone_position(&self) -> (r: Position)
        ensures
            r.cells@ == self.cells@,
            r.state == self.state,
            r.next_move == self.next_move,
    {
        let n = self.cells.len();
        let mut cells: Vec<Option<Piece>> = Vec::new();
        let mut i: usize = 0;
        while i < n
            invariant
                n == self.cells@.len(),
                i <= n,
                cells@ == self.cells@.subrange(0, i as int),
            decreases n - i,
        {
            cells.push(self.cells[i]);
            proof {
                assert(cells@ =~= self.cells@.subrange(0, i as int + 1));
            }
            i = i + 1;
        }
        proof {
            assert(cells@ =~= self.cells@);
        }
        Position { cells, state: self.state, next_move: self.next_move }
    }
}

/// Two move items that agree on everything a later reader needs: equal quiet
/// moves, or chains with the same jumps, captured pieces and promotion flag.
pub open spec fn move_items_match(a: MoveItem, b: MoveItem) -> bool {
    match (a, b) {
        (MoveItem::Move(x), MoveItem::Move(y)) => x == y,
        (MoveItem::StrikeChain(s1), MoveItem::StrikeChain(s2)) => hops_match(s1.vec@, s2.vec@)
            && s1.took_pieces@ == s2.took_pieces@ && s1.king_move == s2.king_move,
        _ => false,
    }
}

/// A copy of a quiet move or capture chain that plays identically.
pub fn clone_move_item(item: &MoveItem) -> (r: MoveItem)
    ensures
        move_items_match(r, *item),
{
    match item {
        MoveItem::Move(m) => MoveItem::Move(*m),
        MoveItem::StrikeChain(s) => {
            let vec: Vec<StraightStrike> = copy_hops(&s.vec);
            let mut took: Vec<Option<Piece>> = Vec::new();
            let nt = s.took_pieces.len();
            let mut j: usize = 0;
            while j < nt
                invariant
                    nt == s.took_pieces@.len(),
                    j <= nt,
                    took@ == s.took_pieces@.subrange(0, j as int),
                decreases nt - j,
            {
                took.push(s.took_pieces[j]);
                proof {
                    assert(took@ =~= s.took_pieces@.subrange(0, j as int + 1));
                }
                j = j + 1;
            }
            proof {
                assert(took@ =~= s.took_pieces@);
            }
            MoveItem::StrikeChain(Strike { vec, took_pieces: took, king_move: s.king_move })
        },
    }
}

/// Whether two cells hold equal contents.
fn piece_opt_eq(a: &Option<Piece>, b: &Option<Piece>) -> (r: bool)
    ensures
        r == (*a == *b),
{
    match (a, b) {
        (None, None) => true,
        (Some(x), Some(y)) => x.pos == y.pos && x.color == y.color && x.is_king == y.is_king
            && x.stricken == y.stricken,
        _ => false,
    }
}

impl PartialEq for Position {
    /// Positions are equal when they agree cell for cell; the aggregate
    /// counts and the side to move follow from the cells and are not
    /// compared.
    fn eq(&self, other: &Self) -> (r: bool) {
        if self.cells.len() != other.cells.len() {
            proof {
                assert(self.cells@ != other.cells@);
            }
            return false;
        }
        let n = self.cells.len();
        let mut i: usize = 0;
        while i < n
            invariant
                n == self.cells@.len() == other.cells@.len(),
                i <= n,
                forall|k: int| 0 <= k < i ==> self.cells@[k] == other.cells@[k],
            decreases n - i,
        {
            if !piece_opt_eq(&self.cells[i], &other.cells[i]) {
                proof {
                    assert(self.cells@ != other.cells@);
                }
                return false;
            }
            i = i + 1;
        }
        proof {
            assert(self.cells@ =~= other.cells@);
        }
        true
    }
}

impl vstd::std_specs::cmp::PartialEqSpecImpl for Position {
    open spec fn obeys_eq_spec() -> bool {
        true
    }

    open spec fn eq_spec(&self, other: &Self) -> bool {
        self.cells@ == other.cells@
    }
}

impl Position {
    /// Counts the free squares a piece sees along one ray.
    fn free_run(&self, pts: &Vec<BoardPos>) -> (c: usize)
        requires
            self.wf(),
            pts@.len() >= 1,
            forall|k: int| 0 <= k < pts@.len() ==> (#[trigger] pts@[k]) < self.cells@.len(),
        ensures
            c as int == free_len(self.cells@, pts@, 1),
            c <= pts@.len() - 1,
    {
        let n = pts.len();
        let mut j: usize = 1;
        while j < n && self.cells[pts[j]].is_none()
            invariant
                self.wf(),
                n == pts@.len() >= 1,
                forall|k: int| 0 <= k < pts@.len() ==> (#[trigger] pts@[k]) < self.cells@.len(),
                1 <= j <= n,
                free_len(self.cells@, pts@, 1) == (j - 1) + free_len(self.cells@, pts@, j as int),
            decreases n - j,
        {
            j = j + 1;
        }
        proof {
            if j < n {
                assert(free_len(self.cells@, pts@, j as int) == 0);
            } else {
                assert(free_len(self.cells@, pts@, j as int) == 0);
            }
        }
        j - 1
    }

    /// The static evaluation of the position, from white's point of view:
    /// material (men 100, kings 300) plus a mobility tie-break that counts
    /// the free ray squares each piece can see.
    pub fn evaluate(&self, env: &PositionEnvironment) -> (r: i32)
        requires
            self.wf(),
            env.wf(),
            self.cells@.len() == env.packed_count(),
        ensures
            r as int == spec_position_eval(*env, self.cells@),
            -1000000000 <= r <= 1000000000,
    {
        proof {
            lemma_count_bounds(self.cells@, Color::Black, false);
            lemma_count_bounds(self.cells@, Color::Black, true);
            lemma_count_bounds(self.cells@, Color::White, false);
            lemma_count_bounds(self.cells@, Color::White, true);
        }
        let material: i32 = self.state.evaluate();
        let n = self.cells.len();
        let mut mob: i32 = 0;
        let mut i: usize = 0;
        while i < n
            invariant
                self.wf(),
                env.wf(),
                self.cells@.len() == env.packed_count(),
                n == self.cells@.len(),
                i <= n,
                n <= 7938,
                board_mobility(*env, self.cells@, 0) == mob + board_mobility(
                    *env,
                    self.cells@,
                    i as int,
                ),
                -63512 * i <= mob <= 63512 * i,
            decreases n - i,
        {
            let c = self.cells[i];
            if let Some(piece) = c {
                proof {
                    lemma_ray_facts(*env, i as int);
                }
                let rays = env.get_vectors(i);
                let ghost grays = env.vectors_map@[i as int]@;
                let nrays = rays.len();
                let mut cell_mob: i32 = 0;
                let mut ri: usize = 0;
                while ri < nrays
                    invariant
                        self.wf(),
                        env.wf(),
                        self.cells@.len() == env.packed_count(),
                        env.size <= 126,
                        grays == env.vectors_map@[i as int]@,
                        rays@ == grays,
                        nrays == grays.len() <= 4,
                        0 <= i < self.cells@.len(),
                        ri <= nrays,
                        forall|k: int|
                            0 <= k < grays.len() ==> (forall|k2: int|
                                0 <= k2 < (#[trigger] grays[k]).points@.len() ==> (
                                #[trigger] grays[k].points@[k2]) < self.cells@.len()),
                        mobility_from_rays(self.cells@, piece, grays, 0) == cell_mob
                            + mobility_from_rays(self.cells@, piece, grays, ri as int),
                        0 <= cell_mob <= 15877 * ri,
                    decreases nrays - ri,
                {
                    let v = &rays[ri];
                    let allowed = if piece.is_king {
                        true
                    } else if piece.color == Color::White {
                        v.direction < 2
                    } else {
                        v.direction >= 2
                    };
                    if allowed {
                        proof {
                            lemma_ray_points_len(*env, i as int, ri as int);
                        }
                        let f = self.free_run(&v.points);
                        cell_mob = cell_mob + f as i32;
                    }
                    ri = ri + 1;
                }
                proof {
                    assert(mobility_from_rays(self.cells@, piece, grays, nrays as int) == 0);
                    assert(mobility_from_rays(self.cells@, piece, grays, 0) == cell_mob);
                    assert(board_mobility(*env, self.cells@, i as int) == (if piece.color
                        == Color::White {
                        1
                    } else {
                        -1
                    }) * cell_mob + board_mobility(*env, self.cells@, i as int + 1));
                }
                proof {
                    assert(1 * (cell_mob as int) == cell_mob as int) by (nonlinear_arith);
                    assert((-1) * (cell_mob as int) == -(cell_mob as int)) by (nonlinear_arith);
                }
                if piece.color == Color::White {
                    mob = mob + cell_mob;
                } else {
                    mob = mob - cell_mob;
                }
                proof {
                    assert(board_mobility(*env, self.cells@, 0) == mob + board_mobility(
                        *env,
                        self.cells@,
                        i as int + 1,
                    ));
                }
            } else {
                proof {
                    assert(board_mobility(*env, self.cells@, i as int) == board_mobility(
                        *env,
                        self.cells@,
                        i as int + 1,
                    ));
                    assert(board_mobility(*env, self.cells@, 0) == mob + board_mobility(
                        *env,
                        self.cells@,
                        i as int + 1,
                    ));
                }
            }
            i = i + 1;
        }
        proof {
            assert(board_mobility(*env, self.cells@, n as int) == 0);
        }
        material + mob
    }
}

/// A stored ray has at most one point per board square.
proof fn lemma_ray_points_len(env: PositionEnvironment, pos: int, ri: int)
    requires
        env.wf(),
        0 <= pos < env.packed_count(),
        0 <= ri < env.vectors_map@[pos]@.len(),
    ensures
        env.vectors_map@[pos]@[ri].points@.len() <= 1 + env.size * env.size,
{
    let b = env.pack_to_board@[pos] as int;
    let rs = env.vectors_map@[pos]@;
    assert(rays_ok_at(env.size as int, env.board_to_pack@, env.packed_count(), b, rs));
    assert(crate::position_environment::is_packed_ray_at(
        env.size as int,
        env.board_to_pack@,
        env.packed_count(),
        rs[ri].points@,
        b,
        rs[ri].direction as int,
    ));
    crate::position_environment::lemma_ray_len_bound(env.size as int, b, rs[ri].direction as int);
}

/// A move that matches another square for square is just as valid.
pub proof fn lemma_valid_move_match(
    env: PositionEnvironment,
    cells: Seq<Option<Piece>>,
    a: MoveItem,
    b: MoveItem,
)
    requires
        move_items_match(a, b),
        valid_move(env, cells, b),
    ensures
        valid_move(env, cells, a),
{
    match (a, b) {
        (MoveItem::Move(x), MoveItem::Move(y)) => {},
        (MoveItem::StrikeChain(s1), MoveItem::StrikeChain(s2)) => {
            lemma_chain_congruence(env, cells, s1.vec@, s2.vec@);
        },
        _ => {
            assert(false);
        },
    }
}

/// A move whose jumps agree square for square with a valid move is itself
/// valid; the stored victims play no part in validity.
pub proof fn lemma_valid_move_hops(
    env: PositionEnvironment,
    cells: Seq<Option<Piece>>,
    a: MoveItem,
    b: MoveItem,
)
    requires
        valid_move(env, cells, b),
        match (a, b) {
            (MoveItem::Move(x), MoveItem::Move(y)) => x == y,
            (MoveItem::StrikeChain(s1), MoveItem::StrikeChain(s2)) => hops_match(s1.vec@, s2.vec@),
            _ => false,
        },
    ensures
        valid_move(env, cells, a),
{
    match (a, b) {
        (MoveItem::Move(x), MoveItem::Move(y)) => {},
        (MoveItem::StrikeChain(s1), MoveItem::StrikeChain(s2)) => {
            lemma_chain_congruence(env, cells, s1.vec@, s2.vec@);
        },
        _ => {
            assert(false);
        },
    }
}

/// The same piece, standing on square `pos`.
fn with_pos(c: Option<Piece>, pos: BoardPos) -> (r: Option<Piece>)
    ensures
        r == with_pos_spec(c, pos as int),
{
    match c {
        Some(p) => Some(Piece { pos, ..p }),
        None => None,
    }
}

} // verus!
