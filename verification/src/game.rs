use vstd::prelude::*;
use crate::color::Color;
use crate::moves::BoardPos;
use crate::moves_list::MoveItem;
use crate::moves_list::MoveList;
use crate::piece::Piece;
use crate::position::chain_valid;
use crate::position::commit_step;
use crate::position::hop_valid;
use crate::position::valid_move;
use crate::position::apply_move_spec;
use crate::position::flip_turn;
use crate::position::move_items_match;
use crate::position::clone_move_item;
use crate::position::Position;
use crate::position::PositionHistoryItem;
use crate::position_environment::PositionEnvironment;

verus! {

/// How a game ends: one of the five draw clauses, or a win.
#[derive(Copy, Clone, Debug)]
pub enum FinishType {
    Draw1,
    Draw2,
    Draw3,
    Draw4,
    Draw5,
    BlackWin,
    WhiteWin,
}

/// Whether an outcome is one of the five draw clauses.
pub open spec fn is_draw(f: FinishType) -> bool {
    match f {
        FinishType::Draw1 | FinishType::Draw2 | FinishType::Draw3 | FinishType::Draw4
            | FinishType::Draw5 => true,
        FinishType::BlackWin | FinishType::WhiteWin => false,
    }
}

impl FinishType {
    /// Outcome equality: any two draws are the same outcome, and each win
    /// only equals itself.
    pub open spec fn same_outcome(self, other: FinishType) -> bool {
        ||| (is_draw(self) && is_draw(other))
        ||| (self is WhiteWin && other is WhiteWin)
        ||| (self is BlackWin && other is BlackWin)
    }
}

impl PartialEq for FinishType {
    /// Outcomes compare by what they mean for the players: every draw equals
    /// every other draw.
    fn eq(&self, other: &Self) -> (r: bool) {
        let d = |x: &FinishType| -> (rr: bool)
            ensures
                rr == is_draw(*x),
            {
                match x {
                    FinishType::Draw1 | FinishType::Draw2 | FinishType::Draw3 | FinishType::Draw4
                        | FinishType::Draw5 => true,
                    _ => false,
                }
            };
        if d(self) && d(other) {
            true
        } else {
            match (self, other) {
                (FinishType::WhiteWin, FinishType::WhiteWin) => true,
                (FinishType::BlackWin, FinishType::BlackWin) => true,
                _ => false,
            }
        }
    }
}

impl Eq for FinishType {

}

impl vstd::std_specs::cmp::PartialEqSpecImpl for FinishType {
    open spec fn obeys_eq_spec() -> bool {
        true
    }

    open spec fn eq_spec(&self, other: &Self) -> bool {
        self.same_outcome(*other)
    }
}

impl PartialOrd for FinishType {
    /// Outcomes are ordered for white: a black win is below everything else,
    /// a white win above everything else, and all draws are equal.
    fn partial_cmp(&self, other: &Self) -> (r: Option<core::cmp::Ordering>) {
        if matches!(self, FinishType::BlackWin) && !matches!(other, FinishType::BlackWin) {
            Some(core::cmp::Ordering::Less)
        } else if matches!(self, FinishType::WhiteWin) && !matches!(other, FinishType::WhiteWin) {
            Some(core::cmp::Ordering::Greater)
        } else if matches!(other, FinishType::BlackWin) && !matches!(self, FinishType::BlackWin) {
            Some(core::cmp::Ordering::Greater)
        } else if matches!(other, FinishType::WhiteWin) && !matches!(self, FinishType::WhiteWin) {
            Some(core::cmp::Ordering::Less)
        } else {
            Some(core::cmp::Ordering::Equal)
        }
    }
}

impl vstd::std_specs::cmp::PartialOrdSpecImpl for FinishType {
    open spec fn obeys_partial_cmp_spec() -> bool {
        true
    }

    open spec fn partial_cmp_spec(&self, other: &Self) -> Option<core::cmp::Ordering> {
        if self is BlackWin && !(other is BlackWin) {
            Some(core::cmp::Ordering::Less)
        } else if self is WhiteWin && !(other is WhiteWin) {
            Some(core::cmp::Ordering::Greater)
        } else if other is BlackWin && !(self is BlackWin) {
            Some(core::cmp::Ordering::Greater)
        } else if other is WhiteWin && !(self is WhiteWin) {
            Some(core::cmp::Ordering::Less)
        } else {
            Some(core::cmp::Ordering::Equal)
        }
    }
}

/// The draw tracker's memory: for each of the five clauses the ply at which
/// its condition started to hold (unset while it does not hold), plus the
/// repetition count of the current position.
#[derive(Copy, Clone, Debug)]
pub struct DrawState {
    pub kings_start_at: Option<usize>,
    pub kings_only_move_start_at: Option<usize>,
    pub triangle_start_at: Option<usize>,
    pub power_equal_start_at: Option<usize>,
    pub main_road_start_at: Option<usize>,
    pub repeats: u32,
}

impl DrawState {
    /// The tracker's initial memory: no clause is running.
    pub open spec fn spec_initial() -> DrawState {
        DrawState {
            kings_start_at: None,
            kings_only_move_start_at: None,
            triangle_start_at: None,
            power_equal_start_at: None,
            main_road_start_at: None,
            repeats: 0,
        }
    }

    /// The tracker's initial memory: no clause is running.
    pub fn initial() -> (r: DrawState)
        ensures
            r == DrawState::spec_initial(),
    {
        DrawState {
            kings_start_at: None,
            kings_only_move_start_at: None,
            triangle_start_at: None,
            power_equal_start_at: None,
            main_road_start_at: None,
            repeats: 0,
        }
    }
}

/// A game in play: the shared board topology, the live position, the
/// committed history, and the draw tracker's memory.
#[derive(Debug)]
pub struct Game {
    pub position_history: Vec<PositionHistoryItem>,
    pub position_environment: PositionEnvironment,
    pub current_position: Position,
    pub draw_state: DrawState,
}

/// What a history entry guarantees to later draw checks: a board of the
/// right size with consistent counts, and a move whose final square is on
/// the board.
pub open spec fn hist_item_ok(env: PositionEnvironment, it: PositionHistoryItem) -> bool {
    &&& it.position.wf()
    &&& it.position.cells@.len() == env.packed_count()
    &&& match it.move_item {
        MoveItem::Move(m) => m.to < env.packed_count(),
        MoveItem::StrikeChain(s) => s.vec@.len() >= 1 && s.vec@.last().to < env.packed_count(),
    }
}

/// The final square of a move: where the moved piece ends up.
pub open spec fn move_target(item: MoveItem) -> int {
    match item {
        MoveItem::Move(m) => m.to as int,
        MoveItem::StrikeChain(s) => s.vec@.last().to as int,
    }
}

/// Every jump of a valid chain lands on the board; in particular the last
/// one.
pub proof fn lemma_chain_valid_last(
    env: PositionEnvironment,
    cells: Seq<Option<Piece>>,
    hops: Seq<crate::moves::StraightStrike>,
)
    requires
        chain_valid(env, cells, hops),
        hops.len() >= 1,
    ensures
        hops.last().to < cells.len(),
    decreases hops.len(),
{
    if hops.len() == 1 {
        assert(hop_valid(env, cells, hops[0]));
    } else {
        assert(hops.skip(1).last() == hops.last());
        lemma_chain_valid_last(env, commit_step(env, cells, hops[0]), hops.skip(1));
    }
}

impl Game {
    /// The game's overall well-formedness: a sound topology, a live position
    /// sized for it, and a history whose entries later draw checks can read.
    pub open spec fn wf(self) -> bool {
        &&& self.position_environment.wf()
        &&& self.current_position.wf()
        &&& self.current_position.no_stricken()
        &&& self.current_position.cells@.len() == self.position_environment.packed_count()
        &&& forall|k: int|
            0 <= k < self.position_history@.len() ==> hist_item_ok(
                self.position_environment,
                #[trigger] self.position_history@[k],
            )
    }

    /// A fresh game on an even-sized board: empty position, empty history.
    pub fn new(size: usize) -> (r: Game)
        requires
            size % 2 == 0,
            size <= 126,
        ensures
            r.wf(),
            r.position_environment.size == size,
            r.position_history@.len() == 0,
            r.current_position.next_move is None,
            forall|i: int|
                0 <= i < r.current_position.cells@.len() ==> (
                #[trigger] r.current_position.cells@[i]) is None,
            r.draw_state == DrawState::spec_initial(),
    {
        let env = match PositionEnvironment::new(size) {
            Ok(env) => env,
            Err(_) => {
                proof {
                    assert(false);
                }
                unreached()
            },
        };
        let current_position = Position::new(&env);
        Game {
            position_history: Vec::new(),
            position_environment: env,
            current_position,
            draw_state: DrawState::initial(),
        }
    }

    /// Puts a piece on an empty square of the live position.
    pub fn insert_piece(&mut self, piece: Piece)
        requires
            old(self).wf(),
            piece.pos < old(self).current_position.cells@.len(),
            old(self).current_position.cells@[piece.pos as int] is None,
            !piece.stricken,
        ensures
            final(self).wf(),
            final(self).current_position.cells@ == old(self).current_position.cells@.update(
                piece.pos as int,
                Some(piece),
            ),
            final(self).position_environment == old(self).position_environment,
            final(self).position_history == old(self).position_history,
            final(self).draw_state == old(self).draw_state,
            final(self).current_position.next_move == old(self).current_position.next_move,
    {
        self.current_position.insert_piece(piece);
    }

    /// Removes the piece on `pos` from the live position, if any; returns
    /// whether one was there.
    pub fn remove_piece(&mut self, pos: BoardPos) -> (r: bool)
        requires
            old(self).wf(),
            pos < old(self).current_position.cells@.len(),
        ensures
            final(self).wf(),
            r == (old(self).current_position.cells@[pos as int] is Some),
            r ==> final(self).current_position.cells@
                == old(self).current_position.cells@.update(pos as int, None),
            !r ==> final(self).current_position == old(self).current_position,
            final(self).position_environment == old(self).position_environment,
            final(self).position_history == old(self).position_history,
            final(self).draw_state == old(self).draw_state,
            final(self).current_position.next_move == old(self).current_position.next_move,
    {
        self.current_position.remove_piece(pos)
    }

    /// Full-board coordinate of a packed square.
    pub fn to_board(&self, pack_index: BoardPos) -> (r: BoardPos)
        requires
            self.wf(),
            pack_index < self.position_environment.packed_count(),
        ensures
            r == self.position_environment.pack_to_board@[pack_index as int],
    {
        self.position_environment.to_board(pack_index)
    }

    /// Packed coordinate of a playable full-board square.
    pub fn to_pack(&self, board_index: BoardPos) -> (r: BoardPos)
        requires
            self.wf(),
            board_index < self.position_environment.size * self.position_environment.size,
        ensures
            r == self.position_environment.board_to_pack@[board_index as int],
    {
        self.position_environment.to_pack(board_index)
    }

    /// The side to move, if set.
    pub fn get_color(&self) -> (r: Option<Color>)
        ensures
            r == self.current_position.next_move,
    {
        self.current_position.next_move
    }

    /// Sets the side to move.
    pub fn set_color(&mut self, color: Color)
        requires
            old(self).wf(),
        ensures
            final(self).wf(),
            final(self).current_position.next_move == Some(color),
            final(self).current_position.cells@ == old(self).current_position.cells@,
            final(self).position_environment == old(self).position_environment,
            final(self).position_history == old(self).position_history,
            final(self).draw_state == old(self).draw_state,
    {
        self.current_position.next_move = Some(color);
    }

    /// The complete move list for the side to move.
    pub fn get_move_list(&mut self, for_front: bool) -> (ml: MoveList)
        requires
            old(self).wf(),
            old(self).current_position.next_move is Some,
        ensures
            final(self).wf(),
            final(self).position_environment == old(self).position_environment,
            final(self).position_history == old(self).position_history,
            final(self).draw_state == old(self).draw_state,
            final(self).current_position.cells@ == old(self).current_position.cells@,
            final(self).current_position.state == old(self).current_position.state,
            final(self).current_position.next_move == old(self).current_position.next_move,
            forall|k: int|
                0 <= k < ml.list@.len() ==> valid_move(
                    old(self).position_environment,
                    old(self).current_position.cells@,
                    #[trigger] ml.list@[k],
                ),
            crate::position::has_any_strike(
                old(self).position_environment,
                old(self).current_position.cells@,
                old(self).current_position.next_move->0,
            ) ==> forall|k: int| 0 <= k < ml.list@.len() ==> (#[trigger] ml.list@[k]) is StrikeChain,
            forall|k: int|
                0 <= k < ml.list@.len() ==> (match #[trigger] ml.list@[k] {
                    MoveItem::StrikeChain(s) => crate::position::maximal_chain_from(
                        old(self).position_environment,
                        old(self).current_position.cells@,
                        s,
                        for_front,
                    ) && crate::position::disc_chain_valid(
                        old(self).position_environment,
                        old(self).current_position.cells@,
                        s.vec@,
                    ) && crate::position::chain_connected(s.vec@),
                    MoveItem::Move(_) => true,
                }),
            !crate::position::has_any_strike(
                old(self).position_environment,
                old(self).current_position.cells@,
                old(self).current_position.next_move->0,
            ) ==> forall|k: int| 0 <= k < ml.list@.len() ==> (#[trigger] ml.list@[k]) is Move,
            (ml.list@.len() > 0) == crate::position::has_any_move(
                old(self).position_environment,
                old(self).current_position.cells@,
                old(self).current_position.next_move->0,
            ),
            forall|k: int|
                0 <= k < ml.list@.len() ==> move_of_side(
                    old(self).position_environment,
                    old(self).current_position.cells@,
                    old(self).current_position.next_move->0,
                    #[trigger] ml.list@[k],
                ),
            !crate::position::has_any_strike(
                old(self).position_environment,
                old(self).current_position.cells@,
                old(self).current_position.next_move->0,
            ) ==> forall|q: int, j: int|
                0 <= q < old(self).current_position.cells@.len() && (old(
                    self,
                ).current_position.cells@[q] matches Some(pc) && pc.color == old(
                    self,
                ).current_position.next_move->0) && 0 <= j < crate::position::spec_quiet_moves(
                    old(self).position_environment,
                    old(self).current_position.cells@,
                    q,
                ).len() ==> ml.list@.contains(
                    #[trigger] crate::position::spec_quiet_moves(
                        old(self).position_environment,
                        old(self).current_position.cells@,
                        q,
                    )[j],
                ),
    {
        let color = match self.current_position.next_move {
            Some(c) => c,
            None => {
                proof {
                    assert(false);
                }
                unreached()
            },
        };
        let ml = self.current_position.get_move_list(&self.position_environment, color, for_front);
        proof {
            assert(self.current_position.cells@ =~= old(self).current_position.cells@);
        }
        ml
    }

    /// Applies a generated move to the live position and commits the
    /// resulting position (with the move that produced it) to the history.
    pub fn make_move_by_move_item(&mut self, move_item: &mut MoveItem)
        requires
            old(self).wf(),
            valid_move(
                old(self).position_environment,
                old(self).current_position.cells@,
                *old(move_item),
            ),
        ensures
            final(self).wf(),
            final(self).position_environment == old(self).position_environment,
            final(self).draw_state == old(self).draw_state,
            final(self).current_position.cells@ == apply_move_spec(
                old(self).position_environment,
                old(self).current_position.cells@,
                *old(move_item),
            ),
            final(self).current_position.next_move == flip_turn(
                old(self).current_position.next_move,
            ),
            final(self).position_history@.len() == old(self).position_history@.len() + 1,
            forall|k: int|
                0 <= k < old(self).position_history@.len() ==> final(self).position_history@[k]
                    == old(self).position_history@[k],
            final(self).position_history@.last().position.cells@
                == final(self).current_position.cells@,
            move_items_match(final(self).position_history@.last().move_item, *final(move_item)),
            match *old(move_item) {
                MoveItem::Move(m) => *final(move_item) == MoveItem::Move(m),
                MoveItem::StrikeChain(s) => match *final(move_item) {
                    MoveItem::StrikeChain(s2) => s2.vec == s.vec && s2.king_move == s.king_move,
                    MoveItem::Move(_) => false,
                },
            },
            crate::position::undo_move_ok(
                old(self).position_environment,
                final(self).current_position.cells@,
                *final(move_item),
            ),
            crate::position::unapply_move_spec(
                old(self).position_environment,
                final(self).current_position.cells@,
                *final(move_item),
            ) == old(self).current_position.cells@,
    {
        let item = self.current_position.make_move_and_get_position(
            &self.position_environment,
            move_item,
        );
        proof {
            let omi = *old(move_item);
            match omi {
                MoveItem::Move(m) => {},
                MoveItem::StrikeChain(s) => {
                    lemma_chain_valid_last(
                        self.position_environment,
                        old(self).current_position.cells@,
                        s.vec@,
                    );
                    assert(match item.move_item {
                        MoveItem::StrikeChain(s3) => s3.vec@.len() >= 1 && s3.vec@.last().to
                            == s.vec@.last().to,
                        MoveItem::Move(_) => false,
                    });
                },
            }
            assert(item.position.wf());
            assert(hist_item_ok(self.position_environment, item));
        }
        self.position_history.push(item);
    }
}

/// Both sides have at least one king on the board; no draw clause runs
/// without this.
pub open spec fn both_kings(p: Position) -> bool {
    p.state.get(Color::White, true) > 0 && p.state.get(Color::Black, true) > 0
}

/// Starts a clause at ply `i` if it is not already running (a marker past
/// the current ply, left over from a rollback, counts as not running).
pub open spec fn bump_marker(m: Option<usize>, i: int) -> Option<usize> {
    if m is None || m->0 > i {
        Some(i as usize)
    } else {
        m
    }
}

/// The move that produced the current ply was made by a piece that is a king
/// after the move.
pub open spec fn last_move_by_king(hist: Seq<PositionHistoryItem>) -> bool {
    let it = hist.last();
    match it.position.cells@[move_target(it.move_item)] {
        Some(p) => p.is_king,
        None => false,
    }
}

/// Repetition scan: how many history positions, read backwards from index
/// `j` down to `floor` (the ply where both sides first had kings), equal the
/// current position cell for cell.  The scan stops where the material
/// changes: a capture or promotion is irreversible, so no repeat can hide
/// behind it.
pub open spec fn scan_repeats(
    hist: Seq<PositionHistoryItem>,
    cur: Position,
    j: int,
    floor: int,
) -> int
    decreases (if j >= 0 { j + 1 } else { 0 }),
{
    if j < 0 || hist[j].position.state != cur.state {
        0
    } else {
        (if hist[j].position.cells@ == cur.cells@ {
            1int
        } else {
            0int
        }) + (if j < floor {
            0
        } else {
            scan_repeats(hist, cur, j - 1, floor)
        })
    }
}

/// One side has exactly one king and the other at least three.
pub open spec fn triangle_cond(p: Position) -> bool {
    ||| (p.state.get(Color::White, true) == 1 && p.state.get(Color::Black, true) >= 3)
    ||| (p.state.get(Color::Black, true) == 1 && p.state.get(Color::White, true) >= 3)
}

/// Total number of pieces on the board.
pub open spec fn total_pieces(p: Position) -> int {
    p.state.get(Color::Black, false) + p.state.get(Color::Black, true) + p.state.get(
        Color::White,
        false,
    ) + p.state.get(Color::White, true)
}

/// The material did not change between the previous ply and the current one.
pub open spec fn power_equal_cond(hist: Seq<PositionHistoryItem>, cur: Position) -> bool {
    hist.len() >= 2 && hist[hist.len() - 2].position.state == cur.state
}

/// The long diagonal: the first stored ray of packed square 0, the square
/// itself included.
pub open spec fn main_road_pts(env: PositionEnvironment) -> Seq<BoardPos> {
    if env.vectors_map@.len() > 0 && env.vectors_map@[0]@.len() > 0 {
        env.vectors_map@[0]@[0].points@
    } else {
        Seq::empty()
    }
}

/// Whether `color` has exactly one piece left, and it is a king.
pub open spec fn lone_king_side(p: Position, color: Color) -> bool {
    p.state.get(color, true) == 1 && p.state.get(color, false) == 0
}

/// The side that owns the lone king.
pub open spec fn lone_king_color(p: Position) -> Color {
    if lone_king_side(p, Color::Black) {
        Color::Black
    } else {
        Color::White
    }
}

/// A lone king — its side's only piece — against three pieces, and the first
/// occupied square of the long diagonal holds a piece of the lone king's
/// side (which, its side owning nothing else, is that king).
pub open spec fn main_road_cond(env: PositionEnvironment, p: Position) -> bool {
    &&& (lone_king_side(p, Color::Black) || lone_king_side(p, Color::White))
    &&& total_pieces(p) == 4
    &&& {
        let pts = main_road_pts(env);
        let k = crate::position::free_len(p.cells@, pts, 0);
        &&& k < pts.len()
        &&& (pts[k] as int) < p.cells@.len()
        &&& match p.cells@[pts[k] as int] {
            Some(pc) => pc.color == lone_king_color(p),
            None => false,
        }
    }
}

/// One evaluation of the five-clause draw tracker, after the current move
/// has been committed as the last history entry: the new tracker memory and
/// the clause that fires, if any.  Clauses are evaluated in order; markers of
/// later clauses are left untouched once one fires.
pub open spec fn draw_check_spec(
    env: PositionEnvironment,
    hist: Seq<PositionHistoryItem>,
    cur: Position,
    s: DrawState,
) -> (DrawState, Option<FinishType>) {
    let i = hist.len() as int;
    if !both_kings(cur) {
        (DrawState::spec_initial(), None)
    } else {
        let ksa = bump_marker(s.kings_start_at, i);
        let s1 = DrawState { kings_start_at: ksa, ..s };
        let cond1 = i >= 1 && last_move_by_king(hist);
        let koms = if cond1 {
            bump_marker(s1.kings_only_move_start_at, i)
        } else {
            None
        };
        let s2 = DrawState { kings_only_move_start_at: koms, ..s1 };
        if cond1 && i - koms->0 >= 15 {
            (s2, Some(FinishType::Draw1))
        } else {
            let floor = if ksa is Some {
                ksa->0 as int
            } else {
                0
            };
            let reps = scan_repeats(hist, cur, i - 1, floor);
            if reps >= 3 {
                (s2, Some(FinishType::Draw2))
            } else {
                let s3 = DrawState { repeats: reps as u32, ..s2 };
                let cond3 = triangle_cond(cur);
                let tri = if cond3 {
                    bump_marker(s3.triangle_start_at, i)
                } else {
                    None
                };
                let s4 = DrawState { triangle_start_at: tri, ..s3 };
                if cond3 && i - tri->0 >= 15 {
                    (s4, Some(FinishType::Draw3))
                } else {
                    let cond4 = power_equal_cond(hist, cur);
                    let pe = if cond4 {
                        bump_marker(s4.power_equal_start_at, i)
                    } else {
                        None
                    };
                    let s5 = DrawState { power_equal_start_at: pe, ..s4 };
                    let total = total_pieces(cur);
                    if cond4 && ((total < 4 && i - pe->0 >= 5) || (total < 6 && i - pe->0 >= 30)
                        || (total < 8 && i - pe->0 >= 60)) {
                        (s5, Some(FinishType::Draw4))
                    } else {
                        let cond5 = main_road_cond(env, cur);
                        let mr = if cond5 {
                            bump_marker(s5.main_road_start_at, i)
                        } else {
                            None
                        };
                        let s6 = DrawState { main_road_start_at: mr, ..s5 };
                        if cond5 && i - mr->0 >= 10 {
                            (s6, Some(FinishType::Draw5))
                        } else {
                            (s6, None)
                        }
                    }
                }
            }
        }
    }
}

/// Draw law, first half: the moment one side has no king, the tracker
/// forgets everything — all five markers become unset and no clause fires.
pub proof fn lemma_draw_markers_reset(
    env: PositionEnvironment,
    hist: Seq<PositionHistoryItem>,
    cur: Position,
    s: DrawState,
)
    requires
        !both_kings(cur),
    ensures
        draw_check_spec(env, hist, cur, s).0 == DrawState::spec_initial(),
        draw_check_spec(env, hist, cur, s).1 is None,
{
}

/// Draw law, second half: after a reset, re-entering the both-have-kings
/// condition restarts every clause from the current ply — each marker is
/// either still unset or set to the current ply, never to a value from an
/// earlier streak; and no streak clause can fire on the first ply of the new
/// streak (only the repetition clause, which has no streak, can).
pub proof fn lemma_draw_streak_restart(
    env: PositionEnvironment,
    hist: Seq<PositionHistoryItem>,
    cur: Position,
)
    requires
        both_kings(cur),
        hist.len() <= usize::MAX,
    ensures
        ({
            let i = hist.len() as int;
            let (s2, r) = draw_check_spec(env, hist, cur, DrawState::spec_initial());
            &&& s2.kings_start_at == Some(i as usize)
            &&& (s2.kings_only_move_start_at is None || s2.kings_only_move_start_at == Some(
                i as usize,
            ))
            &&& (s2.triangle_start_at is None || s2.triangle_start_at == Some(i as usize))
            &&& (s2.power_equal_start_at is None || s2.power_equal_start_at == Some(i as usize))
            &&& (s2.main_road_start_at is None || s2.main_road_start_at == Some(i as usize))
            &&& (r is None || r == Some(FinishType::Draw2))
        }),
{
    let i = hist.len() as int;
    let s0 = DrawState::spec_initial();
    let pair = draw_check_spec(env, hist, cur, s0);
    let s2 = pair.0;
    let r = pair.1;
    assert(bump_marker(None, i) == Some(i as usize));
    assert(s2.kings_start_at == Some(i as usize));
    assert(s2.kings_only_move_start_at is None || s2.kings_only_move_start_at == Some(i as usize));
    assert(s2.triangle_start_at is None || s2.triangle_start_at == Some(i as usize));
    assert(s2.power_equal_start_at is None || s2.power_equal_start_at == Some(i as usize));
    assert(s2.main_road_start_at is None || s2.main_road_start_at == Some(i as usize));
    assert(r is None || r == Some(FinishType::Draw2));
}

/// Starts a clause at ply `i` unless it is already running.
fn bump(m: Option<usize>, i: usize) -> (r: Option<usize>)
    ensures
        r == bump_marker(m, i as int),
        r matches Some(x) && x <= i,
{
    match m {
        None => Some(i),
        Some(x) => if x > i {
            Some(i)
        } else {
            Some(x)
        },
    }
}

impl Game {
    /// Evaluates the game-end rules once, after the current move has been
    /// committed to the history: if the side to move has no legal move it
    /// loses; otherwise the five draw clauses are checked in order against
    /// the tracker's memory, which this call updates.
    pub fn finish_check(&mut self) -> (r: Option<FinishType>)
        requires
            old(self).wf(),
            old(self).current_position.next_move is Some,
            old(self).position_history@.len() < 0x1000000,
        ensures
            final(self).wf(),
            final(self).position_environment == old(self).position_environment,
            final(self).position_history == old(self).position_history,
            final(self).current_position.cells@ == old(self).current_position.cells@,
            final(self).current_position.state == old(self).current_position.state,
            final(self).current_position.next_move == old(self).current_position.next_move,
            ({
                let env = old(self).position_environment;
                let hist = old(self).position_history@;
                let cur = old(self).current_position;
                if hist.len() == 0 {
                    r is None && final(self).draw_state == old(self).draw_state
                } else if !crate::position::has_any_move(env, cur.cells@, cur.next_move->0) {
                    final(self).draw_state == old(self).draw_state && r == Some(
                        if cur.next_move->0 is White {
                            FinishType::BlackWin
                        } else {
                            FinishType::WhiteWin
                        },
                    )
                } else {
                    (final(self).draw_state, r) == draw_check_spec(
                        env,
                        hist,
                        cur,
                        old(self).draw_state,
                    )
                }
            }),
    {
        let ghost genv = old(self).position_environment;
        let ghost ghist = old(self).position_history@;
        let ghost gcur = old(self).current_position;
        let ghost gs0 = old(self).draw_state;
        let i = self.position_history.len();
        if i == 0 {
            return None;
        }
        let color = match self.current_position.next_move {
            Some(c) => c,
            None => {
                proof {
                    assert(false);
                }
                unreached()
            },
        };
        let ml = self.current_position.get_move_list(&self.position_environment, color, false);
        if ml.list.len() == 0 {
            return Some(
                if color == Color::White {
                    FinishType::BlackWin
                } else {
                    FinishType::WhiteWin
                },
            );
        }
        let wkc = self.current_position.state.get_count(Color::White);
        let bkc = self.current_position.state.get_count(Color::Black);
        if !(wkc.king > 0 && bkc.king > 0) {
            proof {
                assert(!both_kings(gcur));
            }
            self.draw_state = DrawState::initial();
            return None;
        }
        proof {
            assert(both_kings(gcur));
        }
        // clause 1: uninterrupted king-only play
        let ksa = bump(self.draw_state.kings_start_at, i);
        self.draw_state.kings_start_at = ksa;
        proof {
            assert(hist_item_ok(genv, ghist[i - 1]));
        }
        let it_target: usize = match &self.position_history[i - 1].move_item {
            MoveItem::Move(m) => m.to,
            MoveItem::StrikeChain(st) => st.vec[st.vec.len() - 1].to,
        };
        let cond1 = match self.position_history[i - 1].position.cells[it_target] {
            Some(p) => p.is_king,
            None => false,
        };
        proof {
            assert(cond1 == last_move_by_king(ghist));
        }
        let koms = if cond1 {
            bump(self.draw_state.kings_only_move_start_at, i)
        } else {
            None
        };
        self.draw_state.kings_only_move_start_at = koms;
        if cond1 {
            let k0 = match koms {
                Some(x) => x,
                None => {
                    proof {
                        assert(false);
                    }
                    unreached()
                },
            };
            if i - k0 >= 15 {
                return Some(FinishType::Draw1);
            }
        }
        // clause 2: threefold repetition since both sides have kings
        let floor = match ksa {
            Some(x) => x,
            None => 0,
        };
        let mut reps: usize = 0;
        let mut j: usize = i - 1;
        loop
            invariant_except_break
                reps <= i - 1 - j,
                scan_repeats(ghist, gcur, i as int - 1, floor as int) == reps + scan_repeats(
                    ghist,
                    gcur,
                    j as int,
                    floor as int,
                ),
            invariant
                self.wf(),
                genv == self.position_environment,
                ghist == self.position_history@,
                i == ghist.len(),
                1 <= i < 0x1000000,
                gcur.cells@ == self.current_position.cells@,
                gcur.state == self.current_position.state,
                j <= i - 1,
            ensures
                self.wf(),
                genv == self.position_environment,
                ghist == self.position_history@,
                gcur.cells@ == self.current_position.cells@,
                gcur.state == self.current_position.state,
                reps < 0x1000000,
                reps as int == scan_repeats(ghist, gcur, i as int - 1, floor as int),
            decreases j,
        {
            let state_eq = {
                let hj = &self.position_history[j];
                hj.position.state == self.current_position.state
            };
            if !state_eq {
                proof {
                    assert(scan_repeats(ghist, gcur, j as int, floor as int) == 0);
                }
                break;
            }
            let pos_eq = {
                let hj = &self.position_history[j];
                hj.position == self.current_position
            };
            proof {
                assert(pos_eq == (ghist[j as int].position.cells@ == gcur.cells@));
            }
            let ghost cnt: int = if pos_eq {
                1
            } else {
                0
            };
            proof {
                assert(scan_repeats(ghist, gcur, j as int, floor as int) == cnt + (if j
                    < floor {
                    0int
                } else {
                    scan_repeats(ghist, gcur, j as int - 1, floor as int)
                }));
            }
            if pos_eq {
                reps = reps + 1;
            }
            if j < floor || j == 0 {
                proof {
                    if j >= floor {
                        assert(j == 0);
                        assert(scan_repeats(ghist, gcur, j as int - 1, floor as int) == 0);
                    }
                }
                break;
            }
            j = j - 1;
        }
        if reps >= 3 {
            return Some(FinishType::Draw2);
        }
        self.draw_state.repeats = reps as u32;
        // clause 3: three or more kings against a lone king
        let cond3 = (wkc.king == 1 && bkc.king >= 3) || (bkc.king == 1 && wkc.king >= 3);
        proof {
            assert(cond3 == triangle_cond(gcur));
        }
        let tri = if cond3 {
            bump(self.draw_state.triangle_start_at, i)
        } else {
            None
        };
        self.draw_state.triangle_start_at = tri;
        if cond3 {
            let t0 = match tri {
                Some(x) => x,
                None => {
                    proof {
                        assert(false);
                    }
                    unreached()
                },
            };
            if i - t0 >= 15 {
                return Some(FinishType::Draw3);
            }
        }
        // clause 4: material unchanged for too long
        let cond4 = i >= 2 && {
            let h2 = &self.position_history[i - 2];
            h2.position.state == self.current_position.state
        };
        proof {
            assert(cond4 == power_equal_cond(ghist, gcur));
        }
        let pe = if cond4 {
            bump(self.draw_state.power_equal_start_at, i)
        } else {
            None
        };
        self.draw_state.power_equal_start_at = pe;
        if cond4 {
            proof {
                crate::position::lemma_count_bounds(self.current_position.cells@, Color::Black, false);
                crate::position::lemma_count_bounds(self.current_position.cells@, Color::Black, true);
                crate::position::lemma_count_bounds(self.current_position.cells@, Color::White, false);
                crate::position::lemma_count_bounds(self.current_position.cells@, Color::White, true);
            }
            let total = self.current_position.state.get_total();
            let p0 = match pe {
                Some(x) => x,
                None => {
                    proof {
                        assert(false);
                    }
                    unreached()
                },
            };
            let n = i - p0;
            if (total < 4 && n >= 5) || (total < 6 && n >= 30) || (total < 8 && n >= 60) {
                return Some(FinishType::Draw4);
            }
        }
        // clause 5: a lone king held on the long diagonal
        proof {
            crate::position::lemma_count_bounds(self.current_position.cells@, Color::Black, false);
            crate::position::lemma_count_bounds(self.current_position.cells@, Color::Black, true);
            crate::position::lemma_count_bounds(self.current_position.cells@, Color::White, false);
            crate::position::lemma_count_bounds(self.current_position.cells@, Color::White, true);
        }
        let total = self.current_position.state.get_total();
        let mut cond5 = false;
        let black_lone = bkc.king == 1 && bkc.simple == 0;
        let white_lone = wkc.king == 1 && wkc.simple == 0;
        if (black_lone || white_lone) && total == 4 {
            let lone = if black_lone {
                Color::Black
            } else {
                Color::White
            };
            proof {
                assert(lone == lone_king_color(gcur));
                assert(self.current_position.cells@.len() >= 1) by {
                    assert(total_pieces(gcur) == 4);
                    crate::position::lemma_count_bounds(gcur.cells@, Color::Black, true);
                    crate::position::lemma_count_bounds(gcur.cells@, Color::White, true);
                }
                crate::position_environment::lemma_main_road(genv);
            }
            let pts = &self.position_environment.vectors_map[0][0].points;
            let ghost gpts = main_road_pts(genv);
            proof {
                assert(pts@ == gpts);
                crate::position::lemma_free_len(gcur.cells@, gpts, 0);
            }
            let npts = pts.len();
            let mut k: usize = 0;
            loop
                invariant_except_break
                    cond5 == false,
                invariant
                    self.wf(),
                    genv == self.position_environment,
                    gcur.cells@ == self.current_position.cells@,
                    gpts == main_road_pts(genv),
                    pts@ == gpts,
                    npts == gpts.len(),
                    lone == lone_king_color(gcur),
                    forall|q: int| 0 <= q < gpts.len() ==> (#[trigger] gpts[q]) < gcur.cells@.len(),
                    k <= npts,
                    crate::position::free_len(gcur.cells@, gpts, 0) == k as int
                        + crate::position::free_len(gcur.cells@, gpts, k as int),
                ensures
                    self.wf(),
                    genv == self.position_environment,
                    gcur.cells@ == self.current_position.cells@,
                    cond5 == ({
                        let kk = crate::position::free_len(gcur.cells@, gpts, 0);
                        &&& kk < gpts.len()
                        &&& (gpts[kk] as int) < gcur.cells@.len()
                        &&& match gcur.cells@[gpts[kk] as int] {
                            Some(pc) => pc.color == lone_king_color(gcur),
                            None => false,
                        }
                    }),
                decreases npts - k,
            {
                if k >= npts {
                    proof {
                        assert(crate::position::free_len(gcur.cells@, gpts, k as int) == 0);
                    }
                    break;
                }
                let cell = self.current_position.cells[pts[k]];
                match cell {
                    Some(pc) => {
                        proof {
                            assert(crate::position::free_len(gcur.cells@, gpts, k as int) == 0);
                        }
                        cond5 = pc.color == lone;
                        break;
                    },
                    None => {
                        k = k + 1;
                    },
                }
            }
            proof {
                assert(cond5 == main_road_cond(genv, gcur));
            }
        } else {
            proof {
                assert(!main_road_cond(genv, gcur));
            }
        }
        let mr = if cond5 {
            bump(self.draw_state.main_road_start_at, i)
        } else {
            None
        };
        self.draw_state.main_road_start_at = mr;
        if cond5 {
            let m0 = match mr {
                Some(x) => x,
                None => {
                    proof {
                        assert(false);
                    }
                    unreached()
                },
            };
            if i - m0 >= 10 {
                return Some(FinishType::Draw5);
            }
        }
        None
    }
}

/// The move belongs to the given side: the square it starts from holds a
/// piece of that colour on the given board.
pub open spec fn move_of_side(
    env: PositionEnvironment,
    cells: Seq<Option<crate::piece::Piece>>,
    color: Color,
    item: MoveItem,
) -> bool {
    match item {
        MoveItem::Move(m) => cells[m.from as int] matches Some(pc) && pc.color == color,
        MoveItem::StrikeChain(s) => s.vec@.len() >= 1 && (cells[s.vec@[0].from as int] matches Some(
            pc,
        ) && pc.color == color),
    }
}

/// The search's pick: the history item of the chosen move (position snapshot
/// plus the move) and the value found for it.
#[derive(Debug)]
pub struct BestPos {
    pub pos: Option<PositionHistoryItem>,
    pub deep_eval: i32,
}

impl BestPos {
    /// The chosen move.
    pub fn get_move_item(&self) -> (r: MoveItem)
        requires
            self.pos is Some,
        ensures
            move_items_match(r, self.pos->0.move_item),
    {
        match &self.pos {
            Some(it) => clone_move_item(&it.move_item),
            None => {
                proof {
                    assert(false);
                }
                unreached()
            },
        }
    }
}

impl Game {
    /// Applies the move a search picked and commits it to the history: the
    /// live board becomes that move applied, and the new history entry
    /// records the resulting position and the move, jump for jump.
    pub fn make_move_by_pos_item(&mut self, pos: &BestPos)
        requires
            old(self).wf(),
            pos.pos is Some,
            valid_move(
                old(self).position_environment,
                old(self).current_position.cells@,
                pos.pos->0.move_item,
            ),
        ensures
            final(self).wf(),
            final(self).position_environment == old(self).position_environment,
            final(self).draw_state == old(self).draw_state,
            final(self).current_position.cells@ == apply_move_spec(
                old(self).position_environment,
                old(self).current_position.cells@,
                pos.pos->0.move_item,
            ),
            final(self).position_history@.len() == old(self).position_history@.len() + 1,
            forall|k: int|
                0 <= k < old(self).position_history@.len() ==> final(self).position_history@[k]
                    == old(self).position_history@[k],
            final(self).position_history@.last().position.cells@
                == final(self).current_position.cells@,
            match (final(self).position_history@.last().move_item, pos.pos->0.move_item) {
                (MoveItem::Move(x), MoveItem::Move(y)) => x == y,
                (MoveItem::StrikeChain(s1), MoveItem::StrikeChain(s2)) => crate::position::hops_match(
                    s1.vec@,
                    s2.vec@,
                ),
                _ => false,
            },
            final(self).current_position.next_move == flip_turn(
                old(self).current_position.next_move,
            ),
    {
        let mut mi = pos.get_move_item();
        let ghost mi0 = mi;
        let ghost pick = pos.pos->0.move_item;
        proof {
            crate::position::lemma_valid_move_match(
                self.position_environment,
                self.current_position.cells@,
                mi,
                pick,
            );
        }
        self.make_move_by_move_item(&mut mi);
        proof {
            match (mi0, pick) {
                (MoveItem::Move(x), MoveItem::Move(y)) => {},
                (MoveItem::StrikeChain(s1), MoveItem::StrikeChain(s2)) => {
                    crate::position::lemma_chain_congruence(
                        self.position_environment,
                        old(self).current_position.cells@,
                        s1.vec@,
                        s2.vec@,
                    );
                },
                _ => {
                    assert(false);
                },
            }
            assert(apply_move_spec(
                self.position_environment,
                old(self).current_position.cells@,
                mi0,
            ) == apply_move_spec(
                self.position_environment,
                old(self).current_position.cells@,
                pick,
            ));
            let last = self.position_history@.last();
            match (last.move_item, pick) {
                (MoveItem::Move(x), MoveItem::Move(y)) => {},
                (MoveItem::StrikeChain(s1), MoveItem::StrikeChain(s2)) => {
                    match (mi0, mi) {
                        (MoveItem::StrikeChain(sb), MoveItem::StrikeChain(sa)) => {
                            assert(crate::position::hops_match(s1.vec@, sa.vec@));
                            assert(sa.vec@ == sb.vec@);
                            assert(crate::position::hops_match(sb.vec@, s2.vec@));
                            assert forall|k: int|
                                0 <= k < s1.vec@.len() implies (#[trigger] s1.vec@[k]).from == (
                            #[trigger] s2.vec@[k]).from && s1.vec@[k].take == s2.vec@[k].take
                                && s1.vec@[k].to == s2.vec@[k].to && s1.vec@[k].king_move
                                == s2.vec@[k].king_move by {
                                assert(s1.vec@[k].from == sa.vec@[k].from);
                                assert(sb.vec@[k].from == s2.vec@[k].from);
                                assert(s1.vec@[k].take == sa.vec@[k].take);
                                assert(sb.vec@[k].take == s2.vec@[k].take);
                                assert(s1.vec@[k].to == sa.vec@[k].to);
                                assert(sb.vec@[k].to == s2.vec@[k].to);
                                assert(s1.vec@[k].king_move == sa.vec@[k].king_move);
                                assert(sb.vec@[k].king_move == s2.vec@[k].king_move);
                            }
                        },
                        _ => {
                            assert(false);
                        },
                    }
                },
                _ => {
                    assert(false);
                },
            }
        }
    }

    /// Fixed-depth minimax with alpha-beta pruning.  `best_white` and
    /// `best_black` are the bounds established so far; children are visited
    /// best first (by static evaluation) for the side to move, and a branch
    /// with fewer than three replies earns a one-ply extension.  Returns a
    /// legal move of the current position together with its value; the
    /// position, history and draw memory are left exactly as found.
    pub fn best_move(
        &mut self,
        max_depth: i16,
        best_white: i32,
        best_black: i32,
        depth: i16,
    ) -> (r: BestPos)
        requires
            old(self).wf(),
            old(self).current_position.next_move is Some,
            crate::position::has_any_move(
                old(self).position_environment,
                old(self).current_position.cells@,
                old(self).current_position.next_move->0,
            ),
            0 <= depth <= max_depth <= 30000,
            old(self).position_history@.len() + max_depth - depth + 64 < 0x1000000,
        ensures
            final(self).wf(),
            final(self).position_environment == old(self).position_environment,
            final(self).position_history@ == old(self).position_history@,
            final(self).current_position.cells@ == old(self).current_position.cells@,
            final(self).current_position.state == old(self).current_position.state,
            final(self).current_position.next_move == old(self).current_position.next_move,
            final(self).draw_state == old(self).draw_state,
            r.pos is Some,
            valid_move(
                old(self).position_environment,
                old(self).current_position.cells@,
                r.pos->0.move_item,
            ),
            crate::position::has_any_strike(
                old(self).position_environment,
                old(self).current_position.cells@,
                old(self).current_position.next_move->0,
            ) ==> r.pos->0.move_item is StrikeChain,
            move_of_side(
                old(self).position_environment,
                old(self).current_position.cells@,
                old(self).current_position.next_move->0,
                r.pos->0.move_item,
            ),
            -1000000000 <= r.deep_eval <= 1000000000,
    {
        self.best_move_search(max_depth, best_white, best_black, depth, 16)
    }

    /// The recursive search behind [`Game::best_move`]; `ext` bounds how many
    /// shallow-branch extensions the line may still earn, so the recursion
    /// terminates even on long forced sequences.
    fn best_move_search(
        &mut self,
        max_depth: i16,
        best_white: i32,
        best_black: i32,
        depth: i16,
        ext: u16,
    ) -> (r: BestPos)
        requires
            old(self).wf(),
            old(self).current_position.next_move is Some,
            crate::position::has_any_move(
                old(self).position_environment,
                old(self).current_position.cells@,
                old(self).current_position.next_move->0,
            ),
            0 <= depth <= max_depth,
            max_depth + ext <= 30080,
            ext <= 16,
            old(self).position_history@.len() + max_depth - depth + ext + 2 < 0x1000000,
        ensures
            final(self).wf(),
            final(self).position_environment == old(self).position_environment,
            final(self).position_history@ == old(self).position_history@,
            final(self).current_position.cells@ == old(self).current_position.cells@,
            final(self).current_position.state == old(self).current_position.state,
            final(self).current_position.next_move == old(self).current_position.next_move,
            final(self).draw_state == old(self).draw_state,
            r.pos is Some,
            valid_move(
                old(self).position_environment,
                old(self).current_position.cells@,
                r.pos->0.move_item,
            ),
            crate::position::has_any_strike(
                old(self).position_environment,
                old(self).current_position.cells@,
                old(self).current_position.next_move->0,
            ) ==> r.pos->0.move_item is StrikeChain,
            move_of_side(
                old(self).position_environment,
                old(self).current_position.cells@,
                old(self).current_position.next_move->0,
                r.pos->0.move_item,
            ),
            -1000000000 <= r.deep_eval <= 1000000000,
        decreases max_depth - depth + ext,
    {
        let ghost genv = old(self).position_environment;
        let ghost gcells = old(self).current_position.cells@;
        let ds = self.draw_state;
        let color = match self.current_position.next_move {
            Some(c) => c,
            None => {
                proof {
                    assert(false);
                }
                unreached()
            },
        };
        let move_list = self.get_move_list(false);
        let n = move_list.list.len();
        proof {
            assert(n >= 1);
        }
        // One-ply-ahead static evaluation of every child, for move ordering.
        let mut evals: Vec<i32> = Vec::new();
        let mut idx: usize = 0;
        while idx < n
            invariant
                self.wf(),
                old(self).wf(),
                genv == old(self).position_environment,
                gcells == old(self).current_position.cells@,
                ds == old(self).draw_state,
                genv == self.position_environment,
                gcells == self.current_position.cells@,
                self.current_position.state == old(self).current_position.state,
                self.current_position.next_move == old(self).current_position.next_move,
                self.position_history@ == old(self).position_history@,
                self.draw_state == ds,
                n == move_list.list@.len(),
                idx <= n,
                evals@.len() == idx,
                forall|k: int| 0 <= k < idx ==> -1000000000 <= #[trigger] evals@[k] <= 1000000000,
                forall|k: int|
                    0 <= k < n ==> valid_move(genv, gcells, #[trigger] move_list.list@[k]),
            decreases n - idx,
        {
            let mut mi = clone_move_item(&move_list.list[idx]);
            proof {
                crate::position::lemma_valid_move_match(
                    genv,
                    gcells,
                    mi,
                    move_list.list@[idx as int],
                );
            }
            let item = self.current_position.make_move_and_get_position(
                &self.position_environment,
                &mut mi,
            );
            let e = self.current_position.evaluate(&self.position_environment);
            self.current_position.unmake_move(&self.position_environment, &mi);
            proof {
                lemma_state_from_counts(*old(self), *self);
            }
            evals.push(e);
            idx = idx + 1;
        }
        // Sort child indices by evaluation: best first for the side to move.
        let mut order: Vec<usize> = Vec::new();
        let mut t: usize = 0;
        while t < n
            invariant
                t <= n,
                order@.len() == t,
                forall|k: int| 0 <= k < t ==> (#[trigger] order@[k]) < n,
            decreases n - t,
        {
            order.push(t);
            t = t + 1;
        }
        let mut a: usize = 1;
        while a < n
            invariant
                n == evals@.len(),
                order@.len() == n,
                forall|k: int| 0 <= k < n ==> (#[trigger] order@[k]) < n,
                forall|k: int| 0 <= k < n ==> -1000000000 <= #[trigger] evals@[k] <= 1000000000,
                a <= n || n == 0,
            decreases n - a,
        {
            let mut b: usize = a;
            loop
                invariant
                    n == evals@.len(),
                    order@.len() == n,
                    forall|k: int| 0 <= k < n ==> (#[trigger] order@[k]) < n,
                    forall|k: int|
                        0 <= k < n ==> -1000000000 <= #[trigger] evals@[k] <= 1000000000,
                    b <= a < n,
                ensures
                    order@.len() == n,
                    forall|k: int| 0 <= k < n ==> (#[trigger] order@[k]) < n,
                decreases b,
            {
                if b == 0 {
                    break;
                }
                let ob1 = order[b - 1];
                let ob = order[b];
                let k1 = if color == Color::White {
                    -evals[ob1]
                } else {
                    evals[ob1]
                };
                let k2 = if color == Color::White {
                    -evals[ob]
                } else {
                    evals[ob]
                };
                if !(k1 > k2) {
                    break;
                }
                let x = order[b - 1];
                let y = order[b];
                order[b - 1] = y;
                order[b] = x;
                b = b - 1;
            }
            a = a + 1;
        }
        // Shallow branches get one extra ply, within the extension budget.
        let mut md = max_depth;
        let mut ext2 = ext;
        if n < 3 && ext > 0 {
            md = max_depth + 1;
            ext2 = ext - 1;
        }
        if depth >= md {
            // Leaf: the best child by static evaluation.
            let oi = order[n - 1];
            let mut mi = clone_move_item(&move_list.list[oi]);
            let ghost mi0 = mi;
            proof {
                crate::position::lemma_valid_move_match(genv, gcells, mi, move_list.list@[oi as int]);
            }
            let item = self.current_position.make_move_and_get_position(
                &self.position_environment,
                &mut mi,
            );
            self.current_position.unmake_move(&self.position_environment, &mi);
            proof {
                lemma_state_from_counts(*old(self), *self);
                lemma_applied_move_valid(
                    genv,
                    gcells,
                    item.move_item,
                    mi,
                    mi0,
                    move_list.list@[oi as int],
                );
                assert(move_of_side(genv, gcells, color, item.move_item));
                assert(crate::position::has_any_strike(genv, gcells, color)
                    ==> item.move_item is StrikeChain);
            }
            let ev = evals[oi];
            self.draw_state = ds;
            return BestPos { pos: Some(item), deep_eval: ev };
        }
        let mut best_pos: BestPos = BestPos {
            pos: None,
            deep_eval: if color == Color::White {
                -2000000000
            } else {
                2000000000
            },
        };
        let mut bw = best_white;
        let mut bb = best_black;
        let mut t2: usize = 0;
        while t2 < n
            invariant
                self.wf(),
                old(self).wf(),
                genv == old(self).position_environment,
                gcells == old(self).current_position.cells@,
                ds == old(self).draw_state,
                genv == self.position_environment,
                gcells == self.current_position.cells@,
                self.current_position.state == old(self).current_position.state,
                self.current_position.next_move == old(self).current_position.next_move,
                self.current_position.next_move == Some(color),
                self.position_history@ == old(self).position_history@,
                n == move_list.list@.len() == evals@.len(),
                order@.len() == n,
                forall|k: int| 0 <= k < n ==> (#[trigger] order@[k]) < n,
                forall|k: int|
                    0 <= k < n ==> valid_move(genv, gcells, #[trigger] move_list.list@[k]),
                forall|k: int|
                    0 <= k < n ==> move_of_side(genv, gcells, color, #[trigger] move_list.list@[k]),
                crate::position::has_any_strike(genv, gcells, color) ==> forall|k: int|
                    0 <= k < n ==> (#[trigger] move_list.list@[k]) is StrikeChain,
                t2 <= n,
                1 <= n,
                0 <= depth < md,
                md + ext2 <= max_depth + ext <= 30080,
                ext2 <= 16,
                old(self).position_history@.len() + md - depth + ext2 + 2 < 0x1000000,
                best_pos.pos is Some ==> valid_move(genv, gcells, best_pos.pos->0.move_item)
                    && -1000000000 <= best_pos.deep_eval <= 1000000000 && move_of_side(
                    genv,
                    gcells,
                    color,
                    best_pos.pos->0.move_item,
                ) && (crate::position::has_any_strike(genv, gcells, color)
                    ==> best_pos.pos->0.move_item is StrikeChain),
                best_pos.pos is None ==> best_pos.deep_eval == (if color == Color::White {
                    -2000000000int
                } else {
                    2000000000int
                }),
                t2 >= 1 ==> best_pos.pos is Some,
            decreases n - t2,
        {
            let oi = order[t2];
            let mut mi = clone_move_item(&move_list.list[oi]);
            let ghost mi0 = mi;
            proof {
                crate::position::lemma_valid_move_match(genv, gcells, mi, move_list.list@[oi as int]);
            }
            let item = self.current_position.make_move_and_get_position(
                &self.position_environment,
                &mut mi,
            );
            proof {
                let omi = move_list.list@[oi as int];
                match omi {
                    MoveItem::Move(m) => {},
                    MoveItem::StrikeChain(sc) => {
                        lemma_chain_valid_last(genv, gcells, sc.vec@);
                    },
                }
                lemma_applied_move_valid(genv, gcells, item.move_item, mi, mi0, omi);
                assert(hist_item_ok(genv, item));
            }
            self.position_history.push(item);
            let finish = self.finish_check();
            if finish.is_some() {
                let item2 = match self.position_history.pop() {
                    Some(x) => x,
                    None => {
                        proof {
                            assert(false);
                        }
                        unreached()
                    },
                };
                self.current_position.unmake_move(&self.position_environment, &mi);
                proof {
                    lemma_state_from_counts(*old(self), *self);
                    assert(self.position_history@ =~= old(self).position_history@);
                    assert(item2 == item);
                    lemma_applied_move_valid(
                        genv,
                        gcells,
                        item2.move_item,
                        mi,
                        mi0,
                        move_list.list@[oi as int],
                    );
                    assert(move_of_side(genv, gcells, color, item2.move_item));
                    assert(crate::position::has_any_strike(genv, gcells, color)
                        ==> item2.move_item is StrikeChain);
                }
                let ev = item2.position.evaluate(&self.position_environment);
                self.draw_state = ds;
                return BestPos { pos: Some(item2), deep_eval: ev };
            }
            proof {
                assert(crate::position::has_any_move(
                    genv,
                    self.current_position.cells@,
                    self.current_position.next_move->0,
                ));
            }
            let child = self.best_move_search(md, bw, bb, depth + 1, ext2);
            let deep = child.deep_eval;
            let item2 = match self.position_history.pop() {
                Some(x) => x,
                None => {
                    proof {
                        assert(false);
                    }
                    unreached()
                },
            };
            self.current_position.unmake_move(&self.position_environment, &mi);
            proof {
                lemma_state_from_counts(*old(self), *self);
                assert(self.position_history@ =~= old(self).position_history@);
                assert(item2 == item);
                lemma_applied_move_valid(
                    genv,
                    gcells,
                    item2.move_item,
                    mi,
                    mi0,
                    move_list.list@[oi as int],
                );
                assert(move_of_side(genv, gcells, color, item2.move_item));
                assert(crate::position::has_any_strike(genv, gcells, color)
                    ==> item2.move_item is StrikeChain);
            }
            if color == Color::White {
                if bb < deep {
                    self.draw_state = ds;
                    return BestPos { pos: Some(item2), deep_eval: deep };
                }
                if bw < deep {
                    bw = deep;
                }
                if best_pos.deep_eval < deep {
                    best_pos = BestPos { pos: Some(item2), deep_eval: deep };
                }
            } else {
                if bw > deep {
                    self.draw_state = ds;
                    return BestPos { pos: Some(item2), deep_eval: deep };
                }
                if bb > deep {
                    bb = deep;
                }
                if best_pos.deep_eval > deep {
                    best_pos = BestPos { pos: Some(item2), deep_eval: deep };
                }
            }
            t2 = t2 + 1;
        }
        self.draw_state = ds;
        best_pos
    }

    /// Searches five plies ahead and returns the engine's pick for the side
    /// to move.
    pub fn get_best_move_rust(&mut self) -> (r: BestPos)
        requires
            old(self).wf(),
            old(self).current_position.next_move is Some,
            crate::position::has_any_move(
                old(self).position_environment,
                old(self).current_position.cells@,
                old(self).current_position.next_move->0,
            ),
            old(self).position_history@.len() + 128 < 0x1000000,
        ensures
            final(self).wf(),
            final(self).position_environment == old(self).position_environment,
            final(self).position_history@ == old(self).position_history@,
            final(self).current_position.cells@ == old(self).current_position.cells@,
            final(self).current_position.state == old(self).current_position.state,
            final(self).current_position.next_move == old(self).current_position.next_move,
            final(self).draw_state == old(self).draw_state,
            r.pos is Some,
            valid_move(
                old(self).position_environment,
                old(self).current_position.cells@,
                r.pos->0.move_item,
            ),
            crate::position::has_any_strike(
                old(self).position_environment,
                old(self).current_position.cells@,
                old(self).current_position.next_move->0,
            ) ==> r.pos->0.move_item is StrikeChain,
            move_of_side(
                old(self).position_environment,
                old(self).current_position.cells@,
                old(self).current_position.next_move->0,
                r.pos->0.move_item,
            ),
    {
        self.best_move(5, i32::MIN, i32::MAX, 0)
    }
}

/// The move recorded in a search snapshot is as valid as the generated move
/// it was produced from: cloning and applying keep the jumps square for
/// square.
proof fn lemma_applied_move_valid(
    env: PositionEnvironment,
    cells: Seq<Option<crate::piece::Piece>>,
    applied: MoveItem,
    after: MoveItem,
    before: MoveItem,
    orig: MoveItem,
)
    requires
        valid_move(env, cells, orig),
        move_items_match(before, orig),
        (match (before, after) {
            (MoveItem::Move(x), MoveItem::Move(y)) => x == y,
            (MoveItem::StrikeChain(s), MoveItem::StrikeChain(s2)) => s2.vec == s.vec,
            _ => false,
        }),
        move_items_match(applied, after),
    ensures
        valid_move(env, cells, applied),
        match (applied, orig) {
            (MoveItem::Move(x), MoveItem::Move(y)) => x == y,
            (MoveItem::StrikeChain(s1), MoveItem::StrikeChain(s2)) => crate::position::hops_match(
                s1.vec@,
                s2.vec@,
            ),
            _ => false,
        },
{
    match (applied, orig) {
        (MoveItem::Move(x), MoveItem::Move(y)) => {
            assert(x == y);
        },
        (MoveItem::StrikeChain(s1), MoveItem::StrikeChain(s2)) => {
            match (before, after) {
                (MoveItem::StrikeChain(sb), MoveItem::StrikeChain(sa)) => {
                    assert(crate::position::hops_match(s1.vec@, sa.vec@));
                    assert(sa.vec@ == sb.vec@);
                    assert(crate::position::hops_match(sb.vec@, s2.vec@));
                    assert forall|k: int|
                        0 <= k < s1.vec@.len() implies (#[trigger] s1.vec@[k]).from == (
                    #[trigger] s2.vec@[k]).from && s1.vec@[k].take == s2.vec@[k].take
                        && s1.vec@[k].to == s2.vec@[k].to && s1.vec@[k].king_move
                        == s2.vec@[k].king_move by {
                        assert(s1.vec@[k].from == sa.vec@[k].from);
                        assert(sb.vec@[k].from == s2.vec@[k].from);
                        assert(s1.vec@[k].take == sa.vec@[k].take);
                        assert(sb.vec@[k].take == s2.vec@[k].take);
                        assert(s1.vec@[k].to == sa.vec@[k].to);
                        assert(sb.vec@[k].to == s2.vec@[k].to);
                        assert(s1.vec@[k].king_move == sa.vec@[k].king_move);
                        assert(sb.vec@[k].king_move == s2.vec@[k].king_move);
                    }
                    assert(crate::position::hops_match(s1.vec@, s2.vec@));
                    crate::position::lemma_valid_move_hops(env, cells, applied, orig);
                },
                _ => {
                    assert(false);
                },
            }
        },
        _ => {
            assert(false);
        },
    }
}

/// Two game states whose boards agree cell for cell have the same aggregate
/// counts, so their stored material is the same.
proof fn lemma_state_from_counts(a: Game, b: Game)
    requires
        a.current_position.counts_ok(),
        b.current_position.counts_ok(),
        a.current_position.cells@ == b.current_position.cells@,
    ensures
        a.current_position.state == b.current_position.state,
{
    assert(a.current_position.state.get(Color::Black, false) == b.current_position.state.get(
        Color::Black,
        false,
    ));
    assert(a.current_position.state.get(Color::Black, true) == b.current_position.state.get(
        Color::Black,
        true,
    ));
    assert(a.current_position.state.get(Color::White, false) == b.current_position.state.get(
        Color::White,
        false,
    ));
    assert(a.current_position.state.get(Color::White, true) == b.current_position.state.get(
        Color::White,
        true,
    ));
}

/// The repetition scan reads only the current position's cells and
/// material, so two positions that agree on those scan alike.
proof fn lemma_scan_repeats_congruence(
    hist: Seq<PositionHistoryItem>,
    a: Position,
    b: Position,
    j: int,
    floor: int,
)
    requires
        a.cells@ == b.cells@,
        a.state == b.state,
    ensures
        scan_repeats(hist, a, j, floor) == scan_repeats(hist, b, j, floor),
    decreases (if j >= 0 { j + 1 } else { 0 }),
{
    if !(j < 0 || hist[j].position.state != a.state) {
        if j >= floor {
            lemma_scan_repeats_congruence(hist, a, b, j - 1, floor);
        }
    }
}

/// The draw tracker reads only the current position's cells, material and
/// side to move, so two positions that agree on those are checked alike.
proof fn lemma_finish_outcome_congruence(
    env: PositionEnvironment,
    hist: Seq<PositionHistoryItem>,
    a: Position,
    b: Position,
    s: DrawState,
)
    requires
        a.cells@ == b.cells@,
        a.state == b.state,
        a.next_move == b.next_move,
    ensures
        draw_check_spec(env, hist, a, s) == draw_check_spec(env, hist, b, s),
        finish_outcome(env, hist, a, s) == finish_outcome(env, hist, b, s),
{
    lemma_scan_repeats_congruence(hist, a, b, hist.len() as int - 1, (if bump_marker(
        s.kings_start_at,
        hist.len() as int,
    ) is Some {
        bump_marker(s.kings_start_at, hist.len() as int)->0 as int
    } else {
        0
    }));
}

/// How a move submitted by the front end fared: not found among the legal
/// moves, applied, or applied and the game ended.
#[derive(Copy, Clone, Debug)]
pub enum MoveAttempt {
    NotFound,
    Applied,
    Finished(FinishType),
}

/// Whether a submitted square path spells out exactly this move: first the
/// origin, then each landing square in order.
pub open spec fn path_matches(item: MoveItem, path: Seq<BoardPos>) -> bool {
    match item {
        MoveItem::Move(m) => path.len() == 2 && path[0] == m.from && path[1] == m.to,
        MoveItem::StrikeChain(s) => path.len() == s.vec@.len() + 1 && (forall|k: int|
            0 <= k < s.vec@.len() ==> (#[trigger] s.vec@[k]).from == path[k] && s.vec@[k].to
                == path[k + 1]),
    }
}

/// What [`Game::finish_check`] reports for a given game state.
pub open spec fn finish_outcome(
    env: PositionEnvironment,
    hist: Seq<PositionHistoryItem>,
    cur: Position,
    s: DrawState,
) -> Option<FinishType> {
    if hist.len() == 0 {
        None
    } else if !crate::position::has_any_move(env, cur.cells@, cur.next_move->0) {
        Some(
            if cur.next_move->0 is White {
                FinishType::BlackWin
            } else {
                FinishType::WhiteWin
            },
        )
    } else {
        draw_check_spec(env, hist, cur, s).1
    }
}

/// Whether the submitted path was matched and committed: the final board is
/// the matched move applied to the old one, and the history grew by that one
/// move.
pub open spec fn front_move_applied(pre: Game, post: Game, path: Seq<BoardPos>) -> bool {
    exists|item: MoveItem|
        #[trigger] valid_move(pre.position_environment, pre.current_position.cells@, item)
            && path_matches(item, path) && post.current_position.cells@ == apply_move_spec(
            pre.position_environment,
            pre.current_position.cells@,
            item,
        ) && post.position_history@.len() == pre.position_history@.len() + 1
            && post.current_position.next_move == flip_turn(pre.current_position.next_move)
}

/// A path that is empty, starts off the board, or starts on an empty square
/// matches no legal quiet move: a quiet move's path has exactly two entries
/// and begins on the moving piece's square.
proof fn lemma_no_quiet_match(
    env: PositionEnvironment,
    cells: Seq<Option<crate::piece::Piece>>,
    color: Color,
    path: Seq<BoardPos>,
)
    requires
        path.len() == 0 || (path[0] as int) >= cells.len() || cells[path[0] as int] is None,
    ensures
        !(exists|m: crate::moves::QuietMove|
            crate::position::quiet_move_legal(env, cells, color, m) && path_matches(
                MoveItem::Move(m),
                path,
            )),
{
    if exists|m: crate::moves::QuietMove|
        crate::position::quiet_move_legal(env, cells, color, m) && path_matches(
            MoveItem::Move(m),
            path,
        ) {
        let m = choose|m: crate::moves::QuietMove|
            crate::position::quiet_move_legal(env, cells, color, m) && path_matches(
                MoveItem::Move(m),
                path,
            );
        assert(path.len() == 2 && path[0] == m.from);
        assert(false);
    }
}

/// Whether one move's path spells out the given squares.
fn path_match_exec(item: &MoveItem, path: &Vec<BoardPos>) -> (r: bool)
    ensures
        r == path_matches(*item, path@),
{
    match item {
        MoveItem::Move(m) => path.len() == 2 && path[0] == m.from && path[1] == m.to,
        MoveItem::StrikeChain(s) => {
            let nh = s.vec.len();
            if path.len() < 1 || path.len() - 1 != nh {
                return false;
            }
            let mut k: usize = 0;
            while k < nh
                invariant
                    *item == MoveItem::StrikeChain(*s),
                    nh == s.vec@.len(),
                    path@.len() == nh + 1,
                    k <= nh,
                    forall|q: int|
                        0 <= q < k ==> (#[trigger] s.vec@[q]).from == path@[q] && s.vec@[q].to
                            == path@[q + 1],
                decreases nh - k,
            {
                let h = &s.vec[k];
                if path[k] != h.from || path[k + 1] != h.to {
                    proof {
                        if path_matches(*item, path@) {
                            assert((s.vec@[k as int]).from == path@[k as int] && s.vec@[
                                k as int].to == path@[k as int + 1]);
                            assert(false);
                        }
                    }
                    return false;
                }
                k = k + 1;
            }
            true
        },
    }
}

impl Game {
    /// Matches a square path submitted by the front end against the legal
    /// moves of the side to move; if one matches, applies it, commits it to
    /// the history, and reports whether the game thereby ended.  A path that
    /// matches no legal move is rejected and changes nothing.
    pub fn make_move_for_front(&mut self, pos_list: &Vec<BoardPos>) -> (r: MoveAttempt)
        requires
            old(self).wf(),
            old(self).current_position.next_move is Some,
            old(self).position_history@.len() + 2 < 0x1000000,
        ensures
            final(self).wf(),
            final(self).position_environment == old(self).position_environment,
            match r {
                MoveAttempt::NotFound => final(self).position_history == old(
                    self,
                ).position_history && final(self).current_position.cells@ == old(
                    self,
                ).current_position.cells@ && final(self).current_position.next_move == old(
                    self,
                ).current_position.next_move && final(self).draw_state == old(self).draw_state
                    && !(exists|m: crate::moves::QuietMove|
                    crate::position::quiet_move_legal(
                        old(self).position_environment,
                        old(self).current_position.cells@,
                        old(self).current_position.next_move->0,
                        m,
                    ) && path_matches(MoveItem::Move(m), pos_list@)),
                MoveAttempt::Applied => front_move_applied(*old(self), *final(self), pos_list@)
                    && finish_outcome(
                    old(self).position_environment,
                    final(self).position_history@,
                    final(self).current_position,
                    old(self).draw_state,
                ) is None,
                MoveAttempt::Finished(f) => front_move_applied(*old(self), *final(self), pos_list@)
                    && finish_outcome(
                    old(self).position_environment,
                    final(self).position_history@,
                    final(self).current_position,
                    old(self).draw_state,
                ) == Some(f),
            },
    {
        let ghost genv = old(self).position_environment;
        let ghost gcells = old(self).current_position.cells@;
        let ghost gcolor = old(self).current_position.next_move->0;
        if pos_list.len() == 0 {
            proof {
                lemma_no_quiet_match(genv, gcells, gcolor, pos_list@);
            }
            return MoveAttempt::NotFound;
        }
        let p0 = pos_list[0];
        if p0 >= self.current_position.cells.len() {
            proof {
                lemma_no_quiet_match(genv, gcells, gcolor, pos_list@);
            }
            return MoveAttempt::NotFound;
        }
        let c0 = self.current_position.cells[p0];
        if c0.is_none() {
            proof {
                lemma_no_quiet_match(genv, gcells, gcolor, pos_list@);
            }
            return MoveAttempt::NotFound;
        }
        let move_list = self.get_move_list(true);
        let n = move_list.list.len();
        let mut t: usize = 0;
        while t < n
            invariant
                self.wf(),
                old(self).wf(),
                genv == old(self).position_environment,
                gcells == old(self).current_position.cells@,
                genv == self.position_environment,
                gcells == self.current_position.cells@,
                self.current_position.state == old(self).current_position.state,
                self.current_position.next_move == old(self).current_position.next_move,
                self.current_position.next_move is Some,
                self.position_history == old(self).position_history,
                self.draw_state == old(self).draw_state,
                self.position_history@.len() + 2 < 0x1000000,
                gcolor == old(self).current_position.next_move->0,
                n == move_list.list@.len(),
                t <= n,
                forall|k: int|
                    0 <= k < n ==> valid_move(genv, gcells, #[trigger] move_list.list@[k]),
                forall|k: int|
                    0 <= k < t ==> !path_matches(#[trigger] move_list.list@[k], pos_list@),
                !crate::position::has_any_strike(genv, gcells, gcolor) ==> forall|q: int, j: int|
                    0 <= q < gcells.len() && (gcells[q] matches Some(pc) && pc.color == gcolor) && 0
                        <= j < crate::position::spec_quiet_moves(genv, gcells, q).len()
                        ==> move_list.list@.contains(
                        #[trigger] crate::position::spec_quiet_moves(genv, gcells, q)[j],
                    ),
            decreases n - t,
        {
            let matched = path_match_exec(&move_list.list[t], pos_list);
            if matched {
                let mut mi = clone_move_item(&move_list.list[t]);
                let ghost mi0 = mi;
                proof {
                    crate::position::lemma_valid_move_match(
                        genv,
                        gcells,
                        mi,
                        move_list.list@[t as int],
                    );
                }
                self.make_move_by_move_item(&mut mi);
                proof {
                    let witness = move_list.list@[t as int];
                    match (mi0, witness) {
                        (MoveItem::Move(x), MoveItem::Move(y)) => {},
                        (MoveItem::StrikeChain(s1), MoveItem::StrikeChain(s2)) => {
                            crate::position::lemma_chain_congruence(
                                genv,
                                gcells,
                                s1.vec@,
                                s2.vec@,
                            );
                        },
                        _ => {
                            assert(false);
                        },
                    }
                    assert(apply_move_spec(genv, gcells, mi0) == apply_move_spec(
                        genv,
                        gcells,
                        witness,
                    ));
                    assert(valid_move(genv, gcells, witness) && path_matches(
                        witness,
                        pos_list@,
                    ) && self.current_position.cells@ == apply_move_spec(genv, gcells, witness)
                        && self.position_history@.len() == old(self).position_history@.len() + 1
                        && self.current_position.next_move == flip_turn(
                        old(self).current_position.next_move,
                    ));
                }
                let ghost pre_fin = *self;
                let fin = self.finish_check();
                proof {
                    let witness = move_list.list@[t as int];
                    assert(valid_move(genv, gcells, witness) && path_matches(
                        witness,
                        pos_list@,
                    ) && self.current_position.cells@ == apply_move_spec(genv, gcells, witness)
                        && self.position_history@.len() == old(self).position_history@.len() + 1
                        && self.current_position.next_move == flip_turn(
                        old(self).current_position.next_move,
                    ));
                    assert(front_move_applied(*old(self), *self, pos_list@));
                    lemma_finish_outcome_congruence(
                        genv,
                        self.position_history@,
                        pre_fin.current_position,
                        self.current_position,
                        pre_fin.draw_state,
                    );
                    assert(fin == finish_outcome(
                        genv,
                        self.position_history@,
                        self.current_position,
                        old(self).draw_state,
                    ));
                }
                return match fin {
                    Some(f) => MoveAttempt::Finished(f),
                    None => MoveAttempt::Applied,
                };
            }
            t = t + 1;
        }
        proof {
            if exists|m: crate::moves::QuietMove|
                crate::position::quiet_move_legal(genv, gcells, gcolor, m) && path_matches(
                    MoveItem::Move(m),
                    pos_list@,
                ) {
                let m = choose|m: crate::moves::QuietMove|
                    crate::position::quiet_move_legal(genv, gcells, gcolor, m) && path_matches(
                        MoveItem::Move(m),
                        pos_list@,
                    );
                let q = m.from as int;
                assert(crate::position::spec_quiet_moves(genv, gcells, q).contains(
                    MoveItem::Move(m),
                ));
                let j = choose|j: int|
                    0 <= j < crate::position::spec_quiet_moves(genv, gcells, q).len()
                        && crate::position::spec_quiet_moves(genv, gcells, q)[j] == MoveItem::Move(
                        m,
                    );
                assert(move_list.list@.contains(crate::position::spec_quiet_moves(
                    genv,
                    gcells,
                    q,
                )[j]));
                let w = choose|w: int|
                    0 <= w < move_list.list@.len() && move_list.list@[w] == MoveItem::Move(m);
                assert(!path_matches(move_list.list@[w], pos_list@));
                assert(false);
            }
        }
        MoveAttempt::NotFound
    }
}

} // verus!
