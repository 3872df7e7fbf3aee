use draughts::game::FinishType;
use draughts::game::FinishType::{BlackWin, Draw1, Draw2, Draw3, WhiteWin};
use draughts::game::Game;
use draughts::game::MoveAttempt;
use draughts::moves_list::MoveItem;
use draughts::piece::Piece;
use draughts::color::Color;

#[test]
fn game_test() {
    let game = Game::new(8);
    assert!(game.draw_state.kings_start_at.is_none());
}

#[test]
fn finish_cmp() {
    assert_eq!(Draw2, Draw1);
    assert_eq!(WhiteWin, WhiteWin);
    assert_eq!(BlackWin, BlackWin);
    assert_ne!(BlackWin, WhiteWin);
    assert_ne!(Draw2, WhiteWin);
    assert_eq!(WhiteWin > BlackWin, true);
    assert_eq!(BlackWin < WhiteWin, true);
    assert_eq!(WhiteWin < BlackWin, false);
    assert_eq!(WhiteWin > Draw3, true);
    assert_eq!(BlackWin < Draw1, true);
}

#[test]
fn draw_markers_reset_when_kings_disappear() {
    // a king move starts the kings-only streak; then the black king leaves
    // the board, so every marker must be forgotten, and a re-entered streak
    // starts from the current ply
    let mut game = Game::new(8);
    game.set_color(Color::White);
    game.insert_piece(Piece::new(0, Color::White, true));
    game.insert_piece(Piece::new(28, Color::Black, true));
    game.insert_piece(Piece::new(8, Color::Black, false));

    let mut list = game.get_move_list(false);
    let mut item = list.list.remove(0);
    game.make_move_by_move_item(&mut item);
    let fin = game.finish_check();
    assert!(fin.is_none());
    assert!(game.draw_state.kings_start_at.is_some());
    assert!(game.draw_state.kings_only_move_start_at.is_some());

    // the black king leaves the board: the both-have-kings condition fails
    game.remove_piece(28);
    let fin = game.finish_check();
    assert!(fin.is_none());
    assert!(game.draw_state.kings_start_at.is_none());
    assert!(game.draw_state.kings_only_move_start_at.is_none());
    assert!(game.draw_state.triangle_start_at.is_none());
    assert!(game.draw_state.power_equal_start_at.is_none());
    assert!(game.draw_state.main_road_start_at.is_none());

    // a new black king re-enters: the streak restarts at the current ply
    game.insert_piece(Piece::new(28, Color::Black, true));
    let ply_now = game.position_history.len();
    let fin = game.finish_check();
    assert!(fin.is_none());
    assert_eq!(game.draw_state.kings_start_at, Some(ply_now));
}

#[test]
fn front_move_path_is_matched() {
    let mut game = Game::new(8);
    game.set_color(Color::White);
    game.insert_piece(Piece::new(13, Color::White, false));
    game.insert_piece(Piece::new(28, Color::Black, false));
    let list = game.get_move_list(true);
    assert!(!list.list.is_empty());
    let (from, to) = match &list.list[0] {
        MoveItem::Move(m) => (m.from, m.to),
        MoveItem::StrikeChain(_) => panic!("expected a quiet move"),
    };
    // a wrong path is rejected and changes nothing
    let r = game.make_move_for_front(&vec![from, from]);
    assert!(matches!(r, MoveAttempt::NotFound));
    assert_eq!(game.position_history.len(), 0);
    // the real path is applied
    let r = game.make_move_for_front(&vec![from, to]);
    assert!(matches!(r, MoveAttempt::Applied));
    assert_eq!(game.position_history.len(), 1);
}

#[test]
fn color_reverse_flips() {
    let mut c = Color::White;
    c.reverse();
    assert_eq!(c, Color::Black);
    c.reverse();
    assert_eq!(c, Color::White);
}
