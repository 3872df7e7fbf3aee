use draughts::game::Game;
use draughts::moves_list::MoveItem;
use draughts::piece::Piece;
use draughts::color::Color;

#[test]
pub fn best_move() {
    let mut game = Game::new(8);
    game.current_position.next_move = Some(Color::White);
    game.insert_piece(Piece::new(game.to_pack(0), Color::White, true));
    vec![9, 11, 13, 25, 27, 29, 41, 43, 45]
        .iter()
        .for_each(|pos| game.insert_piece(Piece::new(game.to_pack(*pos), Color::Black, false)));

    let best = &game.get_best_move_rust();
    match &best.pos.as_ref().unwrap().move_item {
        MoveItem::StrikeChain(s) => assert_eq!(s.took_pieces.len(), 9),
        MoveItem::Move(_) => panic!("expected a capture chain"),
    }
}

#[test]
fn best_move_leaves_position_unchanged() {
    let mut game = Game::new(8);
    game.set_color(Color::White);
    game.insert_piece(Piece::new(game.to_pack(0), Color::White, true));
    game.insert_piece(Piece::new(game.to_pack(27), Color::Black, false));
    let before = game.current_position.clone_position();
    let history_before = game.position_history.len();
    let _best = game.best_move(3, i32::MIN, i32::MAX, 0);
    assert_eq!(before, game.current_position);
    assert_eq!(history_before, game.position_history.len());
}

#[test]
fn committed_best_move_is_legal() {
    let mut game = Game::new(8);
    game.set_color(Color::White);
    game.insert_piece(Piece::new(22, Color::White, false));
    game.insert_piece(Piece::new(26, Color::Black, false));
    let best = game.get_best_move_rust();
    game.make_move_by_pos_item(&best);
    assert_eq!(game.position_history.len(), 1);
    // the capture was committed: the black man is gone
    assert_eq!(game.current_position.state.get_count(Color::Black).simple, 0);
}
