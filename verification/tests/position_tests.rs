use draughts::game::Game;
use draughts::moves_list::MoveItem;
use draughts::moves_list::MoveList;
use draughts::piece::Piece;
use draughts::color::Color;

#[test]
fn positions_eq() {
    let mut g1 = Game::new(8);
    let mut g2 = Game::new(8);
    g1.insert_piece(Piece::new(0, Color::White, true));
    g2.insert_piece(Piece::new(0, Color::White, true));
    assert_eq!(g1.current_position, g2.current_position);
    g1.insert_piece(Piece::new(1, Color::White, true));
    g2.insert_piece(Piece::new(1, Color::White, true));
    assert_eq!(g1.current_position, g2.current_position);
    g1.insert_piece(Piece::new(3, Color::White, true));
    g2.insert_piece(Piece::new(3, Color::White, false));
    assert_ne!(g1.current_position, g2.current_position);
    g1.remove_piece(3);
    g2.remove_piece(3);
    assert_eq!(g1.current_position, g2.current_position);
}

#[test]
fn position_positions_eq() {
    let mut g1 = Game::new(8);
    let mut g2 = Game::new(8);
    g1.insert_piece(Piece::new(0, Color::White, true));
    g2.insert_piece(Piece::new(0, Color::White, true));
    assert_eq!(g1.current_position, g2.current_position);
    g1.insert_piece(Piece::new(1, Color::White, true));
    g2.insert_piece(Piece::new(1, Color::White, true));
    assert_eq!(g1.current_position, g2.current_position);
    g1.insert_piece(Piece::new(3, Color::White, true));
    g2.insert_piece(Piece::new(3, Color::White, false));
    assert_ne!(g1.current_position, g2.current_position);
    g1.remove_piece(3);
    assert_ne!(g1.current_position, g2.current_position);
    g2.remove_piece(3);
    assert_eq!(g1.current_position, g2.current_position);
    g1.insert_piece(Piece::new(3, Color::White, true));
    g2.insert_piece(Piece::new(1, Color::White, true));
    assert_ne!(g1.current_position, g2.current_position);
    g1.remove_piece(3);
    g2.remove_piece(3);
    assert_eq!(g1.current_position, g2.current_position);
}

#[test]
fn quiet_move_round_trip() {
    let mut game = Game::new(8);
    game.set_color(Color::White);
    game.insert_piece(Piece::new(13, Color::White, false));
    game.insert_piece(Piece::new(5, Color::Black, false));
    let before = game.current_position.clone_position();
    let mut list = game.get_move_list(true);
    assert!(!list.list.is_empty());
    let env = game.position_environment.clone();
    game.current_position.make_move(&env, &mut list.list[0]);
    assert_ne!(before, game.current_position);
    game.current_position.unmake_move(&env, &list.list[0]);
    assert_eq!(before, game.current_position);
    assert_eq!(before.state, game.current_position.state);
}

#[test]
fn capture_round_trip_restores_counts() {
    let mut game = Game::new(8);
    game.set_color(Color::White);
    game.insert_piece(Piece::new(22, Color::White, false));
    game.insert_piece(Piece::new(26, Color::Black, true));
    let before = game.current_position.clone_position();
    let before_state = game.current_position.state;
    let mut list = game.get_move_list(true);
    assert!(!list.list.is_empty());
    match &list.list[0] {
        MoveItem::StrikeChain(_) => {}
        MoveItem::Move(_) => panic!("expected a capture"),
    }
    let env = game.position_environment.clone();
    game.current_position.make_move(&env, &mut list.list[0]);
    assert_ne!(before, game.current_position);
    game.current_position.unmake_move(&env, &list.list[0]);
    assert_eq!(before, game.current_position);
    assert_eq!(before_state, game.current_position.state);
}

#[test]
fn corner_king_evaluation() {
    let mut game = Game::new(8);
    game.insert_piece(Piece::new(0, Color::White, true));
    // a lone king on the corner of the long diagonal: material 300 plus
    // seven free squares of mobility
    let e = game.current_position.evaluate(&game.position_environment);
    assert_eq!(e, 307);
}

#[test]
fn empty_board_evaluates_to_zero() {
    let game = Game::new(8);
    let e = game.current_position.evaluate(&game.position_environment);
    assert_eq!(e, 0);
}

#[test]
fn insert_and_remove_update_counts() {
    let mut game = Game::new(8);
    game.insert_piece(Piece::new(5, Color::White, false));
    game.insert_piece(Piece::new(9, Color::Black, true));
    let st = game.current_position.state;
    assert_eq!(st.get_count(Color::White).simple, 1);
    assert_eq!(st.get_count(Color::Black).king, 1);
    assert!(game.remove_piece(5));
    assert!(!game.remove_piece(5));
    let st2 = game.current_position.state;
    assert_eq!(st2.get_count(Color::White).simple, 0);
    let mut ml = MoveList::new();
    assert!(ml.list.is_empty());
    ml.list.clear();
}
