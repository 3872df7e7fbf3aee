use draughts::game::Game;
use draughts::moves::StraightStrike;
use draughts::moves_list::MoveItem;
use draughts::moves_list::MoveList;
use draughts::piece::Piece;
use draughts::color::Color;

#[test]
fn game_quite_move() {
    let mut game = Game::new(8);
    game.current_position.next_move = Option::from(Color::White);
    game.insert_piece(Piece::new(13, Color::White, true));
    vec![2, 27, 24].iter().for_each(|pos| game.insert_piece(Piece::new(*pos, Color::White, false)));
    let list = game.get_move_list(true);
    assert_eq!(list.list.len(), 15);
}

#[test]
pub fn game_strike_list() {
    let mut game = Game::new(8);
    game.current_position.next_move = Some(Color::White);
    game.insert_piece(Piece::new(game.to_pack(47), Color::White, false));
    game.insert_piece(Piece::new(game.to_pack(63), Color::White, false));
    game.insert_piece(Piece::new(game.to_pack(15), Color::White, true));
    vec![54, 43, 20]
        .iter()
        .for_each(|pos| game.insert_piece(Piece::new(game.to_pack(*pos), Color::Black, false)));
    let list = game.get_move_list(true);
    assert_eq!(list.list.len(), 5);
}

fn chain_squares(item: &MoveItem) -> Vec<(usize, usize, usize)> {
    match item {
        MoveItem::StrikeChain(s) => {
            s.vec.iter().map(|h: &StraightStrike| (h.from, h.to, h.take)).collect()
        }
        MoveItem::Move(_) => panic!("expected a capture chain"),
    }
}

fn is_strict_prefix(a: &[(usize, usize, usize)], b: &[(usize, usize, usize)]) -> bool {
    a.len() < b.len() && a.iter().zip(b.iter()).all(|(x, y)| x == y)
}

#[test]
fn mandatory_capture_excludes_quiet_moves() {
    // the white man can both slide and jump: only the jump may be offered
    let mut game = Game::new(8);
    game.current_position.next_move = Some(Color::White);
    game.insert_piece(Piece::new(22, Color::White, false));
    game.insert_piece(Piece::new(26, Color::Black, false));
    let list = game.get_move_list(true);
    assert!(!list.list.is_empty());
    for item in &list.list {
        match item {
            MoveItem::StrikeChain(_) => {}
            MoveItem::Move(_) => panic!("quiet move offered although a capture exists"),
        }
    }
}

#[test]
fn reference_capture_position_chains() {
    // one white man at packed 22 against six black kings
    let mut game = Game::new(8);
    game.current_position.next_move = Some(Color::White);
    game.insert_piece(Piece::new(22, Color::White, false));
    for p in [4, 21, 20, 12, 13, 26] {
        game.insert_piece(Piece::new(p, Color::Black, true));
    }
    let env = game.position_environment.clone();
    let mut list = MoveList::new();
    let found = game.current_position.get_strike_list(&env, 22, &mut list, &vec![], false);
    assert!(found);
    assert!(!list.list.is_empty());
    let chains: Vec<Vec<(usize, usize, usize)>> = list.list.iter().map(chain_squares).collect();
    // every chain starts from the moving piece's square
    for c in &chains {
        assert!(!c.is_empty());
        assert_eq!(c[0].0, 22);
    }
    // maximal chains only: no returned chain is a strict prefix of another
    for (i, a) in chains.iter().enumerate() {
        for (j, b) in chains.iter().enumerate() {
            if i != j {
                assert!(!is_strict_prefix(a, b));
            }
        }
    }
    // the exact chain set: the man takes 26 and promotes on 29, continues as
    // a king, and either sweeps five pieces (two final landings) or ends on
    // the corner after four
    assert_eq!(chains.len(), 3);
    let expected: Vec<Vec<(usize, usize, usize)>> = vec![
        vec![(22, 29, 26), (29, 16, 20), (16, 9, 12), (9, 18, 13), (18, 25, 21)],
        vec![(22, 29, 26), (29, 16, 20), (16, 9, 12), (9, 18, 13), (18, 28, 21)],
        vec![(22, 29, 26), (29, 16, 20), (16, 9, 12), (9, 0, 4)],
    ];
    for e in &expected {
        assert!(chains.contains(e));
    }
}

#[test]
fn no_chain_is_strict_prefix_of_another() {
    let mut game = Game::new(8);
    game.current_position.next_move = Some(Color::White);
    game.insert_piece(Piece::new(game.to_pack(47), Color::White, false));
    game.insert_piece(Piece::new(game.to_pack(63), Color::White, false));
    game.insert_piece(Piece::new(game.to_pack(15), Color::White, true));
    for pos in [54, 43, 20] {
        game.insert_piece(Piece::new(game.to_pack(pos), Color::Black, false));
    }
    let list = game.get_move_list(true);
    let chains: Vec<Vec<(usize, usize, usize)>> = list.list.iter().map(chain_squares).collect();
    for (i, a) in chains.iter().enumerate() {
        for (j, b) in chains.iter().enumerate() {
            if i != j {
                assert!(!is_strict_prefix(a, b));
            }
        }
    }
}

#[test]
fn empty_square_has_no_moves() {
    let mut game = Game::new(8);
    game.current_position.next_move = Some(Color::White);
    let list = game.get_move_list(true);
    assert!(list.list.is_empty());
}
