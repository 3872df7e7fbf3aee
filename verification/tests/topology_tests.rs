use draughts::game::Game;
use draughts::moves_list::MoveList;
use draughts::piece::Piece;
use draughts::color::Color;
use draughts::position::Position;
use draughts::position_environment::PositionEnvironment;
use draughts::vector::Vector;

#[test]
fn game() {
    let game = PositionEnvironment::new(8).unwrap();
    assert_eq!(game.board_to_pack.len(), game.pack_to_board.len() * 2);
    let mut pos = Position::new(&game);
    pos.insert_piece(Piece::new(22, Color::White, false));
    pos.insert_piece(Piece::new(4, Color::Black, true));
    pos.insert_piece(Piece::new(21, Color::Black, true));
    pos.insert_piece(Piece::new(20, Color::Black, true));
    pos.insert_piece(Piece::new(12, Color::Black, true));
    pos.insert_piece(Piece::new(13, Color::Black, true));
    pos.insert_piece(Piece::new(26, Color::Black, true));

    for _i in 0..100000 {
        let mut list = MoveList::new();
        pos.get_strike_list(&game, 22, &mut list, &vec![], false);
        let po = pos.make_move_and_get_position(&game, &mut list.list[0]);
        if po.position != pos {
            break;
        }
        pos.unmake_move(&game, &list.list[0]);
    }
}

#[test]
fn vector() {
    let v = Vector::new(0, vec![0, 1, 2, 3, 4, 5]);
    let v1 = v.clone();
    for (i, p) in v1.points.iter().enumerate() {
        assert_eq!(*p, v.points[i]);
    }
    assert_eq!(v1.direction, 0);
}

#[test]
fn packed_count_is_half_the_board() {
    for size in [2usize, 4, 6, 8, 10, 12] {
        let env = PositionEnvironment::new(size).unwrap();
        assert_eq!(env.pack_to_board.len(), size * size / 2);
        assert_eq!(env.board_to_pack.len(), size * size);
    }
}

#[test]
fn pack_unpack_round_trip() {
    for size in [4usize, 8, 10] {
        let env = PositionEnvironment::new(size).unwrap();
        for b in 0..size * size {
            let row = b / size;
            if (row + b % 2) % 2 == 0 {
                let p = env.to_pack(b);
                assert_eq!(env.to_board(p), b);
                assert!(p < env.pack_to_board.len());
            }
        }
    }
}

#[test]
fn odd_size_is_rejected() {
    assert!(PositionEnvironment::new(7).is_err());
    assert!(PositionEnvironment::new(9).is_err());
    assert!(PositionEnvironment::new(8).is_ok());
}

#[test]
fn to_pack_to_board_on_game() {
    let game = Game::new(8);
    assert_eq!(game.to_pack(0), 0);
    assert_eq!(game.to_board(0), 0);
    assert_eq!(game.to_board(game.to_pack(47)), 47);
    assert_eq!(game.to_board(game.to_pack(63)), 63);
}
