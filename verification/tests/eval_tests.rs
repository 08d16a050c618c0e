use board_crab::board::{Board, Move};
use board_crab::eval::moves::{captured_kind, lands_on_attacked, move_threat, Threat};
use board_crab::eval::structure::{
    bishop_pawn_pairs, king_shelter, pawn_traits, relative_count, rook_files, PawnTraits,
    RookFiles, Shelter,
};
use board_crab::fen;
use board_crab::uci::find_move;
use board_crab::Tables;

fn read(tables: &Tables, text: &str) -> Board {
    fen::load_fen(tables, text).unwrap()
}

fn the_move(tables: &Tables, board: &Board, text: &str) -> Move {
    find_move(tables, board, text).unwrap()
}

fn square(name: &str) -> u64 {
    let bytes = name.as_bytes();
    1u64 << ((bytes[0] - b'a') as u64 + 8 * (bytes[1] - b'1') as u64)
}

#[test]
fn squares_are_counted_from_the_own_back_rank() {
    let second_rank = 0xff00u64;
    let seventh_rank = 0x00ff_0000_0000_0000u64;
    let pawns = square("a2") | square("b2") | square("c7");
    assert_eq!(relative_count(0, pawns, second_rank), 2);
    assert_eq!(relative_count(0, pawns, seventh_rank), 1);
    // For Black the board is turned upside down.
    assert_eq!(relative_count(1, pawns, second_rank), 1);
    assert_eq!(relative_count(1, pawns, seventh_rank), 2);
    assert_eq!(relative_count(0, 0, u64::MAX), 0);
    assert_eq!(relative_count(1, u64::MAX, u64::MAX), 64);
    assert_eq!(relative_count(1, square("h8"), square("h1")), 1);
    assert_eq!(relative_count(1, square("h8"), square("h8")), 0);
}

#[test]
fn pawns_facing_each_other() {
    let tables = board_crab::init();
    let board = read(&tables, "4k3/8/8/3p4/2P1P3/8/8/4K3 w - - 0 1");
    assert_eq!(
        pawn_traits(&board, 0, square("c4")),
        PawnTraits {
            advance: 3,
            passed: false,
            in_file: 1,
            isolated: true,
            connected: false,
            in_center: false
        }
    );
    assert_eq!(
        pawn_traits(&board, 0, square("e4")),
        PawnTraits {
            advance: 3,
            passed: false,
            in_file: 1,
            isolated: true,
            connected: false,
            in_center: true
        }
    );
    assert_eq!(
        pawn_traits(&board, 1, square("d5")),
        PawnTraits {
            advance: 3,
            passed: false,
            in_file: 1,
            isolated: true,
            connected: false,
            in_center: true
        }
    );
}

#[test]
fn a_pawn_that_nothing_stands_before_is_passed() {
    let tables = board_crab::init();
    // The black pawn on a3 has the white pawn on b4 behind it, and the
    // white pawn on h2 far from its file.
    let board = read(&tables, "4k3/8/8/8/1P6/p7/7P/4K3 w - - 0 1");
    assert!(pawn_traits(&board, 1, square("a3")).passed);
    assert_eq!(pawn_traits(&board, 1, square("a3")).advance, 5);
    // The white pawn on b4 went past it too.
    assert!(pawn_traits(&board, 0, square("b4")).passed);
    assert!(pawn_traits(&board, 0, square("h2")).passed);
    assert_eq!(pawn_traits(&board, 0, square("h2")).advance, 1);
    // A pawn on the same rank on the next file does not stand ahead.
    let level = read(&tables, "4k3/8/8/8/pP6/8/8/4K3 w - - 0 1");
    assert!(pawn_traits(&level, 0, square("b4")).passed);
    assert!(pawn_traits(&level, 1, square("a4")).passed);
    // One on the same file ahead does.
    let blocked = read(&tables, "4k3/8/1p6/8/1P6/8/8/4K3 w - - 0 1");
    assert!(!pawn_traits(&blocked, 0, square("b4")).passed);
    assert!(!pawn_traits(&blocked, 1, square("b6")).passed);
}

#[test]
fn pawns_side_by_side_and_in_a_row() {
    let tables = board_crab::init();
    let board = read(&tables, "4k3/8/8/2P5/8/2P5/1PP5/4K3 w - - 0 1");
    let b2 = pawn_traits(&board, 0, square("b2"));
    assert_eq!((b2.in_file, b2.isolated, b2.connected), (1, false, false));
    let c2 = pawn_traits(&board, 0, square("c2"));
    assert_eq!((c2.in_file, c2.isolated, c2.connected), (3, false, false));
    // b2 covers c3.
    let c3 = pawn_traits(&board, 0, square("c3"));
    assert_eq!((c3.in_file, c3.isolated, c3.connected), (3, false, true));
    let c5 = pawn_traits(&board, 0, square("c5"));
    assert_eq!((c5.in_file, c5.isolated, c5.connected, c5.advance), (3, false, false, 4));
    // Black's pawns cover downwards.
    let black = read(&tables, "4k3/8/1p6/2p5/8/8/8/4K3 w - - 0 1");
    assert!(pawn_traits(&black, 1, square("c5")).connected);
    assert!(!pawn_traits(&black, 1, square("b6")).connected);
    assert!(!pawn_traits(&black, 1, square("b6")).isolated);
}

#[test]
fn rooks_are_counted_by_their_files() {
    let tables = board_crab::init();
    let board = read(&tables, "4k3/p7/8/8/8/8/P3P3/R2RK2R w - - 0 1");
    assert_eq!(rook_files(&board, 0), RookFiles { open: 2, half_open: 0 });
    assert_eq!(rook_files(&board, 1), RookFiles { open: 0, half_open: 0 });
    let half = read(&tables, "r3k2r/7p/8/8/8/8/P3P3/R2RK2R w - - 0 1");
    assert_eq!(rook_files(&half, 0), RookFiles { open: 1, half_open: 2 });
    assert_eq!(rook_files(&half, 1), RookFiles { open: 0, half_open: 2 });
    let start = Board::start_pos(&tables);
    assert_eq!(rook_files(&start, 0), RookFiles { open: 0, half_open: 0 });
    // Two rooks on one open file.
    let doubled = read(&tables, "4k3/8/8/8/8/3R4/8/3RK3 w - - 0 1");
    assert_eq!(rook_files(&doubled, 0), RookFiles { open: 2, half_open: 0 });
}

#[test]
fn bishops_and_pawns_on_one_colour() {
    let tables = board_crab::init();
    // The bishop on c1 and the pawns on d2 and e3 stand on dark squares,
    // the pawn on e4 on a light one.
    let board = read(&tables, "4k3/8/8/8/4P3/4P3/3P4/2B1K3 w - - 0 1");
    assert_eq!(bishop_pawn_pairs(&board, 0), 2);
    assert_eq!(bishop_pawn_pairs(&board, 1), 0);
    let both = read(&tables, "4k3/8/8/8/4P3/4P3/3P4/2B1KB2 w - - 0 1");
    assert_eq!(bishop_pawn_pairs(&both, 0), 3);
    let start = Board::start_pos(&tables);
    assert_eq!(bishop_pawn_pairs(&start, 0), 8);
    assert_eq!(bishop_pawn_pairs(&start, 1), 8);
}

#[test]
fn the_shelter_of_the_king() {
    let tables = board_crab::init();
    let start = Board::start_pos(&tables);
    assert_eq!(
        king_shelter(&tables, &start, 0),
        Shelter { near: 3, far: 0, height: 0, file: 4, reach: 5 }
    );
    assert_eq!(
        king_shelter(&tables, &start, 1),
        Shelter { near: 3, far: 0, height: 0, file: 4, reach: 5 }
    );
    let alone = read(&tables, "4k3/8/8/8/8/8/8/4K3 w - - 0 1");
    assert_eq!(
        king_shelter(&tables, &alone, 0),
        Shelter { near: 0, far: 0, height: 0, file: 4, reach: 21 }
    );
    // A castled king behind pawns, one of them moved up.
    let castled = read(&tables, "6k1/5p1p/6p1/8/8/7P/5PP1/6K1 w - - 0 1");
    assert_eq!(
        king_shelter(&tables, &castled, 0),
        Shelter { near: 2, far: 1, height: 0, file: 6, reach: 10 }
    );
    // Black's king looks two squares down its file, to the pawn on g6.
    assert_eq!(
        king_shelter(&tables, &castled, 1),
        Shelter { near: 2, far: 1, height: 0, file: 6, reach: 11 }
    );
    // On the last rank nothing stands in front.
    let far_up = read(&tables, "K7/PP6/8/8/8/8/8/7k w - - 0 1");
    assert_eq!(
        king_shelter(&tables, &far_up, 0),
        Shelter { near: 0, far: 0, height: 7, file: 0, reach: 9 }
    );
    assert_eq!(king_shelter(&tables, &far_up, 1).height, 7);
    assert_eq!(king_shelter(&tables, &far_up, 1).file, 7);
}

#[test]
fn what_a_move_captures() {
    let tables = board_crab::init();
    let board = read(&tables, "4k3/8/8/3q4/4P3/8/8/4K3 w - - 0 1");
    assert_eq!(captured_kind(&board, &the_move(&tables, &board, "e4d5")), Some(4));
    assert_eq!(captured_kind(&board, &the_move(&tables, &board, "e4e5")), None);
    let passing = read(&tables, "4k3/8/8/3pP3/8/8/8/4K3 w - d6 0 2");
    assert_eq!(captured_kind(&passing, &the_move(&tables, &passing, "e5d6")), Some(0));
    let black = read(&tables, "4k3/8/8/3q4/4R3/8/8/4K3 b - - 0 1");
    assert_eq!(captured_kind(&black, &the_move(&tables, &black, "d5e4")), Some(3));
    let knight = read(&tables, "4k3/8/2n5/8/3B4/8/8/4K3 b - - 0 1");
    assert_eq!(captured_kind(&knight, &the_move(&tables, &knight, "c6d4")), Some(2));
}

#[test]
fn how_a_move_bears_on_the_king() {
    let tables = board_crab::init();
    let rook = read(&tables, "4k3/4n3/8/8/8/8/8/R5K1 w - - 0 1");
    // On the king's rank with nothing between.
    assert_eq!(move_threat(&tables, &rook, &the_move(&tables, &rook, "a1a8")), Threat::Check);
    // On the king's file behind the knight.
    assert_eq!(move_threat(&tables, &rook, &the_move(&tables, &rook, "a1e1")), Threat::Pin);
    // On no line with the king.
    assert_eq!(move_threat(&tables, &rook, &the_move(&tables, &rook, "a1a7")), Threat::Absent);
    // Two pieces between.
    let two = read(&tables, "4k3/4n3/4p3/8/8/8/8/R5K1 w - - 0 1");
    assert_eq!(move_threat(&tables, &two, &the_move(&tables, &two, "a1e1")), Threat::Absent);
    // A knight.
    let knight = read(&tables, "4k3/8/8/8/4N3/8/8/4K3 w - - 0 1");
    assert_eq!(move_threat(&tables, &knight, &the_move(&tables, &knight, "e4f6")), Threat::Check);
    assert_eq!(move_threat(&tables, &knight, &the_move(&tables, &knight, "e4d6")), Threat::Check);
    assert_eq!(move_threat(&tables, &knight, &the_move(&tables, &knight, "e4g3")), Threat::Absent);
    // A bishop bears on the king along a diagonal and on no other line.
    let bishop = read(&tables, "4k3/8/8/8/8/8/4B3/4K3 w - - 0 1");
    assert_eq!(move_threat(&tables, &bishop, &the_move(&tables, &bishop, "e2b5")), Threat::Check);
    assert_eq!(move_threat(&tables, &bishop, &the_move(&tables, &bishop, "e2h5")), Threat::Check);
    assert_eq!(move_threat(&tables, &bishop, &the_move(&tables, &bishop, "e2d3")), Threat::Absent);
    let behind = read(&tables, "4k3/3p4/8/8/8/8/4B3/4K3 w - - 0 1");
    assert_eq!(move_threat(&tables, &behind, &the_move(&tables, &behind, "e2b5")), Threat::Pin);
    // A pawn is not looked at, though it gives check.
    let pawn = read(&tables, "4k3/8/3P4/8/8/8/8/4K3 w - - 0 1");
    assert_eq!(move_threat(&tables, &pawn, &the_move(&tables, &pawn, "d6d7")), Threat::Absent);
}

#[test]
fn landing_on_an_attacked_square() {
    let tables = board_crab::init();
    let board = read(&tables, "4k3/8/8/8/8/8/8/3QK3 w - - 0 1");
    let close = the_move(&tables, &board, "d1d7");
    assert!(lands_on_attacked(&board, &close));
    assert_eq!(move_threat(&tables, &board, &close), Threat::Check);
    let far = the_move(&tables, &board, "d1d6");
    assert!(!lands_on_attacked(&board, &far));
    assert_eq!(move_threat(&tables, &board, &far), Threat::Absent);
}
