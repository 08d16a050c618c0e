use board_crab::board::{Board, Move};
use board_crab::fen::load_fen;
use board_crab::move_gen;
use board_crab::pgn::{make_pgn, move_to_algebraic_str, PgnError};

fn pick(tables: &board_crab::Tables, board: &Board, text: &str) -> Move {
    let moves = move_gen::generate_moves(tables, board);
    for mv in moves.iter() {
        if mv.to_string() == text {
            return *mv;
        }
    }
    panic!("no move {}", text);
}

fn line(tables: &board_crab::Tables, start: &Board, texts: &[&str]) -> Vec<Move> {
    let mut board = *start;
    let mut moves = Vec::new();
    for text in texts {
        let mv = pick(tables, &board, text);
        board.do_move(tables, &mv);
        moves.push(mv);
    }
    moves
}

fn san(fen: &str, text: &str) -> String {
    let tables = board_crab::init();
    let board = load_fen(&tables, fen).unwrap();
    let mv = pick(&tables, &board, text);
    move_to_algebraic_str(&tables, &board, &mv).unwrap()
}

#[test]
fn moves_in_algebraic_notation() {
    let start = "rnbqkbnr/pppppppp/8/8/8/8/PPPPPPPP/RNBQKBNR w KQkq - 0 1";
    assert_eq!(san(start, "e2e4"), "e4");
    assert_eq!(san(start, "g1f3"), "Nf3");
    assert_eq!(san("rnbqkbnr/ppp1pppp/8/3p4/4P3/8/PPPP1PPP/RNBQKBNR w KQkq - 0 2", "e4d5"), "exd5");
    assert_eq!(san("5k2/8/8/3Pp3/2K5/8/8/8 w - e6 0 2", "d5e6"), "dxe6");
    assert_eq!(san("8/6P1/8/5K2/1k6/8/8/8 w - - 0 1", "g7g8q"), "g8=Q");
    assert_eq!(san("8/6P1/8/5K2/1k6/8/8/8 w - - 0 1", "g7g8n"), "g8=N");
    assert_eq!(san("5n2/6P1/8/5K2/1k6/8/8/8 w - - 0 1", "g7f8r"), "gxf8=R");
    assert_eq!(san("4k3/8/8/8/8/8/8/R3K2R w KQ - 0 1", "e1g1"), "O-O");
    assert_eq!(san("4k3/8/8/8/8/8/8/R3K2R w KQ - 0 1", "e1c1"), "O-O-O");
    assert_eq!(san("r3k2r/8/8/8/8/8/8/4K3 b kq - 0 1", "e8g8"), "O-O");
    assert_eq!(san("r3k2r/8/8/8/8/8/8/4K3 b kq - 0 1", "e8c8"), "O-O-O");
    // Castling that gives check, or mate, has its mark.
    assert_eq!(san("5k2/8/8/8/8/8/8/4K2R w K - 0 1", "e1g1"), "O-O+");
    assert_eq!(san("3k4/8/8/8/8/8/8/R3K3 w Q - 0 1", "e1c1"), "O-O-O+");
    assert_eq!(san("r3k3/8/8/8/8/8/8/3K4 b q - 0 1", "e8c8"), "O-O-O+");
    assert_eq!(san("5k2/3Q4/8/8/8/1B6/8/4K2R w K - 0 1", "e1g1"), "O-O#");
    assert_eq!(san("4k3/8/8/3n4/8/4N3/8/4K3 w - - 0 1", "e3d5"), "Nxd5");
}

#[test]
fn telling_pieces_apart() {
    // Two knights reach d2: from different files the file tells them apart.
    assert_eq!(san("4k3/8/8/8/8/8/8/1N2KN2 w - - 0 1", "b1d2"), "Nbd2");
    assert_eq!(san("4k3/8/8/8/8/8/8/1N2KN2 w - - 0 1", "f1d2"), "Nfd2");
    // From one file the rank does.
    assert_eq!(san("4k3/8/8/8/8/1N6/8/1N2K3 w - - 0 1", "b1d2"), "N1d2");
    assert_eq!(san("4k3/8/8/8/8/1N6/8/1N2K3 w - - 0 1", "b3d2"), "N3d2");
    // With one on the file and one on the rank, the square.
    assert_eq!(san("4k3/8/8/8/8/1N6/8/1N2KN2 w - - 0 1", "b1d2"), "Nb1d2");
    assert_eq!(san("4k3/8/8/8/8/1N6/8/1N2KN2 w - - 0 1", "b3d2"), "N3d2");
    assert_eq!(san("4k3/8/8/8/8/1N6/8/1N2KN2 w - - 0 1", "f1d2"), "Nfd2");
    // Rooks on one rank.
    assert_eq!(san("4k3/8/8/8/8/8/4K3/R6R w - - 0 1", "a1d1"), "Rad1");
    // A rook behind the king cannot go there.
    assert_eq!(san("4k3/8/8/8/8/8/8/R3K2R w - - 0 1", "a1d1"), "Rd1");
    // A piece of its kind that cannot go there does not count.
    assert_eq!(san("4k3/8/8/8/8/8/8/1N2K2N w - - 0 1", "b1d2"), "Nd2");
}

#[test]
fn check_and_mate() {
    assert_eq!(san("4k3/8/8/8/8/8/8/R3K3 w - - 0 1", "a1a8"), "Ra8+");
    assert_eq!(san("6k1/5ppp/8/8/8/8/8/R3K3 w - - 0 1", "a1a8"), "Ra8#");
    assert_eq!(
        san("rnbqkbnr/pppp1ppp/8/4p3/6P1/5P2/PPPPP2P/RNBQKBNR b KQkq - 0 2", "d8h4"),
        "Qh4#"
    );
    assert_eq!(
        san("r1bqkbnr/pppp1ppp/2n5/4p2Q/4P3/8/PPPP1PPP/RNB1KBNR w KQkq - 2 3", "h5f7"),
        "Qxf7+"
    );
}

#[test]
fn moves_that_cannot_be_written() {
    let tables = board_crab::init();
    let start = Board::start_pos(&tables);
    let far = Move { from: 1 << 12, to: 1 << 36, from_piece_idx: 0, to_piece_idx: 0, flags: 0 };
    assert_eq!(
        move_to_algebraic_str(&tables, &start, &far),
        Err(PgnError::MoveNotFound)
    );
    // The right squares with the wrong flags are no move of the position.
    let unflagged = Move { from: 1 << 12, to: 1 << 28, from_piece_idx: 0, to_piece_idx: 0, flags: 0 };
    assert_eq!(
        move_to_algebraic_str(&tables, &start, &unflagged),
        Err(PgnError::MoveNotFound)
    );
    let mated = load_fen(&tables, "R5k1/5ppp/8/8/8/8/8/4K3 b - - 0 1").unwrap();
    assert_eq!(
        move_to_algebraic_str(&tables, &mated, &far),
        Err(PgnError::NoValidMoves)
    );
    assert_eq!(make_pgn(&tables, &start, &vec![far]), Err(PgnError::MoveNotFound));
    let moves = line(&tables, &start, &["e2e4", "e7e5"]);
    assert_eq!(
        make_pgn(&tables, &start, &vec![moves[0], moves[0]]),
        Err(PgnError::MoveNotFound)
    );
}

#[test]
fn games_as_text() {
    let tables = board_crab::init();
    let start = Board::start_pos(&tables);
    assert_eq!(make_pgn(&tables, &start, &Vec::new()).unwrap(), "");
    let one = line(&tables, &start, &["e2e4"]);
    assert_eq!(make_pgn(&tables, &start, &one).unwrap(), "1. e4");
    let opening = line(&tables, &start, &["e2e4", "e7e5", "g1f3", "b8c6", "f1b5"]);
    assert_eq!(make_pgn(&tables, &start, &opening).unwrap(), "1. e4 e5 2. Nf3 Nc6 3. Bb5");
    let mate = line(&tables, &start, &["f2f3", "e7e5", "g2g4", "d8h4"]);
    assert_eq!(make_pgn(&tables, &start, &mate).unwrap(), "1. f3 e5 2. g4 Qh4#");
    let mut long = Vec::new();
    for _ in 0..5 {
        long.extend_from_slice(&["g1f3", "g8f6", "f3g1", "f6g8"]);
    }
    let shuffle = line(&tables, &start, &long);
    let text = make_pgn(&tables, &start, &shuffle).unwrap();
    assert!(text.starts_with("1. Nf3 Nf6 2. Ng1 Ng8 3. Nf3"));
    assert!(text.ends_with("9. Nf3 Nf6 10. Ng1 Ng8"));
}

#[test]
fn games_that_start_elsewhere() {
    let tables = board_crab::init();
    let fen = "4k3/8/8/8/8/8/8/R3K2R w KQ - 0 1";
    let board = load_fen(&tables, fen).unwrap();
    assert_eq!(
        make_pgn(&tables, &board, &Vec::new()).unwrap(),
        "[Variant \"From Position\"]\n[FEN \"4k3/8/8/8/8/8/8/R3K2R w KQ - 0 1\"]"
    );
    let castle = line(&tables, &board, &["e1g1", "e8d7"]);
    assert_eq!(
        make_pgn(&tables, &board, &castle).unwrap(),
        "[Variant \"From Position\"]\n[FEN \"4k3/8/8/8/8/8/8/R3K2R w KQ - 0 1\"]\n\n1. O-O Kd7"
    );
    let black_fen = "rnbqkbnr/pppppppp/8/8/4P3/8/PPPP1PPP/RNBQKBNR b KQkq e3 0 1";
    let black = load_fen(&tables, black_fen).unwrap();
    let reply = line(&tables, &black, &["e7e5", "g1f3"]);
    assert_eq!(
        make_pgn(&tables, &black, &reply).unwrap(),
        "[Variant \"From Position\"]\n[FEN \"rnbqkbnr/pppppppp/8/8/4P3/8/PPPP1PPP/RNBQKBNR b KQkq e3 0 1\"]\n\n1... e5 2. Nf3"
    );
    assert_eq!(
        make_pgn(&tables, &black, &Vec::new()).unwrap(),
        "[Variant \"From Position\"]\n[FEN \"rnbqkbnr/pppppppp/8/8/4P3/8/PPPP1PPP/RNBQKBNR b KQkq e3 0 1\"]\n\n1..."
    );
}
