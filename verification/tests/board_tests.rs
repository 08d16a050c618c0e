use board_crab::board::{Board, Move, PIECE_KING, PIECE_KNIGHT, PIECE_PAWN, PIECE_QUEEN, PIECE_ROOK};
use board_crab::eval;
use board_crab::fen::make_fen;
use board_crab::fen::load_fen;
use board_crab::move_gen;
use board_crab::thread_flag::ThreadFlag;
use board_crab::zobrist;

fn pick(tables: &board_crab::Tables, board: &Board, text: &str) -> Move {
    let moves = move_gen::generate_moves(tables, board);
    for mv in moves.iter() {
        if mv.to_string() == text {
            return *mv;
        }
    }
    panic!("no move {}", text);
}

fn play(tables: &board_crab::Tables, fen: &str, text: &str) -> String {
    let mut board = load_fen(tables, fen).unwrap();
    let mv = pick(tables, &board, text);
    board.do_move(tables, &mv);
    make_fen(&board)
}

#[test]
fn moves_with_nothing_filled_in_and_flags() {
    let mv = Move::new();
    assert_eq!(mv.from, 0);
    assert_eq!(mv.to, 0);
    assert_eq!(mv.from_piece_idx, 0);
    assert_eq!(mv.to_piece_idx, 0);
    assert_eq!(mv.flags, 0);
    assert!(mv.is_quiet());
    assert!(!mv.has_flag(Move::FLAG_CAPTURE));
    let taking = Move { flags: Move::FLAG_CAPTURE | Move::FLAG_EN_PASSANT, ..mv };
    assert!(taking.has_flag(Move::FLAG_CAPTURE));
    assert!(taking.has_flag(Move::FLAG_EN_PASSANT));
    assert!(!taking.has_flag(Move::FLAG_CASTLE));
    assert!(!taking.is_quiet());
    let promoting = Move { flags: Move::FLAG_PROMOTION, ..mv };
    assert!(!promoting.is_quiet());
    let castling = Move { flags: Move::FLAG_CASTLE, ..mv };
    assert!(castling.is_quiet());
    assert_eq!(Move::FLAG_CAPTURE, 1);
    assert_eq!(Move::FLAG_DOUBLE_PAWN_MOVE, 2);
    assert_eq!(Move::FLAG_EN_PASSANT, 4);
    assert_eq!(Move::FLAG_PROMOTION, 8);
    assert_eq!(Move::FLAG_CASTLE, 16);
}

#[test]
fn moves_in_coordinates() {
    let push = Move { from: 1 << 12, to: 1 << 28, from_piece_idx: 0, to_piece_idx: 0, flags: 2 };
    assert_eq!(push.to_string(), "e2e4");
    let queen = Move { from: 1 << 54, to: 1 << 62, from_piece_idx: 0, to_piece_idx: 4, flags: 8 };
    assert_eq!(queen.to_string(), "g7g8q");
    let knight = Move { from: 1 << 9, to: 1 << 0, from_piece_idx: 0, to_piece_idx: 1, flags: 9 };
    assert_eq!(knight.to_string(), "b2a1n");
}

#[test]
fn the_empty_board_and_the_start() {
    let empty = Board::new();
    assert_eq!(empty.turn_idx, 0);
    assert_eq!(empty.pieces, [[0; 6]; 2]);
    assert_eq!(empty.occupancy, [0; 2]);
    assert_eq!(empty.combined_occupancy(), 0);
    assert_eq!(empty.hash, 0);
    let tables = board_crab::init();
    let board = Board::start_pos(&tables);
    assert_eq!(board.pieces[0][PIECE_PAWN], 0xff00);
    assert_eq!(board.pieces[0][PIECE_KNIGHT], 0x42);
    assert_eq!(board.pieces[0][PIECE_ROOK], 0x81);
    assert_eq!(board.pieces[0][PIECE_QUEEN], 0x08);
    assert_eq!(board.pieces[0][PIECE_KING], 0x10);
    assert_eq!(board.pieces[1][PIECE_PAWN], 0x00ff_0000_0000_0000);
    assert_eq!(board.pieces[1][PIECE_KING], 0x1000_0000_0000_0000);
    assert_eq!(board.occupancy, [0xffff, 0xffff_0000_0000_0000]);
    assert_eq!(board.combined_occupancy(), 0xffff_0000_0000_ffff);
    assert_eq!(board.attacks[0], 0x0000_0000_00ff_ff7e);
    assert_eq!(board.attacks[1], 0x7eff_ff00_0000_0000);
    assert_eq!(board.checkers, 0);
    assert_eq!(board.pinned, [0, 0]);
    assert_eq!(move_gen::generate_moves(&tables, &board).len(), 20);
}

#[test]
fn what_a_move_does() {
    let tables = board_crab::init();
    let start = "rnbqkbnr/pppppppp/8/8/8/8/PPPPPPPP/RNBQKBNR w KQkq - 0 1";
    // A double step leaves the square passed over.
    assert_eq!(
        play(&tables, start, "e2e4"),
        "rnbqkbnr/pppppppp/8/8/4P3/8/PPPP1PPP/RNBQKBNR b KQkq e3 0 1"
    );
    // A piece's quiet move counts.
    assert_eq!(
        play(&tables, start, "g1f3"),
        "rnbqkbnr/pppppppp/8/8/8/5N2/PPPPPPPP/RNBQKB1R b KQkq - 1 1"
    );
    // A capture takes the count back, and the square passed over goes.
    assert_eq!(
        play(&tables, "4k3/8/8/3n4/8/4N3/8/4K3 w - - 12 1", "e3d5"),
        "4k3/8/8/3N4/8/8/8/4K3 b - - 0 1"
    );
    // Taking in passing takes the pawn behind the square.
    assert_eq!(
        play(&tables, "5k2/8/8/3Pp3/2K5/8/8/8 w - e6 0 2", "d5e6"),
        "5k2/8/4P3/8/2K5/8/8/8 b - - 0 1"
    );
    // Castling moves the rook and ends the rights.
    assert_eq!(
        play(&tables, "r3k2r/8/8/8/8/8/8/R3K2R w KQkq - 4 1", "e1g1"),
        "r3k2r/8/8/8/8/8/8/R4RK1 b kq - 5 1"
    );
    assert_eq!(
        play(&tables, "r3k2r/8/8/8/8/8/8/R3K2R b KQkq - 4 1", "e8c8"),
        "2kr3r/8/8/8/8/8/8/R3K2R w KQ - 5 1"
    );
    // A rook that leaves its corner ends one right, a rook taken another.
    assert_eq!(
        play(&tables, "r3k2r/8/8/8/8/8/8/R3K2R w KQkq - 0 1", "a1a8"),
        "R3k2r/8/8/8/8/8/8/4K2R b Kk - 0 1"
    );
    // A promotion.
    assert_eq!(
        play(&tables, "8/6P1/8/5K2/1k6/8/8/8 w - - 0 1", "g7g8q"),
        "6Q1/8/8/5K2/1k6/8/8/8 b - - 0 1"
    );
    assert_eq!(
        play(&tables, "8/6P1/8/5K2/1k6/8/8/8 w - - 0 1", "g7g8n"),
        "6N1/8/8/5K2/1k6/8/8/8 b - - 0 1"
    );
    // The counter stops at 255.
    assert_eq!(
        play(&tables, "4k3/8/8/8/8/8/8/4K3 w - - 255 1", "e1d1"),
        "4k3/8/8/8/8/8/8/3K4 b - - 255 1"
    );
}

#[test]
fn the_flags_of_generated_moves() {
    let tables = board_crab::init();
    let board = load_fen(&tables, "r3k2r/1P6/8/3Pp3/8/8/4P3/R3K2R w KQkq e6 0 1").unwrap();
    assert_eq!(pick(&tables, &board, "e2e4").flags, Move::FLAG_DOUBLE_PAWN_MOVE);
    assert_eq!(pick(&tables, &board, "e2e3").flags, 0);
    assert_eq!(pick(&tables, &board, "d5e6").flags, Move::FLAG_EN_PASSANT | Move::FLAG_CAPTURE);
    assert_eq!(pick(&tables, &board, "b7a8q").flags, Move::FLAG_PROMOTION | Move::FLAG_CAPTURE);
    assert_eq!(pick(&tables, &board, "b7b8r").flags, Move::FLAG_PROMOTION);
    assert_eq!(pick(&tables, &board, "b7b8r").to_piece_idx, PIECE_ROOK);
    assert_eq!(pick(&tables, &board, "e1g1").flags, Move::FLAG_CASTLE);
    assert_eq!(pick(&tables, &board, "e1c1").flags, Move::FLAG_CASTLE);
    assert_eq!(pick(&tables, &board, "a1a8").flags, Move::FLAG_CAPTURE);
    assert_eq!(pick(&tables, &board, "e1f1").flags, 0);
    let moves = move_gen::generate_moves(&tables, &board);
    for (i, a) in moves.iter().enumerate() {
        for b in moves.iter().skip(i + 1) {
            assert!(a != b);
        }
    }
}

#[test]
fn castling_and_what_forbids_it() {
    let tables = board_crab::init();
    let free = load_fen(&tables, "4k3/8/8/8/8/8/8/R3K2R w KQ - 0 1").unwrap();
    assert!(move_gen::can_castle(0, &free, 0, false));
    assert!(move_gen::can_castle(1, &free, 0, false));
    assert!(!move_gen::can_castle(1, &free, 0, true));
    assert!(!move_gen::can_castle(0, &free, 1, false));
    let no_right = load_fen(&tables, "4k3/8/8/8/8/8/8/R3K2R w Q - 0 1").unwrap();
    assert!(move_gen::can_castle(0, &no_right, 0, false));
    assert!(!move_gen::can_castle(1, &no_right, 0, false));
    let blocked = load_fen(&tables, "4k3/8/8/8/8/8/8/RN2K1NR w KQ - 0 1").unwrap();
    assert!(!move_gen::can_castle(0, &blocked, 0, false));
    assert!(!move_gen::can_castle(1, &blocked, 0, false));
    // The queen attacks f1, which the king would pass over; b1 may be attacked.
    let attacked = load_fen(&tables, "4k3/8/8/8/8/8/8/R3K2R b KQ - 0 1").unwrap();
    let mut watched = attacked;
    watched.pieces[1][PIECE_QUEEN] = 1 << 61;
    watched.full_update(&tables);
    assert!(move_gen::can_castle(0, &watched, 0, false));
    assert!(!move_gen::can_castle(1, &watched, 0, false));
    let mut probed = attacked;
    probed.pieces[1][PIECE_ROOK] = 1 << 57;
    probed.full_update(&tables);
    assert!(move_gen::can_castle(0, &probed, 0, false));
    assert!(move_gen::can_castle(1, &probed, 0, false));
}

#[test]
fn passing_the_turn() {
    let tables = board_crab::init();
    let mut board =
        load_fen(&tables, "rnbqkbnr/pppppppp/8/8/4P3/8/PPPP1PPP/RNBQKBNR b KQkq e3 7 1").unwrap();
    let before = board;
    board.do_null_move(&tables);
    assert_eq!(board.turn_idx, 0);
    assert_eq!(board.en_passant_mask, 0);
    assert_eq!(board.pieces, before.pieces);
    assert_eq!(board.castle_rights, before.castle_rights);
    assert_eq!(board.half_move_counter, 7);
    assert_eq!(board.occupancy, before.occupancy);
    let mut fresh = board;
    fresh.full_update(&tables);
    assert_eq!(board.hash, fresh.hash);
    assert_eq!(board.checkers, fresh.checkers);
    assert_eq!(board.attacks[1], fresh.attacks[1]);
    assert_eq!(make_fen(&board), "rnbqkbnr/pppppppp/8/8/4P3/8/PPPP1PPP/RNBQKBNR w KQkq - 7 1");
    assert!(board.hash != before.hash);
}

#[test]
fn pins_checks_and_attacks() {
    let tables = board_crab::init();
    // The knight on e3 is pinned by the rook on e6.
    let pinned = load_fen(&tables, "8/4k3/4r3/8/8/4N3/4K3/8 w - - 0 1").unwrap();
    assert_eq!(pinned.pinned[0], 1 << 20);
    assert_eq!(pinned.checkers, 0);
    // Two pieces give check.
    let double = load_fen(&tables, "8/8/6k1/8/5q2/5n2/3KN3/8 w - - 0 1").unwrap();
    assert_eq!(double.checkers, (1u64 << 29) | (1u64 << 21));
    // The attacks of a rook pass through the other king.
    let through = load_fen(&tables, "4k3/8/8/8/8/8/8/r3K3 w - - 0 1").unwrap();
    assert_eq!(through.attacks[1] & 0xff, 0xfe);
    assert_eq!(through.checkers, 1);
    let mut board = through;
    let attacks = board.update_attacks(&tables, 0);
    assert_eq!(attacks, board.attacks[0]);
    assert_eq!(attacks, (1u64 << 3) | (1u64 << 5) | (1u64 << 11) | (1u64 << 12) | (1u64 << 13));
    assert_eq!(
        move_gen::generate_attacks(&tables, &through, 1, PIECE_ROOK, 1),
        0x0101_0101_0101_01fe
    );
    assert_eq!(
        move_gen::generate_attacks(&tables, &through, 0, PIECE_PAWN, 1 << 12),
        (1u64 << 19) | (1u64 << 21)
    );
    assert_eq!(
        move_gen::generate_attacks(&tables, &through, 1, PIECE_PAWN, 1 << 8),
        1u64 << 1
    );
}

#[test]
fn material_to_mate_and_pawn_attacks() {
    let tables = board_crab::init();
    let start = Board::start_pos(&tables);
    assert_eq!(eval::get_pawn_attack_mask(&start, 0), 0xff_0000);
    assert_eq!(eval::get_pawn_attack_mask(&start, 1), 0xff00_0000_0000);
    assert!(eval::is_checkmate_possible(&start, 0));
    assert!(eval::has_non_pawn_material(&start));
    let cases = [
        ("4k3/8/8/8/8/8/8/4K3 w - - 0 1", false, false),
        ("4k3/8/8/8/8/8/8/4KN2 w - - 0 1", false, false),
        ("4k3/8/8/8/8/8/8/3NKN2 w - - 0 1", false, false),
        ("4k3/8/8/8/8/8/8/3BKN2 w - - 0 1", true, false),
        ("4k3/8/8/8/8/8/8/2NNKN2 w - - 0 1", true, false),
        ("4k3/8/8/8/8/8/8/4KR2 w - - 0 1", true, false),
        ("4k3/8/8/8/8/8/8/4KQ2 w - - 0 1", true, false),
        ("4k3/8/8/8/8/8/8/4KB2 w - - 0 1", false, false),
        ("4k3/8/8/8/8/8/4P3/4K3 w - - 0 1", true, false),
        ("4kr2/8/8/8/8/8/8/4K3 w - - 0 1", false, true),
    ];
    for (fen, white, black) in cases {
        let board = load_fen(&tables, fen).unwrap();
        assert_eq!(eval::is_checkmate_possible(&board, 0), white, "{}", fen);
        assert_eq!(eval::is_checkmate_possible(&board, 1), black, "{}", fen);
    }
    let pawns_only = load_fen(&tables, "4k3/8/8/8/8/8/4P3/4K3 w - - 0 1").unwrap();
    assert!(!eval::has_non_pawn_material(&pawns_only));
    let knight = load_fen(&tables, "4k3/8/8/8/8/8/4P3/4KN2 w - - 0 1").unwrap();
    assert!(eval::has_non_pawn_material(&knight));
}

#[test]
fn the_keys_of_a_position() {
    let keys = zobrist::init();
    assert_eq!(zobrist::hash_piece(&keys, 1, 3, 17), keys.piece[1][3][17]);
    assert_eq!(zobrist::hash_turn(&keys), keys.turn);
    assert_eq!(zobrist::hash_en_passant(&keys, 0), 0);
    assert_eq!(zobrist::hash_en_passant(&keys, 1 << 20), keys.en_passant[20]);
    assert_eq!(zobrist::hash_castle_rights(&keys, [[false; 2]; 2]), 0);
    assert_eq!(
        zobrist::hash_castle_rights(&keys, [[true, false], [false, true]]),
        keys.castle_rights[0][0] ^ keys.castle_rights[1][1]
    );
    let tables = board_crab::init();
    let board = load_fen(&tables, "4k3/8/8/8/8/8/8/4K2R b K - 0 1").unwrap();
    assert_eq!(
        board.hash,
        tables.zobrist.piece[0][5][4]
            ^ tables.zobrist.piece[0][3][7]
            ^ tables.zobrist.piece[1][5][60]
            ^ tables.zobrist.castle_rights[0][1]
            ^ tables.zobrist.turn
    );
}

#[test]
fn a_flag_between_threads() {
    let mut flag = ThreadFlag::new();
    assert!(!flag.get());
    let seen = flag.clone();
    flag.trigger();
    assert!(flag.get());
    assert!(seen.get());
    flag.reset();
    assert!(!flag.get());
    assert!(!seen.get());
}

#[test]
fn finding_moves_by_their_text() {
    let tables = board_crab::init();
    let board = Board::start_pos(&tables);
    let moves = move_gen::generate_moves(&tables, &board);
    let found = board_crab::uci::find_move(&tables, &board, "e2e4").unwrap();
    assert_eq!(found.to_string(), "e2e4");
    assert_eq!(found.flags, Move::FLAG_DOUBLE_PAWN_MOVE);
    assert!(moves.contains(&found));
    assert_eq!(board_crab::uci::find_move(&tables, &board, "e2e5"), None);
    assert_eq!(board_crab::uci::find_move(&tables, &board, ""), None);
    assert_eq!(board_crab::uci::find_move(&tables, &board, "e2e4q"), None);
    let promoting = load_fen(&tables, "8/6P1/8/5K2/1k6/8/8/8 w - - 0 1").unwrap();
    let knight = board_crab::uci::find_move(&tables, &promoting, "g7g8n").unwrap();
    assert_eq!(knight.to_piece_idx, PIECE_KNIGHT);
    assert_eq!(board_crab::uci::find_move(&tables, &promoting, "g7g8"), None);
    assert_eq!(board_crab::uci::find_move(&tables, &promoting, "g7g8k"), None);
}

#[test]
fn making_a_list_of_moves() {
    let tables = board_crab::init();
    let start = Board::start_pos(&tables);
    let texts: Vec<String> = ["e2e4", "e7e5", "g1f3", "b8c6", "f1b5", "a7a6"]
        .iter()
        .map(|text| text.to_string())
        .collect();
    let reached = board_crab::uci::apply_moves(&tables, &start, &texts).unwrap();
    assert_eq!(
        make_fen(&reached),
        "r1bqkbnr/1ppp1ppp/p1n5/1B2p3/4P3/5N2/PPPP1PPP/RNBQK2R w KQkq - 0 1"
    );
    let none: Vec<String> = Vec::new();
    let same = board_crab::uci::apply_moves(&tables, &start, &none).unwrap();
    assert_eq!(same.hash, start.hash);
    assert_eq!(same.pieces, start.pieces);
    // The third text is no move of its position.
    let bad: Vec<String> = ["e2e4", "e7e5", "e4e5", "b8c6"].iter().map(|t| t.to_string()).collect();
    assert_eq!(board_crab::uci::apply_moves(&tables, &start, &bad).unwrap_err(), 2);
    let first: Vec<String> = vec!["e7e5".to_string()];
    assert_eq!(board_crab::uci::apply_moves(&tables, &start, &first).unwrap_err(), 0);
}

#[test]
fn games_that_are_over() {
    let tables = board_crab::init();
    let cases = [
        ("rnbqkbnr/pppppppp/8/8/8/8/PPPPPPPP/RNBQKBNR w KQkq - 0 1", false),
        ("rnbqkbnr/pppppppp/8/8/8/8/PPPPPPPP/RNBQKBNR w KQkq - 49 1", false),
        ("rnbqkbnr/pppppppp/8/8/8/8/PPPPPPPP/RNBQKBNR w KQkq - 50 1", true),
        ("4k3/8/8/8/8/8/8/4K3 w - - 0 1", true),
        ("4k3/8/8/8/8/8/8/3NKN2 w - - 0 1", true),
        ("4k3/8/8/8/8/8/8/4KR2 w - - 0 1", false),
        // Mate, check that is no mate, and stalemate.
        ("R5k1/5ppp/8/8/8/8/8/4K3 b - - 0 1", true),
        ("R5k1/5pp1/8/8/8/8/8/4K3 b - - 0 1", false),
        ("7k/5Q2/6K1/8/8/8/8/8 b - - 0 1", false),
    ];
    for (fen, over) in cases {
        let board = load_fen(&tables, fen).unwrap();
        assert_eq!(board_crab::search::is_game_over(&tables, &board), over, "{}", fen);
    }
}
