use board_crab::board::Board;
use board_crab::fen::{load_fen, load_fen_from_parts, FenError};
use board_crab::fen::{make_fen, FEN_START_POS};

#[test]
fn start_position_as_text() {
    let tables = board_crab::init();
    let board = Board::start_pos(&tables);
    assert_eq!(make_fen(&board), FEN_START_POS);
    assert_eq!(
        make_fen(&board),
        "rnbqkbnr/pppppppp/8/8/8/8/PPPPPPPP/RNBQKBNR w KQkq - 0 1"
    );
    let read = load_fen(&tables, FEN_START_POS).unwrap();
    assert_eq!(read.pieces, board.pieces);
    assert_eq!(read.occupancy, board.occupancy);
    assert_eq!(read.hash, board.hash);
    assert_eq!(read.attacks, board.attacks);
    assert_eq!(read.castle_rights, [[true; 2]; 2]);
    assert_eq!(read.turn_idx, 0);
    assert_eq!(read.en_passant_mask, 0);
    assert_eq!(read.half_move_counter, 0);
}

#[test]
fn text_read_and_written_again() {
    let tables = board_crab::init();
    let fens = [
        "r3k2r/p1ppqpb1/bn2pnp1/3PN3/1p2P3/2N2Q1p/PPPBBPPP/R3K2R w KQkq - 0 1",
        "rnbq1k1r/pp1Pbppp/2p5/8/2B5/8/PPP1NnPP/RNBQK2R w KQ - 17 1",
        "8/6k1/6p1/4NpPp/3PK2P/1r2P3/1br5/4RR2 w - f6 0 1",
        "rnbqkbnr/pppppppp/8/8/4P3/8/PPPP1PPP/RNBQKBNR b KQkq e3 0 1",
        "4k3/8/8/8/8/8/8/R3K2R w Q - 255 1",
        "4k2r/8/8/8/8/8/8/4K3 b k - 100 1",
    ];
    for fen in fens {
        let board = load_fen(&tables, fen).unwrap();
        assert_eq!(make_fen(&board), fen);
        let again = load_fen(&tables, make_fen(&board).as_str()).unwrap();
        assert_eq!(again.pieces, board.pieces);
        assert_eq!(again.turn_idx, board.turn_idx);
        assert_eq!(again.castle_rights, board.castle_rights);
        assert_eq!(again.en_passant_mask, board.en_passant_mask);
        assert_eq!(again.half_move_counter, board.half_move_counter);
        assert_eq!(again.hash, board.hash);
        assert_eq!(again.occupancy, board.occupancy);
        assert_eq!(again.attacks, board.attacks);
        assert_eq!(again.pinned, board.pinned);
        assert_eq!(again.checkers, board.checkers);
    }
}

#[test]
fn fields_left_out_and_fields_not_read() {
    let tables = board_crab::init();
    let short = load_fen(&tables, "8/2p5/3p4/KP5r/1R3p1k/8/4P1P1/8 w - -").unwrap();
    assert_eq!(make_fen(&short), "8/2p5/3p4/KP5r/1R3p1k/8/4P1P1/8 w - - 0 1");
    let shorter = load_fen(&tables, "4k3/8/8/8/8/8/8/4K3 b").unwrap();
    assert_eq!(make_fen(&shorter), "4k3/8/8/8/8/8/8/4K3 b - - 0 1");
    // Capitals for the side to move, a plus sign before the counter, and
    // whatever follows the counter.
    let loose = load_fen(&tables, "4k3/8/8/8/8/8/8/4K3 W - - +7 99 more").unwrap();
    assert_eq!(make_fen(&loose), "4k3/8/8/8/8/8/8/4K3 w - - 7 1");
    let parts: Vec<String> = vec![
        "4k3/8/8/8/8/8/8/R3K2R".to_string(),
        "w".to_string(),
        "KQ".to_string(),
    ];
    let from_parts = load_fen_from_parts(&tables, &parts).unwrap();
    assert_eq!(make_fen(&from_parts), "4k3/8/8/8/8/8/8/R3K2R w KQ - 0 1");
}

fn fault(fen: &str) -> FenError {
    let tables = board_crab::init();
    load_fen(&tables, fen).unwrap_err()
}

#[test]
fn faults_of_the_pieces() {
    assert_eq!(fault("4k3/8/8/8/8/8/8/4K3"), FenError::TooFewParts);
    assert_eq!(fault(""), FenError::TooFewParts);
    assert_eq!(fault("4k3/8/8/8/8/8/8/4K3 w \u{2013} - 0 1"), FenError::NotAscii);
    assert_eq!(fault("4k3/8/8/8/8/8/8/4K2x w - - 0 1"), FenError::BadPieceChar);
    assert_eq!(fault("4kk2/8/8/8/8/8/8/4K3 w - - 0 1"), FenError::MultipleKings);
    assert_eq!(fault("4k3/9/8/8/8/8/8/4K3 w - - 0 1"), FenError::BadDigit);
    assert_eq!(fault("4k3/0/8/8/8/8/8/4K3 w - - 0 1"), FenError::BadDigit);
    assert_eq!(fault("4k3/ppppppppp/8/8/8/8/8/4K3 w - - 0 1"), FenError::RowTooLong);
    assert_eq!(fault("4k3/p8/8/8/8/8/8/4K3 w - - 0 1"), FenError::RowTooLong);
    assert_eq!(fault("4k3/8/8/8/8/8/8/4K3/8 w - - 0 1"), FenError::TooManyRanks);
    assert_eq!(fault("4k3/7/8/8/8/8/8/4K3 w - - 0 1"), FenError::BadRankSeparator);
    // The last rank ends before its eighth square.
    assert_eq!(fault("4k3/8/8/8/8/8/8/4K w - - 0 1"), FenError::BadRankSeparator);
    assert_eq!(fault("4k3/8/8/8/8/8/8/4K2 w - - 0 1"), FenError::BadRankSeparator);
    assert_eq!(fault("Kk w"), FenError::BadRankSeparator);
    assert_eq!(fault("4k3/8/8/8/8/8/8/ w - - 0 1"), FenError::BadRankSeparator);
    // Fewer ranks than eight.
    assert_eq!(fault("4k3/8/8/8/8/8/4K3 w - - 0 1"), FenError::TooFewRanks);
    assert_eq!(fault("K6k w"), FenError::TooFewRanks);
    assert_eq!(fault("4k3/8/8/8/8/8/8/4K3/ w - - 0 1"), FenError::TooManyRanks);
    assert_eq!(fault("4k3/8/8/8/8/8/8/4K2* w - - 0 1"), FenError::BadChar);
    assert_eq!(fault("8/8/8/8/8/8/8/4K3 w - - 0 1"), FenError::NoKing);
    assert_eq!(fault("4k3/8/8/8/8/8/8/8 w - - 0 1"), FenError::NoKing);
}

#[test]
fn faults_of_the_other_fields() {
    assert_eq!(fault("4k3/8/8/8/8/8/8/4K3 x - - 0 1"), FenError::BadTurn);
    assert_eq!(fault("4k3/8/8/8/8/8/8/4K3 ww - - 0 1"), FenError::BadTurn);
    assert_eq!(fault("4k3/8/8/8/8/8/8/4K3  w - - 0 1"), FenError::BadTurn);
    assert_eq!(fault("4k3/8/8/8/8/8/8/R3K2R w KQX - 0 1"), FenError::BadCastle);
    assert_eq!(fault("r3k2r/8/8/8/8/8/8/R3K2R w KQkqK - 0 1"), FenError::BadCastle);
    assert_eq!(fault("4k3/8/8/8/8/8/8/R3K2R w -- - 0 1"), FenError::BadCastle);
    // A right without its rook, and one without its king at home.
    assert_eq!(fault("4k3/8/8/8/8/8/8/R3K3 w K - 0 1"), FenError::BadCastle);
    assert_eq!(fault("4k3/8/8/8/8/8/8/R4K1R w Q - 0 1"), FenError::BadCastle);
    assert_eq!(fault("4k3/8/8/8/8/8/8/4K3 w - e9 0 1"), FenError::BadEnPassant);
    assert_eq!(fault("4k3/8/8/8/8/8/8/4K3 w - e 0 1"), FenError::BadEnPassant);
    assert_eq!(fault("4k3/8/8/8/8/8/8/4K3 w - i6 0 1"), FenError::BadEnPassant);
    // No pawn behind the square, a piece on the square, and the wrong rank.
    assert_eq!(fault("4k3/8/8/8/8/8/8/4K3 w - e6 0 1"), FenError::BadEnPassant);
    assert_eq!(fault("4k3/8/4n3/4p3/8/8/8/4K3 w - e6 0 1"), FenError::BadEnPassant);
    assert_eq!(fault("4k3/8/8/8/4P3/8/8/4K3 w - e3 0 1"), FenError::BadEnPassant);
    assert_eq!(fault("4k3/8/8/8/8/8/8/4K3 w - - abc 1"), FenError::BadHalfMove);
    assert_eq!(fault("4k3/8/8/8/8/8/8/4K3 w - - 256 1"), FenError::BadHalfMove);
    assert_eq!(fault("4k3/8/8/8/8/8/8/4K3 w - - -1 1"), FenError::BadHalfMove);
    assert_eq!(fault("4k3/8/8/8/8/8/8/4K3 w - -  1"), FenError::BadHalfMove);
    assert_eq!(fault("4k3/8/8/8/8/8/8/4K3 w - - + 1"), FenError::BadHalfMove);
    // The first fault in the order of the fields is the one returned.
    assert_eq!(fault("4k3/8/8/8/8/8/8/8 x KQX e9 abc"), FenError::NoKing);
    assert_eq!(fault("4k3/8/8/8/8/8/8/4K3 x KQX e9 abc"), FenError::BadTurn);
    assert_eq!(fault("4k3/8/8/8/8/8/8/4K3 w KQX e9 abc"), FenError::BadCastle);
    assert_eq!(fault("4k3/8/8/8/8/8/8/4K3 w - e9 abc"), FenError::BadEnPassant);
}
