use board_crab::bitmask::bm_get;
use board_crab::board::{Board, NUM_PIECES, PIECE_CHARS, PIECE_KING};
use board_crab::fen;
use board_crab::uci::find_move;

/// The diagram as the formatting machinery of the standard library writes it.
fn drawn_with_std(board: &Board) -> String {
    const DIVIDER: &str = "+---+---+---+---+---+---+---+---+";
    let mut stream = String::new();
    stream += "Board {\n";
    stream += &format!("\tFEN: {}\n", fen::make_fen(board));
    stream += &format!("\tTurn: {}\n", board.turn_idx);
    stream += &format!("\tOccupancy[0/1]: {}/{}\n", board.occupancy[0], board.occupancy[1]);
    stream += &format!("\tCheckers: {}\n", board.checkers);
    stream += &format!("\tPinned[0/1]: {}/{}\n", board.pinned[0], board.pinned[1]);
    stream += &format!("\tAttacks[0/1]: {}/{}\n", board.attacks[0], board.attacks[1]);
    stream += &format!("\t{DIVIDER}\n");
    for i in 0..8 {
        let y = 8 - i - 1;
        stream += "\t";
        for x in 0..8 {
            let mut piece_char = ' ';
            for piece_type in 0..NUM_PIECES {
                if bm_get(board.pieces[0][piece_type], x, y) {
                    piece_char = PIECE_CHARS[piece_type].to_ascii_uppercase();
                } else if bm_get(board.pieces[1][piece_type], x, y) {
                    piece_char = PIECE_CHARS[piece_type].to_ascii_lowercase();
                }
            }
            let decoration_chars: [char; 2] = if bm_get(board.checkers, x, y) {
                ['+', '+']
            } else if bm_get(board.pinned[board.turn_idx], x, y) {
                ['>', '<']
            } else if bm_get(board.pieces[board.turn_idx][PIECE_KING], x, y) && (board.checkers != 0) {
                ['!', '!']
            } else {
                [' ', ' ']
            };
            stream += &format!("|{}{piece_char}{}", decoration_chars[0], decoration_chars[1]);
        }
        stream += &format!("| {}\n\t{DIVIDER}\n", 1 + y);
    }
    stream += "\t  a   b   c   d   e   f   g   h\n";
    stream += "}";
    stream
}

#[test]
fn the_start_drawn_as_text() {
    let tables = board_crab::init();
    let board = Board::start_pos(&tables);
    let text = board.to_string();
    let lines: Vec<&str> = text.split('\n').collect();
    assert_eq!(lines.len(), 26);
    assert_eq!(lines[0], "Board {");
    assert_eq!(lines[1], "\tFEN: rnbqkbnr/pppppppp/8/8/8/8/PPPPPPPP/RNBQKBNR w KQkq - 0 1");
    assert_eq!(lines[2], "\tTurn: 0");
    assert_eq!(lines[3], "\tOccupancy[0/1]: 65535/18446462598732840960");
    assert_eq!(lines[4], "\tCheckers: 0");
    assert_eq!(lines[5], "\tPinned[0/1]: 0/0");
    assert_eq!(lines[7], "\t+---+---+---+---+---+---+---+---+");
    assert_eq!(lines[8], "\t| r | n | b | q | k | b | n | r | 8");
    assert_eq!(lines[9], "\t+---+---+---+---+---+---+---+---+");
    assert_eq!(lines[10], "\t| p | p | p | p | p | p | p | p | 7");
    assert_eq!(lines[12], "\t|   |   |   |   |   |   |   |   | 6");
    assert_eq!(lines[20], "\t| P | P | P | P | P | P | P | P | 2");
    assert_eq!(lines[22], "\t| R | N | B | Q | K | B | N | R | 1");
    assert_eq!(lines[23], "\t+---+---+---+---+---+---+---+---+");
    assert_eq!(lines[24], "\t  a   b   c   d   e   f   g   h");
    assert_eq!(lines[25], "}");
    assert_eq!(text, drawn_with_std(&board));
}

#[test]
fn checks_and_pins_are_marked() {
    let tables = board_crab::init();
    let checked = fen::load_fen(&tables, "4k3/8/8/8/8/8/4r3/4K3 w - - 0 1").unwrap();
    let text = checked.to_string();
    let lines: Vec<&str> = text.split('\n').collect();
    assert_eq!(lines[8], "\t|   |   |   |   | k |   |   |   | 8");
    assert_eq!(lines[20], "\t|   |   |   |   |+r+|   |   |   | 2");
    assert_eq!(lines[22], "\t|   |   |   |   |!K!|   |   |   | 1");
    assert_eq!(text, drawn_with_std(&checked));

    let pinned = fen::load_fen(&tables, "4k3/4r3/8/8/8/8/4B3/4K3 w - - 0 1").unwrap();
    let text = pinned.to_string();
    let lines: Vec<&str> = text.split('\n').collect();
    assert_eq!(lines[10], "\t|   |   |   |   | r |   |   |   | 7");
    assert_eq!(lines[20], "\t|   |   |   |   |>B<|   |   |   | 2");
    assert_eq!(lines[22], "\t|   |   |   |   | K |   |   |   | 1");
    assert_eq!(text, drawn_with_std(&pinned));
}

#[test]
fn diagrams_along_a_game() {
    let tables = board_crab::init();
    let mut board = Board::start_pos(&tables);
    for text in ["e2e4", "d7d5", "e4d5", "d8d5", "b1c3", "d5e5", "f1e2", "c8g4", "d2d4", "g4e2"] {
        let mv = find_move(&tables, &board, text).unwrap();
        board.do_move(&tables, &mv);
        assert_eq!(board.to_string(), drawn_with_std(&board));
    }
    // A piece board with more than one kind on a square: the higher kind
    // is drawn, White's before Black's.
    let mut odd = Board::new();
    odd.pieces[0][0] = 1;
    odd.pieces[1][3] = 1;
    odd.pieces[0][3] = 2;
    odd.pieces[1][3] |= 2;
    let text = odd.to_string();
    let lines: Vec<&str> = text.split('\n').collect();
    assert_eq!(lines[22], "\t| r | R |   |   |   |   |   |   | 1");
    assert_eq!(text, drawn_with_std(&odd));
}
