use board_crab::board::Board;
use board_crab::fen::{self, FenError};
use board_crab::text;
use board_crab::uci::find_move;
use board_crab::uci::go::{read_go, GoRequest};
use board_crab::uci::info::{best_move_line, info_line, mate_in, option_line, Score};
use board_crab::uci::options::{
    self, default_options, read_setoption, set_option, Assignment, OptionError, OptionKind,
    UciOption,
};
use board_crab::uci::position::{read_position, PositionError};

fn same_board(a: &Board, b: &Board) -> bool {
    a.turn_idx == b.turn_idx
        && a.pieces == b.pieces
        && a.occupancy == b.occupancy
        && a.attacks == b.attacks
        && a.pinned == b.pinned
        && a.checkers == b.checkers
        && a.castle_rights == b.castle_rights
        && a.en_passant_mask == b.en_passant_mask
        && a.half_move_counter == b.half_move_counter
        && a.hash == b.hash
}

fn words(line: &str) -> Vec<String> {
    line.split_whitespace().map(|word| word.to_string()).collect()
}

#[test]
fn numbers_are_read_with_their_sign() {
    assert_eq!(text::read_i64("0"), Some(0));
    assert_eq!(text::read_i64("0005"), Some(5));
    assert_eq!(text::read_i64("+17"), Some(17));
    assert_eq!(text::read_i64("-17"), Some(-17));
    assert_eq!(text::read_i64("9223372036854775807"), Some(i64::MAX));
    assert_eq!(text::read_i64("9223372036854775808"), None);
    assert_eq!(text::read_i64("-9223372036854775808"), Some(i64::MIN));
    assert_eq!(text::read_i64("-9223372036854775809"), None);
    assert_eq!(text::read_i64("00000000000000000000000000000012"), Some(12));
    assert_eq!(text::read_i64("99999999999999999999999999999999"), None);
    assert_eq!(text::read_i64(""), None);
    assert_eq!(text::read_i64("+"), None);
    assert_eq!(text::read_i64("-"), None);
    assert_eq!(text::read_i64("12a"), None);
    assert_eq!(text::read_i64(" 12"), None);
    assert_eq!(text::read_i64("1-2"), None);
    assert_eq!(text::read_i64("--2"), None);
    // What the standard library reads is what is read here.
    for written in ["7", "-0", "+0", "123456789", "x", "٣", "1_000"] {
        assert_eq!(text::read_i64(written), written.parse::<i64>().ok(), "{}", written);
    }
}

#[test]
fn capital_and_small_letters_count_as_the_same() {
    assert!(text::same_ignoring_case("Clear Hash", "clear hash"));
    assert!(text::same_ignoring_case("", ""));
    assert!(text::same_ignoring_case("THREADS", "threads"));
    assert!(!text::same_ignoring_case("Threads", "Thread"));
    assert!(!text::same_ignoring_case("Hash", "Hasi"));
    // '@' stands before 'A' and '`' before 'a': they are not the same.
    assert!(!text::same_ignoring_case("@", "`"));
    assert!(!text::same_ignoring_case("[", "{"));
    assert!(text::same_ignoring_case("Zz", "zZ"));
    assert!(!text::same_ignoring_case("é", "É"));
    assert_eq!(text::to_lower('Q'), 'q');
    assert_eq!(text::to_lower('q'), 'q');
    assert_eq!(text::to_lower('1'), '1');
}

#[test]
fn words_are_joined_with_spaces() {
    let parts = words("a bc d e");
    assert_eq!(text::join_words(&parts, 0, 4), "a bc d e");
    assert_eq!(text::join_words(&parts, 1, 3), "bc d");
    assert_eq!(text::join_words(&parts, 2, 2), "");
    assert_eq!(text::join_words(&parts, 3, 4), "e");
    let with_empty = vec!["".to_string(), "x".to_string(), "".to_string(), "y".to_string()];
    assert_eq!(text::join_words(&with_empty, 0, 4), "x  y");
}

#[test]
fn the_engine_offers_three_options() {
    let options = default_options();
    assert_eq!(options.len(), 3);
    assert_eq!(options[0].name, "Threads");
    assert_eq!(options[0].kind, OptionKind::Int);
    assert_eq!((options[0].value, options[0].value_min, options[0].value_max), (8, 1, 256));
    assert_eq!(options[1].name, "Hash");
    assert_eq!((options[1].value, options[1].value_min, options[1].value_max), (100, 1, 65536));
    assert_eq!(options[2].name, "Clear Hash");
    assert_eq!(options[2].kind, OptionKind::Button);
}

#[test]
fn the_value_of_an_option_by_its_name() {
    let mut options = default_options();
    assert_eq!(options::get_option_val(&options, "Threads"), Some(8));
    assert_eq!(options::get_option_val(&options, "Hash"), Some(100));
    assert_eq!(options::get_option_val(&options, "Clear Hash"), Some(0));
    // Here the letters count as they are.
    assert_eq!(options::get_option_val(&options, "hash"), None);
    assert_eq!(options::get_option_val(&options, ""), None);
    set_option(&words("setoption name hash value 33"), &mut options).unwrap();
    assert_eq!(options::get_option_val(&options, "Hash"), Some(33));
    assert_eq!(options::get_option_val(&Vec::new(), "Hash"), None);
}

#[test]
fn an_option_is_set_by_its_name() {
    let options = default_options();
    assert_eq!(
        read_setoption(&words("setoption name Hash value 64"), &options),
        Ok(Assignment { index: 1, value: 64 })
    );
    assert_eq!(
        read_setoption(&words("setoption name tHrEaDs value 256"), &options),
        Ok(Assignment { index: 0, value: 256 })
    );
    assert_eq!(
        read_setoption(&words("setoption name Threads value 1"), &options),
        Ok(Assignment { index: 0, value: 1 })
    );
    assert_eq!(
        read_setoption(&words("setoption name Threads value TRUE"), &options),
        Ok(Assignment { index: 0, value: 1 })
    );
    assert_eq!(
        read_setoption(&words("setoption name Threads value +12"), &options),
        Ok(Assignment { index: 0, value: 12 })
    );
    // A button needs no value, and takes any.
    assert_eq!(
        read_setoption(&words("setoption name Clear Hash"), &options),
        Ok(Assignment { index: 2, value: 0 })
    );
    assert_eq!(
        read_setoption(&words("setoption name clear hash value now"), &options),
        Ok(Assignment { index: 2, value: 0 })
    );
    assert_eq!(
        read_setoption(&words("setoption name Clear Hash value 7"), &options),
        Ok(Assignment { index: 2, value: 7 })
    );
    assert_eq!(options::option_name_text(&words("setoption name Clear Hash value 7")), "Clear Hash");
    assert_eq!(options::option_value_text(&words("setoption name Clear Hash value 7 8")), "7 8");
    assert_eq!(options::option_value_text(&words("setoption name Clear Hash")), "");
    assert_eq!(options::option_name_text(&words("setoption")), "");
}

#[test]
fn a_wrong_setoption_is_refused() {
    let options = default_options();
    let refused = |line: &str| read_setoption(&words(line), &options).unwrap_err();
    assert_eq!(refused("setoption"), OptionError::BadSyntax);
    assert_eq!(refused("setoption name"), OptionError::BadSyntax);
    assert_eq!(refused("setoption nam Hash value 1"), OptionError::BadSyntax);
    assert_eq!(refused("setoption NAME Hash value 1"), OptionError::BadSyntax);
    assert_eq!(refused("setoption name Ponder value true"), OptionError::UnknownOption);
    assert_eq!(refused("setoption name Clear value 1"), OptionError::UnknownOption);
    assert_eq!(refused("setoption name value 1"), OptionError::UnknownOption);
    assert_eq!(refused("setoption name Hash"), OptionError::ValueMissing);
    assert_eq!(refused("setoption name Hash value"), OptionError::ValueMissing);
    assert_eq!(refused("setoption name Hash value much"), OptionError::BadNumber);
    assert_eq!(refused("setoption name Hash value 1 2"), OptionError::BadNumber);
    assert_eq!(refused("setoption name Hash value 0"), OptionError::OutOfRange);
    assert_eq!(refused("setoption name Hash value 65537"), OptionError::OutOfRange);
    assert_eq!(refused("setoption name Hash value -5"), OptionError::OutOfRange);
    assert_eq!(refused("setoption name Hash value false"), OptionError::OutOfRange);
    assert_eq!(refused("setoption name Threads value 257"), OptionError::OutOfRange);
}

#[test]
fn a_yes_or_no_option_takes_zero_or_one() {
    let mut ponder = UciOption::new_int("Ponder", 0, 0, 0);
    ponder.kind = OptionKind::Bool;
    assert_eq!(options::assign(&ponder, "true"), Ok(1));
    assert_eq!(options::assign(&ponder, "False"), Ok(0));
    assert_eq!(options::assign(&ponder, "1"), Ok(1));
    assert_eq!(options::assign(&ponder, "2"), Err(OptionError::BadBool));
    assert_eq!(options::assign(&ponder, "-1"), Err(OptionError::BadBool));
    assert_eq!(options::assign(&ponder, "yes"), Err(OptionError::BadNumber));
    assert_eq!(options::assign(&ponder, ""), Err(OptionError::ValueMissing));
}

#[test]
fn setting_an_option_changes_its_value_alone() {
    let mut options = default_options();
    assert_eq!(
        set_option(&words("setoption name Hash value 512"), &mut options),
        Ok(Assignment { index: 1, value: 512 })
    );
    assert_eq!(options[0].value, 8);
    assert_eq!(options[1].value, 512);
    assert_eq!(options[1].name, "Hash");
    assert_eq!((options[1].value_min, options[1].value_max), (1, 65536));
    assert_eq!(options[2].value, 0);
    // A refused command changes nothing.
    assert_eq!(
        set_option(&words("setoption name Hash value 0"), &mut options),
        Err(OptionError::OutOfRange)
    );
    assert_eq!(options[1].value, 512);
    // The first option of a name is the one that is set.
    options.push(UciOption::new_int("hash", 5, 0, 10));
    assert_eq!(
        set_option(&words("setoption name HASH value 7"), &mut options),
        Ok(Assignment { index: 1, value: 7 })
    );
    assert_eq!(options[3].value, 5);
}

fn nothing_asked() -> GoRequest {
    GoRequest {
        max_depth: None,
        move_time: None,
        moves_to_go: None,
        remaining_time: None,
        time_inc: None,
        perft: None,
    }
}

#[test]
fn go_is_read_word_by_word() {
    assert_eq!(read_go(&words("go"), 0), nothing_asked());
    assert_eq!(read_go(&words("go infinite"), 0), nothing_asked());
    assert_eq!(read_go(&words("go depth 5"), 0), GoRequest { max_depth: Some(5), ..nothing_asked() });
    assert_eq!(
        read_go(&words("go movetime 1500"), 1),
        GoRequest { move_time: Some(1500), ..nothing_asked() }
    );
    let clocks = words("go wtime 1000 btime 2000 winc 10 binc 20 movestogo 30");
    assert_eq!(
        read_go(&clocks, 0),
        GoRequest {
            remaining_time: Some(1000),
            time_inc: Some(10),
            moves_to_go: Some(30),
            ..nothing_asked()
        }
    );
    assert_eq!(
        read_go(&clocks, 1),
        GoRequest {
            remaining_time: Some(2000),
            time_inc: Some(20),
            moves_to_go: Some(30),
            ..nothing_asked()
        }
    );
    // A word without a number is passed over, and so is an unknown word
    // with one.
    assert_eq!(
        read_go(&words("go ponder depth 3 nodes 100"), 0),
        GoRequest { max_depth: Some(3), ..nothing_asked() }
    );
    assert_eq!(read_go(&words("go depth"), 0), nothing_asked());
    assert_eq!(read_go(&words("go depth x 4"), 0), nothing_asked());
    assert_eq!(read_go(&words("go 5"), 0), nothing_asked());
    // The later number counts.
    assert_eq!(
        read_go(&words("go depth 3 depth 9"), 0),
        GoRequest { max_depth: Some(9), ..nothing_asked() }
    );
    // A number too large is cut to the low bits of its field.
    assert_eq!(read_go(&words("go depth 300"), 0), GoRequest { max_depth: Some(44), ..nothing_asked() });
    assert_eq!(read_go(&words("go depth 256"), 0), GoRequest { max_depth: Some(0), ..nothing_asked() });
    assert_eq!(read_go(&words("go depth -1"), 0), GoRequest { max_depth: Some(255), ..nothing_asked() });
    assert_eq!(
        read_go(&words("go movestogo -1"), 0),
        GoRequest { moves_to_go: Some(u64::MAX), ..nothing_asked() }
    );
}

#[test]
fn a_count_of_moves_ends_the_reading() {
    assert_eq!(read_go(&words("go perft 3"), 0), GoRequest { perft: Some(3), ..nothing_asked() });
    assert_eq!(
        read_go(&words("go depth 5 perft 2 depth 9 perft 4 wtime 100"), 0),
        GoRequest { max_depth: Some(5), perft: Some(2), ..nothing_asked() }
    );
}

#[test]
fn position_sets_the_board_up_and_makes_the_moves() {
    let tables = board_crab::init();
    let start = read_position(&tables, &words("position startpos")).unwrap();
    assert_eq!(fen::make_fen(&start), "rnbqkbnr/pppppppp/8/8/8/8/PPPPPPPP/RNBQKBNR w KQkq - 0 1");
    assert!(same_board(&start, &Board::start_pos(&tables)));

    let moved = read_position(&tables, &words("position startpos moves e2e4 c7c5 g1f3")).unwrap();
    assert_eq!(
        fen::make_fen(&moved),
        "rnbqkbnr/pp1ppppp/8/2p5/4P3/5N2/PPPP1PPP/RNBQKB1R b KQkq - 1 1"
    );

    let none = read_position(&tables, &words("position startpos moves")).unwrap();
    assert!(same_board(&none, &start));

    let read = read_position(&tables, &words("position fen 8/2k5/8/1r1pPK2/8/8/8/8 w - d6 0 2")).unwrap();
    assert_eq!(fen::make_fen(&read), "8/2k5/8/1r1pPK2/8/8/8/8 w - d6 0 1");
    assert!(same_board(
        &read,
        &fen::load_fen(&tables, "8/2k5/8/1r1pPK2/8/8/8/8 w - d6 0 2").unwrap()
    ));

    let promoted = read_position(
        &tables,
        &words("position fen 8/P6k/8/8/8/8/8/K7 w - - 0 1 moves a7a8n h7g7"),
    )
    .unwrap();
    assert_eq!(fen::make_fen(&promoted), "N7/6k1/8/8/8/8/8/K7 w - - 1 1");

    // Two fields are enough.
    let short = read_position(&tables, &words("position fen 4k3/8/8/8/8/8/8/4K3 b moves e8e7")).unwrap();
    assert_eq!(fen::make_fen(&short), "8/4k3/8/8/8/8/8/4K3 w - - 1 1");
}

#[test]
fn a_wrong_position_is_refused() {
    let tables = board_crab::init();
    let refused = |line: &str| read_position(&tables, &words(line)).unwrap_err();
    assert_eq!(refused("position"), PositionError::TooFew);
    assert_eq!(refused("position fen"), PositionError::FenMissing);
    assert_eq!(refused("position fen moves e2e4"), PositionError::FenMissing);
    assert_eq!(refused("position fen 8/8/8/8/8/8/8/8"), PositionError::BadFen(FenError::TooFewParts));
    assert_eq!(refused("position start"), PositionError::UnknownKind);
    assert_eq!(refused("position STARTPOS"), PositionError::UnknownKind);
    assert_eq!(refused("position startpos e2e4"), PositionError::UnknownSuffix);
    assert_eq!(refused("position startpos moves e2e5"), PositionError::BadMove(0));
    assert_eq!(refused("position startpos moves e2e4 e2e4"), PositionError::BadMove(1));
    assert_eq!(refused("position startpos moves e2e4 e7e5 e1e2 x"), PositionError::BadMove(3));
    assert!(matches!(
        refused("position fen 8/8/8/8/8/8/8/8 w - - 0 1"),
        PositionError::BadFen(_)
    ));
}

#[test]
fn mate_is_counted_in_moves() {
    assert_eq!(mate_in(0), 0);
    assert_eq!(mate_in(1), 1);
    assert_eq!(mate_in(2), 1);
    assert_eq!(mate_in(3), 2);
    assert_eq!(mate_in(4), 2);
    // A side that is mated: half the plies, rounded up, with a minus sign.
    assert_eq!(mate_in(-1), -1);
    assert_eq!(mate_in(-2), -1);
    assert_eq!(mate_in(-3), -2);
    assert_eq!(mate_in(-4), -2);
    assert_eq!(mate_in(-5), -3);
    assert_eq!(mate_in(i32::MAX), 1 << 30);
    assert_eq!(mate_in(i32::MIN), -(1 << 30));
    for ply in 0..40i64 {
        assert_eq!(mate_in(ply as i32), (ply + 1) / 2);
        assert_eq!(mate_in(-ply as i32), -mate_in(ply as i32));
    }
}

#[test]
fn the_line_of_a_finished_depth() {
    let tables = board_crab::init();
    let start = Board::start_pos(&tables);
    let first = find_move(&tables, &start, "e2e4").unwrap();
    let mut next = start;
    next.do_move(&tables, &first);
    let second = find_move(&tables, &next, "e7e5").unwrap();
    assert_eq!(
        info_line(7, Score::Centipawns(-31), 123456, 2000000, 61, &vec![first, second]),
        "info depth 7 multipv 1 score cp -31 nodes 123456 nps 2000000 time 61 pv e2e4 e7e5"
    );
    assert_eq!(
        info_line(255, Score::Mate(3), 0, 0, 0, &vec![first]),
        "info depth 255 multipv 1 score mate 3 nodes 0 nps 0 time 0 pv e2e4"
    );
    assert_eq!(
        info_line(1, Score::Mate(-2), u64::MAX, i64::MAX, i64::MIN, &vec![]),
        "info depth 1 multipv 1 score mate -2 nodes 18446744073709551615 nps 9223372036854775807 time -9223372036854775808 pv "
    );
    assert_eq!(best_move_line(&first), "bestmove e2e4");
    let queening = fen::load_fen(&tables, "8/P6k/8/8/8/8/8/K7 w - - 0 1").unwrap();
    let promotion = find_move(&tables, &queening, "a7a8q").unwrap();
    assert_eq!(best_move_line(&promotion), "bestmove a7a8q");
}

#[test]
fn the_lines_that_offer_the_options() {
    let options = default_options();
    assert_eq!(option_line(&options[0]), "option name Threads type spin default 8 min 1 max 256");
    assert_eq!(option_line(&options[1]), "option name Hash type spin default 100 min 1 max 65536");
    assert_eq!(option_line(&options[2]), "option name Clear Hash type button");
    let mut ponder = UciOption::new_int("Ponder", 0, 0, 1);
    ponder.kind = OptionKind::Bool;
    assert_eq!(option_line(&ponder), "option name Ponder type check default false");
    ponder.value = 1;
    assert_eq!(option_line(&ponder), "option name Ponder type check default true");
    let below = UciOption::new_int("Contempt", -20, -100, 100);
    assert_eq!(option_line(&below), "option name Contempt type spin default -20 min -100 max 100");
}
