use board_crab::board::{Board, PIECE_KING};
use board_crab::move_gen;
use board_crab::search;
use rand::Rng;

// Plays random games and holds what do_move keeps up to date against what
// full_update computes from scratch.
#[test]
fn continuity_test_1() {
    let tables = board_crab::init();

    let mut rng = rand::rng();

    const NUM_GAMES: usize = 200;
    const MAX_MOVES_PER_GAME: usize = 60;
    for _i in 0..NUM_GAMES {
        let mut board = Board::start_pos(&tables);
        for _j in 0..MAX_MOVES_PER_GAME {
            let moves = move_gen::generate_moves(&tables, &board);

            for mv in moves.iter() {
                if mv.to & (board.pieces[0][PIECE_KING] | board.pieces[1][PIECE_KING]) != 0 {
                    panic!("Generated move that could attack the king");
                }
            }

            let mut board_clone = board.clone();
            board_clone.full_update(&tables);

            let clone_moves = move_gen::generate_moves(&tables, &board_clone);

            if moves.len() != clone_moves.len() {
                panic!("Continuity error");
            }

            if moves.is_empty() {
                break;
            }

            let move_idx = rng.random_range(0..moves.len());
            board.do_move(&tables, &moves[move_idx]);
        }
    }
}

// Plays random games and holds the count of two moves ahead against the sum
// of the counts one move ahead.
#[test]
fn continuity_test_2() {
    let tables = board_crab::init();

    const NUM_GAMES: usize = 5;
    const MAX_MOVES_PER_GAME: usize = 30;
    for _i in 0..NUM_GAMES {
        let board = Board::start_pos(&tables);
        for _j in 0..MAX_MOVES_PER_GAME {
            let outer_perft = search::perft(&tables, &board, 2);

            let moves = move_gen::generate_moves(&tables, &board);
            let mut inner_perft_total = 0;
            for mv in moves.iter() {
                let mut next_board = board.clone();
                next_board.do_move(&tables, mv);
                next_board.full_update(&tables);

                inner_perft_total += search::perft(&tables, &next_board, 1);
            }

            if inner_perft_total != outer_perft {
                panic!("Continuity error");
            }
        }
    }
}

fn recomputed(tables: &board_crab::Tables, board: &Board) -> Board {
    let mut fresh = board.clone();
    fresh.full_update(tables);
    fresh
}

// What do_move keeps up to date is what full_update computes: occupancy,
// hash, the attacks of the side that moved, the pins of the side to move, and
// the checkers. The piece count never grows, and the side that moved is not
// left in check.
#[test]
fn random_games_keep_the_position_in_order() {
    let tables = board_crab::init();
    let mut rng = rand::rng();
    for _game in 0..40 {
        let mut board = Board::start_pos(&tables);
        for _ply in 0..80 {
            let moves = move_gen::generate_moves(&tables, &board);
            if moves.is_empty() {
                break;
            }
            let mv = moves[rng.random_range(0..moves.len())];
            let count_before = (board.occupancy[0] | board.occupancy[1]).count_ones();
            let mover = board.turn_idx;
            board.do_move(&tables, &mv);
            let fresh = recomputed(&tables, &board);

            for t in 0..2 {
                let mut union = 0u64;
                for p in 0..6 {
                    union |= board.pieces[t][p];
                }
                assert_eq!(board.occupancy[t], union);
            }
            assert_eq!(board.occupancy[0] & board.occupancy[1], 0);
            assert_eq!(board.occupancy, fresh.occupancy);
            assert_eq!(board.hash, fresh.hash);
            assert_eq!(board.attacks[mover], fresh.attacks[mover]);
            assert_eq!(board.pinned[board.turn_idx], fresh.pinned[board.turn_idx]);
            assert_eq!(board.checkers, fresh.checkers);

            let count_after = (board.occupancy[0] | board.occupancy[1]).count_ones();
            assert!(count_after == count_before || count_after + 1 == count_before);
            assert_eq!(count_after + 1 == count_before, mv.flags & 1 != 0);

            assert_eq!(fresh.attacks[board.turn_idx] & board.pieces[mover][PIECE_KING], 0);
            assert_eq!(board.pieces[0][PIECE_KING].count_ones(), 1);
            assert_eq!(board.pieces[1][PIECE_KING].count_ones(), 1);
        }
    }
}

// In a position that no game comes to, the pawn that can be taken in passing
// is all that shields the king from a bishop; the capture is given all the same.
#[test]
fn a_shield_that_no_game_sets_up() {
    let tables = board_crab::init();
    let board =
        board_crab::fen::load_fen(&tables, "4k3/b7/8/1Pp5/8/4K3/8/8 w - c6 0 2").unwrap();
    let moves = move_gen::generate_moves(&tables, &board);
    let capture = moves.iter().find(|mv| mv.to_string() == "b5c6").unwrap();
    assert_eq!(capture.flags, 5);
    let mut after = board;
    after.do_move(&tables, capture);
    after.full_update(&tables);
    assert_eq!(after.attacks[1] & after.pieces[0][PIECE_KING], 1u64 << 20);
    // With a piece more on the diagonal the capture leaves the king safe.
    let shielded =
        board_crab::fen::load_fen(&tables, "4k3/b7/1n6/1Pp5/8/4K3/8/8 w - c6 0 2").unwrap();
    let moves = move_gen::generate_moves(&tables, &shielded);
    for mv in moves.iter() {
        let mut next = shielded;
        next.do_move(&tables, mv);
        next.full_update(&tables);
        assert_eq!(next.attacks[1] & next.pieces[0][PIECE_KING], 0);
    }
}

// The attacks of the side that is to move are those from before the move of
// the other side; they are brought up to date with that side's next move.
#[test]
fn the_attacks_of_the_side_to_move_wait() {
    let tables = board_crab::init();
    let mut board =
        board_crab::fen::load_fen(&tables, "4k3/8/8/8/8/8/1P6/b3K3 w - - 0 1").unwrap();
    let before = board;
    let moves = move_gen::generate_moves(&tables, &board);
    let push = moves.iter().find(|mv| mv.to_string() == "b2b4").unwrap();
    board.do_move(&tables, push);
    let fresh = recomputed(&tables, &board);
    assert_eq!(board.attacks[1], before.attacks[1]);
    assert_eq!(board.attacks[1] & 0x8040_2010_0804_0200, 1u64 << 9);
    assert_eq!(fresh.attacks[1] & 0x8040_2010_0804_0200, 0x8040_2010_0804_0200);
    assert_eq!(board.attacks[0], fresh.attacks[0]);
    assert_eq!(board.hash, fresh.hash);
    // Black's next move brings them up to date.
    let replies = move_gen::generate_moves(&tables, &board);
    let reply = replies.iter().find(|mv| mv.to_string() == "e8d8").unwrap();
    board.do_move(&tables, reply);
    let fresh = recomputed(&tables, &board);
    assert_eq!(board.attacks[1], fresh.attacks[1]);
}
