use board_crab::fen;
use board_crab::referee::{clock_verdict, final_verdict, is_threefold, note_position};
use std::collections::HashMap;

#[test]
fn the_third_time_a_position_stands_is_a_draw() {
    let mut counts: HashMap<u64, usize> = HashMap::new();
    assert_eq!(note_position(&mut counts, 11), 1);
    assert_eq!(note_position(&mut counts, 22), 1);
    assert_eq!(note_position(&mut counts, 11), 2);
    assert!(!is_threefold(2));
    assert_eq!(note_position(&mut counts, 33), 1);
    assert_eq!(note_position(&mut counts, 11), 3);
    assert!(is_threefold(3));
    assert_eq!(note_position(&mut counts, 11), 4);
    assert!(is_threefold(4));
    assert_eq!(note_position(&mut counts, 22), 2);
    assert_eq!(counts.len(), 3);
    assert_eq!(counts[&11], 4);
    assert_eq!(counts[&22], 2);
    assert_eq!(counts[&33], 1);
    assert!(!is_threefold(0));
}

#[test]
fn the_count_stops_at_the_largest_number() {
    let mut counts: HashMap<u64, usize> = HashMap::new();
    counts.insert(5, usize::MAX - 1);
    assert_eq!(note_position(&mut counts, 5), usize::MAX);
    assert_eq!(note_position(&mut counts, 5), usize::MAX);
    assert_eq!(counts[&5], usize::MAX);
}

#[test]
fn a_clock_that_runs_out_loses_to_mating_material() {
    let tables = board_crab::init();
    // White's clock has run out; Black has a rook.
    let rook = fen::load_fen(&tables, "4k2r/8/8/8/8/8/8/4K3 w - - 0 1").unwrap();
    assert_eq!(clock_verdict(&rook), Some(1));
    // Black has a knight alone.
    let knight = fen::load_fen(&tables, "4k1n1/8/8/8/8/8/8/R3K3 w - - 0 1").unwrap();
    assert_eq!(clock_verdict(&knight), None);
    // Black's clock has run out; White has a pawn.
    let pawn = fen::load_fen(&tables, "4k3/8/8/8/8/8/P7/4K3 b - - 0 1").unwrap();
    assert_eq!(clock_verdict(&pawn), Some(0));
    let bare = fen::load_fen(&tables, "4k2r/8/8/8/8/8/8/4K3 b - - 0 1").unwrap();
    assert_eq!(clock_verdict(&bare), None);
}

#[test]
fn who_gives_check_at_the_end_has_won() {
    let tables = board_crab::init();
    let mated = fen::load_fen(&tables, "6rk/5Npp/8/8/8/8/8/6K1 b - - 0 1").unwrap();
    assert!(board_crab::search::is_game_over(&tables, &mated));
    assert_eq!(final_verdict(&mated), Some(0));
    let white_mated = fen::load_fen(&tables, "4k3/8/8/8/8/8/5PPP/3r2K1 w - - 0 1").unwrap();
    assert!(board_crab::search::is_game_over(&tables, &white_mated));
    assert_eq!(final_verdict(&white_mated), Some(1));
    let bare = fen::load_fen(&tables, "4k3/8/8/8/8/8/8/4K3 w - - 0 1").unwrap();
    assert!(board_crab::search::is_game_over(&tables, &bare));
    assert_eq!(final_verdict(&bare), None);
}
