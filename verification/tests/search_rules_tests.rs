use board_crab::board::Board;
use board_crab::fen;
use board_crab::search::rules::{
    bound_kind, hint_index, matching_best_moves, null_move_allowed, null_move_depth, probe_cut,
    sort_rated, RatedMove,
};
use board_crab::transpos::{Entry, EntryType};

fn stored(entry_type: EntryType, depth_remaining: u8, best_move_idx: u8) -> Entry {
    let mut entry = Entry::new();
    entry.hash = 77;
    entry.entry_type = entry_type;
    entry.depth_remaining = depth_remaining;
    entry.best_move_idx = best_move_idx;
    entry.update_checksum();
    entry
}

#[test]
fn an_exact_entry_of_enough_depth_ends_the_search() {
    let exact = stored(EntryType::Exact, 4, 0);
    assert!(probe_cut(&exact, 4, false, false));
    assert!(probe_cut(&exact, 1, false, false));
    // Stored with fewer moves to go than are asked for.
    assert!(!probe_cut(&exact, 5, true, true));
    // In the search of captures after the last move.
    assert!(!probe_cut(&exact, 0, true, true));
}

#[test]
fn a_bound_ends_the_search_on_its_side_of_the_window() {
    let low = stored(EntryType::FailLow, 3, 0);
    assert!(probe_cut(&low, 3, true, false));
    assert!(!probe_cut(&low, 3, false, true));
    let high = stored(EntryType::FailHigh, 3, 0);
    assert!(probe_cut(&high, 3, false, true));
    assert!(!probe_cut(&high, 3, true, false));
}

#[test]
fn an_entry_that_is_not_valid_ends_nothing() {
    assert!(!probe_cut(&Entry::new(), 1, true, true));
    let mut torn = stored(EntryType::Exact, 4, 0);
    torn.depth_remaining = 9;
    assert!(!torn.is_valid());
    assert!(!probe_cut(&torn, 1, true, true));
    assert_eq!(hint_index(&torn, 10), None);
    assert_eq!(hint_index(&Entry::new(), 10), None);
}

#[test]
fn the_stored_best_move_is_a_hint_where_the_position_has_it() {
    let entry = stored(EntryType::FailLow, 1, 7);
    assert_eq!(hint_index(&entry, 8), Some(7));
    assert_eq!(hint_index(&entry, 7), None);
    assert_eq!(hint_index(&entry, 0), None);
    assert_eq!(hint_index(&entry, 200), Some(7));
}

#[test]
fn passing_is_tried_with_pieces_and_out_of_check() {
    let tables = board_crab::init();
    let start = Board::start_pos(&tables);
    assert!(null_move_allowed(&start, true, true, 1, 2));
    assert!(null_move_allowed(&start, true, true, 9, 40));
    assert!(!null_move_allowed(&start, false, true, 1, 2));
    assert!(!null_move_allowed(&start, true, false, 1, 2));
    assert!(!null_move_allowed(&start, true, true, 0, 2));
    assert!(!null_move_allowed(&start, true, true, 1, 1));
    // King and pawns alone.
    let bare = fen::load_fen(&tables, "4k3/pppp4/8/8/8/8/PPPP4/4K3 w - - 0 1").unwrap();
    assert!(!null_move_allowed(&bare, true, true, 3, 4));
    // The side to move counts, not the other.
    let knight = fen::load_fen(&tables, "4k3/pppp4/8/8/8/8/PPPP4/4K1N1 w - - 0 1").unwrap();
    assert!(null_move_allowed(&knight, true, true, 3, 4));
    let knight_waits = fen::load_fen(&tables, "4k3/pppp4/8/8/8/8/PPPP4/4K1N1 b - - 0 1").unwrap();
    assert!(!null_move_allowed(&knight_waits, true, true, 3, 4));
    // In check.
    let checked = fen::load_fen(&tables, "4k3/8/8/8/8/8/4r3/4K1N1 w - - 0 1").unwrap();
    assert!(!null_move_allowed(&checked, true, true, 3, 4));
    assert_eq!(null_move_depth(0), 0);
    assert_eq!(null_move_depth(1), 0);
    assert_eq!(null_move_depth(7), 3);
    assert_eq!(null_move_depth(255), 127);
}

#[test]
fn what_is_stored_says_which_bound_it_is() {
    assert_eq!(bound_kind(true, false), EntryType::FailHigh);
    assert_eq!(bound_kind(true, true), EntryType::FailHigh);
    assert_eq!(bound_kind(false, true), EntryType::FailLow);
    assert_eq!(bound_kind(false, false), EntryType::Exact);
}

#[test]
fn the_latest_best_move_is_counted_among_all() {
    assert_eq!(matching_best_moves(&vec![]), 0);
    assert_eq!(matching_best_moves(&vec![3]), 1);
    assert_eq!(matching_best_moves(&vec![3, 4, 3, 5, 3]), 3);
    assert_eq!(matching_best_moves(&vec![3, 3, 3, 5]), 1);
    assert_eq!(matching_best_moves(&vec![0; 40]), 40);
}

fn rated(pairs: &[(usize, i64)]) -> Vec<RatedMove> {
    pairs.iter().map(|&(idx, key)| RatedMove { idx, key }).collect()
}

#[test]
fn moves_are_sorted_with_larger_numbers_first() {
    let mut moves = rated(&[(0, 5), (1, 9), (2, -3), (3, 7)]);
    sort_rated(&mut moves);
    assert_eq!(moves, rated(&[(1, 9), (3, 7), (0, 5), (2, -3)]));

    let mut none: Vec<RatedMove> = Vec::new();
    sort_rated(&mut none);
    assert!(none.is_empty());

    let mut one = rated(&[(4, 1)]);
    sort_rated(&mut one);
    assert_eq!(one, rated(&[(4, 1)]));

    let mut rising = rated(&[(0, 1), (1, 2), (2, 3), (3, i64::MAX), (4, i64::MIN)]);
    sort_rated(&mut rising);
    assert_eq!(rising, rated(&[(3, i64::MAX), (2, 3), (1, 2), (0, 1), (4, i64::MIN)]));
}

#[test]
fn moves_with_the_same_number_keep_their_order() {
    let mut moves = rated(&[(0, 2), (1, 8), (2, 2), (3, 8), (4, 2), (5, 8)]);
    sort_rated(&mut moves);
    assert_eq!(moves, rated(&[(1, 8), (3, 8), (5, 8), (0, 2), (2, 2), (4, 2)]));
    // The order is that of the places in the list, whatever the moves
    // are numbered.
    let mut named = rated(&[(9, 1), (3, 1), (7, 1), (3, 1)]);
    sort_rated(&mut named);
    assert_eq!(named, rated(&[(9, 1), (3, 1), (7, 1), (3, 1)]));
}

#[test]
fn sorting_agrees_with_a_stable_sort() {
    // A fixed scramble of numbers with many ties.
    let mut moves: Vec<RatedMove> = Vec::new();
    let mut seed: u64 = 12345;
    for idx in 0..200usize {
        seed = seed.wrapping_mul(6364136223846793005).wrapping_add(1442695040888963407);
        moves.push(RatedMove { idx, key: ((seed >> 33) % 17) as i64 - 8 });
    }
    let mut expected = moves.clone();
    expected.sort_by(|a, b| b.key.cmp(&a.key));
    sort_rated(&mut moves);
    assert_eq!(moves, expected);
}
