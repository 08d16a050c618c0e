use board_crab::board::Board;
use board_crab::move_gen;
use board_crab::search::{determine_pv, is_repetition, PvError};
use board_crab::transpos::{Bucket, Entry, EntryType, Table};

#[test]
fn the_empty_entry_and_the_checksum() {
    let empty = Entry::new();
    assert_eq!(empty.hash, 0);
    assert_eq!(empty.eval_bits, 0);
    assert_eq!(empty.entry_type, EntryType::Invalid);
    assert_eq!(empty.checksum, 0);
    assert!(!empty.is_set());
    assert!(!empty.is_valid());

    let mut entry = Entry {
        hash: 1,
        eval_bits: 0,
        best_move_idx: 0,
        depth_remaining: 0,
        entry_type: EntryType::Exact,
        age_count: 9,
        checksum: 0,
    };
    assert!(entry.is_set());
    assert!(!entry.is_valid());
    entry.update_checksum();
    assert_eq!(entry.checksum, 17);
    assert!(entry.is_valid());
    // The age is no part of the checksum.
    entry.age_count = 10;
    assert!(entry.is_valid());
    entry.depth_remaining = 2;
    assert!(!entry.is_valid());

    // The evaluation enters as a signed number.
    let mut negative = Entry {
        hash: 0,
        eval_bits: 0x8000_0000,
        best_move_idx: 0,
        depth_remaining: 0,
        entry_type: EntryType::Exact,
        age_count: 0,
        checksum: 0,
    };
    negative.update_checksum();
    assert_eq!(negative.checksum, 0xffff_fffc_0000_0001);

    let mut full = Entry {
        hash: 0x0123_4567_89ab_cdef,
        eval_bits: 0x3f80_0000,
        best_move_idx: 7,
        depth_remaining: 5,
        entry_type: EntryType::FailHigh,
        age_count: 0,
        checksum: 0,
    };
    full.update_checksum();
    let mut sum: u64 = 0x0123_4567_89ab_cdef;
    for value in [0x3f80_0000u64, 7, 5, 3] {
        sum = sum.wrapping_add(value ^ sum);
    }
    assert_eq!(full.checksum, sum);
    assert!(full.is_valid());
    let low = Entry { entry_type: EntryType::FailLow, ..full };
    assert!(!low.is_valid());
    let bucket = Bucket::new();
    assert!(!bucket.entries[3].is_set());
}

#[test]
fn a_new_table() {
    let table = Table::new(1);
    assert_eq!(table.get_size_mbs(), 1);
    assert_eq!(table.buckets.len(), 7812);
    assert_eq!(table.age_count, 0);
    assert!(!table.is_any_entry_locked());
    assert!(!table.get_fast(12345).is_set());
    assert_eq!(Table::new(4).buckets.len(), 31250);
}

#[test]
fn writing_and_reading() {
    let mut table = Table::new(1);
    table.set(12345, 0x4000_0000, 3, 6, EntryType::Exact);
    let found = table.get_fast(12345);
    assert!(found.is_valid());
    assert_eq!(found.hash, 12345);
    assert_eq!(found.eval_bits, 0x4000_0000);
    assert_eq!(found.best_move_idx, 3);
    assert_eq!(found.depth_remaining, 6);
    assert_eq!(found.entry_type, EntryType::Exact);
    assert_eq!(found.age_count, 1);
    assert_eq!(table.age_count, 1);
    assert!(!table.get_fast(12346).is_set());
    // Another hash of the same bucket.
    assert!(!table.get_fast(12345 + 7812).is_set());
    // Writing under the same hash again takes the same slot.
    table.set(12345, 0x4040_0000, 4, 7, EntryType::FailLow);
    let again = table.get_fast(12345);
    assert_eq!(again.best_move_idx, 4);
    assert_eq!(again.entry_type, EntryType::FailLow);
    assert_eq!(again.age_count, 2);
    let bucket = table.buckets[12345 % 7812];
    assert_eq!(bucket.entries[0].hash, 12345);
    assert!(!bucket.entries[1].is_set());
}

#[test]
fn the_oldest_entry_gives_way() {
    let mut table = Table::new(1);
    let buckets = 7812u64;
    let hashes = [100, 100 + buckets, 100 + 2 * buckets, 100 + 3 * buckets];
    for (i, hash) in hashes.iter().enumerate() {
        table.set(*hash, 0, i as u8, 1, EntryType::Exact);
    }
    for (i, hash) in hashes.iter().enumerate() {
        let found = table.get_fast(*hash);
        assert!(found.is_valid());
        assert_eq!(found.best_move_idx, i as u8);
        assert_eq!(found.age_count, i as u64 + 1);
    }
    // A fifth hash takes the place of the first, which is the oldest.
    let fifth = 100 + 4 * buckets;
    table.set(fifth, 0, 9, 1, EntryType::Exact);
    assert!(!table.get_fast(hashes[0]).is_set());
    assert_eq!(table.get_fast(fifth).best_move_idx, 9);
    assert_eq!(table.get_fast(fifth).age_count, 5);
    assert_eq!(table.buckets[100].entries[0].hash, fifth);
    for hash in &hashes[1..] {
        assert!(table.get_fast(*hash).is_valid());
    }
    // Refreshing the second makes the third the oldest.
    table.set(hashes[1], 0, 1, 2, EntryType::Exact);
    let sixth = 100 + 5 * buckets;
    table.set(sixth, 0, 10, 1, EntryType::Exact);
    assert!(table.get_fast(hashes[1]).is_valid());
    assert!(!table.get_fast(hashes[2]).is_set());
    assert_eq!(table.buckets[100].entries[2].hash, sixth);
}

#[test]
fn a_torn_entry_counts_as_absent() {
    let mut table = Table::new(1);
    table.set(777, 0x3f80_0000, 2, 4, EntryType::FailHigh);
    assert!(table.get_fast(777).is_valid());
    assert!(!table.is_any_entry_locked());
    // Half of a write: the depth is new, the checksum is old.
    table.buckets[777].entries[0].depth_remaining = 7;
    assert!(table.is_any_entry_locked());
    let found = table.get_fast(777);
    assert!(!found.is_set());
    assert_eq!(found.hash, 0);
    assert_eq!(found.checksum, 0);
    table.buckets[777].entries[0].update_checksum();
    assert!(!table.is_any_entry_locked());
    assert_eq!(table.get_fast(777).depth_remaining, 7);
}

#[test]
fn the_line_of_best_moves() {
    let tables = board_crab::init();
    let start = Board::start_pos(&tables);
    let mut table = Table::new(1);
    assert_eq!(determine_pv(&tables, start, &table), Err(PvError::NoEntry));

    let moves = move_gen::generate_moves(&tables, &start);
    table.set(start.hash, 0, 5, 1, EntryType::Exact);
    let line = determine_pv(&tables, start, &table).unwrap();
    assert_eq!(line, vec![moves[5]]);

    let mut second = start;
    second.do_move(&tables, &moves[5]);
    let replies = move_gen::generate_moves(&tables, &second);
    table.set(second.hash, 0, 19, 1, EntryType::FailLow);
    let line = determine_pv(&tables, start, &table).unwrap();
    assert_eq!(line, vec![moves[5], replies[19]]);

    // An entry that names a move that the position does not have.
    table.set(second.hash, 0, 20, 1, EntryType::Exact);
    assert_eq!(determine_pv(&tables, start, &table), Err(PvError::BadMoveIndex));
    table.set(start.hash, 0, 200, 1, EntryType::Exact);
    assert_eq!(determine_pv(&tables, start, &table), Err(PvError::BadMoveIndex));
}

#[test]
fn a_line_that_comes_back_to_a_position() {
    let tables = board_crab::init();
    let start = Board::start_pos(&tables);
    let mut table = Table::new(1);
    // Both sides move a knight out and back: ply four reaches a position
    // with the hash of the first but for the rights, which are the same.
    let mut board = start;
    let mut expected = Vec::new();
    for text in ["g1f3", "g8f6", "f3g1", "f6g8"] {
        let moves = move_gen::generate_moves(&tables, &board);
        let idx = moves.iter().position(|m| m.to_string() == text).unwrap();
        table.set(board.hash, 0, idx as u8, 1, EntryType::Exact);
        expected.push(moves[idx]);
        board.do_move(&tables, &moves[idx]);
    }
    assert_eq!(board.hash, start.hash);
    assert_eq!(determine_pv(&tables, start, &table).unwrap(), expected);
}

#[test]
fn positions_that_stood_before() {
    let mut hashes = [0u64; 256];
    for (i, hash) in hashes.iter_mut().enumerate() {
        *hash = 1000 + i as u64;
    }
    assert!(is_repetition(&hashes, 12, 1010));
    assert!(is_repetition(&hashes, 12, 1008));
    assert!(is_repetition(&hashes, 12, 1002));
    // An odd number of moves back, more than ten back, and the place itself.
    assert!(!is_repetition(&hashes, 12, 1011));
    assert!(!is_repetition(&hashes, 12, 1000));
    assert!(!is_repetition(&hashes, 12, 1012));
    assert!(!is_repetition(&hashes, 12, 1014));
    assert!(is_repetition(&hashes, 2, 1000));
    assert!(!is_repetition(&hashes, 1, 1000));
    assert!(!is_repetition(&hashes, 0, 1000));
    assert!(is_repetition(&hashes, 255, 1245));
    assert!(!is_repetition(&hashes, 255, 1243));
}

// A line is as long as the table leads on: it is not cut after any number
// of moves.
#[test]
fn a_line_of_hundreds_of_moves() {
    let tables = board_crab::init();
    let start = Board::start_pos(&tables);
    let mut table = Table::new(4);
    let mut seen: Vec<u64> = Vec::new();
    let mut expected = Vec::new();
    let mut board = start;
    // At each position a move that leads to a position which has moves and
    // did not stand before: the first such from a place that goes round.
    while expected.len() < 600 {
        seen.push(board.hash);
        let moves = move_gen::generate_moves(&tables, &board);
        let mut chosen = None;
        for k in 0..moves.len() {
            let idx = (expected.len() * 5 + k) % moves.len();
            let mv = moves[idx];
            let mut next = board;
            next.do_move(&tables, &mv);
            if !seen.contains(&next.hash) && !move_gen::generate_moves(&tables, &next).is_empty() {
                chosen = Some((idx, mv, next));
                break;
            }
        }
        let (idx, mv, next) = match chosen {
            Some(found) => found,
            None => break,
        };
        table.set(board.hash, 0, idx as u8, 1, EntryType::Exact);
        expected.push(mv);
        board = next;
    }
    assert!(expected.len() > 256, "only {} moves", expected.len());
    // Every entry is still there: no bucket took more than four.
    for hash in seen.iter().take(expected.len()) {
        assert!(table.get_fast(*hash).is_set());
    }
    assert_eq!(determine_pv(&tables, start, &table).unwrap(), expected);
}
