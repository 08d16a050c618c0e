use board_crab::board::{PIECE_BISHOP, PIECE_QUEEN, PIECE_ROOK};
use board_crab::lookup_gen;
use board_crab::lookup_gen_magic;
use rand::Rng;

// With no multiplier drawn there are no tables.
#[test]
fn magic_init_without_tries_finds_nothing() {
    let lookup = lookup_gen::init();
    assert!(lookup_gen_magic::init(&lookup, 0).is_none());
    let tables = board_crab::init_with_magic(0);
    assert!(tables.magic.is_none());
}

// The magic tables give what walking the board gives.
#[test]
fn magic_tables_agree_with_walking() {
    let lookup = lookup_gen::init();
    let magic = match lookup_gen_magic::init(&lookup, 400_000) {
        Some(magic) => magic,
        None => return,
    };
    let mut rng = rand::rng();
    for pos_idx in 0..64usize {
        for _ in 0..200 {
            let occupy: u64 = rng.random::<u64>() & rng.random::<u64>();
            for piece_idx in [PIECE_BISHOP, PIECE_ROOK, PIECE_QUEEN] {
                assert_eq!(
                    lookup_gen::get_slider_tos_fast(&magic, piece_idx, pos_idx, occupy),
                    lookup_gen::get_slider_tos_slow(piece_idx, pos_idx, occupy)
                );
            }
        }
    }
    // A rook on a1 with a piece on a4 and one on c1.
    let occupy = (1u64 << 24) | (1u64 << 2);
    assert_eq!(
        lookup_gen_magic::get_rook_moves(&magic, 0, occupy),
        (1u64 << 8) | (1u64 << 16) | (1u64 << 24) | (1u64 << 1) | (1u64 << 2)
    );
    // A bishop on c1 with a piece on e3.
    assert_eq!(
        lookup_gen_magic::get_bishop_moves(&magic, 2, 1u64 << 20),
        (1u64 << 9) | (1u64 << 16) | (1u64 << 11) | (1u64 << 20)
    );
}

/// The subsets of `mask`, the empty one first.
fn subsets_of(mask: u64) -> Vec<u64> {
    let mut subsets = Vec::new();
    let mut subset: u64 = 0;
    loop {
        subsets.push(subset);
        subset = subset.wrapping_sub(mask) & mask;
        if subset == 0 {
            return subsets;
        }
    }
}

// With one square that can matter, a multiplier parts the two sets of
// blockers where its lowest bit is set.
#[test]
fn a_multiplier_is_taken_where_it_parts_the_blockers() {
    let mask = 1u64 << 63;
    let subsets = subsets_of(mask);
    assert_eq!(subsets, vec![0, mask]);

    let mut all_moves: Vec<u64> = vec![7, 8, 9];
    let mut stamps: Vec<usize> = vec![0, 0];
    let found = lookup_gen_magic::try_factor(&mut all_moves, &subsets, &mut stamps, 1, true, 0, mask, 5);
    let entry = found.unwrap();
    assert_eq!(entry.mask, mask);
    assert_eq!(entry.magic_factor, 5);
    assert_eq!(entry.shift, 63);
    assert_eq!(entry.table_offset, 3);
    assert_eq!(stamps, vec![1, 1]);
    assert_eq!(all_moves.len(), 5);
    assert_eq!(&all_moves[..3], &[7, 8, 9]);
    // The empty set has slot 0, the full one slot 1.
    assert_eq!(entry.index(0), 3);
    assert_eq!(entry.index(mask), 4);
    assert_eq!(all_moves[3], lookup_gen::get_slider_tos_slow(PIECE_ROOK, 0, 0));
    assert_eq!(all_moves[4], lookup_gen::get_slider_tos_slow(PIECE_ROOK, 0, mask));
    assert_eq!(all_moves[3], 0x0101_0101_0101_01fe);

    // An even multiplier sends both sets to slot 0.
    let mut all_moves: Vec<u64> = vec![7, 8, 9];
    let found = lookup_gen_magic::try_factor(&mut all_moves, &subsets, &mut stamps, 2, true, 0, mask, 6);
    assert!(found.is_none());
    assert_eq!(all_moves, vec![7, 8, 9]);
    assert_eq!(stamps, vec![2, 1]);
    let found = lookup_gen_magic::try_factor(&mut all_moves, &subsets, &mut stamps, 3, true, 0, mask, 0);
    assert!(found.is_none());
    assert_eq!(all_moves, vec![7, 8, 9]);
}

// A multiplier that the search found is taken again, and gives the table
// that the search built with it; the multiplier 0 is not.
#[test]
fn a_found_multiplier_is_taken_again() {
    let lookup = lookup_gen::init();
    let magic = match lookup_gen_magic::init(&lookup, 400_000) {
        Some(magic) => magic,
        None => return,
    };
    for (rook, pos_idx) in [(true, 28usize), (false, 28), (true, 0), (false, 63), (true, 7)] {
        let known = if rook { magic.rook[pos_idx] } else { magic.bishop[pos_idx] };
        let piece_idx = if rook { PIECE_ROOK } else { PIECE_BISHOP };
        let num_bits = known.mask.count_ones();
        assert_eq!(known.shift as u32, 64 - num_bits);
        let subsets = subsets_of(known.mask);
        assert_eq!(subsets.len(), 1usize << num_bits);

        let mut all_moves: Vec<u64> = Vec::new();
        let mut stamps: Vec<usize> = vec![0; 1usize << num_bits];
        let found = lookup_gen_magic::try_factor(
            &mut all_moves,
            &subsets,
            &mut stamps,
            1,
            rook,
            pos_idx,
            known.mask,
            known.magic_factor,
        );
        let entry = found.unwrap();
        assert_eq!(entry.mask, known.mask);
        assert_eq!(entry.magic_factor, known.magic_factor);
        assert_eq!(entry.shift, known.shift);
        assert_eq!(entry.table_offset, 0);
        assert_eq!(all_moves.len(), 1usize << num_bits);
        assert!(stamps.iter().all(|&stamp| stamp == 1));
        for &subset in subsets.iter() {
            assert_eq!(
                all_moves[entry.index(subset)],
                lookup_gen::get_slider_tos_slow(piece_idx, pos_idx, subset)
            );
            assert_eq!(all_moves[entry.index(subset)], magic.all_moves[known.index(subset)]);
        }

        let found = lookup_gen_magic::try_factor(
            &mut all_moves,
            &subsets,
            &mut stamps,
            2,
            rook,
            pos_idx,
            known.mask,
            0,
        );
        assert!(found.is_none());
        assert_eq!(all_moves.len(), 1usize << num_bits);
    }
}

// The masks of the entries hold the squares that can matter.
#[test]
fn the_masks_of_the_magic_entries() {
    let lookup = lookup_gen::init();
    let magic = match lookup_gen_magic::init(&lookup, 400_000) {
        Some(magic) => magic,
        None => return,
    };
    // A rook on a1: a2 to a7 and b1 to g1.
    assert_eq!(magic.rook[0].mask, 0x0001_0101_0101_017e);
    assert_eq!(magic.rook[0].shift, 52);
    // A rook on e4: its file without the first and last rank, its own
    // square counted, and its rank without the first and last file.
    assert_eq!(magic.rook[28].mask, 0x0010_1010_7e10_1000);
    // A bishop on a1: b2 to g7.
    assert_eq!(magic.bishop[0].mask, 0x0040_2010_0804_0200);
    assert_eq!(magic.bishop[0].shift, 58);
    // A bishop on e4.
    assert_eq!(magic.bishop[28].mask, 0x0002_4428_0028_4400);
    assert_eq!(magic.bishop[28].shift, 55);
}

// The squares that can matter, and their subsets in order.
#[test]
fn relevant_squares_and_their_subsets() {
    let lookup = lookup_gen::init();
    assert_eq!(lookup_gen_magic::relevant_squares(&lookup, true, 0), 0x0001_0101_0101_017e);
    assert_eq!(lookup_gen_magic::relevant_squares(&lookup, true, 28), 0x0010_1010_7e10_1000);
    assert_eq!(lookup_gen_magic::relevant_squares(&lookup, false, 0), 0x0040_2010_0804_0200);
    assert_eq!(lookup_gen_magic::relevant_squares(&lookup, false, 28), 0x0002_4428_0028_4400);
    for pos_idx in 0..64usize {
        for rook in [true, false] {
            let bits = lookup_gen_magic::relevant_squares(&lookup, rook, pos_idx).count_ones();
            assert!(1 <= bits && bits <= if rook { 12 } else { 9 });
        }
    }
    assert_eq!(lookup_gen_magic::enumerate_subsets(0), vec![0]);
    assert_eq!(lookup_gen_magic::enumerate_subsets(0b101), vec![0, 1, 4, 5]);
    assert_eq!(
        lookup_gen_magic::enumerate_subsets(0x8000_0000_0000_0003),
        vec![0, 1, 2, 3, 1 << 63, (1 << 63) | 1, (1 << 63) | 2, (1 << 63) | 3]
    );
    assert_eq!(lookup_gen_magic::enumerate_subsets(0x0001_0101_0101_017e), subsets_of(0x0001_0101_0101_017e));
}

// The entry of a square with a given multiplier: there is one where the
// multiplier parts the blockers, and none where it does not.
#[test]
fn the_entry_of_a_square_with_a_multiplier() {
    let lookup = lookup_gen::init();
    let magic = match lookup_gen_magic::init(&lookup, 400_000) {
        Some(magic) => magic,
        None => return,
    };
    for (rook, pos_idx) in [(true, 27usize), (false, 27), (true, 63), (false, 0)] {
        let known = if rook { magic.rook[pos_idx] } else { magic.bishop[pos_idx] };
        let piece_idx = if rook { PIECE_ROOK } else { PIECE_BISHOP };
        let mut all_moves: Vec<u64> = vec![1, 2];
        let entry =
            lookup_gen_magic::entry_with(&mut all_moves, &lookup, rook, pos_idx, known.magic_factor)
                .unwrap();
        assert_eq!(entry.mask, known.mask);
        assert_eq!(entry.shift, known.shift);
        assert_eq!(entry.magic_factor, known.magic_factor);
        assert_eq!(entry.table_offset, 2);
        assert_eq!(all_moves.len(), 2 + (1usize << known.mask.count_ones()));
        assert_eq!(&all_moves[..2], &[1, 2]);
        let mut rng = rand::rng();
        for _ in 0..200 {
            let occupy: u64 = rng.random::<u64>() & rng.random::<u64>();
            assert_eq!(
                all_moves[entry.index(occupy)],
                lookup_gen::get_slider_tos_slow(piece_idx, pos_idx, occupy)
            );
        }
        // Zero sends every set of blockers to slot 0, and one leaves the
        // high bits, which the shift keeps, empty for most of them.
        let mut all_moves: Vec<u64> = vec![1, 2];
        assert!(lookup_gen_magic::entry_with(&mut all_moves, &lookup, rook, pos_idx, 0).is_none());
        assert_eq!(all_moves, vec![1, 2]);
        assert!(lookup_gen_magic::entry_with(&mut all_moves, &lookup, rook, pos_idx, 1).is_none());
        assert_eq!(all_moves, vec![1, 2]);
    }
}
